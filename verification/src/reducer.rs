//! The reducer: compresses a digest to nonce width by taking its first chunk and
//! XOR-folding every further complete chunk into it.

use vstd::prelude::*;

verus! {

/// Byte-wise exclusive-or of two byte strings; the result is as long as `a`.
pub open spec fn xor_bytes(a: Seq<u8>, b: Seq<u8>) -> Seq<u8> {
    Seq::new(a.len(), |i: int| a[i] ^ b[i])
}

/// The chunk of `width` bytes number `index` of `digest`, counting from zero.
pub open spec fn chunk(digest: Seq<u8>, width: nat, index: nat) -> Seq<u8> {
    digest.subrange((index * width) as int, (index * width + width) as int)
}

/// The first chunk of `digest` with the chunks `1 .. count` folded into it.
pub open spec fn folded(digest: Seq<u8>, width: nat, count: nat) -> Seq<u8>
    decreases count,
{
    if count <= 1 {
        chunk(digest, width, 0)
    } else {
        xor_bytes(folded(digest, width, (count - 1) as nat), chunk(digest, width, (count - 1) as nat))
    }
}

/// The nonce that `digest` reduces to: its first `width` bytes, with every
/// later complete chunk of `width` bytes folded in. A shorter tail is ignored.
pub open spec fn reduced(digest: Seq<u8>, width: nat) -> Seq<u8> {
    if width == 0 {
        Seq::empty()
    } else {
        folded(digest, width, digest.len() / width)
    }
}

/// The complete chunks of `digest`, in order.
pub open spec fn chunks_of(digest: Seq<u8>, width: nat) -> Seq<Seq<u8>> {
    Seq::new(digest.len() / width, |index: int| chunk(digest, width, index as nat))
}

/// The all-zero byte string of `width` bytes.
pub open spec fn zeros(width: nat) -> Seq<u8> {
    Seq::new(width, |i: int| 0u8)
}

/// Exclusive-or of every chunk in `chunks`, starting from zero.
pub open spec fn xor_all(chunks: Seq<Seq<u8>>, width: nat) -> Seq<u8>
    decreases chunks.len(),
{
    if chunks.len() == 0 {
        zeros(width)
    } else {
        xor_bytes(chunks.first(), xor_all(chunks.drop_first(), width))
    }
}

/// Every chunk in `chunks` is `width` bytes wide.
pub open spec fn all_of_width(chunks: Seq<Seq<u8>>, width: nat) -> bool {
    forall|index: int| 0 <= index < chunks.len() ==> (#[trigger] chunks[index]).len() == width
}

proof fn lemma_xor_u8()
    ensures
        forall|a: u8, b: u8| #[trigger] (a ^ b) == b ^ a,
        forall|a: u8, b: u8, c: u8| #[trigger] ((a ^ b) ^ c) == a ^ (b ^ c),
        forall|a: u8| #[trigger] (a ^ 0u8) == a,
{
    assert(forall|a: u8, b: u8| #[trigger] (a ^ b) == b ^ a) by (bit_vector);
    assert(forall|a: u8, b: u8, c: u8| #[trigger] ((a ^ b) ^ c) == a ^ (b ^ c)) by (bit_vector);
    assert(forall|a: u8| #[trigger] (a ^ 0u8) == a) by (bit_vector);
}

/// `xor_bytes` commutes on strings of one width.
pub proof fn lemma_xor_bytes_commutes(a: Seq<u8>, b: Seq<u8>)
    requires
        a.len() == b.len(),
    ensures
        xor_bytes(a, b) == xor_bytes(b, a),
{
    lemma_xor_u8();
    assert(xor_bytes(a, b) =~= xor_bytes(b, a));
}

/// `xor_bytes` is associative on strings of one width.
pub proof fn lemma_xor_bytes_associates(a: Seq<u8>, b: Seq<u8>, c: Seq<u8>)
    requires
        a.len() == b.len(),
        b.len() == c.len(),
    ensures
        xor_bytes(xor_bytes(a, b), c) == xor_bytes(a, xor_bytes(b, c)),
{
    lemma_xor_u8();
    assert(xor_bytes(xor_bytes(a, b), c) =~= xor_bytes(a, xor_bytes(b, c)));
}

/// Folding zero into a string leaves it unchanged.
pub proof fn lemma_xor_bytes_zero(a: Seq<u8>)
    ensures
        xor_bytes(a, zeros(a.len())) == a,
{
    lemma_xor_u8();
    assert(xor_bytes(a, zeros(a.len())) =~= a);
}

/// The exclusive-or of chunks of one width has that width.
pub proof fn lemma_xor_all_width(chunks: Seq<Seq<u8>>, width: nat)
    requires
        all_of_width(chunks, width),
    ensures
        xor_all(chunks, width).len() == width,
    decreases chunks.len(),
{
    if chunks.len() > 0 {
        lemma_xor_all_width(chunks.drop_first(), width);
    }
}

/// Appending a chunk folds it into the exclusive-or of the others.
pub proof fn lemma_xor_all_push(chunks: Seq<Seq<u8>>, last: Seq<u8>, width: nat)
    requires
        all_of_width(chunks, width),
        last.len() == width,
    ensures
        xor_all(chunks.push(last), width) == xor_bytes(xor_all(chunks, width), last),
    decreases chunks.len(),
{
    let longer = chunks.push(last);
    if chunks.len() == 0 {
        assert(longer.drop_first() =~= chunks);
        lemma_xor_bytes_zero(last);
        lemma_xor_bytes_commutes(last, zeros(width));
    } else {
        let tail = chunks.drop_first();
        assert(longer.drop_first() =~= tail.push(last));
        lemma_xor_all_push(tail, last, width);
        lemma_xor_all_width(tail, width);
        lemma_xor_bytes_associates(chunks.first(), xor_all(tail, width), last);
    }
}

/// Taking any one chunk out and folding it back in gives the same result.
pub proof fn lemma_xor_all_remove(chunks: Seq<Seq<u8>>, index: int, width: nat)
    requires
        all_of_width(chunks, width),
        0 <= index < chunks.len(),
    ensures
        xor_all(chunks, width) == xor_bytes(chunks[index], xor_all(chunks.remove(index), width)),
    decreases chunks.len(),
{
    let tail = chunks.drop_first();
    if index == 0 {
        assert(chunks.remove(0) =~= tail);
    } else {
        let rest = tail.remove(index - 1);
        lemma_xor_all_remove(tail, index - 1, width);
        assert(chunks.remove(index).drop_first() =~= rest);
        assert(chunks.remove(index).first() == chunks.first());
        lemma_xor_all_width(rest, width);
        let head = chunks.first();
        let taken = chunks[index];
        let folded_rest = xor_all(rest, width);
        assert(tail[index - 1] == taken);
        lemma_xor_bytes_associates(head, taken, folded_rest);
        lemma_xor_bytes_commutes(head, taken);
        lemma_xor_bytes_associates(taken, head, folded_rest);
    }
}

/// The exclusive-or of chunks does not depend on the order they come in: two
/// sequences that hold the same chunks the same number of times fold alike.
pub proof fn lemma_xor_all_ignores_order(a: Seq<Seq<u8>>, b: Seq<Seq<u8>>, width: nat)
    requires
        all_of_width(a, width),
        all_of_width(b, width),
        a.to_multiset() == b.to_multiset(),
    ensures
        xor_all(a, width) == xor_all(b, width),
    decreases a.len(),
{
    a.to_multiset_ensures();
    b.to_multiset_ensures();
    if a.len() == 0 {
    } else {
        let head = a.first();
        assert(a[0] == head);
        assert(a.to_multiset().count(head) > 0);
        assert(b.to_multiset().count(head) > 0);
        assert(b.contains(head));
        let index = choose|index: int| 0 <= index < b.len() && b[index] == head;
        assert(a.remove(0) =~= a.drop_first());
        lemma_xor_all_ignores_order(a.drop_first(), b.remove(index), width);
        lemma_xor_all_remove(b, index, width);
    }
}

/// The reduction of a digest is the exclusive-or of all its complete chunks:
/// the first chunk is the seed of the fold, and counts like the others.
pub proof fn lemma_reduced_is_xor_of_chunks(digest: Seq<u8>, width: nat)
    requires
        1 <= width <= digest.len(),
    ensures
        reduced(digest, width) == xor_all(chunks_of(digest, width), width),
{
    let count = digest.len() / width;
    assert(count >= 1) by (nonlinear_arith)
        requires
            count == digest.len() / width,
            1 <= width <= digest.len(),
    ;
    lemma_folded_is_xor_of_chunks(digest, width, count);
    assert(chunks_of(digest, width).take(count as int) =~= chunks_of(digest, width));
}

/// A digest at least as long as the nonce reduces to exactly `width` bytes.
pub proof fn lemma_reduced_width(digest: Seq<u8>, width: nat)
    requires
        width <= digest.len(),
    ensures
        reduced(digest, width).len() == width,
{
    if width > 0 {
        lemma_reduced_is_xor_of_chunks(digest, width);
        let chunks = chunks_of(digest, width);
        assert forall|index: int| 0 <= index < chunks.len() implies (#[trigger] chunks[index]).len()
            == width by {
            lemma_chunk_in_range(digest.len(), width, index as nat);
        }
        lemma_xor_all_width(chunks, width);
    }
}

proof fn lemma_chunk_in_range(len: nat, width: nat, index: nat)
    requires
        width >= 1,
        index < len / width,
    ensures
        index * width + width <= len,
{
    assert(index * width + width <= len) by (nonlinear_arith)
        requires
            width >= 1,
            index + 1 <= len / width,
    ;
}

proof fn lemma_folded_is_xor_of_chunks(digest: Seq<u8>, width: nat, count: nat)
    requires
        width >= 1,
        1 <= count <= digest.len() / width,
    ensures
        folded(digest, width, count) == xor_all(chunks_of(digest, width).take(count as int), width),
        folded(digest, width, count).len() == width,
    decreases count,
{
    let chunks = chunks_of(digest, width);
    let prefix = chunks.take(count as int);
    assert forall|index: int| 0 <= index < chunks.len() implies (#[trigger] chunks[index]).len()
        == width by {
        lemma_chunk_in_range(digest.len(), width, index as nat);
    }
    let last = chunk(digest, width, (count - 1) as nat);
    assert(chunks[count - 1] == last);
    if count == 1 {
        assert(prefix.drop_first() =~= Seq::<Seq<u8>>::empty());
        assert(xor_all(Seq::<Seq<u8>>::empty(), width) == zeros(width));
        assert(prefix.first() == last);
        lemma_xor_bytes_zero(last);
    } else {
        let shorter = chunks.take(count - 1);
        lemma_folded_is_xor_of_chunks(digest, width, (count - 1) as nat);
        assert(prefix =~= shorter.push(last));
        lemma_xor_all_push(shorter, last, width);
    }
}

/// Reduces `digest` to a nonce of `width` bytes.
pub fn reduce(digest: &[u8], width: usize) -> (nonce: Vec<u8>)
    requires
        width <= digest@.len(),
    ensures
        nonce@ == reduced(digest@, width as nat),
        nonce@.len() == width,
{
    let mut nonce: Vec<u8> = Vec::new();
    if width == 0 {
        return nonce;
    }
    let mut at: usize = 0;
    while at < width
        invariant
            at <= width <= digest@.len(),
            nonce@ == digest@.take(at as int),
        decreases width - at,
    {
        nonce.push(digest[at]);
        at = at + 1;
        proof {
            assert(nonce@ =~= digest@.take(at as int));
        }
    }
    let ghost mut count: nat = 1;
    let mut start: usize = width;
    proof {
        assert(digest@.take(width as int) =~= chunk(digest@, width as nat, 0));
    }
    while digest.len() - start >= width
        invariant
            1 <= width <= start <= digest@.len(),
            count >= 1,
            start == count * width,
            nonce@ == folded(digest@, width as nat, count),
            nonce@.len() == width,
        decreases digest@.len() - start,
    {
        let ghost before = nonce@;
        let ghost next = chunk(digest@, width as nat, count);
        let mut i: usize = 0;
        while i < width
            invariant
                i <= width,
                start + width <= digest@.len() <= usize::MAX,
                nonce@.len() == width,
                before.len() == width,
                next == digest@.subrange(start as int, start + width),
                forall|j: int| 0 <= j < i ==> nonce@[j] == before[j] ^ next[j],
                forall|j: int| i <= j < width ==> nonce@[j] == before[j],
            decreases width - i,
        {
            let byte: u8 = nonce[i] ^ digest[start + i];
            nonce.set(i, byte);
            i = i + 1;
        }
        proof {
            assert(nonce@ =~= xor_bytes(before, next));
            assert((count + 1) * width == count * width + width) by (nonlinear_arith);
            count = count + 1;
        }
        start = start + width;
    }
    proof {
        vstd::arithmetic::div_mod::lemma_fundamental_div_mod_converse(
            digest@.len() as int,
            width as int,
            count as int,
            digest@.len() - start,
        );
    }
    nonce
}

} // verus!
