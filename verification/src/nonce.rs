//! Nonces: fixed-width byte strings, ordered by the unsigned integer they spell
//! with the most significant byte first.

use vstd::prelude::*;

verus! {

/// Widest nonce the library works with. The whole space of a width must be
/// countable in a `u64`, and `256^8` is not.
pub const MAX_NONCE_WIDTH: usize = 7;

/// Number of nonces of `width` bytes: `256^width`.
pub open spec fn space_size(width: nat) -> nat
    decreases width,
{
    if width == 0 {
        1
    } else {
        256 * space_size((width - 1) as nat)
    }
}

/// The integer that `bytes` spells, most significant byte first.
pub open spec fn nonce_value(bytes: Seq<u8>) -> nat
    decreases bytes.len(),
{
    if bytes.len() == 0 {
        0
    } else {
        nonce_value(bytes.drop_last()) * 256 + bytes.last() as nat
    }
}

/// The `width` low-order bytes of `value`, most significant byte first.
pub open spec fn nonce_bytes(value: nat, width: nat) -> Seq<u8>
    decreases width,
{
    if width == 0 {
        Seq::empty()
    } else {
        nonce_bytes(value / 256, (width - 1) as nat).push((value % 256) as u8)
    }
}

/// Every nonce of `width` bytes.
pub open spec fn nonce_space(width: nat) -> Set<Seq<u8>> {
    Set::new(|bytes: Seq<u8>| bytes.len() == width)
}

/// The space grows with the width, and never holds fewer than one nonce.
pub proof fn lemma_space_size_monotonic(narrow: nat, wide: nat)
    requires
        narrow <= wide,
    ensures
        1 <= space_size(narrow) <= space_size(wide),
    decreases wide,
{
    if wide == 0 {
    } else if narrow == wide {
        lemma_space_size_monotonic((narrow - 1) as nat, (wide - 1) as nat);
    } else {
        lemma_space_size_monotonic(narrow, (wide - 1) as nat);
    }
}

/// The space of the widest nonce still fits a `u64`.
pub proof fn lemma_space_size_fits(width: nat)
    requires
        width <= MAX_NONCE_WIDTH,
    ensures
        1 <= space_size(width) <= 0x0100_0000_0000_0000,
{
    lemma_space_size_monotonic(width, 7);
    assert(space_size(7) == 0x0100_0000_0000_0000) by {
        reveal_with_fuel(space_size, 8);
    }
}

/// A nonce spells a value below the size of its space.
pub proof fn lemma_value_in_space(bytes: Seq<u8>)
    ensures
        nonce_value(bytes) < space_size(bytes.len()),
    decreases bytes.len(),
{
    if bytes.len() > 0 {
        lemma_value_in_space(bytes.drop_last());
    }
}

/// `nonce_bytes` has the width asked for.
pub proof fn lemma_bytes_width(value: nat, width: nat)
    ensures
        nonce_bytes(value, width).len() == width,
    decreases width,
{
    if width > 0 {
        lemma_bytes_width(value / 256, (width - 1) as nat);
    }
}

/// Spelling a nonce's value at the nonce's own width gives the nonce back.
pub proof fn lemma_bytes_of_value(bytes: Seq<u8>)
    ensures
        nonce_bytes(nonce_value(bytes), bytes.len()) == bytes,
    decreases bytes.len(),
{
    if bytes.len() > 0 {
        let head = bytes.drop_last();
        let value = nonce_value(bytes);
        lemma_bytes_of_value(head);
        assert(value / 256 == nonce_value(head));
        assert(value % 256 == bytes.last() as nat);
        assert(nonce_bytes(value, bytes.len()) =~= bytes);
    }
}

/// A value below the size of the space is the value of its own spelling.
pub proof fn lemma_value_of_bytes(value: nat, width: nat)
    requires
        value < space_size(width),
    ensures
        nonce_bytes(value, width).len() == width,
        nonce_value(nonce_bytes(value, width)) == value,
    decreases width,
{
    lemma_bytes_width(value, width);
    if width > 0 {
        let bytes = nonce_bytes(value, width);
        lemma_value_of_bytes(value / 256, (width - 1) as nat);
        assert(bytes.drop_last() =~= nonce_bytes(value / 256, (width - 1) as nat));
        assert(bytes.last() == (value % 256) as u8);
    }
}

/// Two nonces of one width that spell the same value are the same nonce.
pub proof fn lemma_value_injective(a: Seq<u8>, b: Seq<u8>)
    requires
        a.len() == b.len(),
        nonce_value(a) == nonce_value(b),
    ensures
        a == b,
{
    lemma_bytes_of_value(a);
    lemma_bytes_of_value(b);
}

/// There are exactly `256^width` nonces of `width` bytes.
pub proof fn lemma_nonce_space_len(width: nat)
    ensures
        nonce_space(width).finite(),
        nonce_space(width).len() == space_size(width),
{
    let values = vstd::set_lib::set_int_range(0, space_size(width) as int);
    let spell = |value: int| nonce_bytes(value as nat, width);
    vstd::set_lib::lemma_int_range(0, space_size(width) as int);
    assert forall|x: int, y: int|
        values.contains(x) && values.contains(y) && #[trigger] spell(x) == #[trigger] spell(y)
        implies x == y by {
        lemma_value_of_bytes(x as nat, width);
        lemma_value_of_bytes(y as nat, width);
    }
    assert(vstd::relations::injective_on(spell, values));
    assert forall|bytes: Seq<u8>| nonce_space(width).contains(bytes) implies #[trigger] values.map(
        spell,
    ).contains(bytes) by {
        lemma_value_in_space(bytes);
        lemma_bytes_of_value(bytes);
        assert(values.contains(nonce_value(bytes) as int));
        assert(spell(nonce_value(bytes) as int) == bytes);
    }
    assert forall|bytes: Seq<u8>| #[trigger] values.map(spell).contains(bytes) implies nonce_space(
        width,
    ).contains(bytes) by {
        let value = choose|value: int| values.contains(value) && spell(value) == bytes;
        lemma_bytes_width(value as nat, width);
    }
    assert(values.map(spell) =~= nonce_space(width));
    vstd::set_lib::lemma_map_size(values, nonce_space(width), spell);
}

/// Counts the nonces of `width` bytes.
pub fn space_len(width: usize) -> (size: u64)
    requires
        width <= MAX_NONCE_WIDTH,
    ensures
        size == space_size(width as nat),
{
    let mut size: u64 = 1;
    let mut done: usize = 0;
    while done < width
        invariant
            done <= width <= MAX_NONCE_WIDTH,
            size == space_size(done as nat),
        decreases width - done,
    {
        proof {
            lemma_space_size_fits((done + 1) as nat);
        }
        size = size * 256;
        done = done + 1;
    }
    size
}

/// Reads a nonce as an integer, most significant byte first.
pub fn value_of(nonce: &[u8]) -> (value: u64)
    requires
        nonce@.len() <= MAX_NONCE_WIDTH,
    ensures
        value == nonce_value(nonce@),
{
    let mut value: u64 = 0;
    let mut at: usize = 0;
    while at < nonce.len()
        invariant
            at <= nonce@.len() <= MAX_NONCE_WIDTH,
            value == nonce_value(nonce@.take(at as int)),
        decreases nonce@.len() - at,
    {
        proof {
            let longer = nonce@.take(at + 1);
            assert(longer.drop_last() =~= nonce@.take(at as int));
            lemma_value_in_space(longer);
            lemma_space_size_fits(longer.len());
        }
        value = value * 256 + nonce[at] as u64;
        at = at + 1;
    }
    proof {
        assert(nonce@.take(at as int) =~= nonce@);
    }
    value
}

/// Whether two byte strings are the same.
pub fn same_bytes(a: &[u8], b: &[u8]) -> (same: bool)
    ensures
        same == (a@ == b@),
{
    if a.len() != b.len() {
        return false;
    }
    let mut at: usize = 0;
    while at < a.len()
        invariant
            at <= a@.len(),
            a@.len() == b@.len(),
            forall|i: int| 0 <= i < at ==> a@[i] == b@[i],
        decreases a@.len() - at,
    {
        if a[at] != b[at] {
            return false;
        }
        at = at + 1;
    }
    proof {
        assert(a@ =~= b@);
    }
    true
}

/// Spells the `width` low-order bytes of `value`, most significant byte first.
pub fn nonce_of(value: u64, width: usize) -> (nonce: Vec<u8>)
    ensures
        nonce@ == nonce_bytes(value as nat, width as nat),
{
    let mut nonce: Vec<u8> = Vec::new();
    let mut filled: usize = 0;
    while filled < width
        invariant
            filled <= width,
            nonce@.len() == filled,
            forall|i: int| 0 <= i < filled ==> nonce@[i] == 0u8,
        decreases width - filled,
    {
        nonce.push(0u8);
        filled = filled + 1;
    }
    let mut rest: u64 = value;
    let mut at: usize = width;
    while at > 0
        invariant
            at <= width,
            nonce@.len() == width,
            nonce_bytes(value as nat, width as nat) == nonce_bytes(rest as nat, at as nat)
                + nonce@.skip(at as int),
        decreases at,
    {
        let low: u8 = (rest % 256) as u8;
        at = at - 1;
        nonce.set(at, low);
        proof {
            let head = nonce_bytes((rest / 256) as nat, at as nat);
            lemma_bytes_width((rest / 256) as nat, at as nat);
            assert(nonce_bytes(rest as nat, (at + 1) as nat) == head.push(low));
            assert(head.push(low) + nonce@.skip(at + 1) =~= head + nonce@.skip(at as int));
        }
        rest = rest / 256;
    }
    proof {
        assert(nonce_bytes(rest as nat, 0) + nonce@.skip(0) =~= nonce@);
    }
    nonce
}

} // verus!
