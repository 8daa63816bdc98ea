//! Chains as walks along the successor that a table of digests defines, and the
//! heads of chains: the nonces that no smaller nonce ever walks to.

use crate::nonce::nonce_value;
use crate::reducer::reduced;
use vstd::prelude::*;

verus! {

/// The successor of `nonce`: what the digest recorded for it reduces to.
pub open spec fn successor_in(table: Map<Seq<u8>, Seq<u8>>, width: nat, nonce: Seq<u8>) -> Seq<u8> {
    reduced(table[nonce], width)
}

/// The nonce that is `steps` successors after `from`.
pub open spec fn walk(table: Map<Seq<u8>, Seq<u8>>, width: nat, from: Seq<u8>, steps: nat) -> Seq<
    u8,
>
    decreases steps,
{
    if steps == 0 {
        from
    } else {
        successor_in(table, width, walk(table, width, from, (steps - 1) as nat))
    }
}

/// Some number of successors leads from `from` to `to`.
pub open spec fn reaches(
    table: Map<Seq<u8>, Seq<u8>>,
    width: nat,
    from: Seq<u8>,
    to: Seq<u8>,
) -> bool {
    exists|steps: nat| #[trigger] walk(table, width, from, steps) == to
}

/// `nonce` is the head of a chain: no smaller nonce of its width reaches it.
pub open spec fn is_chain_head(table: Map<Seq<u8>, Seq<u8>>, width: nat, nonce: Seq<u8>) -> bool {
    &&& nonce.len() == width
    &&& forall|lower: Seq<u8>|
        lower.len() == width && nonce_value(lower) < nonce_value(nonce) ==> !#[trigger] reaches(
            table,
            width,
            lower,
            nonce,
        )
}

/// The heads of all chains.
pub open spec fn chain_heads(table: Map<Seq<u8>, Seq<u8>>, width: nat) -> Set<Seq<u8>> {
    Set::new(|nonce: Seq<u8>| is_chain_head(table, width, nonce))
}

/// The first `steps` nonces of the walk from `from` are all keys of the table.
pub open spec fn trail(table: Map<Seq<u8>, Seq<u8>>, width: nat, from: Seq<u8>, steps: nat) -> bool {
    forall|earlier: nat| earlier < steps ==> table.contains_key(#[trigger] walk(table, width, from, earlier))
}

/// The walk of `steps` successors from the smaller nonce `from` ends at `to`
/// and passes only keys of the table on the way.
pub open spec fn climbs(
    table: Map<Seq<u8>, Seq<u8>>,
    width: nat,
    from: Seq<u8>,
    steps: nat,
    to: Seq<u8>,
) -> bool {
    &&& from.len() == width
    &&& nonce_value(from) < nonce_value(to)
    &&& trail(table, width, from, steps)
    &&& walk(table, width, from, steps) == to
}

/// Every walk from a nonce smaller than `start` stays among the keys of the
/// table for ever, and never comes to `start`.
pub open spec fn settled_below(table: Map<Seq<u8>, Seq<u8>>, width: nat, start: Seq<u8>) -> bool {
    forall|lower: Seq<u8>, steps: nat|
        lower.len() == width && nonce_value(lower) < nonce_value(start) ==> {
            let at = #[trigger] walk(table, width, lower, steps);
            table.contains_key(at) && at != start
        }
}

/// A walk that passes only keys of the table is the same walk after a new key
/// was added.
pub proof fn lemma_walk_survives_insert(
    table: Map<Seq<u8>, Seq<u8>>,
    width: nat,
    nonce: Seq<u8>,
    digest: Seq<u8>,
    from: Seq<u8>,
    steps: nat,
)
    requires
        !table.contains_key(nonce),
        trail(table, width, from, steps),
    ensures
        walk(table.insert(nonce, digest), width, from, steps) == walk(table, width, from, steps),
        trail(table.insert(nonce, digest), width, from, steps),
    decreases steps,
{
    let later = table.insert(nonce, digest);
    if steps > 0 {
        let before = (steps - 1) as nat;
        assert(trail(table, width, from, before));
        lemma_walk_survives_insert(table, width, nonce, digest, from, before);
        assert(table.contains_key(walk(table, width, from, before)));
        assert forall|earlier: nat| earlier < steps implies later.contains_key(
            #[trigger] walk(later, width, from, earlier),
        ) by {
            if earlier < before {
                assert(trail(later, width, from, before));
            }
        }
    }
}

/// Where the successor of every key is a key again, a walk from a key never
/// leaves the keys.
pub proof fn lemma_walk_stays_inside(
    table: Map<Seq<u8>, Seq<u8>>,
    width: nat,
    from: Seq<u8>,
    steps: nat,
)
    requires
        table.contains_key(from),
        forall|nonce: Seq<u8>| #[trigger]
            table.contains_key(nonce) ==> table.contains_key(successor_in(table, width, nonce)),
    ensures
        table.contains_key(walk(table, width, from, steps)),
    decreases steps,
{
    if steps > 0 {
        lemma_walk_stays_inside(table, width, from, (steps - 1) as nat);
    }
}

/// A walk that stays among the keys for ever is the same walk, and stays among
/// the keys, after a new key was added.
pub proof fn lemma_settled_survives_insert(
    table: Map<Seq<u8>, Seq<u8>>,
    width: nat,
    nonce: Seq<u8>,
    digest: Seq<u8>,
    start: Seq<u8>,
)
    requires
        !table.contains_key(nonce),
        settled_below(table, width, start),
    ensures
        settled_below(table.insert(nonce, digest), width, start),
{
    let later = table.insert(nonce, digest);
    assert forall|lower: Seq<u8>, steps: nat|
        lower.len() == width && nonce_value(lower) < nonce_value(start) implies {
        let at = #[trigger] walk(later, width, lower, steps);
        later.contains_key(at) && at != start
    } by {
        assert forall|earlier: nat| earlier < steps implies table.contains_key(
            #[trigger] walk(table, width, lower, earlier),
        ) by {}
        lemma_walk_survives_insert(table, width, nonce, digest, lower, steps);
        assert(table.contains_key(walk(table, width, lower, steps)));
    }
}

} // verus!
