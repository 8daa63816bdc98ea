//! The exploration as mathematics: what the explorer holds between two steps,
//! how one step changes it, and what stays true at every step.

use crate::nonce::{lemma_nonce_space_len, lemma_value_injective, nonce_space, nonce_value, space_size};
use crate::oracle::stretched;
use crate::orbit::{
    chain_heads, climbs, lemma_settled_survives_insert, lemma_walk_stays_inside,
    lemma_walk_survives_insert, reaches, settled_below, successor_in, trail, walk,
};
use crate::reducer::{lemma_reduced_width, reduced};
use crate::table::{covers, least_unused};
use vstd::prelude::*;

verus! {

/// The state of an exploration.
pub struct ChainState {
    /// Width of a nonce, in bytes.
    pub width: nat,
    /// The digest recorded for every nonce visited so far.
    pub table: Map<Seq<u8>, Seq<u8>>,
    /// The work queue of the chain being walked, front first.
    pub pending: Seq<Seq<u8>>,
    /// Number of steps so far that ran into a nonce already known.
    pub collisions: nat,
    /// The nonces visited so far, in the order of their steps.
    pub visited: Seq<Seq<u8>>,
    /// The nonces at which a chain was begun so far, in that order.
    pub starts: Seq<Seq<u8>>,
}

/// The table of a finished exploration that took every digest from the oracle:
/// each nonce of `width` bytes with its stretched hash.
pub open spec fn whole_table(width: nat, rounds: nat) -> Map<Seq<u8>, Seq<u8>> {
    Map::new(|nonce: Seq<u8>| nonce.len() == width, |nonce: Seq<u8>| stretched(nonce, rounds))
}

impl ChainState {
    /// The state before the first step.
    pub open spec fn initial(width: nat) -> ChainState {
        ChainState {
            width,
            table: Map::empty(),
            pending: Seq::empty(),
            collisions: 0,
            visited: Seq::empty(),
            starts: Seq::empty(),
        }
    }

    /// The nonce that step number `index` computed as the successor of the
    /// nonce it visited.
    pub open spec fn successor(self, index: int) -> Seq<u8> {
        successor_in(self.table, self.width, self.visited[index])
    }

    /// Whether the successor computed in step number `index` had been visited by
    /// then, the nonce of that very step included.
    pub open spec fn merged_at(self, index: int) -> bool {
        self.visited.take(index + 1).contains(self.successor(index))
    }

    /// Number of steps among the first `upto` whose successor had been visited.
    pub open spec fn merges(self, upto: nat) -> nat
        decreases upto,
    {
        if upto == 0 {
            0
        } else {
            self.merges((upto - 1) as nat) + if self.merged_at(upto - 1) {
                1nat
            } else {
                0nat
            }
        }
    }

    /// What holds of the state between any two steps.
    ///
    /// The table holds exactly the visited nonces, each once and of the right
    /// width, with a digest wide enough to reduce. The queue never holds more
    /// than the one nonce that continues the current chain, and that nonce is
    /// not in the table yet. The collision counter is the number of steps whose
    /// successor had been visited already: the queue is empty whenever a
    /// successor is looked up, so a pending nonce is never the one that is hit.
    pub open spec fn wf(self) -> bool {
        &&& self.table.dom().finite()
        &&& forall|nonce: Seq<u8>| #[trigger]
            self.table.contains_key(nonce) ==> nonce.len() == self.width && self.table[nonce].len()
                >= self.width
        &&& self.pending.len() <= 1
        &&& forall|i: int|
            0 <= i < self.pending.len() ==> (#[trigger] self.pending[i]).len() == self.width
                && !self.table.contains_key(self.pending[i])
        &&& self.visited.no_duplicates()
        &&& forall|nonce: Seq<u8>| #[trigger]
            self.visited.contains(nonce) <==> self.table.contains_key(nonce)
        &&& self.visited.len() == self.table.dom().len()
        &&& self.collisions == self.merges(self.visited.len())
    }

    /// Every digest in the table is the stretched hash of its nonce.
    pub open spec fn faithful(self, rounds: nat) -> bool {
        forall|nonce: Seq<u8>| #[trigger]
            self.table.contains_key(nonce) ==> self.table[nonce] == stretched(nonce, rounds)
    }

    /// Nothing is left to do: the queue is empty and every nonce is in the table.
    pub open spec fn finished(self) -> bool {
        self.pending.len() == 0 && covers(self.table, self.width)
    }

    /// The state after `start` was put on the empty queue to begin a new chain.
    pub open spec fn begin(self, start: Seq<u8>) -> ChainState {
        ChainState { pending: seq![start], starts: self.starts.push(start), ..self }
    }

    /// Whether the step that records `digest` for the front of the queue runs
    /// into a nonce that is already in the table or still waiting in the queue.
    pub open spec fn merges_on(self, digest: Seq<u8>) -> bool {
        let next = reduced(digest, self.width);
        self.table.insert(self.pending.first(), digest).contains_key(next)
            || self.pending.drop_first().contains(next)
    }

    /// The state after one step: the front of the queue leaves it and enters the
    /// table with `digest`; its successor joins the queue unless it is known
    /// already, in which case the collision is counted.
    pub open spec fn record(self, digest: Seq<u8>) -> ChainState {
        let nonce = self.pending.first();
        let rest = self.pending.drop_first();
        let merged = self.merges_on(digest);
        ChainState {
            width: self.width,
            table: self.table.insert(nonce, digest),
            pending: if merged {
                rest
            } else {
                rest.push(reduced(digest, self.width))
            },
            collisions: if merged {
                self.collisions + 1
            } else {
                self.collisions
            },
            visited: self.visited.push(nonce),
            starts: self.starts,
        }
    }

    /// The count of merges among the first steps depends only on those steps.
    pub proof fn lemma_merges_depend_on_prefix(self, later: ChainState, upto: nat)
        requires
            self.width == later.width,
            upto <= self.visited.len() <= later.visited.len(),
            forall|i: int| 0 <= i < upto ==> self.visited[i] == later.visited[i],
            forall|i: int|
                0 <= i < upto ==> self.table[self.visited[i]] == later.table[self.visited[i]],
        ensures
            self.merges(upto) == later.merges(upto),
        decreases upto,
    {
        if upto > 0 {
            self.lemma_merges_depend_on_prefix(later, (upto - 1) as nat);
            assert(self.visited.take(upto as int) =~= later.visited.take(upto as int));
        }
    }

    /// No more steps merge than were taken.
    pub proof fn lemma_merges_bounded(self, upto: nat)
        ensures
            self.merges(upto) <= upto,
        decreases upto,
    {
        if upto > 0 {
            self.lemma_merges_bounded((upto - 1) as nat);
        }
    }

    /// The state before the first step is well formed.
    pub proof fn lemma_initial_wf(width: nat)
        ensures
            Self::initial(width).wf(),
    {
        let state = Self::initial(width);
        assert(state.table.dom() =~= Set::<Seq<u8>>::empty());
    }

    /// Beginning a chain at a nonce that is not in the table keeps the state
    /// well formed.
    pub proof fn lemma_begin_wf(self, start: Seq<u8>)
        requires
            self.wf(),
            self.pending.len() == 0,
            start.len() == self.width,
            !self.table.contains_key(start),
        ensures
            self.begin(start).wf(),
    {
        self.lemma_merges_depend_on_prefix(self.begin(start), self.visited.len());
    }

    /// One step keeps the state well formed, adds exactly one entry to the
    /// table, and counts a collision exactly when the successor it computed was
    /// already visited or pending.
    pub proof fn lemma_record_wf(self, digest: Seq<u8>)
        requires
            self.wf(),
            self.pending.len() > 0,
            digest.len() >= self.width,
        ensures
            self.record(digest).wf(),
            !self.table.contains_key(self.pending.first()),
            self.record(digest).table.dom().len() == self.table.dom().len() + 1,
            self.record(digest).collisions == self.collisions + if self.merges_on(digest) {
                1nat
            } else {
                0nat
            },
    {
        let after = self.record(digest);
        let nonce = self.pending.first();
        let next = reduced(digest, self.width);
        let steps = self.visited.len();
        lemma_reduced_width(digest, self.width);
        assert(self.pending[0] == nonce);
        assert(!self.visited.contains(nonce));
        assert(self.pending.drop_first() =~= Seq::<Seq<u8>>::empty());
        assert(after.table.dom() =~= self.table.dom().insert(nonce));
        assert forall|other: Seq<u8>| #[trigger]
            after.visited.contains(other) <==> after.table.contains_key(other) by {
            if after.visited.contains(other) {
                let i = choose|i: int| 0 <= i < after.visited.len() && after.visited[i] == other;
                if i < steps {
                    assert(self.visited[i] == other);
                    assert(self.visited.contains(other));
                }
            }
            if after.table.contains_key(other) {
                if other == nonce {
                    assert(after.visited[steps as int] == other);
                } else {
                    assert(self.visited.contains(other));
                    let i = choose|i: int| 0 <= i < steps && self.visited[i] == other;
                    assert(after.visited[i] == other);
                }
            }
        }
        assert(after.visited.no_duplicates()) by {
            assert forall|i: int, j: int|
                0 <= i < after.visited.len() && 0 <= j < after.visited.len() && i != j implies after.visited[i]
                != after.visited[j] by {
                if i < steps {
                    assert(self.visited.contains(self.visited[i]));
                }
                if j < steps {
                    assert(self.visited.contains(self.visited[j]));
                }
            }
        }
        assert forall|i: int| 0 <= i < steps implies self.table[self.visited[i]]
            == after.table[self.visited[i]] by {
            assert(self.visited.contains(self.visited[i]));
        }
        self.lemma_merges_depend_on_prefix(after, steps);
        assert(after.visited.take(steps as int + 1) =~= after.visited);
        assert(after.successor(steps as int) == next);
        assert(after.merged_at(steps as int) == self.merges_on(digest));
    }

    /// The collision counter never exceeds the number of visited nonces, which
    /// never exceeds the size of the nonce space.
    pub proof fn lemma_collisions_bounded(self)
        requires
            self.wf(),
        ensures
            self.collisions <= self.table.dom().len() <= space_size(self.width),
    {
        self.lemma_merges_bounded(self.visited.len());
        lemma_nonce_space_len(self.width);
        assert(self.table.dom().subset_of(nonce_space(self.width)));
        vstd::set_lib::lemma_len_subset(self.table.dom(), nonce_space(self.width));
    }

    /// A table that covers the nonce space and holds only digests of the oracle
    /// is the whole table.
    pub proof fn lemma_faithful_cover_is_whole_table(self, rounds: nat)
        requires
            self.wf(),
            self.faithful(rounds),
            covers(self.table, self.width),
        ensures
            self.table == whole_table(self.width, rounds),
    {
        assert(self.table =~= whole_table(self.width, rounds));
    }

    /// Once every nonce is a key, the table has exactly `256^width` entries, one
    /// for each nonce of that width.
    pub proof fn lemma_covered_table_is_whole(self)
        requires
            self.wf(),
            covers(self.table, self.width),
        ensures
            self.table.dom() == nonce_space(self.width),
            self.table.dom().len() == space_size(self.width),
            self.visited.len() == space_size(self.width),
    {
        lemma_nonce_space_len(self.width);
        assert(self.table.dom() =~= nonce_space(self.width));
    }

    /// `nonce` is in the table or in the queue.
    pub open spec fn known(self, nonce: Seq<u8>) -> bool {
        self.table.contains_key(nonce) || self.pending.contains(nonce)
    }

    /// Each chain that was begun has either met its collision or still has its
    /// frontier in the queue, and began at a nonce that is known.
    pub open spec fn accounted(self) -> bool {
        &&& self.starts.no_duplicates()
        &&& self.starts.len() == self.collisions + self.pending.len()
        &&& forall|i: int| 0 <= i < self.starts.len() ==> self.known(#[trigger] self.starts[i])
    }

    /// The successor of every visited nonce is known.
    pub open spec fn closed_under_successor(self) -> bool {
        forall|nonce: Seq<u8>| #[trigger]
            self.table.contains_key(nonce) ==> self.known(
                successor_in(self.table, self.width, nonce),
            )
    }

    /// Every known nonce is the start of a chain, or lies on a walk through
    /// visited nonces that began at a smaller nonce.
    pub open spec fn descended(self) -> bool {
        forall|nonce: Seq<u8>| #[trigger]
            self.known(nonce) ==> self.starts.contains(nonce) || exists|from: Seq<u8>, steps: nat|
                climbs(self.table, self.width, from, steps, nonce)
    }

    /// Below every start, all walks stay inside the table and never come to the
    /// start.
    pub open spec fn settled(self) -> bool {
        forall|i: int|
            0 <= i < self.starts.len() ==> settled_below(
                self.table,
                self.width,
                #[trigger] self.starts[i],
            )
    }

    /// The nonce in the queue lies on the walk from the start of the latest
    /// chain, and that walk has passed only visited nonces.
    pub open spec fn led(self) -> bool {
        self.pending.len() > 0 ==> self.starts.len() > 0 && exists|steps: nat|
            trail(self.table, self.width, self.starts.last(), steps) && #[trigger] walk(
                self.table,
                self.width,
                self.starts.last(),
                steps,
            ) == self.pending[0]
    }

    /// How the state hangs together as a forest of chains, at every step.
    pub open spec fn rooted(self) -> bool {
        &&& self.accounted()
        &&& self.closed_under_successor()
        &&& self.descended()
        &&& self.settled()
        &&& self.led()
    }

    /// The state before the first step is a forest of no chains.
    pub proof fn lemma_initial_rooted(width: nat)
        ensures
            Self::initial(width).rooted(),
    {
    }

    proof fn lemma_begin_accounted(self, start: Seq<u8>)
        requires
            self.accounted(),
            self.pending.len() == 0,
            !self.table.contains_key(start),
        ensures
            self.begin(start).accounted(),
    {
        let after = self.begin(start);
        let begun = self.starts.len() as int;
        assert forall|i: int| 0 <= i < begun implies self.table.contains_key(
            #[trigger] self.starts[i],
        ) by {
            assert(self.known(self.starts[i]));
        }
        assert(after.pending[0] == start);
        assert(after.starts[begun] == start);
        assert forall|i: int| 0 <= i < after.starts.len() implies after.known(
            #[trigger] after.starts[i],
        ) by {
            if i < begun {
                assert(after.starts[i] == self.starts[i]);
            }
        }
    }

    proof fn lemma_begin_descended(self, start: Seq<u8>)
        requires
            self.descended(),
            self.pending.len() == 0,
        ensures
            self.begin(start).descended(),
    {
        let after = self.begin(start);
        let begun = self.starts.len() as int;
        assert(after.starts[begun] == start);
        assert forall|nonce: Seq<u8>| #[trigger] after.known(nonce) implies after.starts.contains(nonce)
            || exists|from: Seq<u8>, steps: nat| climbs(after.table, after.width, from, steps, nonce) by {
            if after.table.contains_key(nonce) {
                assert(self.known(nonce));
                if self.starts.contains(nonce) {
                    let i = choose|i: int| 0 <= i < begun && self.starts[i] == nonce;
                    assert(after.starts[i] == nonce);
                } else {
                    let (from, steps) = choose|from: Seq<u8>, steps: nat|
                        climbs(self.table, self.width, from, steps, nonce);
                    assert(climbs(after.table, after.width, from, steps, nonce));
                }
            } else {
                let at = choose|at: int| 0 <= at < after.pending.len() && after.pending[at] == nonce;
                assert(nonce == start);
                assert(after.starts[begun] == nonce);
            }
        }
    }

    proof fn lemma_begin_settled(self, start: Seq<u8>)
        requires
            self.settled(),
            self.closed_under_successor(),
            self.pending.len() == 0,
            least_unused(self.table, self.width, start),
        ensures
            self.begin(start).settled(),
    {
        let after = self.begin(start);
        let width = self.width;
        let begun = self.starts.len() as int;
        assert forall|nonce: Seq<u8>| #[trigger] self.table.contains_key(nonce) implies self.table.contains_key(
            successor_in(self.table, width, nonce),
        ) by {
            assert(self.known(successor_in(self.table, width, nonce)));
        }
        assert(settled_below(self.table, width, start)) by {
            assert forall|lower: Seq<u8>, steps: nat|
                lower.len() == width && nonce_value(lower) < nonce_value(start) implies {
                let at = #[trigger] walk(self.table, width, lower, steps);
                self.table.contains_key(at) && at != start
            } by {
                assert(self.table.contains_key(lower));
                lemma_walk_stays_inside(self.table, width, lower, steps);
            }
        }
        assert forall|i: int| 0 <= i < after.starts.len() implies settled_below(
            after.table,
            width,
            #[trigger] after.starts[i],
        ) by {
            if i < begun {
                assert(after.starts[i] == self.starts[i]);
            }
        }
    }

    /// Beginning a chain at the smallest unused nonce keeps the forest.
    pub proof fn lemma_begin_rooted(self, start: Seq<u8>)
        requires
            self.wf(),
            self.rooted(),
            self.pending.len() == 0,
            least_unused(self.table, self.width, start),
        ensures
            self.begin(start).rooted(),
    {
        let after = self.begin(start);
        self.lemma_begin_accounted(start);
        self.lemma_begin_descended(start);
        self.lemma_begin_settled(start);
        assert(after.closed_under_successor()) by {
            assert forall|nonce: Seq<u8>| #[trigger] after.table.contains_key(nonce) implies after.known(
                successor_in(after.table, after.width, nonce),
            ) by {
                assert(self.known(successor_in(self.table, self.width, nonce)));
            }
        }
        assert(after.led()) by {
            assert(trail(after.table, after.width, start, 0));
            assert(walk(after.table, after.width, start, 0) == start);
            assert(after.starts.last() == start);
            assert(after.pending[0] == start);
        }
    }

    /// One step keeps the forest.
    pub proof fn lemma_record_rooted(self, digest: Seq<u8>)
        requires
            self.wf(),
            self.rooted(),
            self.pending.len() > 0,
            digest.len() >= self.width,
        ensures
            self.record(digest).rooted(),
    {
        let after = self.record(digest);
        let width = self.width;
        let nonce = self.pending.first();
        let next = reduced(digest, width);
        let merged = self.merges_on(digest);
        let root = self.starts.last();
        let begun = self.starts.len() as int;
        self.lemma_record_wf(digest);
        lemma_reduced_width(digest, width);
        assert(self.pending[0] == nonce);
        assert(self.pending.drop_first() =~= Seq::<Seq<u8>>::empty());
        assert(self.known(nonce));
        let along = choose|steps: nat|
            trail(self.table, width, root, steps) && #[trigger] walk(self.table, width, root, steps)
                == nonce;
        lemma_walk_survives_insert(self.table, width, nonce, digest, root, along);
        assert(self.starts[begun - 1] == root);
        assert(self.known(root));
        assert(after.table.contains_key(root));
        assert(root.len() == width);

        assert forall|i: int| 0 <= i < after.starts.len() implies after.known(
            #[trigger] after.starts[i],
        ) by {
            assert(self.known(self.starts[i]));
            if !self.table.contains_key(self.starts[i]) {
                let at = choose|at: int| 0 <= at < self.pending.len() && self.pending[at] == self.starts[i];
                assert(self.starts[i] == nonce);
            }
        }
        assert forall|visited: Seq<u8>| #[trigger] after.table.contains_key(visited) implies after.known(
            successor_in(after.table, width, visited),
        ) by {
            if visited == nonce {
                if !merged {
                    assert(after.pending[0] == next);
                }
            } else {
                let successor = successor_in(self.table, width, visited);
                assert(self.known(successor));
                if !self.table.contains_key(successor) {
                    let at = choose|at: int| 0 <= at < self.pending.len() && self.pending[at] == successor;
                    assert(successor == nonce);
                }
            }
        }
        assert forall|i: int| 0 <= i < after.starts.len() implies settled_below(
            after.table,
            width,
            #[trigger] after.starts[i],
        ) by {
            lemma_settled_survives_insert(self.table, width, nonce, digest, self.starts[i]);
        }
        if !merged {
            let longer = (along + 1) as nat;
            assert(after.pending =~= seq![next]);
            assert(nonce_value(root) < nonce_value(next)) by {
                assert(settled_below(self.table, width, root));
                if nonce_value(next) < nonce_value(root) {
                    assert(self.table.contains_key(walk(self.table, width, next, 0)));
                }
                if nonce_value(next) == nonce_value(root) {
                    lemma_value_injective(next, root);
                }
            }
            assert(trail(after.table, width, root, longer)) by {
                assert forall|earlier: nat| earlier < longer implies after.table.contains_key(
                    #[trigger] walk(after.table, width, root, earlier),
                ) by {
                    if earlier < along {
                        assert(trail(after.table, width, root, along));
                    }
                }
            }
            assert(walk(after.table, width, root, longer) == next);
            assert(climbs(after.table, width, root, longer, next));
        }
        assert forall|reached: Seq<u8>| #[trigger] after.known(reached) implies after.starts.contains(
            reached,
        ) || exists|from: Seq<u8>, steps: nat| climbs(after.table, width, from, steps, reached) by {
            if after.table.contains_key(reached) {
                assert(self.known(reached));
                if !self.starts.contains(reached) {
                    let (from, steps) = choose|from: Seq<u8>, steps: nat|
                        climbs(self.table, width, from, steps, reached);
                    lemma_walk_survives_insert(self.table, width, nonce, digest, from, steps);
                    assert(climbs(after.table, width, from, steps, reached));
                }
            } else {
                let at = choose|at: int| 0 <= at < after.pending.len() && after.pending[at] == reached;
                assert(reached == next);
            }
        }
    }

    /// At the end, the collisions are as many as the heads of chains: the nonces
    /// that no smaller nonce reaches by walking from successor to successor.
    /// These are the nonces at which a chain was begun.
    pub proof fn lemma_collisions_count_chain_heads(self)
        requires
            self.wf(),
            self.rooted(),
            self.finished(),
        ensures
            chain_heads(self.table, self.width) == self.starts.to_set(),
            chain_heads(self.table, self.width).finite(),
            self.collisions == chain_heads(self.table, self.width).len(),
    {
        let width = self.width;
        let heads = chain_heads(self.table, width);
        assert forall|nonce: Seq<u8>| self.starts.to_set().contains(nonce) implies heads.contains(
            nonce,
        ) by {
            let i = choose|i: int| 0 <= i < self.starts.len() && self.starts[i] == nonce;
            assert(self.known(self.starts[i]));
            assert(settled_below(self.table, width, self.starts[i]));
            assert forall|lower: Seq<u8>|
                lower.len() == width && nonce_value(lower) < nonce_value(nonce) implies !#[trigger] reaches(
                self.table,
                width,
                lower,
                nonce,
            ) by {
                if reaches(self.table, width, lower, nonce) {
                    let steps = choose|steps: nat| #[trigger]
                        walk(self.table, width, lower, steps) == nonce;
                    assert(walk(self.table, width, lower, steps) != nonce);
                }
            }
        }
        assert forall|nonce: Seq<u8>| heads.contains(nonce) implies self.starts.to_set().contains(
            nonce,
        ) by {
            assert(self.table.contains_key(nonce));
            assert(self.known(nonce));
            if !self.starts.contains(nonce) {
                let (from, steps) = choose|from: Seq<u8>, steps: nat|
                    climbs(self.table, width, from, steps, nonce);
                assert(reaches(self.table, width, from, nonce));
            }
        }
        assert(heads =~= self.starts.to_set());
        self.starts.unique_seq_to_set();
    }
}

} // verus!
