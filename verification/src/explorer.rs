//! The chain explorer: walks every chain of the nonce space, fills the table
//! and counts the collisions.

use crate::chain::{whole_table, ChainState};
use crate::config::Config;
use crate::nonce::{nonce_space, same_bytes, space_size, MAX_NONCE_WIDTH};
use crate::oracle::{stretch, stretched, DIGEST_WIDTH};
use crate::orbit::chain_heads;
use crate::reducer::{lemma_reduced_width, reduce, reduced};
use crate::table::{covers, least_unused, Table};
use std::collections::VecDeque;
use vstd::prelude::*;

verus! {

/// How one step of the exploration ended.
#[derive(Clone, Copy, Debug, PartialEq, Eq, Structural)]
pub enum Outcome {
    /// Nothing was left to do: every nonce is in the table.
    Finished,
    /// A nonce was recorded and its successor, new so far, was queued.
    Extended,
    /// A nonce was recorded and its successor was known already: a collision.
    Merged,
}

/// The explorer's state: the table, the work queue of the current chain and
/// the collision counter, for one fixed configuration.
pub struct Explorer {
    config: Config,
    table: Table,
    queue: VecDeque<Vec<u8>>,
    collisions: u64,
    visited: Ghost<Seq<Seq<u8>>>,
    starts: Ghost<Seq<Seq<u8>>>,
}

spec fn queued(queue: VecDeque<Vec<u8>>) -> Seq<Seq<u8>> {
    Seq::new(queue@.len(), |i: int| queue@[i]@)
}

fn queue_holds(queue: &VecDeque<Vec<u8>>, nonce: &[u8]) -> (found: bool)
    ensures
        found == queued(*queue).contains(nonce@),
{
    let mut at: usize = 0;
    while at < queue.len()
        invariant
            at <= queue@.len(),
            forall|i: int| 0 <= i < at ==> queued(*queue)[i] != nonce@,
        decreases queue@.len() - at,
    {
        if same_bytes(queue[at].as_slice(), nonce) {
            proof {
                assert(queued(*queue)[at as int] == nonce@);
            }
            return true;
        }
        at = at + 1;
    }
    false
}

/// The nonce that follows `nonce` in its chain: the reduction of its stretched
/// hash. It depends on nothing but the three arguments.
pub fn successor(nonce: &[u8], rounds: u32, width: usize) -> (next: Vec<u8>)
    requires
        width <= DIGEST_WIDTH,
    ensures
        next@ == reduced(stretched(nonce@, rounds as nat), width as nat),
        next@.len() == width,
{
    let digest = stretch(nonce, rounds);
    reduce(digest.as_slice(), width)
}

impl View for Explorer {
    type V = ChainState;

    closed spec fn view(&self) -> ChainState {
        ChainState {
            width: self.config.width(),
            table: self.table@,
            pending: queued(self.queue),
            collisions: self.collisions as nat,
            visited: self.visited@,
            starts: self.starts@,
        }
    }
}

impl Explorer {
    /// The configuration the explorer was made with.
    pub closed spec fn configuration(&self) -> Config {
        self.config
    }

    /// The explorer's invariant: its state is well formed, and so is its table.
    pub closed spec fn wf(&self) -> bool {
        &&& self.table.wf()
        &&& self.table.nonce_width() == self.config.width()
        &&& 1 <= self.config.width() <= MAX_NONCE_WIDTH
        &&& self@.wf()
        &&& self@.rooted()
    }

    /// What the invariant says of the view.
    pub proof fn lemma_wf(&self)
        requires
            self.wf(),
        ensures
            self@.wf(),
            self@.rooted(),
            self@.width == self.configuration().width(),
            1 <= self@.width <= MAX_NONCE_WIDTH,
            self@.collisions <= self@.table.dom().len() <= space_size(self@.width),
    {
        self@.lemma_collisions_bounded();
    }

    /// An explorer that has not visited anything yet.
    pub fn new(config: Config) -> (explorer: Explorer)
        ensures
            explorer.wf(),
            explorer@ == ChainState::initial(config.width()),
            explorer.configuration() == config,
    {
        let width = config.nonce_width();
        let explorer = Explorer {
            config,
            table: Table::new(width),
            queue: VecDeque::new(),
            collisions: 0,
            visited: Ghost(Seq::empty()),
            starts: Ghost(Seq::empty()),
        };
        proof {
            ChainState::lemma_initial_wf(config.width());
            ChainState::lemma_initial_rooted(config.width());
            assert(explorer@.pending =~= Seq::<Seq<u8>>::empty());
        }
        explorer
    }

    /// The configuration the explorer was made with.
    pub fn config(&self) -> (config: Config)
        ensures
            config == self.configuration(),
    {
        self.config
    }

    /// The table as it stands.
    pub fn table(&self) -> (table: &Table)
        requires
            self.wf(),
        ensures
            table.wf(),
            table@ == self@.table,
            table.nonce_width() == self@.width,
    {
        &self.table
    }

    /// Number of collisions counted so far.
    pub fn collisions(&self) -> (count: u64)
        ensures
            count == self@.collisions,
    {
        self.collisions
    }

    /// Number of nonces visited so far.
    pub fn processed(&self) -> (count: usize)
        requires
            self.wf(),
        ensures
            count == self@.table.dom().len(),
            count == self@.visited.len(),
    {
        self.table.len()
    }

    /// The nonce the next step will visit. While the queue is empty this asks the
    /// enumerator for the smallest unused nonce and begins a chain with it; there
    /// is none once the table holds every nonce.
    pub fn next_nonce(&mut self) -> (next: Option<Vec<u8>>)
        requires
            old(self).wf(),
        ensures
            final(self).wf(),
            final(self).configuration() == old(self).configuration(),
            match next {
                Some(nonce) => if old(self)@.pending.len() > 0 {
                    nonce@ == old(self)@.pending.first() && final(self)@ == old(self)@
                } else {
                    least_unused(old(self)@.table, old(self)@.width, nonce@) && final(self)@ == old(
                        self,
                    )@.begin(nonce@)
                },
                None => old(self)@.pending.len() == 0 && covers(old(self)@.table, old(self)@.width)
                    && final(self)@ == old(self)@,
            },
    {
        if self.queue.len() == 0 {
            match self.table.next_unused() {
                None => {
                    return None;
                },
                Some(start) => {
                    proof {
                        self@.lemma_begin_wf(start@);
                        self@.lemma_begin_rooted(start@);
                        self.starts@ = self.starts@.push(start@);
                    }
                    self.queue.push_back(start);
                    proof {
                        assert(self@.pending =~= seq![start@]);
                    }
                },
            }
        }
        let front = vstd::slice::slice_to_vec(self.queue[0].as_slice());
        proof {
            assert(self@.pending[0] == front@);
        }
        Some(front)
    }

    /// One step with a digest handed in: the front of the queue enters the table
    /// with `digest`, and the nonce that `digest` reduces to is queued, or
    /// counted as a collision if it is in the table or in the queue already.
    pub fn record(&mut self, digest: Vec<u8>) -> (merged: bool)
        requires
            old(self).wf(),
            old(self)@.pending.len() > 0,
            digest@.len() >= old(self)@.width,
        ensures
            final(self).wf(),
            final(self).configuration() == old(self).configuration(),
            final(self)@ == old(self)@.record(digest@),
            merged == old(self)@.merges_on(digest@),
    {
        let ghost before = self@;
        proof {
            before.lemma_record_wf(digest@);
            before.lemma_record_rooted(digest@);
            before.lemma_collisions_bounded();
            before.record(digest@).lemma_collisions_bounded();
            crate::nonce::lemma_space_size_fits(before.width);
            lemma_reduced_width(digest@, before.width);
        }
        let width = self.config.nonce_width();
        let next = reduce(digest.as_slice(), width);
        // The queue holds a nonce here, so the second arm is never taken.
        let nonce = match self.queue.pop_front() {
            Some(nonce) => nonce,
            None => Vec::new(),
        };
        proof {
            assert(nonce@ == before.pending.first());
            assert(queued(self.queue) =~= before.pending.drop_first());
        }
        self.table.insert(nonce.as_slice(), digest);
        let merged = self.table.contains(next.as_slice()) || queue_holds(&self.queue, next.as_slice());
        if merged {
            self.collisions = self.collisions + 1;
        } else {
            self.queue.push_back(next);
            proof {
                assert(queued(self.queue) =~= before.pending.drop_first().push(next@));
            }
        }
        proof {
            self.visited@ = self.visited@.push(nonce@);
        }
        merged
    }

    /// One step of the exploration: takes the next nonce, stretches it with the
    /// oracle and records the digest.
    pub fn step(&mut self) -> (outcome: Outcome)
        requires
            old(self).wf(),
        ensures
            final(self).wf(),
            final(self).configuration() == old(self).configuration(),
            outcome is Finished <==> old(self)@.finished(),
            outcome is Finished ==> final(self)@ == old(self)@,
            !(outcome is Finished) ==> {
                let nonce = final(self)@.visited.last();
                let ready = if old(self)@.pending.len() > 0 {
                    old(self)@
                } else {
                    old(self)@.begin(nonce)
                };
                let digest = stretched(nonce, old(self).configuration().rounds());
                &&& old(self)@.pending.len() == 0 ==> least_unused(
                    old(self)@.table,
                    old(self)@.width,
                    nonce,
                )
                &&& ready.pending.first() == nonce
                &&& final(self)@ == ready.record(digest)
                &&& outcome is Merged <==> ready.merges_on(digest)
            },
    {
        match self.next_nonce() {
            None => Outcome::Finished,
            Some(nonce) => {
                let digest = stretch(nonce.as_slice(), self.config.stretch_rounds());
                let merged = self.record(vstd::slice::slice_to_vec(digest.as_slice()));
                if merged {
                    Outcome::Merged
                } else {
                    Outcome::Extended
                }
            },
        }
    }

    /// Runs the exploration to its end: steps until every nonce of the space is
    /// in the table. Entries that were there before stay as they were.
    pub fn run(&mut self)
        requires
            old(self).wf(),
        ensures
            final(self).wf(),
            final(self).configuration() == old(self).configuration(),
            final(self)@.width == old(self)@.width,
            final(self)@.finished(),
            final(self)@.table.dom() == nonce_space(old(self)@.width),
            final(self)@.table.dom().len() == space_size(old(self)@.width),
            old(self)@.table.submap_of(final(self)@.table),
            old(self)@.faithful(old(self).configuration().rounds()) ==> final(self)@.table == whole_table(
                old(self)@.width,
                old(self).configuration().rounds(),
            ),
            old(self)@.collisions <= final(self)@.collisions <= space_size(old(self)@.width),
            final(self)@.collisions == chain_heads(final(self)@.table, old(self)@.width).len(),
    {
        let mut done = false;
        while !done
            invariant
                self.wf(),
                self.configuration() == old(self).configuration(),
                self@.width == old(self)@.width,
                done ==> self@.finished(),
                old(self)@.table.submap_of(self@.table),
                old(self)@.faithful(self.configuration().rounds()) ==> self@.faithful(self.configuration().rounds()),
                old(self)@.collisions <= self@.collisions,
            decreases
                    if done {
                        0
                    } else {
                        1 + space_size(self@.width) - self@.table.dom().len()
                    },
        {
            let ghost before = self@;
            proof {
                self.lemma_wf();
            }
            match self.step() {
                Outcome::Finished => {
                    done = true;
                },
                _ => {
                    proof {
                        let nonce = self@.visited.last();
                        let ready = if before.pending.len() > 0 {
                            before
                        } else {
                            before.begin(nonce)
                        };
                        if before.pending.len() == 0 {
                            before.lemma_begin_wf(nonce);
                        }
                        let digest = stretched(nonce, self.configuration().rounds());
                        self.lemma_wf();
                        assert(self@.table.contains_key(nonce) && self@.table[nonce] == digest);
                        ready.lemma_record_wf(digest);
                    }
                },
            }
        }
        proof {
            self.lemma_wf();
            self@.lemma_covered_table_is_whole();
            self@.lemma_collisions_count_chain_heads();
            if old(self)@.faithful(self.configuration().rounds()) {
                self@.lemma_faithful_cover_is_whole_table(self.configuration().rounds());
            }
        }
    }

    /// Hands out what the exploration has gathered: the table and the number of
    /// collisions.
    pub fn finish(self) -> (results: (Table, u64))
        requires
            self.wf(),
        ensures
            results.0.wf(),
            results.0@ == self@.table,
            results.0.nonce_width() == self@.width,
            results.1 == self@.collisions,
    {
        (self.table, self.collisions)
    }
}

} // verus!
