//! The table of visited nonces, each with the digest recorded for it, and the
//! enumerator that finds the smallest nonce not yet in it.

use crate::nonce::{
    lemma_bytes_of_value, lemma_nonce_space_len, lemma_space_size_fits, lemma_value_in_space,
    lemma_value_injective, lemma_value_of_bytes, nonce_bytes, nonce_of, nonce_space, nonce_value,
    space_len, space_size, value_of, MAX_NONCE_WIDTH,
};
use std::collections::BTreeMap;
use vstd::prelude::*;

verus! {

/// `nonce` is the smallest nonce of `width` bytes that is not a key of `table`.
pub open spec fn least_unused(table: Map<Seq<u8>, Seq<u8>>, width: nat, nonce: Seq<u8>) -> bool {
    &&& nonce.len() == width
    &&& !table.contains_key(nonce)
    &&& forall|other: Seq<u8>|
        other.len() == width && nonce_value(other) < nonce_value(nonce)
            ==> #[trigger] table.contains_key(other)
}

/// Every nonce of `width` bytes is a key of `table`.
pub open spec fn covers(table: Map<Seq<u8>, Seq<u8>>, width: nat) -> bool {
    forall|nonce: Seq<u8>| nonce.len() == width ==> #[trigger] table.contains_key(nonce)
}

/// There is at most one smallest unused nonce.
pub proof fn lemma_least_unused_unique(
    table: Map<Seq<u8>, Seq<u8>>,
    width: nat,
    a: Seq<u8>,
    b: Seq<u8>,
)
    requires
        least_unused(table, width, a),
        least_unused(table, width, b),
    ensures
        a == b,
{
    lemma_value_injective(a, b);
}

/// An ordered map from nonce to digest, for nonces of one fixed width.
///
/// Entries are only ever added. A nonce is stored under the integer it spells,
/// so the order of the entries is the numeric order of the nonces. Since no
/// entry ever leaves, the table remembers how far the enumerator has come:
/// every nonce below `floor` is a key.
pub struct Table {
    width: usize,
    entries: BTreeMap<u64, Vec<u8>>,
    floor: u64,
}

spec fn key_of(nonce: Seq<u8>) -> u64 {
    nonce_value(nonce) as u64
}

impl View for Table {
    type V = Map<Seq<u8>, Seq<u8>>;

    closed spec fn view(&self) -> Map<Seq<u8>, Seq<u8>> {
        Map::new(
            |nonce: Seq<u8>| nonce.len() == self.width && self.entries@.contains_key(key_of(nonce)),
            |nonce: Seq<u8>| self.entries@[key_of(nonce)]@,
        )
    }
}

impl Table {
    /// Width in bytes of the table's nonces.
    pub closed spec fn nonce_width(&self) -> nat {
        self.width as nat
    }

    /// The table's internal invariant.
    pub closed spec fn wf(&self) -> bool {
        &&& self.width <= MAX_NONCE_WIDTH
        &&& forall|key: u64| #[trigger] self.entries@.contains_key(key) ==> key < space_size(self.width as nat)
        &&& self@.dom().finite()
        &&& self@.dom().len() == self.entries@.dom().len()
        &&& self.floor <= space_size(self.width as nat)
        &&& forall|key: u64| key < self.floor ==> #[trigger] self.entries@.contains_key(key)
    }

    /// What the invariant says of the view: the keys are finitely many nonces of
    /// the table's width, so there are at most `256^width` of them.
    pub proof fn lemma_keys(&self)
        requires
            self.wf(),
        ensures
            self.nonce_width() <= MAX_NONCE_WIDTH,
            self@.dom().finite(),
            self@.dom().subset_of(nonce_space(self.nonce_width())),
            self@.len() <= space_size(self.nonce_width()),
            covers(self@, self.nonce_width()) <==> self@.len() == space_size(self.nonce_width()),
    {
        let space = nonce_space(self.nonce_width());
        lemma_nonce_space_len(self.nonce_width());
        assert(self@.dom().subset_of(space));
        vstd::set_lib::lemma_len_subset(self@.dom(), space);
        if covers(self@, self.nonce_width()) {
            assert(self@.dom() =~= space);
        }
        if self@.len() == space_size(self.nonce_width()) {
            vstd::set_lib::lemma_subset_equality(self@.dom(), space);
        }
    }

    proof fn lemma_key_of(nonce: Seq<u8>)
        requires
            nonce.len() <= MAX_NONCE_WIDTH,
        ensures
            key_of(nonce) == nonce_value(nonce),
            key_of(nonce) < space_size(nonce.len()),
            nonce_bytes(key_of(nonce) as nat, nonce.len()) == nonce,
    {
        lemma_value_in_space(nonce);
        lemma_space_size_fits(nonce.len());
        lemma_bytes_of_value(nonce);
    }

    /// An empty table for nonces of `width` bytes.
    pub fn new(width: usize) -> (table: Table)
        requires
            width <= MAX_NONCE_WIDTH,
        ensures
            table.wf(),
            table.nonce_width() == width,
            table@ == Map::<Seq<u8>, Seq<u8>>::empty(),
    {
        let table = Table { width, entries: BTreeMap::new(), floor: 0 };
        proof {
            assert(table@ =~= Map::<Seq<u8>, Seq<u8>>::empty());
        }
        table
    }

    /// Width in bytes of the table's nonces.
    pub fn width(&self) -> (width: usize)
        ensures
            width == self.nonce_width(),
    {
        self.width
    }

    /// Number of entries.
    pub fn len(&self) -> (len: usize)
        requires
            self.wf(),
        ensures
            len == self@.len(),
    {
        self.entries.len()
    }

    /// Whether `nonce` is a key of the table.
    pub fn contains(&self, nonce: &[u8]) -> (found: bool)
        requires
            self.wf(),
        ensures
            found == self@.contains_key(nonce@),
    {
        if nonce.len() != self.width {
            return false;
        }
        let key = value_of(nonce);
        self.entries.contains_key(&key)
    }

    /// The digest recorded for `nonce`, if it is a key of the table.
    pub fn get(&self, nonce: &[u8]) -> (digest: Option<&Vec<u8>>)
        requires
            self.wf(),
        ensures
            match digest {
                Some(found) => self@.contains_key(nonce@) && found@ == self@[nonce@],
                None => !self@.contains_key(nonce@),
            },
    {
        if nonce.len() != self.width {
            return None;
        }
        let key = value_of(nonce);
        self.entries.get(&key)
    }

    /// Records `digest` for `nonce`, unless `nonce` has another width than the
    /// table's or is a key already: an entry is never overwritten.
    pub fn insert(&mut self, nonce: &[u8], digest: Vec<u8>) -> (fresh: bool)
        requires
            old(self).wf(),
        ensures
            final(self).wf(),
            final(self).nonce_width() == old(self).nonce_width(),
            fresh == (nonce@.len() == old(self).nonce_width() && !old(self)@.contains_key(nonce@)),
            final(self)@ == if fresh {
                old(self)@.insert(nonce@, digest@)
            } else {
                old(self)@
            },
    {
        if nonce.len() != self.width {
            return false;
        }
        let key = value_of(nonce);
        if self.entries.contains_key(&key) {
            return false;
        }
        let ghost before = *self;
        self.entries.insert(key, digest);
        proof {
            Self::lemma_key_of(nonce@);
            assert forall|other: Seq<u8>| other.len() == self.width && key_of(other) == key implies other
                == nonce@ by {
                Self::lemma_key_of(other);
                lemma_value_injective(other, nonce@);
            }
            assert(self@ =~= before@.insert(nonce@, digest@));
        }
        true
    }

    /// The enumerator: the smallest nonce that is not a key of the table, or
    /// nothing once every nonce of the table's width is a key. The table itself
    /// stays as it is; the search only resumes where the last one ended, below
    /// which every nonce is a key for good.
    pub fn next_unused(&mut self) -> (next: Option<Vec<u8>>)
        requires
            old(self).wf(),
        ensures
            final(self).wf(),
            final(self)@ == old(self)@,
            final(self).nonce_width() == old(self).nonce_width(),
            match next {
                Some(nonce) => least_unused(old(self)@, old(self).nonce_width(), nonce@),
                None => covers(old(self)@, old(self).nonce_width()),
            },
            next is None <==> covers(old(self)@, old(self).nonce_width()),
    {
        let size = space_len(self.width);
        let mut value: u64 = self.floor;
        while value < size && self.entries.contains_key(&value)
            invariant
                self.wf(),
                size == space_size(self.width as nat),
                value <= size,
                forall|key: u64| key < value ==> #[trigger] self.entries@.contains_key(key),
            decreases size - value,
        {
            value = value + 1;
        }
        self.floor = value;
        if value == size {
            proof {
                assert forall|nonce: Seq<u8>| nonce.len() == self.width implies self@.contains_key(
                    nonce,
                ) by {
                    Self::lemma_key_of(nonce);
                }
            }
            None
        } else {
            let nonce = nonce_of(value, self.width);
            proof {
                lemma_value_of_bytes(value as nat, self.width as nat);
                assert(key_of(nonce@) == value);
                assert forall|other: Seq<u8>|
                    other.len() == self.width && nonce_value(other) < nonce_value(nonce@)
                    implies #[trigger] self@.contains_key(other) by {
                    Self::lemma_key_of(other);
                }
            }
            Some(nonce)
        }
    }

    /// Every entry as a pair of nonce and digest, in increasing order of the
    /// nonces.
    pub fn entries(&self) -> (all: Vec<(Vec<u8>, Vec<u8>)>)
        requires
            self.wf(),
        ensures
            all@.len() == self@.len(),
            forall|i: int|
                0 <= i < all@.len() ==> self@.contains_key(#[trigger] all@[i].0@) && self@[all@[i].0@]
                    == all@[i].1@,
            forall|i: int, j: int|
                0 <= i < j < all@.len() ==> nonce_value(#[trigger] all@[i].0@) < nonce_value(
                    #[trigger] all@[j].0@,
                ),
            forall|nonce: Seq<u8>| #[trigger]
                self@.contains_key(nonce) ==> exists|i: int|
                    0 <= i < all@.len() && #[trigger] all@[i].0@ == nonce,
    {
        let size = space_len(self.width);
        let mut all: Vec<(Vec<u8>, Vec<u8>)> = Vec::new();
        let mut value: u64 = 0;
        while value < size
            invariant
                self.wf(),
                size == space_size(self.width as nat),
                value <= size,
                forall|i: int|
                    0 <= i < all@.len() ==> (#[trigger] all@[i].0@).len() == self.width && key_of(
                        all@[i].0@,
                    ) < value && self@.contains_key(all@[i].0@) && self@[all@[i].0@] == all@[i].1@,
                forall|i: int, j: int|
                    0 <= i < j < all@.len() ==> nonce_value(#[trigger] all@[i].0@) < nonce_value(
                        #[trigger] all@[j].0@,
                    ),
                forall|key: u64|
                    key < value && #[trigger] self.entries@.contains_key(key) ==> exists|i: int|
                        0 <= i < all@.len() && key_of(#[trigger] all@[i].0@) == key,
            decreases size - value,
        {
            let ghost so_far = all@;
            match self.entries.get(&value) {
                Some(digest) => {
                    let nonce = nonce_of(value, self.width);
                    let copy = vstd::slice::slice_to_vec(digest.as_slice());
                    proof {
                        lemma_value_of_bytes(value as nat, self.width as nat);
                        assert(key_of(nonce@) == value);
                        assert forall|i: int| 0 <= i < so_far.len() implies nonce_value(
                            #[trigger] so_far[i].0@,
                        ) < nonce_value(nonce@) by {
                            Self::lemma_key_of(so_far[i].0@);
                        }
                    }
                    all.push((nonce, copy));
                    proof {
                        assert forall|key: u64|
                            key < value + 1 && #[trigger] self.entries@.contains_key(
                                key,
                            ) implies exists|i: int|
                            0 <= i < all@.len() && key_of(#[trigger] all@[i].0@) == key by {
                            if key == value {
                                assert(key_of(all@[so_far.len() as int].0@) == key);
                            } else {
                                let i = choose|i: int|
                                    0 <= i < so_far.len() && key_of(#[trigger] so_far[i].0@) == key;
                                assert(key_of(all@[i].0@) == key);
                            }
                        }
                    }
                },
                None => {},
            }
            value = value + 1;
        }
        proof {
            assert forall|nonce: Seq<u8>| #[trigger] self@.contains_key(nonce) implies exists|i: int|
                0 <= i < all@.len() && #[trigger] all@[i].0@ == nonce by {
                Self::lemma_key_of(nonce);
                let i = choose|i: int|
                    0 <= i < all@.len() && key_of(#[trigger] all@[i].0@) == key_of(nonce);
                Self::lemma_key_of(all@[i].0@);
                lemma_value_injective(all@[i].0@, nonce);
            }
            let listed = Seq::new(all@.len(), |i: int| all@[i].0@);
            assert(listed.no_duplicates());
            listed.unique_seq_to_set();
            assert(listed.to_set() =~= self@.dom()) by {
                assert forall|nonce: Seq<u8>| self@.dom().contains(nonce) implies listed.to_set().contains(
                    nonce,
                ) by {
                    let i = choose|i: int| 0 <= i < all@.len() && #[trigger] all@[i].0@ == nonce;
                    assert(listed[i] == nonce);
                }
                assert forall|nonce: Seq<u8>| listed.to_set().contains(nonce) implies self@.dom().contains(
                    nonce,
                ) by {
                    let i = choose|i: int| 0 <= i < listed.len() && listed[i] == nonce;
                    assert(self@.contains_key(all@[i].0@));
                }
            }
        }
        all
    }
}

} // verus!
