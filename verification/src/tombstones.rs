//! The deletes that sealed segments have seen.
//!
//! The file of a sealed segment is written once, so it goes on holding an id that
//! was deleted later. Each such delete is recorded here, as the id and the sealed
//! segment it was deleted from, and applied again when the store is opened.
use std::collections::HashSet;
use vstd::prelude::*;

verus! {

broadcast use vstd::std_specs::hash::group_hash_axioms;

/// The number that stands for a pair: the id above 64 bits of segment index.
spec fn key_of(pair: (u64, usize)) -> u128 {
    (pair.0 * 0x1_0000_0000_0000_0000 + pair.1) as u128
}

/// The pair that a number stands for.
spec fn pair_of(key: u128) -> (u64, usize) {
    ((key / 0x1_0000_0000_0000_0000) as u64, (key % 0x1_0000_0000_0000_0000) as usize)
}

proof fn lemma_key_round_trip(pair: (u64, usize))
    ensures
        key_of(pair) == pair.0 * 0x1_0000_0000_0000_0000 + pair.1,
        pair_of(key_of(pair)) == pair,
{
}

/// A set of deletes, each an id and a sealed segment's index.
pub struct Tombstones {
    keys: HashSet<u128>,
}

impl View for Tombstones {
    type V = Set<(u64, usize)>;

    closed spec fn view(&self) -> Set<(u64, usize)> {
        Set::new(|pair: (u64, usize)| self.keys@.contains(key_of(pair)))
    }
}

impl Tombstones {
    /// Every number in the set stands for a pair.
    #[verifier::type_invariant]
    spec fn all_pairs(self) -> bool {
        forall|key: u128| #[trigger] self.keys@.contains(key) ==> key_of(pair_of(key)) == key
    }

    /// No deletes.
    pub fn new() -> (t: Self)
        ensures
            t@ == Set::<(u64, usize)>::empty(),
    {
        let t: Self = Self { keys: HashSet::new() };
        assert(t@ =~= Set::empty());
        t
    }

    /// Record that `id` was deleted from sealed segment `seg`.
    pub fn insert(&mut self, id: u64, seg: usize)
        ensures
            final(self)@ == old(self)@.insert((id, seg)),
    {
        let key: u128 = id as u128 * 0x1_0000_0000_0000_0000 + seg as u128;
        proof {
            use_type_invariant(&*self);
            lemma_key_round_trip((id, seg));
        }
        let mut keys: HashSet<u128> = HashSet::new();
        std::mem::swap(&mut keys, &mut self.keys);
        let ghost before: Set<u128> = keys@;
        keys.insert(key);
        self.keys = keys;
        proof {
            assert forall|pair: (u64, usize)|
                #[trigger] self.keys@.contains(key_of(pair)) <==> before.contains(key_of(pair))
                    || pair == (id, seg) by {
                lemma_key_round_trip(pair);
            }
            assert(self@ =~= old(self)@.insert((id, seg)));
        }
    }

    /// The deletes, in no particular order, each once.
    pub fn pairs(&self) -> (list: Vec<(u64, usize)>)
        ensures
            list@.no_duplicates(),
            list@.to_set() == self@,
    {
        proof {
            use_type_invariant(self);
        }
        let mut list: Vec<(u64, usize)> = Vec::new();
        let ghost mut seen: Seq<u128> = Seq::empty();
        for key in it: self.keys.iter()
            invariant
                list@.len() == it.index(),
                seen.len() == it.index(),
                forall|k: u128| #[trigger] self.keys@.contains(k) ==> key_of(pair_of(k)) == k,
                it.seq().unref().to_set() == self.keys@,
                it.seq().unref().no_duplicates(),
                forall|j: int|
                    #![trigger seen[j]]
                    #![trigger it.seq()[j]]
                    0 <= j < it.index() ==> seen[j] == *it.seq()[j],
                forall|j: int| 0 <= j < it.index() ==> self.keys@.contains(#[trigger] seen[j]),
                forall|j: int| 0 <= j < it.index() ==> #[trigger] list@[j] == pair_of(seen[j]),
        {
            let id: u64 = (*key / 0x1_0000_0000_0000_0000) as u64;
            let seg: usize = (*key % 0x1_0000_0000_0000_0000) as usize;
            list.push((id, seg));
            proof {
                assert(it.seq().unref()[it.index()] == *key);
                assert(it.seq().unref().to_set().contains(*key));
                seen = seen.push(*key);
            }
        }
        proof {
            assert forall|k: u128| self.keys@.contains(k) implies seen.contains(k) by {}
            assert(seen.to_set() =~= self.keys@);
            assert(seen.no_duplicates());
            assert forall|i: int, j: int| 0 <= i < j < list@.len() implies list@[i] != list@[j] by {
                assert(self.keys@.contains(seen[i]) && self.keys@.contains(seen[j]));
            }
            assert forall|pair: (u64, usize)| list@.to_set().contains(pair) <==> self@.contains(
                pair,
            ) by {
                lemma_key_round_trip(pair);
                if list@.contains(pair) {
                    let i = list@.index_of(pair);
                    assert(self.keys@.contains(seen[i]));
                }
                if self@.contains(pair) {
                    assert(seen.to_set().contains(key_of(pair)));
                    let i = seen.index_of(key_of(pair));
                    assert(list@[i] == pair);
                }
            }
        }
        list
    }
}

} // verus!
