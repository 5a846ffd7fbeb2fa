//! A map from byte strings to numbers.

use crate::index;
use crate::text;
use std::collections::HashMap;
use vstd::prelude::*;

verus! {

/// Where a byte string is looked for.
pub open spec fn bucket(s: Seq<u8>) -> u64
    decreases s.len(),
{
    if s.len() == 0 {
        0
    } else {
        index::spread(bucket(s.drop_last()) ^ (s.last() as u64))
    }
}

/// Where `s` is looked for.
fn bucket_of(s: &[u8]) -> (r: u64)
    ensures
        r == bucket(s@),
{
    let mut h: u64 = 0;
    let mut i: usize = 0;
    while i < s.len()
        invariant
            i <= s@.len(),
            h == bucket(s@.subrange(0, i as int)),
        decreases s@.len() - i,
    {
        assert(s@.subrange(0, i + 1).drop_last() =~= s@.subrange(0, i as int));
        h = (h ^ (s[i] as u64)).wrapping_mul(index::SPREAD);
        i = i + 1;
    }
    assert(s@.subrange(0, s@.len() as int) =~= s@);
    h
}

/// A map from byte strings to numbers.
pub struct Ids {
    slots: HashMap<u64, Vec<(Vec<u8>, u32)>>,
    map: Ghost<Map<Seq<u8>, u32>>,
}

impl View for Ids {
    type V = Map<Seq<u8>, u32>;

    closed spec fn view(&self) -> Map<Seq<u8>, u32> {
        self.map@
    }
}

impl Ids {
    /// What every operation keeps.
    pub closed spec fn wf(self) -> bool {
        &&& forall|k: Seq<u8>| #[trigger] self.map@.contains_key(k) ==> self.finds(k)
        &&& forall|b: u64, i: int|
            self.slots@.contains_key(b) && 0 <= i < self.slots@[b]@.len() ==> {
                let e = #[trigger] self.slots@[b]@[i];
                self.map@.contains_key(e.0@) && self.map@[e.0@] == e.1
            }
    }

    spec fn finds(self, k: Seq<u8>) -> bool {
        let b = bucket(k);
        &&& self.slots@.contains_key(b)
        &&& exists|i: int| 0 <= i < self.slots@[b]@.len() && (#[trigger] self.slots@[b]@[i]).0@ == k
    }

    /// The empty map.
    pub fn new() -> (r: Ids)
        ensures
            r.wf(),
            r@ == Map::<Seq<u8>, u32>::empty(),
    {
        broadcast use vstd::std_specs::hash::group_hash_axioms;

        Ids { slots: HashMap::new(), map: Ghost(Map::empty()) }
    }

    /// The number of `key`.
    pub fn get(&self, key: &[u8]) -> (r: Option<u32>)
        requires
            self.wf(),
        ensures
            match r {
                Some(id) => self@.contains_key(key@) && self@[key@] == id,
                None => !self@.contains_key(key@),
            },
    {
        broadcast use vstd::std_specs::hash::group_hash_axioms;

        let b: u64 = bucket_of(key);
        match self.slots.get(&b) {
            None => {
                assert(!self.finds(key@));
                None
            },
            Some(entries) => {
                let mut i: usize = 0;
                while i < entries.len()
                    invariant
                        i <= entries@.len(),
                        self.wf(),
                        self.slots@.contains_key(b),
                        self.slots@[b] == *entries,
                        forall|j: int| 0 <= j < i ==> (#[trigger] entries@[j]).0@ != key@,
                    decreases entries@.len() - i,
                {
                    assert(self.slots@[b]@[i as int] == entries@[i as int]);
                    if text::same_bytes(entries[i].0.as_slice(), key) {
                        return Some(entries[i].1);
                    }
                    i = i + 1;
                }
                assert(!self.finds(key@));
                None
            },
        }
    }

    /// Gives a new `key` the number `id`.
    pub fn insert(&mut self, key: Vec<u8>, id: u32)
        requires
            old(self).wf(),
            !old(self)@.contains_key(key@),
        ensures
            final(self).wf(),
            final(self)@ == old(self)@.insert(key@, id),
    {
        broadcast use vstd::std_specs::hash::group_hash_axioms;

        let ghost before = *self;
        let ghost k = key@;
        let b: u64 = bucket_of(key.as_slice());
        let mut entries: Vec<(Vec<u8>, u32)> = match self.slots.remove(&b) {
            Some(v) => v,
            None => Vec::new(),
        };
        let ghost had = entries@;
        entries.push((key, id));
        self.slots.insert(b, entries);
        proof {
            self.map@ = self.map@.insert(k, id);
            assert forall|x: Seq<u8>| #[trigger] self.map@.contains_key(x) implies self.finds(x) by {
                if x == k {
                    assert(self.slots@[b]@[had.len() as int].0@ == k);
                } else {
                    assert(before.finds(x));
                    let c = bucket(x);
                    let i = choose|i: int|
                        0 <= i < before.slots@[c]@.len() && (#[trigger] before.slots@[c]@[i]).0@ == x;
                    assert(self.slots@[c]@[i] == before.slots@[c]@[i]);
                }
            }
            assert forall|c: u64, i: int|
                self.slots@.contains_key(c) && 0 <= i < self.slots@[c]@.len() implies ({
                let e = #[trigger] self.slots@[c]@[i];
                self.map@.contains_key(e.0@) && self.map@[e.0@] == e.1
            }) by {
                if c == b && i == had.len() {
                } else {
                    assert(self.slots@[c]@[i] == before.slots@[c]@[i]);
                }
            }
        }
    }
}

} // verus!
