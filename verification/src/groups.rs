//! A reusable index multimap for the groupings that every tick rebuilds: the
//! vehicles of each lane, corridor and intersection.
//!
//! A [`GroupMap`] persists from tick to tick. Starting a tick clears only the
//! groups that the last one touched and keeps every vector's capacity, so a
//! steady-state tick allocates nothing. Small dense keys can skip the hash:
//! after [`GroupMap::reserve_dense`] the keys below the cap are served by an
//! array, and only the keys at or above it go to the hash map.

use vstd::prelude::*;
use std::collections::HashMap;

verus! {

broadcast use vstd::std_specs::hash::group_hash_axioms;

pub struct GroupMap<T> {
    map: HashMap<u32, Vec<T>>,
    dense: Vec<Vec<T>>,
    touched: Vec<u32>,
}

impl<T> GroupMap<T> {
    /// The members pushed under `key` this tick, in order.
    pub closed spec fn group(&self, key: u32) -> Seq<T> {
        if key < self.dense@.len() {
            self.dense@[key as int]@
        } else if self.map@.contains_key(key) {
            self.map@[key]@
        } else {
            Seq::empty()
        }
    }

    /// The keys with a group this tick, in the order of their first push.
    pub closed spec fn keys(&self) -> Seq<u32> {
        self.touched@
    }

    /// How many keys the array serves.
    pub closed spec fn cap(&self) -> nat {
        self.dense@.len()
    }

    /// Exactly the keys with a group are listed, each once.
    pub closed spec fn wf(&self) -> bool {
        &&& self.touched@.no_duplicates()
        &&& forall|k: u32| #[trigger] self.touched@.contains(k) <==> self.group(k).len() > 0
        // what the array serves, the map does not hold
        &&& forall|k: u32|
            k < self.dense@.len() && #[trigger] self.map@.contains_key(k) ==> self.map@[k]@.len() == 0
    }

    /// The groups after a value was pushed under a key.
    pub open spec fn pushed(&self, before: &GroupMap<T>, key: u32, value: T) -> bool {
        &&& self.cap() == before.cap()
        &&& self.group(key) == before.group(key).push(value)
        &&& forall|k: u32| k != key ==> #[trigger] self.group(k) == before.group(k)
        &&& self.keys() == (if before.group(key).len() == 0 {
            before.keys().push(key)
        } else {
            before.keys()
        })
    }

    /// Two maps hold the same groups, and have them in the same order.
    pub open spec fn same_groups(&self, other: &GroupMap<T>) -> bool {
        &&& self.keys() == other.keys()
        &&& forall|k: u32| #[trigger] self.group(k) == other.group(k)
    }

    /// What the invariant says of the listed keys.
    pub proof fn lemma_keys(&self)
        requires
            self.wf(),
        ensures
            self.keys().no_duplicates(),
            forall|k: u32| #[trigger] self.keys().contains(k) <==> self.group(k).len() > 0,
    {
    }

    pub fn new() -> (g: GroupMap<T>)
        ensures
            g.wf(),
            g.cap() == 0,
            g.keys() == Seq::<u32>::empty(),
            forall|k: u32| #[trigger] g.group(k) == Seq::<T>::empty(),
    {
        let g: GroupMap<T> = GroupMap {
            map: HashMap::new(),
            dense: Vec::new(),
            touched: Vec::new(),
        };
        assert forall|k: u32| #[trigger] g.group(k) == Seq::<T>::empty() by {}
        g
    }

    /// Serve the keys below `cap` from an array, before anything has been pushed.
    pub fn reserve_dense(&mut self, cap: usize)
        requires
            old(self).wf(),
            old(self).keys().len() == 0,
        ensures
            final(self).wf(),
            final(self).cap() == cap,
            final(self).keys() == Seq::<u32>::empty(),
            forall|k: u32| #[trigger] final(self).group(k) == Seq::<T>::empty(),
    {
        let mut dense: Vec<Vec<T>> = Vec::new();
        let mut i: usize = 0;
        while i < cap
            invariant
                i <= cap,
                dense@.len() == i,
                forall|k: int| 0 <= k < i ==> (#[trigger] dense@[k])@ == Seq::<T>::empty(),
            decreases cap - i,
        {
            dense.push(Vec::new());
            i += 1;
        }
        assert forall|k: u32| old(self).group(k).len() == 0 by {
            if old(self).group(k).len() > 0 {
                assert(self.touched@.contains(k));
            }
        }
        assert forall|k: u32| #[trigger] self.map@.contains_key(k) implies self.map@[k]@.len() == 0 by {
            assert(old(self).group(k).len() == 0);
        }
        self.dense = dense;
        assert(self.touched@ =~= Seq::<u32>::empty());
        assert forall|k: u32| #[trigger] self.group(k) == Seq::<T>::empty() by {
            if k >= self.dense@.len() && self.map@.contains_key(k) {
                assert(old(self).group(k).len() == 0);
                assert(self.map@[k]@ =~= Seq::<T>::empty());
            }
        }
    }

    /// Start a new tick: no group has a member.
    pub fn begin_tick(&mut self)
        requires
            old(self).wf(),
        ensures
            final(self).wf(),
            final(self).cap() == old(self).cap(),
            final(self).keys() == Seq::<u32>::empty(),
            forall|k: u32| #[trigger] final(self).group(k) == Seq::<T>::empty(),
    {
        let ghost start = *self;
        let mut i: usize = 0;
        while i < self.touched.len()
            invariant
                start.wf(),
                i <= self.touched@.len(),
                self.touched@ == start.touched@,
                self.dense@.len() == start.dense@.len(),
                forall|k: u32|
                    k < self.dense@.len() && #[trigger] self.map@.contains_key(k)
                        ==> self.map@[k]@.len() == 0,
                forall|k: u32|
                    #[trigger] self.group(k) == (if start.touched@.subrange(0, i as int).contains(k) {
                        Seq::<T>::empty()
                    } else {
                        start.group(k)
                    }),
            decreases self.touched@.len() - i,
        {
            let key = self.touched[i];
            let ghost before = *self;
            if (key as usize) < self.dense.len() {
                let mut bucket: Vec<T> = Vec::new();
                std::mem::swap(&mut bucket, &mut self.dense[key as usize]);
                bucket.clear();
                std::mem::swap(&mut bucket, &mut self.dense[key as usize]);
            } else {
                let bucket = self.map.entry(key).or_insert(Vec::new());
                bucket.clear();
            }
            assert forall|k: u32|
                #[trigger] self.group(k) == (if start.touched@.subrange(0, i + 1).contains(k) {
                    Seq::<T>::empty()
                } else {
                    start.group(k)
                }) by {
                let now = start.touched@.subrange(0, i + 1);
                let then = start.touched@.subrange(0, i as int);
                assert(now =~= then.push(key));
                if k == key {
                    assert(now[i as int] == k);
                    assert(self.group(k) =~= Seq::<T>::empty());
                } else {
                    assert(self.group(k) == before.group(k));
                    if then.contains(k) {
                        let j = choose|j: int| 0 <= j < then.len() && then[j] == k;
                        assert(now[j] == k);
                    }
                    if now.contains(k) {
                        let j = choose|j: int| 0 <= j < now.len() && now[j] == k;
                        assert(then[j] == k);
                    }
                }
            }
            i += 1;
        }
        let ghost cleared = *self;
        self.touched.clear();
        assert forall|k: u32| #[trigger] self.group(k) == Seq::<T>::empty() by {
            assert(self.group(k) == cleared.group(k));
            assert(start.touched@.subrange(0, i as int) =~= start.touched@);
            if !start.touched@.contains(k) {
                assert(start.group(k) =~= Seq::<T>::empty());
            }
        }
    }

    /// Add a member to the group under `key`.
    pub fn push(&mut self, key: u32, value: T)
        requires
            old(self).wf(),
        ensures
            final(self).wf(),
            final(self).pushed(old(self), key, value),
    {
        let ghost start = *self;
        if (key as usize) < self.dense.len() {
            if self.dense[key as usize].len() == 0 {
                self.touched.push(key);
            }
            self.dense[key as usize].push(value);
        } else {
            let bucket = self.map.entry(key).or_insert(Vec::new());
            if bucket.len() == 0 {
                self.touched.push(key);
            }
            bucket.push(value);
        }
        assert(self.group(key) =~= start.group(key).push(value));
        assert forall|k: u32| k != key implies #[trigger] self.group(k) == start.group(k) by {}
        assert forall|k: u32| #[trigger] self.touched@.contains(k) <==> self.group(k).len() > 0 by {
            if start.touched@.contains(k) {
                let j = choose|j: int| 0 <= j < start.touched@.len() && start.touched@[j] == k;
                assert(self.touched@[j] == k);
            }
            if k == key && start.group(key).len() == 0 {
                assert(self.touched@[self.touched@.len() - 1] == k);
            }
            if self.touched@.contains(k) && k != key {
                let j = choose|j: int| 0 <= j < self.touched@.len() && self.touched@[j] == k;
                assert(start.touched@[j] == k);
            }
        }
        assert(self.touched@.no_duplicates()) by {
            if start.group(key).len() == 0 {
                assert(!start.touched@.contains(key));
            }
        }
    }

    /// The group under `key`, if it has a member.
    pub fn get(&self, key: &u32) -> (r: Option<&Vec<T>>)
        requires
            self.wf(),
        ensures
            match r {
                Some(v) => v@ == self.group(*key) && v@.len() > 0,
                None => self.group(*key).len() == 0,
            },
    {
        if (*key as usize) < self.dense.len() {
            let v = &self.dense[*key as usize];
            if v.len() == 0 {
                None
            } else {
                Some(v)
            }
        } else {
            match self.map.get(key) {
                Some(v) => if v.len() == 0 {
                    None
                } else {
                    Some(v)
                },
                None => None,
            }
        }
    }

    /// How many keys have a group.
    pub fn len(&self) -> (n: usize)
        ensures
            n == self.keys().len(),
    {
        self.touched.len()
    }

    /// The group of the `i`-th key.
    pub fn group_at(&self, i: usize) -> (r: &Vec<T>)
        requires
            self.wf(),
            i < self.keys().len(),
        ensures
            r@ == self.group(self.keys()[i as int]),
            r@.len() > 0,
    {
        let key = self.touched[i];
        assert(self.touched@.contains(key));
        if (key as usize) < self.dense.len() {
            &self.dense[key as usize]
        } else {
            self.map.get(&key).unwrap()
        }
    }

    /// The `i`-th key and its group, to be changed in place.
    pub fn group_mut_at(&mut self, i: usize) -> (r: (u32, &mut Vec<T>))
        requires
            old(self).wf(),
            i < old(self).keys().len(),
        ensures
            r.0 == old(self).keys()[i as int],
            r.1@ == old(self).group(r.0),
            final(self).group(r.0) == final(r.1)@,
            final(self).keys() == old(self).keys(),
            final(self).cap() == old(self).cap(),
            forall|k: u32| k != r.0 ==> #[trigger] final(self).group(k) == old(self).group(k),
            final(r.1)@.len() > 0 ==> final(self).wf(),
    {
        let key = self.touched[i];
        assert(self.touched@.contains(key));
        if (key as usize) < self.dense.len() {
            (key, &mut self.dense[key as usize])
        } else {
            (key, self.map.entry(key).or_insert(Vec::new()))
        }
    }

    /// Every key with its group, in the order of the keys.
    pub fn iter(&self) -> (r: Vec<(u32, &Vec<T>)>)
        requires
            self.wf(),
        ensures
            r@.len() == self.keys().len(),
            forall|i: int|
                0 <= i < r@.len() ==> (#[trigger] r@[i]).0 == self.keys()[i] && r@[i].1@ == self.group(
                    self.keys()[i],
                ),
    {
        let mut out: Vec<(u32, &Vec<T>)> = Vec::new();
        let mut i: usize = 0;
        while i < self.touched.len()
            invariant
                self.wf(),
                i <= self.touched@.len(),
                out@.len() == i,
                forall|j: int|
                    0 <= j < i ==> (#[trigger] out@[j]).0 == self.keys()[j] && out@[j].1@
                        == self.group(self.keys()[j]),
            decreases self.touched@.len() - i,
        {
            out.push((self.touched[i], self.group_at(i)));
            i += 1;
        }
        out
    }
}

impl<T> Default for GroupMap<T> {
    /// A map without groups and without an array.
    fn default() -> (g: GroupMap<T>)
        ensures
            g.wf(),
            g.cap() == 0,
            g.keys() == Seq::<u32>::empty(),
            forall|k: u32| #[trigger] g.group(k) == Seq::<T>::empty(),
    {
        GroupMap::new()
    }
}

/// A map that begins a tick serves like a fresh one: whatever is then pushed, value
/// by value, both hold the same groups in the same order.
pub proof fn a_begun_map_serves_like_a_fresh_one<T>(
    begun: Seq<GroupMap<T>>,
    fresh: Seq<GroupMap<T>>,
    values: Seq<(u32, T)>,
    n: int,
)
    requires
        begun.len() == values.len() + 1,
        fresh.len() == values.len() + 1,
        begun[0].keys().len() == 0,
        fresh[0].keys().len() == 0,
        begun[0].wf(),
        fresh[0].wf(),
        forall|i: int|
            0 <= i < values.len() ==> begun[i + 1].pushed(
                &begun[i],
                (#[trigger] values[i]).0,
                values[i].1,
            ) && fresh[i + 1].pushed(&fresh[i], values[i].0, values[i].1),
        0 <= n <= values.len(),
    ensures
        begun[n].same_groups(&fresh[n]),
    decreases n,
{
    if n == 0 {
        begun[0].lemma_keys();
        fresh[0].lemma_keys();
        assert(begun[0].keys() =~= fresh[0].keys());
        assert forall|k: u32| #[trigger] begun[0].group(k) == fresh[0].group(k) by {
            assert(!begun[0].keys().contains(k) && !fresh[0].keys().contains(k));
            assert(begun[0].group(k) =~= fresh[0].group(k));
        }
    } else {
        a_begun_map_serves_like_a_fresh_one(begun, fresh, values, n - 1);
        let (key, value) = values[n - 1];
        assert(begun[n - 1].group(key) == fresh[n - 1].group(key));
        assert forall|k: u32| #[trigger] begun[n].group(k) == fresh[n].group(k) by {
            if k != key {
                assert(begun[n - 1].group(k) == fresh[n - 1].group(k));
            }
        }
    }
}

} // verus!
