//! Maps from namespaces, or from directories and namespaces, to extents.

use crate::iso::types::{DirectoryRef, EntryType};
use vstd::prelude::*;

verus! {

/// A key that can be compared.
pub trait Key: Copy {
    /// Whether two keys are the same.
    fn same(&self, other: &Self) -> (r: bool)
        ensures
            r == (*self == *other),
    ;
}

impl Key for EntryType {
    fn same(&self, other: &Self) -> (r: bool) {
        *self == *other
    }
}

/// A directory's number and a namespace.
#[derive(Debug, Clone, Copy, PartialEq, Eq, Structural)]
pub struct DirKey {
    /// The directory's number.
    pub id: usize,
    /// The namespace.
    pub ty: EntryType,
}

impl Key for DirKey {
    fn same(&self, other: &Self) -> (r: bool) {
        *self == *other
    }
}

/// A map to extents. No key occurs twice.
#[derive(Debug)]
pub struct RefMap<K: Key> {
    items: Vec<(K, DirectoryRef)>,
}

/// Maps a directory's number and a namespace to the directory's extent.
pub type RelocationMap = RefMap<DirKey>;

spec fn item_map<K>(items: Seq<(K, DirectoryRef)>) -> Map<K, DirectoryRef>
    decreases items.len(),
{
    if items.len() == 0 {
        Map::empty()
    } else {
        item_map(items.drop_last()).insert(items.last().0, items.last().1)
    }
}

spec fn distinct<K>(items: Seq<(K, DirectoryRef)>) -> bool {
    forall|i: int, j: int| 0 <= i < j < items.len() ==> items[i].0 != items[j].0
}

proof fn item_map_lookup<K>(items: Seq<(K, DirectoryRef)>)
    requires
        distinct(items),
    ensures
        forall|i: int|
            #![trigger items[i]]
            0 <= i < items.len() ==> item_map(items).dom().contains(items[i].0)
                && item_map(items)[items[i].0] == items[i].1,
        forall|k: K|
            #[trigger] item_map(items).dom().contains(k) ==> exists|i: int|
                0 <= i < items.len() && (#[trigger] items[i]).0 == k,
    decreases items.len(),
{
    if items.len() > 0 {
        let t = items.drop_last();
        assert(distinct(t));
        item_map_lookup(t);
        assert forall|i: int|
            #![trigger items[i]]
            0 <= i < items.len() implies item_map(items).dom().contains(items[i].0)
            && item_map(items)[items[i].0] == items[i].1 by {
            if i < t.len() {
                assert(t[i] == items[i]);
            }
        }
        assert forall|k: K| #[trigger] item_map(items).dom().contains(k) implies exists|i: int|
            0 <= i < items.len() && (#[trigger] items[i]).0 == k by {
            if k == items.last().0 {
                assert(items[items.len() - 1].0 == k);
            } else {
                assert(item_map(t).dom().contains(k));
                let i = choose|i: int| 0 <= i < t.len() && (#[trigger] t[i]).0 == k;
                assert(items[i].0 == k);
            }
        }
    }
}

impl<K: Key> RefMap<K> {
    /// The map.
    pub closed spec fn view(&self) -> Map<K, DirectoryRef> {
        item_map(self.items@)
    }

    #[verifier::type_invariant]
    spec fn inv(&self) -> bool {
        distinct(self.items@)
    }

    /// The empty map.
    pub fn new() -> (r: Self)
        ensures
            r@ == Map::<K, DirectoryRef>::empty(),
    {
        RefMap { items: Vec::new() }
    }

    /// What the map holds for a key.
    pub fn get(&self, key: &K) -> (r: Option<DirectoryRef>)
        ensures
            r == (if self@.dom().contains(*key) {
                Some(self@[*key])
            } else {
                None
            }),
    {
        proof {
            use_type_invariant(self);
            item_map_lookup(self.items@);
        }
        let mut i: usize = 0;
        while i < self.items.len()
            invariant
                i <= self.items@.len(),
                forall|j: int| 0 <= j < i ==> (#[trigger] self.items@[j]).0 != *key,
            decreases self.items.len() - i,
        {
            if self.items[i].0.same(key) {
                proof {
                    use_type_invariant(self);
                    item_map_lookup(self.items@);
                    assert(self.items@[i as int].0 == *key);
                }
                return Some(self.items[i].1);
            }
            i += 1;
        }
        None
    }

    /// Sets what the map holds for a key.
    pub fn insert(&mut self, key: K, value: DirectoryRef)
        ensures
            final(self)@ == old(self)@.insert(key, value),
    {
        proof {
            use_type_invariant(&*self);
            item_map_lookup(self.items@);
        }
        let ghost before = self.items@;
        let n: usize = self.items.len();
        let mut i: usize = 0;
        while i < n && !self.items[i].0.same(&key)
            invariant
                i <= n,
                n == self.items@.len(),
                self.items@ == before,
                forall|j: int| 0 <= j < i ==> (#[trigger] before[j]).0 != key,
            decreases n - i,
        {
            i += 1;
        }
        if i < n {
            let mut items: Vec<(K, DirectoryRef)> = Vec::new();
            core::mem::swap(&mut items, &mut self.items);
            items[i] = (key, value);
            proof {
                let after = before.update(i as int, (key, value));
                assert(items@ =~= after);
                assert(distinct(after)) by {
                    assert forall|a: int, b: int| 0 <= a < b < after.len() implies after[a].0
                        != after[b].0 by {
                        assert(before[a].0 != before[b].0);
                    }
                }
                item_map_lookup(after);
                item_map_lookup(before);
                let want = item_map(before).insert(key, value);
                assert forall|k: K|
                    item_map(after).dom().contains(k) <==> want.dom().contains(k) by {
                    if item_map(after).dom().contains(k) {
                        let a = choose|a: int| 0 <= a < after.len() && (#[trigger] after[a]).0 == k;
                        assert(before[a].0 == k || k == key);
                    }
                    if want.dom().contains(k) {
                        if k == key {
                            assert(after[i as int].0 == k);
                        } else {
                            let a = choose|a: int|
                                0 <= a < before.len() && (#[trigger] before[a]).0 == k;
                            assert(after[a].0 == k);
                        }
                    }
                }
                assert forall|k: K| want.dom().contains(k) implies item_map(after)[k]
                    == want[k] by {
                    if k == key {
                        assert(after[i as int].0 == k);
                    } else {
                        let a = choose|a: int|
                            0 <= a < before.len() && (#[trigger] before[a]).0 == k;
                        assert(after[a] == before[a]);
                    }
                }
                assert(item_map(after) =~= want);
            }
            *self = RefMap { items };
        } else {
            let mut items: Vec<(K, DirectoryRef)> = Vec::new();
            core::mem::swap(&mut items, &mut self.items);
            items.push((key, value));
            assert(items@.drop_last() =~= before);
            *self = RefMap { items };
        }
    }

    /// Number of keys.
    pub closed spec fn count(&self) -> nat {
        self.items@.len()
    }

    /// The key at a position, in the order of first insertion.
    pub closed spec fn key_at(&self, i: int) -> K {
        self.items@[i].0
    }

    /// Number of keys.
    pub fn len(&self) -> (r: usize)
        ensures
            r == self.count(),
            forall|k: K|
                #[trigger] self@.dom().contains(k) ==> exists|i: int|
                    0 <= i < self.count() && #[trigger] self.key_at(i) == k,
    {
        proof {
            use_type_invariant(self);
            item_map_lookup(self.items@);
            assert forall|k: K| #[trigger] self@.dom().contains(k) implies exists|i: int|
                0 <= i < self.count() && #[trigger] self.key_at(i) == k by {
                let i = choose|i: int|
                    0 <= i < self.items@.len() && (#[trigger] self.items@[i]).0 == k;
                assert(self.key_at(i) == k);
            }
        }
        self.items.len()
    }

    /// The key and the value at a position, in the order of first insertion.
    pub fn item(&self, i: usize) -> (r: (K, DirectoryRef))
        requires
            i < self.count(),
        ensures
            r.0 == self.key_at(i as int),
            self@.dom().contains(r.0),
            self@[r.0] == r.1,
    {
        proof {
            use_type_invariant(self);
            item_map_lookup(self.items@);
        }
        let item: (K, DirectoryRef) = self.items[i];
        assert(item == self.items@[i as int]);
        item
    }

    /// A copy.
    pub fn duplicate(&self) -> (r: Self)
        ensures
            r@ == self@,
    {
        proof {
            use_type_invariant(self);
        }
        let mut items: Vec<(K, DirectoryRef)> = Vec::new();
        let mut i: usize = 0;
        while i < self.items.len()
            invariant
                i <= self.items@.len(),
                items@ == self.items@.take(i as int),
            decreases self.items.len() - i,
        {
            items.push(self.items[i]);
            i += 1;
            assert(items@ =~= self.items@.take(i as int));
        }
        assert(items@ =~= self.items@);
        RefMap { items }
    }
}

} // verus!
