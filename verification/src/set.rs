//! Ordered sets of [`Key`]s.

use crate::order::Key;
use crate::table::{self, Table};
use vstd::prelude::*;

verus! {

/// An ordered set of keys.
#[derive(Debug)]
pub struct KeySet<K: Key> {
    items: Table<K, ()>,
}

impl<K: Key> View for KeySet<K> {
    type V = Set<K::V>;

    closed spec fn view(&self) -> Set<K::V> {
        self.items@.dom()
    }
}

/// Whether `s` lists the keys of `set`, ascending.
pub open spec fn lists_set<K: Key>(s: Seq<(K, ())>, set: Set<K::V>) -> bool {
    &&& table::ascending(s)
    &&& set == table::entries_map(s).dom()
}

impl<K: Key> KeySet<K> {
    /// The empty set.
    pub fn new() -> (r: Self)
        ensures
            r@ == Set::<K::V>::empty(),
    {
        let r = KeySet { items: Table::new() };
        assert(r@ =~= Set::<K::V>::empty());
        r
    }

    /// Whether `k` is in the set.
    pub fn contains(&self, k: &K) -> (r: bool)
        ensures
            r == self@.contains(k@),
    {
        self.items.contains_key(k)
    }

    /// Puts `k` in the set; whether it was not there before.
    pub fn insert(&mut self, k: K) -> (r: bool)
        ensures
            final(self)@ == old(self)@.insert(k@),
            r == !old(self)@.contains(k@),
    {
        let fresh = !self.items.contains_key(&k);
        self.items.insert(k, ());
        assert(self@ =~= old(self)@.insert(k@));
        fresh
    }

    /// Takes `k` out of the set.
    pub fn remove(&mut self, k: &K)
        ensures
            final(self)@ == old(self)@.remove(k@),
    {
        self.items.remove(k);
        assert(self@ =~= old(self)@.remove(k@));
    }

    /// The number of keys.
    pub fn len(&self) -> (r: usize)
        ensures
            self@.finite(),
            r == self@.len(),
    {
        self.items.len()
    }

    /// Whether there are no keys.
    pub fn is_empty(&self) -> (r: bool)
        ensures
            r == (self@ == Set::<K::V>::empty()),
    {
        proof {
            if self@ == Set::<K::V>::empty() {
                assert(self.items@ =~= Map::<K::V, ()>::empty());
            }
        }
        self.items.is_empty()
    }

    /// The keys, ascending.
    pub fn items(&self) -> (r: &Vec<(K, ())>)
        ensures
            lists_set(r@, self@),
    {
        self.items.entries()
    }
}

/// The set without `k`.
pub fn without<K: Key>(s: &KeySet<K>, k: &K) -> (r: KeySet<K>)
    ensures
        r@ == s@.remove(k@),
{
    let mut r = of_keys(&s.items);
    r.remove(k);
    r
}

/// The keys of a table.
pub fn of_keys<K: Key, V>(t: &Table<K, V>) -> (r: KeySet<K>)
    ensures
        r@ == t@.dom(),
{
    let list = t.entries();
    let ghost m = t@;
    let mut r: KeySet<K> = KeySet::new();
    let mut i: usize = 0;
    while i < list.len()
        invariant
            table::lists(list@, m),
            i <= list@.len(),
            forall|k: K::V| #[trigger]
                r@.contains(k) <==> exists|j: int| 0 <= j < i && (#[trigger] list@[j]).0@ == k,
        decreases list@.len() - i,
    {
        let k = &list[i].0;
        let ghost before = r@;
        let _ = r.insert(k.dup());
        proof {
            assert forall|x: K::V| #[trigger]
                r@.contains(x) <==> exists|j: int|
                    0 <= j < i + 1 && (#[trigger] list@[j]).0@ == x by {
                assert(list@[i as int].0@ == k@);
                assert(r@.contains(x) <==> before.contains(x) || x == k@);
            }
        }
        i = i + 1;
    }
    assert(r@ =~= m.dom());
    r
}

} // verus!
