//! Ordered tables and sets over [`Key`]s, kept as sorted vectors.

use crate::order::Key;
use vstd::prelude::*;

verus! {

/// Whether the entries stand in strictly ascending key order.
pub open spec fn ascending<K: Key, V>(s: Seq<(K, V)>) -> bool {
    forall|i: int, j: int|
        0 <= i < j < s.len() ==> K::precedes(#[trigger] s[i].0@, #[trigger] s[j].0@)
}

/// The map that a list of entries denotes.
pub open spec fn entries_map<K: Key, V>(s: Seq<(K, V)>) -> Map<K::V, V> {
    Map::new(
        |k: K::V| exists|i: int| 0 <= i < s.len() && #[trigger] s[i].0@ == k,
        |k: K::V| s[choose|i: int| 0 <= i < s.len() && #[trigger] s[i].0@ == k].1,
    )
}

/// Whether `s` lists the entries of `m`, in ascending key order.
pub open spec fn lists<K: Key, V>(s: Seq<(K, V)>, m: Map<K::V, V>) -> bool {
    &&& ascending(s)
    &&& m == entries_map(s)
}

/// In an ascending list no key occurs twice.
pub proof fn lemma_ascending_unique<K: Key, V>(s: Seq<(K, V)>, i: int, j: int)
    requires
        ascending(s),
        0 <= i < s.len(),
        0 <= j < s.len(),
        s[i].0@ == s[j].0@,
    ensures
        i == j,
{
    K::lemma_irreflexive(s[i].0@);
    if i < j {
        assert(K::precedes(s[i].0@, s[j].0@));
    } else if j < i {
        assert(K::precedes(s[j].0@, s[i].0@));
    }
}

/// What the map of an ascending list holds at a listed key.
pub proof fn lemma_entry<K: Key, V>(s: Seq<(K, V)>, i: int)
    requires
        ascending(s),
        0 <= i < s.len(),
    ensures
        entries_map(s).contains_key(s[i].0@),
        entries_map(s)[s[i].0@] == s[i].1,
{
    let k = s[i].0@;
    let c = choose|c: int| 0 <= c < s.len() && #[trigger] s[c].0@ == k;
    lemma_ascending_unique(s, c, i);
}

/// The map of an ascending list is finite, with one key per entry.
pub proof fn lemma_entries_len<K: Key, V>(s: Seq<(K, V)>)
    requires
        ascending(s),
    ensures
        entries_map(s).dom().finite(),
        entries_map(s).dom().len() == s.len(),
    decreases s.len(),
{
    if s.len() == 0 {
        assert(entries_map(s).dom() =~= Set::empty());
    } else {
        let t = s.drop_last();
        let k = s.last().0@;
        lemma_entries_len(t);
        assert(entries_map(s).dom() =~= entries_map(t).dom().insert(k)) by {
            assert forall|x: K::V| entries_map(s).dom().contains(x) implies
                entries_map(t).dom().insert(k).contains(x) by {
                let i = choose|i: int| 0 <= i < s.len() && #[trigger] s[i].0@ == x;
                if i < t.len() {
                    assert(t[i].0@ == x);
                }
            }
            assert forall|x: K::V| entries_map(t).dom().insert(k).contains(x) implies
                entries_map(s).dom().contains(x) by {
                if entries_map(t).dom().contains(x) {
                    let i = choose|i: int| 0 <= i < t.len() && #[trigger] t[i].0@ == x;
                    assert(s[i].0@ == x);
                } else {
                    assert(s[s.len() - 1].0@ == x);
                }
            }
        }
        if entries_map(t).dom().contains(k) {
            let i = choose|i: int| 0 <= i < t.len() && #[trigger] t[i].0@ == k;
            assert(s[i].0@ == k);
            lemma_ascending_unique(s, i, s.len() - 1);
        }
    }
}

/// An ordered table from keys to values.
#[derive(Debug)]
pub struct Table<K: Key, V> {
    entries: Vec<(K, V)>,
}

impl<K: Key, V> View for Table<K, V> {
    type V = Map<K::V, V>;

    closed spec fn view(&self) -> Map<K::V, V> {
        entries_map(self.entries@)
    }
}

impl<K: Key, V> Table<K, V> {
    #[verifier::type_invariant]
    spec fn well_formed(self) -> bool {
        ascending(self.entries@)
    }

    /// An empty table.
    pub fn new() -> (r: Self)
        ensures
            r@ == Map::<K::V, V>::empty(),
    {
        let r = Table { entries: Vec::new() };
        assert(r@ =~= Map::<K::V, V>::empty());
        r
    }

    /// The number of entries.
    pub fn len(&self) -> (r: usize)
        ensures
            self@.dom().finite(),
            r == self@.dom().len(),
    {
        proof {
            use_type_invariant(self);
            lemma_entries_len(self.entries@);
        }
        self.entries.len()
    }

    /// Whether there is no entry.
    pub fn is_empty(&self) -> (r: bool)
        ensures
            r == (self@ == Map::<K::V, V>::empty()),
    {
        proof {
            if self.entries@.len() > 0 {
                use_type_invariant(self);
                lemma_entry(self.entries@, 0);
                assert(!Map::<K::V, V>::empty().contains_key(self.entries@[0].0@));
            } else {
                assert(self@ =~= Map::<K::V, V>::empty());
            }
        }
        self.entries.len() == 0
    }

    /// The entries, in ascending key order.
    pub fn entries(&self) -> (r: &Vec<(K, V)>)
        ensures
            lists(r@, self@),
    {
        proof {
            use_type_invariant(self);
        }
        &self.entries
    }

    /// Where `k` stands among the entries, or would be inserted.
    fn position(&self, k: &K) -> (r: usize)
        ensures
            r <= self.entries@.len(),
            forall|j: int| 0 <= j < r ==> K::precedes(#[trigger] self.entries@[j].0@, k@),
            forall|j: int|
                r <= j < self.entries@.len() ==> !K::precedes(#[trigger] self.entries@[j].0@, k@),
    {
        proof {
            use_type_invariant(self);
        }
        let mut lo: usize = 0;
        let mut hi: usize = self.entries.len();
        while lo < hi
            invariant
                lo <= hi <= self.entries@.len(),
                ascending(self.entries@),
                forall|j: int| 0 <= j < lo ==> K::precedes(#[trigger] self.entries@[j].0@, k@),
                forall|j: int|
                    hi <= j < self.entries@.len() ==> !K::precedes(
                        #[trigger] self.entries@[j].0@,
                        k@,
                    ),
            decreases hi - lo,
        {
            let mid: usize = lo + (hi - lo) / 2;
            if self.entries[mid].0.before(k) {
                proof {
                    assert forall|j: int| 0 <= j <= mid implies K::precedes(
                        #[trigger] self.entries@[j].0@,
                        k@,
                    ) by {
                        if j < mid {
                            K::lemma_transitive(
                                self.entries@[j].0@,
                                self.entries@[mid as int].0@,
                                k@,
                            );
                        }
                    }
                }
                lo = mid + 1;
            } else {
                proof {
                    assert forall|j: int| mid <= j < self.entries@.len() implies !K::precedes(
                        #[trigger] self.entries@[j].0@,
                        k@,
                    ) by {
                        if mid < j && K::precedes(self.entries@[j].0@, k@) {
                            K::lemma_transitive(
                                self.entries@[mid as int].0@,
                                self.entries@[j].0@,
                                k@,
                            );
                        }
                    }
                }
                hi = mid;
            }
        }
        lo
    }

    /// What is at `k`.
    pub fn get(&self, k: &K) -> (r: Option<&V>)
        ensures
            match r {
                Some(v) => self@.contains_key(k@) && *v == self@[k@],
                None => !self@.contains_key(k@),
            },
    {
        let i: usize = self.position(k);
        proof {
            use_type_invariant(self);
        }
        if i < self.entries.len() && self.entries[i].0.same(k) {
            proof {
                lemma_entry(self.entries@, i as int);
            }
            Some(&self.entries[i].1)
        } else {
            proof {
                if self@.contains_key(k@) {
                    let j = choose|j: int|
                        0 <= j < self.entries@.len() && #[trigger] self.entries@[j].0@ == k@;
                    K::lemma_irreflexive(k@);
                    if j > i {
                        assert(K::precedes(self.entries@[i as int].0@, self.entries@[j].0@));
                    }
                }
            }
            None
        }
    }

    /// Whether there is an entry at `k`.
    pub fn contains_key(&self, k: &K) -> (r: bool)
        ensures
            r == self@.contains_key(k@),
    {
        self.get(k).is_some()
    }

    /// Puts `v` at `k`, in place of what was there.
    pub fn insert(&mut self, k: K, v: V)
        ensures
            final(self)@ == old(self)@.insert(k@, v),
    {
        let i: usize = self.position(&k);
        proof {
            use_type_invariant(&*self);
        }
        let ghost s = self.entries@;
        let mut entries: Vec<(K, V)> = Vec::new();
        std::mem::swap(&mut entries, &mut self.entries);
        let ghost kv = k@;
        let ghost vv = v;
        if i < entries.len() && entries[i].0.same(&k) {
            entries.set(i, (k, v));
            proof {
                lemma_table_set(s, i as int, entries@[i as int], kv, vv);
            }
        } else {
            entries.insert(i, (k, v));
            proof {
                lemma_table_insert(s, i as int, entries@[i as int], kv, vv);
            }
        }
        self.entries = entries;
    }

    /// Takes the entry at `k` out, if there is one.
    pub fn remove(&mut self, k: &K)
        ensures
            final(self)@ == old(self)@.remove(k@),
    {
        let _ = self.take(k);
    }

    /// Takes the entry at `k` out, and returns its value if there was one.
    pub fn take(&mut self, k: &K) -> (r: Option<V>)
        ensures
            final(self)@ == old(self)@.remove(k@),
            match r {
                Some(v) => old(self)@.contains_key(k@) && v == old(self)@[k@],
                None => !old(self)@.contains_key(k@),
            },
    {
        let i: usize = self.position(k);
        proof {
            use_type_invariant(&*self);
        }
        let ghost s = self.entries@;
        if i < self.entries.len() && self.entries[i].0.same(k) {
            let mut entries: Vec<(K, V)> = Vec::new();
            std::mem::swap(&mut entries, &mut self.entries);
            let entry = entries.remove(i);
            proof {
                lemma_table_remove(s, i as int);
                lemma_entry(s, i as int);
            }
            self.entries = entries;
            Some(entry.1)
        } else {
            proof {
                assert(!self@.contains_key(k@)) by {
                    if self@.contains_key(k@) {
                        let j = choose|j: int| 0 <= j < s.len() && #[trigger] s[j].0@ == k@;
                        K::lemma_irreflexive(k@);
                        if j > i {
                            assert(K::precedes(s[i as int].0@, s[j].0@));
                        }
                    }
                }
                assert(self@.remove(k@) =~= self@);
            }
            None
        }
    }
}

impl<K: Key, V> Table<K, V> {
    /// The entries, in ascending key order.
    pub fn into_entries(self) -> (r: Vec<(K, V)>)
        ensures
            lists(r@, self@),
    {
        proof {
            use_type_invariant(&self);
        }
        self.entries
    }
}

/// A way to make one table out of another, entry by entry.
pub trait Select<K: Key, V, W: View> {
    /// What the value `v` at `k` becomes, if the entry stays.
    spec fn image(&self, k: K::V, v: V) -> Option<W::V>;

    fn select(&self, k: &K, v: &V) -> (w: Option<W>)
        ensures
            match w {
                Some(w) => self.image(k@, *v) == Some(w@),
                None => self.image(k@, *v) is None,
            },
    ;
}

/// What the values of a table denote.
pub open spec fn views<X, W: View>(m: Map<X, W>) -> Map<X, W::V> {
    m.map_values(|w: W| w@)
}

/// The entries that stay, each with what it becomes.
pub open spec fn images<K: Key, V, W: View, S: Select<K, V, W>>(m: Map<K::V, V>, s: S) -> Map<
    K::V,
    W::V,
> {
    Map::new(
        |k: K::V| m.contains_key(k) && s.image(k, m[k]) is Some,
        |k: K::V| s.image(k, m[k])->0,
    )
}

/// Makes one table out of another.
pub fn select<K: Key, V, W: View, S: Select<K, V, W>>(t: &Table<K, V>, s: &S) -> (out: Table<K, W>)
    ensures
        views(out@) == images::<K, V, W, S>(t@, *s),
{
    let list = t.entries();
    let ghost all = list@;
    let ghost m = t@;
    let mut out: Table<K, W> = Table::new();
    let mut i: usize = 0;
    assert(views(out@) =~= images::<K, V, W, S>(entries_map(all.take(0)), *s));
    while i < list.len()
        invariant
            list@ == all,
            ascending(all),
            i <= all.len(),
            views(out@) == images::<K, V, W, S>(entries_map(all.take(i as int)), *s),
        decreases all.len() - i,
    {
        let ghost here = all.take(i as int);
        let ghost next = all.take(i + 1);
        let ghost before = out@;
        let k = &list[i].0;
        let v = &list[i].1;
        proof {
            assert(next =~= here.push(all[i as int]));
            lemma_table_push(here, all[i as int]);
        }
        let w = s.select(k, v);
        proof {
            lemma_images_push::<K, V, W, S>(
                entries_map(here),
                *s,
                k@,
                *v,
            );
        }
        if let Some(w) = w {
            out.insert(k.dup(), w);
            proof {
                assert(views(out@) =~= views(before).insert(k@, w@));
            }
        }
        i = i + 1;
    }
    assert(all.take(i as int) =~= all);
    out
}

/// A way to put two values at one key together.
pub trait Join<V: View> {
    spec fn joined(&self, x: V::V, y: V::V) -> V::V;

    fn join(&self, x: V, y: V) -> (r: V)
        ensures
            r@ == self.joined(x@, y@),
    ;
}

/// Both maps together; where both have a key, the values are put together.
pub open spec fn joins<X, V: View, J: Join<V>>(a: Map<X, V::V>, b: Map<X, V::V>, j: J) -> Map<
    X,
    V::V,
> {
    Map::new(
        |k: X| a.contains_key(k) || b.contains_key(k),
        |k: X|
            if a.contains_key(k) && b.contains_key(k) {
                j.joined(a[k], b[k])
            } else if a.contains_key(k) {
                a[k]
            } else {
                b[k]
            },
    )
}

/// Puts two tables together.
pub fn join<K: Key, V: View, J: Join<V>>(a: Table<K, V>, b: Table<K, V>, j: &J) -> (out: Table<
    K,
    V,
>)
    ensures
        views(out@) == joins::<K::V, V, J>(views(a@), views(b@), *j),
{
    let ghost before = views(a@);
    let ghost m = b@;
    let mut list = b.into_entries();
    let ghost all = list@;
    let mut out = a;
    proof {
        assert(entries_map(all.skip(all.len() as int)) =~= Map::<K::V, V>::empty());
        assert(views(out@) =~= joins::<K::V, V, J>(
            before,
            views(entries_map(all.skip(all.len() as int))),
            *j,
        ));
    }
    while list.len() > 0
        invariant
            lists(all, m),
            list@.len() <= all.len(),
            list@ == all.take(list@.len() as int),
            views(out@) == joins::<K::V, V, J>(
                before,
                views(entries_map(all.skip(list@.len() as int))),
                *j,
            ),
        decreases list@.len(),
    {
        let ghost n = list@.len() - 1;
        let ghost rest = entries_map(all.skip(n + 1));
        let ghost here = views(out@);
        if let Some((k, v)) = list.pop() {
            let ghost kv = k@;
            let ghost vv = v@;
            proof {
                assert(all[n] == (k, v));
                assert(all.take(n + 1).drop_last() =~= all.take(n));
                assert(all.skip(n) =~= seq![(k, v)] + all.skip(n + 1));
                lemma_table_cons((k, v), all.skip(n + 1));
                assert(views(entries_map(all.skip(n))) =~= views(rest).insert(kv, vv));
            }
            match out.take(&k) {
                Some(x) => {
                    proof {
                        assert(here.contains_key(kv) && here[kv] == x@);
                    }
                    let w = j.join(x, v);
                    let ghost wv = w@;
                    out.insert(k, w);
                    proof {
                        assert(views(out@) =~= here.insert(kv, wv));
                        assert(here.insert(kv, wv) =~= joins::<K::V, V, J>(
                            before,
                            views(rest).insert(kv, vv),
                            *j,
                        ));
                    }
                },
                None => {
                    proof {
                        assert(!here.contains_key(kv));
                    }
                    out.insert(k, v);
                    proof {
                        assert(views(out@) =~= here.insert(kv, vv));
                        assert(here.insert(kv, vv) =~= joins::<K::V, V, J>(
                            before,
                            views(rest).insert(kv, vv),
                            *j,
                        ));
                    }
                },
            }
        }
    }
    assert(all.skip(0) =~= all);
    out
}

proof fn lemma_table_cons<K: Key, V>(e: (K, V), s: Seq<(K, V)>)
    requires
        ascending(seq![e] + s),
    ensures
        entries_map(seq![e] + s) == entries_map(s).insert(e.0@, e.1),
        !entries_map(s).contains_key(e.0@),
{
    let t = seq![e] + s;
    let m = entries_map(s).insert(e.0@, e.1);
    assert(ascending(s)) by {
        assert forall|a: int, b: int| 0 <= a < b < s.len() implies K::precedes(
            #[trigger] s[a].0@,
            #[trigger] s[b].0@,
        ) by {
            assert(t[a + 1] == s[a] && t[b + 1] == s[b]);
            assert(K::precedes(t[a + 1].0@, t[b + 1].0@));
        }
    }
    assert(t[0] == e);
    if entries_map(s).contains_key(e.0@) {
        let j = choose|j: int| 0 <= j < s.len() && #[trigger] s[j].0@ == e.0@;
        assert(t[j + 1].0@ == e.0@);
        lemma_ascending_unique(t, j + 1, 0);
    }
    assert forall|x: K::V| entries_map(t).contains_key(x) == m.contains_key(x) by {
        if entries_map(t).contains_key(x) {
            let j = choose|j: int| 0 <= j < t.len() && #[trigger] t[j].0@ == x;
            if j > 0 {
                assert(s[j - 1].0@ == x);
            }
        }
        if m.contains_key(x) {
            if x == e.0@ {
                assert(t[0].0@ == x);
            } else {
                let j = choose|j: int| 0 <= j < s.len() && #[trigger] s[j].0@ == x;
                assert(t[j + 1].0@ == x);
            }
        }
    }
    assert forall|x: K::V| entries_map(t).contains_key(x) implies entries_map(t)[x] == m[x] by {
        let j = choose|j: int| 0 <= j < t.len() && #[trigger] t[j].0@ == x;
        lemma_entry(t, j);
        if j > 0 {
            assert(s[j - 1] == t[j]);
            lemma_entry(s, j - 1);
        }
    }
    assert(entries_map(t) =~= m);
}

/// Whether `s` lists the keys of `m`, ascending.
pub open spec fn lists_keys<K: Key, X>(s: Seq<K::V>, m: Map<K::V, X>) -> bool {
    &&& forall|i: int, j: int|
        0 <= i < j < s.len() ==> K::precedes(#[trigger] s[i], #[trigger] s[j])
    &&& forall|k: K::V| #[trigger] m.contains_key(k) <==> s.contains(k)
}

/// The keys of `m`, ascending.
pub open spec fn keys_of<K: Key, X>(m: Map<K::V, X>) -> Seq<K::V> {
    choose|s: Seq<K::V>| lists_keys::<K, X>(s, m)
}

/// There is one ascending list of a map's keys.
pub proof fn lemma_keys<K: Key, X>(s: Seq<K::V>, m: Map<K::V, X>)
    requires
        lists_keys::<K, X>(s, m),
    ensures
        keys_of::<K, X>(m) == s,
{
    let t = keys_of::<K, X>(m);
    assert(lists_keys::<K, X>(t, m));
    assert forall|k: K::V| s.contains(k) == t.contains(k) by {
        assert(m.contains_key(k) <==> s.contains(k));
        assert(m.contains_key(k) <==> t.contains(k));
    }
    lemma_same_list::<K>(s, t);
}

proof fn lemma_same_list<K: Key>(s: Seq<K::V>, t: Seq<K::V>)
    requires
        forall|i: int, j: int|
            0 <= i < j < s.len() ==> K::precedes(#[trigger] s[i], #[trigger] s[j]),
        forall|i: int, j: int|
            0 <= i < j < t.len() ==> K::precedes(#[trigger] t[i], #[trigger] t[j]),
        forall|k: K::V| s.contains(k) == t.contains(k),
    ensures
        s == t,
    decreases s.len(),
{
    if s.len() == 0 {
        if t.len() > 0 {
            assert(t.contains(t[0]));
        }
        assert(s =~= t);
    } else {
        assert(s.contains(s.last()));
        assert(t.len() > 0);
        assert(t.contains(t.last()));
        assert(s.contains(t.last()));
        assert(t.contains(s.last()));
        if s.last() != t.last() {
            let i = choose|i: int| 0 <= i < s.len() && s[i] == t.last();
            let j = choose|j: int| 0 <= j < t.len() && t[j] == s.last();
            assert(K::precedes(s[i], s[s.len() - 1]));
            assert(K::precedes(t[j], t[t.len() - 1]));
            K::lemma_transitive(s.last(), t.last(), s.last());
            K::lemma_irreflexive(s.last());
        }
        let s0 = s.drop_last();
        let t0 = t.drop_last();
        assert forall|k: K::V| s0.contains(k) == t0.contains(k) by {
            K::lemma_irreflexive(s.last());
            if s0.contains(k) {
                let i = choose|i: int| 0 <= i < s0.len() && s0[i] == k;
                assert(s[i] == k);
                assert(s.contains(k));
                assert(t.contains(k));
                let j = choose|j: int| 0 <= j < t.len() && t[j] == k;
                assert(K::precedes(s[i], s[s.len() - 1]));
                assert(j < t0.len());
                assert(t0[j] == k);
            }
            if t0.contains(k) {
                let i = choose|i: int| 0 <= i < t0.len() && t0[i] == k;
                assert(t[i] == k);
                assert(t.contains(k));
                assert(s.contains(k));
                let j = choose|j: int| 0 <= j < s.len() && s[j] == k;
                assert(K::precedes(t[i], t[t.len() - 1]));
                assert(j < s0.len());
                assert(s0[j] == k);
            }
        }
        lemma_same_list::<K>(s0, t0);
        assert(s =~= s0.push(s.last()));
        assert(t =~= t0.push(t.last()));
    }
}

proof fn lemma_last_key<K: Key>(d: Set<K::V>) -> (m: K::V)
    requires
        d.finite(),
        d.len() > 0,
    ensures
        d.contains(m),
        forall|k: K::V| #[trigger] d.contains(k) ==> k == m || K::precedes(k, m),
    decreases d.len(),
{
    let x = d.choose();
    let rest = d.remove(x);
    if rest.len() == 0 {
        assert forall|k: K::V| #[trigger] d.contains(k) implies k == x || K::precedes(k, x) by {
            if k != x {
                assert(rest.contains(k));
            }
        }
        x
    } else {
        let m = lemma_last_key::<K>(rest);
        K::lemma_total(x, m);
        if K::precedes(m, x) {
            assert forall|k: K::V| #[trigger] d.contains(k) implies k == x || K::precedes(k, x) by {
                if k != x {
                    assert(rest.contains(k));
                    if k != m {
                        K::lemma_transitive(k, m, x);
                    }
                }
            }
            x
        } else {
            assert forall|k: K::V| #[trigger] d.contains(k) implies k == m || K::precedes(k, m) by {
                if k != x {
                    assert(rest.contains(k));
                }
            }
            m
        }
    }
}

proof fn lemma_listing<K: Key>(d: Set<K::V>) -> (s: Seq<K::V>)
    requires
        d.finite(),
    ensures
        forall|i: int, j: int|
            0 <= i < j < s.len() ==> K::precedes(#[trigger] s[i], #[trigger] s[j]),
        forall|k: K::V| #[trigger] d.contains(k) <==> s.contains(k),
    decreases d.len(),
{
    if d.len() == 0 {
        Seq::empty()
    } else {
        let m = lemma_last_key::<K>(d);
        let rest = d.remove(m);
        let t = lemma_listing::<K>(rest);
        let s = t.push(m);
        assert forall|i: int, j: int| 0 <= i < j < s.len() implies K::precedes(
            #[trigger] s[i],
            #[trigger] s[j],
        ) by {
            assert(s[i] == t[i]);
            if j == t.len() {
                assert(t.contains(t[i]));
                assert(rest.contains(t[i]));
                assert(d.contains(t[i]));
            } else {
                assert(s[j] == t[j]);
            }
        }
        assert forall|k: K::V| #[trigger] d.contains(k) <==> s.contains(k) by {
            if d.contains(k) {
                if k == m {
                    assert(s[t.len() as int] == k);
                } else {
                    assert(rest.contains(k));
                    let i = choose|i: int| 0 <= i < t.len() && t[i] == k;
                    assert(s[i] == k);
                }
            }
            if s.contains(k) {
                let i = choose|i: int| 0 <= i < s.len() && s[i] == k;
                if i < t.len() {
                    assert(t[i] == k);
                    assert(t.contains(k));
                    assert(rest.contains(k));
                }
            }
        }
        s
    }
}

/// The keys of a finite map can be listed.
pub proof fn lemma_keys_of<K: Key, X>(m: Map<K::V, X>)
    requires
        m.dom().finite(),
    ensures
        lists_keys::<K, X>(keys_of::<K, X>(m), m),
{
    let s = lemma_listing::<K>(m.dom());
    assert forall|k: K::V| #[trigger] m.contains_key(k) <==> s.contains(k) by {
        assert(m.dom().contains(k) <==> s.contains(k));
    }
    assert(lists_keys::<K, X>(s, m));
}

/// The keys of a listing, in order.
pub open spec fn key_views<K: Key, V>(s: Seq<(K, V)>) -> Seq<K::V> {
    s.map_values(|e: (K, V)| e.0@)
}

/// A listing of a map's entries lists its keys.
pub proof fn lemma_listed_keys<K: Key, V, X>(s: Seq<(K, V)>, m: Map<K::V, V>, w: Map<K::V, X>)
    requires
        lists(s, m),
        w.dom() == m.dom(),
    ensures
        keys_of::<K, X>(w) == key_views(s),
        lists_keys::<K, X>(key_views(s), w),
{
    let ks = key_views(s);
    assert forall|k: K::V| #[trigger] w.contains_key(k) <==> ks.contains(k) by {
        assert(w.dom().contains(k) == m.dom().contains(k));
        if m.contains_key(k) {
            let i = choose|i: int| 0 <= i < s.len() && #[trigger] s[i].0@ == k;
            assert(ks[i] == k);
        }
        if ks.contains(k) {
            let i = choose|i: int| 0 <= i < ks.len() && ks[i] == k;
            lemma_entry(s, i);
        }
    }
    assert forall|i: int, j: int| 0 <= i < j < ks.len() implies K::precedes(
        #[trigger] ks[i],
        #[trigger] ks[j],
    ) by {
        assert(K::precedes(s[i].0@, s[j].0@));
    }
    lemma_keys::<K, X>(ks, w);
}

proof fn lemma_images_push<K: Key, V, W: View, S: Select<K, V, W>>(
    m: Map<K::V, V>,
    s: S,
    k: K::V,
    v: V,
)
    requires
        !m.contains_key(k),
    ensures
        images::<K, V, W, S>(m.insert(k, v), s) == (match s.image(k, v) {
            Some(w) => images::<K, V, W, S>(m, s).insert(k, w),
            None => images::<K, V, W, S>(m, s),
        }),
{
    let after = images::<K, V, W, S>(m.insert(k, v), s);
    match s.image(k, v) {
        Some(w) => {
            assert(after =~= images::<K, V, W, S>(m, s).insert(k, w));
        },
        None => {
            assert(after =~= images::<K, V, W, S>(m, s));
        },
    }
}

/// A listing with one more entry behind it.
pub proof fn lemma_table_push<K: Key, V>(s: Seq<(K, V)>, e: (K, V))
    requires
        ascending(s.push(e)),
    ensures
        entries_map(s.push(e)) == entries_map(s).insert(e.0@, e.1),
        !entries_map(s).contains_key(e.0@),
{
    let t = s.push(e);
    let m = entries_map(s).insert(e.0@, e.1);
    assert(ascending(s)) by {
        assert forall|a: int, b: int| 0 <= a < b < s.len() implies K::precedes(
            #[trigger] s[a].0@,
            #[trigger] s[b].0@,
        ) by {
            assert(t[a] == s[a] && t[b] == s[b]);
            assert(K::precedes(t[a].0@, t[b].0@));
        }
    }
    assert(t[s.len() as int] == e);
    if entries_map(s).contains_key(e.0@) {
        let j = choose|j: int| 0 <= j < s.len() && #[trigger] s[j].0@ == e.0@;
        assert(t[j].0@ == e.0@);
        lemma_ascending_unique(t, j, s.len() as int);
    }
    assert forall|x: K::V| entries_map(t).contains_key(x) == m.contains_key(x) by {
        if entries_map(t).contains_key(x) {
            let j = choose|j: int| 0 <= j < t.len() && #[trigger] t[j].0@ == x;
            if j < s.len() {
                assert(s[j].0@ == x);
            }
        }
        if m.contains_key(x) {
            if x == e.0@ {
                assert(t[s.len() as int].0@ == x);
            } else {
                let j = choose|j: int| 0 <= j < s.len() && #[trigger] s[j].0@ == x;
                assert(t[j].0@ == x);
            }
        }
    }
    assert forall|x: K::V| entries_map(t).contains_key(x) implies entries_map(t)[x] == m[x] by {
        let j = choose|j: int| 0 <= j < t.len() && #[trigger] t[j].0@ == x;
        lemma_entry(t, j);
        if j < s.len() {
            assert(s[j] == t[j]);
            lemma_entry(s, j);
        }
    }
    assert(entries_map(t) =~= m);
}

proof fn lemma_table_set<K: Key, V>(s: Seq<(K, V)>, i: int, e: (K, V), k: K::V, v: V)
    requires
        ascending(s),
        0 <= i < s.len(),
        s[i].0@ == k,
        e.0@ == k,
        e.1 == v,
    ensures
        ascending(s.update(i, e)),
        entries_map(s.update(i, e)) == entries_map(s).insert(k, v),
{
    let t = s.update(i, e);
    assert(ascending(t));
    let m = entries_map(s).insert(k, v);
    assert forall|x: K::V| entries_map(t).contains_key(x) == m.contains_key(x) by {
        if entries_map(t).contains_key(x) {
            let j = choose|j: int| 0 <= j < t.len() && #[trigger] t[j].0@ == x;
            assert(s[j].0@ == x);
        }
        if m.contains_key(x) {
            if x == k {
                assert(t[i].0@ == k);
            } else {
                let j = choose|j: int| 0 <= j < s.len() && #[trigger] s[j].0@ == x;
                assert(t[j].0@ == x);
            }
        }
    }
    assert forall|x: K::V| entries_map(t).contains_key(x) implies entries_map(t)[x] == m[x] by {
        let j = choose|j: int| 0 <= j < t.len() && #[trigger] t[j].0@ == x;
        lemma_entry(t, j);
        lemma_entry(s, j);
        if x == k {
            lemma_ascending_unique(t, i, j);
        }
    }
    assert(entries_map(t) =~= m);
}

proof fn lemma_table_insert<K: Key, V>(s: Seq<(K, V)>, i: int, e: (K, V), k: K::V, v: V)
    requires
        ascending(s),
        0 <= i <= s.len(),
        forall|j: int| 0 <= j < i ==> K::precedes(#[trigger] s[j].0@, k),
        forall|j: int| i <= j < s.len() ==> !K::precedes(#[trigger] s[j].0@, k),
        i < s.len() ==> s[i].0@ != k,
        e.0@ == k,
        e.1 == v,
    ensures
        ascending(s.insert(i, e)),
        entries_map(s.insert(i, e)) == entries_map(s).insert(k, v),
{
    let t = s.insert(i, e);
    assert forall|j: int| i <= j < s.len() implies K::precedes(k, #[trigger] s[j].0@) by {
        K::lemma_total(s[i].0@, k);
        if j > i {
            assert(K::precedes(s[i].0@, s[j].0@));
            K::lemma_transitive(k, s[i].0@, s[j].0@);
        }
    }
    assert forall|a: int, b: int| 0 <= a < b < t.len() implies K::precedes(
        #[trigger] t[a].0@,
        #[trigger] t[b].0@,
    ) by {
        let sa = if a < i { a } else { a - 1 };
        let sb = if b < i { b } else { b - 1 };
        if a != i {
            assert(t[a] == s[sa]);
        }
        if b != i {
            assert(t[b] == s[sb]);
        }
        if a != i && b != i {
            assert(K::precedes(s[sa].0@, s[sb].0@));
        }
    }
    let m = entries_map(s).insert(k, v);
    assert forall|x: K::V| entries_map(t).contains_key(x) == m.contains_key(x) by {
        if entries_map(t).contains_key(x) {
            let j = choose|j: int| 0 <= j < t.len() && #[trigger] t[j].0@ == x;
            if j < i {
                assert(s[j].0@ == x);
            } else if j > i {
                assert(s[j - 1].0@ == x);
            }
        }
        if m.contains_key(x) {
            if x == k {
                assert(t[i].0@ == k);
            } else {
                let j = choose|j: int| 0 <= j < s.len() && #[trigger] s[j].0@ == x;
                if j < i {
                    assert(t[j].0@ == x);
                } else {
                    assert(t[j + 1].0@ == x);
                }
            }
        }
    }
    assert forall|x: K::V| entries_map(t).contains_key(x) implies entries_map(t)[x] == m[x] by {
        let j = choose|j: int| 0 <= j < t.len() && #[trigger] t[j].0@ == x;
        lemma_entry(t, j);
        if x == k {
            assert(t[i].0@ == k);
            lemma_ascending_unique(t, i, j);
        } else if j < i {
            lemma_entry(s, j);
        } else {
            lemma_entry(s, j - 1);
        }
    }
    assert(entries_map(t) =~= m);
}

proof fn lemma_table_remove<K: Key, V>(s: Seq<(K, V)>, i: int)
    requires
        ascending(s),
        0 <= i < s.len(),
    ensures
        ascending(s.remove(i)),
        entries_map(s.remove(i)) == entries_map(s).remove(s[i].0@),
{
    let t = s.remove(i);
    let k = s[i].0@;
    assert forall|a: int, b: int| 0 <= a < b < t.len() implies K::precedes(
        #[trigger] t[a].0@,
        #[trigger] t[b].0@,
    ) by {
        let sa = if a < i { a } else { a + 1 };
        let sb = if b < i { b } else { b + 1 };
        assert(K::precedes(s[sa].0@, s[sb].0@));
    }
    let m = entries_map(s).remove(k);
    assert forall|x: K::V| entries_map(t).contains_key(x) == m.contains_key(x) by {
        if entries_map(t).contains_key(x) {
            let j = choose|j: int| 0 <= j < t.len() && #[trigger] t[j].0@ == x;
            let sj = if j < i { j } else { j + 1 };
            assert(s[sj].0@ == x);
            if x == k {
                lemma_ascending_unique(s, i, sj);
            }
        }
        if m.contains_key(x) {
            let j = choose|j: int| 0 <= j < s.len() && #[trigger] s[j].0@ == x;
            let tj = if j < i { j } else { j - 1 };
            assert(t[tj].0@ == x);
        }
    }
    assert forall|x: K::V| entries_map(t).contains_key(x) implies entries_map(t)[x] == m[x] by {
        let j = choose|j: int| 0 <= j < t.len() && #[trigger] t[j].0@ == x;
        let sj = if j < i { j } else { j + 1 };
        assert(t[j] == s[sj]);
        if x == k {
            lemma_ascending_unique(s, i, sj);
        }
        lemma_entry(t, j);
        lemma_entry(s, sj);
    }
    assert(entries_map(t) =~= m);
}

} // verus!
