//! Strict total orders on sequences, and the [`Key`] trait of the values that
//! index the library's tables.

use vstd::prelude::*;

verus! {

/// Whether `a` comes before `b` in lexicographic order, the elements being
/// ordered by `lt`.
pub open spec fn lex_lt<T>(a: Seq<T>, b: Seq<T>, lt: spec_fn(T, T) -> bool) -> bool
    decreases a.len(),
{
    if b.len() == 0 {
        false
    } else if a.len() == 0 {
        true
    } else {
        lt(a[0], b[0]) || (a[0] == b[0] && lex_lt(a.drop_first(), b.drop_first(), lt))
    }
}

/// Whether `lt` is a strict total order.
pub open spec fn strict_total<T>(lt: spec_fn(T, T) -> bool) -> bool {
    &&& forall|a: T| !#[trigger] lt(a, a)
    &&& forall|a: T, b: T, c: T| #[trigger] lt(a, b) && #[trigger] lt(b, c) ==> lt(a, c)
    &&& forall|a: T, b: T| a == b || #[trigger] lt(a, b) || lt(b, a)
}

/// No sequence comes before itself.
pub proof fn lemma_lex_irreflexive<T>(a: Seq<T>, lt: spec_fn(T, T) -> bool)
    requires
        strict_total(lt),
    ensures
        !lex_lt(a, a, lt),
    decreases a.len(),
{
    if a.len() > 0 {
        assert(!lt(a[0], a[0]));
        lemma_lex_irreflexive(a.drop_first(), lt);
    }
}

/// What comes before another comes before what that comes before.
pub proof fn lemma_lex_transitive<T>(a: Seq<T>, b: Seq<T>, c: Seq<T>, lt: spec_fn(T, T) -> bool)
    requires
        strict_total(lt),
        lex_lt(a, b, lt),
        lex_lt(b, c, lt),
    ensures
        lex_lt(a, c, lt),
    decreases a.len(),
{
    if a.len() > 0 {
        if a[0] == b[0] && b[0] == c[0] {
            assert(!lt(a[0], b[0]));
            assert(!lt(b[0], c[0]));
            lemma_lex_transitive(a.drop_first(), b.drop_first(), c.drop_first(), lt);
        }
    }
}

/// Of two sequences that differ one comes before the other.
pub proof fn lemma_lex_total<T>(a: Seq<T>, b: Seq<T>, lt: spec_fn(T, T) -> bool)
    requires
        strict_total(lt),
    ensures
        a == b || lex_lt(a, b, lt) || lex_lt(b, a, lt),
    decreases a.len(),
{
    if a.len() == 0 && b.len() == 0 {
        assert(a =~= b);
    } else if a.len() > 0 && b.len() > 0 {
        assert(a[0] == b[0] || lt(a[0], b[0]) || lt(b[0], a[0]));
        if a[0] == b[0] {
            lemma_lex_total(a.drop_first(), b.drop_first(), lt);
            if a.drop_first() == b.drop_first() {
                assert(a =~= seq![a[0]] + a.drop_first());
                assert(b =~= seq![b[0]] + b.drop_first());
            }
        }
    }
}

/// Where two sequences first differ decides their lexicographic order.
pub proof fn lemma_lex_at<T>(a: Seq<T>, b: Seq<T>, i: int, lt: spec_fn(T, T) -> bool)
    requires
        strict_total(lt),
        0 <= i <= a.len(),
        i <= b.len(),
        forall|j: int| 0 <= j < i ==> a[j] == b[j],
    ensures
        i == b.len() ==> !lex_lt(a, b, lt),
        i == a.len() && i < b.len() ==> lex_lt(a, b, lt),
        i < a.len() && i < b.len() && a[i] != b[i] ==> lex_lt(a, b, lt) == lt(a[i], b[i]),
    decreases i,
{
    if i > 0 {
        assert(a[0] == b[0]);
        assert(!lt(a[0], a[0]));
        lemma_lex_at(a.drop_first(), b.drop_first(), i - 1, lt);
    }
}

/// The lexicographic order over a strict total order is a strict total order.
pub proof fn lemma_lex_strict_total<T>(lt: spec_fn(T, T) -> bool)
    requires
        strict_total(lt),
    ensures
        strict_total(|a: Seq<T>, b: Seq<T>| lex_lt(a, b, lt)),
{
    let lex = |a: Seq<T>, b: Seq<T>| lex_lt(a, b, lt);
    assert forall|a: Seq<T>| !#[trigger] lex(a, a) by {
        lemma_lex_irreflexive(a, lt);
    }
    assert forall|a: Seq<T>, b: Seq<T>, c: Seq<T>| #[trigger] lex(a, b) && #[trigger] lex(b, c)
        implies lex(a, c) by {
        lemma_lex_transitive(a, b, c, lt);
    }
    assert forall|a: Seq<T>, b: Seq<T>| a == b || #[trigger] lex(a, b) || lex(b, a) by {
        lemma_lex_total(a, b, lt);
    }
}

/// A value that can index a table: it can be compared with others of its type
/// by what it denotes, and what it denotes is totally ordered.
pub trait Key: View + Sized {
    /// The strict total order on what the keys denote.
    spec fn precedes(a: Self::V, b: Self::V) -> bool;

    proof fn lemma_irreflexive(a: Self::V)
        ensures
            !Self::precedes(a, a),
    ;

    proof fn lemma_transitive(a: Self::V, b: Self::V, c: Self::V)
        requires
            Self::precedes(a, b),
            Self::precedes(b, c),
        ensures
            Self::precedes(a, c),
    ;

    proof fn lemma_total(a: Self::V, b: Self::V)
        ensures
            a == b || Self::precedes(a, b) || Self::precedes(b, a),
    ;

    /// Whether this key comes before `other`.
    fn before(&self, other: &Self) -> (r: bool)
        ensures
            r == Self::precedes(self@, other@),
    ;

    /// Whether the two keys denote the same.
    fn same(&self, other: &Self) -> (r: bool)
        ensures
            r == (self@ == other@),
    ;

    /// A key that denotes the same.
    fn dup(&self) -> (r: Self)
        ensures
            r@ == self@,
    ;
}

/// `x` put into `s` behind everything that it does not come before.
pub open spec fn insert_sorted<T>(s: Seq<T>, x: T, lt: spec_fn(T, T) -> bool) -> Seq<T>
    decreases s.len(),
{
    if s.len() > 0 && lt(x, s.last()) {
        insert_sorted(s.drop_last(), x, lt).push(s.last())
    } else {
        s.push(x)
    }
}

/// The elements of `s` in ascending order, those that are level in the order they
/// had.
pub open spec fn sorted<T>(s: Seq<T>, lt: spec_fn(T, T) -> bool) -> Seq<T>
    decreases s.len(),
{
    if s.len() == 0 {
        Seq::empty()
    } else {
        insert_sorted(sorted(s.drop_last(), lt), s.last(), lt)
    }
}

/// Putting an element in adds it and keeps the others.
pub proof fn lemma_insert_sorted_multiset<T>(s: Seq<T>, x: T, lt: spec_fn(T, T) -> bool)
    ensures
        insert_sorted(s, x, lt).to_multiset() == s.to_multiset().insert(x),
        insert_sorted(s, x, lt).len() == s.len() + 1,
    decreases s.len(),
{
    broadcast use vstd::seq_lib::group_to_multiset_ensures;

    if s.len() > 0 && lt(x, s.last()) {
        lemma_insert_sorted_multiset(s.drop_last(), x, lt);
        assert(s =~= s.drop_last().push(s.last()));
        assert(s.to_multiset().insert(x) =~= insert_sorted(s, x, lt).to_multiset());
    }
}

/// Sorting keeps the elements.
pub proof fn lemma_sorted_multiset<T>(s: Seq<T>, lt: spec_fn(T, T) -> bool)
    ensures
        sorted(s, lt).to_multiset() == s.to_multiset(),
        sorted(s, lt).len() == s.len(),
    decreases s.len(),
{
    broadcast use vstd::seq_lib::group_to_multiset_ensures;

    if s.len() > 0 {
        lemma_sorted_multiset(s.drop_last(), lt);
        lemma_insert_sorted_multiset(sorted(s.drop_last(), lt), s.last(), lt);
        assert(s =~= s.drop_last().push(s.last()));
    } else {
        assert(sorted(s, lt) =~= s);
    }
}

/// Whether no element comes before one that stands in front of it.
pub open spec fn is_sorted<T>(s: Seq<T>, lt: spec_fn(T, T) -> bool) -> bool {
    forall|i: int, j: int| 0 <= i < j < s.len() ==> !lt(#[trigger] s[j], #[trigger] s[i])
}

/// Whether `lt` orders its elements up to some that are level.
pub open spec fn strict_weak<T>(lt: spec_fn(T, T) -> bool) -> bool {
    &&& forall|a: T, b: T| #[trigger] lt(a, b) ==> !lt(b, a)
    &&& forall|a: T, b: T, c: T| !#[trigger] lt(b, a) && !#[trigger] lt(c, b) ==> !lt(c, a)
}

proof fn lemma_insert_sorted_sorted<T>(s: Seq<T>, x: T, lt: spec_fn(T, T) -> bool)
    requires
        strict_weak(lt),
        is_sorted(s, lt),
    ensures
        is_sorted(insert_sorted(s, x, lt), lt),
        forall|i: int|
            0 <= i < insert_sorted(s, x, lt).len() ==> #[trigger] insert_sorted(s, x, lt)[i] == x
                || s.contains(insert_sorted(s, x, lt)[i]),
    decreases s.len(),
{
    let r = insert_sorted(s, x, lt);
    if s.len() > 0 && lt(x, s.last()) {
        let t = s.drop_last();
        let u = insert_sorted(t, x, lt);
        lemma_insert_sorted_sorted(t, x, lt);
        assert forall|i: int| 0 <= i < r.len() implies #[trigger] r[i] == x || s.contains(r[i]) by {
            if i < u.len() {
                assert(r[i] == u[i]);
                if u[i] != x {
                    let k = choose|k: int| 0 <= k < t.len() && t[k] == u[i];
                    assert(s[k] == u[i]);
                }
            } else {
                assert(r[i] == s[s.len() - 1]);
            }
        }
        assert forall|i: int, j: int| 0 <= i < j < r.len() implies !lt(
            #[trigger] r[j],
            #[trigger] r[i],
        ) by {
            if j < u.len() {
                assert(r[i] == u[i] && r[j] == u[j]);
            } else {
                assert(r[i] == u[i]);
                if u[i] != x {
                    let k = choose|k: int| 0 <= k < t.len() && t[k] == u[i];
                    assert(s[k] == u[i]);
                }
            }
        }
    } else {
        assert forall|i: int, j: int| 0 <= i < j < r.len() implies !lt(
            #[trigger] r[j],
            #[trigger] r[i],
        ) by {
            if j == s.len() {
                if i < s.len() - 1 {
                    assert(!lt(s[s.len() - 1], s[i]));
                    assert(!lt(x, s[s.len() - 1]));
                }
            } else {
                assert(r[i] == s[i] && r[j] == s[j]);
            }
        }
    }
}

/// Sorting sorts.
pub proof fn lemma_sorted_sorted<T>(s: Seq<T>, lt: spec_fn(T, T) -> bool)
    requires
        strict_weak(lt),
    ensures
        is_sorted(sorted(s, lt), lt),
    decreases s.len(),
{
    if s.len() > 0 {
        lemma_sorted_sorted(s.drop_last(), lt);
        lemma_insert_sorted_sorted(sorted(s.drop_last(), lt), s.last(), lt);
    }
}

/// Under a strict total order, what is sorted depends on the elements alone, not
/// on the order they came in.
pub proof fn lemma_sorted_unique<T>(a: Seq<T>, b: Seq<T>, lt: spec_fn(T, T) -> bool)
    requires
        strict_total(lt),
        a.to_multiset() == b.to_multiset(),
    ensures
        sorted(a, lt) == sorted(b, lt),
{
    let leq = |x: T, y: T| !lt(y, x);
    assert forall|x: T, y: T| #[trigger] lt(x, y) implies !lt(y, x) by {
        if lt(y, x) {
            assert(lt(x, x));
        }
    }
    assert forall|x: T, y: T, z: T| !#[trigger] lt(y, x) && !#[trigger] lt(z, y) implies !lt(
        z,
        x,
    ) by {
        if lt(z, x) {
            assert(x == y || lt(x, y));
            assert(y == z || lt(y, z));
        }
    }
    lemma_sorted_sorted(a, lt);
    lemma_sorted_sorted(b, lt);
    lemma_sorted_multiset(a, lt);
    lemma_sorted_multiset(b, lt);
    assert(vstd::relations::total_ordering(leq)) by {
        assert(vstd::relations::reflexive(leq));
        assert(vstd::relations::antisymmetric(leq)) by {
            assert forall|x: T, y: T| #[trigger] leq(x, y) && #[trigger] leq(y, x) implies x
                == y by {
                assert(x == y || lt(x, y) || lt(y, x));
            }
        }
        assert(vstd::relations::transitive(leq));
        assert(vstd::relations::strongly_connected(leq));
    }
    assert(vstd::relations::sorted_by(sorted(a, lt), leq));
    assert(vstd::relations::sorted_by(sorted(b, lt), leq));
    vstd::seq_lib::lemma_sorted_unique(sorted(a, lt), sorted(b, lt), leq);
}

/// A way to put the values of a type in order.
pub trait Ranker<T> {
    /// Whether the ranker can judge `x`.
    spec fn judges(&self, x: T) -> bool;

    /// The order.
    spec fn lt(&self) -> spec_fn(T, T) -> bool;

    fn less(&self, a: &T, b: &T) -> (r: bool)
        requires
            self.judges(*a),
            self.judges(*b),
        ensures
            r == self.lt()(*a, *b),
    ;
}

proof fn lemma_insert_at<T>(s: Seq<T>, x: T, k: int, lt: spec_fn(T, T) -> bool)
    requires
        0 <= k <= s.len(),
        forall|j: int| k <= j < s.len() ==> lt(x, #[trigger] s[j]),
        k > 0 ==> !lt(x, s[k - 1]),
    ensures
        insert_sorted(s, x, lt) == s.insert(k, x),
    decreases s.len(),
{
    if s.len() > 0 && lt(x, s.last()) {
        assert(k < s.len());
        lemma_insert_at(s.drop_last(), x, k, lt);
        assert(s.insert(k, x) =~= s.drop_last().insert(k, x).push(s.last()));
    } else {
        if k < s.len() {
            assert(lt(x, s[s.len() - 1]));
        }
        assert(s.insert(k, x) =~= s.push(x));
    }
}

/// The elements in ascending order, those that are level in the order they had.
pub fn sort<T, R: Ranker<T>>(v: Vec<T>, ranker: &R) -> (r: Vec<T>)
    requires
        forall|i: int| 0 <= i < v@.len() ==> ranker.judges(#[trigger] v@[i]),
    ensures
        r@ == sorted(v@, ranker.lt()),
{
    let ghost s = v@;
    let ghost lt = ranker.lt();
    let mut v = v;
    let mut i: usize = 0;
    assert(v@ =~= sorted(s.take(0), lt) + s.skip(0));
    while i < v.len()
        invariant
            i <= s.len(),
            v@.len() == s.len(),
            lt == ranker.lt(),
            forall|j: int| 0 <= j < s.len() ==> ranker.judges(#[trigger] s[j]),
            sorted(s.take(i as int), lt).len() == i,
            forall|j: int|
                0 <= j < i ==> ranker.judges(#[trigger] sorted(s.take(i as int), lt)[j]),
            v@ == sorted(s.take(i as int), lt) + s.skip(i as int),
        decreases s.len() - i,
    {
        let ghost done = sorted(s.take(i as int), lt);
        let x = v.remove(i);
        assert(x == s[i as int]);
        assert(v@ =~= done + s.skip(i + 1));
        let mut k: usize = i;
        while k > 0 && ranker.less(&x, &v[k - 1])
            invariant
                k <= i < s.len(),
                v@ == done + s.skip(i + 1),
                done.len() == i,
                lt == ranker.lt(),
                ranker.judges(x),
                forall|j: int| 0 <= j < i ==> ranker.judges(#[trigger] done[j]),
                forall|j: int| k <= j < i ==> lt(x, #[trigger] done[j]),
            decreases k,
        {
            k = k - 1;
        }
        proof {
            if k > 0 {
                assert(v@[k - 1] == done[k - 1]);
            }
            lemma_insert_at(done, x, k as int, lt);
            let t = s.take(i + 1);
            assert(t.drop_last() =~= s.take(i as int));
            assert(sorted(t, lt) == insert_sorted(done, x, lt));
            assert((done + s.skip(i + 1)).insert(k as int, x) =~= done.insert(k as int, x) + s.skip(
                i + 1,
            ));
        }
        v.insert(k, x);
        i = i + 1;
    }
    proof {
        assert(s.take(i as int) =~= s);
        assert(s.skip(i as int) =~= Seq::empty());
        assert(v@ =~= sorted(s, lt));
    }
    v
}

/// Sorting goes by what is compared: mapping before sorting is mapping after it.
pub proof fn lemma_sorted_map<T, U>(
    s: Seq<T>,
    f: spec_fn(T) -> U,
    lt: spec_fn(T, T) -> bool,
    under: spec_fn(U, U) -> bool,
)
    requires
        forall|a: T, b: T| #[trigger] lt(a, b) == under(f(a), f(b)),
    ensures
        sorted(s, lt).map_values(f) == sorted(s.map_values(f), under),
    decreases s.len(),
{
    if s.len() > 0 {
        lemma_sorted_map(s.drop_last(), f, lt, under);
        assert(s.map_values(f).drop_last() =~= s.drop_last().map_values(f));
        lemma_insert_map(sorted(s.drop_last(), lt), s.last(), f, lt, under);
    } else {
        assert(sorted(s, lt).map_values(f) =~= sorted(s.map_values(f), under));
    }
}

proof fn lemma_insert_map<T, U>(
    s: Seq<T>,
    x: T,
    f: spec_fn(T) -> U,
    lt: spec_fn(T, T) -> bool,
    under: spec_fn(U, U) -> bool,
)
    requires
        forall|a: T, b: T| #[trigger] lt(a, b) == under(f(a), f(b)),
    ensures
        insert_sorted(s, x, lt).map_values(f) == insert_sorted(s.map_values(f), f(x), under),
    decreases s.len(),
{
    let t = s.map_values(f);
    if s.len() > 0 && lt(x, s.last()) {
        lemma_insert_map(s.drop_last(), x, f, lt, under);
        assert(t.drop_last() =~= s.drop_last().map_values(f));
        assert(insert_sorted(s, x, lt).map_values(f) =~= insert_sorted(
            s.drop_last(),
            x,
            lt,
        ).map_values(f).push(f(s.last())));
    } else {
        assert(insert_sorted(s, x, lt).map_values(f) =~= t.push(f(x)));
    }
}

/// What decides between two sequences is the first place at which they differ, and of two
/// of which one goes on where the other ends, the shorter comes first.
pub proof fn law_first_difference_decides<T>(
    a: Seq<T>,
    b: Seq<T>,
    lt: spec_fn(T, T) -> bool,
    i: int,
)
    requires
        0 <= i <= a.len(),
        i < b.len(),
        forall|j: int| 0 <= j < i ==> #[trigger] a[j] == b[j],
        forall|x: T| !#[trigger] lt(x, x),
    ensures
        i == a.len() ==> lex_lt(a, b, lt),
        i < a.len() && lt(a[i], b[i]) ==> lex_lt(a, b, lt),
        i < a.len() && a[i] != b[i] && !lt(a[i], b[i]) ==> !lex_lt(a, b, lt),
    decreases i,
{
    if i > 0 {
        assert(a[0] == b[0]);
        let (x, y) = (a.drop_first(), b.drop_first());
        assert forall|j: int| 0 <= j < i - 1 implies #[trigger] x[j] == y[j] by {
            assert(a[j + 1] == b[j + 1]);
        }
        law_first_difference_decides(x, y, lt, i - 1);
    }
}

} // verus!
