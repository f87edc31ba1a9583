//! Reachability along a step relation.

use vstd::prelude::*;

verus! {

/// Whether each element of `p` steps to the next.
pub open spec fn is_path<T>(step: spec_fn(T, T) -> bool, p: Seq<T>) -> bool {
    &&& p.len() > 0
    &&& forall|i: int| 0 <= i < p.len() - 1 ==> #[trigger] step(p[i], p[i + 1])
}

/// Whether `p` leads from `a` to `b`.
pub open spec fn leads<T>(step: spec_fn(T, T) -> bool, p: Seq<T>, a: T, b: T) -> bool {
    is_path(step, p) && p[0] == a && p.last() == b
}

/// Whether some number of steps leads from `a` to `b`.
pub open spec fn reaches<T>(step: spec_fn(T, T) -> bool, a: T, b: T) -> bool {
    exists|p: Seq<T>| #[trigger] leads(step, p, a, b)
}

/// Everything reaches itself.
pub proof fn lemma_reaches_self<T>(step: spec_fn(T, T) -> bool, a: T)
    ensures
        reaches(step, a, a),
{
    assert(leads(step, seq![a], a, a));
}

/// What is reached can be stepped on from.
pub proof fn lemma_reaches_step<T>(step: spec_fn(T, T) -> bool, a: T, b: T, c: T)
    requires
        reaches(step, a, b),
        step(b, c),
    ensures
        reaches(step, a, c),
{
    let p = choose|p: Seq<T>| #[trigger] leads(step, p, a, b);
    let q = p.push(c);
    assert forall|i: int| 0 <= i < q.len() - 1 implies #[trigger] step(q[i], q[i + 1]) by {
        if i < p.len() - 1 {
            assert(step(p[i], p[i + 1]));
        }
    }
    assert(leads(step, q, a, c));
}

/// A set that holds the start and is closed under steps holds all that is
/// reached.
pub proof fn lemma_closed<T>(step: spec_fn(T, T) -> bool, s: spec_fn(T) -> bool, a: T, b: T)
    requires
        s(a),
        forall|x: T, y: T| s(x) && #[trigger] step(x, y) ==> s(y),
        reaches(step, a, b),
    ensures
        s(b),
{
    let p = choose|p: Seq<T>| #[trigger] leads(step, p, a, b);
    lemma_closed_along(step, s, p, p.len() - 1);
}

proof fn lemma_closed_along<T>(step: spec_fn(T, T) -> bool, s: spec_fn(T) -> bool, p: Seq<T>, n: int)
    requires
        is_path(step, p),
        s(p[0]),
        forall|x: T, y: T| s(x) && #[trigger] step(x, y) ==> s(y),
        0 <= n < p.len(),
    ensures
        s(p[n]),
    decreases n,
{
    if n > 0 {
        lemma_closed_along(step, s, p, n - 1);
        assert(step(p[n - 1], p[n - 1 + 1]));
    }
}

/// Reachability is transitive.
pub proof fn lemma_reaches_trans<T>(step: spec_fn(T, T) -> bool, a: T, b: T, c: T)
    requires
        reaches(step, a, b),
        reaches(step, b, c),
    ensures
        reaches(step, a, c),
{
    let s = |x: T| reaches(step, a, x);
    assert forall|x: T, y: T| s(x) && #[trigger] step(x, y) implies s(y) by {
        lemma_reaches_step(step, a, x, y);
    }
    lemma_closed(step, s, b, c);
}

/// Along a symmetric relation reachability is symmetric.
pub proof fn lemma_reaches_sym<T>(step: spec_fn(T, T) -> bool, a: T, b: T)
    requires
        forall|x: T, y: T| #[trigger] step(x, y) ==> step(y, x),
        reaches(step, a, b),
    ensures
        reaches(step, b, a),
{
    let s = |x: T| reaches(step, x, a);
    lemma_reaches_self(step, a);
    assert forall|x: T, y: T| s(x) && #[trigger] step(x, y) implies s(y) by {
        lemma_reaches_self(step, y);
        lemma_reaches_step(step, y, y, x);
        lemma_reaches_trans(step, y, x, a);
    }
    lemma_closed(step, s, a, b);
}

} // verus!
