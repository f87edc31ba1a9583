//! Dependency orders: the post-order of a depth-first walk along a list of
//! dependencies per node.

use crate::walk;
use vstd::prelude::*;

verus! {

/// The lists that vectors hold.
pub open spec fn views(v: Seq<Vec<usize>>) -> Seq<Seq<usize>> {
    v.map_values(|x: Vec<usize>| x@)
}

/// Whether every listed dependency is a node.
pub open spec fn in_range(deps: Seq<Seq<usize>>) -> bool {
    forall|n: int, i: int|
        0 <= n < deps.len() && 0 <= i < deps[n].len() ==> #[trigger] deps[n][i] < deps.len()
}

/// Whether `n` depends directly on `d`.
pub open spec fn depends(deps: Seq<Seq<usize>>) -> spec_fn(usize, usize) -> bool {
    |n: usize, d: usize| n < deps.len() && deps[n as int].contains(d)
}

/// Whether `rank` is greater at every node than at its dependencies. Such a rank
/// exists where no node depends on itself through others.
pub open spec fn ranked(deps: Seq<Seq<usize>>, rank: spec_fn(usize) -> nat) -> bool {
    forall|n: usize, d: usize| #[trigger] depends(deps)(n, d) ==> rank(d) < rank(n)
}

/// Whether no node depends on itself, directly or through others.
pub open spec fn acyclic(deps: Seq<Seq<usize>>) -> bool {
    exists|rank: spec_fn(usize) -> nat| #[trigger] ranked(deps, rank)
}

/// Whether every dependency of a listed node is listed before it.
pub open spec fn topological(deps: Seq<Seq<usize>>, order: Seq<usize>) -> bool {
    forall|i: int, d: usize|
        0 <= i < order.len() && #[trigger] depends(deps)(order[i], d) ==> order.take(i).contains(d)
}

/// Whether `n` is a seed or something that a seed depends on, directly or
/// through others.
pub open spec fn needed(deps: Seq<Seq<usize>>, seeds: Seq<usize>, n: usize) -> bool {
    exists|k: int|
        0 <= k < seeds.len() && #[trigger] walk::reaches(depends(deps), seeds[k], n)
}

/// Whether `order` lists exactly what the seeds need, each once, and
/// dependencies first wherever the dependencies form no cycle.
pub open spec fn pull_order(deps: Seq<Seq<usize>>, seeds: Seq<usize>, order: Seq<usize>) -> bool {
    &&& order.no_duplicates()
    &&& forall|n: usize| #[trigger] order.contains(n) <==> needed(deps, seeds, n)
    &&& acyclic(deps) ==> topological(deps, order)
}

/// The nodes not yet seen, counted.
pub open spec fn unseen(seen: Seq<bool>) -> nat
    decreases seen.len(),
{
    if seen.len() == 0 {
        0
    } else {
        unseen(seen.drop_last()) + if seen.last() {
            0nat
        } else {
            1nat
        }
    }
}

/// Marking a node leaves one fewer unseen.
pub proof fn lemma_unseen_mark(seen: Seq<bool>, n: int)
    requires
        0 <= n < seen.len(),
        !seen[n],
    ensures
        unseen(seen.update(n, true)) == unseen(seen) - 1,
    decreases seen.len(),
{
    let t = seen.update(n, true);
    if n == seen.len() - 1 {
        assert(t.drop_last() =~= seen.drop_last());
    } else {
        assert(t.drop_last() =~= seen.drop_last().update(n, true));
        lemma_unseen_mark(seen.drop_last(), n);
    }
}

proof fn lemma_unseen_mono(a: Seq<bool>, b: Seq<bool>)
    requires
        a.len() == b.len(),
        forall|i: int| 0 <= i < a.len() && a[i] ==> b[i],
    ensures
        unseen(b) <= unseen(a),
    decreases a.len(),
{
    if a.len() > 0 {
        lemma_unseen_mono(a.drop_last(), b.drop_last());
    }
}

/// How far a walk has come: what it has seen, and what it has listed.
#[verifier::ext_equal]
pub struct Walked {
    pub seen: Seq<bool>,
    pub order: Seq<usize>,
}

/// The walk to `n`, at most `fuel` deep: what it depends on first, then itself, unless
/// it was seen.
pub open spec fn visited(deps: Seq<Seq<usize>>, fuel: nat, n: usize, st: Walked) -> Walked
    decreases fuel, 0nat,
{
    if fuel == 0 || n >= deps.len() || st.seen[n as int] {
        st
    } else {
        let after = visited_all(
            deps,
            (fuel - 1) as nat,
            deps[n as int],
            Walked { seen: st.seen.update(n as int, true), order: st.order },
        );
        Walked { seen: after.seen, order: after.order.push(n) }
    }
}

/// The walk to each of the listed nodes, one after the other.
pub open spec fn visited_all(deps: Seq<Seq<usize>>, fuel: nat, list: Seq<usize>, st: Walked) -> Walked
    decreases fuel, list.len(),
{
    if list.len() == 0 {
        st
    } else {
        visited(deps, fuel, list.last(), visited_all(deps, fuel, list.drop_last(), st))
    }
}

/// What the seeds need, in the order in which a walk along the dependencies completes
/// it.
pub open spec fn post_order_of(deps: Seq<Seq<usize>>, seeds: Seq<usize>) -> Seq<usize> {
    visited_all(
        deps,
        deps.len() + 1,
        seeds,
        Walked { seen: Seq::new(deps.len(), |i: int| false), order: Seq::empty() },
    ).order
}

/// As long as nothing is seen, all is unseen.
pub proof fn lemma_none_seen(n: nat)
    ensures
        unseen(Seq::new(n, |i: int| false)) == n,
    decreases n,
{
    if n > 0 {
        lemma_none_seen((n - 1) as nat);
        assert(Seq::new(n, |i: int| false).drop_last() =~= Seq::new((n - 1) as nat, |i: int| false));
    }
}

/// The state of the walk: what is seen, what is listed, and that all listed
/// dependencies come first but for nodes still in progress.
spec fn walking(deps: Seq<Seq<usize>>, seen: Seq<bool>, order: Seq<usize>) -> bool {
    &&& seen.len() == deps.len()
    &&& order.no_duplicates()
    &&& forall|n: usize| #[trigger] order.contains(n) ==> n < seen.len() && seen[n as int]
    // A listed node's dependencies are all seen.
    &&& forall|n: usize, d: usize|
        order.contains(n) && #[trigger] depends(deps)(n, d) ==> d < seen.len() && seen[d as int]
}

/// Whether everything seen but not listed has a rank above `bound`.
spec fn open_above(seen: Seq<bool>, order: Seq<usize>, rank: spec_fn(usize) -> nat, bound: nat) -> bool {
    forall|n: usize|
        n < seen.len() && seen[n as int] && !#[trigger] order.contains(n) ==> rank(n) > bound
}

proof fn lemma_topological_push(deps: Seq<Seq<usize>>, order: Seq<usize>, n: usize)
    requires
        topological(deps, order),
        forall|d: usize| #[trigger] depends(deps)(n, d) ==> order.contains(d),
    ensures
        topological(deps, order.push(n)),
{
    let t = order.push(n);
    assert forall|i: int, d: usize|
        0 <= i < t.len() && #[trigger] depends(deps)(t[i], d) implies t.take(i).contains(d) by {
        if i < order.len() {
            assert(t[i] == order[i]);
            assert(t.take(i) =~= order.take(i));
        } else {
            assert(t.take(i) =~= order);
        }
    }
}

#[verifier::spinoff_prover]
#[verifier::rlimit(60)]
fn visit(
    deps: &Vec<Vec<usize>>,
    n: usize,
    seen: &mut Vec<bool>,
    order: &mut Vec<usize>,
    Ghost(fuel): Ghost<nat>,
)
    requires
        fuel > unseen(old(seen)@),
        in_range(views(deps@)),
        n < views(deps@).len(),
        walking(views(deps@), old(seen)@, old(order)@),
    ensures
        (Walked { seen: final(seen)@, order: final(order)@ }) == visited(
            views(deps@),
            fuel,
            n,
            Walked { seen: old(seen)@, order: old(order)@ },
        ),
        walking(views(deps@), final(seen)@, final(order)@),
        final(seen)@[n as int],
        // Nothing is forgotten.
        forall|m: int| 0 <= m < old(seen)@.len() && old(seen)@[m] ==> final(seen)@[m],
        old(order)@.is_prefix_of(final(order)@),
        // What is newly seen is listed, and needed by `n`.
        forall|m: usize|
            m < final(seen)@.len() && final(seen)@[m as int] && !old(seen)@[m as int]
                ==> #[trigger] final(order)@.contains(m),
        forall|m: usize|
            m < final(seen)@.len() && final(seen)@[m as int] && !old(seen)@[m as int]
                && #[trigger] final(order)@.contains(m) ==> walk::reaches(
                depends(views(deps@)),
                n,
                m,
            ),
        // What is newly listed is newly seen.
        forall|m: usize|
            #[trigger] final(order)@.contains(m) && !old(order)@.contains(m) ==> !old(
                seen,
            )@[m as int],
        forall|rank: spec_fn(usize) -> nat|
            #[trigger] ranked(views(deps@), rank) && open_above(old(seen)@, old(order)@, rank, rank(n))
                && topological(views(deps@), old(order)@) ==> topological(views(deps@), final(order)@),
    decreases unseen(old(seen)@),
{
    if seen[n] {
        return;
    }
    let ghost seen0 = seen@;
    let ghost order0 = order@;
    let ghost step = depends(views(deps@));
    proof {
        lemma_unseen_mark(seen0, n as int);
    }
    seen.set(n, true);
    proof {
        assert forall|m: usize, d: usize|
            order@.contains(m) && #[trigger] depends(views(deps@))(m, d) implies d < seen@.len()
            && seen@[d as int] by {
            assert(seen0[d as int]);
        }
        walk::lemma_reaches_self(step, n);
        assert forall|rank: spec_fn(usize) -> nat|
            #[trigger] ranked(views(deps@), rank) && open_above(seen0, order0, rank, rank(n))
            implies forall|m: usize|
            m < seen@.len() && seen@[m as int] && m != n && !#[trigger] order@.contains(m)
                ==> rank(m) > rank(n) by {}
    }
    let ghost start = Walked { seen: seen@, order: order@ };
    let mut i: usize = 0;
    assert(views(deps@)[n as int].take(0) =~= Seq::empty());
    while i < deps[n].len()
        invariant
            fuel > unseen(seen0),
            start == (Walked { seen: seen0.update(n as int, true), order: order0 }),
            (Walked { seen: seen@, order: order@ }) == visited_all(
                views(deps@),
                (fuel - 1) as nat,
                views(deps@)[n as int].take(i as int),
                start,
            ),
            in_range(views(deps@)),
            n < views(deps@).len(),
            i <= views(deps@)[n as int].len(),
            step == depends(views(deps@)),
            seen0 == old(seen)@,
            seen0.len() == views(deps@).len(),
            !seen0[n as int],
            walking(views(deps@), seen0, order0),
            walking(views(deps@), seen@, order@),
            seen@[n as int],
            !order@.contains(n),
            unseen(seen@) < unseen(seen0),
            forall|m: int| 0 <= m < seen0.len() && seen0[m] ==> seen@[m],
            order0.is_prefix_of(order@),
            forall|j: int| 0 <= j < i ==> seen@[#[trigger] views(deps@)[n as int][j] as int],
            forall|m: usize|
                m < seen@.len() && seen@[m as int] && !seen0[m as int] && m != n
                    ==> #[trigger] order@.contains(m) && walk::reaches(step, n, m),
            forall|m: usize|
                #[trigger] order@.contains(m) && !order0.contains(m) ==> !seen0[m as int],
            forall|rank: spec_fn(usize) -> nat|
                #[trigger] ranked(views(deps@), rank) && open_above(seen0, order0, rank, rank(n))
                    && topological(views(deps@), order0) ==> topological(views(deps@), order@),
        decreases views(deps@)[n as int].len() - i,
    {
        let d: usize = deps[n][i];
        let ghost seen1 = seen@;
        let ghost order1 = order@;
        assert(step(n, d)) by {
            assert(views(deps@)[n as int][i as int] == d);
        }
        visit(deps, d, seen, order, Ghost((fuel - 1) as nat));
        proof {
            let list = views(deps@)[n as int];
            assert(list.take(i + 1).drop_last() =~= list.take(i as int));
            assert(list.take(i + 1).last() == d);
            lemma_unseen_mono(seen1, seen@);
            assert forall|m: usize|
                m < seen@.len() && seen@[m as int] && !seen0[m as int] && m != n
                implies #[trigger] order@.contains(m) && walk::reaches(step, n, m) by {
                if seen1[m as int] {
                    assert(order1.contains(m));
                    let k = choose|k: int| 0 <= k < order1.len() && order1[k] == m;
                    assert(order@[k] == m);
                } else {
                    assert(order@.contains(m));
                    walk::lemma_reaches_self(step, n);
                    walk::lemma_reaches_step(step, n, n, d);
                    walk::lemma_reaches_trans(step, n, d, m);
                }
            }
            assert(!order@.contains(n)) by {
                if order@.contains(n) {
                    assert(!order1.contains(n));
                    assert(!seen1[n as int]);
                }
            }
            assert forall|m: usize|
                #[trigger] order@.contains(m) && !order0.contains(m) implies !seen0[m as int] by {
                if !order1.contains(m) {
                    assert(!seen1[m as int]);
                }
            }
            assert forall|rank: spec_fn(usize) -> nat|
                #[trigger] ranked(views(deps@), rank) && open_above(seen0, order0, rank, rank(n))
                && topological(views(deps@), order0) implies topological(views(deps@), order@) by {
                assert(rank(d) < rank(n));
                assert(open_above(seen1, order1, rank, rank(d))) by {
                    assert forall|m: usize|
                        m < seen1.len() && seen1[m as int] && !#[trigger] order1.contains(m)
                        implies rank(m) > rank(d) by {
                        if m != n {
                            if seen0[m as int] {
                                if order0.contains(m) {
                                    let k = choose|k: int|
                                        0 <= k < order0.len() && order0[k] == m;
                                    assert(order1[k] == m);
                                }
                            }
                        }
                    }
                }
            }
        }
        i = i + 1;
    }
    let ghost order2 = order@;
    order.push(n);
    proof {
        assert(views(deps@)[n as int].take(i as int) =~= views(deps@)[n as int]);
        walk::lemma_reaches_self(step, n);
        assert forall|d: usize| #[trigger] depends(views(deps@))(n, d) implies d < seen@.len()
            && seen@[d as int] by {
            let j = choose|j: int|
                0 <= j < views(deps@)[n as int].len() && views(deps@)[n as int][j] == d;
            assert(seen@[views(deps@)[n as int][j] as int]);
        }
        assert forall|m: usize| #[trigger] order@.contains(m) == (order2.contains(m) || m == n) by {
            if order2.contains(m) {
                let k = choose|k: int| 0 <= k < order2.len() && order2[k] == m;
                assert(order@[k] == m);
            }
            if m == n {
                assert(order@[order2.len() as int] == n);
            }
            if order@.contains(m) {
                let k = choose|k: int| 0 <= k < order@.len() && order@[k] == m;
                if k < order2.len() {
                    assert(order2[k] == m);
                }
            }
        }
        assert forall|m: usize|
            m < seen@.len() && seen@[m as int] && !old(seen)@[m as int]
            implies #[trigger] order@.contains(m) && walk::reaches(depends(views(deps@)), n, m) by {
            assert(seen0[m as int] == old(seen)@[m as int]);
            if m != n {
                assert(order2.contains(m));
            }
        }
        assert(order@.no_duplicates());
        assert(walking(views(deps@), seen@, order@));
        assert forall|rank: spec_fn(usize) -> nat|
            #[trigger] ranked(views(deps@), rank) && open_above(seen0, order0, rank, rank(n))
            && topological(views(deps@), order0) implies topological(views(deps@), order@) by {
            assert forall|d: usize| #[trigger] depends(views(deps@))(n, d) implies order2.contains(d) by {
                assert(rank(d) < rank(n));
                assert(d != n);
                if seen0[d as int] {
                    if !order0.contains(d) {
                        assert(rank(d) > rank(n));
                    }
                    let k = choose|k: int| 0 <= k < order0.len() && order0[k] == d;
                    assert(order2[k] == d);
                }
            }
            lemma_topological_push(views(deps@), order2, n);
        }
    }
}

/// What the seeds need, dependencies first.
pub fn post_order(deps: &Vec<Vec<usize>>, seeds: &Vec<usize>) -> (order: Vec<usize>)
    requires
        in_range(views(deps@)),
        forall|k: int| 0 <= k < seeds@.len() ==> #[trigger] seeds@[k] < views(deps@).len(),
    ensures
        pull_order(views(deps@), seeds@, order@),
        order@ == post_order_of(views(deps@), seeds@),
{
    let mut seen: Vec<bool> = Vec::new();
    let ghost step = depends(views(deps@));
    let mut i: usize = 0;
    while i < deps.len()
        invariant
            i <= views(deps@).len(),
            seen@.len() == i,
            forall|j: int| 0 <= j < i ==> !seen@[j],
        decreases views(deps@).len() - i,
    {
        seen.push(false);
        i = i + 1;
    }
    let mut order: Vec<usize> = Vec::new();
    let ghost fuel = (views(deps@).len() + 1) as nat;
    let ghost start = Walked {
        seen: Seq::new(views(deps@).len(), |i: int| false),
        order: Seq::empty(),
    };
    let mut k: usize = 0;
    proof {
        assert(seen@ =~= start.seen);
        assert(order@ =~= start.order);
        assert(seeds@.take(0) =~= Seq::empty());
        lemma_none_seen(views(deps@).len());
    }
    while k < seeds.len()
        invariant
            fuel == views(deps@).len() + 1,
            unseen(seen@) < fuel,
            (Walked { seen: seen@, order: order@ }) == visited_all(
                views(deps@),
                fuel,
                seeds@.take(k as int),
                start,
            ),
            in_range(views(deps@)),
            step == depends(views(deps@)),
            forall|j: int| 0 <= j < seeds@.len() ==> #[trigger] seeds@[j] < views(deps@).len(),
            k <= seeds@.len(),
            walking(views(deps@), seen@, order@),
            forall|m: usize| m < seen@.len() && seen@[m as int] ==> #[trigger] order@.contains(m),
            forall|m: usize| #[trigger] order@.contains(m) ==> needed(views(deps@), seeds@, m),
            forall|j: int| 0 <= j < k ==> order@.contains(#[trigger] seeds@[j]),
            forall|rank: spec_fn(usize) -> nat| #[trigger]
                ranked(views(deps@), rank) ==> topological(views(deps@), order@),
        decreases seeds@.len() - k,
    {
        let ghost seen1 = seen@;
        let ghost order1 = order@;
        let s: usize = seeds[k];
        visit(deps, s, &mut seen, &mut order, Ghost(fuel));
        proof {
            assert(seeds@.take(k + 1).drop_last() =~= seeds@.take(k as int));
            assert(seeds@.take(k + 1).last() == s);
            lemma_unseen_mono(seen1, seen@);
            assert forall|m: usize| m < seen@.len() && seen@[m as int] implies #[trigger] order@.contains(
                m,
            ) by {
                if seen1[m as int] {
                    assert(order1.contains(m));
                    let j = choose|j: int| 0 <= j < order1.len() && order1[j] == m;
                    assert(order@[j] == m);
                }
            }
            assert forall|m: usize| #[trigger] order@.contains(m) implies needed(
                views(deps@),
                seeds@,
                m,
            ) by {
                if !order1.contains(m) {
                    assert(!seen1[m as int]);
                    assert(walk::reaches(step, seeds@[k as int], m));
                }
            }
            assert forall|j: int| 0 <= j < k + 1 implies order@.contains(#[trigger] seeds@[j]) by {
                assert(seen@[seeds@[j] as int]);
            }
            assert forall|rank: spec_fn(usize) -> nat| #[trigger]
                ranked(views(deps@), rank) implies topological(views(deps@), order@) by {
                assert(open_above(seen1, order1, rank, rank(s)));
            }
        }
        k = k + 1;
    }
    proof {
        assert(seeds@.take(k as int) =~= seeds@);
        assert forall|m: usize| needed(views(deps@), seeds@, m) implies #[trigger] order@.contains(m) by {
            let j = choose|j: int|
                0 <= j < seeds@.len() && #[trigger] walk::reaches(step, seeds@[j], m);
            let s = |x: usize| order@.contains(x);
            assert forall|x: usize, y: usize| s(x) && #[trigger] step(x, y) implies s(y) by {
                assert(order@.contains(x));
                assert(seen@[y as int]);
            }
            assert(s(seeds@[j]));
            walk::lemma_closed(step, s, seeds@[j], m);
        }
    }
    order
}

} // verus!
