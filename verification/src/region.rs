//! Cutting a graph's signal flow into regions at its boundaries: which nodes
//! belong together, which buses run between regions, and in which order the
//! regions are to be derived.

use crate::edge::Edge;
use crate::flow::{self, SummandRanker};
use crate::graph::Graph;
use crate::node::ToNodeDsp;
use crate::order::{self, Key};
use crate::topo;
use crate::walk;
use vstd::prelude::*;

verus! {

/// A bus between regions: a chain of boundaries with a single writer, named by
/// the boundary next to the writer; or, where a boundary's chain fans out, the
/// bus of one of its sources and output ports.
#[derive(Clone, Copy, Debug, PartialEq, Eq, Hash, Structural)]
pub enum RegionBus {
    Bus(usize),
    Src(usize, usize),
}

impl View for RegionBus {
    type V = RegionBus;

    open spec fn view(&self) -> RegionBus {
        *self
    }
}

impl Key for RegionBus {
    open spec fn precedes(a: RegionBus, b: RegionBus) -> bool {
        match (a, b) {
            (RegionBus::Bus(x), RegionBus::Bus(y)) => x < y,
            (RegionBus::Bus(_), RegionBus::Src(_, _)) => true,
            (RegionBus::Src(_, _), RegionBus::Bus(_)) => false,
            (RegionBus::Src(x, p), RegionBus::Src(y, q)) => x < y || (x == y && p < q),
        }
    }

    proof fn lemma_irreflexive(a: RegionBus) {
    }

    proof fn lemma_transitive(a: RegionBus, b: RegionBus, c: RegionBus) {
    }

    proof fn lemma_total(a: RegionBus, b: RegionBus) {
    }

    fn before(&self, other: &Self) -> (r: bool) {
        match (*self, *other) {
            (RegionBus::Bus(x), RegionBus::Bus(y)) => x < y,
            (RegionBus::Bus(_), RegionBus::Src(_, _)) => true,
            (RegionBus::Src(_, _), RegionBus::Bus(_)) => false,
            (RegionBus::Src(x, p), RegionBus::Src(y, q)) => x < y || (x == y && p < q),
        }
    }

    fn same(&self, other: &Self) -> (r: bool) {
        *self == *other
    }

    fn dup(&self) -> (r: Self) {
        *self
    }
}

/// Whether node `n` feeds a sink, directly or through others.
pub open spec fn reached<N: ToNodeDsp>(g: Graph<N, Edge>, n: usize) -> bool {
    n < g.nodes@.len() && topo::needed(flow::flow_deps(g), flow::sinks(g), n)
}

/// Whether node `n` feeds a sink and is no boundary.
pub open spec fn inner<N: ToNodeDsp>(g: Graph<N, Edge>, n: usize) -> bool {
    reached(g, n) && !flow::cuts(g, n as int)
}

/// Whether two nodes are wired directly, without a boundary between them.
pub open spec fn joined<N: ToNodeDsp>(g: Graph<N, Edge>) -> spec_fn(usize, usize) -> bool {
    |a: usize, b: usize|
        inner(g, a) && inner(g, b) && (flow::flow_deps(g)[a as int].contains(b)
            || flow::flow_deps(g)[b as int].contains(a))
}

/// Whether `l` is the least of the nodes that are wired to `n` without a boundary
/// between them.
pub open spec fn leads<N: ToNodeDsp>(g: Graph<N, Edge>, n: usize, l: usize) -> bool {
    &&& walk::reaches(joined(g), n, l)
    &&& forall|m: usize| #[trigger] walk::reaches(joined(g), n, m) ==> l <= m
}

/// Whether `comp` gives every node that feeds a sink and is no boundary the least
/// node of its region, by which the region is known.
pub open spec fn labels<N: ToNodeDsp>(g: Graph<N, Edge>, comp: Seq<Option<usize>>) -> bool {
    &&& comp.len() == g.nodes@.len()
    &&& forall|n: usize|
        n < comp.len() ==> (#[trigger] comp[n as int] is Some) == inner(g, n)
    &&& forall|n: usize|
        n < comp.len() && #[trigger] comp[n as int] is Some ==> leads(g, n, comp[n as int]->0)
}

/// The region of node `n`: the least node in it. There is one for the nodes that
/// feed a sink and are no boundary.
pub open spec fn region_of<N: ToNodeDsp>(g: Graph<N, Edge>, n: usize) -> Option<usize> {
    if inner(g, n) {
        Some(choose|l: usize| leads(g, n, l))
    } else {
        None
    }
}

/// Labels are regions.
pub proof fn lemma_labels<N: ToNodeDsp>(g: Graph<N, Edge>, comp: Seq<Option<usize>>, n: usize)
    requires
        labels(g, comp),
    ensures
        n < comp.len() ==> comp[n as int] == region_of(g, n),
        n >= comp.len() ==> region_of(g, n) is None,
{
    if n < comp.len() {
        assert((comp[n as int] is Some) == inner(g, n));
        if inner(g, n) {
            let l = comp[n as int]->0;
            assert(leads(g, n, l));
            let k = choose|l: usize| leads(g, n, l);
            assert(leads(g, n, k));
            assert(walk::reaches(joined(g), n, l) && walk::reaches(joined(g), n, k));
            assert(l <= k && k <= l);
        }
    }
}

/// Whether `x` is among the items.
pub fn has(v: &Vec<usize>, x: usize) -> (r: bool)
    ensures
        r == v@.contains(x),
{
    let mut i: usize = 0;
    while i < v.len()
        invariant
            i <= v@.len(),
            forall|j: int| 0 <= j < i ==> v@[j] != x,
        decreases v@.len() - i,
    {
        if v[i] == x {
            assert(v@[i as int] == x);
            return true;
        }
        i = i + 1;
    }
    false
}

/// The flags of the listed nodes.
pub fn flags(n: usize, list: &Vec<usize>) -> (r: Vec<bool>)
    ensures
        r@.len() == n,
        forall|i: usize| i < n ==> #[trigger] r@[i as int] == list@.contains(i),
{
    let mut r: Vec<bool> = Vec::new();
    let mut i: usize = 0;
    while i < n
        invariant
            i <= n,
            r@.len() == i,
            forall|j: usize| j < i ==> #[trigger] r@[j as int] == list@.contains(j),
        decreases n - i,
    {
        r.push(has(list, i));
        i = i + 1;
    }
    r
}

/// Which nodes feed a sink and are no boundary.
fn inner_flags<N: ToNodeDsp>(g: &Graph<N, Edge>, reach: &Vec<bool>) -> (r: Vec<bool>)
    requires
        reach@.len() == g.nodes@.len(),
        forall|i: usize| i < g.nodes@.len() ==> #[trigger] reach@[i as int] == reached(*g, i),
    ensures
        r@.len() == g.nodes@.len(),
        forall|i: usize| i < g.nodes@.len() ==> #[trigger] r@[i as int] == inner(*g, i),
{
    let mut r: Vec<bool> = Vec::new();
    let mut i: usize = 0;
    while i < reach.len()
        invariant
            reach@.len() == g.nodes@.len(),
            forall|j: usize| j < g.nodes@.len() ==> #[trigger] reach@[j as int] == reached(*g, j),
            i <= reach@.len(),
            r@.len() == i,
            forall|j: usize| j < i ==> #[trigger] r@[j as int] == inner(*g, j),
        decreases reach@.len() - i,
    {
        r.push(reach[i] && !flow::is_boundary(g, i));
        i = i + 1;
    }
    r
}

/// For every node, the nodes wired to it without a boundary between them.
fn neighbours<N: ToNodeDsp>(g: &Graph<N, Edge>, deps: &Vec<Vec<usize>>, ins: &Vec<bool>) -> (r: Vec<
    Vec<usize>,
>)
    requires
        topo::views(deps@) == flow::flow_deps(*g),
        ins@.len() == g.nodes@.len(),
        forall|i: usize| i < g.nodes@.len() ==> #[trigger] ins@[i as int] == inner(*g, i),
    ensures
        r@.len() == g.nodes@.len(),
        topo::depends(topo::views(r@)) == joined(*g),
        topo::in_range(topo::views(r@)),
{
    let mut r: Vec<Vec<usize>> = Vec::new();
    proof {
        assert(topo::views(deps@).len() == deps@.len());
    }
    let n: usize = deps.len();
    let mut a: usize = 0;
    while a < n
        invariant
            topo::views(deps@) == flow::flow_deps(*g),
            ins@.len() == g.nodes@.len(),
            deps@.len() == g.nodes@.len(),
            n == deps@.len(),
            forall|i: usize| i < g.nodes@.len() ==> #[trigger] ins@[i as int] == inner(*g, i),
            a <= n,
            r@.len() == a,
            forall|x: usize, y: usize|
                x < a ==> (#[trigger] r@[x as int]@.contains(y) <==> joined(*g)(x, y)),
            forall|x: int, k: int|
                0 <= x < a && 0 <= k < r@[x]@.len() ==> #[trigger] r@[x]@[k] < n,
        decreases n - a,
    {
        let mut list: Vec<usize> = Vec::new();
        let mut b: usize = 0;
        while b < n
            invariant
                topo::views(deps@) == flow::flow_deps(*g),
                ins@.len() == g.nodes@.len(),
                deps@.len() == g.nodes@.len(),
                n == deps@.len(),
                forall|i: usize| i < g.nodes@.len() ==> #[trigger] ins@[i as int] == inner(*g, i),
                a < n,
                b <= n,
                forall|y: usize| #[trigger] list@.contains(y) <==> y < b && joined(*g)(a, y),
                forall|k: int| 0 <= k < list@.len() ==> #[trigger] list@[k] < n,
            decreases n - b,
        {
            let ghost before = list@;
            proof {
                assert(topo::views(deps@)[a as int] == deps@[a as int]@);
                assert(topo::views(deps@)[b as int] == deps@[b as int]@);
            }
            if ins[a] && ins[b] && (has(&deps[a], b) || has(&deps[b], a)) {
                list.push(b);
                proof {
                    assert forall|y: usize| #[trigger] list@.contains(y) <==> y < b + 1 && joined(
                        *g,
                    )(a, y) by {
                        if before.contains(y) {
                            let k = choose|k: int| 0 <= k < before.len() && before[k] == y;
                            assert(list@[k] == y);
                        }
                        if y == b {
                            assert(list@[before.len() as int] == y);
                        }
                        if list@.contains(y) {
                            let k = choose|k: int| 0 <= k < list@.len() && list@[k] == y;
                            if k < before.len() {
                                assert(before[k] == y);
                            }
                        }
                    }
                }
            }
            b = b + 1;
        }
        proof {
            assert forall|y: usize| #[trigger] list@.contains(y) <==> joined(*g)(a, y) by {}
        }
        r.push(list);
        a = a + 1;
    }
    proof {
        let v = topo::views(r@);
        assert forall|x: usize, y: usize| #[trigger] topo::depends(v)(x, y) == joined(*g)(x, y) by {
            if x < n {
                assert(v[x as int] == r@[x as int]@);
                assert(r@[x as int]@.contains(y) <==> joined(*g)(x, y));
            }
        }
        assert(topo::depends(v) =~= joined(*g));
        assert forall|x: int, k: int| 0 <= x < v.len() && 0 <= k < v[x].len() implies #[trigger] v[x][k]
            < v.len() by {
            assert(r@[x]@[k] < n);
        }
    }
    r
}

/// The region of every node.
pub fn label<N: ToNodeDsp>(g: &Graph<N, Edge>, deps: &Vec<Vec<usize>>, reach: &Vec<bool>) -> (comp: Vec<
    Option<usize>,
>)
    requires
        topo::views(deps@) == flow::flow_deps(*g),
        reach@.len() == g.nodes@.len(),
        forall|i: usize| i < g.nodes@.len() ==> #[trigger] reach@[i as int] == reached(*g, i),
    ensures
        labels(*g, comp@),
{
    let ins = inner_flags(g, reach);
    let nbrs = neighbours(g, deps, &ins);
    let n: usize = g.nodes.len();
    let ghost step = joined(*g);
    let mut comp: Vec<Option<usize>> = Vec::new();
    let mut i: usize = 0;
    while i < n
        invariant
            i <= n,
            comp@.len() == i,
            forall|j: int| 0 <= j < i ==> #[trigger] comp@[j] is None,
        decreases n - i,
    {
        comp.push(None);
        i = i + 1;
    }
    proof {
        assert forall|x: usize, y: usize| #[trigger] step(x, y) implies step(y, x) by {}
    }
    let mut start: usize = 0;
    while start < n
        invariant
            n == g.nodes@.len(),
            ins@.len() == n,
            nbrs@.len() == n,
            comp@.len() == n,
            start <= n,
            step == joined(*g),
            topo::in_range(topo::views(nbrs@)),
            topo::depends(topo::views(nbrs@)) == step,
            forall|x: usize, y: usize| #[trigger] step(x, y) ==> step(y, x),
            forall|j: usize| j < n ==> #[trigger] ins@[j as int] == inner(*g, j),
            forall|j: usize|
                j < n && #[trigger] comp@[j as int] is Some ==> inner(*g, j) && leads(
                    *g,
                    j,
                    comp@[j as int]->0,
                ),
            forall|j: usize| j < start && inner(*g, j) ==> #[trigger] comp@[j as int] is Some,
            forall|j: usize, m: usize|
                j < n && #[trigger] comp@[j as int] is Some && #[trigger] walk::reaches(step, j, m)
                    ==> m < n && comp@[m as int] is Some,
        decreases n - start,
    {
        if ins[start] && comp[start].is_none() {
            let seeds: Vec<usize> = vec![start];
            proof {
                assert(seeds@ =~= seq![start]);
                assert(topo::views(nbrs@).len() == n);
            }
            let class = topo::post_order(&nbrs, &seeds);
            let ghost comp0 = comp@;
            proof {
                assert forall|m: usize| #[trigger] class@.contains(m) <==> walk::reaches(
                    step,
                    start,
                    m,
                ) by {
                    if class@.contains(m) {
                        let k = choose|k: int|
                            0 <= k < seeds@.len() && #[trigger] walk::reaches(step, seeds@[k], m);
                        assert(seeds@[k] == start);
                    }
                    if walk::reaches(step, start, m) {
                        assert(walk::reaches(step, seeds@[0], m));
                    }
                }
                assert forall|m: usize| #[trigger] class@.contains(m) implies inner(*g, m) && m
                    < n && comp0[m as int] is None && start <= m by {
                    let s = |x: usize| inner(*g, x);
                    walk::lemma_closed(step, s, start, m);
                    walk::lemma_reaches_sym(step, start, m);
                    if comp0[m as int] is Some {
                        assert(comp0[start as int] is Some);
                    }
                }
                assert forall|m: usize| #[trigger] class@.contains(m) implies leads(
                    *g,
                    m,
                    start,
                ) by {
                    walk::lemma_reaches_sym(step, start, m);
                    assert forall|x: usize| #[trigger] walk::reaches(step, m, x) implies start
                        <= x by {
                        walk::lemma_reaches_trans(step, start, m, x);
                        assert(class@.contains(x));
                    }
                }
            }
            let mut k: usize = 0;
            while k < class.len()
                invariant
                    n == g.nodes@.len(),
                    comp@.len() == n,
                    comp0.len() == n,
                    k <= class@.len(),
                    forall|m: usize| #[trigger]
                        class@.contains(m) ==> m < n && comp0[m as int] is None,
                    forall|j: usize|
                        j < n ==> #[trigger] comp@[j as int] == (if class@.take(k as int).contains(
                            j,
                        ) {
                            Some(start)
                        } else {
                            comp0[j as int]
                        }),
                decreases class@.len() - k,
            {
                let m: usize = class[k];
                assert(class@.contains(m));
                comp.set(m, Some(start));
                proof {
                    let t = class@.take(k as int);
                    let u = class@.take(k + 1);
                    assert forall|j: usize| #[trigger] u.contains(j) <==> t.contains(j) || j == m by {
                        if t.contains(j) {
                            let x = choose|x: int| 0 <= x < t.len() && t[x] == j;
                            assert(u[x] == j);
                        }
                        if j == m {
                            assert(u[k as int] == j);
                        }
                        if u.contains(j) {
                            let x = choose|x: int| 0 <= x < u.len() && u[x] == j;
                            if x < k {
                                assert(t[x] == j);
                            }
                        }
                    }
                }
                k = k + 1;
            }
            proof {
                assert(class@.take(k as int) =~= class@);
                assert(walk::reaches(step, start, start)) by {
                    walk::lemma_reaches_self(step, start);
                }
                assert(class@.contains(start));
                assert forall|j: usize, m: usize|
                    j < n && #[trigger] comp@[j as int] is Some && #[trigger] walk::reaches(
                        step,
                        j,
                        m,
                    ) implies m < n && comp@[m as int] is Some by {
                    if class@.contains(j) {
                        walk::lemma_reaches_trans(step, start, j, m);
                        assert(class@.contains(m));
                    } else {
                        assert(comp0[j as int] is Some);
                        assert(comp0[m as int] is Some);
                        assert(!class@.contains(m));
                    }
                }
            }
        }
        start = start + 1;
    }
    comp
}

/// The lone summand at input 0, if there is exactly one.
pub open spec fn lone(ins: Seq<Seq<(usize, usize)>>) -> Option<(usize, usize)> {
    if ins.len() > 0 && ins[0].len() == 1 {
        Some(ins[0][0])
    } else {
        None
    }
}

/// Following a chain of boundaries that have one summand each, at most `fuel`
/// further: the last boundary, and the source that feeds it.
pub open spec fn chain<N: ToNodeDsp>(g: Graph<N, Edge>, b: usize, fuel: nat) -> Option<
    (usize, (usize, usize)),
>
    decreases fuel,
{
    match lone(flow::sources(g)[b as int]) {
        Some(src) => if !flow::cuts(g, src.0 as int) {
            Some((b, src))
        } else if fuel == 0 {
            None
        } else {
            chain(g, src.0, (fuel - 1) as nat)
        },
        None => None,
    }
}

/// The boundary next to the writer, and the writer, of a boundary fed through a
/// pure chain of boundaries. There is none where the chain fans out, has no
/// source or runs in a circle.
pub open spec fn classic<N: ToNodeDsp>(g: Graph<N, Edge>, b: usize) -> Option<
    (usize, (usize, usize)),
> {
    chain(g, b, g.nodes@.len())
}

fn classic_source<N: ToNodeDsp>(g: &Graph<N, Edge>, srcs: &Vec<Vec<Vec<(usize, usize)>>>, b: usize) -> (r:
    Option<(usize, (usize, usize))>)
    requires
        g.wf(),
        flow::all_lists(srcs@) == flow::sources(*g),
        b < g.nodes@.len(),
    ensures
        r == classic(*g, b),
{
    let mut cur: usize = b;
    let mut fuel: usize = g.nodes.len();
    proof {
        assert(flow::all_lists(srcs@).len() == srcs@.len());
    }
    loop
        invariant
            g.wf(),
            flow::all_lists(srcs@) == flow::sources(*g),
            srcs@.len() == g.nodes@.len(),
            cur < g.nodes@.len(),
            classic(*g, b) == chain(*g, cur, fuel as nat),
        decreases fuel,
    {
        let ins = &srcs[cur];
        proof {
            assert(flow::all_lists(srcs@)[cur as int] == flow::lists(ins@));
        }
        if ins.len() == 0 {
            return None;
        }
        proof {
            assert(flow::lists(ins@)[0] == ins@[0]@);
        }
        if ins[0].len() != 1 {
            return None;
        }
        let src = ins[0][0];
        if !flow::is_boundary(g, src.0) {
            return Some((cur, src));
        }
        if fuel == 0 {
            return None;
        }
        proof {
            flow::lemma_summands(*g, cur as int, 0);
            assert(flow::sources(*g)[cur as int][0] == flow::summands(*g, cur as int, 0));
            assert(flow::summands(*g, cur as int, 0)[0] == src);
        }
        cur = src.0;
        fuel = fuel - 1;
    }
}

/// The boundaries among the nodes that each node's inputs sum.
pub open spec fn boundary_deps<N: ToNodeDsp>(g: Graph<N, Edge>) -> Seq<Seq<usize>> {
    Seq::new(
        g.nodes@.len(),
        |n: int| flow::nodes_of(boundary_part(g, flow::flat(flow::sources(g)[n]))),
    )
}

/// The summands that are boundaries.
pub open spec fn boundary_part<N: ToNodeDsp>(g: Graph<N, Edge>, s: Seq<(usize, usize)>) -> Seq<
    (usize, usize),
>
    decreases s.len(),
{
    if s.len() == 0 {
        Seq::empty()
    } else if flow::cuts(g, s.last().0 as int) {
        boundary_part(g, s.drop_last()).push(s.last())
    } else {
        boundary_part(g, s.drop_last())
    }
}

/// The summands that are no boundaries.
pub open spec fn plain_part<N: ToNodeDsp>(g: Graph<N, Edge>, s: Seq<(usize, usize)>) -> Seq<
    (usize, usize),
>
    decreases s.len(),
{
    if s.len() == 0 {
        Seq::empty()
    } else if flow::cuts(g, s.last().0 as int) {
        plain_part(g, s.drop_last())
    } else {
        plain_part(g, s.drop_last()).push(s.last())
    }
}

/// Whether boundary `m` feeds boundary `b` through boundaries alone, or is `b`.
pub open spec fn behind<N: ToNodeDsp>(g: Graph<N, Edge>, b: usize, m: usize) -> bool {
    topo::needed(boundary_deps(g), seq![b], m)
}

/// The sources wired into `b` and the boundaries behind it, among the first `n`
/// nodes, by node.
pub open spec fn wired<N: ToNodeDsp>(g: Graph<N, Edge>, b: usize, n: nat) -> Seq<(usize, usize)>
    decreases n,
{
    if n == 0 {
        Seq::empty()
    } else {
        let before = wired(g, b, (n - 1) as nat);
        if behind(g, b, (n - 1) as usize) {
            before + plain_part(g, flow::flat(flow::sources(g)[n - 1]))
        } else {
            before
        }
    }
}

/// Every source that feeds boundary `b` through boundaries alone, in canonical
/// order, each as often as it is wired in.
pub open spec fn endpoints<N: ToNodeDsp>(g: Graph<N, Edge>, b: usize) -> Seq<(usize, usize)> {
    order::sorted(wired(g, b, g.nodes@.len()), flow::summand_order(flow::node_paths(g)))
}

/// The buses that a boundary lowers to, each with the source that writes it.
pub open spec fn buses<N: ToNodeDsp>(g: Graph<N, Edge>, b: usize) -> Seq<
    (RegionBus, (usize, usize)),
> {
    match classic(g, b) {
        Some((last, src)) => seq![(RegionBus::Bus(last), src)],
        None => endpoints(g, b).map_values(
            |s: (usize, usize)| (RegionBus::Src(s.0, s.1), s),
        ),
    }
}

/// Both parts of some summands are among them.
pub proof fn lemma_parts<N: ToNodeDsp>(g: Graph<N, Edge>, s: Seq<(usize, usize)>)
    ensures
        forall|k: int|
            0 <= k < boundary_part(g, s).len() ==> s.contains(#[trigger] boundary_part(g, s)[k]),
        forall|k: int|
            0 <= k < plain_part(g, s).len() ==> s.contains(#[trigger] plain_part(g, s)[k])
                && !flow::cuts(g, plain_part(g, s)[k].0 as int),
    decreases s.len(),
{
    if s.len() > 0 {
        let t = s.drop_last();
        lemma_parts(g, t);
        assert forall|x: (usize, usize)| t.contains(x) implies s.contains(x) by {
            let j = choose|j: int| 0 <= j < t.len() && t[j] == x;
            assert(s[j] == x);
        }
        assert(s.contains(s.last())) by {
            assert(s[s.len() - 1] == s.last());
        }
        assert forall|k: int| 0 <= k < boundary_part(g, s).len() implies s.contains(
            #[trigger] boundary_part(g, s)[k],
        ) by {
            if k < boundary_part(g, t).len() {
                assert(t.contains(boundary_part(g, t)[k]));
            }
        }
        assert forall|k: int| 0 <= k < plain_part(g, s).len() implies s.contains(
            #[trigger] plain_part(g, s)[k],
        ) && !flow::cuts(g, plain_part(g, s)[k].0 as int) by {
            if k < plain_part(g, t).len() {
                assert(t.contains(plain_part(g, t)[k]));
            }
        }
    }
}

/// The boundaries among the nodes that each node's inputs sum.
fn all_boundary_deps<N: ToNodeDsp>(g: &Graph<N, Edge>, srcs: &Vec<Vec<Vec<(usize, usize)>>>) -> (r: Vec<
    Vec<usize>,
>)
    requires
        g.wf(),
        flow::all_lists(srcs@) == flow::sources(*g),
    ensures
        topo::views(r@) == boundary_deps(*g),
        topo::in_range(topo::views(r@)),
{
    let mut r: Vec<Vec<usize>> = Vec::new();
    let mut n: usize = 0;
    proof {
        assert(flow::all_lists(srcs@).len() == srcs@.len());
    }
    while n < srcs.len()
        invariant
            flow::all_lists(srcs@) == flow::sources(*g),
            srcs@.len() == g.nodes@.len(),
            n <= srcs@.len(),
            r@.len() == n,
            forall|j: int| 0 <= j < n ==> (#[trigger] r@[j])@ == boundary_deps(*g)[j],
        decreases srcs@.len() - n,
    {
        let f = flow::flatten(&srcs[n]);
        assert(flow::all_lists(srcs@)[n as int] == flow::lists(srcs@[n as int]@));
        let mut d: Vec<usize> = Vec::new();
        let mut k: usize = 0;
        assert(f@.take(0) =~= Seq::empty());
        assert(d@ =~= flow::nodes_of(boundary_part(*g, f@.take(0))));
        while k < f.len()
            invariant
                k <= f@.len(),
                d@ == flow::nodes_of(boundary_part(*g, f@.take(k as int))),
            decreases f@.len() - k,
        {
            proof {
                let t = f@.take(k + 1);
                assert(t.drop_last() =~= f@.take(k as int));
                assert(t.last() == f@[k as int]);
            }
            let ghost before = boundary_part(*g, f@.take(k as int));
            if flow::is_boundary(g, f[k].0) {
                d.push(f[k].0);
                assert(d@ =~= flow::nodes_of(before.push(f@[k as int])));
            }
            k = k + 1;
        }
        assert(f@.take(k as int) =~= f@);
        r.push(d);
        n = n + 1;
    }
    proof {
        assert(topo::views(r@) =~= boundary_deps(*g));
        let v = topo::views(r@);
        assert forall|n: int, i: int| 0 <= n < v.len() && 0 <= i < v[n].len() implies #[trigger] v[n][i]
            < v.len() by {
            let f = flow::flat(flow::sources(*g)[n]);
            lemma_parts(*g, f);
            flow::lemma_flow_sources(*g, n);
            let x = boundary_part(*g, f)[i];
            assert(f.contains(x));
            let j = choose|j: int| 0 <= j < f.len() && f[j] == x;
            assert(f[j].0 < g.nodes@.len());
            assert(v[n][i] == x.0);
        }
    }
    r
}

proof fn lemma_wired<N: ToNodeDsp>(g: Graph<N, Edge>, b: usize, n: nat)
    requires
        g.wf(),
        n <= g.nodes@.len(),
    ensures
        forall|k: int|
            0 <= k < wired(g, b, n).len() ==> (#[trigger] wired(g, b, n)[k]).0 < g.nodes@.len()
                && !flow::cuts(g, wired(g, b, n)[k].0 as int),
    decreases n,
{
    if n > 0 {
        lemma_wired(g, b, (n - 1) as nat);
        let f = flow::flat(flow::sources(g)[n - 1]);
        lemma_parts(g, f);
        flow::lemma_flow_sources(g, n - 1);
        let before = wired(g, b, (n - 1) as nat);
        assert forall|k: int| 0 <= k < wired(g, b, n).len() implies (#[trigger] wired(g, b, n)[k]).0
            < g.nodes@.len() && !flow::cuts(g, wired(g, b, n)[k].0 as int) by {
            if k < before.len() {
                assert(wired(g, b, n)[k] == before[k]);
            } else {
                let x = plain_part(g, f)[k - before.len()];
                assert(wired(g, b, n)[k] == x);
                assert(f.contains(x));
                let j = choose|j: int| 0 <= j < f.len() && f[j] == x;
                assert(f[j].0 < g.nodes@.len());
            }
        }
    }
}

/// Endpoints are nodes of the graph and no boundaries.
pub proof fn lemma_endpoints<N: ToNodeDsp>(g: Graph<N, Edge>, b: usize)
    requires
        g.wf(),
    ensures
        forall|k: int|
            0 <= k < endpoints(g, b).len() ==> (#[trigger] endpoints(g, b)[k]).0 < g.nodes@.len()
                && !flow::cuts(g, endpoints(g, b)[k].0 as int),
{
    let w = wired(g, b, g.nodes@.len());
    let e = endpoints(g, b);
    lemma_wired(g, b, g.nodes@.len());
    order::lemma_sorted_multiset(w, flow::summand_order(flow::node_paths(g)));
    assert forall|k: int| 0 <= k < e.len() implies (#[trigger] e[k]).0 < g.nodes@.len()
        && !flow::cuts(g, e[k].0 as int) by {
        broadcast use vstd::seq_lib::group_to_multiset_ensures;

        assert(e.to_multiset().count(e[k]) > 0);
        assert(w.contains(e[k]));
        let j = choose|j: int| 0 <= j < w.len() && w[j] == e[k];
        assert(w[j].0 < g.nodes@.len());
    }
}

fn bus_endpoints<N: ToNodeDsp>(
    g: &Graph<N, Edge>,
    paths: &Vec<Vec<usize>>,
    srcs: &Vec<Vec<Vec<(usize, usize)>>>,
    bdeps: &Vec<Vec<usize>>,
    b: usize,
) -> (r: Vec<(usize, usize)>)
    requires
        g.wf(),
        topo::views(paths@) == flow::node_paths(*g),
        flow::all_lists(srcs@) == flow::sources(*g),
        topo::views(bdeps@) == boundary_deps(*g),
        topo::in_range(topo::views(bdeps@)),
        b < g.nodes@.len(),
    ensures
        r@ == endpoints(*g, b),
{
    let seeds: Vec<usize> = vec![b];
    proof {
        assert(seeds@ =~= seq![b]);
        assert(topo::views(bdeps@).len() == g.nodes@.len());
        assert(flow::all_lists(srcs@).len() == srcs@.len());
        assert(topo::views(paths@).len() == paths@.len());
    }
    let behind_b = topo::post_order(bdeps, &seeds);
    let mut r: Vec<(usize, usize)> = Vec::new();
    let mut n: usize = 0;
    while n < srcs.len()
        invariant
            flow::all_lists(srcs@) == flow::sources(*g),
            srcs@.len() == g.nodes@.len(),
            forall|m: usize| #[trigger] behind_b@.contains(m) <==> behind(*g, b, m),
            n <= srcs@.len(),
            r@ == wired(*g, b, n as nat),
        decreases srcs@.len() - n,
    {
        if has(&behind_b, n) {
            let f = flow::flatten(&srcs[n]);
            assert(flow::all_lists(srcs@)[n as int] == flow::lists(srcs@[n as int]@));
            let ghost before = r@;
            let mut k: usize = 0;
            assert(f@.take(0) =~= Seq::empty());
            assert(r@ =~= before + plain_part(*g, f@.take(0)));
            while k < f.len()
                invariant
                    k <= f@.len(),
                    r@ == before + plain_part(*g, f@.take(k as int)),
                decreases f@.len() - k,
            {
                proof {
                    let t = f@.take(k + 1);
                    assert(t.drop_last() =~= f@.take(k as int));
                    assert(t.last() == f@[k as int]);
                }
                if !flow::is_boundary(g, f[k].0) {
                    let ghost part = plain_part(*g, f@.take(k as int));
                    r.push(f[k]);
                    assert(r@ =~= before + part.push(f@[k as int]));
                }
                k = k + 1;
            }
            assert(f@.take(k as int) =~= f@);
        }
        n = n + 1;
    }
    proof {
        lemma_wired(*g, b, g.nodes@.len());
    }
    let ranker = SummandRanker { paths };
    order::sort(r, &ranker)
}

/// The buses of every boundary; none for the other nodes.
pub open spec fn buses_at<N: ToNodeDsp>(g: Graph<N, Edge>, n: usize) -> Seq<
    (RegionBus, (usize, usize)),
> {
    if n < g.nodes@.len() && flow::cuts(g, n as int) {
        buses(g, n)
    } else {
        Seq::empty()
    }
}

/// Whether `all` lists the buses of every node.
pub open spec fn lists_buses<N: ToNodeDsp>(
    g: Graph<N, Edge>,
    all: Seq<Vec<(RegionBus, (usize, usize))>>,
) -> bool {
    &&& all.len() == g.nodes@.len()
    &&& forall|n: usize| n < all.len() ==> (#[trigger] all[n as int])@ == buses_at(g, n)
}

/// The buses of every node, by slot.
pub fn all_buses<N: ToNodeDsp>(
    g: &Graph<N, Edge>,
    paths: &Vec<Vec<usize>>,
    srcs: &Vec<Vec<Vec<(usize, usize)>>>,
) -> (r: Vec<Vec<(RegionBus, (usize, usize))>>)
    requires
        g.wf(),
        topo::views(paths@) == flow::node_paths(*g),
        flow::all_lists(srcs@) == flow::sources(*g),
    ensures
        lists_buses(*g, r@),
{
    let bdeps = all_boundary_deps(g, srcs);
    let mut r: Vec<Vec<(RegionBus, (usize, usize))>> = Vec::new();
    let mut n: usize = 0;
    while n < g.nodes.len()
        invariant
            g.wf(),
            topo::views(paths@) == flow::node_paths(*g),
            flow::all_lists(srcs@) == flow::sources(*g),
            topo::views(bdeps@) == boundary_deps(*g),
            topo::in_range(topo::views(bdeps@)),
            n <= g.nodes@.len(),
            r@.len() == n,
            forall|j: usize| j < n ==> (#[trigger] r@[j as int])@ == buses_at(*g, j),
        decreases g.nodes@.len() - n,
    {
        let mut list: Vec<(RegionBus, (usize, usize))> = Vec::new();
        if flow::is_boundary(g, n) {
            match classic_source(g, srcs, n) {
                Some((last, src)) => {
                    list.push((RegionBus::Bus(last), src));
                    assert(list@ =~= buses(*g, n));
                },
                None => {
                    let ends = bus_endpoints(g, paths, srcs, &bdeps, n);
                    let mut k: usize = 0;
                    while k < ends.len()
                        invariant
                            k <= ends@.len(),
                            ends@ == endpoints(*g, n),
                            classic(*g, n) is None,
                            list@ =~= buses(*g, n).take(k as int),
                        decreases ends@.len() - k,
                    {
                        let s = ends[k];
                        list.push((RegionBus::Src(s.0, s.1), s));
                        k = k + 1;
                    }
                    assert(list@ =~= buses(*g, n));
                },
            }
        }
        assert(list@ =~= buses_at(*g, n));
        r.push(list);
        n = n + 1;
    }
    r
}

proof fn lemma_chain<N: ToNodeDsp>(g: Graph<N, Edge>, b: usize, fuel: nat)
    requires
        g.wf(),
        b < g.nodes@.len(),
    ensures
        chain(g, b, fuel) matches Some((last, src)) ==> last < g.nodes@.len() && src.0
            < g.nodes@.len() && !flow::cuts(g, src.0 as int),
    decreases fuel,
{
    let ins = flow::sources(g)[b as int];
    if lone(ins) is Some {
        flow::lemma_summands(g, b as int, 0);
        assert(ins[0] == flow::summands(g, b as int, 0));
        let src = ins[0][0];
        assert(src.0 < g.nodes@.len());
        if flow::cuts(g, src.0 as int) && fuel > 0 {
            lemma_chain(g, src.0, (fuel - 1) as nat);
        }
    }
}

/// What writes a bus is a node of the graph and no boundary.
proof fn lemma_buses<N: ToNodeDsp>(g: Graph<N, Edge>, n: usize)
    requires
        g.wf(),
    ensures
        forall|k: int|
            0 <= k < buses_at(g, n).len() ==> ({
                let (bus, src) = #[trigger] buses_at(g, n)[k];
                &&& src.0 < g.nodes@.len()
                &&& !flow::cuts(g, src.0 as int)
                &&& match bus {
                    RegionBus::Bus(last) => last < g.nodes@.len(),
                    RegionBus::Src(s, port) => src == (s, port),
                }
            }),
{
    if n < g.nodes@.len() && flow::cuts(g, n as int) {
        lemma_chain(g, n, g.nodes@.len());
        lemma_endpoints(g, n);
        if classic(g, n) is None {
            assert forall|k: int| 0 <= k < buses_at(g, n).len() implies ({
                let (bus, src) = #[trigger] buses_at(g, n)[k];
                &&& src.0 < g.nodes@.len()
                &&& !flow::cuts(g, src.0 as int)
                &&& match bus {
                    RegionBus::Bus(last) => last < g.nodes@.len(),
                    RegionBus::Src(s, port) => src == (s, port),
                }
            }) by {
                assert(endpoints(g, n)[k].0 < g.nodes@.len());
            }
        }
    }
}

proof fn lemma_chain_end<N: ToNodeDsp>(g: Graph<N, Edge>, b: usize, fuel: nat)
    ensures
        chain(g, b, fuel) matches Some((last, src)) ==> lone(flow::sources(g)[last as int]) == Some(
            src,
        ),
    decreases fuel,
{
    if let Some(src) = lone(flow::sources(g)[b as int]) {
        if fuel > 0 {
            lemma_chain_end(g, src.0, (fuel - 1) as nat);
        }
    }
}

/// A bus has one writer, a node of the graph that is no boundary: whichever boundaries
/// lower to it, they name the same source.
pub proof fn law_bus_has_one_writer<N: ToNodeDsp>(
    g: Graph<N, Edge>,
    n: usize,
    k: int,
    m: usize,
    j: int,
)
    requires
        g.wf(),
        0 <= k < buses_at(g, n).len(),
        0 <= j < buses_at(g, m).len(),
        buses_at(g, n)[k].0 == buses_at(g, m)[j].0,
    ensures
        buses_at(g, n)[k].1 == buses_at(g, m)[j].1,
        buses_at(g, n)[k].1.0 < g.nodes@.len(),
        !flow::cuts(g, buses_at(g, n)[k].1.0 as int),
{
    lemma_buses(g, n);
    lemma_buses(g, m);
    lemma_chain_end(g, n, g.nodes@.len());
    lemma_chain_end(g, m, g.nodes@.len());
}

/// Where a summand's signal comes from: a boundary lowers to its buses, any other
/// summand stands for itself.
pub open spec fn lower<N: ToNodeDsp>(g: Graph<N, Edge>, s: (usize, usize)) -> Seq<
    (Option<RegionBus>, (usize, usize)),
> {
    if flow::cuts(g, s.0 as int) {
        buses_at(g, s.0).map_values(
            |x: (RegionBus, (usize, usize))| (Some(x.0), x.1),
        )
    } else {
        seq![(None, s)]
    }
}

/// Where the signals of a list of summands come from.
pub open spec fn lower_all<N: ToNodeDsp>(g: Graph<N, Edge>, s: Seq<(usize, usize)>) -> Seq<
    (Option<RegionBus>, (usize, usize)),
>
    decreases s.len(),
{
    if s.len() == 0 {
        Seq::empty()
    } else {
        lower_all(g, s.drop_last()) + lower(g, s.last())
    }
}

/// Where the signals of a list of summands come from.
pub fn lower_summands<N: ToNodeDsp>(
    g: &Graph<N, Edge>,
    all: &Vec<Vec<(RegionBus, (usize, usize))>>,
    s: &Vec<(usize, usize)>,
) -> (r: Vec<(Option<RegionBus>, (usize, usize))>)
    requires
        lists_buses(*g, all@),
    ensures
        r@ == lower_all(*g, s@),
{
    let mut r: Vec<(Option<RegionBus>, (usize, usize))> = Vec::new();
    let mut i: usize = 0;
    assert(s@.take(0) =~= Seq::empty());
    while i < s.len()
        invariant
            lists_buses(*g, all@),
            i <= s@.len(),
            r@ == lower_all(*g, s@.take(i as int)),
        decreases s@.len() - i,
    {
        let ghost before = r@;
        let x = s[i];
        proof {
            assert(s@.take(i + 1).drop_last() =~= s@.take(i as int));
        }
        if flow::is_boundary(g, x.0) {
            if x.0 < all.len() {
                let list = &all[x.0];
                let ghost low = lower(*g, x);
                assert(list@ == buses_at(*g, x.0));
                let mut k: usize = 0;
                while k < list.len()
                    invariant
                        k <= list@.len(),
                        list@ == buses_at(*g, x.0),
                        flow::cuts(*g, x.0 as int),
                        low == lower(*g, x),
                        r@ =~= before + low.take(k as int),
                    decreases list@.len() - k,
                {
                    r.push((Some(list[k].0), list[k].1));
                    k = k + 1;
                }
                assert(low.take(k as int) =~= low);
            } else {
                assert(r@ =~= before + lower(*g, x));
            }
        } else {
            r.push((None, x));
            assert(r@ =~= before + lower(*g, x));
        }
        i = i + 1;
    }
    assert(s@.take(i as int) =~= s@);
    r
}

/// Where all signals that arrive at a node come from.
pub open spec fn arrives<N: ToNodeDsp>(g: Graph<N, Edge>, n: usize) -> Seq<
    (Option<RegionBus>, (usize, usize)),
> {
    lower_all(g, flow::flat(flow::sources(g)[n as int]))
}

/// Whether a signal comes from another region than `r`, over a bus.
pub open spec fn foreign<N: ToNodeDsp>(
    g: Graph<N, Edge>,
    r: usize,
    x: (Option<RegionBus>, (usize, usize)),
) -> bool {
    x.0 is Some && region_of(g, x.1.0) != Some(r)
}

/// Whether a node of region `r` reads `bus`, which another region writes.
pub open spec fn crosses<N: ToNodeDsp>(g: Graph<N, Edge>, r: usize, bus: RegionBus) -> bool {
    exists|n: usize, k: int|
        inner(g, n) && region_of(g, n) == Some(r) && 0 <= k < arrives(g, n).len() && foreign(
            g,
            r,
            #[trigger] arrives(g, n)[k],
        ) && arrives(g, n)[k].0 == Some(bus)
}

/// Whether region `r` reads a bus that region `w` writes.
pub open spec fn reads_from<N: ToNodeDsp>(g: Graph<N, Edge>) -> spec_fn(usize, usize) -> bool {
    |r: usize, w: usize|
        exists|n: usize, k: int|
            inner(g, n) && region_of(g, n) == Some(r) && 0 <= k < arrives(g, n).len() && foreign(
                g,
                r,
                #[trigger] arrives(g, n)[k],
            ) && region_of(g, arrives(g, n)[k].1.0) == Some(w)
}

/// Whether region `r` holds a sink, or writes a bus that such a region reads,
/// directly or through others.
pub open spec fn wanted<N: ToNodeDsp>(g: Graph<N, Edge>, r: usize) -> bool {
    exists|k: int|
        0 <= k < flow::sinks(g).len() && region_of(g, #[trigger] flow::sinks(g)[k]) is Some
            && walk::reaches(reads_from(g), region_of(g, flow::sinks(g)[k])->0, r)
}

/// Whether region `c` can come next behind the regions placed so far: it is
/// wanted, not placed, and every region it reads from is placed.
pub open spec fn ready<N: ToNodeDsp>(g: Graph<N, Edge>, placed: Seq<usize>, c: usize) -> bool {
    &&& wanted(g, c)
    &&& !placed.contains(c)
    &&& forall|w: usize| #[trigger] reads_from(g)(c, w) ==> placed.contains(w)
}

/// Whether each region is the least that can come next behind those before it.
pub open spec fn writers_first<N: ToNodeDsp>(g: Graph<N, Edge>, topo: Seq<usize>) -> bool {
    forall|k: int|
        0 <= k < topo.len() ==> ready(g, topo.take(k), #[trigger] topo[k]) && forall|c: usize|
            c < topo[k] ==> !#[trigger] ready(g, topo.take(k), c)
}

/// Whether each wanted region ranks above the regions it reads from.
pub open spec fn bus_ranked<N: ToNodeDsp>(g: Graph<N, Edge>, rank: spec_fn(usize) -> nat) -> bool {
    forall|r: usize, w: usize| #[trigger] reads_from(g)(r, w) && wanted(g, r) ==> rank(w) < rank(r)
}

/// Whether the buses form no cycle between the wanted regions.
pub open spec fn no_bus_cycle<N: ToNodeDsp>(g: Graph<N, Edge>) -> bool {
    exists|rank: spec_fn(usize) -> nat| #[trigger] bus_ranked(g, rank)
}

} // verus!
