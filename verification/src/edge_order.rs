//! The order in which edges were added does not matter.
//!
//! What a definition is derived from is the nodes and, for each input, its summands in
//! canonical order. The order of the edges drops out where the summands are sorted, as
//! long as no two nodes have the same path.

use crate::compile;
use crate::dsp::BuilderView;
use crate::edge::Edge;
use crate::flow;
use crate::graph::{EdgeRef, Graph};
use crate::node::ToNodeDsp;
use crate::order;
use crate::region::{self, RegionBus};
use crate::regions::{self, RegionView};
use crate::topo;
use crate::walk;
use vstd::multiset::Multiset;
use vstd::prelude::*;

verus! {

/// Whether two graphs have the same nodes, and the same edges in any order.
pub open spec fn same_wiring<N: ToNodeDsp>(g: Graph<N, Edge>, h: Graph<N, Edge>) -> bool {
    g.nodes@ == h.nodes@ && g.edges@.to_multiset() == h.edges@.to_multiset()
}

/// Whether no two nodes have the same path.
pub open spec fn distinct_paths<N: ToNodeDsp>(g: Graph<N, Edge>) -> bool {
    forall|i: int, j: int|
        g.has(i) && g.has(j) && #[trigger] flow::path_at(g, i) == #[trigger] flow::path_at(g, j)
            ==> i == j
}

/// The dsp sources among some edges that feed an input.
spec fn feeding<N: ToNodeDsp>(g: Graph<N, Edge>, edges: Seq<EdgeRef<Edge>>, n: int, i: int) -> Seq<
    (usize, usize),
>
    decreases edges.len(),
{
    if edges.len() == 0 {
        Seq::empty()
    } else {
        let init = feeding(g, edges.drop_last(), n, i);
        let e = edges.last();
        if flow::feeds_input(g, e, n, i) {
            init.push((e.source, e.weight.output.0 as usize))
        } else {
            init
        }
    }
}

proof fn lemma_feeding<N: ToNodeDsp>(g: Graph<N, Edge>, k: nat, n: int, i: int)
    requires
        k <= g.edges@.len(),
    ensures
        flow::arrivals(g, k, n, i) == feeding(g, g.edges@.take(k as int), n, i),
    decreases k,
{
    if k > 0 {
        lemma_feeding(g, (k - 1) as nat, n, i);
        let t = g.edges@.take(k as int);
        assert(t.drop_last() =~= g.edges@.take(k - 1));
        assert(t.last() == g.edges@[k - 1]);
    }
}

/// What one edge contributes.
spec fn contribution<N: ToNodeDsp>(g: Graph<N, Edge>, e: EdgeRef<Edge>, n: int, i: int) -> Multiset<
    (usize, usize),
> {
    if flow::feeds_input(g, e, n, i) {
        Multiset::empty().insert((e.source, e.weight.output.0 as usize))
    } else {
        Multiset::empty()
    }
}

proof fn lemma_feeding_push<N: ToNodeDsp>(
    g: Graph<N, Edge>,
    edges: Seq<EdgeRef<Edge>>,
    e: EdgeRef<Edge>,
    n: int,
    i: int,
)
    ensures
        feeding(g, edges.push(e), n, i).to_multiset() == feeding(g, edges, n, i).to_multiset().add(
            contribution(g, e, n, i),
        ),
{
    broadcast use vstd::seq_lib::group_to_multiset_ensures;

    let t = edges.push(e);
    assert(t.drop_last() =~= edges);
    assert(feeding(g, t, n, i).to_multiset() =~= feeding(g, edges, n, i).to_multiset().add(
        contribution(g, e, n, i),
    ));
}

proof fn lemma_feeding_remove<N: ToNodeDsp>(
    g: Graph<N, Edge>,
    edges: Seq<EdgeRef<Edge>>,
    j: int,
    n: int,
    i: int,
)
    requires
        0 <= j < edges.len(),
    ensures
        feeding(g, edges, n, i).to_multiset() == feeding(g, edges.remove(j), n, i).to_multiset().add(
            contribution(g, edges[j], n, i),
        ),
    decreases edges.len(),
{
    let init = edges.drop_last();
    assert(edges =~= init.push(edges.last()));
    lemma_feeding_push(g, init, edges.last(), n, i);
    if j == edges.len() - 1 {
        assert(edges.remove(j) =~= init);
    } else {
        lemma_feeding_remove(g, init, j, n, i);
        assert(edges.remove(j) =~= init.remove(j).push(edges.last()));
        lemma_feeding_push(g, init.remove(j), edges.last(), n, i);
        assert(feeding(g, edges, n, i).to_multiset() =~= feeding(
            g,
            edges.remove(j),
            n,
            i,
        ).to_multiset().add(contribution(g, edges[j], n, i)));
    }
}

proof fn lemma_feeding_permuted<N: ToNodeDsp>(
    g: Graph<N, Edge>,
    a: Seq<EdgeRef<Edge>>,
    b: Seq<EdgeRef<Edge>>,
    n: int,
    i: int,
)
    requires
        a.to_multiset() == b.to_multiset(),
    ensures
        feeding(g, a, n, i).to_multiset() == feeding(g, b, n, i).to_multiset(),
    decreases a.len(),
{
    broadcast use vstd::seq_lib::group_to_multiset_ensures;

    assert(a.len() == a.to_multiset().len());
    assert(b.len() == b.to_multiset().len());
    if a.len() > 0 {
        let e = a.last();
        let init = a.drop_last();
        assert(a =~= init.push(e));
        assert(a.to_multiset().count(e) > 0) by {
            assert(a.contains(e));
        }
        assert(b.contains(e));
        let j = b.index_of(e);
        assert(b[j] == e);
        assert(b.remove(j).to_multiset() =~= b.to_multiset().remove(e));
        assert(init.to_multiset() =~= a.to_multiset().remove(e));
        lemma_feeding_permuted(g, init, b.remove(j), n, i);
        lemma_feeding_push(g, init, e, n, i);
        lemma_feeding_remove(g, b, j, n, i);
    } else {
        assert(a =~= Seq::empty());
        assert(b =~= Seq::empty());
    }
}

/// Two orders that agree on what is sorted sort it alike.
pub proof fn lemma_sorted_agree<T>(
    s: Seq<T>,
    lt: spec_fn(T, T) -> bool,
    le: spec_fn(T, T) -> bool,
)
    requires
        forall|i: int, j: int|
            0 <= i < s.len() && 0 <= j < s.len() ==> lt(#[trigger] s[i], #[trigger] s[j]) == le(
                s[i],
                s[j],
            ),
    ensures
        order::sorted(s, lt) == order::sorted(s, le),
    decreases s.len(),
{
    if s.len() > 0 {
        let init = s.drop_last();
        assert forall|i: int, j: int| 0 <= i < init.len() && 0 <= j < init.len() implies lt(
            #[trigger] init[i],
            #[trigger] init[j],
        ) == le(init[i], init[j]) by {
            assert(init[i] == s[i] && init[j] == s[j]);
        }
        lemma_sorted_agree(init, lt, le);
        let t = order::sorted(init, lt);
        order::lemma_sorted_multiset(init, lt);
        assert forall|k: int| 0 <= k < t.len() implies lt(s.last(), #[trigger] t[k]) == le(
            s.last(),
            t[k],
        ) by {
            broadcast use vstd::seq_lib::group_to_multiset_ensures;

            assert(t.to_multiset().count(t[k]) > 0);
            assert(init.contains(t[k]));
            let j = init.index_of(t[k]);
            assert(s[j] == t[k]);
            assert(lt(s[s.len() - 1], s[j]) == le(s[s.len() - 1], s[j]));
        }
        lemma_insert_agree(t, s.last(), lt, le);
    }
}

proof fn lemma_insert_agree<T>(
    t: Seq<T>,
    x: T,
    lt: spec_fn(T, T) -> bool,
    le: spec_fn(T, T) -> bool,
)
    requires
        forall|k: int| 0 <= k < t.len() ==> lt(x, #[trigger] t[k]) == le(x, t[k]),
    ensures
        order::insert_sorted(t, x, lt) == order::insert_sorted(t, x, le),
    decreases t.len(),
{
    if t.len() > 0 {
        assert(lt(x, t[t.len() - 1]) == le(x, t[t.len() - 1]));
        assert forall|k: int| 0 <= k < t.drop_last().len() implies lt(
            x,
            #[trigger] t.drop_last()[k],
        ) == le(x, t.drop_last()[k]) by {
            assert(t.drop_last()[k] == t[k]);
        }
        lemma_insert_agree(t.drop_last(), x, lt, le);
    }
}

/// The canonical order of summands, what is level in it by index.
spec fn full_order(paths: Seq<Seq<usize>>) -> spec_fn((usize, usize), (usize, usize)) -> bool {
    |a: (usize, usize), b: (usize, usize)|
        flow::summand_order(paths)(a, b) || (paths[a.0 as int] == paths[b.0 as int] && a.1 == b.1
            && a.0 < b.0)
}

proof fn lemma_full_order(paths: Seq<Seq<usize>>)
    ensures
        order::strict_total(full_order(paths)),
{
    flow::lemma_index_order();
    let lex = |a: Seq<usize>, b: Seq<usize>| order::lex_lt(a, b, flow::index_lt());
    order::lemma_lex_strict_total(flow::index_lt());
    let lt = full_order(paths);
    assert(forall|a: Seq<usize>| !#[trigger] order::lex_lt(a, a, flow::index_lt())) by {
        assert forall|a: Seq<usize>| !#[trigger] order::lex_lt(a, a, flow::index_lt()) by {
            order::lemma_lex_irreflexive(a, flow::index_lt());
        }
    }
    assert forall|a: (usize, usize)| !#[trigger] lt(a, a) by {}
    assert forall|a: (usize, usize), b: (usize, usize), c: (usize, usize)| #[trigger]
        lt(a, b) && #[trigger] lt(b, c) implies lt(a, c) by {
        let (x, y, z) = (paths[a.0 as int], paths[b.0 as int], paths[c.0 as int]);
        if order::lex_lt(x, y, flow::index_lt()) && order::lex_lt(y, z, flow::index_lt()) {
            order::lemma_lex_transitive(x, y, z, flow::index_lt());
        }
    }
    assert forall|a: (usize, usize), b: (usize, usize)| a == b || #[trigger] lt(a, b) || lt(b, a) by {
        order::lemma_lex_total(paths[a.0 as int], paths[b.0 as int], flow::index_lt());
    }
}

proof fn lemma_summands_alike<N: ToNodeDsp>(g: Graph<N, Edge>, h: Graph<N, Edge>, n: int, i: int)
    requires
        g.wf(),
        h.wf(),
        same_wiring(g, h),
        distinct_paths(g),
    ensures
        flow::summands(g, n, i) == flow::summands(h, n, i),
{
    lemma_nodes_alike(g, h);
    let a = flow::arrivals(g, g.edges@.len(), n, i);
    let b = flow::arrivals(h, h.edges@.len(), n, i);
    let paths = flow::node_paths(g);
    let lt = flow::summand_order(paths);
    let le = full_order(paths);
    assert(flow::node_paths(h) =~= paths);
    assert(g.edges@.take(g.edges@.len() as int) =~= g.edges@);
    assert(h.edges@.take(h.edges@.len() as int) =~= h.edges@);
    lemma_feeding(g, g.edges@.len(), n, i);
    lemma_feeding(h, h.edges@.len(), n, i);
    lemma_feeding_same(g, h, h.edges@, n, i);
    lemma_feeding_permuted(g, g.edges@, h.edges@, n, i);
    assert(a.to_multiset() == b.to_multiset());
    lemma_full_order(paths);
    order::lemma_sorted_unique(a, b, le);
    lemma_level(g, a, n, i);
    flow::lemma_arrivals(g, g.edges@.len(), n, i);
    flow::lemma_arrivals(h, h.edges@.len(), n, i);
    lemma_level(g, b, n, i);
    lemma_sorted_agree(a, lt, le);
    lemma_sorted_agree(b, lt, le);
}

proof fn lemma_level<N: ToNodeDsp>(g: Graph<N, Edge>, s: Seq<(usize, usize)>, n: int, i: int)
    requires
        distinct_paths(g),
    ensures
        (forall|k: int|
            0 <= k < s.len() ==> (#[trigger] s[k]).0 < g.nodes@.len() && flow::dsp_at(
                g,
                s[k].0 as int,
            ) is Some) ==> forall|k: int, j: int|
            0 <= k < s.len() && 0 <= j < s.len() ==> flow::summand_order(flow::node_paths(g))(
                #[trigger] s[k],
                #[trigger] s[j],
            ) == full_order(flow::node_paths(g))(s[k], s[j]),
{
    let paths = flow::node_paths(g);
    if forall|k: int|
        0 <= k < s.len() ==> (#[trigger] s[k]).0 < g.nodes@.len() && flow::dsp_at(
            g,
            s[k].0 as int,
        ) is Some {
        assert forall|k: int, j: int| 0 <= k < s.len() && 0 <= j < s.len() implies flow::summand_order(
            paths,
        )(#[trigger] s[k], #[trigger] s[j]) == full_order(paths)(s[k], s[j]) by {
            let (x, y) = (s[k].0 as int, s[j].0 as int);
            assert(paths[x] == flow::path_at(g, x));
            assert(paths[y] == flow::path_at(g, y));
        }
    }
}

proof fn lemma_feeding_same<N: ToNodeDsp>(
    g: Graph<N, Edge>,
    h: Graph<N, Edge>,
    edges: Seq<EdgeRef<Edge>>,
    n: int,
    i: int,
)
    requires
        g.nodes@ == h.nodes@,
    ensures
        feeding(g, edges, n, i) == feeding(h, edges, n, i),
    decreases edges.len(),
{
    lemma_nodes_alike(g, h);
    if edges.len() > 0 {
        lemma_feeding_same(g, h, edges.drop_last(), n, i);
    }
}

/// What is read from the nodes alone is the same where the nodes are.
proof fn lemma_nodes_alike<N: ToNodeDsp>(g: Graph<N, Edge>, h: Graph<N, Edge>)
    requires
        g.nodes@ == h.nodes@,
    ensures
        forall|i: int| #[trigger] flow::dsp_at(g, i) == flow::dsp_at(h, i),
        forall|i: int| #[trigger] flow::n_in(g, i) == flow::n_in(h, i),
        forall|i: int| #[trigger] flow::is_sink(g, i) == flow::is_sink(h, i),
        forall|i: int| #[trigger] flow::cuts(g, i) == flow::cuts(h, i),
        forall|i: int| #[trigger] flow::path_at(g, i) == flow::path_at(h, i),
        flow::node_paths(g) == flow::node_paths(h),
        flow::sinks(g) == flow::sinks(h),
{
    assert forall|i: int| #[trigger] flow::dsp_at(g, i) == flow::dsp_at(h, i) by {
        assert(g.has(i) == h.has(i));
    }
    assert forall|i: int| #[trigger] flow::path_at(g, i) == flow::path_at(h, i) by {
        assert(g.has(i) == h.has(i));
    }
    assert forall|i: int| #[trigger] flow::is_sink(g, i) == flow::is_sink(h, i) by {
        assert(flow::dsp_at(g, i) == flow::dsp_at(h, i));
    }
    assert forall|i: int| #[trigger] flow::n_in(g, i) == flow::n_in(h, i) by {
        assert(flow::dsp_at(g, i) == flow::dsp_at(h, i));
    }
    assert forall|i: int| #[trigger] flow::cuts(g, i) == flow::cuts(h, i) by {
        assert(flow::dsp_at(g, i) == flow::dsp_at(h, i));
    }
    assert(flow::node_paths(g) =~= flow::node_paths(h));
    lemma_indices_alike(g.nodes@.len(), |i: int| flow::is_sink(g, i), |i: int| flow::is_sink(h, i));
}

proof fn lemma_indices_alike(n: nat, p: spec_fn(int) -> bool, q: spec_fn(int) -> bool)
    requires
        forall|i: int| 0 <= i < n ==> #[trigger] p(i) == q(i),
    ensures
        flow::indices(n, p) == flow::indices(n, q),
    decreases n,
{
    if n > 0 {
        lemma_indices_alike((n - 1) as nat, p, q);
        assert(p(n - 1) == q(n - 1));
    }
}

/// What definitions are derived from.
spec fn alike<N: ToNodeDsp>(g: Graph<N, Edge>, h: Graph<N, Edge>) -> bool {
    g.nodes@ == h.nodes@ && flow::sources(g) == flow::sources(h)
}

proof fn lemma_alike<N: ToNodeDsp>(g: Graph<N, Edge>, h: Graph<N, Edge>)
    requires
        g.wf(),
        h.wf(),
        same_wiring(g, h),
        distinct_paths(g),
    ensures
        alike(g, h),
{
    lemma_nodes_alike(g, h);
    assert forall|n: int| 0 <= n < g.nodes@.len() implies #[trigger] flow::sources(g)[n]
        == flow::sources(h)[n] by {
        assert(flow::n_in(g, n) == flow::n_in(h, n));
        assert forall|i: int| 0 <= i < flow::n_in(g, n) implies #[trigger] flow::sources(g)[n][i]
            == flow::sources(h)[n][i] by {
            lemma_summands_alike(g, h, n, i);
        }
        assert(flow::sources(g)[n] =~= flow::sources(h)[n]);
    }
    assert(flow::sources(g) =~= flow::sources(h));
}

proof fn lemma_deps_alike<N: ToNodeDsp>(g: Graph<N, Edge>, h: Graph<N, Edge>)
    requires
        alike(g, h),
    ensures
        flow::flow_deps(g) == flow::flow_deps(h),
{
    assert(flow::flow_deps(g) =~= flow::flow_deps(h));
}

proof fn lemma_emit_alike<N: ToNodeDsp>(
    g: Graph<N, Edge>,
    h: Graph<N, Edge>,
    order: Seq<usize>,
    b: BuilderView,
)
    requires
        alike(g, h),
    ensures
        compile::emit_order(g, order, b) == compile::emit_order(h, order, b),
    decreases order.len(),
{
    lemma_nodes_alike(g, h);
    if order.len() > 0 {
        lemma_emit_alike(g, h, order.drop_last(), b);
        let n = order.last() as int;
        assert(flow::dsp_at(g, n) == flow::dsp_at(h, n));
        assert(flow::path_at(g, n) == flow::path_at(h, n));
    }
}

/// The definition derived from a graph does not depend on the order in which its edges
/// were added.
pub proof fn law_edge_order_does_not_matter<N: ToNodeDsp>(
    g: Graph<N, Edge>,
    h: Graph<N, Edge>,
    out_channels: nat,
    name: Seq<char>,
)
    requires
        g.wf(),
        h.wf(),
        same_wiring(g, h),
        distinct_paths(g),
    ensures
        flow::sinks(g) == flow::sinks(h),
        compile::definition(g, out_channels, name) == compile::definition(h, out_channels, name),
{
    lemma_alike(g, h);
    lemma_nodes_alike(g, h);
    lemma_deps_alike(g, h);
    let order = topo::post_order_of(flow::flow_deps(g), flow::sinks(g));
    lemma_emit_alike(g, h, order, BuilderView::empty(out_channels));
}

/// Where something holds of a number, there is a least number that it holds of.
pub proof fn lemma_least(p: spec_fn(usize) -> bool, k: usize)
    requires
        p(k),
    ensures
        exists|l: usize| #[trigger] p(l) && forall|m: usize| #[trigger] p(m) ==> l <= m,
    decreases k,
{
    if exists|m: usize| m < k && #[trigger] p(m) {
        let m = choose|m: usize| m < k && #[trigger] p(m);
        lemma_least(p, m);
    } else {
        assert(p(k) && forall|m: usize| #[trigger] p(m) ==> k <= m);
    }
}

proof fn lemma_region_alike<N: ToNodeDsp>(g: Graph<N, Edge>, h: Graph<N, Edge>)
    requires
        alike(g, h),
    ensures
        forall|n: usize| #[trigger] region::reached(g, n) == region::reached(h, n),
        forall|n: usize| #[trigger] region::inner(g, n) == region::inner(h, n),
        forall|n: usize| #[trigger] region::region_of(g, n) == region::region_of(h, n),
{
    lemma_nodes_alike(g, h);
    lemma_deps_alike(g, h);
    assert forall|n: usize| #[trigger] region::inner(g, n) == region::inner(h, n) by {
        assert(region::reached(g, n) == region::reached(h, n));
        assert(flow::cuts(g, n as int) == flow::cuts(h, n as int));
    }
    assert(region::joined(g) =~= region::joined(h)) by {
        assert forall|a: usize, b: usize| #[trigger] region::joined(g)(a, b) == region::joined(h)(
            a,
            b,
        ) by {
            assert(region::inner(g, a) == region::inner(h, a));
            assert(region::inner(g, b) == region::inner(h, b));
        }
    }
    assert forall|n: usize| #[trigger] region::region_of(g, n) == region::region_of(h, n) by {
        assert(region::inner(g, n) == region::inner(h, n));
        if region::inner(g, n) {
            let step = region::joined(g);
            let p = |m: usize| walk::reaches(step, n, m);
            walk::lemma_reaches_self(step, n);
            assert(p(n));
            lemma_least(p, n);
            let l = choose|l: usize| #[trigger] p(l) && forall|m: usize| #[trigger] p(m) ==> l <= m;
            assert(forall|m: usize| #[trigger] walk::reaches(step, n, m) ==> p(m));
            assert(region::leads(g, n, l));
            assert(region::leads(h, n, l));
            let x = choose|l: usize| region::leads(g, n, l);
            let y = choose|l: usize| region::leads(h, n, l);
            assert(region::leads(g, n, x) && region::leads(h, n, y));
            assert(walk::reaches(step, n, x) && walk::reaches(step, n, y));
            assert(x <= y && y <= x);
        }
    }
}

proof fn lemma_parts_alike<N: ToNodeDsp>(
    g: Graph<N, Edge>,
    h: Graph<N, Edge>,
    s: Seq<(usize, usize)>,
)
    requires
        alike(g, h),
    ensures
        region::boundary_part(g, s) == region::boundary_part(h, s),
        region::plain_part(g, s) == region::plain_part(h, s),
    decreases s.len(),
{
    lemma_nodes_alike(g, h);
    if s.len() > 0 {
        lemma_parts_alike(g, h, s.drop_last());
        assert(flow::cuts(g, s.last().0 as int) == flow::cuts(h, s.last().0 as int));
    }
}

proof fn lemma_chain_alike<N: ToNodeDsp>(g: Graph<N, Edge>, h: Graph<N, Edge>, b: usize, fuel: nat)
    requires
        alike(g, h),
    ensures
        region::chain(g, b, fuel) == region::chain(h, b, fuel),
    decreases fuel,
{
    lemma_nodes_alike(g, h);
    if let Some(src) = region::lone(flow::sources(g)[b as int]) {
        assert(flow::cuts(g, src.0 as int) == flow::cuts(h, src.0 as int));
        if fuel > 0 {
            lemma_chain_alike(g, h, src.0, (fuel - 1) as nat);
        }
    }
}

proof fn lemma_wired_alike<N: ToNodeDsp>(g: Graph<N, Edge>, h: Graph<N, Edge>, b: usize, n: nat)
    requires
        alike(g, h),
    ensures
        region::wired(g, b, n) == region::wired(h, b, n),
    decreases n,
{
    if n > 0 {
        lemma_wired_alike(g, h, b, (n - 1) as nat);
        assert(region::boundary_deps(g) =~= region::boundary_deps(h)) by {
            assert forall|k: int| 0 <= k < g.nodes@.len() implies #[trigger] region::boundary_deps(
                g,
            )[k] == region::boundary_deps(h)[k] by {
                lemma_parts_alike(g, h, flow::flat(flow::sources(g)[k]));
            }
        }
        lemma_parts_alike(g, h, flow::flat(flow::sources(g)[n - 1]));
    }
}

proof fn lemma_buses_alike<N: ToNodeDsp>(g: Graph<N, Edge>, h: Graph<N, Edge>)
    requires
        alike(g, h),
    ensures
        forall|n: usize| #[trigger] region::buses_at(g, n) == region::buses_at(h, n),
{
    lemma_nodes_alike(g, h);
    assert forall|n: usize| #[trigger] region::buses_at(g, n) == region::buses_at(h, n) by {
        assert(flow::cuts(g, n as int) == flow::cuts(h, n as int));
        lemma_chain_alike(g, h, n, g.nodes@.len());
        lemma_wired_alike(g, h, n, g.nodes@.len());
    }
}

proof fn lemma_lower_alike<N: ToNodeDsp>(g: Graph<N, Edge>, h: Graph<N, Edge>, s: Seq<(usize, usize)>)
    requires
        alike(g, h),
    ensures
        region::lower_all(g, s) == region::lower_all(h, s),
    decreases s.len(),
{
    lemma_nodes_alike(g, h);
    lemma_buses_alike(g, h);
    if s.len() > 0 {
        lemma_lower_alike(g, h, s.drop_last());
        let n = s.last().0;
        assert(flow::cuts(g, n as int) == flow::cuts(h, n as int));
        assert(region::buses_at(g, n) == region::buses_at(h, n));
    }
}

/// What is read across regions is the same where nodes and summands are.
proof fn lemma_crossing_alike<N: ToNodeDsp>(g: Graph<N, Edge>, h: Graph<N, Edge>)
    requires
        alike(g, h),
    ensures
        forall|n: usize| #[trigger] region::arrives(g, n) == region::arrives(h, n),
        region::reads_from(g) == region::reads_from(h),
        forall|r: usize| #[trigger] region::wanted(g, r) == region::wanted(h, r),
        forall|bus: RegionBus| #[trigger]
            regions::read_elsewhere(g, bus) == regions::read_elsewhere(h, bus),
        forall|r: usize, x: (Option<RegionBus>, (usize, usize))| #[trigger]
            region::foreign(g, r, x) == region::foreign(h, r, x),
{
    lemma_nodes_alike(g, h);
    lemma_region_alike(g, h);
    assert forall|n: usize| #[trigger] region::arrives(g, n) == region::arrives(h, n) by {
        lemma_lower_alike(g, h, flow::flat(flow::sources(g)[n as int]));
    }
    assert forall|r: usize, x: (Option<RegionBus>, (usize, usize))| #[trigger]
        region::foreign(g, r, x) == region::foreign(h, r, x) by {
        assert(region::region_of(g, x.1.0) == region::region_of(h, x.1.0));
    }
    lemma_reads_alike(g, h);
    lemma_reads_alike(h, g);
    assert(region::reads_from(g) =~= region::reads_from(h)) by {
        assert forall|r: usize, w: usize| #[trigger] region::reads_from(g)(r, w)
            == region::reads_from(h)(r, w) by {
            assert(region::reads_from(g)(r, w) ==> region::reads_from(h)(r, w));
            assert(region::reads_from(h)(r, w) ==> region::reads_from(g)(r, w));
        }
    }
    assert forall|r: usize| #[trigger] region::wanted(g, r) == region::wanted(h, r) by {
        assert(forall|k: int|
            0 <= k < flow::sinks(g).len() ==> region::region_of(g, #[trigger] flow::sinks(g)[k])
                == region::region_of(h, flow::sinks(h)[k]));
    }
    assert forall|bus: RegionBus| #[trigger]
        regions::read_elsewhere(g, bus) == regions::read_elsewhere(h, bus) by {
        lemma_read_elsewhere_alike(g, h, bus);
        lemma_read_elsewhere_alike(h, g, bus);
    }
}

proof fn lemma_reads_alike<N: ToNodeDsp>(g: Graph<N, Edge>, h: Graph<N, Edge>)
    requires
        alike(g, h),
    ensures
        forall|r: usize, w: usize| #[trigger]
            region::reads_from(g)(r, w) ==> region::reads_from(h)(r, w),
{
    lemma_region_alike(g, h);
    assert forall|r: usize, w: usize| #[trigger] region::reads_from(g)(r, w) implies region::reads_from(
        h,
    )(r, w) by {
        let (n, k) = choose|n: usize, k: int|
            region::inner(g, n) && region::region_of(g, n) == Some(r) && 0 <= k < region::arrives(
                g,
                n,
            ).len() && region::foreign(g, r, #[trigger] region::arrives(g, n)[k])
                && region::region_of(g, region::arrives(g, n)[k].1.0) == Some(w);
        lemma_lower_alike(g, h, flow::flat(flow::sources(g)[n as int]));
        let x = region::arrives(h, n)[k];
        assert(region::inner(h, n) == region::inner(g, n));
        assert(region::region_of(h, n) == region::region_of(g, n));
        assert(region::region_of(h, x.1.0) == region::region_of(g, x.1.0));
        assert(region::foreign(h, r, x));
    }
}

proof fn lemma_read_elsewhere_alike<N: ToNodeDsp>(
    g: Graph<N, Edge>,
    h: Graph<N, Edge>,
    bus: RegionBus,
)
    requires
        alike(g, h),
        forall|r: usize| #[trigger] region::wanted(g, r) == region::wanted(h, r),
    ensures
        regions::read_elsewhere(g, bus) ==> regions::read_elsewhere(h, bus),
{
    if regions::read_elsewhere(g, bus) {
        lemma_region_alike(g, h);
        let r = choose|r: usize| region::wanted(g, r) && #[trigger] region::crosses(g, r, bus);
        let (n, k) = choose|n: usize, k: int|
            region::inner(g, n) && region::region_of(g, n) == Some(r) && 0 <= k < region::arrives(
                g,
                n,
            ).len() && region::foreign(g, r, #[trigger] region::arrives(g, n)[k])
                && region::arrives(g, n)[k].0 == Some(bus);
        lemma_lower_alike(g, h, flow::flat(flow::sources(g)[n as int]));
        let x = region::arrives(h, n)[k];
        assert(region::inner(h, n) == region::inner(g, n));
        assert(region::region_of(h, n) == region::region_of(g, n));
        assert(region::region_of(h, x.1.0) == region::region_of(g, x.1.0));
        assert(region::foreign(h, r, x));
        assert(region::crosses(h, r, bus));
        assert(region::wanted(h, r) == region::wanted(g, r));
    }
}

proof fn lemma_within_alike<N: ToNodeDsp>(
    g: Graph<N, Edge>,
    h: Graph<N, Edge>,
    r: usize,
    s: Seq<usize>,
)
    requires
        alike(g, h),
    ensures
        regions::within(g, r, s) == regions::within(h, r, s),
    decreases s.len(),
{
    lemma_region_alike(g, h);
    if s.len() > 0 {
        lemma_within_alike(g, h, r, s.drop_last());
        assert(region::region_of(g, s.last()) == region::region_of(h, s.last()));
    }
}

proof fn lemma_add_writes_alike<N: ToNodeDsp>(
    g: Graph<N, Edge>,
    h: Graph<N, Edge>,
    r: usize,
    acc: Seq<(RegionBus, (usize, usize))>,
    more: Seq<(RegionBus, (usize, usize))>,
)
    requires
        alike(g, h),
    ensures
        regions::add_writes(g, r, acc, more) == regions::add_writes(h, r, acc, more),
    decreases more.len(),
{
    lemma_region_alike(g, h);
    lemma_crossing_alike(g, h);
    if more.len() > 0 {
        lemma_add_writes_alike(g, h, r, acc, more.drop_last());
        let (bus, src) = more.last();
        assert(region::region_of(g, src.0) == region::region_of(h, src.0));
        assert(regions::read_elsewhere(g, bus) == regions::read_elsewhere(h, bus));
    }
}

proof fn lemma_writes_alike<N: ToNodeDsp>(g: Graph<N, Edge>, h: Graph<N, Edge>, r: usize, n: nat)
    requires
        alike(g, h),
    ensures
        regions::writes_upto(g, r, n) == regions::writes_upto(h, r, n),
    decreases n,
{
    if n > 0 {
        lemma_writes_alike(g, h, r, (n - 1) as nat);
        lemma_nodes_alike(g, h);
        lemma_region_alike(g, h);
        lemma_buses_alike(g, h);
        let m = (n - 1) as usize;
        assert(region::reached(g, m) == region::reached(h, m));
        assert(flow::cuts(g, n - 1) == flow::cuts(h, n - 1));
        assert(region::buses_at(g, m) == region::buses_at(h, m));
        lemma_add_writes_alike(
            g,
            h,
            r,
            regions::writes_upto(g, r, (n - 1) as nat),
            region::buses_at(g, m),
        );
    }
}

proof fn lemma_seeds_alike<N: ToNodeDsp>(g: Graph<N, Edge>, h: Graph<N, Edge>, r: usize)
    requires
        alike(g, h),
    ensures
        regions::region_writes(g, r) == regions::region_writes(h, r),
        regions::region_seeds(g, r) == regions::region_seeds(h, r),
        regions::local_deps(g) == regions::local_deps(h),
{
    lemma_nodes_alike(g, h);
    lemma_region_alike(g, h);
    lemma_crossing_alike(g, h);
    lemma_writes_alike(g, h, r, g.nodes@.len());
    lemma_within_alike(g, h, r, flow::sinks(g));
    assert forall|n: int| 0 <= n < g.nodes@.len() implies #[trigger] regions::local_deps(g)[n]
        == regions::local_deps(h)[n] by {
        let m = n as usize;
        assert(region::region_of(g, m) == region::region_of(h, m));
        assert(region::arrives(g, m) == region::arrives(h, m));
        if let Some(q) = region::region_of(g, m) {
            lemma_within_alike(
                g,
                h,
                q,
                region::arrives(g, m).map_values(
                    |x: (Option<RegionBus>, (usize, usize))| x.1.0,
                ),
            );
        }
    }
    assert(regions::local_deps(g) =~= regions::local_deps(h));
}

proof fn lemma_gather_alike<N: ToNodeDsp>(
    g: Graph<N, Edge>,
    h: Graph<N, Edge>,
    r: usize,
    widths: Map<RegionBus, usize>,
    st: regions::RegionState,
    items: Seq<(Option<RegionBus>, (usize, usize))>,
)
    requires
        alike(g, h),
    ensures
        regions::gather(g, r, widths, st, items) == regions::gather(h, r, widths, st, items),
    decreases items.len(),
{
    lemma_nodes_alike(g, h);
    lemma_crossing_alike(g, h);
    if items.len() > 0 {
        lemma_gather_alike(g, h, r, widths, st, items.drop_last());
        let x = items.last();
        assert(region::foreign(g, r, x) == region::foreign(h, r, x));
        if region::foreign(g, r, x) {
            lemma_bus_alike(g, h, x.0->0);
        }
    }
}

proof fn lemma_bus_alike<N: ToNodeDsp>(g: Graph<N, Edge>, h: Graph<N, Edge>, bus: RegionBus)
    requires
        alike(g, h),
    ensures
        regions::bus_at(g, bus) == regions::bus_at(h, bus),
{
    lemma_nodes_alike(g, h);
    match bus {
        RegionBus::Bus(b) => assert(flow::path_at(g, b as int) == flow::path_at(h, b as int)),
        RegionBus::Src(s, _) => assert(flow::path_at(g, s as int) == flow::path_at(h, s as int)),
    }
}

proof fn lemma_inputs_alike<N: ToNodeDsp>(
    g: Graph<N, Edge>,
    h: Graph<N, Edge>,
    r: usize,
    widths: Map<RegionBus, usize>,
    st: regions::RegionState,
    ins: Seq<Seq<(usize, usize)>>,
)
    requires
        alike(g, h),
    ensures
        regions::region_inputs(g, r, widths, st, ins) == regions::region_inputs(
            h,
            r,
            widths,
            st,
            ins,
        ),
    decreases ins.len(),
{
    if ins.len() > 0 {
        lemma_inputs_alike(g, h, r, widths, st, ins.drop_last());
        lemma_lower_alike(g, h, ins.last());
        lemma_gather_alike(
            g,
            h,
            r,
            widths,
            regions::region_inputs(g, r, widths, st, ins.drop_last()).0,
            region::lower_all(g, ins.last()),
        );
    }
}

proof fn lemma_emit_region_alike<N: ToNodeDsp>(
    g: Graph<N, Edge>,
    h: Graph<N, Edge>,
    r: usize,
    widths: Map<RegionBus, usize>,
    order: Seq<usize>,
    out_channels: nat,
)
    requires
        alike(g, h),
    ensures
        regions::emit_region(g, r, widths, order, out_channels) == regions::emit_region(
            h,
            r,
            widths,
            order,
            out_channels,
        ),
    decreases order.len(),
{
    lemma_nodes_alike(g, h);
    if order.len() > 0 {
        lemma_emit_region_alike(g, h, r, widths, order.drop_last(), out_channels);
        let n = order.last() as int;
        assert(flow::dsp_at(g, n) == flow::dsp_at(h, n));
        assert(flow::path_at(g, n) == flow::path_at(h, n));
        lemma_inputs_alike(
            g,
            h,
            r,
            widths,
            regions::emit_region(g, r, widths, order.drop_last(), out_channels),
            flow::sources(g)[n],
        );
    }
}

proof fn lemma_write_alike<N: ToNodeDsp>(
    g: Graph<N, Edge>,
    h: Graph<N, Edge>,
    outs: compile::Outputs,
    ws: regions::WriteState,
    writes: Seq<(RegionBus, (usize, usize))>,
)
    requires
        alike(g, h),
    ensures
        regions::write_buses(g, outs, ws, writes) == regions::write_buses(h, outs, ws, writes),
    decreases writes.len(),
{
    if writes.len() > 0 {
        lemma_write_alike(g, h, outs, ws, writes.drop_last());
        lemma_bus_alike(g, h, writes.last().0);
    }
}

proof fn lemma_one_region_alike<N: ToNodeDsp>(
    g: Graph<N, Edge>,
    h: Graph<N, Edge>,
    r: usize,
    widths: Map<RegionBus, usize>,
    order: Seq<usize>,
    out_channels: nat,
    prefix: Seq<char>,
)
    requires
        alike(g, h),
    ensures
        regions::one_region(g, r, widths, order, out_channels, prefix) == regions::one_region(
            h,
            r,
            widths,
            order,
            out_channels,
            prefix,
        ),
{
    lemma_nodes_alike(g, h);
    lemma_emit_region_alike(g, h, r, widths, order, out_channels);
    lemma_seeds_alike(g, h, r);
    let st = regions::emit_region(g, r, widths, order, out_channels);
    lemma_write_alike(
        g,
        h,
        st.outs,
        regions::WriteState { b: st.b, fades: Map::empty(), widths, written: Seq::empty() },
        regions::region_writes(g, r),
    );
    lemma_within_alike(g, h, r, flow::sinks(g));
    let s = regions::within(g, r, flow::sinks(g));
    assert(regions::paths_of(g, s) =~= regions::paths_of(h, s)) by {
        assert forall|k: int| 0 <= k < s.len() implies flow::path_at(g, #[trigger] s[k] as int)
            == flow::path_at(h, s[k] as int) by {}
    }
}

proof fn lemma_all_regions_alike<N: ToNodeDsp>(
    g: Graph<N, Edge>,
    h: Graph<N, Edge>,
    schedule: Seq<usize>,
    orders: Seq<Seq<usize>>,
    out_channels: nat,
    prefix: Seq<char>,
)
    requires
        alike(g, h),
    ensures
        regions::all_regions(g, schedule, orders, out_channels, prefix) == regions::all_regions(
            h,
            schedule,
            orders,
            out_channels,
            prefix,
        ),
    decreases schedule.len(),
{
    if schedule.len() > 0 {
        lemma_all_regions_alike(
            g,
            h,
            schedule.drop_last(),
            orders.drop_last(),
            out_channels,
            prefix,
        );
        let widths = regions::all_regions(
            g,
            schedule.drop_last(),
            orders.drop_last(),
            out_channels,
            prefix,
        ).1;
        lemma_one_region_alike(
            g,
            h,
            schedule.last(),
            widths,
            orders.last(),
            out_channels,
            prefix,
        );
    }
}

proof fn lemma_derives_alike<N: ToNodeDsp>(
    g: Graph<N, Edge>,
    h: Graph<N, Edge>,
    out_channels: nat,
    prefix: Seq<char>,
    found: Seq<RegionView>,
)
    requires
        alike(g, h),
        regions::derives_regions(g, out_channels, prefix, found),
    ensures
        regions::derives_regions(h, out_channels, prefix, found),
{
    lemma_crossing_alike(g, h);
    let (schedule, orders) = choose|schedule: Seq<usize>, orders: Seq<Seq<usize>>| #[trigger]
        regions::region_schedule(g, schedule) && #[trigger] regions::region_orders(
            g,
            schedule,
            orders,
        ) && found == regions::all_regions(g, schedule, orders, out_channels, prefix).0;
    assert forall|placed: Seq<usize>, c: usize| #[trigger] region::ready(g, placed, c)
        == region::ready(h, placed, c) by {
        assert(region::wanted(g, c) == region::wanted(h, c));
    }
    assert(region::writers_first(h, schedule)) by {
        assert forall|k: int| 0 <= k < schedule.len() implies region::ready(
            h,
            schedule.take(k),
            #[trigger] schedule[k],
        ) && forall|c: usize|
            c < schedule[k] ==> !#[trigger] region::ready(h, schedule.take(k), c) by {
            assert(region::ready(g, schedule.take(k), schedule[k]));
            assert forall|c: usize| c < schedule[k] implies !#[trigger] region::ready(
                h,
                schedule.take(k),
                c,
            ) by {
                assert(!region::ready(g, schedule.take(k), c));
            }
        }
    }
    assert(regions::region_schedule(h, schedule)) by {
        assert forall|c: usize| #[trigger] region::wanted(h, c) implies schedule.contains(c) by {
            assert(region::wanted(g, c));
        }
    }
    assert(regions::region_orders(h, schedule, orders)) by {
        assert forall|k: int| 0 <= k < schedule.len() implies topo::pull_order(
            regions::local_deps(h),
            regions::region_seeds(h, schedule[k]),
            #[trigger] orders[k],
        ) && orders[k] == topo::post_order_of(
            regions::local_deps(h),
            regions::region_seeds(h, schedule[k]),
        ) by {
            lemma_seeds_alike(g, h, schedule[k]);
        }
    }
    lemma_all_regions_alike(g, h, schedule, orders, out_channels, prefix);
}

/// The definitions derived from a cut graph do not depend on the order in which its
/// edges were added, and neither does whether its buses form a cycle.
pub proof fn law_edge_order_does_not_matter_to_regions<N: ToNodeDsp>(
    g: Graph<N, Edge>,
    h: Graph<N, Edge>,
    out_channels: nat,
    prefix: Seq<char>,
    found: Seq<RegionView>,
)
    requires
        g.wf(),
        h.wf(),
        same_wiring(g, h),
        distinct_paths(g),
    ensures
        regions::derives_regions(g, out_channels, prefix, found) == regions::derives_regions(
            h,
            out_channels,
            prefix,
            found,
        ),
        region::no_bus_cycle(g) == region::no_bus_cycle(h),
{
    lemma_alike(g, h);
    lemma_crossing_alike(g, h);
    if regions::derives_regions(g, out_channels, prefix, found) {
        lemma_derives_alike(g, h, out_channels, prefix, found);
    }
    if regions::derives_regions(h, out_channels, prefix, found) {
        lemma_derives_alike(h, g, out_channels, prefix, found);
    }
    assert forall|rank: spec_fn(usize) -> nat| #[trigger] region::bus_ranked(g, rank)
        == region::bus_ranked(h, rank) by {
        assert(forall|r: usize| #[trigger] region::wanted(g, r) == region::wanted(h, r));
    }
    if region::no_bus_cycle(g) {
        let rank = choose|rank: spec_fn(usize) -> nat| #[trigger] region::bus_ranked(g, rank);
        assert(region::bus_ranked(h, rank));
    }
    if region::no_bus_cycle(h) {
        let rank = choose|rank: spec_fn(usize) -> nat| #[trigger] region::bus_ranked(h, rank);
        assert(region::bus_ranked(g, rank));
    }
}

/// A graph has one derivation: the regions, and all that is derived of them, are
/// determined by it.
pub proof fn law_regions_are_determined<N: ToNodeDsp>(
    g: Graph<N, Edge>,
    out_channels: nat,
    prefix: Seq<char>,
    a: Seq<RegionView>,
    b: Seq<RegionView>,
)
    requires
        regions::derives_regions(g, out_channels, prefix, a),
        regions::derives_regions(g, out_channels, prefix, b),
    ensures
        a == b,
{
    let (s, x) = choose|schedule: Seq<usize>, orders: Seq<Seq<usize>>| #[trigger]
        regions::region_schedule(g, schedule) && #[trigger] regions::region_orders(
            g,
            schedule,
            orders,
        ) && a == regions::all_regions(g, schedule, orders, out_channels, prefix).0;
    let (t, y) = choose|schedule: Seq<usize>, orders: Seq<Seq<usize>>| #[trigger]
        regions::region_schedule(g, schedule) && #[trigger] regions::region_orders(
            g,
            schedule,
            orders,
        ) && b == regions::all_regions(g, schedule, orders, out_channels, prefix).0;
    lemma_schedule_prefix(g, s, t, s.len() as int);
    lemma_schedule_prefix(g, t, s, t.len() as int);
    assert(s =~= t) by {
        assert(s.take(s.len() as int) =~= s);
        assert(t.take(t.len() as int) =~= t);
    }
    assert(x =~= y) by {
        assert forall|k: int| 0 <= k < x.len() implies x[k] == y[k] by {
            assert(x[k] == topo::post_order_of(
                regions::local_deps(g),
                regions::region_seeds(g, s[k]),
            ));
            assert(y[k] == topo::post_order_of(
                regions::local_deps(g),
                regions::region_seeds(g, t[k]),
            ));
        }
    }
}

proof fn lemma_schedule_prefix<N: ToNodeDsp>(
    g: Graph<N, Edge>,
    s: Seq<usize>,
    t: Seq<usize>,
    n: int,
)
    requires
        regions::region_schedule(g, s),
        regions::region_schedule(g, t),
        0 <= n <= s.len(),
    ensures
        n <= t.len(),
        s.take(n) == t.take(n),
    decreases n,
{
    if n > 0 {
        let k = n - 1;
        lemma_schedule_prefix(g, s, t, k);
        assert(region::ready(g, s.take(k), s[k]));
        if t.len() == k {
            assert(t.take(k) =~= t);
            assert(region::wanted(g, s[k]));
            assert(t.contains(s[k]));
            assert(s.take(k).contains(s[k]));
            assert(false);
        }
        assert(region::ready(g, t.take(k), t[k]));
        if s[k] < t[k] {
            assert(!region::ready(g, t.take(k), s[k]));
        }
        if t[k] < s[k] {
            assert(!region::ready(g, s.take(k), t[k]));
        }
        assert(s.take(n) =~= s.take(k).push(s[k]));
        assert(t.take(n) =~= t.take(k).push(t[k]));
    } else {
        assert(s.take(0) =~= t.take(0));
    }
}

} // verus!
