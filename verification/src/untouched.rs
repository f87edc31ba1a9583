//! Control inputs carry no signal: what is wired to them alone adds nothing to a
//! definition.

use crate::compile;
use crate::dsp::BuilderView;
use crate::edge::Edge;
use crate::edge_order;
use crate::flow;
use crate::graph::Graph;
use crate::locality;
use crate::node::{NodeDsp, ToNodeDsp};
use crate::order;
use crate::topo::{self, Walked};
use vstd::prelude::*;

verus! {

/// Whether `h` is `g` with more nodes that are no sinks, and more edges that lead into
/// none of the dsp inputs of the nodes of `g`.
pub open spec fn extends<N: ToNodeDsp>(g: Graph<N, Edge>, h: Graph<N, Edge>) -> bool {
    &&& g.nodes@.len() <= h.nodes@.len()
    &&& forall|i: int| #[trigger] g.has(i) ==> h.nodes@[i] == g.nodes@[i]
    &&& forall|i: int| !g.has(i) ==> !#[trigger] flow::is_sink(h, i)
    &&& g.edges@.len() <= h.edges@.len()
    &&& forall|k: int| 0 <= k < g.edges@.len() ==> #[trigger] h.edges@[k] == g.edges@[k]
    &&& forall|k: int, n: int, i: int|
        g.edges@.len() <= k < h.edges@.len() && g.has(n) ==> !#[trigger] flow::feeds_input(
            h,
            h.edges@[k],
            n,
            i,
        )
}

proof fn lemma_nodes<N: ToNodeDsp>(g: Graph<N, Edge>, h: Graph<N, Edge>, i: int)
    requires
        extends(g, h),
        g.has(i),
    ensures
        h.has(i),
        flow::dsp_at(h, i) == flow::dsp_at(g, i),
        flow::n_in(h, i) == flow::n_in(g, i),
        flow::path_at(h, i) == flow::path_at(g, i),
        flow::is_sink(h, i) == flow::is_sink(g, i),
{
    assert(h.nodes@[i] == g.nodes@[i]);
}

proof fn lemma_arrivals<N: ToNodeDsp>(
    g: Graph<N, Edge>,
    h: Graph<N, Edge>,
    k: nat,
    n: int,
    i: int,
)
    requires
        extends(g, h),
        g.wf(),
        g.has(n),
        k <= h.edges@.len(),
    ensures
        flow::arrivals(h, k, n, i) == flow::arrivals(
            g,
            if k <= g.edges@.len() {
                k
            } else {
                g.edges@.len()
            },
            n,
            i,
        ),
        forall|j: int|
            0 <= j < flow::arrivals(h, k, n, i).len() ==> g.has(
                (#[trigger] flow::arrivals(h, k, n, i)[j]).0 as int,
            ),
    decreases k,
{
    if k > 0 {
        lemma_arrivals(g, h, (k - 1) as nat, n, i);
        let e = h.edges@[k - 1];
        if k <= g.edges@.len() {
            assert(e == g.edges@[k - 1]);
            assert(g.has(e.source as int));
            lemma_nodes(g, h, e.source as int);
            lemma_nodes(g, h, n);
            assert(flow::feeds_input(h, e, n, i) == flow::feeds_input(g, e, n, i));
        } else {
            assert(!flow::feeds_input(h, h.edges@[k - 1], n, i));
        }
    }
}

proof fn lemma_summands<N: ToNodeDsp>(g: Graph<N, Edge>, h: Graph<N, Edge>, n: int, i: int)
    requires
        extends(g, h),
        g.wf(),
        g.has(n),
    ensures
        flow::summands(h, n, i) == flow::summands(g, n, i),
        forall|j: int|
            0 <= j < flow::summands(g, n, i).len() ==> g.has(
                (#[trigger] flow::summands(g, n, i)[j]).0 as int,
            ),
{
    let a = flow::summand_order(flow::node_paths(g));
    let b = flow::summand_order(flow::node_paths(h));
    lemma_arrivals(g, h, h.edges@.len(), n, i);
    let s = flow::arrivals(g, g.edges@.len(), n, i);
    assert forall|x: int, y: int| 0 <= x < s.len() && 0 <= y < s.len() implies a(
        #[trigger] s[x],
        #[trigger] s[y],
    ) == b(s[x], s[y]) by {
        lemma_nodes(g, h, s[x].0 as int);
        lemma_nodes(g, h, s[y].0 as int);
    }
    edge_order::lemma_sorted_agree(s, a, b);
    order::lemma_sorted_multiset(s, a);
    let t = order::sorted(s, a);
    assert forall|j: int| 0 <= j < t.len() implies g.has((#[trigger] t[j]).0 as int) by {
        broadcast use vstd::seq_lib::group_to_multiset_ensures;

        assert(t.to_multiset().count(t[j]) > 0);
        assert(s.contains(t[j]));
        let k = s.index_of(t[j]);
        assert(g.has(s[k].0 as int));
    }
}

proof fn lemma_flat_inside<N: ToNodeDsp>(g: Graph<N, Edge>, ins: Seq<Seq<(usize, usize)>>)
    requires
        forall|i: int, j: int|
            0 <= i < ins.len() && 0 <= j < ins[i].len() ==> g.has((#[trigger] ins[i][j]).0 as int),
    ensures
        forall|j: int|
            0 <= j < flow::flat(ins).len() ==> g.has((#[trigger] flow::flat(ins)[j]).0 as int),
    decreases ins.len(),
{
    if ins.len() > 0 {
        let init = ins.drop_last();
        assert forall|i: int, j: int|
            0 <= i < init.len() && 0 <= j < init[i].len() implies g.has(
            (#[trigger] init[i][j]).0 as int,
        ) by {
            assert(init[i] == ins[i]);
            assert(g.has(ins[i][j].0 as int));
        }
        lemma_flat_inside(g, init);
        let f = flow::flat(ins);
        let before = flow::flat(init);
        assert forall|j: int| 0 <= j < f.len() implies g.has((#[trigger] f[j]).0 as int) by {
            if j < before.len() {
                assert(f[j] == before[j]);
            } else {
                assert(f[j] == ins[ins.len() - 1][j - before.len()]);
            }
        }
    }
}

proof fn lemma_sources<N: ToNodeDsp>(g: Graph<N, Edge>, h: Graph<N, Edge>, n: int)
    requires
        extends(g, h),
        g.wf(),
        g.has(n),
    ensures
        flow::sources(h)[n] == flow::sources(g)[n],
        flow::flow_deps(h)[n] == flow::flow_deps(g)[n],
        forall|k: int|
            0 <= k < flow::flow_deps(g)[n].len() ==> g.has(
                (#[trigger] flow::flow_deps(g)[n][k]) as int,
            ),
{
    lemma_nodes(g, h, n);
    assert forall|i: int| 0 <= i < flow::n_in(g, n) implies flow::summands(h, n, i)
        == #[trigger] flow::summands(g, n, i) by {
        lemma_summands(g, h, n, i);
    }
    assert(flow::sources(h)[n] =~= flow::sources(g)[n]);
    let ins = flow::sources(g)[n];
    assert forall|i: int, j: int| 0 <= i < ins.len() && 0 <= j < ins[i].len() implies g.has(
        (#[trigger] ins[i][j]).0 as int,
    ) by {
        lemma_summands(g, h, n, i);
        assert(ins[i] == flow::summands(g, n, i));
    }
    lemma_flat_inside(g, ins);
    assert forall|k: int| 0 <= k < flow::flow_deps(g)[n].len() implies g.has(
        (#[trigger] flow::flow_deps(g)[n][k]) as int,
    ) by {
        assert(flow::flow_deps(g)[n][k] == flow::flat(ins)[k].0);
    }
}

proof fn lemma_indices_agree(m: nat, n: nat, p: spec_fn(int) -> bool, q: spec_fn(int) -> bool)
    requires
        m <= n,
        forall|i: int| 0 <= i < m ==> #[trigger] p(i) == q(i),
        forall|i: int| m <= i < n ==> !#[trigger] q(i),
    ensures
        flow::indices(n, q) == flow::indices(m, p),
    decreases n,
{
    if n > m {
        assert(!q(n - 1));
        lemma_indices_agree(m, (n - 1) as nat, p, q);
    } else if m > 0 {
        assert(p(m - 1) == q(m - 1));
        lemma_indices_agree((m - 1) as nat, (m - 1) as nat, p, q);
    }
}

/// Two walks that have seen the same of what both know.
spec fn alike(a: Walked, b: Walked, inside: spec_fn(usize) -> bool) -> bool {
    &&& a.order == b.order
    &&& forall|n: usize| #[trigger] inside(n) ==> a.seen[n as int] == b.seen[n as int]
}

proof fn lemma_visited_seen(deps: Seq<Seq<usize>>, fuel: nat, n: usize, st: Walked)
    requires
        st.seen.len() == deps.len(),
    ensures
        topo::visited(deps, fuel, n, st).seen.len() == deps.len(),
        topo::unseen(topo::visited(deps, fuel, n, st).seen) <= topo::unseen(st.seen),
    decreases fuel, 0nat,
{
    if fuel == 0 || n >= deps.len() || st.seen[n as int] {
    } else {
        let marked = Walked { seen: st.seen.update(n as int, true), order: st.order };
        topo::lemma_unseen_mark(st.seen, n as int);
        lemma_visited_all_seen(deps, (fuel - 1) as nat, deps[n as int], marked);
    }
}

proof fn lemma_visited_all_seen(deps: Seq<Seq<usize>>, fuel: nat, list: Seq<usize>, st: Walked)
    requires
        st.seen.len() == deps.len(),
    ensures
        topo::visited_all(deps, fuel, list, st).seen.len() == deps.len(),
        topo::unseen(topo::visited_all(deps, fuel, list, st).seen) <= topo::unseen(st.seen),
    decreases fuel, list.len(),
{
    if list.len() > 0 {
        lemma_visited_all_seen(deps, fuel, list.drop_last(), st);
        let mid = topo::visited_all(deps, fuel, list.drop_last(), st);
        lemma_visited_seen(deps, fuel, list.last(), mid);
    }
}

/// Whether two lists of dependencies are the same for the nodes that are inside, and
/// lead to such nodes alone.
spec fn share(d: Seq<Seq<usize>>, e: Seq<Seq<usize>>, inside: spec_fn(usize) -> bool) -> bool {
    &&& d.len() <= e.len()
    &&& forall|m: usize| #[trigger] inside(m) ==> m < d.len() && d[m as int] == e[m as int]
    &&& forall|m: usize, k: int|
        inside(m) && 0 <= k < d[m as int].len() ==> inside(#[trigger] d[m as int][k])
}

proof fn lemma_visited_alike(
    d: Seq<Seq<usize>>,
    e: Seq<Seq<usize>>,
    inside: spec_fn(usize) -> bool,
    fd: nat,
    fe: nat,
    n: usize,
    a: Walked,
    b: Walked,
)
    requires
        share(d, e, inside),
        inside(n),
        a.seen.len() == d.len(),
        b.seen.len() == e.len(),
        fd > topo::unseen(a.seen),
        fe > topo::unseen(b.seen),
        alike(a, b, inside),
    ensures
        alike(topo::visited(d, fd, n, a), topo::visited(e, fe, n, b), inside),
    decreases fd, 0nat,
{
    if !a.seen[n as int] {
        let ma = Walked { seen: a.seen.update(n as int, true), order: a.order };
        let mb = Walked { seen: b.seen.update(n as int, true), order: b.order };
        assert(!b.seen[n as int]);
        topo::lemma_unseen_mark(a.seen, n as int);
        topo::lemma_unseen_mark(b.seen, n as int);
        assert(alike(ma, mb, inside));
        assert forall|k: int| 0 <= k < d[n as int].len() implies inside(
            #[trigger] d[n as int][k],
        ) by {}
        lemma_visited_all_alike(
            d,
            e,
            inside,
            (fd - 1) as nat,
            (fe - 1) as nat,
            d[n as int],
            ma,
            mb,
        );
    } else {
        assert(b.seen[n as int]);
    }
}

proof fn lemma_visited_all_alike(
    d: Seq<Seq<usize>>,
    e: Seq<Seq<usize>>,
    inside: spec_fn(usize) -> bool,
    fd: nat,
    fe: nat,
    list: Seq<usize>,
    a: Walked,
    b: Walked,
)
    requires
        share(d, e, inside),
        forall|k: int| 0 <= k < list.len() ==> inside(#[trigger] list[k]),
        a.seen.len() == d.len(),
        b.seen.len() == e.len(),
        fd > topo::unseen(a.seen),
        fe > topo::unseen(b.seen),
        alike(a, b, inside),
    ensures
        alike(topo::visited_all(d, fd, list, a), topo::visited_all(e, fe, list, b), inside),
    decreases fd, list.len(),
{
    if list.len() > 0 {
        let init = list.drop_last();
        assert forall|k: int| 0 <= k < init.len() implies inside(#[trigger] init[k]) by {
            assert(init[k] == list[k]);
        }
        lemma_visited_all_alike(d, e, inside, fd, fe, init, a, b);
        lemma_visited_all_seen(d, fd, init, a);
        lemma_visited_all_seen(e, fe, init, b);
        assert(inside(list[list.len() - 1]));
        lemma_visited_alike(
            d,
            e,
            inside,
            fd,
            fe,
            list.last(),
            topo::visited_all(d, fd, init, a),
            topo::visited_all(e, fe, init, b),
        );
    }
}

proof fn lemma_order_alike<N: ToNodeDsp>(g: Graph<N, Edge>, h: Graph<N, Edge>)
    requires
        extends(g, h),
        g.wf(),
        h.nodes@.len() <= usize::MAX,
    ensures
        flow::sinks(h) == flow::sinks(g),
        topo::post_order_of(flow::flow_deps(h), flow::sinks(h)) == topo::post_order_of(
            flow::flow_deps(g),
            flow::sinks(g),
        ),
{
    let p = |i: int| flow::is_sink(g, i);
    let q = |i: int| flow::is_sink(h, i);
    assert forall|i: int| 0 <= i < g.nodes@.len() implies #[trigger] p(i) == q(i) by {
        if g.has(i) {
            lemma_nodes(g, h, i);
        } else {
            assert(!flow::is_sink(h, i));
        }
    }
    assert forall|i: int| g.nodes@.len() <= i < h.nodes@.len() implies !#[trigger] q(i) by {
        assert(!flow::is_sink(h, i));
    }
    lemma_indices_agree(g.nodes@.len(), h.nodes@.len(), p, q);
    let d = flow::flow_deps(g);
    let e = flow::flow_deps(h);
    let inside = |m: usize| g.has(m as int);
    assert forall|m: usize| #[trigger] inside(m) implies m < d.len() && d[m as int] == e[m as int] by {
        lemma_sources(g, h, m as int);
    }
    assert forall|m: usize, k: int| inside(m) && 0 <= k < d[m as int].len() implies inside(
        #[trigger] d[m as int][k],
    ) by {
        lemma_sources(g, h, m as int);
    }
    let seeds = flow::sinks(g);
    flow::lemma_indices(g.nodes@.len(), p);
    assert forall|k: int| 0 <= k < seeds.len() implies inside(#[trigger] seeds[k]) by {
        assert(seeds.contains(seeds[k]));
        assert(p(seeds[k] as int));
    }
    let a = Walked { seen: Seq::new(d.len(), |i: int| false), order: Seq::empty() };
    let b = Walked { seen: Seq::new(e.len(), |i: int| false), order: Seq::empty() };
    topo::lemma_none_seen(d.len());
    topo::lemma_none_seen(e.len());
    assert(alike(a, b, inside));
    lemma_visited_all_alike(d, e, inside, d.len() + 1, e.len() + 1, seeds, a, b);
}

proof fn lemma_emit_alike<N: ToNodeDsp>(
    g: Graph<N, Edge>,
    h: Graph<N, Edge>,
    s: Seq<usize>,
    b: BuilderView,
)
    requires
        extends(g, h),
        g.wf(),
        forall|k: int| 0 <= k < s.len() ==> g.has((#[trigger] s[k]) as int),
    ensures
        compile::emit_order(h, s, b) == compile::emit_order(g, s, b),
    decreases s.len(),
{
    if s.len() > 0 {
        let init = s.drop_last();
        assert forall|k: int| 0 <= k < init.len() implies g.has((#[trigger] init[k]) as int) by {
            assert(init[k] == s[k]);
        }
        lemma_emit_alike(g, h, init, b);
        let n = s.last() as int;
        assert(g.has(s[s.len() - 1] as int));
        lemma_nodes(g, h, n);
        lemma_sources(g, h, n);
    }
}

/// Nodes that are wired to control inputs alone add nothing: a graph to which nodes are
/// added that are no sinks, and edges that lead into no dsp input of a node that was
/// there, derives the definition that it derived before, with the same units, params,
/// bindings and monitors.
pub proof fn law_control_chains_add_nothing<N: ToNodeDsp>(
    g: Graph<N, Edge>,
    h: Graph<N, Edge>,
    out_channels: nat,
    name: Seq<char>,
)
    requires
        extends(g, h),
        g.wf(),
        h.nodes@.len() <= usize::MAX,
    ensures
        flow::sinks(h) == flow::sinks(g),
        compile::definition(h, out_channels, name) == compile::definition(g, out_channels, name),
{
    lemma_order_alike(g, h);
    let d = flow::flow_deps(g);
    let seeds = flow::sinks(g);
    let s = topo::post_order_of(d, seeds);
    let inside = |m: usize| g.has(m as int);
    assert forall|m: usize, k: int|
        inside(m) && m < d.len() && 0 <= k < d[m as int].len() implies inside(
        #[trigger] d[m as int][k],
    ) by {
        lemma_sources(g, h, m as int);
    }
    let p = |i: int| flow::is_sink(g, i);
    flow::lemma_indices(g.nodes@.len(), p);
    assert forall|k: int| 0 <= k < seeds.len() implies inside(#[trigger] seeds[k]) by {
        assert(seeds.contains(seeds[k]));
        assert(p(seeds[k] as int));
    }
    let st = Walked { seen: Seq::new(d.len(), |i: int| false), order: Seq::empty() };
    locality::lemma_visited_all_inside(d, inside, d.len() + 1, seeds, st);
    assert forall|k: int| 0 <= k < s.len() implies g.has((#[trigger] s[k]) as int) by {
        assert(inside(s[k]));
    }
    lemma_emit_alike(g, h, s, BuilderView::empty(out_channels));
}

} // verus!
