//! A graph that is connected and not cut is one region, with the definition that is
//! derived of the whole.

use crate::buses;
use crate::compile;
use crate::dsp::{self, BuilderView};
use crate::edge::Edge;
use crate::edge_order;
use crate::flow;
use crate::graph::Graph;
use crate::locality;
use crate::node::{NodeDsp, ToNodeDsp};
use crate::region::{self, RegionBus};
use crate::regions::{self, RegionState, RegionView};
use crate::schedule;
use crate::text;
use crate::topo;
use crate::walk;
use vstd::prelude::*;

verus! {

/// Whether a graph has no boundary, and the nodes that feed its sinks are all wired to
/// one another, directly or through others.
pub open spec fn uncut<N: ToNodeDsp>(g: Graph<N, Edge>) -> bool {
    &&& forall|i: int| !#[trigger] flow::cuts(g, i)
    &&& forall|a: usize, b: usize| #[trigger]
        region::reached(g, a) && #[trigger] region::reached(g, b) ==> walk::reaches(
            region::joined(g),
            a,
            b,
        )
}

proof fn lemma_lower_plain<N: ToNodeDsp>(g: Graph<N, Edge>, s: Seq<(usize, usize)>)
    requires
        uncut(g),
    ensures
        region::lower_all(g, s).len() == s.len(),
        forall|k: int|
            0 <= k < s.len() ==> #[trigger] region::lower_all(g, s)[k] == (None::<RegionBus>, s[k]),
    decreases s.len(),
{
    if s.len() > 0 {
        lemma_lower_plain(g, s.drop_last());
        let x = s.last();
        assert(!flow::cuts(g, x.0 as int));
    }
}

/// The region that the whole graph is.
spec fn the_region<N: ToNodeDsp>(g: Graph<N, Edge>) -> usize {
    region::region_of(g, flow::sinks(g)[0])->0
}

proof fn lemma_sink_reached<N: ToNodeDsp>(g: Graph<N, Edge>, k: int)
    requires
        g.nodes@.len() <= usize::MAX,
        0 <= k < flow::sinks(g).len(),
    ensures
        region::reached(g, flow::sinks(g)[k]),
{
    let s = flow::sinks(g);
    flow::lemma_indices(g.nodes@.len(), |i: int| flow::is_sink(g, i));
    walk::lemma_reaches_self(topo::depends(flow::flow_deps(g)), s[k]);
}

/// A region is known by its least node.
pub proof fn lemma_leader<N: ToNodeDsp>(g: Graph<N, Edge>, n: usize)
    requires
        region::inner(g, n),
    ensures
        region::leads(g, n, region::region_of(g, n)->0),
{
    let p = |m: usize| walk::reaches(region::joined(g), n, m);
    walk::lemma_reaches_self(region::joined(g), n);
    assert(p(n));
    edge_order::lemma_least(p, n);
    let l = choose|l: usize| #[trigger] p(l) && forall|m: usize| #[trigger] p(m) ==> l <= m;
    assert(region::leads(g, n, l)) by {
        assert forall|m: usize| #[trigger] walk::reaches(region::joined(g), n, m) implies l <= m by {
            assert(p(m));
        }
        assert(p(l));
    }
}

proof fn lemma_one_region<N: ToNodeDsp>(g: Graph<N, Edge>, n: usize)
    requires
        g.nodes@.len() <= usize::MAX,
        uncut(g),
        flow::sinks(g).len() > 0,
        region::reached(g, n),
    ensures
        region::region_of(g, n) == Some(the_region(g)),
{
    let s = flow::sinks(g)[0];
    let step = region::joined(g);
    lemma_sink_reached(g, 0);
    assert(!flow::cuts(g, n as int) && !flow::cuts(g, s as int));
    lemma_leader(g, n);
    lemma_leader(g, s);
    let a = region::region_of(g, n)->0;
    let b = region::region_of(g, s)->0;
    assert(walk::reaches(step, n, s) && walk::reaches(step, s, n));
    walk::lemma_reaches_trans(step, n, s, b);
    walk::lemma_reaches_trans(step, s, n, a);
    assert(a <= b && b <= a);
}

proof fn lemma_nothing_read<N: ToNodeDsp>(g: Graph<N, Edge>)
    requires
        uncut(g),
    ensures
        forall|r: usize, w: usize| !#[trigger] region::reads_from(g)(r, w),
        forall|r: usize, x: (usize, usize)| !#[trigger] region::foreign(g, r, (None, x)),
{
    assert forall|r: usize, w: usize| !#[trigger] region::reads_from(g)(r, w) by {
        if region::reads_from(g)(r, w) {
            let (n, k) = choose|n: usize, k: int|
                region::inner(g, n) && region::region_of(g, n) == Some(r) && 0 <= k
                    < region::arrives(g, n).len() && region::foreign(
                    g,
                    r,
                    #[trigger] region::arrives(g, n)[k],
                ) && region::region_of(g, region::arrives(g, n)[k].1.0) == Some(w);
            lemma_lower_plain(g, flow::flat(flow::sources(g)[n as int]));
            assert(region::arrives(g, n)[k].0 is None);
        }
    }
}

proof fn lemma_wanted<N: ToNodeDsp>(g: Graph<N, Edge>, c: usize)
    requires
        g.nodes@.len() <= usize::MAX,
        uncut(g),
        flow::sinks(g).len() > 0,
    ensures
        region::wanted(g, c) == (c == the_region(g)),
{
    let r = the_region(g);
    let step = region::reads_from(g);
    lemma_nothing_read(g);
    lemma_sink_reached(g, 0);
    lemma_one_region(g, flow::sinks(g)[0]);
    walk::lemma_reaches_self(step, r);
    if c == r {
        assert(region::region_of(g, flow::sinks(g)[0]) is Some);
        assert(region::wanted(g, c));
    }
    if region::wanted(g, c) {
        let k = choose|k: int|
            0 <= k < flow::sinks(g).len() && region::region_of(g, #[trigger] flow::sinks(g)[k]) is Some
                && walk::reaches(step, region::region_of(g, flow::sinks(g)[k])->0, c);
        lemma_sink_reached(g, k);
        lemma_one_region(g, flow::sinks(g)[k]);
        let s = |x: usize| x == r;
        walk::lemma_closed(step, s, r, c);
    }
}

proof fn lemma_nothing_written<N: ToNodeDsp>(g: Graph<N, Edge>, r: usize, n: nat)
    requires
        uncut(g),
    ensures
        regions::writes_upto(g, r, n).len() == 0,
    decreases n,
{
    if n > 0 {
        lemma_nothing_written(g, r, (n - 1) as nat);
        assert(!flow::cuts(g, n - 1));
    }
}

proof fn lemma_all_within<N: ToNodeDsp>(g: Graph<N, Edge>, s: Seq<usize>)
    requires
        g.nodes@.len() <= usize::MAX,
        uncut(g),
        flow::sinks(g).len() > 0,
        forall|k: int| 0 <= k < s.len() ==> region::reached(g, #[trigger] s[k]),
    ensures
        regions::within(g, the_region(g), s) == s,
    decreases s.len(),
{
    if s.len() > 0 {
        let init = s.drop_last();
        assert forall|k: int| 0 <= k < init.len() implies region::reached(g, #[trigger] init[k]) by {
            assert(init[k] == s[k]);
        }
        lemma_all_within(g, init);
        assert(region::reached(g, s[s.len() - 1]));
        lemma_one_region(g, s.last());
        assert(init.push(s.last()) =~= s);
    } else {
        assert(regions::within(g, the_region(g), s) =~= s);
    }
}

proof fn lemma_deps<N: ToNodeDsp>(g: Graph<N, Edge>, n: usize)
    requires
        g.wf(),
        g.nodes@.len() <= usize::MAX,
        uncut(g),
        flow::sinks(g).len() > 0,
        region::reached(g, n),
    ensures
        regions::local_deps(g)[n as int] == flow::flow_deps(g)[n as int],
        forall|k: int|
            0 <= k < flow::flow_deps(g)[n as int].len() ==> region::reached(
                g,
                #[trigger] flow::flow_deps(g)[n as int][k],
            ),
{
    let f = flow::flat(flow::sources(g)[n as int]);
    let d = flow::flow_deps(g)[n as int];
    lemma_one_region(g, n);
    lemma_lower_plain(g, f);
    let items = region::arrives(g, n);
    let t = items.map_values(|x: (Option<RegionBus>, (usize, usize))| x.1.0);
    assert(t =~= d) by {
        assert forall|k: int| 0 <= k < t.len() implies t[k] == d[k] by {
            assert(items[k] == (None::<RegionBus>, f[k]));
        }
    }
    assert forall|k: int| 0 <= k < d.len() implies region::reached(g, #[trigger] d[k]) by {
        buses::lemma_reached_step(g, n, k);
        assert(d[k] == f[k].0);
    }
    lemma_all_within(g, d);
}

proof fn lemma_gather_plain<N: ToNodeDsp>(
    g: Graph<N, Edge>,
    r: usize,
    widths: Map<RegionBus, usize>,
    st: RegionState,
    s: Seq<(usize, usize)>,
)
    requires
        uncut(g),
    ensures
        regions::gather(g, r, widths, st, region::lower_all(g, s)) == (
            st,
            compile::gather(st.outs, s),
        ),
    decreases s.len(),
{
    let items = region::lower_all(g, s);
    lemma_lower_plain(g, s);
    if s.len() > 0 {
        let init = s.drop_last();
        lemma_lower_plain(g, init);
        assert(items.drop_last() =~= region::lower_all(g, init));
        lemma_gather_plain(g, r, widths, st, init);
        assert(items.last() == (None::<RegionBus>, s.last())) by {
            assert(items[s.len() - 1] == (None::<RegionBus>, s[s.len() - 1]));
        }
    }
}

proof fn lemma_inputs_plain<N: ToNodeDsp>(
    g: Graph<N, Edge>,
    r: usize,
    widths: Map<RegionBus, usize>,
    st: RegionState,
    ins: Seq<Seq<(usize, usize)>>,
)
    requires
        uncut(g),
    ensures
        regions::region_inputs(g, r, widths, st, ins) == (
            (RegionState { b: compile::emit_inputs(st.b, st.outs, ins).0, ..st }),
            compile::emit_inputs(st.b, st.outs, ins).1,
        ),
    decreases ins.len(),
{
    if ins.len() > 0 {
        lemma_inputs_plain(g, r, widths, st, ins.drop_last());
        let st1 = regions::region_inputs(g, r, widths, st, ins.drop_last()).0;
        lemma_gather_plain(g, r, widths, st1, ins.last());
    }
}

proof fn lemma_emit_plain<N: ToNodeDsp>(
    g: Graph<N, Edge>,
    r: usize,
    widths: Map<RegionBus, usize>,
    s: Seq<usize>,
    out_channels: nat,
)
    requires
        uncut(g),
    ensures
        ({
            let st = regions::emit_region(g, r, widths, s, out_channels);
            &&& (st.b, st.outs) == compile::emit_order(g, s, BuilderView::empty(out_channels))
            &&& st.reads.len() == 0
        }),
    decreases s.len(),
{
    if s.len() > 0 {
        lemma_emit_plain(g, r, widths, s.drop_last(), out_channels);
        let st = regions::emit_region(g, r, widths, s.drop_last(), out_channels);
        let n = s.last();
        lemma_inputs_plain(g, r, widths, st, flow::sources(g)[n as int]);
    }
}

proof fn lemma_plan<N: ToNodeDsp>(g: Graph<N, Edge>, plan: Seq<usize>)
    requires
        g.nodes@.len() <= usize::MAX,
        uncut(g),
        flow::sinks(g).len() > 0,
        regions::region_schedule(g, plan),
    ensures
        plan == seq![the_region(g)],
{
    let r = the_region(g);
    schedule::lemma_ordered(g, plan);
    lemma_wanted(g, r);
    assert(plan.contains(r));
    assert forall|k: int| 0 <= k < plan.len() implies #[trigger] plan[k] == r by {
        assert(region::ready(g, plan.take(k), plan[k]));
        lemma_wanted(g, plan[k]);
    }
    if plan.len() > 1 {
        assert(plan[0] == plan[1]);
    }
    assert(plan =~= seq![r]);
}

/// The nodes are walked in the order of the whole.
proof fn lemma_order_plain<N: ToNodeDsp>(g: Graph<N, Edge>)
    requires
        g.wf(),
        g.nodes@.len() <= usize::MAX,
        uncut(g),
        flow::sinks(g).len() > 0,
    ensures
        topo::post_order_of(regions::local_deps(g), regions::region_seeds(g, the_region(g)))
            == topo::post_order_of(flow::flow_deps(g), flow::sinks(g)),
{
    let r = the_region(g);
    let sinks = flow::sinks(g);
    assert forall|k: int| 0 <= k < sinks.len() implies region::reached(g, #[trigger] sinks[k]) by {
        lemma_sink_reached(g, k);
    }
    lemma_all_within(g, sinks);
    lemma_nothing_written(g, r, g.nodes@.len());
    let seeds = regions::region_seeds(g, r);
    assert(seeds =~= sinks);
    let d = flow::flow_deps(g);
    let e = regions::local_deps(g);
    let inside = |m: usize| region::reached(g, m);
    assert forall|m: usize| #[trigger] inside(m) && m < d.len() implies d[m as int] == e[m as int] by {
        lemma_deps(g, m);
    }
    assert forall|m: usize, k: int|
        inside(m) && m < d.len() && 0 <= k < d[m as int].len() implies inside(
        #[trigger] d[m as int][k],
    ) by {
        lemma_deps(g, m);
    }
    assert forall|k: int| 0 <= k < sinks.len() implies inside(#[trigger] sinks[k]) by {
        assert(region::reached(g, sinks[k]));
    }
    let start = topo::Walked { seen: Seq::new(d.len(), |i: int| false), order: Seq::empty() };
    locality::lemma_visited_all_local(d, e, inside, d.len() + 1, sinks, start);
}

proof fn lemma_one_plain<N: ToNodeDsp>(
    g: Graph<N, Edge>,
    r: usize,
    widths: Map<RegionBus, usize>,
    s: Seq<usize>,
    out_channels: nat,
    prefix: Seq<char>,
)
    requires
        uncut(g),
    ensures
        ({
            let one = regions::one_region(g, r, widths, s, out_channels, prefix).0;
            &&& one.bus_writes.len() == 0
            &&& one.bus_reads.len() == 0
            &&& one.derived == dsp::finished(
                compile::emit_order(g, s, BuilderView::empty(out_channels)).0,
                prefix + "-"@ + text::hex(one.key as nat, 16),
            )
        }),
{
    lemma_nothing_written(g, r, g.nodes@.len());
    lemma_emit_plain(g, r, widths, s, out_channels);
    assert(regions::region_writes(g, r).len() == 0);
}

/// A graph that has a sink, is connected and has no boundary is derived to one region
/// that writes and reads no bus. Its definition is the one derived of the whole, with the
/// same units, params and bindings, under the name that the region's key gives.
pub proof fn law_uncut_graph_is_one_region<N: ToNodeDsp>(
    g: Graph<N, Edge>,
    out_channels: nat,
    prefix: Seq<char>,
    derived: Seq<RegionView>,
)
    requires
        g.wf(),
        g.nodes@.len() <= usize::MAX,
        uncut(g),
        flow::sinks(g).len() > 0,
        regions::derives_regions(g, out_channels, prefix, derived),
    ensures
        derived.len() == 1,
        derived[0].bus_writes.len() == 0,
        derived[0].bus_reads.len() == 0,
        derived[0].derived == compile::definition(
            g,
            out_channels,
            prefix + "-"@ + text::hex(derived[0].key as nat, 16),
        ),
{
    let (plan, orders) = choose|plan: Seq<usize>, orders: Seq<Seq<usize>>| #[trigger]
        regions::region_schedule(g, plan) && #[trigger] regions::region_orders(g, plan, orders)
            && derived == regions::all_regions(g, plan, orders, out_channels, prefix).0;
    let r = the_region(g);
    lemma_plan(g, plan);
    lemma_order_plain(g);
    assert(orders[0] == topo::post_order_of(
        regions::local_deps(g),
        regions::region_seeds(g, plan[0]),
    ));
    let none = Map::<RegionBus, usize>::empty();
    let (first, known) = regions::all_regions(
        g,
        plan.drop_last(),
        orders.drop_last(),
        out_channels,
        prefix,
    );
    assert(plan.drop_last().len() == 0);
    assert(first == Seq::<RegionView>::empty() && known == none);
    assert(plan.last() == r && orders.last() == orders[0]);
    let one = regions::one_region(g, r, none, orders[0], out_channels, prefix).0;
    assert(derived == first.push(one));
    lemma_one_plain(g, r, none, orders[0], out_channels, prefix);
}

/// A graph that has no boundary has no cycle of buses: if it has a sink, it is derived.
pub proof fn law_uncut_graph_has_no_bus_cycle<N: ToNodeDsp>(g: Graph<N, Edge>)
    requires
        uncut(g),
    ensures
        region::no_bus_cycle(g),
{
    lemma_nothing_read(g);
    let rank = |r: usize| 0nat;
    assert(region::bus_ranked(g, rank));
}

} // verus!
