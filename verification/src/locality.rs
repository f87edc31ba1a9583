//! A region's definition depends on the region alone.
//!
//! An edit elsewhere in a graph leaves the definition of a region as it is, as long as
//! the region's own nodes and wiring stay, and the buses it reads stay as wide. A synth
//! that runs that definition need not be replaced.

use crate::compile;
use crate::edge::Edge;
use crate::flow;
use crate::graph::Graph;
use crate::node::ToNodeDsp;
use crate::region::{self, RegionBus};
use crate::regions::{self, RegionView};
use crate::topo;
use vstd::prelude::*;

verus! {

/// Whether node `n` is in region `r`.
pub open spec fn belongs<N: ToNodeDsp>(g: Graph<N, Edge>, r: usize, n: usize) -> bool {
    region::region_of(g, n) == Some(r)
}

/// Where the signals at the inputs of a node come from.
pub open spec fn wiring<N: ToNodeDsp>(g: Graph<N, Edge>, n: usize) -> Seq<
    Seq<(Option<RegionBus>, (usize, usize))>,
> {
    flow::sources(g)[n as int].map_values(|s: Seq<(usize, usize)>| region::lower_all(g, s))
}

/// Whether region `r` is made of the same nodes, wired in the same way, in both graphs,
/// and has the same sinks and the same buses to write.
pub open spec fn same_region<N: ToNodeDsp>(g: Graph<N, Edge>, h: Graph<N, Edge>, r: usize) -> bool {
    &&& g.nodes@.len() == h.nodes@.len()
    &&& forall|n: int| #[trigger] flow::path_at(g, n) == flow::path_at(h, n)
    &&& forall|n: usize| #[trigger] belongs(g, r, n) == belongs(h, r, n)
    &&& forall|n: usize| #[trigger]
        belongs(g, r, n) ==> flow::dsp_at(g, n as int) == flow::dsp_at(h, n as int) && wiring(g, n)
            == wiring(h, n) && region::arrives(g, n) == region::arrives(h, n)
    &&& regions::region_writes(g, r) == regions::region_writes(h, r)
    &&& regions::within(g, r, flow::sinks(g)) == regions::within(h, r, flow::sinks(h))
}

/// Whether the buses that the given origins read are as wide by both accounts.
pub open spec fn widths_agree<N: ToNodeDsp>(
    g: Graph<N, Edge>,
    r: usize,
    items: Seq<(Option<RegionBus>, (usize, usize))>,
    v: Map<RegionBus, usize>,
    w: Map<RegionBus, usize>,
) -> bool {
    forall|k: int|
        0 <= k < items.len() && region::foreign(g, r, #[trigger] items[k]) ==> v.contains_key(
            items[k].0->0,
        ) == w.contains_key(items[k].0->0) && v[items[k].0->0] == w[items[k].0->0]
}

/// Whether the buses that region `r` reads are as wide by both accounts.
pub open spec fn same_widths<N: ToNodeDsp>(
    g: Graph<N, Edge>,
    r: usize,
    v: Map<RegionBus, usize>,
    w: Map<RegionBus, usize>,
) -> bool {
    forall|n: usize, i: int|
        belongs(g, r, n) && 0 <= i < flow::sources(g)[n as int].len() ==> widths_agree(
            g,
            r,
            #[trigger] wiring(g, n)[i],
            v,
            w,
        )
}

/// What deriving region `r` gives, its nodes in their order.
pub open spec fn region_definition<N: ToNodeDsp>(
    g: Graph<N, Edge>,
    r: usize,
    widths: Map<RegionBus, usize>,
    out_channels: nat,
    prefix: Seq<char>,
) -> RegionView {
    regions::one_region(
        g,
        r,
        widths,
        topo::post_order_of(regions::local_deps(g), regions::region_seeds(g, r)),
        out_channels,
        prefix,
    ).0
}

proof fn lemma_gather_local<N: ToNodeDsp>(
    g: Graph<N, Edge>,
    h: Graph<N, Edge>,
    r: usize,
    v: Map<RegionBus, usize>,
    w: Map<RegionBus, usize>,
    st: regions::RegionState,
    items: Seq<(Option<RegionBus>, (usize, usize))>,
)
    requires
        same_region(g, h, r),
        widths_agree(g, r, items, v, w),
    ensures
        regions::gather(g, r, v, st, items) == regions::gather(h, r, w, st, items),
    decreases items.len(),
{
    if items.len() > 0 {
        let init = items.drop_last();
        assert(widths_agree(g, r, init, v, w)) by {
            assert forall|k: int| 0 <= k < init.len() && region::foreign(
                g,
                r,
                #[trigger] init[k],
            ) implies v.contains_key(init[k].0->0) == w.contains_key(init[k].0->0) && v[init[k].0->0]
                == w[init[k].0->0] by {
                assert(init[k] == items[k]);
            }
        }
        lemma_gather_local(g, h, r, v, w, st, init);
        let x = items[items.len() - 1];
        assert(belongs(g, r, x.1.0) == belongs(h, r, x.1.0));
        assert(region::foreign(g, r, x) == region::foreign(h, r, x));
        if region::foreign(g, r, x) {
            lemma_bus_local(g, h, r, x.0->0);
        }
    }
}

proof fn lemma_bus_local<N: ToNodeDsp>(
    g: Graph<N, Edge>,
    h: Graph<N, Edge>,
    r: usize,
    bus: RegionBus,
)
    requires
        same_region(g, h, r),
    ensures
        regions::bus_at(g, bus) == regions::bus_at(h, bus),
{
    match bus {
        RegionBus::Bus(b) => assert(flow::path_at(g, b as int) == flow::path_at(h, b as int)),
        RegionBus::Src(s, _) => assert(flow::path_at(g, s as int) == flow::path_at(h, s as int)),
    }
}

proof fn lemma_inputs_local<N: ToNodeDsp>(
    g: Graph<N, Edge>,
    h: Graph<N, Edge>,
    r: usize,
    v: Map<RegionBus, usize>,
    w: Map<RegionBus, usize>,
    st: regions::RegionState,
    a: Seq<Seq<(usize, usize)>>,
    b: Seq<Seq<(usize, usize)>>,
)
    requires
        same_region(g, h, r),
        a.len() == b.len(),
        forall|i: int|
            0 <= i < a.len() ==> region::lower_all(g, #[trigger] a[i]) == region::lower_all(h, b[i])
                && widths_agree(g, r, region::lower_all(g, a[i]), v, w),
    ensures
        regions::region_inputs(g, r, v, st, a) == regions::region_inputs(h, r, w, st, b),
    decreases a.len(),
{
    if a.len() > 0 {
        let (x, y) = (a.drop_last(), b.drop_last());
        assert forall|i: int| 0 <= i < x.len() implies region::lower_all(g, #[trigger] x[i])
            == region::lower_all(h, y[i]) && widths_agree(g, r, region::lower_all(g, x[i]), v, w) by {
            assert(x[i] == a[i] && y[i] == b[i]);
        }
        lemma_inputs_local(g, h, r, v, w, st, x, y);
        let last = a.len() - 1;
        assert(region::lower_all(g, a[last]) == region::lower_all(h, b[last]));
        lemma_gather_local(
            g,
            h,
            r,
            v,
            w,
            regions::region_inputs(g, r, v, st, x).0,
            region::lower_all(g, a[last]),
        );
    }
}

proof fn lemma_emit_local<N: ToNodeDsp>(
    g: Graph<N, Edge>,
    h: Graph<N, Edge>,
    r: usize,
    v: Map<RegionBus, usize>,
    w: Map<RegionBus, usize>,
    order: Seq<usize>,
    out_channels: nat,
)
    requires
        same_region(g, h, r),
        same_widths(g, r, v, w),
        forall|k: int| 0 <= k < order.len() ==> belongs(g, r, #[trigger] order[k]),
    ensures
        regions::emit_region(g, r, v, order, out_channels) == regions::emit_region(
            h,
            r,
            w,
            order,
            out_channels,
        ),
    decreases order.len(),
{
    if order.len() > 0 {
        let init = order.drop_last();
        assert forall|k: int| 0 <= k < init.len() implies belongs(g, r, #[trigger] init[k]) by {
            assert(init[k] == order[k]);
        }
        lemma_emit_local(g, h, r, v, w, init, out_channels);
        let n = order[order.len() - 1];
        assert(belongs(g, r, n));
        assert(flow::path_at(g, n as int) == flow::path_at(h, n as int));
        let a = flow::sources(g)[n as int];
        let b = flow::sources(h)[n as int];
        assert(wiring(g, n).len() == a.len() && wiring(h, n).len() == b.len());
        assert forall|i: int| 0 <= i < a.len() implies region::lower_all(g, #[trigger] a[i])
            == region::lower_all(h, b[i]) && widths_agree(g, r, region::lower_all(g, a[i]), v, w) by {
            assert(wiring(g, n)[i] == region::lower_all(g, a[i]));
            assert(wiring(h, n)[i] == region::lower_all(h, b[i]));
        }
        lemma_inputs_local(
            g,
            h,
            r,
            v,
            w,
            regions::emit_region(g, r, v, init, out_channels),
            a,
            b,
        );
    }
}

/// What is written is the same wherever paths are; only the account of widths differs.
proof fn lemma_write_local<N: ToNodeDsp>(
    g: Graph<N, Edge>,
    h: Graph<N, Edge>,
    r: usize,
    outs: compile::Outputs,
    v: regions::WriteState,
    w: regions::WriteState,
    writes: Seq<(RegionBus, (usize, usize))>,
)
    requires
        same_region(g, h, r),
        v.b == w.b,
        v.fades == w.fades,
        v.written == w.written,
    ensures
        ({
            let x = regions::write_buses(g, outs, v, writes);
            let y = regions::write_buses(h, outs, w, writes);
            x.b == y.b && x.fades == y.fades && x.written == y.written
        }),
    decreases writes.len(),
{
    if writes.len() > 0 {
        lemma_write_local(g, h, r, outs, v, w, writes.drop_last());
        lemma_bus_local(g, h, r, writes.last().0);
    }
}

proof fn lemma_visited_local(
    d: Seq<Seq<usize>>,
    e: Seq<Seq<usize>>,
    inside: spec_fn(usize) -> bool,
    fuel: nat,
    n: usize,
    st: topo::Walked,
)
    requires
        d.len() == e.len(),
        forall|m: usize| #[trigger] inside(m) && m < d.len() ==> d[m as int] == e[m as int],
        forall|m: usize, k: int|
            inside(m) && m < d.len() && 0 <= k < d[m as int].len() ==> inside(
                #[trigger] d[m as int][k],
            ),
        inside(n),
    ensures
        topo::visited(d, fuel, n, st) == topo::visited(e, fuel, n, st),
    decreases fuel, 0nat,
{
    if fuel > 0 && n < d.len() && !st.seen[n as int] {
        lemma_visited_all_local(
            d,
            e,
            inside,
            (fuel - 1) as nat,
            d[n as int],
            topo::Walked { seen: st.seen.update(n as int, true), order: st.order },
        );
    }
}

/// Two walks along dependencies that are the same inside a set stay the same in it.
pub proof fn lemma_visited_all_local(
    d: Seq<Seq<usize>>,
    e: Seq<Seq<usize>>,
    inside: spec_fn(usize) -> bool,
    fuel: nat,
    list: Seq<usize>,
    st: topo::Walked,
)
    requires
        d.len() == e.len(),
        forall|m: usize| #[trigger] inside(m) && m < d.len() ==> d[m as int] == e[m as int],
        forall|m: usize, k: int|
            inside(m) && m < d.len() && 0 <= k < d[m as int].len() ==> inside(
                #[trigger] d[m as int][k],
            ),
        forall|k: int| 0 <= k < list.len() ==> inside(#[trigger] list[k]),
    ensures
        topo::visited_all(d, fuel, list, st) == topo::visited_all(e, fuel, list, st),
    decreases fuel, list.len(),
{
    if list.len() > 0 {
        let init = list.drop_last();
        assert forall|k: int| 0 <= k < init.len() implies inside(#[trigger] init[k]) by {
            assert(init[k] == list[k]);
        }
        lemma_visited_all_local(d, e, inside, fuel, init, st);
        assert(inside(list[list.len() - 1]));
        lemma_visited_local(
            d,
            e,
            inside,
            fuel,
            list.last(),
            topo::visited_all(d, fuel, init, st),
        );
    }
}

/// A walk that starts inside stays inside.
proof fn lemma_visited_inside(
    d: Seq<Seq<usize>>,
    inside: spec_fn(usize) -> bool,
    fuel: nat,
    n: usize,
    st: topo::Walked,
)
    requires
        forall|m: usize, k: int|
            inside(m) && m < d.len() && 0 <= k < d[m as int].len() ==> inside(
                #[trigger] d[m as int][k],
            ),
        inside(n),
        forall|k: int| 0 <= k < st.order.len() ==> inside(#[trigger] st.order[k]),
    ensures
        forall|k: int|
            0 <= k < topo::visited(d, fuel, n, st).order.len() ==> inside(
                #[trigger] topo::visited(d, fuel, n, st).order[k],
            ),
    decreases fuel, 0nat,
{
    if fuel > 0 && n < d.len() && !st.seen[n as int] {
        let marked = topo::Walked { seen: st.seen.update(n as int, true), order: st.order };
        lemma_visited_all_inside(d, inside, (fuel - 1) as nat, d[n as int], marked);
        let after = topo::visited_all(d, (fuel - 1) as nat, d[n as int], marked).order;
        let all = topo::visited(d, fuel, n, st).order;
        assert(all == after.push(n));
        assert forall|k: int| 0 <= k < all.len() implies inside(#[trigger] all[k]) by {
            if k < after.len() {
                assert(all[k] == after[k]);
            }
        }
    } else {
        assert(topo::visited(d, fuel, n, st) == st);
    }
}

/// A walk from inside a set that no dependency leads out of lists what is inside.
pub proof fn lemma_visited_all_inside(
    d: Seq<Seq<usize>>,
    inside: spec_fn(usize) -> bool,
    fuel: nat,
    list: Seq<usize>,
    st: topo::Walked,
)
    requires
        forall|m: usize, k: int|
            inside(m) && m < d.len() && 0 <= k < d[m as int].len() ==> inside(
                #[trigger] d[m as int][k],
            ),
        forall|k: int| 0 <= k < list.len() ==> inside(#[trigger] list[k]),
        forall|k: int| 0 <= k < st.order.len() ==> inside(#[trigger] st.order[k]),
    ensures
        forall|k: int|
            0 <= k < topo::visited_all(d, fuel, list, st).order.len() ==> inside(
                #[trigger] topo::visited_all(d, fuel, list, st).order[k],
            ),
    decreases fuel, list.len(),
{
    if list.len() > 0 {
        let init = list.drop_last();
        assert forall|k: int| 0 <= k < init.len() implies inside(#[trigger] init[k]) by {
            assert(init[k] == list[k]);
        }
        lemma_visited_all_inside(d, inside, fuel, init, st);
        assert(inside(list[list.len() - 1]));
        lemma_visited_inside(
            d,
            inside,
            fuel,
            list.last(),
            topo::visited_all(d, fuel, init, st),
        );
        assert(topo::visited_all(d, fuel, list, st) == topo::visited(
            d,
            fuel,
            list.last(),
            topo::visited_all(d, fuel, init, st),
        ));
    } else {
        assert(topo::visited_all(d, fuel, list, st) == st);
    }
}

proof fn lemma_within_local<N: ToNodeDsp>(
    g: Graph<N, Edge>,
    h: Graph<N, Edge>,
    r: usize,
    s: Seq<usize>,
)
    requires
        same_region(g, h, r),
    ensures
        regions::within(g, r, s) == regions::within(h, r, s),
    decreases s.len(),
{
    if s.len() > 0 {
        lemma_within_local(g, h, r, s.drop_last());
        assert(belongs(g, r, s.last()) == belongs(h, r, s.last()));
    }
}

/// The order in which a region's nodes emit is the region's own.
pub proof fn lemma_order_local<N: ToNodeDsp>(g: Graph<N, Edge>, h: Graph<N, Edge>, r: usize)
    requires
        same_region(g, h, r),
        g.nodes@.len() <= usize::MAX,
    ensures
        regions::region_seeds(g, r) == regions::region_seeds(h, r),
        topo::post_order_of(regions::local_deps(g), regions::region_seeds(g, r))
            == topo::post_order_of(regions::local_deps(h), regions::region_seeds(h, r)),
        forall|k: int|
            0 <= k < topo::post_order_of(
                regions::local_deps(g),
                regions::region_seeds(g, r),
            ).len() ==> belongs(
                g,
                r,
                #[trigger] topo::post_order_of(
                    regions::local_deps(g),
                    regions::region_seeds(g, r),
                )[k],
            ),
{
    let d = regions::local_deps(g);
    let e = regions::local_deps(h);
    let inside = |m: usize| belongs(g, r, m);
    let seeds = regions::region_seeds(g, r);
    let f = |x: (Option<RegionBus>, (usize, usize))| x.1.0;
    assert forall|m: usize| #[trigger] inside(m) && m < d.len() implies d[m as int] == e[m as int] by {
        assert(belongs(g, r, m) && belongs(h, r, m));
        assert(d[m as int] == regions::local_sources(g, r, region::arrives(g, m)));
        assert(e[m as int] == regions::local_sources(h, r, region::arrives(h, m)));
        lemma_within_local(g, h, r, region::arrives(g, m).map_values(f));
    }
    assert forall|m: usize, k: int|
        belongs(g, r, m) && m < d.len() && 0 <= k < d[m as int].len() implies belongs(
        g,
        r,
        #[trigger] d[m as int][k],
    ) by {
        assert(d[m as int] == regions::local_sources(g, r, region::arrives(g, m)));
        regions::lemma_within(g, r, region::arrives(g, m).map_values(f));
    }
    regions::lemma_within(g, r, flow::sinks(g));
    regions::lemma_region_writes(g, r, g.nodes@.len());
    let own = regions::within(g, r, flow::sinks(g));
    let w = regions::region_writes(g, r);
    assert forall|k: int| 0 <= k < seeds.len() implies belongs(g, r, #[trigger] seeds[k]) by {
        if k < own.len() {
            assert(seeds[k] == own[k]);
        } else {
            assert(seeds[k] == w[k - own.len()].1.0);
        }
    }
    assert(seeds =~= regions::region_seeds(h, r));
    assert forall|k: int| 0 <= k < seeds.len() implies inside(#[trigger] seeds[k]) by {
        assert(belongs(g, r, seeds[k]));
    }
    assert forall|m: usize, k: int|
        inside(m) && m < d.len() && 0 <= k < d[m as int].len() implies inside(
        #[trigger] d[m as int][k],
    ) by {
        assert(belongs(g, r, d[m as int][k]));
    }
    let start = topo::Walked {
        seen: Seq::new(d.len(), |i: int| false),
        order: Seq::empty(),
    };
    lemma_visited_all_local(
        d,
        e,
        inside,
        (d.len() + 1) as nat,
        seeds,
        start,
    );
    lemma_visited_all_inside(d, inside, (d.len() + 1) as nat, seeds, start);
    let order = topo::post_order_of(d, seeds);
    assert forall|k: int| 0 <= k < order.len() implies belongs(g, r, #[trigger] order[k]) by {
        assert(inside(order[k]));
    }
}

/// A region's definition, its bindings and its key depend on the region alone: they are
/// the same in any graph in which the region is, as long as the buses that it reads are
/// as wide.
pub proof fn law_region_depends_on_itself_alone<N: ToNodeDsp>(
    g: Graph<N, Edge>,
    h: Graph<N, Edge>,
    r: usize,
    v: Map<RegionBus, usize>,
    w: Map<RegionBus, usize>,
    out_channels: nat,
    prefix: Seq<char>,
)
    requires
        same_region(g, h, r),
        same_widths(g, r, v, w),
        g.nodes@.len() <= usize::MAX,
    ensures
        region_definition(g, r, v, out_channels, prefix) == region_definition(
            h,
            r,
            w,
            out_channels,
            prefix,
        ),
{
    lemma_order_local(g, h, r);
    let d = regions::local_deps(g);
    let seeds = regions::region_seeds(g, r);
    let order = topo::post_order_of(d, seeds);
    lemma_emit_local(g, h, r, v, w, order, out_channels);
    let st = regions::emit_region(g, r, v, order, out_channels);
    lemma_write_local(
        g,
        h,
        r,
        st.outs,
        regions::WriteState { b: st.b, fades: Map::empty(), widths: v, written: Seq::empty() },
        regions::WriteState { b: st.b, fades: Map::empty(), widths: w, written: Seq::empty() },
        regions::region_writes(g, r),
    );
    let own = regions::within(g, r, flow::sinks(g));
    assert(regions::paths_of(g, own) =~= regions::paths_of(h, own)) by {
        assert forall|k: int| 0 <= k < own.len() implies flow::path_at(g, #[trigger] own[k] as int)
            == flow::path_at(h, own[k] as int) by {}
    }
}

} // verus!
