//! What holds of the buses between the regions of a cut graph: each that is read has one
//! writer, which comes first and is as wide.

use crate::compile::Outputs;
use crate::edge::Edge;
use crate::flow;
use crate::graph::Graph;
use crate::locality;
use crate::node::{NodeDsp, ToNodeDsp};
use crate::order;
use crate::region::{self, RegionBus};
use crate::regions::{self, BusView, RegionState, RegionView, WriteState};
use crate::schedule;
use crate::topo;
use crate::walk;
use vstd::prelude::*;

verus! {

/// Whether no two nodes have the same path.
pub open spec fn distinct_paths<N: ToNodeDsp>(g: Graph<N, Edge>) -> bool {
    forall|a: int, b: int|
        g.has(a) && g.has(b) && #[trigger] flow::path_at(g, a) == #[trigger] flow::path_at(g, b)
            ==> a == b
}

/// Whether two bindings are to the same bus.
pub open spec fn same_bus(a: BusView, b: BusView) -> bool {
    a.node_path == b.node_path && a.output == b.output
}

/// Whether write `l` of region `j` is to the bus that `read` is of.
pub open spec fn writes_it(regions: Seq<RegionView>, read: BusView, j: int, l: int) -> bool {
    &&& 0 <= j < regions.len()
    &&& 0 <= l < regions[j].bus_writes.len()
    &&& same_bus(regions[j].bus_writes[l], read)
}

/// The width that a bus is read at.
spec fn width(widths: Map<RegionBus, usize>, bus: RegionBus) -> usize {
    if widths.contains_key(bus) {
        widths[bus]
    } else {
        1
    }
}

/// Whether a bus is known to be as wide after as before.
spec fn as_wide(
    before: Map<RegionBus, usize>,
    after: Map<RegionBus, usize>,
    bus: RegionBus,
) -> bool {
    after.contains_key(bus) == before.contains_key(bus) && after[bus] == before[bus]
}

/// Whether a binding is to `bus`.
spec fn binds<N: ToNodeDsp>(g: Graph<N, Edge>, b: BusView, bus: RegionBus) -> bool {
    b.node_path == regions::bus_at(g, bus).0 && b.output == regions::bus_at(g, bus).2
}

/// Whether a region has read just the listed buses, each once and as wide as it is, and
/// each of another region.
spec fn has_read<N: ToNodeDsp>(
    g: Graph<N, Edge>,
    r: usize,
    widths: Map<RegionBus, usize>,
    st: RegionState,
    bs: Seq<RegionBus>,
) -> bool {
    &&& bs.len() == st.reads.len()
    &&& bs.no_duplicates()
    &&& forall|bus: RegionBus| #[trigger] st.ins.contains_key(bus) <==> bs.contains(bus)
    &&& forall|k: int|
        0 <= k < bs.len() ==> region::crosses(g, r, #[trigger] bs[k]) && binds(
            g,
            st.reads[k],
            bs[k],
        ) && st.reads[k].channels == width(widths, bs[k])
}

/// Whether every bus that the given origins read of another region is one that region `r`
/// reads.
spec fn origins_cross<N: ToNodeDsp>(
    g: Graph<N, Edge>,
    r: usize,
    items: Seq<(Option<RegionBus>, (usize, usize))>,
) -> bool {
    forall|k: int|
        0 <= k < items.len() && region::foreign(g, r, #[trigger] items[k]) ==> region::crosses(
            g,
            r,
            items[k].0->0,
        )
}

proof fn lemma_gather_reads<N: ToNodeDsp>(
    g: Graph<N, Edge>,
    r: usize,
    widths: Map<RegionBus, usize>,
    st: RegionState,
    items: Seq<(Option<RegionBus>, (usize, usize))>,
    bs: Seq<RegionBus>,
) -> (out: Seq<RegionBus>)
    requires
        has_read(g, r, widths, st, bs),
        origins_cross(g, r, items),
    ensures
        has_read(g, r, widths, regions::gather(g, r, widths, st, items).0, out),
    decreases items.len(),
{
    if items.len() == 0 {
        bs
    } else {
        let init = items.drop_last();
        assert(origins_cross(g, r, init)) by {
            assert forall|k: int|
                0 <= k < init.len() && region::foreign(g, r, #[trigger] init[k]) implies region::crosses(
                g,
                r,
                init[k].0->0,
            ) by {
                assert(init[k] == items[k]);
            }
        }
        let mid = lemma_gather_reads(g, r, widths, st, init, bs);
        let st1 = regions::gather(g, r, widths, st, init).0;
        let x = items.last();
        if region::foreign(g, r, x) {
            let bus = x.0->0;
            assert(region::crosses(g, r, items[items.len() - 1].0->0));
            if st1.ins.contains_key(bus) {
                mid
            } else {
                let st2 = regions::read_bus(g, widths, st1, bus).0;
                let out = mid.push(bus);
                assert(!mid.contains(bus));
                assert forall|b: RegionBus| #[trigger] st2.ins.contains_key(b) <==> out.contains(b) by {
                    assert(st1.ins.contains_key(b) <==> mid.contains(b));
                    assert(out[mid.len() as int] == bus);
                    if mid.contains(b) {
                        let k = choose|k: int| 0 <= k < mid.len() && mid[k] == b;
                        assert(out[k] == b);
                    }
                    if out.contains(b) && b != bus {
                        let k = choose|k: int| 0 <= k < out.len() && out[k] == b;
                        assert(mid[k] == b);
                    }
                }
                assert forall|k: int| 0 <= k < out.len() implies region::crosses(
                    g,
                    r,
                    #[trigger] out[k],
                ) && binds(g, st2.reads[k], out[k]) && st2.reads[k].channels == width(
                    widths,
                    out[k],
                ) by {
                    if k < mid.len() {
                        assert(out[k] == mid[k]);
                        assert(st2.reads[k] == st1.reads[k]);
                    }
                }
                out
            }
        } else {
            mid
        }
    }
}

proof fn lemma_inputs_reads<N: ToNodeDsp>(
    g: Graph<N, Edge>,
    r: usize,
    widths: Map<RegionBus, usize>,
    st: RegionState,
    ins: Seq<Seq<(usize, usize)>>,
    bs: Seq<RegionBus>,
) -> (out: Seq<RegionBus>)
    requires
        has_read(g, r, widths, st, bs),
        forall|i: int|
            0 <= i < ins.len() ==> origins_cross(g, r, region::lower_all(g, #[trigger] ins[i])),
    ensures
        has_read(g, r, widths, regions::region_inputs(g, r, widths, st, ins).0, out),
    decreases ins.len(),
{
    if ins.len() == 0 {
        bs
    } else {
        let init = ins.drop_last();
        assert forall|i: int| 0 <= i < init.len() implies origins_cross(
            g,
            r,
            region::lower_all(g, #[trigger] init[i]),
        ) by {
            assert(init[i] == ins[i]);
        }
        let mid = lemma_inputs_reads(g, r, widths, st, init, bs);
        let st1 = regions::region_inputs(g, r, widths, st, init).0;
        assert(origins_cross(g, r, region::lower_all(g, ins[ins.len() - 1])));
        let out = lemma_gather_reads(
            g,
            r,
            widths,
            st1,
            region::lower_all(g, ins.last()),
            mid,
        );
        let st2 = regions::gather(g, r, widths, st1, region::lower_all(g, ins.last())).0;
        let st3 = regions::region_inputs(g, r, widths, st, ins).0;
        assert(st3.reads == st2.reads && st3.ins == st2.ins);
        out
    }
}

/// Each origin is that of one of the summands.
proof fn lemma_lower_from<N: ToNodeDsp>(g: Graph<N, Edge>, s: Seq<(usize, usize)>, k: int)
    requires
        0 <= k < region::lower_all(g, s).len(),
    ensures
        exists|j: int, q: int|
            0 <= j < s.len() && 0 <= q < region::lower(g, s[j]).len() && #[trigger] region::lower(
                g,
                s[j],
            )[q] == region::lower_all(g, s)[k],
    decreases s.len(),
{
    if s.len() > 0 {
        let init = s.drop_last();
        let before = region::lower_all(g, init);
        if k < before.len() {
            lemma_lower_from(g, init, k);
            let (j, q) = choose|j: int, q: int|
                0 <= j < init.len() && 0 <= q < region::lower(g, init[j]).len()
                    && #[trigger] region::lower(g, init[j])[q] == before[k];
            assert(s[j] == init[j]);
            assert(region::lower(g, s[j])[q] == region::lower_all(g, s)[k]);
        } else {
            let j = s.len() - 1;
            assert(region::lower(g, s[j])[k - before.len()] == region::lower_all(g, s)[k]);
        }
    }
}

/// The origins of each summand are among those of all.
proof fn lemma_lower_contains<N: ToNodeDsp>(
    g: Graph<N, Edge>,
    s: Seq<(usize, usize)>,
    j: int,
    q: int,
)
    requires
        0 <= j < s.len(),
        0 <= q < region::lower(g, s[j]).len(),
    ensures
        region::lower_all(g, s).contains(region::lower(g, s[j])[q]),
    decreases s.len(),
{
    let init = s.drop_last();
    let before = region::lower_all(g, init);
    let all = region::lower_all(g, s);
    if j == s.len() - 1 {
        assert(all[before.len() + q] == region::lower(g, s[j])[q]);
    } else {
        assert(init[j] == s[j]);
        lemma_lower_contains(g, init, j, q);
        let k = choose|k: int| 0 <= k < before.len() && before[k] == region::lower(g, s[j])[q];
        assert(all[k] == region::lower(g, s[j])[q]);
    }
}

/// What a node of a region reads of other regions, the region reads.
proof fn lemma_node_crosses<N: ToNodeDsp>(g: Graph<N, Edge>, r: usize, n: usize, i: int)
    requires
        locality::belongs(g, r, n),
        0 <= i < flow::sources(g)[n as int].len(),
    ensures
        origins_cross(g, r, region::lower_all(g, flow::sources(g)[n as int][i])),
{
    let ins = flow::sources(g)[n as int];
    let s = ins[i];
    let items = region::lower_all(g, s);
    assert forall|k: int|
        0 <= k < items.len() && region::foreign(g, r, #[trigger] items[k]) implies region::crosses(
        g,
        r,
        items[k].0->0,
    ) by {
        lemma_lower_from(g, s, k);
        let (j, q) = choose|j: int, q: int|
            0 <= j < s.len() && 0 <= q < region::lower(g, s[j]).len() && #[trigger] region::lower(
                g,
                s[j],
            )[q] == items[k];
        flow::lemma_flat_contains(ins, i, j);
        let f = flow::flat(ins);
        let p = choose|p: int| 0 <= p < f.len() && f[p] == ins[i][j];
        lemma_lower_contains(g, f, p, q);
        let all = region::arrives(g, n);
        let m = choose|m: int| 0 <= m < all.len() && all[m] == items[k];
        assert(region::foreign(g, r, region::arrives(g, n)[m]));
    }
}

proof fn lemma_emit_reads<N: ToNodeDsp>(
    g: Graph<N, Edge>,
    r: usize,
    widths: Map<RegionBus, usize>,
    s: Seq<usize>,
    out_channels: nat,
) -> (out: Seq<RegionBus>)
    requires
        forall|k: int| 0 <= k < s.len() ==> locality::belongs(g, r, #[trigger] s[k]),
    ensures
        has_read(g, r, widths, regions::emit_region(g, r, widths, s, out_channels), out),
    decreases s.len(),
{
    if s.len() == 0 {
        Seq::empty()
    } else {
        let init = s.drop_last();
        assert forall|k: int| 0 <= k < init.len() implies locality::belongs(
            g,
            r,
            #[trigger] init[k],
        ) by {
            assert(init[k] == s[k]);
        }
        let mid = lemma_emit_reads(g, r, widths, init, out_channels);
        let n = s[s.len() - 1];
        assert(locality::belongs(g, r, n));
        let st = regions::emit_region(g, r, widths, init, out_channels);
        if flow::dsp_at(g, n as int) is Some {
            let ins = flow::sources(g)[n as int];
            assert forall|i: int| 0 <= i < ins.len() implies origins_cross(
                g,
                r,
                region::lower_all(g, #[trigger] ins[i]),
            ) by {
                lemma_node_crosses(g, r, n, i);
            }
            let out = lemma_inputs_reads(g, r, widths, st, ins, mid);
            let st1 = regions::region_inputs(g, r, widths, st, ins).0;
            let st2 = regions::emit_region(g, r, widths, s, out_channels);
            assert(st2.reads == st1.reads && st2.ins == st1.ins);
            out
        } else {
            mid
        }
    }
}

/// Whether no bus is among the writes twice.
spec fn distinct_writes(w: Seq<(RegionBus, (usize, usize))>) -> bool {
    forall|i: int, j: int| 0 <= i < j < w.len() ==> (#[trigger] w[i]).0 != (#[trigger] w[j]).0
}

proof fn lemma_writes<N: ToNodeDsp>(
    g: Graph<N, Edge>,
    outs: Outputs,
    ws: WriteState,
    writes: Seq<(RegionBus, (usize, usize))>,
)
    requires
        distinct_writes(writes),
    ensures
        ({
            let after = regions::write_buses(g, outs, ws, writes);
            &&& after.written.len() == ws.written.len() + writes.len()
            &&& forall|k: int|
                0 <= k < writes.len() ==> binds(
                    g,
                    after.written[ws.written.len() + k],
                    (#[trigger] writes[k]).0,
                ) && after.widths.contains_key(writes[k].0) && after.widths[writes[k].0]
                    == after.written[ws.written.len() + k].channels
            &&& forall|bus: RegionBus|
                !regions::writes_bus(writes, bus) ==> #[trigger] as_wide(
                    ws.widths,
                    after.widths,
                    bus,
                )
        }),
    decreases writes.len(),
{
    if writes.len() > 0 {
        let init = writes.drop_last();
        let base = ws.written.len();
        assert(distinct_writes(init)) by {
            assert forall|i: int, j: int| 0 <= i < j < init.len() implies (#[trigger] init[i]).0 != (
            #[trigger] init[j]).0 by {
                assert(init[i] == writes[i] && init[j] == writes[j]);
            }
        }
        lemma_writes(g, outs, ws, init);
        let mid = regions::write_buses(g, outs, ws, init);
        let after = regions::write_buses(g, outs, ws, writes);
        let last = writes.len() - 1;
        let bus = writes[last].0;
        assert(writes.last() == writes[last]);
        assert(after == regions::write_bus(g, outs, mid, writes[last]));
        assert(after.written.len() == base + writes.len());
        assert forall|k: int| 0 <= k < writes.len() implies binds(
            g,
            after.written[base + k],
            (#[trigger] writes[k]).0,
        ) && after.widths.contains_key(writes[k].0) && after.widths[writes[k].0]
            == after.written[base + k].channels by {
            if k < last {
                assert(init[k] == writes[k]);
                assert(after.written[base + k] == mid.written[base + k]);
                assert(writes[k].0 != writes[last].0);
            } else {
                assert(after.written[base + k] == after.written.last());
            }
        }
        assert forall|b: RegionBus| !regions::writes_bus(writes, b) implies #[trigger] as_wide(
            ws.widths,
            after.widths,
            b,
        ) by {
            assert(writes[last].0 != b);
            assert(!regions::writes_bus(init, b)) by {
                if regions::writes_bus(init, b) {
                    let i = choose|i: int| 0 <= i < init.len() && (#[trigger] init[i]).0 == b;
                    assert(writes[i].0 == b);
                }
            }
            assert(as_wide(ws.widths, mid.widths, b));
        }
    }
}

/// Whether an entry is among the buses of a boundary that feeds a sink.
spec fn lowers<N: ToNodeDsp>(
    g: Graph<N, Edge>,
    m: usize,
    q: int,
    x: (RegionBus, (usize, usize)),
) -> bool {
    &&& region::reached(g, m)
    &&& flow::cuts(g, m as int)
    &&& 0 <= q < region::buses_at(g, m).len()
    &&& region::buses_at(g, m)[q] == x
}

spec fn lowered<N: ToNodeDsp>(g: Graph<N, Edge>, x: (RegionBus, (usize, usize))) -> bool {
    exists|m: usize, q: int| #[trigger] lowers(g, m, q, x)
}

proof fn lemma_add_writes<N: ToNodeDsp>(
    g: Graph<N, Edge>,
    r: usize,
    acc: Seq<(RegionBus, (usize, usize))>,
    more: Seq<(RegionBus, (usize, usize))>,
)
    requires
        distinct_writes(acc),
    ensures
        ({
            let all = regions::add_writes(g, r, acc, more);
            &&& distinct_writes(all)
            &&& acc.len() <= all.len()
            &&& forall|k: int| 0 <= k < acc.len() ==> #[trigger] all[k] == acc[k]
            &&& forall|k: int|
                acc.len() <= k < all.len() ==> more.contains(#[trigger] all[k])
            &&& forall|q: int|
                0 <= q < more.len() && region::region_of(g, (#[trigger] more[q]).1.0) == Some(r)
                    && regions::read_elsewhere(g, more[q].0) ==> regions::writes_bus(
                    all,
                    more[q].0,
                )
        }),
    decreases more.len(),
{
    if more.len() > 0 {
        let init = more.drop_last();
        lemma_add_writes(g, r, acc, init);
        let before = regions::add_writes(g, r, acc, init);
        let all = regions::add_writes(g, r, acc, more);
        let (bus, src) = more.last();
        assert forall|i: int, j: int| 0 <= i < j < all.len() implies (#[trigger] all[i]).0 != (
        #[trigger] all[j]).0 by {
            assert(all[i] == before[i]);
            if j < before.len() {
                assert(all[j] == before[j]);
            } else {
                assert(!regions::writes_bus(before, bus));
                assert(before[i].0 != bus);
            }
        }
        assert forall|k: int| acc.len() <= k < all.len() implies more.contains(#[trigger] all[k]) by {
            if k < before.len() {
                assert(all[k] == before[k]);
                assert(init.contains(before[k]));
                let i = choose|i: int| 0 <= i < init.len() && init[i] == before[k];
                assert(more[i] == all[k]);
            } else {
                assert(more[more.len() - 1] == all[k]);
            }
        }
        assert forall|q: int|
            0 <= q < more.len() && region::region_of(g, (#[trigger] more[q]).1.0) == Some(r)
                && regions::read_elsewhere(g, more[q].0) implies regions::writes_bus(
            all,
            more[q].0,
        ) by {
            if q < init.len() {
                assert(init[q] == more[q]);
                let i = choose|i: int| 0 <= i < before.len() && (#[trigger] before[i]).0 == more[q].0;
                assert(all[i] == before[i]);
            } else {
                if regions::writes_bus(before, bus) {
                    let i = choose|i: int| 0 <= i < before.len() && (#[trigger] before[i]).0 == bus;
                    assert(all[i].0 == bus);
                } else {
                    assert(all[before.len() as int].0 == bus);
                }
            }
        }
    }
}

proof fn lemma_region_buses<N: ToNodeDsp>(g: Graph<N, Edge>, r: usize, n: nat)
    requires
        n <= g.nodes@.len() <= usize::MAX,
    ensures
        ({
            let w = regions::writes_upto(g, r, n);
            &&& distinct_writes(w)
            &&& forall|k: int|
                0 <= k < w.len() ==> lowered(g, #[trigger] w[k])
            &&& forall|m: usize, q: int, x: (RegionBus, (usize, usize))|
                m < n && #[trigger] lowers(g, m, q, x) && region::region_of(g, x.1.0) == Some(r)
                    && regions::read_elsewhere(g, x.0) ==> regions::writes_bus(w, x.0)
        }),
    decreases n,
{
    if n > 0 {
        lemma_region_buses(g, r, (n - 1) as nat);
        let before = regions::writes_upto(g, r, (n - 1) as nat);
        let w = regions::writes_upto(g, r, n);
        let b = (n - 1) as usize;
        let more = region::buses_at(g, b);
        if region::reached(g, b) && flow::cuts(g, n - 1) {
            lemma_add_writes(g, r, before, more);
            assert forall|k: int| 0 <= k < w.len() implies lowered(g, #[trigger] w[k]) by {
                if k < before.len() {
                    assert(w[k] == before[k]);
                } else {
                    assert(more.contains(w[k]));
                    let q = choose|q: int| 0 <= q < more.len() && more[q] == w[k];
                    assert(lowers(g, b, q, w[k]));
                }
            }
            assert forall|m: usize, q: int, x: (RegionBus, (usize, usize))|
                m < n && #[trigger] lowers(g, m, q, x) && region::region_of(g, x.1.0) == Some(r)
                    && regions::read_elsewhere(g, x.0) implies regions::writes_bus(w, x.0) by {
                if m < n - 1 {
                    let i = choose|i: int| 0 <= i < before.len() && (#[trigger] before[i]).0 == x.0;
                    assert(w[i] == before[i]);
                } else {
                    assert(more[q] == x);
                }
            }
        } else {
            assert forall|m: usize, q: int, x: (RegionBus, (usize, usize))|
                m < n && #[trigger] lowers(g, m, q, x) && region::region_of(g, x.1.0) == Some(r)
                    && regions::read_elsewhere(g, x.0) implies regions::writes_bus(w, x.0) by {
                assert(m < n - 1);
            }
        }
    }
}

/// What a node that feeds a sink sums feeds a sink.
pub proof fn lemma_reached_step<N: ToNodeDsp>(g: Graph<N, Edge>, n: usize, k: int)
    requires
        g.wf(),
        region::reached(g, n),
        0 <= k < flow::flat(flow::sources(g)[n as int]).len(),
    ensures
        region::reached(g, flow::flat(flow::sources(g)[n as int])[k].0),
        g.has(flow::flat(flow::sources(g)[n as int])[k].0 as int),
{
    let deps = flow::flow_deps(g);
    let f = flow::flat(flow::sources(g)[n as int]);
    flow::lemma_flow_sources(g, n as int);
    assert(f[k].0 < g.nodes@.len() && flow::dsp_at(g, f[k].0 as int) is Some);
    assert(deps[n as int][k] == f[k].0);
    assert(topo::depends(deps)(n, f[k].0));
    let seeds = flow::sinks(g);
    let j = choose|j: int|
        0 <= j < seeds.len() && #[trigger] walk::reaches(topo::depends(deps), seeds[j], n);
    walk::lemma_reaches_step(topo::depends(deps), seeds[j], n, f[k].0);
}

proof fn lemma_chain_reached<N: ToNodeDsp>(g: Graph<N, Edge>, b: usize, fuel: nat)
    requires
        g.wf(),
        region::reached(g, b),
    ensures
        region::chain(g, b, fuel) matches Some((last, src)) ==> region::reached(g, src.0) && g.has(
            src.0 as int,
        ) && g.has(last as int),
    decreases fuel,
{
    let ins = flow::sources(g)[b as int];
    if let Some(src) = region::lone(ins) {
        flow::lemma_flat_contains(ins, 0, 0);
        let f = flow::flat(ins);
        let k = choose|k: int| 0 <= k < f.len() && f[k] == ins[0][0];
        lemma_reached_step(g, b, k);
        assert(flow::n_in(g, b as int) > 0);
        if flow::cuts(g, src.0 as int) && fuel > 0 {
            lemma_chain_reached(g, src.0, (fuel - 1) as nat);
        }
    }
}

proof fn lemma_wired_from<N: ToNodeDsp>(g: Graph<N, Edge>, b: usize, n: nat, k: int)
    requires
        n <= usize::MAX,
        0 <= k < region::wired(g, b, n).len(),
    ensures
        exists|m: usize, j: int|
            m < n && region::behind(g, b, m) && 0 <= j < flow::flat(
                flow::sources(g)[m as int],
            ).len() && #[trigger] flow::flat(flow::sources(g)[m as int])[j] == region::wired(
                g,
                b,
                n,
            )[k],
    decreases n,
{
    if n > 0 {
        let before = region::wired(g, b, (n - 1) as nat);
        let m = (n - 1) as usize;
        if k < before.len() {
            lemma_wired_from(g, b, (n - 1) as nat, k);
        } else {
            let f = flow::flat(flow::sources(g)[n - 1]);
            region::lemma_parts(g, f);
            let x = region::plain_part(g, f)[k - before.len()];
            assert(f.contains(x));
            let j = choose|j: int| 0 <= j < f.len() && f[j] == x;
            assert(flow::flat(flow::sources(g)[m as int])[j] == region::wired(g, b, n)[k]);
        }
    }
}

/// What writes the buses of a boundary that feeds a sink feeds a sink.
proof fn lemma_bus_source<N: ToNodeDsp>(
    g: Graph<N, Edge>,
    m: usize,
    q: int,
    x: (RegionBus, (usize, usize)),
)
    requires
        g.wf(),
        g.nodes@.len() <= usize::MAX,
        lowers(g, m, q, x),
    ensures
        region::inner(g, x.1.0),
        match x.0 {
            RegionBus::Bus(b) => g.has(b as int),
            RegionBus::Src(s, _) => g.has(s as int),
        },
{
    region::law_bus_has_one_writer(g, m, q, m, q);
    if region::classic(g, m) is Some {
        lemma_chain_reached(g, m, g.nodes@.len());
    } else {
        let e = region::endpoints(g, m);
        let w = region::wired(g, m, g.nodes@.len());
        order::lemma_sorted_multiset(w, flow::summand_order(flow::node_paths(g)));
        assert(x.1 == e[q]);
        assert(w.contains(e[q])) by {
            broadcast use vstd::seq_lib::group_to_multiset_ensures;

            assert(e.to_multiset().count(e[q]) > 0);
        }
        let k = choose|k: int| 0 <= k < w.len() && w[k] == e[q];
        lemma_wired_from(g, m, g.nodes@.len(), k);
        let (n, j) = choose|n: usize, j: int|
            n < g.nodes@.len() && region::behind(g, m, n) && 0 <= j < flow::flat(
                flow::sources(g)[n as int],
            ).len() && #[trigger] flow::flat(flow::sources(g)[n as int])[j] == w[k];
        let step = topo::depends(region::boundary_deps(g));
        let s = |y: usize| region::reached(g, y);
        assert forall|y: usize, z: usize| s(y) && #[trigger] step(y, z) implies s(z) by {
            let f = flow::flat(flow::sources(g)[y as int]);
            let part = region::boundary_part(g, f);
            let d = region::boundary_deps(g)[y as int];
            let i = choose|i: int| 0 <= i < d.len() && d[i] == z;
            region::lemma_parts(g, f);
            assert(f.contains(part[i]));
            let l = choose|l: int| 0 <= l < f.len() && f[l] == part[i];
            lemma_reached_step(g, y, l);
        }
        let seeds = seq![m];
        let i = choose|i: int| 0 <= i < seeds.len() && #[trigger] walk::reaches(step, seeds[i], n);
        assert(seeds[i] == m);
        walk::lemma_closed(step, s, m, n);
        lemma_reached_step(g, n, j);
    }
}

/// A bus that region `r` reads of another has a writer that `r` reads from.
proof fn lemma_crossing<N: ToNodeDsp>(g: Graph<N, Edge>, r: usize, bus: RegionBus) -> (w: usize)
    requires
        g.wf(),
        g.nodes@.len() <= usize::MAX,
        region::wanted(g, r),
        region::crosses(g, r, bus),
    ensures
        region::reads_from(g)(r, w),
        regions::writes_bus(regions::region_writes(g, w), bus),
{
    let (n, k) = choose|n: usize, k: int|
        region::inner(g, n) && region::region_of(g, n) == Some(r) && 0 <= k < region::arrives(
            g,
            n,
        ).len() && region::foreign(g, r, #[trigger] region::arrives(g, n)[k]) && region::arrives(
            g,
            n,
        )[k].0 == Some(bus);
    let f = flow::flat(flow::sources(g)[n as int]);
    let x = region::arrives(g, n)[k];
    lemma_lower_from(g, f, k);
    let (j, q) = choose|j: int, q: int|
        0 <= j < f.len() && 0 <= q < region::lower(g, f[j]).len() && #[trigger] region::lower(
            g,
            f[j],
        )[q] == x;
    lemma_reached_step(g, n, j);
    let m = f[j].0;
    assert(flow::cuts(g, m as int));
    let entry = region::buses_at(g, m)[q];
    assert(x == (Some(entry.0), entry.1));
    assert(lowers(g, m, q, entry));
    lemma_bus_source(g, m, q, entry);
    let w = region::region_of(g, entry.1.0)->0;
    lemma_region_buses(g, w, g.nodes@.len());
    assert(region::crosses(g, r, bus));
    assert(regions::read_elsewhere(g, bus));
    assert(region::region_of(g, region::arrives(g, n)[k].1.0) == Some(w));
    assert(region::reads_from(g)(r, w));
    w
}

/// Bindings to the same bus tell the same bus.
proof fn lemma_bus_told<N: ToNodeDsp>(g: Graph<N, Edge>, a: RegionBus, b: RegionBus)
    requires
        distinct_paths(g),
        regions::bus_at(g, a).0 == regions::bus_at(g, b).0,
        regions::bus_at(g, a).2 == regions::bus_at(g, b).2,
        match a {
            RegionBus::Bus(n) => g.has(n as int),
            RegionBus::Src(n, _) => g.has(n as int),
        },
        match b {
            RegionBus::Bus(n) => g.has(n as int),
            RegionBus::Src(n, _) => g.has(n as int),
        },
    ensures
        a == b,
{
    match (a, b) {
        (RegionBus::Bus(m), RegionBus::Bus(n)) => {
            assert(flow::path_at(g, m as int) == flow::path_at(g, n as int));
        },
        (RegionBus::Src(m, p), RegionBus::Src(n, q)) => {
            assert(flow::path_at(g, m as int) == flow::path_at(g, n as int));
        },
        _ => {},
    }
}

/// The regions derived before region `i`, and the widths known then.
spec fn upto<N: ToNodeDsp>(
    g: Graph<N, Edge>,
    plan: Seq<usize>,
    orders: Seq<Seq<usize>>,
    i: int,
    out_channels: nat,
    prefix: Seq<char>,
) -> (Seq<RegionView>, Map<RegionBus, usize>) {
    regions::all_regions(g, plan.take(i), orders.take(i), out_channels, prefix)
}

proof fn lemma_nth<N: ToNodeDsp>(
    g: Graph<N, Edge>,
    plan: Seq<usize>,
    orders: Seq<Seq<usize>>,
    i: int,
    n: int,
    out_channels: nat,
    prefix: Seq<char>,
)
    requires
        orders.len() == plan.len(),
        0 <= i < n <= plan.len(),
    ensures
        ({
            let before = upto(g, plan, orders, i, out_channels, prefix).1;
            let one = regions::one_region(g, plan[i], before, orders[i], out_channels, prefix);
            &&& upto(g, plan, orders, n, out_channels, prefix).0.len() == n
            &&& upto(g, plan, orders, n, out_channels, prefix).0[i] == one.0
            &&& upto(g, plan, orders, i + 1, out_channels, prefix).1 == one.1
        }),
    decreases n,
{
    let j = n - 1;
    assert(plan.take(n).drop_last() =~= plan.take(j));
    assert(orders.take(n).drop_last() =~= orders.take(j));
    assert(plan.take(n).last() == plan[j] && orders.take(n).last() == orders[j]);
    if j > 0 {
        lemma_nth(g, plan, orders, if i < j { i } else { 0 }, j, out_channels, prefix);
    }
    if i < j {
        lemma_nth(g, plan, orders, i, j, out_channels, prefix);
    } else {
        assert(upto(g, plan, orders, 0, out_channels, prefix).0.len() == 0);
    }
}

/// What holds of a region that is derived.
proof fn lemma_region<N: ToNodeDsp>(
    g: Graph<N, Edge>,
    r: usize,
    widths: Map<RegionBus, usize>,
    s: Seq<usize>,
    out_channels: nat,
    prefix: Seq<char>,
) -> (bs: Seq<RegionBus>)
    requires
        g.nodes@.len() <= usize::MAX,
        s == topo::post_order_of(regions::local_deps(g), regions::region_seeds(g, r)),
    ensures
        ({
            let (one, after) = regions::one_region(g, r, widths, s, out_channels, prefix);
            let w = regions::region_writes(g, r);
            &&& bs.len() == one.bus_reads.len()
            &&& bs.no_duplicates()
            &&& forall|k: int|
                0 <= k < bs.len() ==> region::crosses(g, r, #[trigger] bs[k]) && binds(
                    g,
                    one.bus_reads[k],
                    bs[k],
                ) && one.bus_reads[k].channels == width(widths, bs[k])
            &&& distinct_writes(w)
            &&& one.bus_writes.len() == w.len()
            &&& forall|k: int|
                0 <= k < w.len() ==> binds(g, one.bus_writes[k], (#[trigger] w[k]).0)
                    && after.contains_key(w[k].0) && after[w[k].0] == one.bus_writes[k].channels
            &&& forall|bus: RegionBus|
                !regions::writes_bus(w, bus) ==> #[trigger] as_wide(widths, after, bus)
        }),
{
    locality::lemma_order_local(g, g, r);
    let bs = lemma_emit_reads(g, r, widths, s, out_channels);
    let st = regions::emit_region(g, r, widths, s, out_channels);
    let w = regions::region_writes(g, r);
    lemma_region_buses(g, r, g.nodes@.len());
    let ws = WriteState { b: st.b, fades: Map::empty(), widths, written: Seq::empty() };
    lemma_writes(g, st.outs, ws, w);
    let (one, after) = regions::one_region(g, r, widths, s, out_channels, prefix);
    let end = regions::write_buses(g, st.outs, ws, w);
    assert forall|k: int| 0 <= k < w.len() implies binds(g, one.bus_writes[k], (#[trigger] w[k]).0)
        && after.contains_key(w[k].0) && after[w[k].0] == one.bus_writes[k].channels by {
        assert(end.written[ws.written.len() + k] == one.bus_writes[k]);
    }
    assert forall|bus: RegionBus| !regions::writes_bus(w, bus) implies #[trigger] as_wide(
        widths,
        after,
        bus,
    ) by {
        assert(as_wide(ws.widths, end.widths, bus));
    }
    bs
}

/// Two regions that write a bus are the same.
proof fn lemma_writer_region<N: ToNodeDsp>(g: Graph<N, Edge>, v: usize, w: usize, bus: RegionBus)
    requires
        g.wf(),
        g.nodes@.len() <= usize::MAX,
        regions::writes_bus(regions::region_writes(g, v), bus),
        regions::writes_bus(regions::region_writes(g, w), bus),
    ensures
        v == w,
        match bus {
            RegionBus::Bus(b) => g.has(b as int),
            RegionBus::Src(s, _) => g.has(s as int),
        },
{
    let a = regions::region_writes(g, v);
    let b = regions::region_writes(g, w);
    let i = choose|i: int| 0 <= i < a.len() && (#[trigger] a[i]).0 == bus;
    let j = choose|j: int| 0 <= j < b.len() && (#[trigger] b[j]).0 == bus;
    lemma_region_buses(g, v, g.nodes@.len());
    lemma_region_buses(g, w, g.nodes@.len());
    regions::lemma_region_writes(g, v, g.nodes@.len());
    regions::lemma_region_writes(g, w, g.nodes@.len());
    assert(lowered(g, a[i]) && lowered(g, b[j]));
    let (m, p) = choose|m: usize, p: int| #[trigger] lowers(g, m, p, a[i]);
    let (n, q) = choose|n: usize, q: int| #[trigger] lowers(g, n, q, b[j]);
    region::law_bus_has_one_writer(g, m, p, n, q);
    lemma_bus_source(g, m, p, a[i]);
    assert(region::region_of(g, a[i].1.0) == Some(v));
    assert(region::region_of(g, b[j].1.0) == Some(w));
}

/// The width that a bus was written with stays known.
proof fn lemma_width_kept<N: ToNodeDsp>(
    g: Graph<N, Edge>,
    plan: Seq<usize>,
    orders: Seq<Seq<usize>>,
    j: int,
    l: int,
    i: int,
    out_channels: nat,
    prefix: Seq<char>,
)
    requires
        g.wf(),
        g.nodes@.len() <= usize::MAX,
        plan.no_duplicates(),
        regions::region_orders(g, plan, orders),
        0 <= j < i <= plan.len(),
        0 <= l < regions::region_writes(g, plan[j]).len(),
    ensures
        ({
            let bus = regions::region_writes(g, plan[j])[l].0;
            let known = upto(g, plan, orders, i, out_channels, prefix).1;
            let before = upto(g, plan, orders, j, out_channels, prefix).1;
            let one = regions::one_region(g, plan[j], before, orders[j], out_channels, prefix).0;
            known.contains_key(bus) && known[bus] == one.bus_writes[l].channels
        }),
    decreases i,
{
    let w = regions::region_writes(g, plan[j]);
    let bus = w[l].0;
    let k = i - 1;
    lemma_nth(g, plan, orders, k, i, out_channels, prefix);
    let before = upto(g, plan, orders, k, out_channels, prefix).1;
    assert(orders[k] == topo::post_order_of(
        regions::local_deps(g),
        regions::region_seeds(g, plan[k]),
    ));
    let _ = lemma_region(g, plan[k], before, orders[k], out_channels, prefix);
    if k > j {
        lemma_width_kept(g, plan, orders, j, l, k, out_channels, prefix);
        assert(regions::writes_bus(w, bus));
        if regions::writes_bus(regions::region_writes(g, plan[k]), bus) {
            lemma_writer_region(g, plan[j], plan[k], bus);
        }
        assert(as_wide(before, upto(g, plan, orders, i, out_channels, prefix).1, bus));
    }
}

/// Every bus that a region reads has one writer: just one binding, of all regions', is
/// to it, that of a region earlier in the list, and it is as wide as it is read.
pub proof fn law_bus_reads_have_one_writer<N: ToNodeDsp>(
    g: Graph<N, Edge>,
    out_channels: nat,
    prefix: Seq<char>,
    derived: Seq<RegionView>,
    i: int,
    k: int,
)
    requires
        g.wf(),
        g.nodes@.len() <= usize::MAX,
        distinct_paths(g),
        regions::derives_regions(g, out_channels, prefix, derived),
        0 <= i < derived.len(),
        0 <= k < derived[i].bus_reads.len(),
    ensures
        exists|j: int, l: int| #[trigger]
            writes_it(derived, derived[i].bus_reads[k], j, l) && j < i
                && derived[j].bus_writes[l].channels == derived[i].bus_reads[k].channels && (forall|
                a: int,
                b: int,
            | #[trigger]
                writes_it(derived, derived[i].bus_reads[k], a, b) ==> a == j && b == l),
{
    let (plan, orders) = choose|plan: Seq<usize>, orders: Seq<Seq<usize>>| #[trigger]
        regions::region_schedule(g, plan) && #[trigger] regions::region_orders(g, plan, orders)
            && derived == regions::all_regions(g, plan, orders, out_channels, prefix).0;
    let n = plan.len() as int;
    assert(plan.take(n) =~= plan && orders.take(n) =~= orders);
    schedule::lemma_ordered(g, plan);
    if plan.len() > 0 {
        lemma_nth(g, plan, orders, 0, n, out_channels, prefix);
    } else {
        assert(derived.len() == 0);
    }
    lemma_nth(g, plan, orders, i, n, out_channels, prefix);
    let r = plan[i];
    let before = upto(g, plan, orders, i, out_channels, prefix).1;
    assert(orders[i] == topo::post_order_of(
        regions::local_deps(g),
        regions::region_seeds(g, plan[i]),
    ));
    let bs = lemma_region(g, r, before, orders[i], out_channels, prefix);
    let read = derived[i].bus_reads[k];
    let bus = bs[k];
    assert(region::ready(g, plan.take(i), plan[i]));
    let w = lemma_crossing(g, r, bus);
    assert(plan.take(i).contains(w));
    let j = choose|j: int| 0 <= j < plan.take(i).len() && plan.take(i)[j] == w;
    assert(plan[j] == w);
    let writes = regions::region_writes(g, w);
    let l = choose|l: int| 0 <= l < writes.len() && (#[trigger] writes[l]).0 == bus;
    lemma_nth(g, plan, orders, j, n, out_channels, prefix);
    let held = upto(g, plan, orders, j, out_channels, prefix).1;
    assert(orders[j] == topo::post_order_of(
        regions::local_deps(g),
        regions::region_seeds(g, plan[j]),
    ));
    let _ = lemma_region(g, w, held, orders[j], out_channels, prefix);
    assert(binds(g, derived[j].bus_writes[l], writes[l].0));
    lemma_width_kept(g, plan, orders, j, l, i, out_channels, prefix);
    assert(writes_it(derived, read, j, l));
    lemma_writer_region(g, w, w, bus);
    assert forall|a: int, b: int| #[trigger] writes_it(derived, read, a, b) implies a == j && b
        == l by {
        lemma_nth(g, plan, orders, a, n, out_channels, prefix);
        let known = upto(g, plan, orders, a, out_channels, prefix).1;
        assert(orders[a] == topo::post_order_of(
            regions::local_deps(g),
            regions::region_seeds(g, plan[a]),
        ));
        let _ = lemma_region(g, plan[a], known, orders[a], out_channels, prefix);
        let others = regions::region_writes(g, plan[a]);
        let other = others[b].0;
        assert(binds(g, derived[a].bus_writes[b], others[b].0));
        assert(regions::writes_bus(others, other));
        lemma_writer_region(g, plan[a], plan[a], other);
        lemma_bus_told(g, other, bus);
        lemma_writer_region(g, plan[a], w, bus);
        if b < l {
            assert(others[b].0 != others[l].0);
        } else if l < b {
            assert(others[l].0 != others[b].0);
        }
    }
}

/// A region's bindings do not repeat: no two of its reads, and no two of its writes, are
/// to the same bus.
pub proof fn law_bus_bindings_do_not_repeat<N: ToNodeDsp>(
    g: Graph<N, Edge>,
    out_channels: nat,
    prefix: Seq<char>,
    derived: Seq<RegionView>,
    i: int,
)
    requires
        g.wf(),
        g.nodes@.len() <= usize::MAX,
        distinct_paths(g),
        regions::derives_regions(g, out_channels, prefix, derived),
        0 <= i < derived.len(),
    ensures
        forall|a: int, b: int|
            0 <= a < b < derived[i].bus_reads.len() ==> !same_bus(
                #[trigger] derived[i].bus_reads[a],
                #[trigger] derived[i].bus_reads[b],
            ),
        forall|a: int, b: int|
            0 <= a < b < derived[i].bus_writes.len() ==> !same_bus(
                #[trigger] derived[i].bus_writes[a],
                #[trigger] derived[i].bus_writes[b],
            ),
{
    let (plan, orders) = choose|plan: Seq<usize>, orders: Seq<Seq<usize>>| #[trigger]
        regions::region_schedule(g, plan) && #[trigger] regions::region_orders(g, plan, orders)
            && derived == regions::all_regions(g, plan, orders, out_channels, prefix).0;
    let n = plan.len() as int;
    assert(plan.take(n) =~= plan && orders.take(n) =~= orders);
    if plan.len() > 0 {
        lemma_nth(g, plan, orders, 0, n, out_channels, prefix);
    } else {
        assert(derived.len() == 0);
    }
    lemma_nth(g, plan, orders, i, n, out_channels, prefix);
    let r = plan[i];
    let before = upto(g, plan, orders, i, out_channels, prefix).1;
    assert(orders[i] == topo::post_order_of(
        regions::local_deps(g),
        regions::region_seeds(g, plan[i]),
    ));
    let bs = lemma_region(g, r, before, orders[i], out_channels, prefix);
    let w = regions::region_writes(g, r);
    let one = derived[i];
    assert(region::ready(g, plan.take(i), plan[i]));
    assert forall|a: int, b: int| 0 <= a < b < one.bus_reads.len() implies !same_bus(
        #[trigger] one.bus_reads[a],
        #[trigger] one.bus_reads[b],
    ) by {
        assert(binds(g, one.bus_reads[a], bs[a]) && binds(g, one.bus_reads[b], bs[b]));
        assert(bs[a] != bs[b]);
        let v = lemma_crossing(g, r, bs[a]);
        let u = lemma_crossing(g, r, bs[b]);
        lemma_writer_region(g, v, v, bs[a]);
        lemma_writer_region(g, u, u, bs[b]);
        if same_bus(one.bus_reads[a], one.bus_reads[b]) {
            lemma_bus_told(g, bs[a], bs[b]);
        }
    }
    assert forall|a: int, b: int| 0 <= a < b < one.bus_writes.len() implies !same_bus(
        #[trigger] one.bus_writes[a],
        #[trigger] one.bus_writes[b],
    ) by {
        assert(binds(g, one.bus_writes[a], w[a].0) && binds(g, one.bus_writes[b], w[b].0));
        assert(regions::writes_bus(w, w[a].0) && regions::writes_bus(w, w[b].0));
        lemma_writer_region(g, r, r, w[a].0);
        lemma_writer_region(g, r, r, w[b].0);
        if same_bus(one.bus_writes[a], one.bus_writes[b]) {
            lemma_bus_told(g, w[a].0, w[b].0);
        }
    }
}

} // verus!
