//! The definitions of a cut graph's regions are sound.

use crate::compile;
use crate::dsp::{self, BuilderView, InputRef, Rate};
use crate::edge::Edge;
use crate::flow;
use crate::graph::Graph;
use crate::node::{NodeDsp, ToNodeDsp};
use crate::param;
use crate::region::{self, RegionBus};
use crate::regions::{self, BusView, RegionState, RegionView, WriteState};
use vstd::prelude::*;

verus! {

/// Whether a bus is read by the unit and param that its binding says.
pub open spec fn reads(b: BuilderView, x: BusView) -> bool {
    &&& x.param < b.params.len()
    &&& x.unit < b.units.len()
    &&& b.units[x.unit as int].name == "In"@
    &&& b.units[x.unit as int].inputs == seq![InputRef::Param(x.param)]
    &&& b.units[x.unit as int].num_outputs == x.channels
}

/// Whether a bus is written by the unit and param that its binding says.
pub open spec fn writes(b: BuilderView, x: BusView) -> bool {
    &&& x.param < b.params.len()
    &&& x.unit < b.units.len()
    &&& b.units[x.unit as int].name == "Out"@
    &&& b.units[x.unit as int].inputs.len() > 0
    &&& b.units[x.unit as int].inputs[0] == InputRef::Param(x.param)
}

/// Whether all the buses are read as their bindings say.
pub open spec fn reads_all(b: BuilderView, s: Seq<BusView>) -> bool {
    forall|i: int| 0 <= i < s.len() ==> reads(b, #[trigger] s[i])
}

/// Whether all the buses are written as their bindings say.
pub open spec fn writes_all(b: BuilderView, s: Seq<BusView>) -> bool {
    forall|i: int| 0 <= i < s.len() ==> writes(b, #[trigger] s[i])
}

/// The builder of a finished region.
pub open spec fn builder_of(r: RegionView) -> BuilderView {
    BuilderView {
        units: r.derived.def.units,
        params: r.derived.def.params,
        bindings: r.derived.params,
        monitors: r.derived.monitors,
        gains: r.derived.gains,
        out_channels: 1,
    }
}

/// Whether a region's definition is sound and its bus bindings are to it.
pub open spec fn region_sound(r: RegionView) -> bool {
    &&& r.derived.sound()
    &&& reads_all(builder_of(r), r.bus_reads)
    &&& writes_all(builder_of(r), r.bus_writes)
}

/// Whether everything in the state of deriving a region refers to what was emitted.
pub open spec fn state_sound(st: RegionState) -> bool {
    &&& st.b.sound()
    &&& compile::outputs_known(st.b, st.outs)
    &&& forall|bus: RegionBus| #[trigger]
        st.ins.contains_key(bus) ==> st.b.knows_all(st.ins[bus])
    &&& reads_all(st.b, st.reads)
}

proof fn lemma_reads_grow(a: BuilderView, b: BuilderView, s: Seq<BusView>)
    requires
        a.grows_to(b),
        reads_all(a, s),
    ensures
        reads_all(b, s),
{
    assert forall|i: int| 0 <= i < s.len() implies reads(b, #[trigger] s[i]) by {
        assert(reads(a, s[i]));
    }
}

proof fn lemma_writes_grow(a: BuilderView, b: BuilderView, s: Seq<BusView>)
    requires
        a.grows_to(b),
        writes_all(a, s),
    ensures
        writes_all(b, s),
{
    assert forall|i: int| 0 <= i < s.len() implies writes(b, #[trigger] s[i]) by {
        assert(writes(a, s[i]));
    }
}

/// A state stays sound as its builder grows.
pub proof fn lemma_state_grows(st: RegionState, b: BuilderView)
    requires
        state_sound(st),
        st.b.grows_to(b),
        b.sound(),
    ensures
        state_sound(RegionState { b, ..st }),
{
    compile::lemma_outputs_grow(st.b, b, st.outs);
    assert forall|bus: RegionBus| #[trigger] st.ins.contains_key(bus) implies b.knows_all(
        st.ins[bus],
    ) by {
        dsp::lemma_grows_knows(st.b, b, st.ins[bus]);
    }
    lemma_reads_grow(st.b, b, st.reads);
}

/// Reading a bus keeps the state sound.
pub proof fn lemma_read_bus<N: ToNodeDsp>(
    g: Graph<N, Edge>,
    widths: Map<RegionBus, usize>,
    st: RegionState,
    bus: RegionBus,
)
    ensures
        st.b.grows_to(regions::read_bus(g, widths, st, bus).0.b),
        state_sound(st) && regions::read_bus(g, widths, st, bus).0.b.fits() ==> state_sound(
            regions::read_bus(g, widths, st, bus).0,
        ) && regions::read_bus(g, widths, st, bus).0.b.knows_all(
            regions::read_bus(g, widths, st, bus).1,
        ),
{
    let (st1, group) = regions::read_bus(g, widths, st, bus);
    if !st.ins.contains_key(bus) {
        let (path, label, output) = regions::bus_at(g, bus);
        let p = dsp::control_param(param::name_of(path, label));
        let b1 = st.b.with_param(p);
        let b2 = st1.b;
        let u = b2.units.last();
        let channels = u.num_outputs;
        dsp::lemma_with_param(st.b, p);
        dsp::lemma_with_unit(b1, u);
        dsp::lemma_grows_trans(st.b, b1, b2);
        if state_sound(st) && b2.fits() {
            dsp::lemma_grows_fits(b1, b2);
            assert(b1.knows_all(u.inputs));
            lemma_state_grows(st, b2);
            assert forall|i: int| 0 <= i < group.len() implies b2.knows(#[trigger] group[i]) by {
                assert(group[i] == InputRef::Unit {
                    unit: st.b.units.len() as usize,
                    output: i as usize,
                });
            }
            let x = st1.reads.last();
            assert(reads(b2, x)) by {
                assert(b2.units[st.b.units.len() as int] == u);
            }
            assert(reads_all(b2, st1.reads)) by {
                assert forall|i: int| 0 <= i < st1.reads.len() implies reads(
                    b2,
                    #[trigger] st1.reads[i],
                ) by {
                    if i < st.reads.len() {
                        assert(st1.reads[i] == st.reads[i]);
                        assert(reads(b2, st.reads[i]));
                    }
                }
            }
            assert forall|k: RegionBus| #[trigger] st1.ins.contains_key(k) implies b2.knows_all(
                st1.ins[k],
            ) by {
                if k != bus {
                    assert(st.ins.contains_key(k));
                }
            }
        }
    }
}

/// Gathering what arrives keeps the state sound.
pub proof fn lemma_gather<N: ToNodeDsp>(
    g: Graph<N, Edge>,
    r: usize,
    widths: Map<RegionBus, usize>,
    st: RegionState,
    items: Seq<(Option<RegionBus>, (usize, usize))>,
)
    ensures
        st.b.grows_to(regions::gather(g, r, widths, st, items).0.b),
        state_sound(st) && regions::gather(g, r, widths, st, items).0.b.fits() ==> state_sound(
            regions::gather(g, r, widths, st, items).0,
        ) && regions::gather(g, r, widths, st, items).0.b.knows_groups(
            regions::gather(g, r, widths, st, items).1,
        ),
    decreases items.len(),
{
    if items.len() > 0 {
        let init = items.drop_last();
        lemma_gather(g, r, widths, st, init);
        let (st1, before) = regions::gather(g, r, widths, st, init);
        let (st2, all) = regions::gather(g, r, widths, st, items);
        let x = items.last();
        if region::foreign(g, r, x) {
            lemma_read_bus(g, widths, st1, x.0->0);
            dsp::lemma_grows_trans(st.b, st1.b, st2.b);
            if state_sound(st) && st2.b.fits() {
                dsp::lemma_grows_fits(st1.b, st2.b);
                assert forall|i: int| 0 <= i < all.len() implies st2.b.knows_all(
                    #[trigger] all[i],
                ) by {
                    if i < before.len() {
                        assert(all[i] == before[i]);
                        dsp::lemma_grows_knows(st1.b, st2.b, before[i]);
                    }
                }
            }
        } else {
            let (s, port) = x.1;
            if state_sound(st) && st2.b.fits() {
                assert forall|i: int| 0 <= i < all.len() implies st2.b.knows_all(
                    #[trigger] all[i],
                ) by {
                    if i < before.len() {
                        assert(all[i] == before[i]);
                    } else {
                        assert(st1.b.knows_groups(st1.outs[s]));
                        assert(st1.b.knows_all(st1.outs[s][port as int]));
                    }
                }
            }
        }
    }
}

/// The inputs of a node keep the state sound.
pub proof fn lemma_region_inputs<N: ToNodeDsp>(
    g: Graph<N, Edge>,
    r: usize,
    widths: Map<RegionBus, usize>,
    st: RegionState,
    ins: Seq<Seq<(usize, usize)>>,
)
    ensures
        st.b.grows_to(regions::region_inputs(g, r, widths, st, ins).0.b),
        state_sound(st) && regions::region_inputs(g, r, widths, st, ins).0.b.fits() ==> state_sound(
            regions::region_inputs(g, r, widths, st, ins).0,
        ) && regions::region_inputs(g, r, widths, st, ins).0.b.knows_inputs(
            regions::region_inputs(g, r, widths, st, ins).1,
        ),
    decreases ins.len(),
{
    if ins.len() > 0 {
        let init = ins.drop_last();
        lemma_region_inputs(g, r, widths, st, init);
        let (st1, before) = regions::region_inputs(g, r, widths, st, init);
        let items = region::lower_all(g, ins.last());
        lemma_gather(g, r, widths, st1, items);
        let (st2, sigs) = regions::gather(g, r, widths, st1, items);
        compile::lemma_mix_or_none(st2.b, sigs);
        let (b, at) = compile::mix_or_none(st2.b, sigs);
        dsp::lemma_grows_trans(st.b, st1.b, st2.b);
        dsp::lemma_grows_trans(st.b, st2.b, b);
        dsp::lemma_grows_trans(st1.b, st2.b, b);
        if state_sound(st) && b.fits() {
            dsp::lemma_grows_fits(st2.b, b);
            dsp::lemma_grows_fits(st1.b, st2.b);
            lemma_state_grows(st2, b);
            compile::lemma_push_input(st1.b, b, before, at);
        }
    }
}

/// The nodes of a region keep the state sound.
pub proof fn lemma_emit_region<N: ToNodeDsp>(
    g: Graph<N, Edge>,
    r: usize,
    widths: Map<RegionBus, usize>,
    order: Seq<usize>,
    out_channels: nat,
)
    ensures
        regions::emit_region(g, r, widths, order, out_channels).b.fits() ==> state_sound(
            regions::emit_region(g, r, widths, order, out_channels),
        ),
    decreases order.len(),
{
    if order.len() > 0 {
        let init = order.drop_last();
        lemma_emit_region(g, r, widths, init, out_channels);
        let st = regions::emit_region(g, r, widths, init, out_channels);
        let next = regions::emit_region(g, r, widths, order, out_channels);
        let n = order.last();
        match flow::dsp_at(g, n as int) {
            Some(d) => {
                let ins = flow::sources(g)[n as int];
                lemma_region_inputs(g, r, widths, st, ins);
                let (st1, at) = regions::region_inputs(g, r, widths, st, ins);
                let path = flow::path_at(g, n as int);
                d.lemma_emit_sound(path, at, st1.b);
                let (b, groups) = d.emit(path, at, st1.b);
                if b.fits() {
                    dsp::lemma_grows_fits(st1.b, b);
                    dsp::lemma_grows_fits(st.b, st1.b);
                    lemma_state_grows(st1, b);
                    assert forall|k: usize| #[trigger] next.outs.contains_key(k) implies
                        b.knows_groups(next.outs[k]) by {
                        if k != n {
                            assert(st1.outs.contains_key(k));
                            compile::lemma_outputs_grow(st1.b, b, st1.outs);
                        }
                    }
                }
            },
            None => {},
        }
    }
}

/// A lift to audio rate keeps the builder sound.
pub proof fn lemma_lifted(b: BuilderView, r: InputRef)
    ensures
        b.grows_to(dsp::lifted(b, r).0),
        b.sound() && b.knows(r) && dsp::lifted(b, r).0.fits() ==> dsp::lifted(b, r).0.sound()
            && dsp::lifted(b, r).0.knows(dsp::lifted(b, r).1),
{
    if b.rate_of(r) != Rate::Audio {
        let u = dsp::unit("K2A"@, Rate::Audio, seq![r], 1);
        dsp::lemma_with_unit(b, u);
        if b.knows(r) {
            assert(b.knows_all(u.inputs));
        }
    }
}

/// Fading keeps the builder sound.
pub proof fn lemma_faded(b: BuilderView, group: Seq<InputRef>, fade: usize, n: nat)
    ensures
        b.grows_to(regions::faded(b, group, fade, n).0),
        b.sound() && b.knows_all(group) && n <= group.len() && fade < b.params.len()
            && regions::faded(b, group, fade, n).0.fits() ==> regions::faded(
            b,
            group,
            fade,
            n,
        ).0.sound() && regions::faded(b, group, fade, n).0.knows_all(
            regions::faded(b, group, fade, n).1,
        ),
    decreases n,
{
    if n > 0 {
        lemma_faded(b, group, fade, (n - 1) as nat);
        let (b1, refs) = regions::faded(b, group, fade, (n - 1) as nat);
        lemma_lifted(b1, group[n - 1]);
        let (b2, ch) = dsp::lifted(b1, group[n - 1]);
        let u = regions::fade_unit(ch, fade);
        let b3 = b2.with_unit(u);
        dsp::lemma_with_unit(b2, u);
        dsp::lemma_grows_trans(b, b1, b2);
        dsp::lemma_grows_trans(b, b2, b3);
        dsp::lemma_grows_trans(b1, b2, b3);
        if b.sound() && b.knows_all(group) && n <= group.len() && fade < b.params.len()
            && b3.fits() {
            dsp::lemma_grows_fits(b2, b3);
            dsp::lemma_grows_fits(b1, b2);
            dsp::lemma_grows_knows(b, b1, group);
            assert(b1.knows(group[n - 1]));
            assert(b2.knows_all(u.inputs));
            dsp::lemma_grows_knows(b1, b3, refs);
            let out = refs.push(b3.last_unit());
            assert forall|i: int| 0 <= i < out.len() implies b3.knows(#[trigger] out[i]) by {
                if i < refs.len() {
                    assert(out[i] == refs[i]);
                }
            }
        }
    }
}

spec fn fades_known(b: BuilderView, fades: Map<Seq<usize>, usize>) -> bool {
    forall|p: Seq<usize>| #[trigger] fades.contains_key(p) ==> fades[p] < b.params.len()
}

spec fn write_sound(ws: WriteState) -> bool {
    &&& ws.b.sound()
    &&& fades_known(ws.b, ws.fades)
    &&& writes_all(ws.b, ws.written)
}

proof fn lemma_write_bus<N: ToNodeDsp>(
    g: Graph<N, Edge>,
    outs: compile::Outputs,
    ws: WriteState,
    w: (RegionBus, (usize, usize)),
)
    ensures
        ws.b.grows_to(regions::write_bus(g, outs, ws, w).b),
        write_sound(ws) && compile::outputs_known(ws.b, outs) && regions::write_bus(
            g,
            outs,
            ws,
            w,
        ).b.fits() ==> write_sound(regions::write_bus(g, outs, ws, w)),
{
    let next = regions::write_bus(g, outs, ws, w);
    let (bus, (s, port)) = w;
    let group = if outs.contains_key(s) && port < outs[s].len() {
        outs[s][port as int]
    } else {
        dsp::silence(1)
    };
    let (path, label, output) = regions::bus_at(g, bus);
    let fresh = ws.b.params.len() as usize;
    let f = dsp::fade_param(path);
    let b0 = ws.b.with_param(f);
    let known = ws.fades.contains_key(path);
    let b1 = if known {
        ws.b
    } else {
        b0.with_gain(path, fresh)
    };
    let fade = if known {
        ws.fades[path]
    } else {
        fresh
    };
    dsp::lemma_with_param(ws.b, f);
    dsp::lemma_with_gain(b0, path, fresh);
    if !known {
        dsp::lemma_grows_trans(ws.b, b0, b1);
    }
    let param = b1.params.len() as usize;
    let p = dsp::control_param(param::name_of(path, label));
    let b2 = b1.with_param(p);
    dsp::lemma_with_param(b1, p);
    dsp::lemma_grows_trans(ws.b, b1, b2);
    lemma_faded(b2, group, fade, group.len());
    let (b3, refs) = regions::faded(b2, group, fade, group.len());
    dsp::lemma_grows_trans(ws.b, b2, b3);
    let u = dsp::unit("Out"@, Rate::Audio, seq![InputRef::Param(param)] + refs, 0);
    let b4 = b3.with_unit(u);
    assert(next.b == b4);
    dsp::lemma_with_unit(b3, u);
    dsp::lemma_grows_trans(ws.b, b3, b4);
    if write_sound(ws) && compile::outputs_known(ws.b, outs) && b4.fits() {
        dsp::lemma_grows_fits(b3, b4);
        dsp::lemma_grows_fits(b2, b3);
        dsp::lemma_grows_fits(b1, b2);
        assert(fade < b1.params.len()) by {
            if known {
                assert(ws.fades[path] < ws.b.params.len());
            }
        }
        assert(b1.sound());
        assert(ws.b.knows_all(group)) by {
            if outs.contains_key(s) && port < outs[s].len() {
                assert(ws.b.knows_groups(outs[s]));
                assert(ws.b.knows_all(outs[s][port as int]));
            }
        }
        dsp::lemma_grows_knows(ws.b, b2, group);
        assert forall|i: int| 0 <= i < u.inputs.len() implies b3.knows(#[trigger] u.inputs[i]) by {
            if i > 0 {
                assert(u.inputs[i] == refs[i - 1]);
                assert(b3.knows(refs[i - 1]));
            } else {
                assert(b2.knows(InputRef::Param(param)));
            }
        }
        lemma_writes_grow(ws.b, b4, ws.written);
        let x = next.written.last();
        assert(writes(b4, x)) by {
            assert(b4.units[b3.units.len() as int] == u);
        }
        assert forall|i: int| 0 <= i < next.written.len() implies writes(
            b4,
            #[trigger] next.written[i],
        ) by {
            if i < ws.written.len() {
                assert(next.written[i] == ws.written[i]);
                assert(writes(b4, ws.written[i]));
            }
        }
        assert forall|q: Seq<usize>| #[trigger] next.fades.contains_key(q) implies next.fades[q]
            < b4.params.len() by {
            if ws.fades.contains_key(q) {
                assert(ws.fades[q] < ws.b.params.len());
            }
        }
    }
}

proof fn lemma_write_buses<N: ToNodeDsp>(
    g: Graph<N, Edge>,
    outs: compile::Outputs,
    ws: WriteState,
    writes: Seq<(RegionBus, (usize, usize))>,
)
    ensures
        ws.b.grows_to(regions::write_buses(g, outs, ws, writes).b),
        write_sound(ws) && compile::outputs_known(ws.b, outs) && regions::write_buses(
            g,
            outs,
            ws,
            writes,
        ).b.fits() ==> write_sound(regions::write_buses(g, outs, ws, writes)),
    decreases writes.len(),
{
    if writes.len() > 0 {
        let init = writes.drop_last();
        lemma_write_buses(g, outs, ws, init);
        let mid = regions::write_buses(g, outs, ws, init);
        lemma_write_bus(g, outs, mid, writes.last());
        let next = regions::write_buses(g, outs, ws, writes);
        dsp::lemma_grows_trans(ws.b, mid.b, next.b);
        if write_sound(ws) && compile::outputs_known(ws.b, outs) && next.b.fits() {
            dsp::lemma_grows_fits(mid.b, next.b);
            compile::lemma_outputs_grow(ws.b, mid.b, outs);
        }
    }
}

proof fn lemma_one_region<N: ToNodeDsp>(
    g: Graph<N, Edge>,
    r: usize,
    widths: Map<RegionBus, usize>,
    order: Seq<usize>,
    out_channels: nat,
    prefix: Seq<char>,
)
    ensures
        ({
            let one = regions::one_region(g, r, widths, order, out_channels, prefix).0;
            one.derived.def.units.len() <= usize::MAX && one.derived.def.params.len() <= usize::MAX
                ==> region_sound(one)
        }),
{
    let one = regions::one_region(g, r, widths, order, out_channels, prefix).0;
    let st = regions::emit_region(g, r, widths, order, out_channels);
    let w0 = WriteState { b: st.b, fades: Map::empty(), widths, written: Seq::empty() };
    let ws = regions::write_buses(g, st.outs, w0, regions::region_writes(g, r));
    lemma_emit_region(g, r, widths, order, out_channels);
    lemma_write_buses(g, st.outs, w0, regions::region_writes(g, r));
    if ws.b.fits() {
        dsp::lemma_grows_fits(st.b, ws.b);
        assert(write_sound(w0));
        lemma_reads_grow(st.b, ws.b, st.reads);
        dsp::lemma_finished_sound(ws.b, one.derived.def.name);
        let b = builder_of(one);
        assert forall|i: int| 0 <= i < one.bus_reads.len() implies reads(
            b,
            #[trigger] one.bus_reads[i],
        ) by {
            assert(reads(ws.b, st.reads[i]));
        }
        assert forall|i: int| 0 <= i < one.bus_writes.len() implies writes(
            b,
            #[trigger] one.bus_writes[i],
        ) by {
            assert(writes(ws.b, ws.written[i]));
        }
    }
}

/// Every definition that is derived for a region is sound, as long as its units and
/// params can be numbered: every unit refers only to params that are there and to
/// units before it, and every bus is read and written by the unit and param that its
/// binding says.
pub proof fn law_region_definitions_are_sound<N: ToNodeDsp>(
    g: Graph<N, Edge>,
    out_channels: nat,
    prefix: Seq<char>,
    rs: Seq<RegionView>,
    i: int,
)
    requires
        regions::derives_regions(g, out_channels, prefix, rs),
        0 <= i < rs.len(),
        rs[i].derived.def.units.len() <= usize::MAX,
        rs[i].derived.def.params.len() <= usize::MAX,
    ensures
        region_sound(rs[i]),
{
    let (schedule, orders) = choose|schedule: Seq<usize>, orders: Seq<Seq<usize>>| #[trigger]
        regions::region_schedule(g, schedule) && #[trigger] regions::region_orders(
            g,
            schedule,
            orders,
        ) && rs == regions::all_regions(g, schedule, orders, out_channels, prefix).0;
    lemma_all_regions(g, schedule, orders, out_channels, prefix, i);
}

proof fn lemma_all_regions<N: ToNodeDsp>(
    g: Graph<N, Edge>,
    schedule: Seq<usize>,
    orders: Seq<Seq<usize>>,
    out_channels: nat,
    prefix: Seq<char>,
    i: int,
)
    requires
        0 <= i < regions::all_regions(g, schedule, orders, out_channels, prefix).0.len(),
    ensures
        ({
            let one = regions::all_regions(g, schedule, orders, out_channels, prefix).0[i];
            one.derived.def.units.len() <= usize::MAX && one.derived.def.params.len() <= usize::MAX
                ==> region_sound(one)
        }),
    decreases schedule.len(),
{
    let (before, widths) = regions::all_regions(
        g,
        schedule.drop_last(),
        orders.drop_last(),
        out_channels,
        prefix,
    );
    if i < before.len() {
        lemma_all_regions(g, schedule.drop_last(), orders.drop_last(), out_channels, prefix, i);
    } else {
        lemma_one_region(g, schedule.last(), widths, orders.last(), out_channels, prefix);
    }
}

} // verus!
