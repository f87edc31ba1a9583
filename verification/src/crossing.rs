//! Signals across regions: what a region hears of its own nodes and over its buses, and
//! what it writes to the buses that others read.

use crate::compile::{self, Outputs};
use crate::dsp::{self, BuilderView, InputRef, Rate};
use crate::edge::Edge;
use crate::flow;
use crate::graph::Graph;
use crate::meaning::{self, Voice};
use crate::node::{NodeDsp, ToNodeDsp};
use crate::order;
use crate::param;
use crate::region::{self, RegionBus};
use crate::regions::{self, RegionState, WriteState};
use crate::soundness;
use crate::text;
use crate::topo;
use crate::uncut;
use crate::walk;
use crate::wiring;
use vstd::prelude::*;

verus! {

/// Where a signal that a region takes comes from.
pub type Origin = (Option<RegionBus>, (usize, usize));

/// Whether a signal comes over a bus that another region writes.
pub open spec fn over_bus<N: ToNodeDsp>(g: Graph<N, Edge>, r: usize, x: Origin) -> bool {
    x.0 is Some && region::region_of(g, x.1.0) != Some(r)
}

/// Whether a signal is there for region `r`: one over a bus is, and one of the region's
/// own is where its output was emitted.
pub open spec fn at_hand<N: ToNodeDsp>(
    g: Graph<N, Edge>,
    r: usize,
    st: RegionState,
    x: Origin,
) -> bool {
    if over_bus(g, r, x) {
        st.ins.contains_key(x.0->0)
    } else {
        wiring::emitted(st.outs, x.1)
    }
}

/// The channels of a signal that is there.
pub open spec fn channels_of<N: ToNodeDsp>(
    g: Graph<N, Edge>,
    r: usize,
    st: RegionState,
    x: Origin,
) -> Seq<InputRef> {
    if over_bus(g, r, x) {
        st.ins[x.0->0]
    } else {
        st.outs[x.1.0][x.1.1 as int]
    }
}

/// What signals are worth on channel `ch` of a mix, those that are there.
pub open spec fn origin_heard<N: ToNodeDsp>(
    g: Graph<N, Edge>,
    r: usize,
    st: RegionState,
    v: Voice,
    ch: int,
) -> spec_fn(Origin) -> int {
    |x: Origin|
        if at_hand(g, r, st, x) {
            meaning::heard(st.b, v, channels_of(g, r, st, x), ch)
        } else {
            0
        }
}

/// Whether `next` is a later state of deriving the same node's inputs.
spec fn later(st: RegionState, next: RegionState) -> bool {
    &&& st.b.grows_to(next.b)
    &&& next.outs == st.outs
    &&& forall|bus: RegionBus| #[trigger]
        st.ins.contains_key(bus) ==> next.ins.contains_key(bus) && next.ins[bus] == st.ins[bus]
}

proof fn lemma_later_heard<N: ToNodeDsp>(
    g: Graph<N, Edge>,
    r: usize,
    st: RegionState,
    next: RegionState,
    v: Voice,
    x: Origin,
    ch: int,
)
    requires
        soundness::state_sound(st),
        later(st, next),
        at_hand(g, r, st, x),
        0 <= ch,
    ensures
        at_hand(g, r, next, x),
        channels_of(g, r, next, x) == channels_of(g, r, st, x),
        st.b.knows_all(channels_of(g, r, st, x)),
        origin_heard(g, r, next, v, ch)(x) == origin_heard(g, r, st, v, ch)(x),
{
    let group = channels_of(g, r, st, x);
    if !over_bus(g, r, x) {
        assert(st.b.knows_groups(st.outs[x.1.0]));
    }
    assert(st.b.knows_all(group));
    meaning::lemma_heard_grows(st.b, next.b, v, group, ch);
}

proof fn lemma_gather_origins<N: ToNodeDsp>(
    g: Graph<N, Edge>,
    r: usize,
    widths: Map<RegionBus, usize>,
    st: RegionState,
    items: Seq<Origin>,
    v: Voice,
    ch: int,
)
    requires
        soundness::state_sound(st),
        regions::gather(g, r, widths, st, items).0.b.fits(),
        0 <= ch,
    ensures
        ({
            let (next, gs) = regions::gather(g, r, widths, st, items);
            &&& soundness::state_sound(next)
            &&& later(st, next)
            &&& next.b.knows_groups(gs)
            &&& forall|k: int|
                0 <= k < items.len() && over_bus(g, r, #[trigger] items[k]) ==> next.ins.contains_key(
                    items[k].0->0,
                )
            &&& forall|k: int|
                0 <= k < gs.len() ==> exists|j: int|
                    0 <= j < items.len() && #[trigger] at_hand(g, r, next, items[j]) && channels_of(
                        g,
                        r,
                        next,
                        items[j],
                    ) == #[trigger] gs[k]
            &&& forall|j: int|
                0 <= j < items.len() && #[trigger] at_hand(g, r, next, items[j]) ==> gs.contains(
                    channels_of(g, r, next, items[j]),
                )
            &&& meaning::heard_together(next.b, v, gs, ch) == meaning::total(
                items.map_values(origin_heard(g, r, next, v, ch)),
            )
        }),
    decreases items.len(),
{
    let (next, gs) = regions::gather(g, r, widths, st, items);
    soundness::lemma_gather(g, r, widths, st, items);
    let f = origin_heard(g, r, next, v, ch);
    if items.len() == 0 {
        assert(Seq::new(gs.len(), |k: int| meaning::heard(next.b, v, gs[k], ch)) =~= items.map_values(
            f,
        ));
    } else {
        let init = items.drop_last();
        let x = items[items.len() - 1];
        let (mid, before) = regions::gather(g, r, widths, st, init);
        soundness::lemma_gather(g, r, widths, st, init);
        if region::foreign(g, r, x) {
            soundness::lemma_read_bus(g, widths, mid, x.0->0);
        }
        dsp::lemma_grows_fits(mid.b, next.b);
        lemma_gather_origins(g, r, widths, st, init, v, ch);
        let h = origin_heard(g, r, mid, v, ch);
        assert(later(mid, next));
        assert(later(st, next)) by {
            dsp::lemma_grows_trans(st.b, mid.b, next.b);
        }
        // What is there stays there; what was not is not there now, as its bus was read.
        assert forall|j: int| 0 <= j < init.len() implies #[trigger] at_hand(g, r, next, items[j])
            == at_hand(g, r, mid, init[j]) && channels_of(g, r, next, items[j]) == channels_of(
            g,
            r,
            mid,
            init[j],
        ) && f(items[j]) == h(init[j]) by {
            assert(items[j] == init[j]);
            if over_bus(g, r, init[j]) {
                assert(mid.ins.contains_key(init[j].0->0));
            }
            if at_hand(g, r, mid, init[j]) {
                lemma_later_heard(g, r, mid, next, v, init[j], ch);
            }
        }
        assert(init.map_values(h) =~= items.map_values(f).drop_last());
        let old_heard = Seq::new(before.len(), |k: int| meaning::heard(mid.b, v, before[k], ch));
        let new_heard = Seq::new(gs.len(), |k: int| meaning::heard(next.b, v, gs[k], ch));
        assert forall|k: int| 0 <= k < before.len() implies new_heard[k] == old_heard[k] by {
            assert(gs[k] == before[k]);
            assert(mid.b.knows_all(before[k]));
            meaning::lemma_heard_grows(mid.b, next.b, v, before[k], ch);
        }
        if at_hand(g, r, next, x) {
            assert(gs =~= before.push(channels_of(g, r, next, x)));
            assert(new_heard.drop_last() =~= old_heard);
            assert(new_heard.last() == f(x));
        } else {
            assert(gs == before);
            assert(new_heard =~= old_heard);
        }
        assert(items.map_values(f).last() == f(x));
        assert forall|k: int| 0 <= k < items.len() && over_bus(g, r, #[trigger] items[k]) implies next.ins.contains_key(
            items[k].0->0,
        ) by {
            if k < init.len() {
                assert(init[k] == items[k]);
                assert(mid.ins.contains_key(init[k].0->0));
            }
        }
        assert forall|k: int| 0 <= k < gs.len() implies exists|j: int|
            0 <= j < items.len() && #[trigger] at_hand(g, r, next, items[j]) && channels_of(
                g,
                r,
                next,
                items[j],
            ) == #[trigger] gs[k] by {
            if k < before.len() {
                assert(gs[k] == before[k]);
                let j = choose|j: int|
                    0 <= j < init.len() && #[trigger] at_hand(g, r, mid, init[j]) && channels_of(
                        g,
                        r,
                        mid,
                        init[j],
                    ) == before[k];
                assert(at_hand(g, r, next, items[j]));
            } else {
                assert(at_hand(g, r, next, items[items.len() - 1]));
            }
        }
        assert forall|j: int| 0 <= j < items.len() && #[trigger] at_hand(g, r, next, items[j]) implies gs.contains(
            channels_of(g, r, next, items[j]),
        ) by {
            if j < init.len() {
                assert(at_hand(g, r, mid, init[j]));
                let y = channels_of(g, r, mid, init[j]);
                assert(before.contains(y));
                let k = choose|k: int| 0 <= k < before.len() && before[k] == y;
                assert(gs[k] == y);
            } else {
                assert(gs[gs.len() - 1] == channels_of(g, r, next, x));
            }
        }
    }
}

/// Whether `at` is what arrives of the given origins in region `r`: nothing where none is
/// there, and otherwise a signal as wide as the widest that is, whose every channel is
/// worth what they are worth there together.
pub open spec fn arrives<N: ToNodeDsp>(
    g: Graph<N, Edge>,
    r: usize,
    st: RegionState,
    v: Voice,
    items: Seq<Origin>,
    at: Option<Seq<InputRef>>,
) -> bool {
    &&& (at is Some <==> exists|j: int| 0 <= j < items.len() && #[trigger] at_hand(g, r, st, items[j]))
    &&& at is Some ==> {
        &&& st.b.knows_all(at->0)
        &&& forall|j: int|
            0 <= j < items.len() && #[trigger] at_hand(g, r, st, items[j]) ==> channels_of(
                g,
                r,
                st,
                items[j],
            ).len() <= at->0.len()
        &&& exists|j: int|
            0 <= j < items.len() && #[trigger] at_hand(g, r, st, items[j]) && channels_of(
                g,
                r,
                st,
                items[j],
            ).len() == at->0.len()
        &&& forall|ch: int|
            0 <= ch < at->0.len() ==> meaning::value(st.b, v, #[trigger] at->0[ch])
                == meaning::total(items.map_values(origin_heard(g, r, st, v, ch)))
    }
    &&& forall|j: int|
        0 <= j < items.len() && over_bus(g, r, #[trigger] items[j]) ==> st.ins.contains_key(
            items[j].0->0,
        )
}

proof fn lemma_arrives_later<N: ToNodeDsp>(
    g: Graph<N, Edge>,
    r: usize,
    st: RegionState,
    next: RegionState,
    v: Voice,
    items: Seq<Origin>,
    at: Option<Seq<InputRef>>,
)
    requires
        soundness::state_sound(st),
        later(st, next),
        arrives(g, r, st, v, items, at),
    ensures
        arrives(g, r, next, v, items, at),
{
    assert forall|j: int| 0 <= j < items.len() implies #[trigger] at_hand(g, r, next, items[j])
        == at_hand(g, r, st, items[j]) && (at_hand(g, r, st, items[j]) ==> channels_of(
        g,
        r,
        next,
        items[j],
    ) == channels_of(g, r, st, items[j])) by {
        if over_bus(g, r, items[j]) {
            assert(st.ins.contains_key(items[j].0->0));
        }
    }
    if at is Some {
        dsp::lemma_grows_knows(st.b, next.b, at->0);
        let j = choose|j: int|
            0 <= j < items.len() && #[trigger] at_hand(g, r, st, items[j]) && channels_of(
                g,
                r,
                st,
                items[j],
            ).len() == at->0.len();
        assert(at_hand(g, r, next, items[j]));
        assert forall|ch: int| 0 <= ch < at->0.len() implies meaning::value(
            next.b,
            v,
            #[trigger] at->0[ch],
        ) == meaning::total(items.map_values(origin_heard(g, r, next, v, ch))) by {
            assert(st.b.knows(at->0[ch]));
            meaning::lemma_value_grows(st.b, next.b, v, at->0[ch]);
            assert(items.map_values(origin_heard(g, r, next, v, ch)) =~= items.map_values(
                origin_heard(g, r, st, v, ch),
            )) by {
                assert forall|j: int| 0 <= j < items.len() implies origin_heard(g, r, next, v, ch)(
                    items[j],
                ) == origin_heard(g, r, st, v, ch)(items[j]) by {
                    assert(at_hand(g, r, next, items[j]) == at_hand(g, r, st, items[j]));
                    if at_hand(g, r, st, items[j]) {
                        lemma_later_heard(g, r, st, next, v, items[j], ch);
                    }
                }
            }
        }
    } else {
        assert forall|j: int| 0 <= j < items.len() implies !(#[trigger] at_hand(
            g,
            r,
            next,
            items[j],
        )) by {
            assert(at_hand(g, r, next, items[j]) == at_hand(g, r, st, items[j]));
        }
    }
}

proof fn lemma_one_arrives<N: ToNodeDsp>(
    g: Graph<N, Edge>,
    r: usize,
    widths: Map<RegionBus, usize>,
    st: RegionState,
    items: Seq<Origin>,
    v: Voice,
)
    requires
        v.plays(),
        soundness::state_sound(st),
        compile::mix_or_none(
            regions::gather(g, r, widths, st, items).0.b,
            regions::gather(g, r, widths, st, items).1,
        ).0.fits(),
    ensures
        ({
            let (mid, gs) = regions::gather(g, r, widths, st, items);
            let (b, at) = compile::mix_or_none(mid.b, gs);
            let next = RegionState { b, ..mid };
            &&& soundness::state_sound(next)
            &&& later(st, next)
            &&& arrives(g, r, next, v, items, at)
        }),
{
    let (mid, gs) = regions::gather(g, r, widths, st, items);
    let (b, at) = compile::mix_or_none(mid.b, gs);
    let next = RegionState { b, ..mid };
    soundness::lemma_gather(g, r, widths, st, items);
    compile::lemma_mix_or_none(mid.b, gs);
    dsp::lemma_grows_fits(mid.b, b);
    lemma_gather_origins(g, r, widths, st, items, v, 0);
    soundness::lemma_state_grows(mid, b);
    dsp::lemma_grows_trans(st.b, mid.b, b);
    if gs.len() == 0 {
        assert(next =~= mid);
        assert forall|j: int| 0 <= j < items.len() implies !(#[trigger] at_hand(
            g,
            r,
            next,
            items[j],
        )) by {
            if at_hand(g, r, mid, items[j]) {
                assert(gs.contains(channels_of(g, r, mid, items[j])));
            }
        }
    } else {
        let out = at->0;
        meaning::law_mix_adds_channel_by_channel(mid.b, v, gs);
        assert forall|j: int| 0 <= j < items.len() && #[trigger] at_hand(g, r, next, items[j]) implies channels_of(
            g,
            r,
            next,
            items[j],
        ).len() <= out.len() by {
            assert(at_hand(g, r, mid, items[j]));
            let y = channels_of(g, r, mid, items[j]);
            assert(gs.contains(y));
            let k = choose|k: int| 0 <= k < gs.len() && gs[k] == y;
            assert(gs[k].len() <= out.len());
        }
        let k = choose|k: int| 0 <= k < gs.len() && (#[trigger] gs[k]).len() == out.len();
        let j = choose|j: int|
            0 <= j < items.len() && #[trigger] at_hand(g, r, mid, items[j]) && channels_of(
                g,
                r,
                mid,
                items[j],
            ) == gs[k];
        assert(at_hand(g, r, next, items[j]));
        assert forall|ch: int| 0 <= ch < out.len() implies meaning::value(b, v, #[trigger] out[ch])
            == meaning::total(items.map_values(origin_heard(g, r, next, v, ch))) by {
            lemma_gather_origins(g, r, widths, st, items, v, ch);
            assert(Seq::new(gs.len(), |k: int| meaning::heard(mid.b, v, gs[k], ch)) =~= Seq::new(
                gs.len(),
                |k: int|
                    if gs[k].len() == 1 {
                        meaning::value(mid.b, v, gs[k][0])
                    } else if ch < gs[k].len() {
                        meaning::value(mid.b, v, gs[k][ch])
                    } else {
                        0
                    },
            ));
            assert(items.map_values(origin_heard(g, r, next, v, ch)) =~= items.map_values(
                origin_heard(g, r, mid, v, ch),
            )) by {
                assert forall|j: int| 0 <= j < items.len() implies origin_heard(g, r, next, v, ch)(
                    items[j],
                ) == origin_heard(g, r, mid, v, ch)(items[j]) by {
                    if at_hand(g, r, mid, items[j]) {
                        lemma_later_heard(g, r, mid, next, v, items[j], ch);
                    }
                }
            }
        }
    }
}

proof fn lemma_inputs_arrive<N: ToNodeDsp>(
    g: Graph<N, Edge>,
    r: usize,
    widths: Map<RegionBus, usize>,
    st: RegionState,
    ins: Seq<Seq<(usize, usize)>>,
    v: Voice,
)
    requires
        v.plays(),
        soundness::state_sound(st),
        regions::region_inputs(g, r, widths, st, ins).0.b.fits(),
    ensures
        ({
            let (next, at) = regions::region_inputs(g, r, widths, st, ins);
            &&& soundness::state_sound(next)
            &&& later(st, next)
            &&& at.len() == ins.len()
            &&& forall|i: int|
                0 <= i < ins.len() ==> arrives(
                    g,
                    r,
                    next,
                    v,
                    region::lower_all(g, ins[i]),
                    #[trigger] at[i],
                )
        }),
    decreases ins.len(),
{
    soundness::lemma_region_inputs(g, r, widths, st, ins);
    if ins.len() > 0 {
        let init = ins.drop_last();
        let (mid, before) = regions::region_inputs(g, r, widths, st, init);
        let items = region::lower_all(g, ins.last());
        let (next, at) = regions::region_inputs(g, r, widths, st, ins);
        soundness::lemma_gather(g, r, widths, mid, items);
        let (mid2, sigs) = regions::gather(g, r, widths, mid, items);
        compile::lemma_mix_or_none(mid2.b, sigs);
        dsp::lemma_grows_fits(mid2.b, next.b);
        dsp::lemma_grows_fits(mid.b, mid2.b);
        lemma_inputs_arrive(g, r, widths, st, init, v);
        lemma_one_arrives(g, r, widths, mid, items, v);
        dsp::lemma_grows_trans(st.b, mid.b, next.b);
        assert forall|i: int| 0 <= i < ins.len() implies arrives(
            g,
            r,
            next,
            v,
            region::lower_all(g, ins[i]),
            #[trigger] at[i],
        ) by {
            if i < init.len() {
                assert(init[i] == ins[i] && at[i] == before[i]);
                assert(arrives(g, r, mid, v, region::lower_all(g, init[i]), before[i]));
                lemma_arrives_later(g, r, mid, next, v, region::lower_all(g, ins[i]), at[i]);
            }
        }
    }
}

/// A region is emitted node by node, each from what arrives at its inputs: of the signals
/// that the input's summands stand for, those of the region's own nodes as they were
/// emitted, and those of other regions over buses. What arrives is as wide as the widest
/// of them, and worth on every channel what they are worth there together.
pub proof fn law_region_nodes_hear_what_arrives<N: ToNodeDsp>(
    g: Graph<N, Edge>,
    r: usize,
    widths: Map<RegionBus, usize>,
    s: Seq<usize>,
    n: usize,
    out_channels: nat,
    v: Voice,
)
    requires
        v.plays(),
        flow::dsp_at(g, n as int) is Some,
        n < g.nodes@.len(),
        regions::emit_region(g, r, widths, s.push(n), out_channels).b.fits(),
    ensures
        ({
            let before = regions::emit_region(g, r, widths, s, out_channels);
            let after = regions::emit_region(g, r, widths, s.push(n), out_channels);
            let d = flow::dsp_at(g, n as int)->0;
            let path = flow::path_at(g, n as int);
            exists|st: RegionState, ins: Seq<Option<Seq<InputRef>>>|
                {
                    &&& (#[trigger] d.emit(path, ins, st.b)).0 == after.b
                    &&& after.outs == before.outs.insert(n, d.emit(path, ins, st.b).1)
                    &&& st.outs == before.outs && after.ins == st.ins && after.reads == st.reads
                    &&& st.b.sound() && before.b.grows_to(st.b)
                    &&& ins.len() == d.dsp_inputs()
                    &&& forall|i: int|
                        0 <= i < ins.len() ==> arrives(
                            g,
                            r,
                            st,
                            v,
                            region::lower_all(g, flow::summands(g, n as int, i)),
                            #[trigger] ins[i],
                        )
                }
        }),
{
    let all = s.push(n);
    assert(all.drop_last() =~= s);
    let before = regions::emit_region(g, r, widths, s, out_channels);
    let after = regions::emit_region(g, r, widths, all, out_channels);
    let d = flow::dsp_at(g, n as int)->0;
    let path = flow::path_at(g, n as int);
    let src = flow::sources(g)[n as int];
    let (st, ins) = regions::region_inputs(g, r, widths, before, src);
    soundness::lemma_region_inputs(g, r, widths, before, src);
    d.lemma_emit_sound(path, ins, st.b);
    dsp::lemma_grows_fits(st.b, after.b);
    dsp::lemma_grows_fits(before.b, st.b);
    soundness::lemma_emit_region(g, r, widths, s, out_channels);
    lemma_inputs_arrive(g, r, widths, before, src, v);
    assert forall|i: int| 0 <= i < ins.len() implies arrives(
        g,
        r,
        st,
        v,
        region::lower_all(g, flow::summands(g, n as int, i)),
        #[trigger] ins[i],
    ) by {
        assert(src[i] == flow::summands(g, n as int, i));
    }
    assert(d.emit(path, ins, st.b).0 == after.b);
}

/// A summand that is no boundary stands for itself; one that is a boundary stands for its
/// buses, each with the output that writes it.
pub proof fn law_summands_stand_for_their_signals<N: ToNodeDsp>(
    g: Graph<N, Edge>,
    s: Seq<(usize, usize)>,
    x: Origin,
)
    ensures
        region::lower_all(g, s).contains(x) <==> exists|j: int|
            0 <= j < s.len() && #[trigger] stands_for(g, s[j], x),
    decreases s.len(),
{
    let all = region::lower_all(g, s);
    if s.len() > 0 {
        let init = s.drop_last();
        law_summands_stand_for_their_signals(g, init, x);
        let before = region::lower_all(g, init);
        let y = s[s.len() - 1];
        let new = region::lower(g, y);
        if all.contains(x) {
            let k = choose|k: int| 0 <= k < all.len() && all[k] == x;
            if k < before.len() {
                assert(before[k] == x);
                let j = choose|j: int| 0 <= j < init.len() && #[trigger] stands_for(g, init[j], x);
                assert(stands_for(g, s[j], x));
            } else {
                let q = k - before.len();
                assert(new[q] == x);
                if flow::cuts(g, y.0 as int) {
                    assert(region::buses_at(g, y.0)[q] == (x.0->0, x.1));
                }
                assert(stands_for(g, s[s.len() - 1], x));
            }
        }
        if exists|j: int| 0 <= j < s.len() && #[trigger] stands_for(g, s[j], x) {
            let j = choose|j: int| 0 <= j < s.len() && #[trigger] stands_for(g, s[j], x);
            if j < init.len() {
                assert(stands_for(g, init[j], x));
                let k = choose|k: int| 0 <= k < before.len() && before[k] == x;
                assert(all[k] == x);
            } else if flow::cuts(g, y.0 as int) {
                let bs = region::buses_at(g, y.0);
                let q = choose|q: int| 0 <= q < bs.len() && bs[q] == (x.0->0, x.1);
                assert(new[q] == x);
                assert(all[before.len() + q] == x);
            } else {
                assert(new[0] == x);
                assert(all[before.len() as int] == x);
            }
        }
    }
}

/// Whether a summand stands for a signal.
pub open spec fn stands_for<N: ToNodeDsp>(g: Graph<N, Edge>, s: (usize, usize), x: Origin) -> bool {
    match flow::dsp_at(g, s.0 as int) {
        Some(d) => if d.boundary() {
            x.0 is Some && region::buses_at(g, s.0).contains((x.0->0, x.1))
        } else {
            x == (None::<RegionBus>, s)
        },
        None => x == (None::<RegionBus>, s),
    }
}

/// Whether dsp output `x`, of a node that is no boundary, is joined to an input of node
/// `m`.
pub open spec fn joined_to<N: ToNodeDsp>(g: Graph<N, Edge>, m: usize, x: (usize, usize)) -> bool {
    &&& exists|k: int, i: int| #[trigger] wiring::joins(g, k, m as int, i) && wiring::source(g, k) == x
    &&& !flow::cuts(g, x.0 as int)
}

/// The buses that a boundary stands for are written by just the outputs that feed it
/// through boundaries alone: those that are joined to it or to a boundary behind it.
pub proof fn law_boundaries_stand_for_what_feeds_them<N: ToNodeDsp>(
    g: Graph<N, Edge>,
    b: usize,
    x: (usize, usize),
)
    requires
        g.wf(),
        g.nodes@.len() <= usize::MAX,
        b < g.nodes@.len(),
        flow::cuts(g, b as int),
        region::classic(g, b) is None,
    ensures
        (exists|k: int|
            0 <= k < region::buses_at(g, b).len() && (#[trigger] region::buses_at(g, b)[k]).1 == x)
            <==> exists|m: usize|
            m < g.nodes@.len() && #[trigger] topo::needed(region::boundary_deps(g), seq![b], m)
                && joined_to(g, m, x),
{
    broadcast use vstd::seq_lib::group_to_multiset_ensures;

    let e = region::endpoints(g, b);
    let w = region::wired(g, b, g.nodes@.len());
    let bs = region::buses_at(g, b);
    order::lemma_sorted_multiset(w, flow::summand_order(flow::node_paths(g)));
    lemma_wired(g, b, g.nodes@.len(), x);
    assert(e.contains(x) <==> e.to_multiset().count(x) > 0);
    assert(w.contains(x) <==> w.to_multiset().count(x) > 0);
    if e.contains(x) {
        let k = choose|k: int| 0 <= k < e.len() && e[k] == x;
        assert(bs[k].1 == x);
    }
    if exists|k: int| 0 <= k < bs.len() && (#[trigger] bs[k]).1 == x {
        let k = choose|k: int| 0 <= k < bs.len() && (#[trigger] bs[k]).1 == x;
        assert(e[k] == x);
    }
    if w.contains(x) {
        let m = choose|m: usize|
            m < g.nodes@.len() && #[trigger] topo::needed(region::boundary_deps(g), seq![b], m)
                && joined_to(g, m, x);
        assert(region::behind(g, b, m));
    }
}

proof fn lemma_plain_part<N: ToNodeDsp>(g: Graph<N, Edge>, s: Seq<(usize, usize)>, x: (usize, usize))
    ensures
        region::plain_part(g, s).contains(x) <==> s.contains(x) && !flow::cuts(g, x.0 as int),
    decreases s.len(),
{
    let p = region::plain_part(g, s);
    if s.len() > 0 {
        let init = s.drop_last();
        lemma_plain_part(g, init, x);
        let q = region::plain_part(g, init);
        if p.contains(x) {
            let k = choose|k: int| 0 <= k < p.len() && p[k] == x;
            if k < q.len() {
                assert(q[k] == x);
                let j = choose|j: int| 0 <= j < init.len() && init[j] == x;
                assert(s[j] == x);
            } else {
                assert(s[s.len() - 1] == x);
            }
        }
        if s.contains(x) && !flow::cuts(g, x.0 as int) {
            let j = choose|j: int| 0 <= j < s.len() && s[j] == x;
            if j < init.len() {
                assert(init[j] == x);
                let k = choose|k: int| 0 <= k < q.len() && q[k] == x;
                assert(p[k] == x);
            } else {
                assert(p[p.len() - 1] == x);
            }
        }
    }
}

proof fn lemma_flat_joined<N: ToNodeDsp>(g: Graph<N, Edge>, m: usize, x: (usize, usize))
    requires
        m < g.nodes@.len(),
    ensures
        region::plain_part(g, flow::flat(flow::sources(g)[m as int])).contains(x) <==> joined_to(
            g,
            m,
            x,
        ),
{
    let ins = flow::sources(g)[m as int];
    let f = flow::flat(ins);
    lemma_plain_part(g, f, x);
    if f.contains(x) {
        let k = choose|k: int| 0 <= k < f.len() && f[k] == x;
        flow::lemma_flat_from(ins, k);
        let (i, j) = choose|i: int, j: int|
            0 <= i < ins.len() && 0 <= j < ins[i].len() && #[trigger] ins[i][j] == f[k];
        wiring::law_summands_are_the_joined_outputs(g, m as int, i, |y: (usize, usize)| 0);
        assert(flow::summands(g, m as int, i) == ins[i]);
        assert(ins[i].contains(x));
        let e = choose|e: int| #[trigger]
            wiring::joins(g, e, m as int, i) && wiring::source(g, e) == x;
        assert(wiring::joins(g, e, m as int, i));
    }
    if exists|k: int, i: int| #[trigger] wiring::joins(g, k, m as int, i) && wiring::source(g, k) == x {
        let (k, i) = choose|k: int, i: int| #[trigger]
            wiring::joins(g, k, m as int, i) && wiring::source(g, k) == x;
        wiring::law_summands_are_the_joined_outputs(g, m as int, i, |y: (usize, usize)| 0);
        let list = flow::summands(g, m as int, i);
        assert(list.contains(x));
        let j = choose|j: int| 0 <= j < list.len() && list[j] == x;
        assert(ins[i] == list);
        flow::lemma_flat_contains(ins, i, j);
    }
}

proof fn lemma_wired<N: ToNodeDsp>(g: Graph<N, Edge>, b: usize, n: nat, x: (usize, usize))
    requires
        n <= g.nodes@.len() <= usize::MAX,
    ensures
        region::wired(g, b, n).contains(x) <==> exists|m: usize|
            m < n && #[trigger] topo::needed(region::boundary_deps(g), seq![b], m) && joined_to(
                g,
                m,
                x,
            ),
    decreases n,
{
    let all = region::wired(g, b, n);
    if n > 0 {
        let m = (n - 1) as usize;
        lemma_wired(g, b, (n - 1) as nat, x);
        let before = region::wired(g, b, (n - 1) as nat);
        let part = region::plain_part(g, flow::flat(flow::sources(g)[n - 1]));
        lemma_flat_joined(g, m, x);
        if region::behind(g, b, m) {
            assert(topo::needed(region::boundary_deps(g), seq![b], m));
            assert(all == before + part);
            if before.contains(x) {
                let k = choose|k: int| 0 <= k < before.len() && before[k] == x;
                assert(all[k] == x);
            }
            if part.contains(x) {
                let k = choose|k: int| 0 <= k < part.len() && part[k] == x;
                assert(all[before.len() + k] == x);
            }
            if all.contains(x) {
                let k = choose|k: int| 0 <= k < all.len() && all[k] == x;
                if k < before.len() {
                    assert(before[k] == x);
                } else {
                    assert(part[k - before.len()] == x);
                }
            }
        }
        if exists|j: usize|
            j < n && #[trigger] topo::needed(region::boundary_deps(g), seq![b], j) && joined_to(
                g,
                j,
                x,
            ) {
            let j = choose|j: usize|
                j < n && #[trigger] topo::needed(region::boundary_deps(g), seq![b], j) && joined_to(
                    g,
                    j,
                    x,
                );
            if j < m {
                assert(j < n - 1 && topo::needed(region::boundary_deps(g), seq![b], j));
            }
        }
    }
}

proof fn lemma_faded_worth(b: BuilderView, v: Voice, group: Seq<InputRef>, fade: usize, n: nat)
    requires
        v.plays(),
        b.sound(),
        b.knows_all(group),
        n <= group.len(),
        fade < b.params.len(),
        regions::faded(b, group, fade, n).0.fits(),
    ensures
        ({
            let (c, refs) = regions::faded(b, group, fade, n);
            &&& b.grows_to(c)
            &&& c.sound()
            &&& c.knows_all(refs)
            &&& c.params == b.params
            &&& refs.len() == n
            &&& forall|i: int|
                0 <= i < n ==> meaning::value(c, v, #[trigger] refs[i]) == meaning::value(
                    b,
                    v,
                    group[i],
                ) * (v.param)(b.params[fade as int].name)
            &&& forall|i: int| 0 <= i < n ==> c.rate_of(#[trigger] refs[i]) == Rate::Audio
        }),
    decreases n,
{
    soundness::lemma_faded(b, group, fade, n);
    if n > 0 {
        let (b1, before) = regions::faded(b, group, fade, (n - 1) as nat);
        let (c, refs) = regions::faded(b, group, fade, n);
        let x = group[n - 1];
        let (b2, ch) = dsp::lifted(b1, x);
        let u = regions::fade_unit(ch, fade);
        soundness::lemma_faded(b, group, fade, (n - 1) as nat);
        soundness::lemma_lifted(b1, x);
        dsp::lemma_with_unit(b2, u);
        assert(c == b2.with_unit(u));
        dsp::lemma_grows_fits(b2, c);
        dsp::lemma_grows_fits(b1, b2);
        lemma_faded_worth(b, v, group, fade, (n - 1) as nat);
        assert(b.knows(x));
        dsp::lemma_grows_knows(b, b1, group);
        assert(b1.knows(group[n - 1]));
        meaning::lemma_value_grows(b, b1, v, x);
        assert(meaning::value(b2, v, ch) == meaning::value(b1, v, x)) by {
            if b1.rate_of(x) != Rate::Audio {
                let k = dsp::unit("K2A"@, Rate::Audio, seq![x], 1);
                assert(b1.knows_all(k.inputs));
                meaning::lemma_last_unit(b1, v, k);
                assert(k.inputs.map_values(|r: InputRef| meaning::value(b1, v, r)) =~= seq![
                    meaning::value(b1, v, x),
                ]);
            }
        }
        assert(b2.params == b.params);
        assert(b2.knows_all(u.inputs));
        meaning::lemma_last_unit(b2, v, u);
        assert(u.inputs.map_values(|r: InputRef| meaning::value(b2, v, r)) =~= seq![
            meaning::value(b, v, x),
            (v.param)(b.params[fade as int].name),
        ]);
        dsp::lemma_grows_trans(b1, b2, c);
        assert forall|i: int| 0 <= i < n - 1 implies meaning::value(c, v, #[trigger] refs[i])
            == meaning::value(b1, v, before[i]) && c.rate_of(refs[i]) == b1.rate_of(before[i]) by {
            assert(refs[i] == before[i]);
            assert(b1.knows(before[i]));
            meaning::lemma_value_grows(b1, c, v, before[i]);
            meaning::lemma_rate_grows(b1, c, before[i]);
        }
    }
}

/// Whether the fade gains of a region are params of their own, each named for its path.
pub open spec fn fades_named(ws: WriteState) -> bool {
    forall|p: Seq<usize>| #[trigger]
        ws.fades.contains_key(p) ==> ws.fades[p] < ws.b.params.len() && ws.b.params[ws.fades[p] as int].name
            == param::name_of(p, "fade"@)
}

/// The path of a bus: that of the boundary or of the node that it is named by.
pub open spec fn bus_path<N: ToNodeDsp>(g: Graph<N, Edge>, bus: RegionBus) -> Seq<usize> {
    flow::path_at(
        g,
        match bus {
            RegionBus::Bus(n) => n as int,
            RegionBus::Src(n, _) => n as int,
        },
    )
}

/// The output port that a bus is named by, if any.
pub open spec fn bus_output(bus: RegionBus) -> Option<usize> {
    match bus {
        RegionBus::Bus(_) => None,
        RegionBus::Src(_, port) => Some(port),
    }
}

/// The label of a bus's param.
pub open spec fn bus_label(bus: RegionBus) -> Seq<char> {
    match bus {
        RegionBus::Bus(_) => "bus"@,
        RegionBus::Src(_, port) => "bus"@ + text::dec(port as nat),
    }
}

/// Writing a bus puts the source's every channel, times the fade of the bus's path, on the
/// bus, at audio rate; where the source gave nothing, mono silence. The bus is a param of
/// its own, and the binding says which, and how wide the bus is, and by what it is named.
pub proof fn law_bus_carries_its_source_times_the_fade<N: ToNodeDsp>(
    g: Graph<N, Edge>,
    outs: Outputs,
    ws: WriteState,
    w: (RegionBus, (usize, usize)),
    v: Voice,
)
    requires
        v.plays(),
        ws.b.sound(),
        compile::outputs_known(ws.b, outs),
        fades_named(ws),
        regions::write_bus(g, outs, ws, w).b.fits(),
    ensures
        ({
            let next = regions::write_bus(g, outs, ws, w);
            let src = if wiring::emitted(outs, w.1) {
                outs[w.1.0][w.1.1 as int]
            } else {
                seq![InputRef::Constant(0)]
            };
            let x = next.written.last();
            let u = next.b.units.last();
            &&& fades_named(next)
            &&& next.written.len() == ws.written.len() + 1 && next.written.drop_last() == ws.written
            &&& x.node_path == bus_path(g, w.0)
            &&& x.output == bus_output(w.0)
            &&& x.channels == src.len() as usize
            &&& x.unit == next.b.units.len() - 1
            &&& x.param < next.b.params.len()
            &&& x.param >= ws.b.params.len()
            &&& next.b.params[x.param as int].name == param::name_of(
                bus_path(g, w.0),
                bus_label(w.0),
            )
            &&& u.name == "Out"@ && u.rate == Rate::Audio && u.num_outputs == 0
            &&& u.inputs.len() == src.len() + 1
            &&& u.inputs[0] == InputRef::Param(x.param)
            &&& forall|i: int|
                0 <= i < src.len() ==> meaning::value(next.b, v, #[trigger] u.inputs[1 + i])
                    == meaning::value(ws.b, v, src[i]) * (v.param)(
                    param::name_of(bus_path(g, w.0), "fade"@),
                )
            &&& forall|i: int|
                0 <= i < src.len() ==> next.b.rate_of(#[trigger] u.inputs[1 + i]) == Rate::Audio
            &&& next.widths == ws.widths.insert(w.0, src.len() as usize)
        }),
{
    let next = regions::write_bus(g, outs, ws, w);
    let group = if wiring::emitted(outs, w.1) {
        outs[w.1.0][w.1.1 as int]
    } else {
        seq![InputRef::Constant(0)]
    };
    assert(dsp::silence(1) =~= seq![InputRef::Constant(0)]);
    let path = bus_path(g, w.0);
    let fresh = ws.b.params.len() as usize;
    let f = dsp::fade_param(path);
    let known = ws.fades.contains_key(path);
    let b0 = ws.b.with_param(f);
    let (b1, fade) = if known {
        (ws.b, ws.fades[path])
    } else {
        (b0.with_gain(path, fresh), fresh)
    };
    dsp::lemma_with_param(ws.b, f);
    let q = dsp::control_param(param::name_of(path, bus_label(w.0)));
    let b2 = b1.with_param(q);
    let (b3, refs) = regions::faded(b2, group, fade, group.len());
    let u = next.b.units.last();
    assert(next.b == b3.with_unit(u));
    dsp::lemma_with_unit(b3, u);
    soundness::lemma_faded(b2, group, fade, group.len());
    dsp::lemma_grows_fits(b3, next.b);
    dsp::lemma_grows_fits(b2, b3);
    if !known {
        dsp::lemma_with_gain(b0, path, fresh);
        dsp::lemma_grows_trans(ws.b, b0, b1);
    }
    dsp::lemma_with_param(b1, q);
    dsp::lemma_grows_trans(ws.b, b1, b2);
    assert(ws.b.knows_all(group)) by {
        if wiring::emitted(outs, w.1) {
            assert(ws.b.knows_groups(outs[w.1.0]));
        }
    }
    dsp::lemma_grows_knows(ws.b, b2, group);
    assert(b2.params[fade as int].name == param::name_of(path, "fade"@));
    lemma_faded_worth(b2, v, group, fade, group.len());
    assert forall|i: int| 0 <= i < group.len() implies meaning::value(
        next.b,
        v,
        #[trigger] u.inputs[1 + i],
    ) == meaning::value(ws.b, v, group[i]) * (v.param)(param::name_of(path, "fade"@))
        && next.b.rate_of(u.inputs[1 + i]) == Rate::Audio by {
        assert(u.inputs[1 + i] == refs[i]);
        assert(b3.knows(refs[i]));
        meaning::lemma_value_grows(b3, next.b, v, refs[i]);
        meaning::lemma_rate_grows(b3, next.b, refs[i]);
        assert(ws.b.knows(group[i]));
        meaning::lemma_value_grows(ws.b, b2, v, group[i]);
    }
    assert(next.written.drop_last() =~= ws.written);
    assert(next.b.params[b1.params.len() as int] == q);
    assert forall|p: Seq<usize>| #[trigger] next.fades.contains_key(p) implies next.fades[p]
        < next.b.params.len() && next.b.params[next.fades[p] as int].name == param::name_of(
        p,
        "fade"@,
    ) by {
        if ws.fades.contains_key(p) {
            assert(next.b.params[ws.fades[p] as int] == ws.b.params[ws.fades[p] as int]);
        } else {
            assert(p == path);
            assert(next.b.params[fresh as int] == f);
        }
    }
}

/// Reading a bus gives its every channel, in order, from one unit that reads the bus's
/// param, at audio rate and as wide as the bus was written, or mono where it was not; a bus
/// that was read is not read again. The binding says by what the bus is named.
pub proof fn law_bus_is_read_whole_and_once<N: ToNodeDsp>(
    g: Graph<N, Edge>,
    widths: Map<RegionBus, usize>,
    st: RegionState,
    bus: RegionBus,
)
    requires
        regions::read_bus(g, widths, st, bus).0.b.fits(),
    ensures
        ({
            let (next, group) = regions::read_bus(g, widths, st, bus);
            let n = st.b.units.len();
            let x = next.reads.last();
            let u = next.b.units.last();
            &&& next.outs == st.outs
            &&& next.ins.contains_key(bus) && next.ins[bus] == group
            &&& st.ins.contains_key(bus) ==> next == st
            &&& !st.ins.contains_key(bus) ==> {
                &&& next.b.units.len() == n + 1 && next.b.units.drop_last() == st.b.units
                &&& next.b.params.len() == st.b.params.len() + 1
                &&& u.name == "In"@ && u.rate == Rate::Audio
                &&& u.inputs.len() == 1 && u.inputs[0] == InputRef::Param(x.param)
                &&& group.len() == (if widths.contains_key(bus) {
                    widths[bus]
                } else {
                    1
                })
                &&& u.num_outputs == group.len()
                &&& forall|i: int|
                    0 <= i < group.len() ==> #[trigger] group[i] == (InputRef::Unit {
                        unit: n as usize,
                        output: i as usize,
                    })
                &&& next.reads.drop_last() == st.reads
                &&& x.node_path == bus_path(g, bus) && x.output == bus_output(bus)
                &&& x.channels == group.len() && x.unit == n && x.param == st.b.params.len()
                &&& next.b.params.last().name == param::name_of(bus_path(g, bus), bus_label(bus))
                &&& next.b.bindings == st.b.bindings && next.b.monitors == st.b.monitors
                    && next.b.gains == st.b.gains
            }
        }),
{
    let (next, group) = regions::read_bus(g, widths, st, bus);
    if !st.ins.contains_key(bus) {
        assert(next.b.units.drop_last() =~= st.b.units);
        assert(next.reads.drop_last() =~= st.reads);
    }
}

/// Whether node `a` has just one summand at its first input, `x`.
pub open spec fn fed_by_one<N: ToNodeDsp>(g: Graph<N, Edge>, a: usize, x: (usize, usize)) -> bool {
    &&& flow::n_in(g, a as int) > 0
    &&& flow::summands(g, a as int, 0).len() == 1
    &&& flow::summands(g, a as int, 0)[0] == x
}

/// Whether boundary `b` alone feeds node `a`.
pub open spec fn fed_by_boundary<N: ToNodeDsp>(g: Graph<N, Edge>, a: usize, b: usize) -> bool {
    flow::cuts(g, b as int) && exists|port: usize| #[trigger] fed_by_one(g, a, (b, port))
}

/// Whether boundaries follow one another, each fed by the next alone, up to the output
/// `src` of a node that is none.
pub open spec fn boundary_chain<N: ToNodeDsp>(
    g: Graph<N, Edge>,
    p: Seq<usize>,
    src: (usize, usize),
) -> bool {
    &&& p.len() > 0
    &&& forall|k: int| 0 <= k < p.len() - 1 ==> #[trigger] fed_by_boundary(g, p[k], p[k + 1])
    &&& fed_by_one(g, p.last(), src)
    &&& !flow::cuts(g, src.0 as int)
}

proof fn lemma_chain_path<N: ToNodeDsp>(g: Graph<N, Edge>, b: usize, fuel: nat) -> (p: Seq<usize>)
    requires
        g.wf(),
        b < g.nodes@.len(),
        region::chain(g, b, fuel) is Some,
    ensures
        p.len() > 0 && p[0] == b,
        match region::chain(g, b, fuel) {
            Some((last, src)) => boundary_chain(g, p, src) && p.last() == last,
            None => true,
        },
    decreases fuel,
{
    let ins = flow::sources(g)[b as int];
    let src = region::lone(ins)->0;
    assert(ins[0] == flow::summands(g, b as int, 0));
    assert(fed_by_one(g, b, src));
    flow::lemma_summands(g, b as int, 0);
    assert(flow::summands(g, b as int, 0)[0].0 < g.nodes@.len());
    if !flow::cuts(g, src.0 as int) {
        seq![b]
    } else {
        let q = lemma_chain_path(g, src.0, (fuel - 1) as nat);
        let p = seq![b] + q;
        assert forall|k: int| 0 <= k < p.len() - 1 implies #[trigger] fed_by_boundary(
            g,
            p[k],
            p[k + 1],
        ) by {
            if k == 0 {
                assert(fed_by_one(g, p[0], (p[1], src.1)));
            } else {
                assert(p[k] == q[k - 1] && p[k + 1] == q[k - 1 + 1]);
                assert(fed_by_boundary(g, q[k - 1], q[k - 1 + 1]));
            }
        }
        assert(p.last() == q.last());
        p
    }
}

/// A boundary that a pure chain of boundaries feeds, each by the next alone, stands for
/// one bus, named by the last of them, and written by the output that feeds that one.
pub proof fn law_boundary_chain_is_one_bus<N: ToNodeDsp>(g: Graph<N, Edge>, b: usize)
    requires
        g.wf(),
        b < g.nodes@.len(),
        flow::cuts(g, b as int),
        region::classic(g, b) is Some,
    ensures
        region::buses_at(g, b).len() == 1,
        exists|p: Seq<usize>, src: (usize, usize)| #[trigger]
            boundary_chain(g, p, src) && p[0] == b && region::buses_at(g, b)[0] == (
                RegionBus::Bus(p.last()),
                src,
            ),
{
    let p = lemma_chain_path(g, b, g.nodes@.len());
    let (last, src) = region::classic(g, b)->0;
    assert(boundary_chain(g, p, src));
}

/// A boundary that an output feeds alone stands for one bus, named by the boundary.
pub proof fn law_lone_boundary_is_one_bus<N: ToNodeDsp>(
    g: Graph<N, Edge>,
    b: usize,
    src: (usize, usize),
)
    requires
        b < g.nodes@.len(),
        flow::cuts(g, b as int),
        fed_by_one(g, b, src),
        !flow::cuts(g, src.0 as int),
    ensures
        region::buses_at(g, b) == seq![(RegionBus::Bus(b), src)],
{
    let ins = flow::sources(g)[b as int];
    assert(ins[0] == flow::summands(g, b as int, 0));
    assert(region::lone(ins) == Some(src));
    assert(region::classic(g, b) == Some((b, src)));
}

/// Whether an edge leads from one node to an input of another.
pub open spec fn edge_leads<N: ToNodeDsp>(g: Graph<N, Edge>, from: usize, to: usize) -> bool {
    exists|k: int, i: int| #[trigger]
        wiring::joins(g, k, to as int, i) && g.edges@[k].source == from
}

/// Whether an edge joins two nodes directly, in one direction or the other, and both are in
/// a region.
pub open spec fn side_by_side<N: ToNodeDsp>(g: Graph<N, Edge>) -> spec_fn(usize, usize) -> bool {
    |a: usize, b: usize|
        region::region_of(g, a) is Some && region::region_of(g, b) is Some && (edge_leads(g, a, b)
            || edge_leads(g, b, a))
}

/// Regions are what boundaries part. A node is in a region where it feeds a sink and is no
/// boundary. Nodes that an edge joins are in one region, and nodes of one region are joined
/// by edges that lead through the region alone.
pub proof fn law_regions_are_parted_by_boundaries<N: ToNodeDsp>(
    g: Graph<N, Edge>,
    a: usize,
    b: usize,
)
    ensures
        region::region_of(g, a) is Some <==> a < g.nodes@.len() && topo::needed(
            flow::flow_deps(g),
            flow::sinks(g),
            a,
        ) && !(flow::dsp_at(g, a as int) is Some && flow::dsp_at(g, a as int)->0.boundary()),
        side_by_side(g)(a, b) ==> region::region_of(g, a) == region::region_of(g, b),
        region::region_of(g, a) is Some && region::region_of(g, a) == region::region_of(g, b)
            ==> walk::reaches(side_by_side(g), a, b),
{
    let step = region::joined(g);
    let side = side_by_side(g);
    assert forall|x: usize, y: usize| #[trigger] step(x, y) == side(x, y) by {
        if region::inner(g, x) && region::inner(g, y) {
            wiring::law_dependencies_are_the_joined_nodes(g, x, y);
            wiring::law_dependencies_are_the_joined_nodes(g, y, x);
        }
    }
    assert(step =~= side);
    assert(forall|x: usize, y: usize| #[trigger] step(x, y) ==> step(y, x));
    if region::inner(g, a) && region::inner(g, b) {
        uncut::lemma_leader(g, a);
        uncut::lemma_leader(g, b);
        let l = region::region_of(g, a)->0;
        let m = region::region_of(g, b)->0;
        assert(walk::reaches(step, a, l) && walk::reaches(step, b, m));
        if side(a, b) {
            walk::lemma_reaches_self(step, a);
            walk::lemma_reaches_step(step, a, a, b);
            walk::lemma_reaches_sym(step, a, b);
            walk::lemma_reaches_trans(step, a, b, m);
            walk::lemma_reaches_trans(step, b, a, l);
            assert(l <= m && m <= l);
        }
        if l == m {
            walk::lemma_reaches_sym(step, b, l);
            walk::lemma_reaches_trans(step, a, l, b);
        }
    }
}

/// A signal is faded at audio rate: what a fade takes runs at it, whatever rate the signal
/// came at.
pub proof fn law_signals_are_lifted_before_they_fade(
    b: BuilderView,
    group: Seq<InputRef>,
    fade: usize,
    n: nat,
    i: int,
)
    requires
        n <= group.len(),
        regions::faded(b, group, fade, n).0.fits(),
        0 <= i < n,
    ensures
        ({
            let (c, refs) = regions::faded(b, group, fade, n);
            &&& refs.len() == n
            &&& b.units.is_prefix_of(c.units)
            &&& c.params == b.params
            &&& refs[i] is Unit
            &&& refs[i]->unit < c.units.len()
            &&& c.units[refs[i]->unit as int].inputs.len() == 2
            &&& c.rate_of(c.units[refs[i]->unit as int].inputs[0]) == Rate::Audio
        }),
    decreases n,
{
    let m = (n - 1) as nat;
    let (b1, before) = regions::faded(b, group, fade, m);
    let (c, refs) = regions::faded(b, group, fade, n);
    let (b2, ch) = dsp::lifted(b1, group[m as int]);
    lemma_faded_len(b, group, fade, m);
    dsp::law_lifted_signals_run_at_audio_rate(b1, group[m as int]);
    if i < m {
        law_signals_are_lifted_before_they_fade(b, group, fade, m, i);
        let k = before[i]->unit as int;
        assert(refs[i] == before[i]);
        assert(c.units[k] == b1.units[k]);
    } else {
        assert(c.units[c.units.len() - 1] == regions::fade_unit(ch, fade));
    }
}

proof fn lemma_faded_len(b: BuilderView, group: Seq<InputRef>, fade: usize, n: nat)
    ensures
        regions::faded(b, group, fade, n).1.len() == n,
        b.units.is_prefix_of(regions::faded(b, group, fade, n).0.units),
        regions::faded(b, group, fade, n).0.params == b.params,
    decreases n,
{
    if n > 0 {
        lemma_faded_len(b, group, fade, (n - 1) as nat);
    }
}

} // verus!
