//! What each DSP node does to the signals that arrive at it.

use crate::dsp::{self, BuilderView, Float, InputRef, Rate};
use crate::dsp_node::DspNode;
use crate::meaning::{self, Voice};
use crate::node::bus::Bus;
use crate::node::lag::{self, Lag};
use crate::node::out::{self, Out};
use crate::node::pack::Pack;
use crate::node::scope_out::ScopeOut;
use crate::node::sine::Sine;
use crate::node::sum::Sum;
use crate::node::tap::Tap;
use crate::node::unpack::Unpack;
use crate::node::{self, NodeDsp};
use crate::param;
use vstd::prelude::*;

verus! {

/// The signal at input `i`: mono silence where nothing arrives.
pub open spec fn fed(inputs: Seq<Option<Seq<InputRef>>>, i: int) -> Seq<InputRef> {
    if 0 <= i < inputs.len() && inputs[i] is Some {
        inputs[i]->0
    } else {
        seq![InputRef::Constant(0)]
    }
}

/// Whether one param was emitted, which follows the state of the node at `path`.
pub open spec fn one_param(
    b: BuilderView,
    c: BuilderView,
    path: Seq<usize>,
    label: Seq<char>,
    default: Float,
    lag: Option<Float>,
) -> bool {
    &&& c.params.len() == b.params.len() + 1
    &&& b.params == c.params.drop_last()
    &&& c.params.last().name == param::name_of(path, label)
    &&& c.params.last().default == default
    &&& c.params.last().rate == Rate::Control
    &&& !c.params.last().is_trig
    &&& c.params.last().lag == lag
    &&& c.bindings.len() == b.bindings.len() + 1
    &&& b.bindings == c.bindings.drop_last()
    &&& c.bindings.last().0 == path
    &&& c.bindings.last().1 == b.params.len()
}

/// Whether nothing was recorded but units.
pub open spec fn units_only(b: BuilderView, c: BuilderView) -> bool {
    &&& c.params == b.params
    &&& c.bindings == b.bindings
    &&& c.monitors == b.monitors
    &&& c.gains == b.gains
    &&& c.out_channels == b.out_channels
    &&& b.units.is_prefix_of(c.units)
}

proof fn lemma_fed(inputs: Seq<Option<Seq<InputRef>>>, i: int)
    ensures
        node::group_at(inputs, i) == fed(inputs, i),
{
    assert(dsp::silence(1) =~= seq![InputRef::Constant(0)]);
}

/// A sine is one oscillator at audio rate, whose frequency is the node's own param.
pub proof fn law_sine_oscillates_at_its_frequency(
    n: Sine,
    path: Seq<usize>,
    inputs: Seq<Option<Seq<InputRef>>>,
    b: BuilderView,
    v: Voice,
)
    requires
        v.plays(),
        b.sound(),
        n.emit(path, inputs, b).0.fits(),
    ensures
        ({
            let (c, outs) = n.emit(path, inputs, b);
            &&& outs.len() == 1 && outs[0].len() == 1
            &&& meaning::value(c, v, outs[0][0]) == (v.unit)(
                "SinOsc"@,
                Rate::Audio,
                0i16,
                seq![(v.param)(param::name_of(path, "freq"@)), 0],
                0usize,
            )
            &&& c.rate_of(outs[0][0]) == Rate::Audio
            &&& c.units.len() == b.units.len() + 1
            &&& c.units.last().num_outputs == 1
            &&& one_param(b, c, path, "freq"@, n.freq_spec(), None)
            &&& c.monitors == b.monitors && c.gains == b.gains
        }),
{
    let (c, outs) = n.emit(path, inputs, b);
    n.lemma_emit_sound(path, inputs, b);
    let p = c.params.last();
    let b1 = b.with_bound_param(path, p);
    let u = c.units.last();
    dsp::lemma_with_bound_param(b, path, p);
    assert(b1.units =~= c.units.drop_last());
    assert(b1.fits());
    assert(b1.with_unit(u) =~= c);
    assert(b1.knows_all(u.inputs));
    meaning::lemma_last_unit(b1, v, u);
    assert(u.inputs.map_values(|r: InputRef| meaning::value(b1, v, r)) =~= seq![
        (v.param)(param::name_of(path, "freq"@)),
        0,
    ]);
    assert(c.params.drop_last() =~= b.params);
    assert(c.bindings.drop_last() =~= b.bindings);
}

proof fn lemma_lagged_worth(b: BuilderView, v: Voice, group: Seq<InputRef>, dur: usize, n: nat)
    requires
        b.sound(),
        b.knows_all(group),
        n <= group.len(),
        dur < b.params.len(),
        lag::lagged(b, group, dur, n).0.fits(),
    ensures
        ({
            let (c, chans) = lag::lagged(b, group, dur, n);
            &&& b.grows_to(c)
            &&& c.sound()
            &&& c.knows_all(chans)
            &&& units_only(b, c)
            &&& c.units.len() == b.units.len() + n
            &&& chans.len() == n
            &&& forall|i: int|
                0 <= i < n ==> meaning::value(c, v, #[trigger] chans[i]) == (v.unit)(
                    "Lag"@,
                    Rate::Audio,
                    0i16,
                    seq![
                        meaning::value(b, v, group[i]),
                        (v.param)(b.params[dur as int].name),
                    ],
                    0usize,
                )
            &&& forall|i: int| 0 <= i < n ==> c.rate_of(#[trigger] chans[i]) == Rate::Audio
        }),
    decreases n,
{
    lag::lemma_lagged(b, group, dur, n);
    if n > 0 {
        let (b1, before) = lag::lagged(b, group, dur, (n - 1) as nat);
        let (c, chans) = lag::lagged(b, group, dur, n);
        let u = c.units.last();
        dsp::lemma_with_unit(b1, u);
        assert(c == b1.with_unit(u));
        dsp::lemma_grows_fits(b1, c);
        lemma_lagged_worth(b, v, group, dur, (n - 1) as nat);
        dsp::lemma_grows_knows(b, b1, group);
        assert(b1.knows(group[n - 1]));
        assert(b1.params[dur as int] == b.params[dur as int]);
        assert(b1.knows_all(u.inputs));
        meaning::lemma_last_unit(b1, v, u);
        assert(b.knows(group[n - 1]));
        meaning::lemma_value_grows(b, b1, v, group[n - 1]);
        assert(u.inputs.map_values(|r: InputRef| meaning::value(b1, v, r)) =~= seq![
            meaning::value(b, v, group[n - 1]),
            (v.param)(b.params[dur as int].name),
        ]);
        assert forall|i: int| 0 <= i < n - 1 implies meaning::value(c, v, #[trigger] chans[i])
            == meaning::value(b1, v, before[i]) && c.rate_of(chans[i]) == b1.rate_of(before[i]) by {
            assert(chans[i] == before[i]);
            assert(b1.knows(before[i]));
            meaning::lemma_value_grows(b1, c, v, before[i]);
            meaning::lemma_rate_grows(b1, c, before[i]);
        }
    }
}

/// A lag smooths every channel of its input on its own, over the duration that is the
/// node's own param.
pub proof fn law_lag_smooths_every_channel(
    n: Lag,
    path: Seq<usize>,
    inputs: Seq<Option<Seq<InputRef>>>,
    b: BuilderView,
    v: Voice,
)
    requires
        v.plays(),
        b.sound(),
        b.knows_inputs(inputs),
        n.emit(path, inputs, b).0.fits(),
    ensures
        ({
            let (c, outs) = n.emit(path, inputs, b);
            &&& outs.len() == 1 && outs[0].len() == fed(inputs, 0).len()
            &&& forall|i: int|
                0 <= i < outs[0].len() ==> meaning::value(c, v, #[trigger] outs[0][i]) == (v.unit)(
                    "Lag"@,
                    Rate::Audio,
                    0i16,
                    seq![
                        meaning::value(b, v, fed(inputs, 0)[i]),
                        (v.param)(param::name_of(path, "dur"@)),
                    ],
                    0usize,
                )
            &&& forall|i: int|
                0 <= i < outs[0].len() ==> c.rate_of(#[trigger] outs[0][i]) == Rate::Audio
            &&& c.units.len() == b.units.len() + outs[0].len()
            &&& one_param(b, c, path, "dur"@, 0x3dcc_cccd, None)
            &&& c.monitors == b.monitors && c.gains == b.gains
        }),
{
    let (c, outs) = n.emit(path, inputs, b);
    let group = node::group_at(inputs, 0);
    lemma_fed(inputs, 0);
    let p = param::param_of(param::name_of(path, "dur"@), Lag::DEFAULT_DUR, dsp::ZERO);
    let b1 = b.with_bound_param(path, p);
    let dur = b.params.len() as usize;
    dsp::lemma_with_bound_param(b, path, p);
    lag::lemma_lagged(b1, group, dur, group.len());
    dsp::lemma_grows_fits(b1, c);
    node::lemma_group_known(b, inputs, 0);
    dsp::lemma_grows_knows(b, b1, group);
    lemma_lagged_worth(b1, v, group, dur, group.len());
    assert forall|i: int| 0 <= i < group.len() implies meaning::value(b1, v, #[trigger] group[i])
        == meaning::value(b, v, group[i]) by {
        assert(b.knows(group[i]));
        meaning::lemma_value_grows(b, b1, v, group[i]);
    }
    assert(c.params.drop_last() =~= b.params);
    assert(c.bindings.drop_last() =~= b.bindings);
}

proof fn lemma_gained_worth(b: BuilderView, v: Voice, group: Seq<InputRef>, gain: usize, n: nat)
    requires
        v.plays(),
        b.sound(),
        b.knows_all(group),
        n <= group.len(),
        gain < b.params.len(),
        out::gained(b, group, gain, n).0.fits(),
    ensures
        ({
            let (c, chans) = out::gained(b, group, gain, n);
            &&& b.grows_to(c)
            &&& c.sound()
            &&& c.knows_all(chans)
            &&& units_only(b, c)
            &&& chans.len() == n
            &&& forall|i: int|
                0 <= i < n ==> meaning::value(c, v, #[trigger] chans[i]) == meaning::value(
                    b,
                    v,
                    group[i],
                ) * (v.param)(b.params[gain as int].name)
        }),
    decreases n,
{
    out::lemma_gained(b, group, gain, n);
    if n > 0 {
        let (b1, before) = out::gained(b, group, gain, (n - 1) as nat);
        let (c, chans) = out::gained(b, group, gain, n);
        let u = c.units.last();
        dsp::lemma_with_unit(b1, u);
        assert(c == b1.with_unit(u));
        dsp::lemma_grows_fits(b1, c);
        lemma_gained_worth(b, v, group, gain, (n - 1) as nat);
        dsp::lemma_grows_knows(b, b1, group);
        assert(b1.knows(group[n - 1]));
        assert(b1.params[gain as int] == b.params[gain as int]);
        assert(b1.knows_all(u.inputs));
        meaning::lemma_last_unit(b1, v, u);
        assert(b.knows(group[n - 1]));
        meaning::lemma_value_grows(b, b1, v, group[n - 1]);
        assert(u.inputs.map_values(|r: InputRef| meaning::value(b1, v, r)) =~= seq![
            meaning::value(b, v, group[n - 1]),
            (v.param)(b.params[gain as int].name),
        ]);
        assert forall|i: int| 0 <= i < n - 1 implies meaning::value(c, v, #[trigger] chans[i])
            == meaning::value(b1, v, before[i]) by {
            assert(chans[i] == before[i]);
            assert(b1.knows(before[i]));
            meaning::lemma_value_grows(b1, c, v, before[i]);
        }
    }
}

/// An output writes its input, times the gain that is the node's own param, to output bus
/// 0: a mono signal to every output channel, a wider one channel for channel as far as
/// there are output channels.
pub proof fn law_out_plays_its_input_times_the_gain(
    n: Out,
    path: Seq<usize>,
    inputs: Seq<Option<Seq<InputRef>>>,
    b: BuilderView,
    v: Voice,
)
    requires
        v.plays(),
        b.sound(),
        b.knows_inputs(inputs),
        b.out_channels > 0,
        fed(inputs, 0).len() > 0,
        n.emit(path, inputs, b).0.fits(),
    ensures
        ({
            let (c, outs) = n.emit(path, inputs, b);
            let u = c.units.last();
            let signal = fed(inputs, 0);
            &&& outs.len() == 0
            &&& c.units.len() > b.units.len()
            &&& u.name == "Out"@ && u.rate == Rate::Audio && u.num_outputs == 0 && u.special_index
                == 0
            &&& u.inputs.len() > 0 && u.inputs[0] == InputRef::Constant(0)
            &&& signal.len() == 1 ==> u.inputs.len() == b.out_channels + 1
            &&& signal.len() > 1 ==> u.inputs.len() - 1 == (if signal.len() < b.out_channels {
                signal.len()
            } else {
                b.out_channels
            })
            &&& forall|i: int|
                0 <= i < u.inputs.len() - 1 ==> meaning::value(c, v, #[trigger] u.inputs[1 + i])
                    == meaning::value(
                    b,
                    v,
                    if signal.len() == 1 {
                        signal[0]
                    } else {
                        signal[i]
                    },
                ) * (v.param)(param::name_of(path, "gain"@))
            &&& one_param(b, c, path, "gain"@, n.gain_spec(), Some(0x3c23_d70a))
            &&& c.monitors == b.monitors
            &&& c.gains == b.gains.push((path, b.params.len() as usize))
        }),
{
    let (c, outs) = n.emit(path, inputs, b);
    let group = node::group_at(inputs, 0);
    lemma_fed(inputs, 0);
    let p = param::param_of(param::name_of(path, "gain"@), n.gain_spec(), out::GAIN_LAG);
    let gain = b.params.len() as usize;
    let b0 = b.with_bound_param(path, p);
    let b1 = b0.with_gain(path, gain);
    let used = out::used_channels(group.len(), b.out_channels);
    let (b2, chans) = out::gained(b1, group, gain, used);
    let u = c.units.last();
    dsp::lemma_with_bound_param(b, path, p);
    dsp::lemma_with_gain(b0, path, gain);
    dsp::lemma_grows_trans(b, b0, b1);
    out::lemma_gained(b1, group, gain, used);
    dsp::lemma_with_unit(b2, u);
    assert(c == b2.with_unit(u));
    dsp::lemma_grows_fits(b2, c);
    dsp::lemma_grows_fits(b1, b2);
    node::lemma_group_known(b, inputs, 0);
    dsp::lemma_grows_knows(b, b1, group);
    lemma_gained_worth(b1, v, group, gain, used);
    let fan = out::fanned(chans, b.out_channels);
    assert forall|i: int| 0 <= i < fan.len() implies meaning::value(c, v, #[trigger] u.inputs[1 + i])
        == meaning::value(
        b,
        v,
        if group.len() == 1 {
            group[0]
        } else {
            group[i]
        },
    ) * (v.param)(param::name_of(path, "gain"@)) by {
        assert(u.inputs[1 + i] == fan[i]);
        let k = if chans.len() == 1 {
            0
        } else {
            i
        };
        assert(fan[i] == chans[k]);
        assert(b2.knows(chans[k]));
        meaning::lemma_value_grows(b2, c, v, chans[k]);
        assert(b.knows(group[k]));
        meaning::lemma_value_grows(b, b1, v, group[k]);
    }
    assert(c.params.drop_last() =~= b.params);
    assert(c.bindings.drop_last() =~= b.bindings);
}

/// A pack lays its inputs side by side: its width is the sum of theirs, and each input's
/// channels stand in order behind those of the inputs before it.
pub proof fn law_pack_lays_inputs_side_by_side(
    n: Pack,
    path: Seq<usize>,
    inputs: Seq<Option<Seq<InputRef>>>,
    b: BuilderView,
    i: int,
)
    requires
        0 <= i < n.count_spec(),
    ensures
        ({
            let (c, outs) = n.emit(path, inputs, b);
            let widths = Seq::new(n.count_spec() as nat, |k: int| fed(inputs, k).len() as int);
            let at = meaning::total(widths.take(i));
            &&& c == b
            &&& outs.len() == 1
            &&& outs[0].len() == meaning::total(widths)
            &&& 0 <= at && at + fed(inputs, i).len() <= outs[0].len()
            &&& outs[0].subrange(at, at + fed(inputs, i).len()) == fed(inputs, i)
        }),
{
    let gs = node::groups_at(inputs, n.count_spec() as nat);
    let widths = Seq::new(n.count_spec() as nat, |k: int| fed(inputs, k).len() as int);
    assert forall|k: int| 0 <= k < gs.len() implies #[trigger] gs[k] == fed(inputs, k) by {
        lemma_fed(inputs, k);
    }
    assert(widths =~= gs.map_values(|g: Seq<InputRef>| g.len() as int));
    lemma_concat_at(gs, i);
}

proof fn lemma_concat_at(gs: Seq<Seq<InputRef>>, i: int)
    requires
        0 <= i < gs.len(),
    ensures
        ({
            let widths = gs.map_values(|g: Seq<InputRef>| g.len() as int);
            let at = meaning::total(widths.take(i));
            &&& dsp::concat(gs).len() == meaning::total(widths)
            &&& 0 <= at && at + gs[i].len() <= dsp::concat(gs).len()
            &&& dsp::concat(gs).subrange(at, at + gs[i].len()) == gs[i]
        }),
    decreases gs.len(),
{
    let f = |g: Seq<InputRef>| g.len() as int;
    let widths = gs.map_values(f);
    let init = gs.drop_last();
    assert(widths.drop_last() =~= init.map_values(f));
    let at = meaning::total(widths.take(i));
    let all = dsp::concat(gs);
    if i < init.len() {
        lemma_concat_at(init, i);
        assert(init.map_values(f).take(i) =~= widths.take(i));
        assert(all.subrange(at, at + gs[i].len()) =~= dsp::concat(init).subrange(
            at,
            at + gs[i].len(),
        ));
    } else {
        lemma_concat_len(init);
        assert(widths.take(i) =~= init.map_values(f));
        assert(all.subrange(at, at + gs[i].len()) =~= gs[i]);
    }
}

proof fn lemma_concat_len(gs: Seq<Seq<InputRef>>)
    ensures
        dsp::concat(gs).len() == meaning::total(gs.map_values(|g: Seq<InputRef>| g.len() as int)),
    decreases gs.len(),
{
    let f = |g: Seq<InputRef>| g.len() as int;
    if gs.len() > 0 {
        lemma_concat_len(gs.drop_last());
        assert(gs.map_values(f).drop_last() =~= gs.drop_last().map_values(f));
    } else {
        assert(gs.map_values(f).len() == 0);
    }
}

/// An unpack gives every channel of its input an output of its own, and silence past the
/// input's width.
pub proof fn law_unpack_splits_channels(
    n: Unpack,
    path: Seq<usize>,
    inputs: Seq<Option<Seq<InputRef>>>,
    b: BuilderView,
    i: int,
)
    requires
        0 <= i < n.count_spec(),
    ensures
        ({
            let (c, outs) = n.emit(path, inputs, b);
            &&& c == b
            &&& outs.len() == n.count_spec()
            &&& outs[i].len() == 1
            &&& i < fed(inputs, 0).len() ==> outs[i][0] == fed(inputs, 0)[i]
            &&& i >= fed(inputs, 0).len() ==> outs[i][0] == InputRef::Constant(0)
        }),
{
    lemma_fed(inputs, 0);
}

/// Unpacking what was packed gives the packed channels back, in order.
pub proof fn law_unpack_undoes_pack(
    p: Pack,
    u: Unpack,
    path: Seq<usize>,
    inputs: Seq<Option<Seq<InputRef>>>,
    b: BuilderView,
    i: int,
)
    requires
        forall|k: int| 0 <= k < p.count_spec() ==> (#[trigger] fed(inputs, k)).len() == 1,
        0 <= i < p.count_spec(),
        i < u.count_spec(),
    ensures
        ({
            let packed = p.emit(path, inputs, b).1[0];
            u.emit(path, seq![Some(packed)], b).1[i] == fed(inputs, i)
        }),
{
    let packed = p.emit(path, inputs, b).1[0];
    let widths = Seq::new(p.count_spec() as nat, |k: int| fed(inputs, k).len() as int);
    law_pack_lays_inputs_side_by_side(p, path, inputs, b, i);
    law_unpack_splits_channels(u, path, seq![Some(packed)], b, i);
    lemma_total_ones(widths.take(i));
    let s = packed.subrange(i, i + 1);
    assert(s[0] == packed[i]);
    assert(u.emit(path, seq![Some(packed)], b).1[i] =~= fed(inputs, i));
}

proof fn lemma_total_ones(s: Seq<int>)
    requires
        forall|k: int| 0 <= k < s.len() ==> #[trigger] s[k] == 1,
    ensures
        meaning::total(s) == s.len(),
    decreases s.len(),
{
    if s.len() > 0 {
        lemma_total_ones(s.drop_last());
        assert(s[s.len() - 1] == 1);
    }
}

/// A scope streams every channel of its input, in order, and is bound to the unit that
/// does so.
pub proof fn law_scope_streams_its_input(
    n: ScopeOut,
    path: Seq<usize>,
    inputs: Seq<Option<Seq<InputRef>>>,
    b: BuilderView,
)
    requires
        n.emit(path, inputs, b).0.fits(),
        fed(inputs, 0).len() <= usize::MAX,
    ensures
        ({
            let (c, outs) = n.emit(path, inputs, b);
            let u = c.units.last();
            let m = c.monitors.last();
            &&& outs.len() == 0
            &&& c.units.len() == b.units.len() + 1 && c.units.drop_last() == b.units
            &&& u.name == "ScopeOut"@ && u.rate == Rate::Audio && u.num_outputs == 0
                && u.special_index == 0
            &&& u.inputs.len() == fed(inputs, 0).len() + 1
            &&& u.inputs[0] == InputRef::Constant(0)
            &&& u.inputs.skip(1) == fed(inputs, 0)
            &&& c.monitors.len() == b.monitors.len() + 1 && c.monitors.drop_last() == b.monitors
            &&& m.node_path == path
            &&& m.size == n.size_spec()
            &&& m.channels == fed(inputs, 0).len()
            &&& m.scope_unit == b.units.len()
            &&& c.params == b.params && c.bindings == b.bindings && c.gains == b.gains
        }),
{
    let (c, outs) = n.emit(path, inputs, b);
    lemma_fed(inputs, 0);
    assert(c.units.drop_last() =~= b.units);
    assert(c.monitors.drop_last() =~= b.monitors);
    assert(c.units.last().inputs.skip(1) =~= fed(inputs, 0));
}

/// A tap streams the first channel of its input, and is bound to the unit that does so.
pub proof fn law_tap_streams_the_first_channel(
    n: Tap,
    path: Seq<usize>,
    inputs: Seq<Option<Seq<InputRef>>>,
    b: BuilderView,
)
    requires
        n.emit(path, inputs, b).0.fits(),
        fed(inputs, 0).len() > 0,
    ensures
        ({
            let (c, outs) = n.emit(path, inputs, b);
            let u = c.units.last();
            let m = c.monitors.last();
            &&& outs.len() == 0
            &&& c.units.len() == b.units.len() + 1 && c.units.drop_last() == b.units
            &&& u.name == "ScopeOut"@ && u.rate == Rate::Audio && u.num_outputs == 0
                && u.special_index == 0
            &&& u.inputs.len() == 2
            &&& u.inputs[0] == InputRef::Constant(0)
            &&& u.inputs[1] == fed(inputs, 0)[0]
            &&& c.monitors.len() == b.monitors.len() + 1 && c.monitors.drop_last() == b.monitors
            &&& m.node_path == path
            &&& m.size == n.size_spec()
            &&& m.channels == 1
            &&& m.scope_unit == b.units.len()
            &&& c.params == b.params && c.bindings == b.bindings && c.gains == b.gains
        }),
{
    let (c, outs) = n.emit(path, inputs, b);
    lemma_fed(inputs, 0);
    assert(c.units.drop_last() =~= b.units);
    assert(c.monitors.drop_last() =~= b.monitors);
}

/// A sum is worth on every channel what its inputs are worth there together.
pub proof fn law_sum_adds_its_inputs(
    n: Sum,
    path: Seq<usize>,
    inputs: Seq<Option<Seq<InputRef>>>,
    b: BuilderView,
    v: Voice,
)
    requires
        v.plays(),
        b.sound(),
        b.knows_inputs(inputs),
        n.count_spec() > 0,
        n.emit(path, inputs, b).0.fits(),
    ensures
        ({
            let (c, outs) = n.emit(path, inputs, b);
            &&& outs.len() == 1
            &&& forall|k: int|
                0 <= k < n.count_spec() ==> (#[trigger] fed(inputs, k)).len() <= outs[0].len()
            &&& exists|k: int|
                0 <= k < n.count_spec() && (#[trigger] fed(inputs, k)).len() == outs[0].len()
            &&& forall|ch: int|
                0 <= ch < outs[0].len() ==> meaning::value(c, v, #[trigger] outs[0][ch])
                    == meaning::total(
                    Seq::new(
                        n.count_spec() as nat,
                        |k: int|
                            if fed(inputs, k).len() == 1 {
                                meaning::value(b, v, fed(inputs, k)[0])
                            } else if ch < fed(inputs, k).len() {
                                meaning::value(b, v, fed(inputs, k)[ch])
                            } else {
                                0
                            },
                    ),
                )
        }),
{
    let gs = node::groups_at(inputs, n.count_spec() as nat);
    assert forall|k: int| 0 <= k < gs.len() implies #[trigger] gs[k] == fed(inputs, k) && b.knows_all(
        gs[k],
    ) by {
        lemma_fed(inputs, k);
        node::lemma_group_known(b, inputs, k);
    }
    meaning::law_mix_adds_channel_by_channel(b, v, gs);
    let (c, outs) = n.emit(path, inputs, b);
    let k = choose|k: int| 0 <= k < gs.len() && (#[trigger] gs[k]).len() == outs[0].len();
    assert(fed(inputs, k).len() == outs[0].len());
    assert forall|k: int| 0 <= k < n.count_spec() implies (#[trigger] fed(inputs, k)).len()
        <= outs[0].len() by {
        assert(gs[k].len() <= outs[0].len());
    }
    assert forall|ch: int| 0 <= ch < outs[0].len() implies meaning::value(
        c,
        v,
        #[trigger] outs[0][ch],
    ) == meaning::total(
        Seq::new(
            n.count_spec() as nat,
            |k: int|
                if fed(inputs, k).len() == 1 {
                    meaning::value(b, v, fed(inputs, k)[0])
                } else if ch < fed(inputs, k).len() {
                    meaning::value(b, v, fed(inputs, k)[ch])
                } else {
                    0
                },
        ),
    ) by {
        assert(Seq::new(
            gs.len(),
            |k: int|
                if gs[k].len() == 1 {
                    meaning::value(b, v, gs[k][0])
                } else if ch < gs[k].len() {
                    meaning::value(b, v, gs[k][ch])
                } else {
                    0
                },
        ) =~= Seq::new(
            n.count_spec() as nat,
            |k: int|
                if fed(inputs, k).len() == 1 {
                    meaning::value(b, v, fed(inputs, k)[0])
                } else if ch < fed(inputs, k).len() {
                    meaning::value(b, v, fed(inputs, k)[ch])
                } else {
                    0
                },
        )) by {
            assert forall|k: int| 0 <= k < gs.len() implies gs[k] == fed(inputs, k) by {}
        }
    }
}

/// Within a definition, a bus is a wire: it passes its input on and emits nothing.
pub proof fn law_bus_is_a_wire(
    n: Bus,
    path: Seq<usize>,
    inputs: Seq<Option<Seq<InputRef>>>,
    b: BuilderView,
)
    ensures
        n.emit(path, inputs, b).0 == b,
        n.emit(path, inputs, b).1.len() == 1,
        n.emit(path, inputs, b).1[0] == fed(inputs, 0),
{
    lemma_fed(inputs, 0);
}

/// How many signals each node takes and gives, which of them are sinks, and that a bus
/// alone is a boundary. A node that gives no signal is a sink.
pub proof fn law_nodes_have_their_ports(n: DspNode)
    ensures
        n.dsp_inputs() == (match n {
            DspNode::Sine(_) => 0,
            DspNode::Pack(p) => p.count_spec() as nat,
            DspNode::Sum(s) => s.count_spec() as nat,
            _ => 1,
        }),
        n.dsp_outputs() == (match n {
            DspNode::Out(_) => 0,
            DspNode::ScopeOut(_) => 0,
            DspNode::Tap(_) => 0,
            DspNode::Unpack(u) => u.count_spec() as nat,
            _ => 1,
        }),
        n.output_sink() <==> n is Out,
        n.monitor_sink() <==> n is ScopeOut || n is Tap,
        n.boundary() <==> n is Bus,
{
}

/// A node of the node set does what the node that it is does.
pub proof fn law_node_set_emits_its_nodes(
    n: DspNode,
    path: Seq<usize>,
    inputs: Seq<Option<Seq<InputRef>>>,
    b: BuilderView,
)
    ensures
        n.emit(path, inputs, b) == (match n {
            DspNode::Bus(x) => x.emit(path, inputs, b),
            DspNode::Lag(x) => x.emit(path, inputs, b),
            DspNode::Out(x) => x.emit(path, inputs, b),
            DspNode::Pack(x) => x.emit(path, inputs, b),
            DspNode::ScopeOut(x) => x.emit(path, inputs, b),
            DspNode::Sine(x) => x.emit(path, inputs, b),
            DspNode::Sum(x) => x.emit(path, inputs, b),
            DspNode::Tap(x) => x.emit(path, inputs, b),
            DspNode::Unpack(x) => x.emit(path, inputs, b),
        }),
{
}

} // verus!
