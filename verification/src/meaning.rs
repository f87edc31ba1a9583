//! What is heard of a definition: the values that its units compute, and what mixing and
//! wiring signals does to them.
//!
//! A [`Voice`] says what constants, params and units are worth at one moment. Nothing is
//! assumed of it but that additions add, multiplications multiply, a lift to audio rate
//! leaves a value as it is, and zero is silent.

use crate::dsp::{self, BuilderView, Float, InputRef, Rate};
use crate::mix;
use vstd::prelude::*;

verus! {

/// What constants, params and units are worth: a param by its name, a unit's output by the
/// unit's name, rate and selector and what its inputs are worth.
pub struct Voice {
    pub constant: spec_fn(Float) -> int,
    pub param: spec_fn(Seq<char>) -> int,
    pub unit: spec_fn(Seq<char>, Rate, i16, Seq<int>, usize) -> int,
}

impl Voice {
    /// Whether zero is silent, and arithmetic does what it says.
    pub open spec fn plays(self) -> bool {
        &&& (self.constant)(0) == 0
        &&& (self.constant)(0x8000_0000) == 0
        &&& forall|rate: Rate, x: Seq<int>|
            x.len() == 2 ==> #[trigger] (self.unit)("BinaryOpUGen"@, rate, 0i16, x, 0usize) == x[0]
                + x[1]
        &&& forall|rate: Rate, x: Seq<int>|
            x.len() == 2 ==> #[trigger] (self.unit)("BinaryOpUGen"@, rate, 2i16, x, 0usize) == x[0]
                * x[1]
        &&& forall|rate: Rate, x: Seq<int>|
            x.len() == 1 ==> #[trigger] (self.unit)("K2A"@, rate, 0i16, x, 0usize) == x[0]
    }
}

/// How deep a reference reaches into the units.
pub open spec fn level(r: InputRef) -> nat {
    match r {
        InputRef::Unit { unit, output: _ } => unit as nat + 1,
        _ => 0,
    }
}

/// What a reference is worth.
pub open spec fn value(b: BuilderView, v: Voice, r: InputRef) -> int
    decreases level(r), 0nat,
{
    match r {
        InputRef::Constant(c) => (v.constant)(c),
        InputRef::Param(p) => (v.param)(b.params[p as int].name),
        InputRef::Unit { unit, output } => {
            let u = b.units[unit as int];
            (v.unit)(
                u.name,
                u.rate,
                u.special_index,
                values(b, v, u.inputs, unit as nat, u.inputs.len()),
                output,
            )
        },
    }
}

/// What the first `n` of some references are worth to the unit numbered `below`. What is
/// not there before that unit is worth nothing to it.
pub open spec fn values(b: BuilderView, v: Voice, s: Seq<InputRef>, below: nat, n: nat) -> Seq<int>
    decreases below, n + 1,
{
    if n == 0 {
        Seq::empty()
    } else {
        values(b, v, s, below, (n - 1) as nat).push(
            if level(s[n - 1]) <= below {
                value(b, v, s[n - 1])
            } else {
                0
            },
        )
    }
}

/// What some numbers add up to.
pub open spec fn total(s: Seq<int>) -> int
    decreases s.len(),
{
    if s.len() == 0 {
        0
    } else {
        total(s.drop_last()) + s.last()
    }
}

/// What a group is worth on channel `ch` of a mix: a mono group its one channel on every
/// channel, a wider one its own channel `ch`, and nothing past its width.
pub open spec fn heard(b: BuilderView, v: Voice, group: Seq<InputRef>, ch: int) -> int {
    if group.len() == 1 {
        value(b, v, group[0])
    } else if ch < group.len() {
        value(b, v, group[ch])
    } else {
        0
    }
}

/// What the inputs of a unit are worth, one by one.
pub proof fn lemma_values(b: BuilderView, v: Voice, s: Seq<InputRef>, below: nat, n: nat)
    requires
        n <= s.len(),
    ensures
        values(b, v, s, below, n).len() == n,
        forall|j: int|
            0 <= j < n && level(s[j]) <= below ==> #[trigger] values(b, v, s, below, n)[j] == value(
                b,
                v,
                s[j],
            ),
    decreases n,
{
    if n > 0 {
        lemma_values(b, v, s, below, (n - 1) as nat);
    }
}

/// What is there is worth the same however much is emitted behind it.
pub proof fn lemma_value_grows(a: BuilderView, c: BuilderView, v: Voice, r: InputRef)
    requires
        a.sound(),
        a.grows_to(c),
        a.knows(r),
    ensures
        value(c, v, r) == value(a, v, r),
    decreases level(r), 0nat,
{
    if let InputRef::Unit { unit, output } = r {
        let u = a.units[unit as int];
        assert(c.units[unit as int] == u);
        lemma_values_grow(a, c, v, unit as int, u.inputs.len());
    } else if let InputRef::Param(p) = r {
        assert(c.params[p as int] == a.params[p as int]);
    }
}

proof fn lemma_values_grow(a: BuilderView, c: BuilderView, v: Voice, unit: int, n: nat)
    requires
        a.sound(),
        a.grows_to(c),
        0 <= unit < a.units.len(),
        n <= a.units[unit].inputs.len(),
    ensures
        values(c, v, a.units[unit].inputs, unit as nat, n) == values(
            a,
            v,
            a.units[unit].inputs,
            unit as nat,
            n,
        ),
    decreases unit, n + 1,
{
    if n > 0 {
        let s = a.units[unit].inputs;
        lemma_values_grow(a, c, v, unit, (n - 1) as nat);
        assert(a.wired(unit, n - 1));
        assert(a.knows(s[n - 1]));
        lemma_value_grows(a, c, v, s[n - 1]);
    }
}

/// What a group is worth stays as it is.
pub proof fn lemma_heard_grows(a: BuilderView, c: BuilderView, v: Voice, group: Seq<InputRef>, ch: int)
    requires
        a.sound(),
        a.grows_to(c),
        a.knows_all(group),
        0 <= ch,
    ensures
        heard(c, v, group, ch) == heard(a, v, group, ch),
{
    if group.len() == 1 {
        assert(a.knows(group[0]));
        lemma_value_grows(a, c, v, group[0]);
    } else if ch < group.len() {
        assert(a.knows(group[ch]));
        lemma_value_grows(a, c, v, group[ch]);
    }
}

/// What the unit that was emitted last is worth.
pub proof fn lemma_last_unit(b: BuilderView, v: Voice, u: dsp::UnitView)
    requires
        b.sound(),
        b.knows_all(u.inputs),
        b.with_unit(u).fits(),
    ensures
        ({
            let c = b.with_unit(u);
            value(c, v, c.last_unit()) == (v.unit)(
                u.name,
                u.rate,
                u.special_index,
                u.inputs.map_values(|r: InputRef| value(b, v, r)),
                0usize,
            )
        }),
{
    let c = b.with_unit(u);
    dsp::lemma_with_unit(b, u);
    let n = b.units.len();
    assert(c.units[n as int] == u);
    lemma_values(c, v, u.inputs, n, u.inputs.len());
    let got = values(c, v, u.inputs, n, u.inputs.len());
    assert(got =~= u.inputs.map_values(|r: InputRef| value(b, v, r))) by {
        assert forall|j: int| 0 <= j < u.inputs.len() implies got[j] == value(b, v, u.inputs[j]) by {
            assert(b.knows(u.inputs[j]));
            assert(level(u.inputs[j]) <= n);
            lemma_value_grows(b, c, v, u.inputs[j]);
        }
    }
}

proof fn lemma_sum_worth(b: BuilderView, v: Voice, ts: Seq<InputRef>)
    requires
        v.plays(),
        b.sound(),
        b.knows_all(ts),
        mix::sum_terms(b, ts).0.fits(),
    ensures
        ({
            let (c, r) = mix::sum_terms(b, ts);
            &&& b.grows_to(c)
            &&& c.sound()
            &&& c.knows(r)
            &&& value(c, v, r) == total(ts.map_values(|t: InputRef| value(b, v, t)))
            &&& c.rate_of(r) == Rate::Audio <==> exists|i: int|
                0 <= i < ts.len() && b.rate_of(#[trigger] ts[i]) == Rate::Audio
        }),
    decreases ts.len(),
{
    let f = |t: InputRef| value(b, v, t);
    let (c, r) = mix::sum_terms(b, ts);
    mix::lemma_sum_terms(b, ts);
    if ts.len() == 0 {
        assert(ts.map_values(f).len() == 0);
    } else if ts.len() == 1 {
        assert(ts.map_values(f).drop_last().len() == 0);
        assert(b.knows(ts[0]));
        assert(total(ts.map_values(f)) == total(ts.map_values(f).drop_last()) + f(ts[0]));
    } else {
        let init = ts.drop_last();
        let last = ts.last();
        assert forall|i: int| 0 <= i < init.len() implies b.knows(#[trigger] init[i]) by {
            assert(b.knows(ts[i]));
        }
        let (b1, acc) = mix::sum_terms(b, init);
        let u = mix::add_unit(b1, acc, last);
        dsp::lemma_with_unit(b1, u);
        dsp::lemma_grows_fits(b1, c);
        lemma_sum_worth(b, v, init);
        assert(b.knows(ts[ts.len() - 1]));
        dsp::lemma_grows_knows(b, b1, seq![last]);
        assert(b1.knows(seq![last][0]));
        assert forall|i: int| 0 <= i < u.inputs.len() implies b1.knows(#[trigger] u.inputs[i]) by {}
        lemma_last_unit(b1, v, u);
        lemma_value_grows(b, b1, v, last);
        assert(u.inputs.map_values(|r: InputRef| value(b1, v, r)) =~= seq![
            value(b1, v, acc),
            value(b1, v, last),
        ]);
        assert(ts.map_values(f).drop_last() =~= init.map_values(f));
        assert(b1.rate_of(last) == b.rate_of(last)) by {
            lemma_rate_grows(b, b1, last);
        }
        assert(c.rate_of(r) == u.rate);
        if exists|i: int| 0 <= i < ts.len() && b.rate_of(#[trigger] ts[i]) == Rate::Audio {
            let i = choose|i: int| 0 <= i < ts.len() && b.rate_of(#[trigger] ts[i]) == Rate::Audio;
            if i < init.len() {
                assert(b.rate_of(init[i]) == Rate::Audio);
            }
        }
        if b1.rate_of(acc) == Rate::Audio {
            let i = choose|i: int| 0 <= i < init.len() && b.rate_of(#[trigger] init[i]) == Rate::Audio;
            assert(b.rate_of(ts[i]) == Rate::Audio);
        }
        if b.rate_of(last) == Rate::Audio {
            assert(b.rate_of(ts[ts.len() - 1]) == Rate::Audio);
        }
    }
}

/// What is there keeps its rate.
pub proof fn lemma_rate_grows(a: BuilderView, c: BuilderView, r: InputRef)
    requires
        a.grows_to(c),
        a.knows(r),
    ensures
        c.rate_of(r) == a.rate_of(r),
{
    match r {
        InputRef::Unit { unit, output } => {
            assert(c.units[unit as int] == a.units[unit as int]);
        },
        InputRef::Param(p) => {
            assert(c.params[p as int] == a.params[p as int]);
        },
        InputRef::Constant(_) => {},
    }
}

/// What groups are worth together on a channel.
pub open spec fn heard_together(b: BuilderView, v: Voice, sigs: Seq<Seq<InputRef>>, ch: int) -> int {
    total(Seq::new(sigs.len(), |k: int| heard(b, v, sigs[k], ch)))
}

proof fn lemma_terms_worth(b: BuilderView, v: Voice, sigs: Seq<Seq<InputRef>>, ch: int)
    requires
        v.plays(),
        0 <= ch,
    ensures
        total(mix::terms(sigs, ch).map_values(|t: InputRef| value(b, v, t))) == heard_together(
            b,
            v,
            sigs,
            ch,
        ),
        (exists|i: int|
            0 <= i < mix::terms(sigs, ch).len() && b.rate_of(#[trigger] mix::terms(sigs, ch)[i])
                == Rate::Audio) <==> exists|k: int|
            0 <= k < sigs.len() && #[trigger] audible(b, sigs[k], ch),
    decreases sigs.len(),
{
    let f = |t: InputRef| value(b, v, t);
    let all = Seq::new(sigs.len(), |k: int| heard(b, v, sigs[k], ch));
    let ts = mix::terms(sigs, ch);
    if sigs.len() == 0 {
        assert(ts.map_values(f) =~= all);
    } else {
        let init = sigs.drop_last();
        lemma_terms_worth(b, v, init, ch);
        let before = mix::terms(init, ch);
        assert(all.drop_last() =~= Seq::new(init.len(), |k: int| heard(b, v, init[k], ch)));
        let last = sigs[sigs.len() - 1];
        assert(all.last() == heard(b, v, last, ch));
        if ts.len() > before.len() {
            assert(ts.map_values(f) =~= before.map_values(f).push(f(ts.last())));
            assert(ts.map_values(f).drop_last() =~= before.map_values(f));
        }
        assert forall|i: int| 0 <= i < before.len() implies #[trigger] ts[i] == before[i] by {}
        if exists|i: int| 0 <= i < ts.len() && b.rate_of(#[trigger] ts[i]) == Rate::Audio {
            let i = choose|i: int| 0 <= i < ts.len() && b.rate_of(#[trigger] ts[i]) == Rate::Audio;
            if i < before.len() {
                assert(b.rate_of(before[i]) == Rate::Audio);
                let k = choose|k: int| 0 <= k < init.len() && #[trigger] audible(b, init[k], ch);
                assert(audible(b, sigs[k], ch));
            } else {
                assert(audible(b, sigs[sigs.len() - 1], ch));
            }
        }
        if exists|k: int| 0 <= k < sigs.len() && #[trigger] audible(b, sigs[k], ch) {
            let k = choose|k: int| 0 <= k < sigs.len() && #[trigger] audible(b, sigs[k], ch);
            if k < init.len() {
                assert(audible(b, init[k], ch));
                let i = choose|i: int|
                    0 <= i < before.len() && b.rate_of(#[trigger] before[i]) == Rate::Audio;
                assert(b.rate_of(ts[i]) == Rate::Audio);
            } else {
                assert(b.rate_of(ts[ts.len() - 1]) == Rate::Audio);
            }
        }
    }
}

/// Whether a group has audio rate on channel `ch` of a mix.
pub open spec fn audible(b: BuilderView, group: Seq<InputRef>, ch: int) -> bool {
    if group.len() == 1 {
        b.rate_of(group[0]) == Rate::Audio
    } else {
        ch < group.len() && b.rate_of(group[ch]) == Rate::Audio
    }
}

proof fn lemma_channels_worth(b: BuilderView, v: Voice, sigs: Seq<Seq<InputRef>>, n: nat)
    requires
        v.plays(),
        b.sound(),
        b.knows_groups(sigs),
        mix::sum_channels(b, sigs, n).0.fits(),
    ensures
        ({
            let (c, chans) = mix::sum_channels(b, sigs, n);
            &&& b.grows_to(c)
            &&& c.sound()
            &&& c.knows_all(chans)
            &&& chans.len() == n
            &&& forall|ch: int|
                0 <= ch < n ==> value(c, v, #[trigger] chans[ch]) == heard_together(b, v, sigs, ch)
            &&& forall|ch: int|
                0 <= ch < n ==> (c.rate_of(#[trigger] chans[ch]) == Rate::Audio <==> exists|k: int|
                    0 <= k < sigs.len() && #[trigger] audible(b, sigs[k], ch))
        }),
    decreases n,
{
    mix::lemma_sum_channels(b, sigs, n);
    if n > 0 {
        let ch = n - 1;
        let (b1, before) = mix::sum_channels(b, sigs, ch as nat);
        let ts = mix::terms(sigs, ch);
        let (c, r) = mix::sum_terms(b1, ts);
        mix::lemma_sum_terms(b1, ts);
        dsp::lemma_grows_fits(b1, c);
        lemma_channels_worth(b, v, sigs, ch as nat);
        assert forall|i: int| 0 <= i < sigs.len() implies b1.knows_all(#[trigger] sigs[i]) by {
            dsp::lemma_grows_knows(b, b1, sigs[i]);
        }
        mix::lemma_terms_known(b1, sigs, ch);
        lemma_sum_worth(b1, v, ts);
        lemma_terms_worth(b1, v, sigs, ch);
        assert(Seq::new(sigs.len(), |k: int| heard(b1, v, sigs[k], ch)) =~= Seq::new(
            sigs.len(),
            |k: int| heard(b, v, sigs[k], ch),
        )) by {
            assert forall|k: int| 0 <= k < sigs.len() implies heard(b1, v, sigs[k], ch) == heard(
                b,
                v,
                sigs[k],
                ch,
            ) by {
                assert(b.knows_all(sigs[k]));
                lemma_heard_grows(b, b1, v, sigs[k], ch);
            }
        }
        if exists|k: int| 0 <= k < sigs.len() && #[trigger] audible(b, sigs[k], ch) {
            let k = choose|k: int| 0 <= k < sigs.len() && #[trigger] audible(b, sigs[k], ch);
            lemma_audible_grows(b, b1, sigs, k, ch);
            assert(audible(b1, sigs[k], ch));
        }
        if exists|k: int| 0 <= k < sigs.len() && #[trigger] audible(b1, sigs[k], ch) {
            let k = choose|k: int| 0 <= k < sigs.len() && #[trigger] audible(b1, sigs[k], ch);
            lemma_audible_grows(b, b1, sigs, k, ch);
            assert(audible(b, sigs[k], ch));
        }
        let chans = before.push(r);
        assert(chans[ch] == r);
        assert(c.rate_of(chans[ch]) == Rate::Audio <==> exists|k: int|
            0 <= k < sigs.len() && #[trigger] audible(b, sigs[k], ch));
        assert(value(c, v, chans[ch]) == heard_together(b, v, sigs, ch));
        assert forall|i: int| 0 <= i < ch implies value(c, v, #[trigger] chans[i])
            == heard_together(b, v, sigs, i) && (c.rate_of(chans[i]) == Rate::Audio <==> exists|
            k: int,
        |
            0 <= k < sigs.len() && #[trigger] audible(b, sigs[k], i)) by {
            assert(chans[i] == before[i]);
            assert(b1.knows(before[i]));
            lemma_value_grows(b1, c, v, before[i]);
            lemma_rate_grows(b1, c, before[i]);
        }
    }
}

proof fn lemma_audible_grows(
    a: BuilderView,
    c: BuilderView,
    sigs: Seq<Seq<InputRef>>,
    k: int,
    ch: int,
)
    requires
        a.grows_to(c),
        a.knows_groups(sigs),
        0 <= k < sigs.len(),
        0 <= ch,
    ensures
        audible(c, sigs[k], ch) == audible(a, sigs[k], ch),
{
    let group = sigs[k];
    assert(a.knows_all(group));
    if group.len() == 1 {
        assert(a.knows(group[0]));
        lemma_rate_grows(a, c, group[0]);
    } else if ch < group.len() {
        assert(a.knows(group[ch]));
        lemma_rate_grows(a, c, group[ch]);
    }
}

/// Mixing adds: the mix of signals is as wide as the widest of them, and worth on every
/// channel what they are worth there together. A mono signal is heard on every channel, a
/// wider one on its own channels, each on its own, and not past its width. A channel of
/// the mix has audio rate just where something on it has.
pub proof fn law_mix_adds_channel_by_channel(b: BuilderView, v: Voice, sigs: Seq<Seq<InputRef>>)
    requires
        v.plays(),
        b.sound(),
        b.knows_groups(sigs),
        sigs.len() > 0,
        mix::mixed(b, sigs).0.fits(),
    ensures
        ({
            let (c, out) = mix::mixed(b, sigs);
            &&& forall|k: int| 0 <= k < sigs.len() ==> (#[trigger] sigs[k]).len() <= out.len()
            &&& exists|k: int| 0 <= k < sigs.len() && (#[trigger] sigs[k]).len() == out.len()
            &&& forall|ch: int|
                0 <= ch < out.len() ==> value(c, v, #[trigger] out[ch]) == total(
                    Seq::new(
                        sigs.len(),
                        |k: int|
                            if sigs[k].len() == 1 {
                                value(b, v, sigs[k][0])
                            } else if ch < sigs[k].len() {
                                value(b, v, sigs[k][ch])
                            } else {
                                0
                            },
                    ),
                )
            &&& forall|ch: int|
                0 <= ch < out.len() ==> (c.rate_of(#[trigger] out[ch]) == Rate::Audio <==> exists|
                    k: int,
                |
                    0 <= k < sigs.len() && #[trigger] audible(b, sigs[k], ch))
            &&& sigs.len() == 1 ==> c == b && out == sigs[0]
        }),
{
    let (c, out) = mix::mixed(b, sigs);
    lemma_widest(sigs);
    if sigs.len() == 1 {
        let g = sigs[0];
        assert forall|ch: int| 0 <= ch < out.len() implies value(c, v, #[trigger] out[ch])
            == heard_together(b, v, sigs, ch) && (c.rate_of(out[ch]) == Rate::Audio <==> exists|
            k: int,
        |
            0 <= k < sigs.len() && #[trigger] audible(b, sigs[k], ch)) by {
            let s = Seq::new(sigs.len(), |k: int| heard(b, v, sigs[k], ch));
            assert(s.drop_last().len() == 0);
            assert(total(s) == total(s.drop_last()) + s.last());
            assert(s.last() == heard(b, v, g, ch));
            assert(audible(b, sigs[0], ch) == (b.rate_of(out[ch]) == Rate::Audio));
        }
    } else {
        lemma_channels_worth(b, v, sigs, mix::widest(sigs));
    }
    assert forall|ch: int| 0 <= ch < out.len() implies value(c, v, #[trigger] out[ch]) == total(
        Seq::new(
            sigs.len(),
            |k: int|
                if sigs[k].len() == 1 {
                    value(b, v, sigs[k][0])
                } else if ch < sigs[k].len() {
                    value(b, v, sigs[k][ch])
                } else {
                    0
                },
        ),
    ) by {
        assert(value(c, v, out[ch]) == heard_together(b, v, sigs, ch));
        assert(Seq::new(sigs.len(), |k: int| heard(b, v, sigs[k], ch)) =~= Seq::new(
            sigs.len(),
            |k: int|
                if sigs[k].len() == 1 {
                    value(b, v, sigs[k][0])
                } else if ch < sigs[k].len() {
                    value(b, v, sigs[k][ch])
                } else {
                    0
                },
        ));
    }
}

proof fn lemma_widest(sigs: Seq<Seq<InputRef>>)
    ensures
        forall|k: int| 0 <= k < sigs.len() ==> (#[trigger] sigs[k]).len() <= mix::widest(sigs),
        sigs.len() > 0 ==> exists|k: int|
            0 <= k < sigs.len() && (#[trigger] sigs[k]).len() == mix::widest(sigs),
        sigs.len() == 0 ==> mix::widest(sigs) == 0,
    decreases sigs.len(),
{
    if sigs.len() > 0 {
        let init = sigs.drop_last();
        lemma_widest(init);
        let last = sigs.len() - 1;
        assert forall|k: int| 0 <= k < sigs.len() implies (#[trigger] sigs[k]).len()
            <= mix::widest(sigs) by {
            if k < init.len() {
                assert(init[k] == sigs[k]);
            }
        }
        if mix::widest(init) < sigs.last().len() || init.len() == 0 {
            assert(sigs[last].len() == mix::widest(sigs));
        } else {
            let k = choose|k: int|
                0 <= k < init.len() && (#[trigger] init[k]).len() == mix::widest(init);
            assert(sigs[k].len() == mix::widest(sigs));
        }
    }
}

} // verus!
