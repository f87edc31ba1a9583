//! Summing channel groups: the unity-gain mix of every signal that feeds one
//! input.

use crate::dsp::{self, BuilderView, DspBuilder, InputRef, Rate, Signal, UnitSpec, UnitView};
use vstd::prelude::*;
use vstd::string::*;

verus! {

/// The channel groups that signals denote.
pub open spec fn groups(sigs: Seq<Signal>) -> Seq<Seq<InputRef>> {
    sigs.map_values(|s: Signal| s@)
}

/// The width of the widest group.
pub open spec fn widest(sigs: Seq<Seq<InputRef>>) -> nat
    decreases sigs.len(),
{
    if sigs.len() == 0 {
        0
    } else {
        let w = widest(sigs.drop_last());
        if w < sigs.last().len() {
            sigs.last().len()
        } else {
            w
        }
    }
}

/// What a group contributes to channel `ch` of a mix: a mono group its one
/// channel, a wider one its own channel, and nothing past its width.
pub open spec fn term(sig: Seq<InputRef>, ch: int) -> Option<InputRef> {
    if sig.len() == 1 {
        Some(sig[0])
    } else if 0 <= ch < sig.len() {
        Some(sig[ch])
    } else {
        None
    }
}

/// Whether a reference is the silent constant.
pub open spec fn silent_ref(r: InputRef) -> bool {
    match r {
        InputRef::Constant(c) => dsp::float_zero(c),
        _ => false,
    }
}

/// The audible contributions of the groups to channel `ch`, in order.
pub open spec fn terms(sigs: Seq<Seq<InputRef>>, ch: int) -> Seq<InputRef>
    decreases sigs.len(),
{
    if sigs.len() == 0 {
        Seq::empty()
    } else {
        let before = terms(sigs.drop_last(), ch);
        match term(sigs.last(), ch) {
            Some(r) => if silent_ref(r) {
                before
            } else {
                before.push(r)
            },
            None => before,
        }
    }
}

/// The addition of two references: an audio-rate unit if either has audio rate.
pub open spec fn add_unit(b: BuilderView, x: InputRef, y: InputRef) -> UnitView {
    UnitView {
        name: "BinaryOpUGen"@,
        rate: if b.rate_of(x) == Rate::Audio || b.rate_of(y) == Rate::Audio {
            Rate::Audio
        } else {
            Rate::Control
        },
        inputs: seq![x, y],
        num_outputs: 1,
        special_index: 0,
    }
}

/// The sum of references: silence for none, a lone one as it is, and otherwise a
/// chain of additions from the left.
pub open spec fn sum_terms(b: BuilderView, ts: Seq<InputRef>) -> (BuilderView, InputRef)
    decreases ts.len(),
{
    if ts.len() == 0 {
        (b, InputRef::Constant(dsp::ZERO))
    } else if ts.len() == 1 {
        (b, ts[0])
    } else {
        let (b1, acc) = sum_terms(b, ts.drop_last());
        let b2 = b1.with_unit(add_unit(b1, acc, ts.last()));
        (b2, b2.last_unit())
    }
}

/// The first `n` channels of the mix of the groups.
pub open spec fn sum_channels(b: BuilderView, sigs: Seq<Seq<InputRef>>, n: nat) -> (
    BuilderView,
    Seq<InputRef>,
)
    decreases n,
{
    if n == 0 {
        (b, Seq::empty())
    } else {
        let (b1, chans) = sum_channels(b, sigs, (n - 1) as nat);
        let (b2, r) = sum_terms(b1, terms(sigs, n - 1));
        (b2, chans.push(r))
    }
}

/// The mix of the groups: one group passes through without units, none is mono
/// silence, and otherwise the mix is as wide as the widest.
pub open spec fn mixed(b: BuilderView, sigs: Seq<Seq<InputRef>>) -> (BuilderView, Seq<InputRef>) {
    if sigs.len() == 0 {
        (b, dsp::silence(1))
    } else if sigs.len() == 1 {
        (b, sigs[0])
    } else {
        sum_channels(b, sigs, widest(sigs))
    }
}

fn sum_refs(b: &mut DspBuilder, ts: &Vec<InputRef>) -> (r: InputRef)
    ensures
        (final(b)@, r) == sum_terms(old(b)@, ts@),
{
    if ts.len() == 0 {
        return InputRef::Constant(dsp::ZERO);
    }
    let mut acc = ts[0];
    let mut i: usize = 1;
    assert(ts@.take(1).len() == 1);
    while i < ts.len()
        invariant
            1 <= i <= ts@.len(),
            (b@, acc) == sum_terms(old(b)@, ts@.take(i as int)),
        decreases ts@.len() - i,
    {
        let rate = if b.rate_of(acc) == Rate::Audio || b.rate_of(ts[i]) == Rate::Audio {
            Rate::Audio
        } else {
            Rate::Control
        };
        let spec = UnitSpec {
            name: String::from_str("BinaryOpUGen"),
            rate,
            inputs: vec![acc, ts[i]],
            num_outputs: 1,
            special_index: 0,
        };
        proof {
            assert(spec@ =~= add_unit(b@, acc, ts@[i as int]));
            let t = ts@.take(i + 1);
            assert(t.drop_last() =~= ts@.take(i as int));
        }
        let unit: usize = b.push_unit(spec);
        acc = InputRef::Unit { unit, output: 0 };
        i = i + 1;
    }
    assert(ts@.take(i as int) =~= ts@);
    acc
}

fn channel_terms(sigs: &Vec<Signal>, ch: usize) -> (r: Vec<InputRef>)
    ensures
        r@ == terms(groups(sigs@), ch as int),
{
    let mut r: Vec<InputRef> = Vec::new();
    let mut i: usize = 0;
    assert(groups(sigs@).take(0) =~= Seq::empty());
    while i < sigs.len()
        invariant
            i <= sigs@.len(),
            r@ == terms(groups(sigs@).take(i as int), ch as int),
        decreases sigs@.len() - i,
    {
        let sig = &sigs[i];
        proof {
            let t = groups(sigs@).take(i + 1);
            assert(t.drop_last() =~= groups(sigs@).take(i as int));
            assert(t.last() == sig@);
        }
        let t = if sig.width() == 1 {
            sig.channel(0)
        } else {
            sig.channel(ch)
        };
        match t {
            Some(x) => {
                let silent = match x {
                    InputRef::Constant(c) => dsp::is_zero(c),
                    _ => false,
                };
                if !silent {
                    r.push(x);
                }
            },
            None => {},
        }
        i = i + 1;
    }
    assert(groups(sigs@).take(i as int) =~= groups(sigs@));
    r
}

fn widest_of(sigs: &Vec<Signal>) -> (r: usize)
    ensures
        r == widest(groups(sigs@)),
{
    let mut w: usize = 0;
    let mut i: usize = 0;
    assert(groups(sigs@).take(0) =~= Seq::empty());
    while i < sigs.len()
        invariant
            i <= sigs@.len(),
            w == widest(groups(sigs@).take(i as int)),
        decreases sigs@.len() - i,
    {
        proof {
            let t = groups(sigs@).take(i + 1);
            assert(t.drop_last() =~= groups(sigs@).take(i as int));
            assert(t.last() == sigs@[i as int]@);
        }
        if w < sigs[i].width() {
            w = sigs[i].width();
        }
        i = i + 1;
    }
    assert(groups(sigs@).take(i as int) =~= groups(sigs@));
    w
}

/// The unity-gain mix of `sigs`: as wide as the widest, a mono signal
/// broadcasting across every channel and a narrower one contributing silence
/// past its own width. A lone signal passes through unit-free, and silence folds
/// away.
pub fn sum_signals(b: &mut DspBuilder, sigs: &Vec<Signal>) -> (r: Signal)
    ensures
        (final(b)@, r@) == mixed(old(b)@, groups(sigs@)),
{
    if sigs.len() == 0 {
        return Signal::silent(1);
    }
    if sigs.len() == 1 {
        return sigs[0].dup();
    }
    let w: usize = widest_of(sigs);
    let mut chans: Vec<InputRef> = Vec::new();
    let mut ch: usize = 0;
    while ch < w
        invariant
            ch <= w,
            (b@, chans@) == sum_channels(old(b)@, groups(sigs@), ch as nat),
        decreases w - ch,
    {
        let ts = channel_terms(sigs, ch);
        let r = sum_refs(b, &ts);
        chans.push(r);
        ch = ch + 1;
    }
    Signal(chans)
}

/// What contributes to a mix is known where the groups are.
pub proof fn lemma_terms_known(b: BuilderView, sigs: Seq<Seq<InputRef>>, ch: int)
    requires
        b.knows_groups(sigs),
    ensures
        b.knows_all(terms(sigs, ch)),
    decreases sigs.len(),
{
    if sigs.len() > 0 {
        let init = sigs.drop_last();
        assert forall|i: int| 0 <= i < init.len() implies b.knows_all(#[trigger] init[i]) by {
            assert(b.knows_all(sigs[i]));
        }
        lemma_terms_known(b, init, ch);
        let before = terms(init, ch);
        let ts = terms(sigs, ch);
        assert(b.knows_all(sigs[sigs.len() - 1]));
        assert forall|i: int| 0 <= i < ts.len() implies b.knows(#[trigger] ts[i]) by {
            if i < before.len() {
                assert(ts[i] == before[i]);
                assert(b.knows(before[i]));
            } else {
                let sig = sigs.last();
                if sig.len() == 1 {
                    assert(b.knows(sig[0]));
                } else {
                    assert(b.knows(sig[ch]));
                }
            }
        }
    }
}

/// A sum keeps the builder sound.
pub proof fn lemma_sum_terms(b: BuilderView, ts: Seq<InputRef>)
    ensures
        b.grows_to(sum_terms(b, ts).0),
        b.sound() && b.knows_all(ts) && sum_terms(b, ts).0.fits() ==> sum_terms(b, ts).0.sound()
            && sum_terms(b, ts).0.knows(sum_terms(b, ts).1),
    decreases ts.len(),
{
    if ts.len() == 1 {
        if b.knows_all(ts) {
            assert(b.knows(ts[0]));
        }
    } else if ts.len() > 1 {
        let init = ts.drop_last();
        lemma_sum_terms(b, init);
        let (b1, acc) = sum_terms(b, init);
        let u = add_unit(b1, acc, ts.last());
        let b2 = b1.with_unit(u);
        dsp::lemma_with_unit(b1, u);
        dsp::lemma_grows_trans(b, b1, b2);
        if b.sound() && b.knows_all(ts) && b2.fits() {
            assert forall|i: int| 0 <= i < init.len() implies b.knows(#[trigger] init[i]) by {
                assert(b.knows(ts[i]));
            }
            assert(b.knows(ts[ts.len() - 1]));
            assert(b1.knows(ts.last())) by {
                dsp::lemma_grows_knows(b, b1, ts);
                assert(b1.knows(ts[ts.len() - 1]));
            }
            assert forall|i: int| 0 <= i < u.inputs.len() implies b1.knows(
                #[trigger] u.inputs[i],
            ) by {}
        }
    }
}

/// The channels of a mix keep the builder sound.
pub proof fn lemma_sum_channels(b: BuilderView, sigs: Seq<Seq<InputRef>>, n: nat)
    ensures
        b.grows_to(sum_channels(b, sigs, n).0),
        b.sound() && b.knows_groups(sigs) && sum_channels(b, sigs, n).0.fits() ==> sum_channels(
            b,
            sigs,
            n,
        ).0.sound() && sum_channels(b, sigs, n).0.knows_all(sum_channels(b, sigs, n).1),
    decreases n,
{
    if n > 0 {
        lemma_sum_channels(b, sigs, (n - 1) as nat);
        let (b1, chans) = sum_channels(b, sigs, (n - 1) as nat);
        let ts = terms(sigs, n - 1);
        lemma_sum_terms(b1, ts);
        let (b2, r) = sum_terms(b1, ts);
        dsp::lemma_grows_trans(b, b1, b2);
        if b.sound() && b.knows_groups(sigs) && b2.fits() {
            assert forall|i: int| 0 <= i < sigs.len() implies b1.knows_all(#[trigger] sigs[i]) by {
                dsp::lemma_grows_knows(b, b1, sigs[i]);
            }
            lemma_terms_known(b1, sigs, n - 1);
            dsp::lemma_grows_knows(b1, b2, chans);
            let out = chans.push(r);
            assert forall|i: int| 0 <= i < out.len() implies b2.knows(#[trigger] out[i]) by {
                if i < chans.len() {
                    assert(out[i] == chans[i]);
                    assert(b2.knows(chans[i]));
                }
            }
        }
    }
}

/// Mixing known groups keeps the builder sound, and the mix is known.
pub proof fn lemma_mixed_sound(b: BuilderView, sigs: Seq<Seq<InputRef>>)
    ensures
        b.grows_to(mixed(b, sigs).0),
        b.sound() && b.knows_groups(sigs) && mixed(b, sigs).0.fits() ==> mixed(b, sigs).0.sound()
            && mixed(b, sigs).0.knows_all(mixed(b, sigs).1),
{
    if sigs.len() == 1 {
        if b.knows_groups(sigs) {
            assert(b.knows_all(sigs[0]));
        }
    } else if sigs.len() > 1 {
        lemma_sum_channels(b, sigs, widest(sigs));
    }
}

} // verus!
