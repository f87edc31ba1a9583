//! The `~out` audio-output sink node.

use crate::dsp::{self, BuilderView, DspBuilder, Float, InputRef, Rate, Signal, UnitSpec, UnitView};
use crate::mix;
use crate::node::{self, NodeDsp};
use crate::param;
use vstd::string::*;
use vstd::prelude::*;

verus! {

/// The audio output sink: applies a master gain to its input and writes it to
/// output bus 0. A mono signal fans across every output channel, a wider one maps
/// channel for channel.
#[derive(Clone, Copy, Debug, PartialEq, Eq, Hash, Structural)]
pub struct Out {
    gain: Float,
}

/// `0.2`.
pub const DEFAULT_GAIN: Float = 0x3e4c_cccd;

/// The smoothing time of the gain: `0.01` seconds.
pub const GAIN_LAG: Float = 0x3c23_d70a;

impl Out {
    /// The master output gain (linear amplitude).
    pub closed spec fn gain_spec(&self) -> Float {
        self.gain
    }

    /// The master output gain (linear amplitude).
    pub fn gain(&self) -> (r: Float)
        ensures
            r == self.gain_spec(),
    {
        self.gain
    }

    /// Sets the master output gain.
    pub fn set_gain(&mut self, gain: Float)
        ensures
            final(self).gain_spec() == gain,
    {
        self.gain = gain;
    }
}

impl Default for Out {
    fn default() -> (r: Self)
        ensures
            r.gain_spec() == DEFAULT_GAIN,
    {
        Out { gain: DEFAULT_GAIN }
    }
}

/// The product of a channel and the gain param.
pub open spec fn gain_unit(channel: InputRef, gain: usize) -> UnitView {
    UnitView {
        name: "BinaryOpUGen"@,
        rate: Rate::Audio,
        inputs: seq![channel, InputRef::Param(gain)],
        num_outputs: 1,
        special_index: 2,
    }
}

/// The first `n` channels, each multiplied by the gain.
pub open spec fn gained(b: BuilderView, group: Seq<InputRef>, gain: usize, n: nat) -> (
    BuilderView,
    Seq<InputRef>,
)
    decreases n,
{
    if n == 0 {
        (b, Seq::empty())
    } else {
        let (b1, chans) = gained(b, group, gain, (n - 1) as nat);
        let b2 = b1.with_unit(gain_unit(group[n - 1], gain));
        (b2, chans.push(b2.last_unit()))
    }
}

/// How many channels of a group of width `width` the gain applies to: those that reach
/// `outputs` outputs, and the first in any case.
pub open spec fn used_channels(width: nat, outputs: nat) -> nat {
    if width <= 1 || width < outputs {
        width
    } else if outputs == 0 {
        1
    } else {
        outputs
    }
}

/// What is written to the output channels: a mono group to each of them, a wider
/// one channel for channel.
pub open spec fn fanned(chans: Seq<InputRef>, outputs: nat) -> Seq<InputRef> {
    if chans.len() == 1 {
        Seq::new(outputs, |i: int| chans[0])
    } else {
        chans
    }
}

/// The gain keeps the builder sound.
pub proof fn lemma_gained(b: BuilderView, group: Seq<InputRef>, gain: usize, n: nat)
    ensures
        b.grows_to(gained(b, group, gain, n).0),
        b.sound() && b.knows_all(group) && n <= group.len() && gain < b.params.len() && gained(
            b,
            group,
            gain,
            n,
        ).0.fits() ==> gained(b, group, gain, n).0.sound() && gained(
            b,
            group,
            gain,
            n,
        ).0.knows_all(gained(b, group, gain, n).1),
    decreases n,
{
    if n > 0 {
        lemma_gained(b, group, gain, (n - 1) as nat);
        let (b1, chans) = gained(b, group, gain, (n - 1) as nat);
        let u = gain_unit(group[n - 1], gain);
        let b2 = b1.with_unit(u);
        dsp::lemma_with_unit(b1, u);
        dsp::lemma_grows_trans(b, b1, b2);
        if b.sound() && b.knows_all(group) && n <= group.len() && gain < b.params.len()
            && b2.fits() {
            dsp::lemma_grows_fits(b1, b2);
            dsp::lemma_grows_knows(b, b1, group);
            assert(b1.knows(group[n - 1]));
            assert(b1.knows_all(u.inputs));
            dsp::lemma_grows_knows(b1, b2, chans);
            let out = chans.push(b2.last_unit());
            assert forall|i: int| 0 <= i < out.len() implies b2.knows(#[trigger] out[i]) by {
                if i < chans.len() {
                    assert(out[i] == chans[i]);
                }
            }
        }
    }
}

impl NodeDsp for Out {
    open spec fn dsp_inputs(&self) -> nat {
        1
    }

    open spec fn dsp_outputs(&self) -> nat {
        0
    }

    open spec fn output_sink(&self) -> bool {
        true
    }

    open spec fn monitor_sink(&self) -> bool {
        false
    }

    open spec fn boundary(&self) -> bool {
        false
    }

    open spec fn emit(
        &self,
        path: Seq<usize>,
        inputs: Seq<Option<Seq<InputRef>>>,
        b: BuilderView,
    ) -> (BuilderView, Seq<Seq<InputRef>>) {
        let group = node::group_at(inputs, 0);
        let gain = b.params.len() as usize;
        let b1 = b.with_bound_param(
            path,
            param::param_of(param::name_of(path, "gain"@), self.gain_spec(), GAIN_LAG),
        ).with_gain(path, gain);
        let (b2, chans) = gained(
            b1,
            group,
            gain,
            used_channels(group.len(), b.out_channels),
        );
        let b3 = b2.with_unit(
            dsp::unit(
                "Out"@,
                Rate::Audio,
                seq![InputRef::Constant(dsp::ZERO)] + fanned(chans, b.out_channels),
                0,
            ),
        );
        (b3, Seq::empty())
    }

    proof fn lemma_emit_outputs(
        &self,
        path: Seq<usize>,
        inputs: Seq<Option<Seq<InputRef>>>,
        b: BuilderView,
    ) {
    }

    proof fn lemma_emit_sound(
        &self,
        path: Seq<usize>,
        inputs: Seq<Option<Seq<InputRef>>>,
        b: BuilderView,
    ) {
        let (c, groups) = self.emit(path, inputs, b);
        let p = param::param_of(param::name_of(path, "gain"@), self.gain_spec(), GAIN_LAG);
        let group = node::group_at(inputs, 0);
        let gain = b.params.len() as usize;
        let b0 = b.with_bound_param(path, p);
        let b1 = b0.with_gain(path, gain);
        let n = used_channels(group.len(), b.out_channels);
        let (b2, chans) = gained(b1, group, gain, n);
        let u = c.units.last();
        dsp::lemma_with_bound_param(b, path, p);
        dsp::lemma_with_gain(b0, path, gain);
        dsp::lemma_grows_trans(b, b0, b1);
        lemma_gained(b1, group, gain, n);
        dsp::lemma_grows_trans(b, b1, b2);
        dsp::lemma_with_unit(b2, u);
        dsp::lemma_grows_trans(b, b2, c);
        if b.sound() && b.knows_inputs(inputs) && c.fits() {
            dsp::lemma_grows_fits(b2, c);
            dsp::lemma_grows_fits(b1, b2);
            dsp::lemma_grows_fits(b0, b1);
            node::lemma_group_known(b, inputs, 0);
            dsp::lemma_grows_knows(b, b1, group);
            let fan = fanned(chans, b.out_channels);
            assert forall|i: int| 0 <= i < u.inputs.len() implies b2.knows(
                #[trigger] u.inputs[i],
            ) by {
                if i > 0 {
                    assert(u.inputs[i] == fan[i - 1]);
                    if chans.len() == 1 {
                        assert(b2.knows(chans[0]));
                    } else {
                        assert(b2.knows(chans[i - 1]));
                    }
                }
            }
        }
    }

    fn n_dsp_inputs(&self) -> (r: usize) {
        1
    }

    fn n_dsp_outputs(&self) -> (r: usize) {
        0
    }

    fn is_output(&self) -> (r: bool) {
        true
    }

    fn is_monitor(&self) -> (r: bool) {
        false
    }

    fn is_boundary(&self) -> (r: bool) {
        false
    }

    fn ugens(&self, path: &Vec<usize>, inputs: &Vec<Option<Signal>>, b: &mut DspBuilder) -> (outs:
        Vec<Signal>) {
        let signal = node::signal_at(inputs, 0);
        let outputs: usize = b.out_channels();
        let name = param::param_name(path, "gain");
        let gain: usize = b.push_param(path, param::plyphon_param(name, self.gain, GAIN_LAG));
        b.push_gain(path, gain);
        let ghost b1 = b@;
        let used: usize = if signal.width() <= 1 || signal.width() < outputs {
            signal.width()
        } else if outputs == 0 {
            1
        } else {
            outputs
        };
        let mut chans: Vec<InputRef> = Vec::new();
        let mut i: usize = 0;
        while i < used
            invariant
                i <= used <= signal@.len(),
                (b@, chans@) == gained(b1, signal@, gain, i as nat),
            decreases used - i,
        {
            let spec = UnitSpec {
                name: String::from_str("BinaryOpUGen"),
                rate: Rate::Audio,
                inputs: vec![signal.0[i], InputRef::Param(gain)],
                num_outputs: 1,
                special_index: 2,
            };
            assert(spec@ =~= gain_unit(signal@[i as int], gain));
            let unit: usize = b.push_unit(spec);
            chans.push(InputRef::Unit { unit, output: 0 });
            i = i + 1;
        }
        let ghost gained_chans = chans@;
        let mut refs = vec![InputRef::Constant(dsp::ZERO)];
        if chans.len() == 1 {
            let mut k: usize = 0;
            while k < outputs
                invariant
                    k <= outputs,
                    chans@.len() == 1,
                    refs@ =~= seq![InputRef::Constant(dsp::ZERO)] + fanned(chans@, k as nat),
                decreases outputs - k,
            {
                refs.push(chans[0]);
                k = k + 1;
            }
        } else {
            refs.append(&mut chans);
        }
        assert(refs@ =~= seq![InputRef::Constant(dsp::ZERO)] + fanned(gained_chans, outputs as nat));
        let _ = b.push_unit(UnitSpec::new("Out", Rate::Audio, refs, 0));
        let outs: Vec<Signal> = Vec::new();
        assert(mix::groups(outs@) =~= Seq::empty());
        outs
    }
}

} // verus!
