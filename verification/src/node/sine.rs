//! The `~sine` sine-oscillator node.

use crate::dsp::{self, BuilderView, DspBuilder, Float, InputRef, Rate, Signal, UnitSpec};
use crate::mix;
use crate::node::NodeDsp;
use crate::param;
use vstd::prelude::*;

verus! {

/// A mono sine oscillator: `SinOsc.ar(freq)`, the frequency a settable param.
#[derive(Clone, Copy, Debug, PartialEq, Eq, Hash, Structural)]
pub struct Sine {
    freq: Float,
}

/// `220.0` Hz.
pub const DEFAULT_FREQ: Float = 0x435c_0000;

impl Sine {
    /// The oscillator frequency in Hz.
    pub closed spec fn freq_spec(&self) -> Float {
        self.freq
    }

    /// The oscillator frequency in Hz.
    pub fn freq(&self) -> (r: Float)
        ensures
            r == self.freq_spec(),
    {
        self.freq
    }

    /// Sets the oscillator frequency.
    pub fn set_freq(&mut self, freq: Float)
        ensures
            final(self).freq_spec() == freq,
    {
        self.freq = freq;
    }
}

impl Default for Sine {
    fn default() -> (r: Self)
        ensures
            r.freq_spec() == DEFAULT_FREQ,
    {
        Sine { freq: DEFAULT_FREQ }
    }
}

impl NodeDsp for Sine {
    open spec fn dsp_inputs(&self) -> nat {
        0
    }

    open spec fn dsp_outputs(&self) -> nat {
        1
    }

    open spec fn output_sink(&self) -> bool {
        false
    }

    open spec fn monitor_sink(&self) -> bool {
        false
    }

    open spec fn boundary(&self) -> bool {
        false
    }

    open spec fn emit(
        &self,
        path: Seq<usize>,
        inputs: Seq<Option<Seq<InputRef>>>,
        b: BuilderView,
    ) -> (BuilderView, Seq<Seq<InputRef>>) {
        let b1 = b.with_bound_param(
            path,
            param::param_of(param::name_of(path, "freq"@), self.freq_spec(), dsp::ZERO),
        );
        let b2 = b1.with_unit(
            dsp::unit(
                "SinOsc"@,
                Rate::Audio,
                seq![InputRef::Param(b.params.len() as usize), InputRef::Constant(dsp::ZERO)],
                1,
            ),
        );
        (b2, seq![seq![b2.last_unit()]])
    }

    proof fn lemma_emit_outputs(
        &self,
        path: Seq<usize>,
        inputs: Seq<Option<Seq<InputRef>>>,
        b: BuilderView,
    ) {
    }

    proof fn lemma_emit_sound(
        &self,
        path: Seq<usize>,
        inputs: Seq<Option<Seq<InputRef>>>,
        b: BuilderView,
    ) {
        let (c, groups) = self.emit(path, inputs, b);
        let p = param::param_of(param::name_of(path, "freq"@), self.freq_spec(), dsp::ZERO);
        let b1 = b.with_bound_param(path, p);
        let u = c.units.last();
        dsp::lemma_with_bound_param(b, path, p);
        dsp::lemma_with_unit(b1, u);
        dsp::lemma_grows_trans(b, b1, c);
        if c.fits() {
            dsp::lemma_grows_fits(b1, c);
            assert(b1.knows_all(u.inputs));
        }
    }

    fn n_dsp_inputs(&self) -> (r: usize) {
        0
    }

    fn n_dsp_outputs(&self) -> (r: usize) {
        1
    }

    fn is_output(&self) -> (r: bool) {
        false
    }

    fn is_monitor(&self) -> (r: bool) {
        false
    }

    fn is_boundary(&self) -> (r: bool) {
        false
    }

    fn ugens(&self, path: &Vec<usize>, inputs: &Vec<Option<Signal>>, b: &mut DspBuilder) -> (outs:
        Vec<Signal>) {
        let name = param::param_name(path, "freq");
        let p: usize = b.push_param(path, param::plyphon_param(name, self.freq, dsp::ZERO));
        let refs = vec![InputRef::Param(p), InputRef::Constant(dsp::ZERO)];
        assert(refs@ =~= seq![InputRef::Param(p), InputRef::Constant(dsp::ZERO)]);
        let unit: usize = b.push_unit(UnitSpec::new("SinOsc", Rate::Audio, refs, 1));
        let outs = vec![Signal::mono(InputRef::Unit { unit, output: 0 })];
        assert(mix::groups(outs@) =~= seq![seq![b@.last_unit()]]);
        outs
    }
}

} // verus!
