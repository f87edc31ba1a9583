//! The `~lag` node: a one-pole smoother.

use crate::dsp::{self, BuilderView, DspBuilder, Float, InputRef, Rate, Signal, UnitSpec};
use crate::mix;
use crate::node::{self, NodeDsp};
use crate::param;
use vstd::prelude::*;

verus! {

/// A one-pole lag: each channel of its input smoothed by a `Lag.ar(in, dur)`
/// unit. The duration lives in the node's state, not in the node.
#[derive(Clone, Copy, Debug, PartialEq, Eq, Hash, Structural)]
pub struct Lag {}

impl Lag {
    /// The lag time a fresh node starts at: `0.1` seconds.
    pub const DEFAULT_DUR: Float = 0x3dcc_cccd;
}

impl Default for Lag {
    fn default() -> (r: Self)
        ensures
            r == (Lag {  }),
    {
        Lag {  }
    }
}

/// One `Lag` unit for each of the first `n` channels.
pub open spec fn lagged(b: BuilderView, group: Seq<InputRef>, dur: usize, n: nat) -> (
    BuilderView,
    Seq<InputRef>,
)
    decreases n,
{
    if n == 0 {
        (b, Seq::empty())
    } else {
        let (b1, chans) = lagged(b, group, dur, (n - 1) as nat);
        let b2 = b1.with_unit(
            dsp::unit("Lag"@, Rate::Audio, seq![group[n - 1], InputRef::Param(dur)], 1),
        );
        (b2, chans.push(b2.last_unit()))
    }
}

/// The units of a lag keep the builder sound.
pub proof fn lemma_lagged(b: BuilderView, group: Seq<InputRef>, dur: usize, n: nat)
    ensures
        b.grows_to(lagged(b, group, dur, n).0),
        b.sound() && b.knows_all(group) && n <= group.len() && dur < b.params.len() && lagged(
            b,
            group,
            dur,
            n,
        ).0.fits() ==> lagged(b, group, dur, n).0.sound() && lagged(b, group, dur, n).0.knows_all(
            lagged(b, group, dur, n).1,
        ),
    decreases n,
{
    if n > 0 {
        lemma_lagged(b, group, dur, (n - 1) as nat);
        let (b1, chans) = lagged(b, group, dur, (n - 1) as nat);
        let u = dsp::unit("Lag"@, Rate::Audio, seq![group[n - 1], InputRef::Param(dur)], 1);
        let b2 = b1.with_unit(u);
        dsp::lemma_with_unit(b1, u);
        dsp::lemma_grows_trans(b, b1, b2);
        if b.sound() && b.knows_all(group) && n <= group.len() && dur < b.params.len()
            && b2.fits() {
            dsp::lemma_grows_fits(b1, b2);
            dsp::lemma_grows_knows(b, b1, group);
            assert(b1.knows(group[n - 1]));
            assert(b1.knows_all(u.inputs));
            dsp::lemma_grows_knows(b1, b2, chans);
            let out = chans.push(b2.last_unit());
            assert forall|i: int| 0 <= i < out.len() implies b2.knows(#[trigger] out[i]) by {
                if i < chans.len() {
                    assert(out[i] == chans[i]);
                }
            }
        }
    }
}

impl NodeDsp for Lag {
    open spec fn dsp_inputs(&self) -> nat {
        1
    }

    open spec fn dsp_outputs(&self) -> nat {
        1
    }

    open spec fn output_sink(&self) -> bool {
        false
    }

    open spec fn monitor_sink(&self) -> bool {
        false
    }

    open spec fn boundary(&self) -> bool {
        false
    }

    open spec fn emit(
        &self,
        path: Seq<usize>,
        inputs: Seq<Option<Seq<InputRef>>>,
        b: BuilderView,
    ) -> (BuilderView, Seq<Seq<InputRef>>) {
        let group = node::group_at(inputs, 0);
        let b1 = b.with_bound_param(
            path,
            param::param_of(param::name_of(path, "dur"@), Lag::DEFAULT_DUR, dsp::ZERO),
        );
        let (b2, chans) = lagged(b1, group, b.params.len() as usize, group.len());
        (b2, seq![chans])
    }

    proof fn lemma_emit_outputs(
        &self,
        path: Seq<usize>,
        inputs: Seq<Option<Seq<InputRef>>>,
        b: BuilderView,
    ) {
    }

    proof fn lemma_emit_sound(
        &self,
        path: Seq<usize>,
        inputs: Seq<Option<Seq<InputRef>>>,
        b: BuilderView,
    ) {
        let (c, groups) = self.emit(path, inputs, b);
        let p = param::param_of(param::name_of(path, "dur"@), Lag::DEFAULT_DUR, dsp::ZERO);
        let group = node::group_at(inputs, 0);
        let dur = b.params.len() as usize;
        let b1 = b.with_bound_param(path, p);
        dsp::lemma_with_bound_param(b, path, p);
        lemma_lagged(b1, group, dur, group.len());
        dsp::lemma_grows_trans(b, b1, c);
        if b.knows_inputs(inputs) && c.fits() {
            dsp::lemma_grows_fits(b1, c);
            node::lemma_group_known(b, inputs, 0);
            dsp::lemma_grows_knows(b, b1, group);
        }
    }

    fn n_dsp_inputs(&self) -> (r: usize) {
        1
    }

    fn n_dsp_outputs(&self) -> (r: usize) {
        1
    }

    fn is_output(&self) -> (r: bool) {
        false
    }

    fn is_monitor(&self) -> (r: bool) {
        false
    }

    fn is_boundary(&self) -> (r: bool) {
        false
    }

    fn ugens(&self, path: &Vec<usize>, inputs: &Vec<Option<Signal>>, b: &mut DspBuilder) -> (outs:
        Vec<Signal>) {
        let signal = node::signal_at(inputs, 0);
        let name = param::param_name(path, "dur");
        let dur: usize = b.push_param(path, param::plyphon_param(name, Lag::DEFAULT_DUR, dsp::ZERO));
        let ghost b1 = b@;
        let mut chans: Vec<InputRef> = Vec::new();
        let mut i: usize = 0;
        while i < signal.width()
            invariant
                i <= signal@.len(),
                (b@, chans@) == lagged(b1, signal@, dur, i as nat),
            decreases signal@.len() - i,
        {
            let refs = vec![signal.0[i], InputRef::Param(dur)];
            assert(refs@ =~= seq![signal@[i as int], InputRef::Param(dur)]);
            let unit: usize = b.push_unit(UnitSpec::new("Lag", Rate::Audio, refs, 1));
            chans.push(InputRef::Unit { unit, output: 0 });
            i = i + 1;
        }
        let ghost group = chans@;
        let outs = vec![Signal(chans)];
        assert(mix::groups(outs@) =~= seq![group]);
        outs
    }
}

} // verus!
