//! The `~bus` node: a boundary between synth definitions.

use crate::dsp::{BuilderView, DspBuilder, InputRef, Signal};
use crate::mix;
use crate::node::{self, NodeDsp};
use vstd::prelude::*;

verus! {

/// A synthdef boundary: the signal on one side enters a separate synth definition
/// on the other. Within one definition it is a plain wire.
#[derive(Clone, Copy, Debug, PartialEq, Eq, Hash, Structural)]
pub struct Bus {}

impl Default for Bus {
    fn default() -> (r: Self)
        ensures
            r == (Bus {  }),
    {
        Bus {  }
    }
}

impl NodeDsp for Bus {
    open spec fn dsp_inputs(&self) -> nat {
        1
    }

    open spec fn dsp_outputs(&self) -> nat {
        1
    }

    open spec fn output_sink(&self) -> bool {
        false
    }

    open spec fn monitor_sink(&self) -> bool {
        false
    }

    open spec fn boundary(&self) -> bool {
        true
    }

    open spec fn emit(
        &self,
        path: Seq<usize>,
        inputs: Seq<Option<Seq<InputRef>>>,
        b: BuilderView,
    ) -> (BuilderView, Seq<Seq<InputRef>>) {
        (b, seq![node::group_at(inputs, 0)])
    }

    proof fn lemma_emit_outputs(
        &self,
        path: Seq<usize>,
        inputs: Seq<Option<Seq<InputRef>>>,
        b: BuilderView,
    ) {
    }

    proof fn lemma_emit_sound(
        &self,
        path: Seq<usize>,
        inputs: Seq<Option<Seq<InputRef>>>,
        b: BuilderView,
    ) {
        let (c, groups) = self.emit(path, inputs, b);
        if b.knows_inputs(inputs) {
            node::lemma_group_known(b, inputs, 0);
        }
    }

    fn n_dsp_inputs(&self) -> (r: usize) {
        1
    }

    fn n_dsp_outputs(&self) -> (r: usize) {
        1
    }

    fn is_output(&self) -> (r: bool) {
        false
    }

    fn is_monitor(&self) -> (r: bool) {
        false
    }

    fn is_boundary(&self) -> (r: bool) {
        true
    }

    fn ugens(&self, path: &Vec<usize>, inputs: &Vec<Option<Signal>>, b: &mut DspBuilder) -> (outs:
        Vec<Signal>) {
        let signal = node::signal_at(inputs, 0);
        let ghost group = signal@;
        let outs = vec![signal];
        assert(mix::groups(outs@) =~= seq![group]);
        outs
    }
}

} // verus!
