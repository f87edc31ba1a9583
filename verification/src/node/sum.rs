//! The `~sum` node: sum signals into their unity-gain mix.

use crate::dsp::{BuilderView, DspBuilder, InputRef, Signal};
use crate::mix;
use crate::node::{self, NodeDsp};
use vstd::prelude::*;

verus! {

/// Sums its input signals into one channel group: the same unity-gain mix as
/// several edges into one input.
#[derive(Clone, Copy, Debug, PartialEq, Eq, Hash, Structural)]
pub struct Sum {
    count: usize,
}

impl Sum {
    /// The count a fresh node starts with.
    pub const DEFAULT_COUNT: usize = 2;

    /// The number of dsp inputs to sum.
    pub closed spec fn count_spec(&self) -> usize {
        self.count
    }

    /// The number of dsp inputs to sum.
    pub fn count(&self) -> (r: usize)
        ensures
            r == self.count_spec(),
    {
        self.count
    }

    /// Sets the input count, at least one.
    pub fn set_count(&mut self, count: usize)
        ensures
            final(self).count_spec() == (if count == 0 {
                1
            } else {
                count
            }),
    {
        self.count = if count == 0 {
            1
        } else {
            count
        };
    }
}

impl Default for Sum {
    fn default() -> (r: Self)
        ensures
            r.count_spec() == Sum::DEFAULT_COUNT,
    {
        Sum { count: Sum::DEFAULT_COUNT }
    }
}

impl NodeDsp for Sum {
    open spec fn dsp_inputs(&self) -> nat {
        self.count_spec() as nat
    }

    open spec fn dsp_outputs(&self) -> nat {
        1
    }

    open spec fn output_sink(&self) -> bool {
        false
    }

    open spec fn monitor_sink(&self) -> bool {
        false
    }

    open spec fn boundary(&self) -> bool {
        false
    }

    open spec fn emit(
        &self,
        path: Seq<usize>,
        inputs: Seq<Option<Seq<InputRef>>>,
        b: BuilderView,
    ) -> (BuilderView, Seq<Seq<InputRef>>) {
        let (b1, group) = mix::mixed(b, node::groups_at(inputs, self.count_spec() as nat));
        (b1, seq![group])
    }

    proof fn lemma_emit_outputs(
        &self,
        path: Seq<usize>,
        inputs: Seq<Option<Seq<InputRef>>>,
        b: BuilderView,
    ) {
    }

    proof fn lemma_emit_sound(
        &self,
        path: Seq<usize>,
        inputs: Seq<Option<Seq<InputRef>>>,
        b: BuilderView,
    ) {
        let (c, groups) = self.emit(path, inputs, b);
        let gs = node::groups_at(inputs, self.count_spec() as nat);
        mix::lemma_mixed_sound(b, gs);
        if b.knows_inputs(inputs) {
            assert forall|i: int| 0 <= i < gs.len() implies b.knows_all(#[trigger] gs[i]) by {
                node::lemma_group_known(b, inputs, i);
            }
        }
    }

    fn n_dsp_inputs(&self) -> (r: usize) {
        self.count
    }

    fn n_dsp_outputs(&self) -> (r: usize) {
        1
    }

    fn is_output(&self) -> (r: bool) {
        false
    }

    fn is_monitor(&self) -> (r: bool) {
        false
    }

    fn is_boundary(&self) -> (r: bool) {
        false
    }

    fn ugens(&self, path: &Vec<usize>, inputs: &Vec<Option<Signal>>, b: &mut DspBuilder) -> (outs:
        Vec<Signal>) {
        let parts = node::signals_at(inputs, self.count);
        let sum = mix::sum_signals(b, &parts);
        let ghost group = sum@;
        let outs = vec![sum];
        assert(mix::groups(outs@) =~= seq![group]);
        outs
    }
}

} // verus!
