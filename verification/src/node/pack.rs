//! The `~pack` node: concatenate signals into one channel group.

use crate::dsp::{self, BuilderView, DspBuilder, InputRef, Signal};
use crate::mix;
use crate::node::{self, NodeDsp};
use vstd::prelude::*;

verus! {

/// Concatenates its input signals into one channel group, an unconnected input
/// contributing one channel of silence. It emits no units.
#[derive(Clone, Copy, Debug, PartialEq, Eq, Hash, Structural)]
pub struct Pack {
    count: usize,
}

impl Pack {
    /// The count a fresh node starts with.
    pub const DEFAULT_COUNT: usize = 2;

    /// The number of dsp inputs to concatenate.
    pub closed spec fn count_spec(&self) -> usize {
        self.count
    }

    /// The number of dsp inputs to concatenate.
    pub fn count(&self) -> (r: usize)
        ensures
            r == self.count_spec(),
    {
        self.count
    }

    /// Sets the input count, at least one.
    pub fn set_count(&mut self, count: usize)
        ensures
            final(self).count_spec() == (if count == 0 {
                1
            } else {
                count
            }),
    {
        self.count = if count == 0 {
            1
        } else {
            count
        };
    }
}

impl Default for Pack {
    fn default() -> (r: Self)
        ensures
            r.count_spec() == Pack::DEFAULT_COUNT,
    {
        Pack { count: Pack::DEFAULT_COUNT }
    }
}

impl NodeDsp for Pack {
    open spec fn dsp_inputs(&self) -> nat {
        self.count_spec() as nat
    }

    open spec fn dsp_outputs(&self) -> nat {
        1
    }

    open spec fn output_sink(&self) -> bool {
        false
    }

    open spec fn monitor_sink(&self) -> bool {
        false
    }

    open spec fn boundary(&self) -> bool {
        false
    }

    open spec fn emit(
        &self,
        path: Seq<usize>,
        inputs: Seq<Option<Seq<InputRef>>>,
        b: BuilderView,
    ) -> (BuilderView, Seq<Seq<InputRef>>) {
        (b, seq![dsp::concat(node::groups_at(inputs, self.count_spec() as nat))])
    }

    proof fn lemma_emit_outputs(
        &self,
        path: Seq<usize>,
        inputs: Seq<Option<Seq<InputRef>>>,
        b: BuilderView,
    ) {
    }

    proof fn lemma_emit_sound(
        &self,
        path: Seq<usize>,
        inputs: Seq<Option<Seq<InputRef>>>,
        b: BuilderView,
    ) {
        let (c, groups) = self.emit(path, inputs, b);
        if b.knows_inputs(inputs) {
            let gs = node::groups_at(inputs, self.count_spec() as nat);
            assert forall|i: int| 0 <= i < gs.len() implies b.knows_all(#[trigger] gs[i]) by {
                node::lemma_group_known(b, inputs, i);
            }
            dsp::lemma_concat_known(b, gs);
        }
    }

    fn n_dsp_inputs(&self) -> (r: usize) {
        self.count
    }

    fn n_dsp_outputs(&self) -> (r: usize) {
        1
    }

    fn is_output(&self) -> (r: bool) {
        false
    }

    fn is_monitor(&self) -> (r: bool) {
        false
    }

    fn is_boundary(&self) -> (r: bool) {
        false
    }

    fn ugens(&self, path: &Vec<usize>, inputs: &Vec<Option<Signal>>, b: &mut DspBuilder) -> (outs:
        Vec<Signal>) {
        let parts = node::signals_at(inputs, self.count);
        let mut chans: Vec<InputRef> = Vec::new();
        let ghost all = mix::groups(parts@);
        let mut i: usize = 0;
        assert(all.take(0) =~= Seq::empty());
        while i < parts.len()
            invariant
                i <= parts@.len(),
                all == mix::groups(parts@),
                chans@ == dsp::concat(all.take(i as int)),
            decreases parts@.len() - i,
        {
            let mut more = dsp::dup_refs(&parts[i].0);
            proof {
                assert(all.take(i + 1).drop_last() =~= all.take(i as int));
                assert(all.take(i + 1).last() == parts@[i as int]@);
            }
            chans.append(&mut more);
            i = i + 1;
        }
        assert(all.take(i as int) =~= all);
        let outs = vec![Signal(chans)];
        assert(mix::groups(outs@) =~= seq![dsp::concat(all)]);
        outs
    }
}

} // verus!
