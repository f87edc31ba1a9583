//! The `~unpack` node: split a channel group into mono outputs.

use crate::dsp::{self, BuilderView, DspBuilder, InputRef, Signal};
use crate::mix;
use crate::node::{self, NodeDsp};
use vstd::prelude::*;

verus! {

/// Splits a channel group into mono outputs: output `i` carries the input's
/// channel `i`, or silence past the input's width. It emits no units.
#[derive(Clone, Copy, Debug, PartialEq, Eq, Hash, Structural)]
pub struct Unpack {
    count: usize,
}

impl Unpack {
    /// The count a fresh node starts with.
    pub const DEFAULT_COUNT: usize = 2;

    /// The number of mono outputs the input signal splits into.
    pub closed spec fn count_spec(&self) -> usize {
        self.count
    }

    /// The number of mono outputs the input signal splits into.
    pub fn count(&self) -> (r: usize)
        ensures
            r == self.count_spec(),
    {
        self.count
    }

    /// Sets the output count, at least one.
    pub fn set_count(&mut self, count: usize)
        ensures
            final(self).count_spec() == (if count == 0 {
                1
            } else {
                count
            }),
    {
        self.count = if count == 0 {
            1
        } else {
            count
        };
    }
}

impl Default for Unpack {
    fn default() -> (r: Self)
        ensures
            r.count_spec() == Unpack::DEFAULT_COUNT,
    {
        Unpack { count: Unpack::DEFAULT_COUNT }
    }
}

/// Channel `i` of a group as a group of its own, or mono silence past its width.
pub open spec fn channel_group(group: Seq<InputRef>, i: int) -> Seq<InputRef> {
    if i < group.len() {
        seq![group[i]]
    } else {
        dsp::silence(1)
    }
}

impl NodeDsp for Unpack {
    open spec fn dsp_inputs(&self) -> nat {
        1
    }

    open spec fn dsp_outputs(&self) -> nat {
        self.count_spec() as nat
    }

    open spec fn output_sink(&self) -> bool {
        false
    }

    open spec fn monitor_sink(&self) -> bool {
        false
    }

    open spec fn boundary(&self) -> bool {
        false
    }

    open spec fn emit(
        &self,
        path: Seq<usize>,
        inputs: Seq<Option<Seq<InputRef>>>,
        b: BuilderView,
    ) -> (BuilderView, Seq<Seq<InputRef>>) {
        (
            b,
            Seq::new(
                self.count_spec() as nat,
                |i: int| channel_group(node::group_at(inputs, 0), i),
            ),
        )
    }

    proof fn lemma_emit_outputs(
        &self,
        path: Seq<usize>,
        inputs: Seq<Option<Seq<InputRef>>>,
        b: BuilderView,
    ) {
    }

    proof fn lemma_emit_sound(
        &self,
        path: Seq<usize>,
        inputs: Seq<Option<Seq<InputRef>>>,
        b: BuilderView,
    ) {
        let (c, groups) = self.emit(path, inputs, b);
        if b.knows_inputs(inputs) {
            node::lemma_group_known(b, inputs, 0);
            let group = node::group_at(inputs, 0);
            assert forall|i: int| 0 <= i < groups.len() implies b.knows_all(
                #[trigger] groups[i],
            ) by {
                if i < group.len() {
                    assert(b.knows(group[i]));
                }
            }
        }
    }

    fn n_dsp_inputs(&self) -> (r: usize) {
        1
    }

    fn n_dsp_outputs(&self) -> (r: usize) {
        self.count
    }

    fn is_output(&self) -> (r: bool) {
        false
    }

    fn is_monitor(&self) -> (r: bool) {
        false
    }

    fn is_boundary(&self) -> (r: bool) {
        false
    }

    fn ugens(&self, path: &Vec<usize>, inputs: &Vec<Option<Signal>>, b: &mut DspBuilder) -> (outs:
        Vec<Signal>) {
        let signal = node::signal_at(inputs, 0);
        let mut outs: Vec<Signal> = Vec::new();
        let mut i: usize = 0;
        while i < self.count
            invariant
                i <= self.count,
                outs@.len() == i,
                forall|j: int| 0 <= j < i ==> #[trigger] outs@[j]@ == channel_group(signal@, j),
            decreases self.count - i,
        {
            let out = match signal.channel(i) {
                Some(c) => Signal::mono(c),
                None => Signal::silent(1),
            };
            outs.push(out);
            i = i + 1;
        }
        assert(mix::groups(outs@) =~= self.emit(path@, node::arriving(inputs@), b@).1);
        outs
    }
}

} // verus!
