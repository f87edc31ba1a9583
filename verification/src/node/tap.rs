//! The `~tap` node: monitor a signal into a ring buffer.

use crate::dsp::{self, BuilderView, DspBuilder, InputRef, MonitorView, Rate, Signal, UnitSpec};
use crate::mix;
use crate::node::{self, NodeDsp};
use vstd::prelude::*;

verus! {

/// A mono signal tap: streams every sample of its input's first channel into a
/// ring buffer held in the node's state, read out on a control trigger.
#[derive(Clone, Copy, Debug, PartialEq, Eq, Hash, Structural)]
pub struct Tap {
    size: usize,
}

impl Tap {
    /// The size a fresh node starts with.
    pub const DEFAULT_SIZE: usize = 256;

    /// The ring-buffer length in samples.
    pub closed spec fn size_spec(&self) -> usize {
        self.size
    }

    /// The ring-buffer length in samples.
    pub fn size(&self) -> (r: usize)
        ensures
            r == self.size_spec(),
    {
        self.size
    }

    /// Sets the ring-buffer length in samples, at least one.
    pub fn set_size(&mut self, size: usize)
        ensures
            final(self).size_spec() == (if size == 0 {
                1
            } else {
                size
            }),
    {
        self.size = if size == 0 {
            1
        } else {
            size
        };
    }
}

impl Default for Tap {
    fn default() -> (r: Self)
        ensures
            r.size_spec() == Tap::DEFAULT_SIZE,
    {
        Tap { size: Tap::DEFAULT_SIZE }
    }
}

/// The first channel of a group, or silence.
pub open spec fn first_channel(group: Seq<InputRef>) -> InputRef {
    if group.len() > 0 {
        group[0]
    } else {
        InputRef::Constant(dsp::ZERO)
    }
}

impl NodeDsp for Tap {
    open spec fn dsp_inputs(&self) -> nat {
        1
    }

    open spec fn dsp_outputs(&self) -> nat {
        0
    }

    open spec fn output_sink(&self) -> bool {
        false
    }

    open spec fn monitor_sink(&self) -> bool {
        true
    }

    open spec fn boundary(&self) -> bool {
        false
    }

    open spec fn emit(
        &self,
        path: Seq<usize>,
        inputs: Seq<Option<Seq<InputRef>>>,
        b: BuilderView,
    ) -> (BuilderView, Seq<Seq<InputRef>>) {
        let b1 = b.with_unit(
            dsp::unit(
                "ScopeOut"@,
                Rate::Audio,
                seq![
                    InputRef::Constant(dsp::ZERO),
                    first_channel(node::group_at(inputs, 0)),
                ],
                0,
            ),
        );
        let monitor = MonitorView {
            node_path: path,
            size: self.size_spec(),
            channels: 1,
            scope_unit: b.units.len() as usize,
        };
        (b1.with_monitor(monitor), Seq::empty())
    }

    proof fn lemma_emit_outputs(
        &self,
        path: Seq<usize>,
        inputs: Seq<Option<Seq<InputRef>>>,
        b: BuilderView,
    ) {
    }

    proof fn lemma_emit_sound(
        &self,
        path: Seq<usize>,
        inputs: Seq<Option<Seq<InputRef>>>,
        b: BuilderView,
    ) {
        let (c, groups) = self.emit(path, inputs, b);
        let group = node::group_at(inputs, 0);
        let u = c.units.last();
        let b1 = b.with_unit(u);
        dsp::lemma_with_unit(b, u);
        dsp::lemma_with_monitor(b1, c.monitors.last());
        dsp::lemma_grows_trans(b, b1, c);
        if b.sound() && b.knows_inputs(inputs) && c.fits() {
            node::lemma_group_known(b, inputs, 0);
            if group.len() > 0 {
                assert(b.knows(group[0]));
            }
            assert(b.knows_all(u.inputs));
        }
    }

    fn n_dsp_inputs(&self) -> (r: usize) {
        1
    }

    fn n_dsp_outputs(&self) -> (r: usize) {
        0
    }

    fn is_output(&self) -> (r: bool) {
        false
    }

    fn is_monitor(&self) -> (r: bool) {
        true
    }

    fn is_boundary(&self) -> (r: bool) {
        false
    }

    fn ugens(&self, path: &Vec<usize>, inputs: &Vec<Option<Signal>>, b: &mut DspBuilder) -> (outs:
        Vec<Signal>) {
        let signal = node::signal_at(inputs, 0);
        let first = match signal.channel(0) {
            Some(c) => c,
            None => InputRef::Constant(dsp::ZERO),
        };
        let refs = vec![InputRef::Constant(dsp::ZERO), first];
        assert(refs@ =~= seq![InputRef::Constant(dsp::ZERO), first]);
        let unit: usize = b.push_unit(UnitSpec::new("ScopeOut", Rate::Audio, refs, 0));
        b.push_monitor(path, self.size, 1, unit);
        let outs: Vec<Signal> = Vec::new();
        assert(mix::groups(outs@) =~= Seq::empty());
        outs
    }
}

} // verus!
