//! The `~scopeout` node: monitor a signal into per-channel ring buffers.

use crate::dsp::{self, BuilderView, DspBuilder, InputRef, MonitorView, Rate, Signal, UnitSpec};
use crate::mix;
use crate::node::{self, NodeDsp};
use vstd::prelude::*;

verus! {

/// A signal monitor: streams every sample of its input into per-channel ring
/// buffers held in the node's state, read out on a control trigger.
#[derive(Clone, Copy, Debug, PartialEq, Eq, Hash, Structural)]
pub struct ScopeOut {
    size: usize,
}

impl ScopeOut {
    /// The size a fresh node starts with.
    pub const DEFAULT_SIZE: usize = 256;

    /// The ring-buffer length in frames.
    pub closed spec fn size_spec(&self) -> usize {
        self.size
    }

    /// The ring-buffer length in frames.
    pub fn size(&self) -> (r: usize)
        ensures
            r == self.size_spec(),
    {
        self.size
    }

    /// Sets the ring-buffer length in frames, at least one.
    pub fn set_size(&mut self, size: usize)
        ensures
            final(self).size_spec() == (if size == 0 {
                1
            } else {
                size
            }),
    {
        self.size = if size == 0 {
            1
        } else {
            size
        };
    }
}

impl Default for ScopeOut {
    fn default() -> (r: Self)
        ensures
            r.size_spec() == ScopeOut::DEFAULT_SIZE,
    {
        ScopeOut { size: ScopeOut::DEFAULT_SIZE }
    }
}

impl NodeDsp for ScopeOut {
    open spec fn dsp_inputs(&self) -> nat {
        1
    }

    open spec fn dsp_outputs(&self) -> nat {
        0
    }

    open spec fn output_sink(&self) -> bool {
        false
    }

    open spec fn monitor_sink(&self) -> bool {
        true
    }

    open spec fn boundary(&self) -> bool {
        false
    }

    open spec fn emit(
        &self,
        path: Seq<usize>,
        inputs: Seq<Option<Seq<InputRef>>>,
        b: BuilderView,
    ) -> (BuilderView, Seq<Seq<InputRef>>) {
        let group = node::group_at(inputs, 0);
        let b1 = b.with_unit(
            dsp::unit(
                "ScopeOut"@,
                Rate::Audio,
                seq![InputRef::Constant(dsp::ZERO)] + group,
                0,
            ),
        );
        let monitor = MonitorView {
            node_path: path,
            size: self.size_spec(),
            channels: group.len() as usize,
            scope_unit: b.units.len() as usize,
        };
        (b1.with_monitor(monitor), Seq::empty())
    }

    proof fn lemma_emit_outputs(
        &self,
        path: Seq<usize>,
        inputs: Seq<Option<Seq<InputRef>>>,
        b: BuilderView,
    ) {
    }

    proof fn lemma_emit_sound(
        &self,
        path: Seq<usize>,
        inputs: Seq<Option<Seq<InputRef>>>,
        b: BuilderView,
    ) {
        let (c, groups) = self.emit(path, inputs, b);
        let group = node::group_at(inputs, 0);
        let u = c.units.last();
        let b1 = b.with_unit(u);
        dsp::lemma_with_unit(b, u);
        dsp::lemma_with_monitor(b1, c.monitors.last());
        dsp::lemma_grows_trans(b, b1, c);
        if b.sound() && b.knows_inputs(inputs) && c.fits() {
            node::lemma_group_known(b, inputs, 0);
            assert forall|i: int| 0 <= i < u.inputs.len() implies b.knows(
                #[trigger] u.inputs[i],
            ) by {
                if i > 0 {
                    assert(u.inputs[i] == group[i - 1]);
                }
            }
        }
    }

    fn n_dsp_inputs(&self) -> (r: usize) {
        1
    }

    fn n_dsp_outputs(&self) -> (r: usize) {
        0
    }

    fn is_output(&self) -> (r: bool) {
        false
    }

    fn is_monitor(&self) -> (r: bool) {
        true
    }

    fn is_boundary(&self) -> (r: bool) {
        false
    }

    fn ugens(&self, path: &Vec<usize>, inputs: &Vec<Option<Signal>>, b: &mut DspBuilder) -> (outs:
        Vec<Signal>) {
        let signal = node::signal_at(inputs, 0);
        let ghost group = signal@;
        let width: usize = signal.width();
        let mut refs = vec![InputRef::Constant(dsp::ZERO)];
        let mut chans = signal.0;
        refs.append(&mut chans);
        assert(refs@ =~= seq![InputRef::Constant(dsp::ZERO)] + group);
        let unit: usize = b.push_unit(UnitSpec::new("ScopeOut", Rate::Audio, refs, 0));
        b.push_monitor(path, self.size, width, unit);
        let outs: Vec<Signal> = Vec::new();
        assert(mix::groups(outs@) =~= Seq::empty());
        outs
    }
}

} // verus!
