//! The DSP nodes as one type, and graph nodes that hold them.

use crate::dsp::{BuilderView, DspBuilder, InputRef, Signal};
use crate::graph::GraphAddr;
use crate::node::bus::Bus;
use crate::node::lag::Lag;
use crate::node::out::Out;
use crate::node::pack::Pack;
use crate::node::scope_out::ScopeOut;
use crate::node::sine::Sine;
use crate::node::sum::Sum;
use crate::node::tap::Tap;
use crate::node::unpack::Unpack;
use crate::node::{NodeDsp, RefNode, ToNodeDsp};
use vstd::prelude::*;

verus! {

/// Any of the DSP nodes.
#[derive(Clone, Copy, Debug, PartialEq, Eq, Hash, Structural)]
pub enum DspNode {
    Bus(Bus),
    Lag(Lag),
    Out(Out),
    Pack(Pack),
    ScopeOut(ScopeOut),
    Sine(Sine),
    Sum(Sum),
    Tap(Tap),
    Unpack(Unpack),
}

impl NodeDsp for DspNode {
    open spec fn dsp_inputs(&self) -> nat {
        match self {
            DspNode::Bus(n) => n.dsp_inputs(),
            DspNode::Lag(n) => n.dsp_inputs(),
            DspNode::Out(n) => n.dsp_inputs(),
            DspNode::Pack(n) => n.dsp_inputs(),
            DspNode::ScopeOut(n) => n.dsp_inputs(),
            DspNode::Sine(n) => n.dsp_inputs(),
            DspNode::Sum(n) => n.dsp_inputs(),
            DspNode::Tap(n) => n.dsp_inputs(),
            DspNode::Unpack(n) => n.dsp_inputs(),
        }
    }

    open spec fn dsp_outputs(&self) -> nat {
        match self {
            DspNode::Bus(n) => n.dsp_outputs(),
            DspNode::Lag(n) => n.dsp_outputs(),
            DspNode::Out(n) => n.dsp_outputs(),
            DspNode::Pack(n) => n.dsp_outputs(),
            DspNode::ScopeOut(n) => n.dsp_outputs(),
            DspNode::Sine(n) => n.dsp_outputs(),
            DspNode::Sum(n) => n.dsp_outputs(),
            DspNode::Tap(n) => n.dsp_outputs(),
            DspNode::Unpack(n) => n.dsp_outputs(),
        }
    }

    open spec fn output_sink(&self) -> bool {
        match self {
            DspNode::Bus(n) => n.output_sink(),
            DspNode::Lag(n) => n.output_sink(),
            DspNode::Out(n) => n.output_sink(),
            DspNode::Pack(n) => n.output_sink(),
            DspNode::ScopeOut(n) => n.output_sink(),
            DspNode::Sine(n) => n.output_sink(),
            DspNode::Sum(n) => n.output_sink(),
            DspNode::Tap(n) => n.output_sink(),
            DspNode::Unpack(n) => n.output_sink(),
        }
    }

    open spec fn monitor_sink(&self) -> bool {
        match self {
            DspNode::Bus(n) => n.monitor_sink(),
            DspNode::Lag(n) => n.monitor_sink(),
            DspNode::Out(n) => n.monitor_sink(),
            DspNode::Pack(n) => n.monitor_sink(),
            DspNode::ScopeOut(n) => n.monitor_sink(),
            DspNode::Sine(n) => n.monitor_sink(),
            DspNode::Sum(n) => n.monitor_sink(),
            DspNode::Tap(n) => n.monitor_sink(),
            DspNode::Unpack(n) => n.monitor_sink(),
        }
    }

    open spec fn boundary(&self) -> bool {
        match self {
            DspNode::Bus(n) => n.boundary(),
            DspNode::Lag(n) => n.boundary(),
            DspNode::Out(n) => n.boundary(),
            DspNode::Pack(n) => n.boundary(),
            DspNode::ScopeOut(n) => n.boundary(),
            DspNode::Sine(n) => n.boundary(),
            DspNode::Sum(n) => n.boundary(),
            DspNode::Tap(n) => n.boundary(),
            DspNode::Unpack(n) => n.boundary(),
        }
    }

    open spec fn emit(
        &self,
        path: Seq<usize>,
        inputs: Seq<Option<Seq<InputRef>>>,
        b: BuilderView,
    ) -> (BuilderView, Seq<Seq<InputRef>>) {
        match self {
            DspNode::Bus(n) => n.emit(path, inputs, b),
            DspNode::Lag(n) => n.emit(path, inputs, b),
            DspNode::Out(n) => n.emit(path, inputs, b),
            DspNode::Pack(n) => n.emit(path, inputs, b),
            DspNode::ScopeOut(n) => n.emit(path, inputs, b),
            DspNode::Sine(n) => n.emit(path, inputs, b),
            DspNode::Sum(n) => n.emit(path, inputs, b),
            DspNode::Tap(n) => n.emit(path, inputs, b),
            DspNode::Unpack(n) => n.emit(path, inputs, b),
        }
    }

    proof fn lemma_emit_outputs(
        &self,
        path: Seq<usize>,
        inputs: Seq<Option<Seq<InputRef>>>,
        b: BuilderView,
    ) {
        match self {
            DspNode::Bus(n) => n.lemma_emit_outputs(path, inputs, b),
            DspNode::Lag(n) => n.lemma_emit_outputs(path, inputs, b),
            DspNode::Out(n) => n.lemma_emit_outputs(path, inputs, b),
            DspNode::Pack(n) => n.lemma_emit_outputs(path, inputs, b),
            DspNode::ScopeOut(n) => n.lemma_emit_outputs(path, inputs, b),
            DspNode::Sine(n) => n.lemma_emit_outputs(path, inputs, b),
            DspNode::Sum(n) => n.lemma_emit_outputs(path, inputs, b),
            DspNode::Tap(n) => n.lemma_emit_outputs(path, inputs, b),
            DspNode::Unpack(n) => n.lemma_emit_outputs(path, inputs, b),
        }
    }

    proof fn lemma_emit_sound(
        &self,
        path: Seq<usize>,
        inputs: Seq<Option<Seq<InputRef>>>,
        b: BuilderView,
    ) {
        match self {
            DspNode::Bus(n) => n.lemma_emit_sound(path, inputs, b),
            DspNode::Lag(n) => n.lemma_emit_sound(path, inputs, b),
            DspNode::Out(n) => n.lemma_emit_sound(path, inputs, b),
            DspNode::Pack(n) => n.lemma_emit_sound(path, inputs, b),
            DspNode::ScopeOut(n) => n.lemma_emit_sound(path, inputs, b),
            DspNode::Sine(n) => n.lemma_emit_sound(path, inputs, b),
            DspNode::Sum(n) => n.lemma_emit_sound(path, inputs, b),
            DspNode::Tap(n) => n.lemma_emit_sound(path, inputs, b),
            DspNode::Unpack(n) => n.lemma_emit_sound(path, inputs, b),
        }
    }

    fn n_dsp_inputs(&self) -> (r: usize) {
        match self {
            DspNode::Bus(n) => n.n_dsp_inputs(),
            DspNode::Lag(n) => n.n_dsp_inputs(),
            DspNode::Out(n) => n.n_dsp_inputs(),
            DspNode::Pack(n) => n.n_dsp_inputs(),
            DspNode::ScopeOut(n) => n.n_dsp_inputs(),
            DspNode::Sine(n) => n.n_dsp_inputs(),
            DspNode::Sum(n) => n.n_dsp_inputs(),
            DspNode::Tap(n) => n.n_dsp_inputs(),
            DspNode::Unpack(n) => n.n_dsp_inputs(),
        }
    }

    fn n_dsp_outputs(&self) -> (r: usize) {
        match self {
            DspNode::Bus(n) => n.n_dsp_outputs(),
            DspNode::Lag(n) => n.n_dsp_outputs(),
            DspNode::Out(n) => n.n_dsp_outputs(),
            DspNode::Pack(n) => n.n_dsp_outputs(),
            DspNode::ScopeOut(n) => n.n_dsp_outputs(),
            DspNode::Sine(n) => n.n_dsp_outputs(),
            DspNode::Sum(n) => n.n_dsp_outputs(),
            DspNode::Tap(n) => n.n_dsp_outputs(),
            DspNode::Unpack(n) => n.n_dsp_outputs(),
        }
    }

    fn is_output(&self) -> (r: bool) {
        match self {
            DspNode::Bus(n) => n.is_output(),
            DspNode::Lag(n) => n.is_output(),
            DspNode::Out(n) => n.is_output(),
            DspNode::Pack(n) => n.is_output(),
            DspNode::ScopeOut(n) => n.is_output(),
            DspNode::Sine(n) => n.is_output(),
            DspNode::Sum(n) => n.is_output(),
            DspNode::Tap(n) => n.is_output(),
            DspNode::Unpack(n) => n.is_output(),
        }
    }

    fn is_monitor(&self) -> (r: bool) {
        match self {
            DspNode::Bus(n) => n.is_monitor(),
            DspNode::Lag(n) => n.is_monitor(),
            DspNode::Out(n) => n.is_monitor(),
            DspNode::Pack(n) => n.is_monitor(),
            DspNode::ScopeOut(n) => n.is_monitor(),
            DspNode::Sine(n) => n.is_monitor(),
            DspNode::Sum(n) => n.is_monitor(),
            DspNode::Tap(n) => n.is_monitor(),
            DspNode::Unpack(n) => n.is_monitor(),
        }
    }

    fn is_boundary(&self) -> (r: bool) {
        match self {
            DspNode::Bus(n) => n.is_boundary(),
            DspNode::Lag(n) => n.is_boundary(),
            DspNode::Out(n) => n.is_boundary(),
            DspNode::Pack(n) => n.is_boundary(),
            DspNode::ScopeOut(n) => n.is_boundary(),
            DspNode::Sine(n) => n.is_boundary(),
            DspNode::Sum(n) => n.is_boundary(),
            DspNode::Tap(n) => n.is_boundary(),
            DspNode::Unpack(n) => n.is_boundary(),
        }
    }

    fn ugens(&self, path: &Vec<usize>, inputs: &Vec<Option<Signal>>, b: &mut DspBuilder) -> (outs:
        Vec<Signal>) {
        match self {
            DspNode::Bus(n) => n.ugens(path, inputs, b),
            DspNode::Lag(n) => n.ugens(path, inputs, b),
            DspNode::Out(n) => n.ugens(path, inputs, b),
            DspNode::Pack(n) => n.ugens(path, inputs, b),
            DspNode::ScopeOut(n) => n.ugens(path, inputs, b),
            DspNode::Sine(n) => n.ugens(path, inputs, b),
            DspNode::Sum(n) => n.ugens(path, inputs, b),
            DspNode::Tap(n) => n.ugens(path, inputs, b),
            DspNode::Unpack(n) => n.ugens(path, inputs, b),
        }
    }
}

/// A node of a graph: a DSP node, a reference to another graph, one end of the graph's
/// own interface, or something without a signal.
#[derive(Clone, Copy, Debug)]
pub enum PatchNode {
    Dsp(DspNode),
    Ref(GraphAddr),
    Inlet,
    Outlet,
    Other,
}

impl ToNodeDsp for PatchNode {
    type Dsp = DspNode;

    open spec fn dsp(&self) -> Option<DspNode> {
        match self {
            PatchNode::Dsp(d) => Some(*d),
            _ => None,
        }
    }

    open spec fn path(&self, ix: usize) -> Seq<usize> {
        seq![ix]
    }

    fn to_node_dsp(&self) -> (r: Option<&DspNode>) {
        match self {
            PatchNode::Dsp(d) => Some(d),
            _ => None,
        }
    }

    fn node_path(&self, ix: usize) -> (r: Vec<usize>) {
        let r = vec![ix];
        assert(r@ =~= seq![ix]);
        r
    }
}

impl RefNode for PatchNode {
    open spec fn target(&self) -> Option<GraphAddr> {
        match self {
            PatchNode::Ref(g) => Some(*g),
            _ => None,
        }
    }

    open spec fn inlet(&self) -> bool {
        self is Inlet
    }

    open spec fn outlet(&self) -> bool {
        self is Outlet
    }

    fn as_ref_node(&self) -> (r: Option<GraphAddr>) {
        match self {
            PatchNode::Ref(g) => Some(*g),
            _ => None,
        }
    }

    fn is_inlet(&self) -> (r: bool) {
        match self {
            PatchNode::Inlet => true,
            _ => false,
        }
    }

    fn is_outlet(&self) -> (r: bool) {
        match self {
            PatchNode::Outlet => true,
            _ => false,
        }
    }
}

} // verus!
