//! The DSP nodes, and the traits by which a graph's nodes expose them.

pub mod bus;
pub mod lag;
pub mod out;
pub mod pack;
pub mod scope_out;
pub mod sine;
pub mod sum;
pub mod tap;
pub mod unpack;

use crate::dsp::{self, BuilderView, DspBuilder, InputRef, Signal};
use crate::graph::GraphAddr;
use crate::mix;
use vstd::prelude::*;

verus! {

/// The channel groups at a node's inputs, `None` where nothing arrives.
pub open spec fn arriving(inputs: Seq<Option<Signal>>) -> Seq<Option<Seq<InputRef>>> {
    inputs.map_values(
        |s: Option<Signal>|
            match s {
                Some(g) => Some(g@),
                None => None,
            },
    )
}

/// A node that contributes units to a synth definition.
pub trait NodeDsp: Sized {
    /// The number of dsp (signal) inputs: the leading inputs that carry audio.
    spec fn dsp_inputs(&self) -> nat;

    /// The number of dsp outputs.
    spec fn dsp_outputs(&self) -> nat;

    /// Whether this node writes to the speakers.
    spec fn output_sink(&self) -> bool;

    /// Whether this node reads its input back to the control world.
    spec fn monitor_sink(&self) -> bool;

    /// Whether this node cuts the graph into separate synth definitions.
    spec fn boundary(&self) -> bool;

    /// What the node emits into a builder, and the group at each of its outputs.
    spec fn emit(
        &self,
        path: Seq<usize>,
        inputs: Seq<Option<Seq<InputRef>>>,
        b: BuilderView,
    ) -> (BuilderView, Seq<Seq<InputRef>>);

    /// A node gives one group per output.
    proof fn lemma_emit_outputs(
        &self,
        path: Seq<usize>,
        inputs: Seq<Option<Seq<InputRef>>>,
        b: BuilderView,
    )
        ensures
            self.emit(path, inputs, b).1.len() == self.dsp_outputs(),
    ;

    /// What a node emits only ever adds to a builder. It refers to nothing that is not
    /// there, as long as what arrives at its inputs does not either.
    proof fn lemma_emit_sound(
        &self,
        path: Seq<usize>,
        inputs: Seq<Option<Seq<InputRef>>>,
        b: BuilderView,
    )
        ensures
            b.grows_to(self.emit(path, inputs, b).0),
            b.sound() && b.knows_inputs(inputs) && self.emit(path, inputs, b).0.fits()
                ==> self.emit(path, inputs, b).0.sound() && self.emit(
                path,
                inputs,
                b,
            ).0.knows_groups(self.emit(path, inputs, b).1),
    ;

    fn n_dsp_inputs(&self) -> (r: usize)
        ensures
            r == self.dsp_inputs(),
    ;

    fn n_dsp_outputs(&self) -> (r: usize)
        ensures
            r == self.dsp_outputs(),
    ;

    fn is_output(&self) -> (r: bool)
        ensures
            r == self.output_sink(),
    ;

    fn is_monitor(&self) -> (r: bool)
        ensures
            r == self.monitor_sink(),
    ;

    fn is_boundary(&self) -> (r: bool)
        ensures
            r == self.boundary(),
    ;

    /// Emits this node's units into `b`, given the signal arriving at each dsp
    /// input, and returns the signal at each dsp output.
    fn ugens(&self, path: &Vec<usize>, inputs: &Vec<Option<Signal>>, b: &mut DspBuilder) -> (outs:
        Vec<Signal>)
        ensures
            (final(b)@, mix::groups(outs@)) == self.emit(path@, arriving(inputs@), old(b)@),
    ;
}

/// A graph node that may be a DSP node.
pub trait ToNodeDsp: Sized {
    /// The DSP side of the node type.
    type Dsp: NodeDsp;

    /// The DSP side of this node, if it has one.
    spec fn dsp(&self) -> Option<Self::Dsp>;

    /// The node's path, given its index in the graph.
    spec fn path(&self, ix: usize) -> Seq<usize>;

    fn to_node_dsp(&self) -> (r: Option<&Self::Dsp>)
        ensures
            match r {
                Some(d) => self.dsp() == Some(*d),
                None => self.dsp() is None,
            },
    ;

    fn node_path(&self, ix: usize) -> (r: Vec<usize>)
        ensures
            r@ == self.path(ix),
    ;
}

/// A graph node that may refer to another graph, or be one end of its own graph's
/// interface.
pub trait RefNode: ToNodeDsp {
    /// The graph this node refers to.
    spec fn target(&self) -> Option<GraphAddr>;

    /// Whether what arrives at the graph's references comes in here.
    spec fn inlet(&self) -> bool;

    /// Whether what leaves the graph's references goes out here.
    spec fn outlet(&self) -> bool;

    fn as_ref_node(&self) -> (r: Option<GraphAddr>)
        ensures
            r == self.target(),
    ;

    fn is_inlet(&self) -> (r: bool)
        ensures
            r == self.inlet(),
    ;

    fn is_outlet(&self) -> (r: bool)
        ensures
            r == self.outlet(),
    ;
}

/// The group at input `i`: mono silence where nothing arrives.
pub open spec fn group_at(inputs: Seq<Option<Seq<InputRef>>>, i: int) -> Seq<InputRef> {
    if 0 <= i < inputs.len() && inputs[i] is Some {
        inputs[i]->0
    } else {
        dsp::silence(1)
    }
}

/// What stands at an input is known where what arrives is.
pub proof fn lemma_group_known(b: BuilderView, inputs: Seq<Option<Seq<InputRef>>>, i: int)
    requires
        b.knows_inputs(inputs),
    ensures
        b.knows_all(group_at(inputs, i)),
{
    if 0 <= i < inputs.len() && inputs[i] is Some {
        assert(b.knows_all(inputs[i]->0));
    }
}

/// The signal at input `i`: mono silence where nothing arrives.
pub fn signal_at(inputs: &Vec<Option<Signal>>, i: usize) -> (r: Signal)
    ensures
        r@ == group_at(arriving(inputs@), i as int),
{
    if i < inputs.len() {
        match &inputs[i] {
            Some(s) => s.dup(),
            None => Signal::silent(1),
        }
    } else {
        Signal::silent(1)
    }
}

/// The groups at the first `n` inputs.
pub open spec fn groups_at(inputs: Seq<Option<Seq<InputRef>>>, n: nat) -> Seq<Seq<InputRef>> {
    Seq::new(n, |i: int| group_at(inputs, i))
}

/// The signals at the first `n` inputs.
pub fn signals_at(inputs: &Vec<Option<Signal>>, n: usize) -> (r: Vec<Signal>)
    ensures
        mix::groups(r@) == groups_at(arriving(inputs@), n as nat),
{
    let mut r: Vec<Signal> = Vec::new();
    let mut i: usize = 0;
    while i < n
        invariant
            i <= n,
            r@.len() == i,
            forall|j: int| 0 <= j < i ==> #[trigger] r@[j]@ == group_at(arriving(inputs@), j),
        decreases n - i,
    {
        r.push(signal_at(inputs, i));
        i = i + 1;
    }
    assert(mix::groups(r@) =~= groups_at(arriving(inputs@), n as nat));
    r
}

} // verus!
