//! A simple [`Edge`] type describing the outlet and inlet of source and
//! destination nodes respectively.

use crate::hash::{self, CaHash, Hasher};
use crate::order::Key;
use vstd::prelude::*;

verus! {

/// An input of a node, by index.
#[derive(Clone, Copy, Debug, PartialEq, Eq, PartialOrd, Ord, Hash, Structural)]
pub struct Input(pub u16);

/// An output of a node, by index.
#[derive(Clone, Copy, Debug, PartialEq, Eq, PartialOrd, Ord, Hash, Structural)]
pub struct Output(pub u16);

/// A connection between two nodes.
#[derive(Clone, Copy, Debug, PartialEq, Eq, PartialOrd, Ord, Hash, Structural)]
pub struct Edge {
    /// The output of the node at the source of this edge.
    pub output: Output,
    /// The input of the node at the destination of this edge.
    pub input: Input,
}

impl Edge {
    /// The connection from the given node output to the given node input.
    pub fn new(output: Output, input: Input) -> (r: Self)
        ensures
            r == (Edge { output, input }),
    {
        Edge { output, input }
    }
}

impl From<u16> for Input {
    fn from(u: u16) -> (r: Self) {
        Input(u)
    }
}

impl vstd::std_specs::convert::FromSpecImpl<u16> for Input {
    open spec fn obeys_from_spec() -> bool {
        true
    }

    open spec fn from_spec(u: u16) -> Self {
        Input(u)
    }
}

impl From<u16> for Output {
    fn from(u: u16) -> (r: Self) {
        Output(u)
    }
}

impl vstd::std_specs::convert::FromSpecImpl<u16> for Output {
    open spec fn obeys_from_spec() -> bool {
        true
    }

    open spec fn from_spec(u: u16) -> Self {
        Output(u)
    }
}

impl From<(u16, u16)> for Edge {
    fn from(pair: (u16, u16)) -> (r: Self) {
        Edge { output: Output(pair.0), input: Input(pair.1) }
    }
}

impl vstd::std_specs::convert::FromSpecImpl<(u16, u16)> for Edge {
    open spec fn obeys_from_spec() -> bool {
        true
    }

    open spec fn from_spec(pair: (u16, u16)) -> Self {
        Edge { output: Output(pair.0), input: Input(pair.1) }
    }
}

impl View for Edge {
    type V = Edge;

    open spec fn view(&self) -> Edge {
        *self
    }
}

impl Key for Edge {
    open spec fn precedes(a: Edge, b: Edge) -> bool {
        a.output.0 < b.output.0 || (a.output.0 == b.output.0 && a.input.0 < b.input.0)
    }

    proof fn lemma_irreflexive(a: Edge) {
    }

    proof fn lemma_transitive(a: Edge, b: Edge, c: Edge) {
    }

    proof fn lemma_total(a: Edge, b: Edge) {
    }

    fn before(&self, other: &Self) -> (r: bool) {
        self.output.0 < other.output.0 || (self.output.0 == other.output.0 && self.input.0
            < other.input.0)
    }

    fn same(&self, other: &Self) -> (r: bool) {
        *self == *other
    }

    fn dup(&self) -> (r: Self) {
        *self
    }
}

impl CaHash for Edge {
    open spec fn ca_bytes(&self) -> Seq<u8> {
        hash::be(self.output.0 as nat, 2) + hash::be(self.input.0 as nat, 2)
    }

    fn hash(&self, hasher: &mut Hasher) {
        hasher.update_be(self.output.0 as u64, 2);
        hasher.update_be(self.input.0 as u64, 2);
        assert(hasher@ =~= old(hasher)@ + self.ca_bytes());
    }
}

} // verus!
