//! The DSP nodes in the control world: their sockets, what they evaluate to, the state
//! they start with, and their addresses.
//!
//! The audio engine does a DSP node's work, so its expression is a placeholder, except
//! where it reads back what the engine has left in its state.

use crate::dsp_node::DspNode;
use crate::hash::{self, CaHash, Hasher};
use crate::param;
use crate::value::{Number, Val, ValView};
use vstd::prelude::*;

verus! {

/// The lag time a fresh `~lag` starts at, as a number of the control world.
pub const DEFAULT_DUR: u64 = 0x3fb9_9999_a000_0000;

/// What sets the addresses of a kind of node apart.
pub open spec fn tag(n: DspNode) -> Seq<u8> {
    match n {
        DspNode::Bus(_) => seq![103u8, 97, 110, 116, 122, 46, 112, 108, 121, 112, 104, 111, 110, 46, 98, 117, 115],
        DspNode::Lag(_) => seq![103u8, 97, 110, 116, 122, 46, 112, 108, 121, 112, 104, 111, 110, 46, 108, 97, 103],
        DspNode::Out(_) => seq![103u8, 97, 110, 116, 122, 46, 112, 108, 121, 112, 104, 111, 110, 46, 111, 117, 116],
        DspNode::Pack(_) => seq![103u8, 97, 110, 116, 122, 46, 112, 108, 121, 112, 104, 111, 110, 46, 112, 97, 99, 107],
        DspNode::ScopeOut(_) => seq![103u8, 97, 110, 116, 122, 46, 112, 108, 121, 112, 104, 111, 110, 46, 115, 99, 111, 112, 101, 111, 117, 116],
        DspNode::Sine(_) => seq![103u8, 97, 110, 116, 122, 46, 112, 108, 121, 112, 104, 111, 110, 46, 115, 105, 110, 101],
        DspNode::Sum(_) => seq![103u8, 97, 110, 116, 122, 46, 112, 108, 121, 112, 104, 111, 110, 46, 115, 117, 109],
        DspNode::Tap(_) => seq![103u8, 97, 110, 116, 122, 46, 112, 108, 121, 112, 104, 111, 110, 46, 116, 97, 112],
        DspNode::Unpack(_) => seq![103u8, 97, 110, 116, 122, 46, 112, 108, 121, 112, 104, 111, 110, 46, 117, 110, 112, 97, 99, 107],
    }
}

/// The setting that a node's address covers, and the bytes it takes.
pub open spec fn setting(n: DspNode) -> (nat, nat) {
    match n {
        DspNode::Bus(_) => (0, 0),
        DspNode::Lag(_) => (0, 0),
        DspNode::Out(n) => (n.gain_spec() as nat, 4),
        DspNode::Pack(n) => (n.count_spec() as nat, 8),
        DspNode::ScopeOut(n) => (n.size_spec() as nat, 8),
        DspNode::Sine(n) => (n.freq_spec() as nat, 4),
        DspNode::Sum(n) => (n.count_spec() as nat, 8),
        DspNode::Tap(n) => (n.size_spec() as nat, 8),
        DspNode::Unpack(n) => (n.count_spec() as nat, 8),
    }
}

impl CaHash for DspNode {
    open spec fn ca_bytes(&self) -> Seq<u8> {
        tag(*self) + hash::le(setting(*self).0, setting(*self).1)
    }

    fn hash(&self, hasher: &mut Hasher) {
        match self {
            DspNode::Bus(_) => {
                let t: [u8; 17] = [103, 97, 110, 116, 122, 46, 112, 108, 121, 112, 104, 111, 110, 46, 98, 117, 115];
                hasher.update(&t);
                assert(t@ =~= tag(*self));
            },
            DspNode::Lag(_) => {
                let t: [u8; 17] = [103, 97, 110, 116, 122, 46, 112, 108, 121, 112, 104, 111, 110, 46, 108, 97, 103];
                hasher.update(&t);
                assert(t@ =~= tag(*self));
            },
            DspNode::Out(n) => {
                let t: [u8; 17] = [103, 97, 110, 116, 122, 46, 112, 108, 121, 112, 104, 111, 110, 46, 111, 117, 116];
                hasher.update(&t);
                assert(t@ =~= tag(*self));
                hasher.update_le(n.gain() as u64, 4);
            },
            DspNode::Pack(n) => {
                let t: [u8; 18] = [103, 97, 110, 116, 122, 46, 112, 108, 121, 112, 104, 111, 110, 46, 112, 97, 99, 107];
                hasher.update(&t);
                assert(t@ =~= tag(*self));
                hasher.update_le(n.count() as u64, 8);
            },
            DspNode::ScopeOut(n) => {
                let t: [u8; 22] = [103, 97, 110, 116, 122, 46, 112, 108, 121, 112, 104, 111, 110, 46, 115, 99, 111, 112, 101, 111, 117, 116];
                hasher.update(&t);
                assert(t@ =~= tag(*self));
                hasher.update_le(n.size() as u64, 8);
            },
            DspNode::Sine(n) => {
                let t: [u8; 18] = [103, 97, 110, 116, 122, 46, 112, 108, 121, 112, 104, 111, 110, 46, 115, 105, 110, 101];
                hasher.update(&t);
                assert(t@ =~= tag(*self));
                hasher.update_le(n.freq() as u64, 4);
            },
            DspNode::Sum(n) => {
                let t: [u8; 17] = [103, 97, 110, 116, 122, 46, 112, 108, 121, 112, 104, 111, 110, 46, 115, 117, 109];
                hasher.update(&t);
                assert(t@ =~= tag(*self));
                hasher.update_le(n.count() as u64, 8);
            },
            DspNode::Tap(n) => {
                let t: [u8; 17] = [103, 97, 110, 116, 122, 46, 112, 108, 121, 112, 104, 111, 110, 46, 116, 97, 112];
                hasher.update(&t);
                assert(t@ =~= tag(*self));
                hasher.update_le(n.size() as u64, 8);
            },
            DspNode::Unpack(n) => {
                let t: [u8; 20] = [103, 97, 110, 116, 122, 46, 112, 108, 121, 112, 104, 111, 110, 46, 117, 110, 112, 97, 99, 107];
                hasher.update(&t);
                assert(t@ =~= tag(*self));
                hasher.update_le(n.count() as u64, 8);
            },
        }
        assert(hasher@ =~= old(hasher)@ + self.ca_bytes());
    }
}

/// Whether two nodes are of the same kind.
pub open spec fn same_kind(a: DspNode, b: DspNode) -> bool {
    match (a, b) {
        (DspNode::Bus(_), DspNode::Bus(_)) => true,
        (DspNode::Lag(_), DspNode::Lag(_)) => true,
        (DspNode::Out(_), DspNode::Out(_)) => true,
        (DspNode::Pack(_), DspNode::Pack(_)) => true,
        (DspNode::ScopeOut(_), DspNode::ScopeOut(_)) => true,
        (DspNode::Sine(_), DspNode::Sine(_)) => true,
        (DspNode::Sum(_), DspNode::Sum(_)) => true,
        (DspNode::Tap(_), DspNode::Tap(_)) => true,
        (DspNode::Unpack(_), DspNode::Unpack(_)) => true,
        _ => false,
    }
}

proof fn lemma_setting_fits(n: DspNode)
    ensures
        setting(n).0 < hash::room(setting(n).1),
{
    assert(hash::room(8) == 0x1_0000_0000_0000_0000) by {
        reveal_with_fuel(hash::room, 9);
    }
    assert(hash::room(4) == 0x1_0000_0000) by {
        reveal_with_fuel(hash::room, 5);
    }
    assert(hash::room(0) == 1);
}

/// The bytes that a node is addressed by tell nodes apart, by kind and by setting.
pub proof fn law_node_bytes_tell_nodes_apart(a: DspNode, b: DspNode)
    requires
        a.ca_bytes() == b.ca_bytes(),
    ensures
        same_kind(a, b),
        setting(a) == setting(b),
{
    let (x, y) = (a.ca_bytes(), b.ca_bytes());
    hash::lemma_le_len(setting(a).0, setting(a).1);
    hash::lemma_le_len(setting(b).0, setting(b).1);
    lemma_setting_fits(a);
    lemma_setting_fits(b);
    assert(x.len() == tag(a).len() + setting(a).1);
    assert(y.len() == tag(b).len() + setting(b).1);
    assert(x[14] == tag(a)[14]);
    assert(y[14] == tag(b)[14]);
    assert(same_kind(a, b));
    let n = tag(a).len() as int;
    assert(x.skip(n) =~= hash::le(setting(a).0, setting(a).1));
    assert(y.skip(n) =~= hash::le(setting(b).0, setting(b).1));
    hash::lemma_le_injective(setting(a).0, setting(b).0, setting(a).1);
}

/// `n` zeros, with a space between each two.
pub open spec fn zeros(n: nat) -> Seq<char>
    decreases n,
{
    if n == 0 {
        Seq::empty()
    } else if n == 1 {
        "0"@
    } else {
        zeros((n - 1) as nat) + " 0"@
    }
}

/// Whether something arrives at an input.
pub open spec fn arrives(inputs: Seq<Option<String>>, i: int) -> bool {
    0 <= i < inputs.len() && inputs[i] is Some
}

/// The number of inputs.
pub open spec fn inputs_of(n: DspNode) -> nat {
    match n {
        DspNode::Bus(_) | DspNode::Lag(_) | DspNode::Out(_) | DspNode::Unpack(_) => 1,
        DspNode::Pack(n) => n.count_spec() as nat,
        DspNode::Sum(n) => n.count_spec() as nat,
        DspNode::ScopeOut(_) | DspNode::Tap(_) => 2,
        DspNode::Sine(_) => 0,
    }
}

/// The number of outputs.
pub open spec fn outputs_of(n: DspNode) -> nat {
    match n {
        DspNode::Out(_) => 0,
        DspNode::ScopeOut(_) => 2,
        DspNode::Unpack(n) => n.count_spec() as nat,
        _ => 1,
    }
}

/// What a node evaluates to, given what arrives.
pub open spec fn expression(n: DspNode, inputs: Seq<Option<String>>) -> Seq<char> {
    match n {
        DspNode::Out(_) => "'()"@,
        DspNode::Tap(_) => "state"@,
        DspNode::ScopeOut(_) => if arrives(inputs, 1) {
            "(list 0 (list state (length state)))"@
        } else {
            "(list 1 '())"@
        },
        DspNode::Unpack(n) => if n.count_spec() == 1 {
            "0"@
        } else {
            "(list "@ + zeros(n.count_spec() as nat) + ")"@
        },
        _ => "0"@,
    }
}

/// The state that a node starts with.
pub open spec fn first_state(n: DspNode) -> Option<ValView> {
    match n {
        DspNode::Lag(_) => Some(param::fresh_state(Number::Float(DEFAULT_DUR))),
        DspNode::ScopeOut(_) | DspNode::Tap(_) => Some(ValView::List(Seq::empty())),
        _ => None,
    }
}

impl DspNode {
    /// The number of inputs: those for signals come first.
    pub fn n_inputs(&self) -> (r: usize)
        ensures
            r == inputs_of(*self),
    {
        match self {
            DspNode::Bus(_) | DspNode::Lag(_) | DspNode::Out(_) | DspNode::Unpack(_) => 1,
            DspNode::Pack(n) => n.count(),
            DspNode::Sum(n) => n.count(),
            DspNode::ScopeOut(_) | DspNode::Tap(_) => 2,
            DspNode::Sine(_) => 0,
        }
    }

    /// The number of outputs.
    pub fn n_outputs(&self) -> (r: usize)
        ensures
            r == outputs_of(*self),
    {
        match self {
            DspNode::Out(_) => 0,
            DspNode::ScopeOut(_) => 2,
            DspNode::Unpack(n) => n.count(),
            _ => 1,
        }
    }

    /// Whether the node keeps state.
    pub fn stateful(&self) -> (r: bool)
        ensures
            r == first_state(*self) is Some,
    {
        match self {
            DspNode::Lag(_) | DspNode::ScopeOut(_) | DspNode::Tap(_) => true,
            _ => false,
        }
    }

    /// Which outputs each branch of an evaluation fires, where the node branches: a
    /// scope's fire on its trigger, and none otherwise.
    pub fn branches(&self) -> (r: Vec<(bool, bool)>)
        ensures
            r@ == (match self {
                DspNode::ScopeOut(_) => seq![(true, true), (false, false)],
                _ => Seq::empty(),
            }),
    {
        match self {
            DspNode::ScopeOut(_) => {
                let r = vec![(true, true), (false, false)];
                assert(r@ =~= seq![(true, true), (false, false)]);
                r
            },
            _ => Vec::new(),
        }
    }

    /// What the node evaluates to, given the expressions that arrive at its inputs.
    pub fn expr(&self, inputs: &Vec<Option<String>>) -> (r: String)
        ensures
            r@ == expression(*self, inputs@),
    {
        match self {
            DspNode::Out(_) => String::from_str("'()"),
            DspNode::Tap(_) => String::from_str("state"),
            DspNode::ScopeOut(_) => {
                if inputs.len() > 1 && inputs[1].is_some() {
                    String::from_str("(list 0 (list state (length state)))")
                } else {
                    String::from_str("(list 1 '())")
                }
            },
            DspNode::Unpack(n) => {
                let count: usize = n.count();
                if count == 1 {
                    return String::from_str("0");
                }
                let mut r = String::from_str("(list ");
                let ghost open = r@;
                let mut i: usize = 0;
                assert(r@ =~= open + zeros(0));
                while i < count
                    invariant
                        i <= count,
                        r@ == open + zeros(i as nat),
                    decreases count - i,
                {
                    if i == 0 {
                        r.append("0");
                    } else {
                        r.append(" 0");
                    }
                    i = i + 1;
                    assert(r@ =~= open + zeros(i as nat));
                }
                r.append(")");
                assert(r@ =~= open + zeros(count as nat) + ")"@);
                r
            },
            _ => String::from_str("0"),
        }
    }

    /// The state that the node starts with, where it keeps any.
    pub fn initial_state(&self) -> (r: Option<Val>)
        ensures
            match r {
                Some(v) => first_state(*self) == Some(v@),
                None => first_state(*self) is None,
            },
    {
        match self {
            DspNode::Lag(_) => Some(param::param_state(Number::Float(DEFAULT_DUR))),
            DspNode::ScopeOut(_) | DspNode::Tap(_) => {
                let none: Vec<Val> = Vec::new();
                let r = Val::List(none);
                assert(r@ == ValView::List(Seq::empty()));
                Some(r)
            },
            _ => None,
        }
    }
}

/// A scope's rings, as they are kept in its state: their length, and how many there are.
pub open spec fn ring_shape(v: ValView) -> (nat, nat) {
    match v {
        ValView::List(rings) => (
            if rings.len() > 0 {
                match rings[0] {
                    ValView::List(ring) => ring.len(),
                    _ => 0,
                }
            } else {
                0
            },
            rings.len(),
        ),
        _ => (0, 0),
    }
}

/// How many frames a scope's state holds, and of how many channels.
pub fn scope_shape(state: &Option<Val>) -> (r: (usize, usize))
    ensures
        (r.0 as nat, r.1 as nat) == (match *state {
            Some(v) => ring_shape(v@),
            None => (0, 0),
        }),
{
    match state {
        Some(v) => match v {
            Val::List(rings) => {
                proof {
                    crate::value::lemma_val_list(*rings, rings@.len());
                }
                let mut frames: usize = 0;
                if rings.len() > 0 {
                    if let Val::List(ring) = &rings[0] {
                        proof {
                            crate::value::lemma_val_list(*ring, ring@.len());
                        }
                        frames = ring.len();
                    }
                }
                (frames, rings.len())
            },
            _ => (0, 0),
        },
        None => (0, 0),
    }
}

/// A DSP node's signal inputs and outputs are among its sockets.
pub proof fn law_signal_sockets_are_sockets(n: DspNode)
    ensures
        crate::node::NodeDsp::dsp_inputs(&n) <= inputs_of(n),
        crate::node::NodeDsp::dsp_outputs(&n) <= outputs_of(n),
{
}

/// A node's bytes tell its kind and what it is set to: nodes with the same bytes are of one
/// kind and have the same gain, frequency, count or size.
pub proof fn law_node_bytes_tell_every_setting(a: DspNode, b: DspNode)
    requires
        a.ca_bytes() == b.ca_bytes(),
    ensures
        match (a, b) {
            (DspNode::Bus(_), DspNode::Bus(_)) => true,
            (DspNode::Lag(_), DspNode::Lag(_)) => true,
            (DspNode::Out(m), DspNode::Out(n)) => m.gain_spec() == n.gain_spec(),
            (DspNode::Pack(m), DspNode::Pack(n)) => m.count_spec() == n.count_spec(),
            (DspNode::ScopeOut(m), DspNode::ScopeOut(n)) => m.size_spec() == n.size_spec(),
            (DspNode::Sine(m), DspNode::Sine(n)) => m.freq_spec() == n.freq_spec(),
            (DspNode::Sum(m), DspNode::Sum(n)) => m.count_spec() == n.count_spec(),
            (DspNode::Tap(m), DspNode::Tap(n)) => m.size_spec() == n.size_spec(),
            (DspNode::Unpack(m), DspNode::Unpack(n)) => m.count_spec() == n.count_spec(),
            _ => false,
        },
{
    law_node_bytes_tell_nodes_apart(a, b);
}

/// A list of zeros has a zero for every place, with a space between them.
pub proof fn law_zeros_are_one_per_place(n: nat, i: int)
    requires
        0 <= i < n,
    ensures
        zeros(n).len() == 2 * n - 1,
        zeros(n)[2 * i] == '0',
        i > 0 ==> zeros(n)[2 * i - 1] == ' ',
    decreases n,
{
    reveal_strlit("0");
    reveal_strlit(" 0");
    if n > 1 {
        let m = (n - 1) as nat;
        law_zeros_are_one_per_place(m, if i < m {
            i
        } else {
            0
        });
    }
}

/// A monitor starts with nothing buffered and a lag with its default and nothing queued;
/// no other node has a state.
pub proof fn law_state_starts_empty(n: DspNode)
    ensures
        first_state(n) is Some <==> n is Lag || n is ScopeOut || n is Tap,
        n is ScopeOut || n is Tap ==> ring_shape(first_state(n)->0) == (0nat, 0nat),
        n is Lag ==> param::value_of(first_state(n)->0) == Some(Number::Float(DEFAULT_DUR))
            && param::queue_of(first_state(n)->0).len() == 0,
{
    if n is Lag {
        crate::streams::law_fresh_param_has_its_default(Number::Float(DEFAULT_DUR));
    }
}

/// The shape of rings is their number, and the length of the first.
pub proof fn law_ring_shape_counts_rings(rings: Seq<ValView>, ring: Seq<ValView>)
    ensures
        ring_shape(ValView::List(rings)).1 == rings.len(),
        rings.len() > 0 && rings[0] == ValView::List(ring) ==> ring_shape(ValView::List(rings)).0
            == ring.len(),
{
}

} // verus!
