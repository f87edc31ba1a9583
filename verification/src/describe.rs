//! What is said of the DSP nodes: their names, what they do, and their sockets.

use crate::control;
use crate::dsp_node::DspNode;
use crate::node::bus::Bus;
use crate::node::lag::Lag;
use crate::node::out::Out;
use crate::node::pack::Pack;
use crate::node::scope_out::ScopeOut;
use crate::node::sine::Sine;
use crate::node::sum::Sum;
use crate::node::unpack::Unpack;
use crate::socket::{self, DocView, SocketDoc, SocketKind};
use crate::text;
use vstd::prelude::*;
use vstd::string::*;

verus! {

/// The name of a node.
pub open spec fn name_of(n: DspNode) -> Seq<char> {
    match n {
        DspNode::Bus(_) => "~bus"@,
        DspNode::Lag(_) => "~lag"@,
        DspNode::Out(_) => "~out"@,
        DspNode::Pack(_) => "~pack"@,
        DspNode::ScopeOut(_) => "~scopeout"@,
        DspNode::Sine(_) => "~sine"@,
        DspNode::Sum(_) => "~sum"@,
        DspNode::Tap(_) => "~tap"@,
        DspNode::Unpack(_) => "~unpack"@,
    }
}

/// What a node does.
pub open spec fn description_of(n: DspNode) -> Seq<char> {
    match n {
        DspNode::Bus(_) => "Synthdef boundary: edits beyond it leave this side's synth running"@,
        DspNode::Lag(_) => "One-pole lag: smooth a signal over a duration"@,
        DspNode::Out(_) => "Audio output: master gain to the speakers"@,
        DspNode::Pack(_) => "Concatenate signals into one multichannel signal (packed, not mixed)"@,
        DspNode::ScopeOut(_) => "Scope a signal into per-channel ring buffers; read them out on a trigger"@,
        DspNode::Sine(_) => "Sine oscillator (audio rate)"@,
        DspNode::Sum(_) => "Sum signals into their unity-gain mix"@,
        DspNode::Tap(_) => "Tap a dsp signal into a ring buffer; read it out on a trigger"@,
        DspNode::Unpack(_) => "Split a multichannel signal into mono outputs"@,
    }
}

/// What is said of a socket.
pub open spec fn said(ty: Seq<char>, description: Seq<char>) -> Option<DocView> {
    Some(DocView { ty, description: Some(description) })
}

/// What is said of a socket of a node.
pub open spec fn doc_of(n: DspNode, kind: SocketKind, ix: nat) -> Option<DocView> {
    match (n, kind) {
        (DspNode::Bus(_), SocketKind::Input) => said("signal"@, "signal to carry across the synthdef boundary (any channel width)"@),
        (DspNode::Bus(_), SocketKind::Output) => said("signal"@, "the same signal, entering the downstream synthdef"@),
        (DspNode::Lag(_), SocketKind::Input) => said("audio"@, "signal to smooth"@),
        (DspNode::Lag(_), SocketKind::Output) => said("audio"@, "smoothed signal"@),
        (DspNode::Out(_), SocketKind::Input) => said("audio"@, "signal to send to the audio output"@),
        (DspNode::Pack(_), SocketKind::Input) => said("signal"@, "signal "@ + text::dec(ix) + " to pack (any channel width; silence when unconnected)"@),
        (DspNode::Pack(_), SocketKind::Output) => said("signal"@, "every input's channels concatenated (width = the sum of input widths)"@),
        (DspNode::ScopeOut(_), SocketKind::Input) => if ix == 0 {
            said("signal"@, "signal to sample into per-channel ring buffers (any channel width)"@)
        } else if ix == 1 {
            said("bang"@, "trigger: output the buffered samples"@)
        } else {
            None
        },
        (DspNode::ScopeOut(_), SocketKind::Output) => if ix == 0 {
            said("list"@, "one list of buffered samples per channel (oldest first)"@)
        } else if ix == 1 {
            said("number"@, "the channel count (0 until the audio driver writes)"@)
        } else {
            None
        },
        (DspNode::Sine(_), SocketKind::Output) => said("audio"@, "sine signal at the configured frequency"@),
        (DspNode::Tap(_), SocketKind::Input) => if ix == 0 {
            said("audio"@, "signal to sample into the ring buffer"@)
        } else if ix == 1 {
            said("bang"@, "trigger: output the buffered samples as a list"@)
        } else {
            None
        },
        (DspNode::Tap(_), SocketKind::Output) => said("list"@, "the buffered samples (oldest first), on a trigger"@),
        (DspNode::Unpack(_), SocketKind::Input) => said("signal"@, "signal to split into mono channels (any channel width)"@),
        (DspNode::Unpack(_), SocketKind::Output) => said("signal"@, "channel "@ + text::dec(ix) + " of the input (silence past its width)"@),
        _ => None,
    }
}

fn numbered(before: &str, n: usize, behind: &str) -> (r: String)
    ensures
        r@ == before@ + text::dec(n as nat) + behind@,
{
    let mut r = String::from_str(before);
    r.append(text::dec_string(n).as_str());
    r.append(behind);
    r
}

fn says(ty: &str, description: String) -> (r: Option<SocketDoc>)
    ensures
        socket::doc_view(r) == said(ty@, description@),
{
    Some(SocketDoc::ty(ty).with_description(description))
}

impl DspNode {
    /// The node's name.
    pub fn name(&self) -> (r: &'static str)
        ensures
            r@ == name_of(*self),
    {
        match self {
            DspNode::Bus(_) => "~bus",
            DspNode::Lag(_) => "~lag",
            DspNode::Out(_) => "~out",
            DspNode::Pack(_) => "~pack",
            DspNode::ScopeOut(_) => "~scopeout",
            DspNode::Sine(_) => "~sine",
            DspNode::Sum(_) => "~sum",
            DspNode::Tap(_) => "~tap",
            DspNode::Unpack(_) => "~unpack",
        }
    }

    /// What the node does.
    pub fn description(&self) -> (r: &'static str)
        ensures
            r@ == description_of(*self),
    {
        match self {
            DspNode::Bus(_) => "Synthdef boundary: edits beyond it leave this side's synth running",
            DspNode::Lag(_) => "One-pole lag: smooth a signal over a duration",
            DspNode::Out(_) => "Audio output: master gain to the speakers",
            DspNode::Pack(_) => "Concatenate signals into one multichannel signal (packed, not mixed)",
            DspNode::ScopeOut(_) => "Scope a signal into per-channel ring buffers; read them out on a trigger",
            DspNode::Sine(_) => "Sine oscillator (audio rate)",
            DspNode::Sum(_) => "Sum signals into their unity-gain mix",
            DspNode::Tap(_) => "Tap a dsp signal into a ring buffer; read it out on a trigger",
            DspNode::Unpack(_) => "Split a multichannel signal into mono outputs",
        }
    }

    /// Whether an inspector shows the node's state as it is. Where it keeps a param or
    /// sample rings, a summary stands in.
    pub fn show_state(&self) -> (r: bool)
        ensures
            r == !(self is Lag || self is Out || self is ScopeOut || self is Sine),
    {
        match self {
            DspNode::Lag(_) | DspNode::Out(_) | DspNode::ScopeOut(_) | DspNode::Sine(_) => false,
            _ => true,
        }
    }

    /// What is said of a socket of the node.
    pub fn socket_doc(&self, kind: SocketKind, ix: usize) -> (r: Option<SocketDoc>)
        ensures
            socket::doc_view(r) == doc_of(*self, kind, ix as nat),
    {
        match (self, kind) {
            (DspNode::Bus(_), SocketKind::Input) => says("signal", String::from_str("signal to carry across the synthdef boundary (any channel width)")),
            (DspNode::Bus(_), SocketKind::Output) => says("signal", String::from_str("the same signal, entering the downstream synthdef")),
            (DspNode::Lag(_), SocketKind::Input) => says("audio", String::from_str("signal to smooth")),
            (DspNode::Lag(_), SocketKind::Output) => says("audio", String::from_str("smoothed signal")),
            (DspNode::Out(_), SocketKind::Input) => says("audio", String::from_str("signal to send to the audio output")),
            (DspNode::Pack(_), SocketKind::Input) => says("signal", numbered("signal ", ix, " to pack (any channel width; silence when unconnected)")),
            (DspNode::Pack(_), SocketKind::Output) => says("signal", String::from_str("every input's channels concatenated (width = the sum of input widths)")),
            (DspNode::ScopeOut(_), SocketKind::Input) => if ix == 0 {
                says("signal", String::from_str("signal to sample into per-channel ring buffers (any channel width)"))
            } else if ix == 1 {
                says("bang", String::from_str("trigger: output the buffered samples"))
            } else {
                None
            },
            (DspNode::ScopeOut(_), SocketKind::Output) => if ix == 0 {
                says("list", String::from_str("one list of buffered samples per channel (oldest first)"))
            } else if ix == 1 {
                says("number", String::from_str("the channel count (0 until the audio driver writes)"))
            } else {
                None
            },
            (DspNode::Sine(_), SocketKind::Output) => says("audio", String::from_str("sine signal at the configured frequency")),
            (DspNode::Tap(_), SocketKind::Input) => if ix == 0 {
                says("audio", String::from_str("signal to sample into the ring buffer"))
            } else if ix == 1 {
                says("bang", String::from_str("trigger: output the buffered samples as a list"))
            } else {
                None
            },
            (DspNode::Tap(_), SocketKind::Output) => says("list", String::from_str("the buffered samples (oldest first), on a trigger")),
            (DspNode::Unpack(_), SocketKind::Input) => says("signal", String::from_str("signal to split into mono channels (any channel width)")),
            (DspNode::Unpack(_), SocketKind::Output) => says("signal", numbered("channel ", ix, " of the input (silence past its width)")),
            _ => None,
        }
    }
}

/// A node to choose from.
#[derive(Clone, Copy, Debug)]
pub struct Builtin {
    /// The name that it is chosen by.
    pub name: &'static str,
    /// The node as it starts out.
    pub node: DspNode,
}

/// The DSP nodes to choose from, in the order of their names.
pub fn builtins() -> (r: Vec<Builtin>)
    ensures
        r@.len() == 8,
        r@[0].name@ == "~bus"@ && r@[0].node is Bus,
        r@[1].name@ == "~lag"@ && r@[1].node is Lag,
        r@[2].name@ == "~out"@,
        r@[2].node matches DspNode::Out(n) && n.gain_spec()
            == crate::node::out::DEFAULT_GAIN,
        r@[3].name@ == "~pack"@,
        r@[3].node matches DspNode::Pack(n) && n.count_spec()
            == Pack::DEFAULT_COUNT,
        r@[4].name@ == "~scopeout"@,
        r@[4].node matches DspNode::ScopeOut(n) && n.size_spec()
            == ScopeOut::DEFAULT_SIZE,
        r@[5].name@ == "~sinosc"@,
        r@[5].node matches DspNode::Sine(n) && n.freq_spec()
            == crate::node::sine::DEFAULT_FREQ,
        r@[6].name@ == "~sum"@,
        r@[6].node matches DspNode::Sum(n) && n.count_spec()
            == Sum::DEFAULT_COUNT,
        r@[7].name@ == "~unpack"@,
        r@[7].node matches DspNode::Unpack(n) && n.count_spec()
            == Unpack::DEFAULT_COUNT,
{
    vec![
        Builtin { name: "~bus", node: DspNode::Bus(Bus::default()) },
        Builtin { name: "~lag", node: DspNode::Lag(Lag::default()) },
        Builtin { name: "~out", node: DspNode::Out(Out::default()) },
        Builtin { name: "~pack", node: DspNode::Pack(Pack::default()) },
        Builtin { name: "~scopeout", node: DspNode::ScopeOut(ScopeOut::default()) },
        Builtin { name: "~sinosc", node: DspNode::Sine(Sine::default()) },
        Builtin { name: "~sum", node: DspNode::Sum(Sum::default()) },
        Builtin { name: "~unpack", node: DspNode::Unpack(Unpack::default()) },
    ]
}

/// Nodes of different kinds have different names, and those of one kind have one name and
/// one description.
pub proof fn law_names_tell_kinds_apart(a: DspNode, b: DspNode)
    ensures
        name_of(a) == name_of(b) ==> control::same_kind(a, b),
        control::same_kind(a, b) ==> name_of(a) == name_of(b) && description_of(a)
            == description_of(b),
{
    reveal_strlit("~bus");
    reveal_strlit("~lag");
    reveal_strlit("~out");
    reveal_strlit("~pack");
    reveal_strlit("~scopeout");
    reveal_strlit("~sine");
    reveal_strlit("~sum");
    reveal_strlit("~tap");
    reveal_strlit("~unpack");
    let (x, y) = (name_of(a), name_of(b));
    if x == y {
        assert(x.len() == y.len());
        assert(x[1] == y[1] && x[2] == y[2] && x[3] == y[3]);
    }
}

/// Every socket of a node but a sum's is described, and those of the sockets that are
/// numbered are told apart by their number.
pub proof fn law_sockets_are_described(n: DspNode, i: nat, j: nat)
    ensures
        !(n is Sum) && i < control::inputs_of(n) ==> doc_of(n, SocketKind::Input, i) is Some,
        !(n is Sum) && i < control::outputs_of(n) ==> doc_of(n, SocketKind::Output, i) is Some,
        n is Pack && doc_of(n, SocketKind::Input, i) == doc_of(n, SocketKind::Input, j) ==> i == j,
        n is Unpack && doc_of(n, SocketKind::Output, i) == doc_of(n, SocketKind::Output, j) ==> i
            == j,
{
    if n is Pack && doc_of(n, SocketKind::Input, i) == doc_of(n, SocketKind::Input, j) {
        let head = "signal "@;
        let end = " to pack (any channel width; silence when unconnected)"@;
        lemma_numbered(head, end, i, j);
    }
    if n is Unpack && doc_of(n, SocketKind::Output, i) == doc_of(n, SocketKind::Output, j) {
        let head = "channel "@;
        let end = " of the input (silence past its width)"@;
        lemma_numbered(head, end, i, j);
    }
}

proof fn lemma_numbered(head: Seq<char>, end: Seq<char>, i: nat, j: nat)
    requires
        head + text::dec(i) + end == head + text::dec(j) + end,
    ensures
        i == j,
{
    let (x, y) = (head + text::dec(i) + end, head + text::dec(j) + end);
    assert(x.len() == y.len());
    assert(x.subrange(head.len() as int, x.len() - end.len()) =~= text::dec(i));
    assert(y.subrange(head.len() as int, y.len() - end.len()) =~= text::dec(j));
    text::lemma_dec_injective(i, j);
}

} // verus!
