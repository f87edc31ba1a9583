//! How edges of the graph scene are styled, and how those that carry DSP signals are.

use crate::dsp::{Float, Rate};
use crate::head::{Head, HeadView};
use crate::port_info::{Port, PortShape, RootPortInfo};
use crate::table::Table;
use crate::text;
use vstd::prelude::*;
use vstd::string::*;

verus! {

/// What is known of an edge that is to be styled.
#[derive(Debug)]
#[non_exhaustive]
pub struct EdgeStyleCtx<'a> {
    /// The head whose graph is viewed.
    pub head: &'a Head,
    /// The node and output that the edge comes from.
    pub src: (usize, usize),
    /// The node and input that it goes to.
    pub dst: (usize, usize),
}

impl<'a> EdgeStyleCtx<'a> {
    /// The edge from `src` to `dst` in the graph of `head`.
    pub fn new(head: &'a Head, src: (usize, usize), dst: (usize, usize)) -> (r: Self)
        ensures
            r.head@ == head@,
            r.src == src,
            r.dst == dst,
    {
        EdgeStyleCtx { head, src, dst }
    }
}

/// A style of an edge. What is not set is left to the theme.
#[derive(Debug)]
pub struct EdgeStyling {
    /// The colour of an edge that is neither selected nor hovered.
    pub color: Option<[u8; 4]>,
    /// A factor on the stroke's width.
    pub width_scale: Float,
    /// The lengths of dashes and gaps.
    pub dash: Option<(Float, Float)>,
    /// The number of parallel strands.
    pub strands: usize,
    /// The spacing of notches along the edge.
    pub notch: Option<Float>,
    /// What hovering says.
    pub hover_text: Option<String>,
}

/// What an [`EdgeStyling`] denotes.
#[verifier::ext_equal]
pub struct StylingView {
    pub color: Option<[u8; 4]>,
    pub width_scale: Float,
    pub dash: Option<(Float, Float)>,
    pub strands: usize,
    pub notch: Option<Float>,
    pub hover_text: Option<Seq<char>>,
}

impl View for EdgeStyling {
    type V = StylingView;

    open spec fn view(&self) -> StylingView {
        StylingView {
            color: self.color,
            width_scale: self.width_scale,
            dash: self.dash,
            strands: self.strands,
            notch: self.notch,
            hover_text: match self.hover_text {
                Some(s) => Some(s@),
                None => None,
            },
        }
    }
}

/// `1.0`.
pub const WIDTH_SCALE: Float = 0x3f80_0000;

/// The styling that leaves everything to the theme.
pub open spec fn plain() -> StylingView {
    StylingView {
        color: None,
        width_scale: WIDTH_SCALE,
        dash: None,
        strands: 1,
        notch: None,
        hover_text: None,
    }
}

impl Default for EdgeStyling {
    fn default() -> (r: Self)
        ensures
            r@ == plain(),
    {
        EdgeStyling {
            color: None,
            width_scale: WIDTH_SCALE,
            dash: None,
            strands: 1,
            notch: None,
            hover_text: None,
        }
    }
}

/// A source of styles. It gives none for edges that it has no interest in.
pub trait EdgeStyle {
    /// The styling of an edge, if there is one.
    open spec fn styling(
        &self,
        head: HeadView,
        src: (usize, usize),
        dst: (usize, usize),
    ) -> Option<StylingView> {
        arbitrary()
    }

    fn edge_styling(&self, ctx: &EdgeStyleCtx) -> (r: Option<EdgeStyling>)
        ensures
            match r {
                Some(s) => self.styling(ctx.head@, ctx.src, ctx.dst) == Some(s@),
                None => self.styling(ctx.head@, ctx.src, ctx.dst) is None,
            },
    ;
}

/// The first styling that any of the sources gives.
pub open spec fn first_styling<S: EdgeStyle>(
    styles: Seq<S>,
    head: HeadView,
    src: (usize, usize),
    dst: (usize, usize),
) -> Option<StylingView>
    decreases styles.len(),
{
    if styles.len() == 0 {
        None
    } else {
        match styles[0].styling(head, src, dst) {
            Some(s) => Some(s),
            None => first_styling(styles.skip(1), head, src, dst),
        }
    }
}

/// The styling of an edge: the first that any of the sources gives, in their order.
pub fn edge_styling<S: EdgeStyle>(styles: &Vec<S>, ctx: &EdgeStyleCtx) -> (r: Option<EdgeStyling>)
    ensures
        match r {
            Some(s) => first_styling(styles@, ctx.head@, ctx.src, ctx.dst) == Some(s@),
            None => first_styling(styles@, ctx.head@, ctx.src, ctx.dst) is None,
        },
{
    let ghost all = first_styling(styles@, ctx.head@, ctx.src, ctx.dst);
    let mut i: usize = 0;
    assert(styles@.skip(0) =~= styles@);
    while i < styles.len()
        invariant
            i <= styles@.len(),
            all == first_styling(styles@, ctx.head@, ctx.src, ctx.dst),
            all == first_styling(styles@.skip(i as int), ctx.head@, ctx.src, ctx.dst),
        decreases styles@.len() - i,
    {
        proof {
            assert(styles@.skip(i as int)[0] == styles@[i as int]);
            assert(styles@.skip(i as int).skip(1) =~= styles@.skip(i + 1));
        }
        if let Some(s) = styles[i].edge_styling(ctx) {
            return Some(s);
        }
        i = i + 1;
    }
    None
}

/// The DSP styling: an edge from an output that a signal leaves from to an input at
/// which signals arrive is drawn as a cord.
#[derive(Debug)]
pub struct DspEdgeStyle {
    /// The ports of each open head's graph.
    pub heads: Table<Head, RootPortInfo>,
}

/// The spacing of a cord's notches: `6.0`.
pub const SIGNAL_NOTCH: Float = 0x40c0_0000;

/// How much heavier a cord is: `1.8`.
pub const SIGNAL_WIDTH_SCALE: Float = 0x3fe6_6666;

/// The gap between the dashes of a control-rate cord: `4.0`.
pub const CONTROL_GAP: Float = 0x4080_0000;

/// The dots of any other cord: `1.5`.
pub const DOT: Float = 0x3fc0_0000;

/// The gap between dots: `3.0`.
pub const DOT_GAP: Float = 0x4040_0000;

/// The short name of a rate.
pub open spec fn rate_name(rate: Rate) -> Seq<char> {
    match rate {
        Rate::Audio => "ar"@,
        Rate::Control => "kr"@,
        Rate::Scalar => "ir"@,
        Rate::Demand => "dr"@,
    }
}

/// The short name of a rate.
pub fn rate_token(rate: Rate) -> (r: &'static str)
    ensures
        r@ == rate_name(rate),
{
    match rate {
        Rate::Audio => "ar",
        Rate::Control => "kr",
        Rate::Scalar => "ir",
        Rate::Demand => "dr",
    }
}

/// The styling of a cord: one strand per channel, dashed or dotted by its rate. A cord
/// whose shape is not known is open, with gaps for notches.
pub open spec fn cord(shape: Option<PortShape>) -> StylingView {
    match shape {
        None => StylingView {
            width_scale: SIGNAL_WIDTH_SCALE,
            dash: Some((SIGNAL_NOTCH, SIGNAL_NOTCH)),
            hover_text: Some("signal"@),
            ..plain()
        },
        Some(s) => StylingView {
            width_scale: SIGNAL_WIDTH_SCALE,
            notch: Some(SIGNAL_NOTCH),
            strands: s.width,
            hover_text: Some(text::dec(s.width as nat) + "ch "@ + rate_name(s.rate)),
            dash: match s.rate {
                Rate::Audio => None,
                Rate::Control => Some((SIGNAL_NOTCH, CONTROL_GAP)),
                _ => Some((DOT, DOT_GAP)),
            },
            ..plain()
        },
    }
}

/// The styling of a cord.
pub fn dsp_edge_styling(shape: Option<PortShape>) -> (r: EdgeStyling)
    ensures
        r@ == cord(shape),
{
    let mut styling = EdgeStyling::default();
    styling.width_scale = SIGNAL_WIDTH_SCALE;
    match shape {
        None => {
            styling.dash = Some((SIGNAL_NOTCH, SIGNAL_NOTCH));
            styling.hover_text = Some(String::from_str("signal"));
        },
        Some(s) => {
            styling.notch = Some(SIGNAL_NOTCH);
            styling.strands = s.width;
            let mut hover = text::dec_string(s.width);
            hover.append("ch ");
            hover.append(rate_token(s.rate));
            styling.hover_text = Some(hover);
            styling.dash = match s.rate {
                Rate::Audio => None,
                Rate::Control => Some((SIGNAL_NOTCH, CONTROL_GAP)),
                _ => Some((DOT, DOT_GAP)),
            };
        },
    }
    assert(styling@ =~= cord(shape));
    styling
}

impl EdgeStyle for DspEdgeStyle {
    open spec fn styling(
        &self,
        head: HeadView,
        src: (usize, usize),
        dst: (usize, usize),
    ) -> Option<StylingView> {
        if self.heads@.contains_key(head) {
            let info = self.heads@[head];
            if info.signal_inputs@.contains(dst) && info.signal_outputs@.contains_key(src) {
                Some(cord(info.signal_outputs@[src]))
            } else {
                None
            }
        } else {
            None
        }
    }

    fn edge_styling(&self, ctx: &EdgeStyleCtx) -> (r: Option<EdgeStyling>) {
        let info = match self.heads.get(ctx.head) {
            Some(info) => info,
            None => {
                return None;
            },
        };
        if !info.signal_inputs.contains(&Port { node: ctx.dst.0, port: ctx.dst.1 }) {
            return None;
        }
        match info.signal_outputs.get(&Port { node: ctx.src.0, port: ctx.src.1 }) {
            Some(shape) => Some(dsp_edge_styling(*shape)),
            None => None,
        }
    }
}

/// An edge is drawn as a cord where a signal leaves from its one end and the other takes
/// one, in a graph that is known, with the shape of the output that it leaves from. Any
/// other edge is left as it is.
pub proof fn law_signals_are_drawn_as_cords(
    style: DspEdgeStyle,
    head: HeadView,
    src: (usize, usize),
    dst: (usize, usize),
)
    ensures
        style.styling(head, src, dst) is Some <==> style.heads@.contains_key(head)
            && style.heads@[head].signal_inputs@.contains(dst)
            && style.heads@[head].signal_outputs@.contains_key(src),
        style.styling(head, src, dst) is Some ==> style.styling(head, src, dst) == Some(
            cord(style.heads@[head].signal_outputs@[src]),
        ),
{
}

} // verus!
