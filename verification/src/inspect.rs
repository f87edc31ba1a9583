//! The inspector rows of the DSP nodes, and what their edits do.
//!
//! A setting that belongs to a node is part of its address, and an edit of it marks the
//! node as changed. A param's value lives in the node's state, and an edit of it does
//! not.

use crate::control::{self, DEFAULT_DUR};
use crate::dsp::Float;
use crate::dsp_node::DspNode;
use crate::param;
use crate::text;
use crate::value::{Number, Val, ValView};
use vstd::prelude::*;
use vstd::string::*;

verus! {

/// `1.0`.
pub const ONE: Float = 0x3f80_0000;

/// The longest lag that can be set: `10.0` seconds.
pub const MAX_LAG: Float = 0x4120_0000;

/// The highest frequency that can be set: `20000.0` Hz.
pub const MAX_FREQ: Float = 0x469c_4000;

/// The most sockets that can be set.
pub const MAX_COUNT: usize = 64;

/// The longest ring that can be set.
pub const MAX_SIZE: usize = 16384;

/// What a row of the inspector shows and lets change.
#[derive(Debug)]
#[allow(inconsistent_fields)]
pub enum Row {
    /// What is said of the state.
    State { text: String, hint: &'static str },
    /// A number of things, from one up.
    Count { label: &'static str, value: usize, max: usize, suffix: &'static str },
    /// A setting of the node, from zero up.
    Setting { label: &'static str, value: Float, max: Float, suffix: &'static str },
    /// A value in the node's state, from zero up.
    Value { label: &'static str, value: Number, max: Float, suffix: &'static str },
}

/// What a [`Row`] denotes.
#[allow(inconsistent_fields)]
pub enum RowView {
    State { text: Seq<char>, hint: Seq<char> },
    Count { label: Seq<char>, value: usize, max: usize, suffix: Seq<char> },
    Setting { label: Seq<char>, value: Float, max: Float, suffix: Seq<char> },
    Value { label: Seq<char>, value: Number, max: Float, suffix: Seq<char> },
}

impl View for Row {
    type V = RowView;

    open spec fn view(&self) -> RowView {
        match self {
            Row::State { text, hint } => RowView::State { text: text@, hint: hint@ },
            Row::Count { label, value, max, suffix } => RowView::Count {
                label: label@,
                value: *value,
                max: *max,
                suffix: suffix@,
            },
            Row::Setting { label, value, max, suffix } => RowView::Setting {
                label: label@,
                value: *value,
                max: *max,
                suffix: suffix@,
            },
            Row::Value { label, value, max, suffix } => RowView::Value {
                label: label@,
                value: *value,
                max: *max,
                suffix: suffix@,
            },
        }
    }
}

/// What a list of rows denotes.
pub open spec fn row_views(s: Seq<Row>) -> Seq<RowView> {
    s.map_values(|r: Row| r@)
}

/// How many updates a param's state has queued.
pub open spec fn queued(state: Option<ValView>) -> nat {
    match state {
        Some(v) => param::queue_of(v).len(),
        None => 0,
    }
}

/// The lag time that a state holds, or the one that a node starts with.
pub open spec fn lag_time(state: Option<ValView>) -> Number {
    match state {
        Some(v) => match param::value_of(v) {
            Some(n) => n,
            None => Number::Float(DEFAULT_DUR),
        },
        None => Number::Float(DEFAULT_DUR),
    }
}

/// What is said of a scope's rings.
pub open spec fn shape_text(shape: (nat, nat)) -> Seq<char> {
    text::dec(shape.0) + " frames \u{d7} "@ + text::dec(shape.1) + " channels"@
}

/// What a state denotes, where there is one.
pub open spec fn state_view(s: Option<Val>) -> Option<ValView> {
    match s {
        Some(v) => Some(v@),
        None => None,
    }
}

/// The rows of a node.
pub open spec fn rows_of(n: DspNode, state: Option<ValView>) -> Seq<RowView> {
    match n {
        DspNode::Bus(_) | DspNode::Sum(_) => Seq::empty(),
        DspNode::Lag(_) => seq![
            RowView::State {
                text: text::dec(queued(state)) + " queued"@,
                hint: "pending scheduled control updates"@,
            },
            RowView::Value { label: "lag"@, value: lag_time(state), max: MAX_LAG, suffix: " s"@ },
        ],
        DspNode::Out(n) => seq![
            RowView::Setting { label: "gain"@, value: n.gain_spec(), max: ONE, suffix: ""@ },
        ],
        DspNode::Sine(n) => seq![
            RowView::Setting { label: "freq"@, value: n.freq_spec(), max: MAX_FREQ, suffix: " Hz"@ },
        ],
        DspNode::Pack(n) => seq![
            RowView::Count { label: "count"@, value: n.count_spec(), max: MAX_COUNT, suffix: ""@ },
        ],
        DspNode::Unpack(n) => seq![
            RowView::Count { label: "count"@, value: n.count_spec(), max: MAX_COUNT, suffix: ""@ },
        ],
        DspNode::ScopeOut(n) => seq![
            RowView::State {
                text: shape_text(
                    match state {
                        Some(v) => control::ring_shape(v),
                        None => (0, 0),
                    },
                ),
                hint: "buffered dsp samples (one ring per channel)"@,
            },
            RowView::Count {
                label: "size"@,
                value: n.size_spec(),
                max: MAX_SIZE,
                suffix: " frames"@,
            },
        ],
        DspNode::Tap(n) => seq![
            RowView::Count {
                label: "size"@,
                value: n.size_spec(),
                max: MAX_SIZE,
                suffix: " samples"@,
            },
        ],
    }
}

/// A change made in the inspector.
#[derive(Clone, Copy, Debug)]
pub enum Edit {
    Count(usize),
    Setting(Float),
    Value(Number),
}

/// What a count becomes: at least one.
pub open spec fn counted(n: usize) -> nat {
    if n == 0 {
        1
    } else {
        n as nat
    }
}

/// Whether an edit is one that a node's rows offer.
pub open spec fn offered(n: DspNode, e: Edit) -> bool {
    match e {
        Edit::Count(_) => n is Pack || n is Unpack || n is ScopeOut || n is Tap,
        Edit::Setting(_) => n is Out || n is Sine,
        Edit::Value(_) => n is Lag,
    }
}

impl DspNode {
    /// The node's rows, given its state.
    pub fn inspector_rows(&self, state: &Option<Val>) -> (r: Vec<Row>)
        ensures
            row_views(r@) == rows_of(*self, state_view(*state)),
    {
        let mut r: Vec<Row> = Vec::new();
        match self {
            DspNode::Bus(_) | DspNode::Sum(_) => {},
            DspNode::Lag(_) => {
                let (n, value) = match state {
                    Some(v) => (
                        param::pending_len(v),
                        match param::param_value(v) {
                            Some(x) => x,
                            None => Number::Float(DEFAULT_DUR),
                        },
                    ),
                    None => (0usize, Number::Float(DEFAULT_DUR)),
                };
                let mut text = text::dec_string(n);
                text.append(" queued");
                r.push(Row::State { text, hint: "pending scheduled control updates" });
                r.push(Row::Value { label: "lag", value, max: MAX_LAG, suffix: " s" });
            },
            DspNode::Out(n) => {
                r.push(Row::Setting { label: "gain", value: n.gain(), max: ONE, suffix: "" });
            },
            DspNode::Sine(n) => {
                r.push(
                    Row::Setting { label: "freq", value: n.freq(), max: MAX_FREQ, suffix: " Hz" },
                );
            },
            DspNode::Pack(n) => {
                r.push(Row::Count { label: "count", value: n.count(), max: MAX_COUNT, suffix: "" });
            },
            DspNode::Unpack(n) => {
                r.push(Row::Count { label: "count", value: n.count(), max: MAX_COUNT, suffix: "" });
            },
            DspNode::ScopeOut(n) => {
                let (frames, channels) = control::scope_shape(state);
                let mut text = text::dec_string(frames);
                text.append(" frames \u{d7} ");
                text.append(text::dec_string(channels).as_str());
                text.append(" channels");
                r.push(Row::State { text, hint: "buffered dsp samples (one ring per channel)" });
                r.push(
                    Row::Count { label: "size", value: n.size(), max: MAX_SIZE, suffix: " frames" },
                );
            },
            DspNode::Tap(n) => {
                r.push(
                    Row::Count { label: "size", value: n.size(), max: MAX_SIZE, suffix: " samples" },
                );
            },
        }
        assert(row_views(r@) =~= rows_of(*self, state_view(*state)));
        r
    }

    /// Makes a change. It returns whether the node changed, and with that its address,
    /// and the state to be written, where the change was one to the state.
    pub fn edit(&mut self, e: Edit, state: &Option<Val>) -> (r: (bool, Option<Val>))
        ensures
            r.0 == (offered(*old(self), e) && !(e is Value)),
            control::same_kind(*old(self), *final(self)),
            match e {
                Edit::Count(n) => control::setting(*final(self)) == (if offered(*old(self), e) {
                    (counted(n), 8nat)
                } else {
                    control::setting(*old(self))
                }),
                Edit::Setting(f) => control::setting(*final(self)) == (if offered(*old(self), e) {
                    (f as nat, 4nat)
                } else {
                    control::setting(*old(self))
                }),
                Edit::Value(_) => *final(self) == *old(self),
            },
            state_view(r.1) == (if offered(*old(self), e) && e is Value {
                Some(
                    param::with_value_of(
                        match *state {
                            Some(v) => v@,
                            None => param::fresh_state(Number::Float(DEFAULT_DUR)),
                        },
                        e->Value_0,
                    ),
                )
            } else {
                None
            }),
    {
        match e {
            Edit::Count(count) => {
                match self {
                    DspNode::Pack(n) => n.set_count(count),
                    DspNode::Unpack(n) => n.set_count(count),
                    DspNode::ScopeOut(n) => n.set_size(count),
                    DspNode::Tap(n) => n.set_size(count),
                    _ => {
                        return (false, None);
                    },
                }
                (true, None)
            },
            Edit::Setting(f) => {
                match self {
                    DspNode::Out(n) => n.set_gain(f),
                    DspNode::Sine(n) => n.set_freq(f),
                    _ => {
                        return (false, None);
                    },
                }
                (true, None)
            },
            Edit::Value(v) => match self {
                DspNode::Lag(_) => {
                    let next = match state {
                        Some(s) => param::with_value(s, v),
                        None => param::with_value(
                            &param::param_state(Number::Float(DEFAULT_DUR)),
                            v,
                        ),
                    };
                    (false, Some(next))
                },
                _ => (false, None),
            },
        }
    }
}

/// Whether a row is of an edit's kind.
pub open spec fn takes(r: RowView, e: Edit) -> bool {
    match e {
        Edit::Count(_) => r is Count,
        Edit::Setting(_) => r is Setting,
        Edit::Value(_) => r is Value,
    }
}

/// What can be edited is what is shown: an edit is offered where a row of its kind is.
pub proof fn law_offered_edits_are_shown(n: DspNode, state: Option<ValView>, e: Edit)
    ensures
        offered(n, e) <==> exists|i: int|
            0 <= i < rows_of(n, state).len() && takes(#[trigger] rows_of(n, state)[i], e),
{
    let r = rows_of(n, state);
    if offered(n, e) {
        assert(takes(r[r.len() - 1], e));
    }
}

/// An edit is shown in its row: a node of the same kind that is set to a count or a setting
/// shows it, and a state that was given a value shows that.
pub proof fn law_edits_show_in_their_rows(
    n: DspNode,
    m: DspNode,
    state: Option<ValView>,
    count: usize,
    f: Float,
    v: Number,
)
    requires
        control::same_kind(n, m),
    ensures
        offered(n, Edit::Count(count)) && control::setting(m) == (count as nat, 8nat) ==> {
            let r = rows_of(m, state);
            r.last() is Count && r.last()->Count_value == count
        },
        offered(n, Edit::Setting(f)) && control::setting(m) == (f as nat, 4nat) ==> {
            let r = rows_of(m, state);
            r.last() is Setting && r.last()->Setting_value == f
        },
        offered(n, Edit::Value(v)) ==> {
            let s = match state {
                Some(s) => s,
                None => param::fresh_state(Number::Float(DEFAULT_DUR)),
            };
            let r = rows_of(m, Some(param::with_value_of(s, v)));
            r.last() is Value && r.last()->Value_value == v
        },
{
    if offered(n, Edit::Value(v)) {
        let s = match state {
            Some(s) => s,
            None => param::fresh_state(Number::Float(DEFAULT_DUR)),
        };
        param::law_setting_a_value_keeps_the_queue(s, v);
    }
}

} // verus!
