//! The plot node: what it keeps of the values that flow through it, and how it is
//! configured.
//!
//! In [`PlotMode::Scope`] the node accumulates a bounded, scrolling history: a number
//! is appended, a list or vector extends the history with its numbers, and a list or
//! vector of lists or vectors keeps one history per channel. In [`PlotMode::Signal`]
//! the incoming value replaces the last. Lists and vectors count alike throughout. The
//! node passes its input on unchanged.

use crate::dsp::Float;
use crate::monitor;
use crate::socket::{DocView, SocketDoc, SocketKind};
use crate::text;
use crate::value::{self, Number, Val, ValView};
use vstd::prelude::*;
use vstd::string::*;

verus! {

/// How the plot treats its input.
#[derive(Clone, Copy, Debug, PartialEq, Eq, Hash, Structural)]
pub enum PlotMode {
    /// Accumulates a bounded scrolling history.
    Scope,
    /// Plots the incoming value directly, in place of the last.
    Signal,
}

/// How the series is drawn.
#[derive(Clone, Copy, Debug, PartialEq, Eq, Hash, Structural)]
pub enum PlotStyle {
    /// Contiguous bars.
    Bars,
    /// A connected line.
    Line,
}

/// A node that plots the numbers it receives.
#[derive(Clone, Copy, Debug)]
pub struct Plot {
    pub mode: PlotMode,
    pub style: PlotStyle,
    /// The most samples that a history holds.
    pub capacity: u32,
    pub width: u16,
    pub height: u16,
    /// The colour of lines and bars; that of the theme's strong text if none.
    pub color: Option<[u8; 4]>,
    pub show_grid: bool,
    pub show_axes: bool,
    /// Whether hovering shows a crosshair and the value beneath it.
    pub interactive: bool,
    /// Whether the data is inset by the frame's margin.
    pub margin: bool,
    /// A fixed lower bound of the value axis.
    pub y_min: Option<Float>,
    /// A fixed upper bound of the value axis.
    pub y_max: Option<Float>,
}

/// The body's width unless it is resized.
pub const DEFAULT_WIDTH: u16 = 120;

/// The body's height unless it is resized.
pub const DEFAULT_HEIGHT: u16 = 80;

/// The capacity unless it is edited.
pub const DEFAULT_CAPACITY: u32 = 256;

/// The largest capacity.
pub const MAX_CAPACITY: u32 = 4096;

impl Default for Plot {
    fn default() -> (r: Self)
        ensures
            r == (Plot {
                mode: PlotMode::Scope,
                style: PlotStyle::Bars,
                capacity: DEFAULT_CAPACITY,
                width: DEFAULT_WIDTH,
                height: DEFAULT_HEIGHT,
                color: None,
                show_grid: false,
                show_axes: false,
                interactive: false,
                margin: true,
                y_min: None,
                y_max: None,
            }),
    {
        Plot {
            mode: PlotMode::Scope,
            style: PlotStyle::Bars,
            capacity: DEFAULT_CAPACITY,
            width: DEFAULT_WIDTH,
            height: DEFAULT_HEIGHT,
            color: None,
            show_grid: false,
            show_axes: false,
            interactive: false,
            margin: true,
            y_min: None,
            y_max: None,
        }
    }
}

/// The elements of a list or vector.
pub open spec fn elements(v: ValView) -> Option<Seq<ValView>> {
    match v {
        ValView::List(s) => Some(s),
        ValView::Vector(s) => Some(s),
        _ => None,
    }
}

/// Whether any of the values is a list or vector.
pub open spec fn nested(s: Seq<ValView>) -> bool {
    exists|i: int| 0 <= i < s.len() && elements(#[trigger] s[i]) is Some
}

/// The numbers among the values.
pub open spec fn numbers(s: Seq<ValView>) -> Seq<ValView>
    decreases s.len(),
{
    if s.len() == 0 {
        Seq::empty()
    } else if s.last() is Num {
        numbers(s.drop_last()).push(s.last())
    } else {
        numbers(s.drop_last())
    }
}

/// The samples that a value holds: the numbers of a list or vector, or the number that
/// it is.
pub open spec fn samples(v: ValView) -> Seq<ValView> {
    match elements(v) {
        Some(s) => numbers(s),
        None => if v is Num {
            seq![v]
        } else {
            Seq::empty()
        },
    }
}

/// The history that a state is: a vector without channels, or the numbers of a list;
/// anything else is an empty history.
pub open spec fn history(state: Option<ValView>) -> Seq<ValView> {
    match state {
        Some(ValView::Vector(s)) => if nested(s) {
            Seq::empty()
        } else {
            s
        },
        Some(ValView::List(s)) => numbers(s),
        _ => Seq::empty(),
    }
}

/// A history with a value's samples appended, and the oldest gone beyond `cap`.
pub open spec fn extended(h: Seq<ValView>, v: ValView, cap: nat) -> Seq<ValView> {
    monitor::tail(h + samples(v), cap)
}

/// The channels that a state keeps, if it keeps any.
pub open spec fn kept_channels(state: ValView) -> Seq<ValView> {
    match elements(state) {
        Some(s) => if nested(s) {
            s
        } else {
            Seq::empty()
        },
        None => Seq::empty(),
    }
}

/// Channel `c` of a state.
pub open spec fn kept_channel(state: ValView, c: int) -> Option<ValView> {
    if 0 <= c < kept_channels(state).len() {
        Some(kept_channels(state)[c])
    } else {
        None
    }
}

/// A state with a value pushed: one history per channel where the value holds
/// channels, else one history. A state of the other shape is dropped.
pub open spec fn pushed(state: ValView, v: ValView, cap: nat) -> ValView {
    match elements(v) {
        Some(chans) => if nested(chans) {
            ValView::Vector(
                Seq::new(
                    chans.len(),
                    |c: int|
                        ValView::Vector(
                            extended(history(kept_channel(state, c)), chans[c], cap),
                        ),
                ),
            )
        } else {
            ValView::Vector(extended(history(Some(state)), v, cap))
        },
        None => ValView::Vector(extended(history(Some(state)), v, cap)),
    }
}

fn is_nested(l: &Vec<Val>) -> (r: bool)
    ensures
        r == nested(value::val_list(*l, l@.len())),
{
    let ghost s = value::val_list(*l, l@.len());
    proof {
        value::lemma_val_list(*l, l@.len());
    }
    let mut i: usize = 0;
    while i < l.len()
        invariant
            s == value::val_list(*l, l@.len()),
            s.len() == l@.len(),
            forall|j: int| 0 <= j < s.len() ==> #[trigger] s[j] == value::val_view(l@[j]),
            i <= l@.len(),
            forall|j: int| 0 <= j < i ==> elements(#[trigger] s[j]) is None,
        decreases l@.len() - i,
    {
        let yes = match &l[i] {
            Val::List(_) => true,
            Val::Vector(_) => true,
            _ => false,
        };
        assert(yes == (elements(s[i as int]) is Some));
        if yes {
            return true;
        }
        i = i + 1;
    }
    false
}

/// What the numbers of a list denote.
pub open spec fn number_vals(s: Seq<Number>) -> Seq<ValView> {
    s.map_values(|n: Number| ValView::Num(n))
}

fn list_numbers(l: &Vec<Val>) -> (r: Vec<Number>)
    ensures
        number_vals(r@) == numbers(value::val_list(*l, l@.len())),
{
    let ghost s = value::val_list(*l, l@.len());
    proof {
        value::lemma_val_list(*l, l@.len());
    }
    let mut r: Vec<Number> = Vec::new();
    let mut i: usize = 0;
    assert(number_vals(r@) =~= numbers(s.take(0)));
    while i < l.len()
        invariant
            s == value::val_list(*l, l@.len()),
            s.len() == l@.len(),
            forall|j: int| 0 <= j < s.len() ==> #[trigger] s[j] == value::val_view(l@[j]),
            i <= l@.len(),
            number_vals(r@) == numbers(s.take(i as int)),
        decreases l@.len() - i,
    {
        let ghost before = r@;
        proof {
            assert(s.take(i + 1).drop_last() =~= s.take(i as int));
            assert(s.take(i + 1).last() == s[i as int]);
        }
        if let Val::Num(n) = &l[i] {
            r.push(*n);
            assert(number_vals(r@) =~= number_vals(before).push(ValView::Num(*n)));
        }
        i = i + 1;
    }
    assert(s.take(i as int) =~= s);
    r
}

/// The samples that a value holds.
fn read_samples(v: &Val) -> (r: Vec<Number>)
    ensures
        number_vals(r@) == samples(v@),
{
    match v {
        Val::List(l) => list_numbers(l),
        Val::Vector(l) => list_numbers(l),
        Val::Num(n) => {
            let r = vec![*n];
            assert(number_vals(r@) =~= seq![ValView::Num(*n)]);
            r
        },
        _ => {
            let r: Vec<Number> = Vec::new();
            assert(number_vals(r@) =~= Seq::<ValView>::empty());
            r
        },
    }
}

/// The history that a state is.
fn history_of(state: Option<&Val>) -> (r: Vec<Val>)
    ensures
        value::val_list(r, r@.len()) == history(monitor::state_view(state)),
{
    match state {
        Some(Val::Vector(l)) => if is_nested(l) {
            Vec::new()
        } else {
            value::dup_vals(l)
        },
        Some(Val::List(l)) => {
            let ns = list_numbers(l);
            let r = number_list(&ns);
            r
        },
        _ => Vec::new(),
    }
}

fn number_list(ns: &Vec<Number>) -> (r: Vec<Val>)
    ensures
        value::val_list(r, r@.len()) == number_vals(ns@),
{
    let mut r: Vec<Val> = Vec::new();
    let mut i: usize = 0;
    while i < ns.len()
        invariant
            i <= ns@.len(),
            r@.len() == i,
            forall|j: int| 0 <= j < i ==> value::val_view(#[trigger] r@[j]) == ValView::Num(ns@[j]),
        decreases ns@.len() - i,
    {
        r.push(Val::Num(ns[i]));
        i = i + 1;
    }
    proof {
        value::lemma_val_list(r, r@.len());
        assert(value::val_list(r, r@.len()) =~= number_vals(ns@));
    }
    r
}

/// Appends a value's samples to a history, and drops the oldest beyond `cap`.
fn push_capped(history: &Vec<Val>, v: &Val, cap: u64) -> (r: Vec<Val>)
    ensures
        value::val_list(r, r@.len()) == extended(
            value::val_list(*history, history@.len()),
            v@,
            cap as nat,
        ),
{
    let more = read_samples(v);
    let ghost h = value::val_list(*history, history@.len());
    let ghost all = h + number_vals(more@);
    proof {
        value::lemma_val_list(*history, history@.len());
    }
    let hl: usize = history.len();
    let ml: usize = more.len();
    // Where the samples that stay begin: in the history, and among the new ones.
    let (from, start): (usize, usize) = if ml as u64 >= cap {
        (hl, ml - (cap as usize))
    } else {
        let room: u64 = cap - ml as u64;
        if hl as u64 > room {
            (hl - (room as usize), 0)
        } else {
            (0, 0)
        }
    };
    assert(from + start == if all.len() <= cap {
        0
    } else {
        all.len() - cap
    });
    let mut r: Vec<Val> = Vec::new();
    let mut i: usize = from;
    while i < hl
        invariant
            hl == history@.len(),
            h == value::val_list(*history, history@.len()),
            h.len() == hl,
            forall|j: int| 0 <= j < h.len() ==> #[trigger] h[j] == value::val_view(history@[j]),
            from <= i <= hl,
            r@.len() == i - from,
            forall|j: int| 0 <= j < r@.len() ==> value::val_view(#[trigger] r@[j]) == h[from + j],
        decreases hl - i,
    {
        let x = value::dup_val(&history[i]);
        r.push(x);
        i = i + 1;
    }
    let ghost front = r@;
    assert(forall|j: int|
        0 <= j < front.len() ==> value::val_view(#[trigger] front[j]) == all[from + start + j]);
    assert(front.len() + from == hl);
    let mut k: usize = start;
    while k < ml
        invariant
            ml == more@.len(),
            start <= k <= ml,
            h.len() == hl,
            all == h + number_vals(more@),
            front.len() + from == hl,
            from < hl ==> start == 0,
            r@.len() == front.len() + (k - start),
            forall|j: int|
                0 <= j < r@.len() ==> value::val_view(#[trigger] r@[j]) == all[from + start + j],
        decreases ml - k,
    {
        proof {
            assert(all[hl + k] == ValView::Num(more@[k as int]));
            assert(from + start + r@.len() == hl + k);
        }
        r.push(Val::Num(more[k]));
        k = k + 1;
    }
    proof {
        value::lemma_val_list(r, r@.len());
        assert(value::val_list(r, r@.len()) =~= monitor::tail(all, cap as nat));
    }
    r
}

fn channels_of(state: &Val) -> (r: Option<&Vec<Val>>)
    ensures
        match r {
            Some(l) => kept_channels(state@) == value::val_list(*l, l@.len()),
            None => kept_channels(state@).len() == 0,
        },
{
    match state {
        Val::List(l) => if is_nested(l) {
            Some(l)
        } else {
            None
        },
        Val::Vector(l) => if is_nested(l) {
            Some(l)
        } else {
            None
        },
        _ => None,
    }
}

fn push_channels(state: &Val, chans: &Vec<Val>, cap: u64) -> (r: Val)
    requires
        nested(value::val_list(*chans, chans@.len())),
    ensures
        r@ == ValView::Vector(
            Seq::new(
                chans@.len(),
                |c: int|
                    ValView::Vector(
                        extended(
                            history(kept_channel(state@, c)),
                            value::val_list(*chans, chans@.len())[c],
                            cap as nat,
                        ),
                    ),
            ),
        ),
{
    let old = channels_of(state);
    let ghost cv = value::val_list(*chans, chans@.len());
    proof {
        value::lemma_val_list(*chans, chans@.len());
    }
    let mut out: Vec<Val> = Vec::new();
    let mut c: usize = 0;
    while c < chans.len()
        invariant
            cv == value::val_list(*chans, chans@.len()),
            cv.len() == chans@.len(),
            forall|j: int| 0 <= j < cv.len() ==> #[trigger] cv[j] == value::val_view(chans@[j]),
            match old {
                Some(l) => kept_channels(state@) == value::val_list(*l, l@.len()),
                None => kept_channels(state@).len() == 0,
            },
            c <= chans@.len(),
            out@.len() == c,
            forall|j: int|
                0 <= j < c ==> value::val_view(#[trigger] out@[j]) == ValView::Vector(
                    extended(history(kept_channel(state@, j)), cv[j], cap as nat),
                ),
        decreases chans@.len() - c,
    {
        let prior: Option<&Val> = match old {
            Some(l) => {
                proof {
                    value::lemma_val_list(*l, l@.len());
                }
                if c < l.len() {
                    Some(&l[c])
                } else {
                    None
                }
            },
            None => None,
        };
        assert(monitor::state_view(prior) == kept_channel(state@, c as int));
        let h = history_of(prior);
        let next = push_capped(&h, &chans[c], cap);
        let v = Val::Vector(next);
        assert(value::val_view(v) == ValView::Vector(
            extended(history(kept_channel(state@, c as int)), cv[c as int], cap as nat),
        ));
        out.push(v);
        c = c + 1;
    }
    proof {
        value::lemma_val_list(out, out@.len());
        assert(value::val_list(out, out@.len()) =~= Seq::new(
            chans@.len(),
            |c: int|
                ValView::Vector(extended(history(kept_channel(state@, c)), cv[c], cap as nat)),
        ));
    }
    Val::Vector(out)
}

/// The most samples that a history holds, for the capacity that a plot asks for.
pub open spec fn cap_of(cap: i64) -> nat {
    if cap > 0 {
        cap as nat
    } else {
        0
    }
}

/// Pushes a value onto the state of a plot in [`PlotMode::Scope`]. The history takes the
/// shape of the value: channels where it holds channels, else flat.
pub fn plot_push(state: &Val, v: &Val, cap: i64) -> (r: Val)
    ensures
        r@ == pushed(state@, v@, cap_of(cap)),
{
    let cap: u64 = if cap > 0 {
        cap as u64
    } else {
        0
    };
    match v {
        Val::List(l) => if is_nested(l) {
            proof {
                value::lemma_val_list(*l, l@.len());
            }
            let r = push_channels(state, l, cap);
            assert(r@ =~= pushed(state@, v@, cap as nat));
            return r;
        },
        Val::Vector(l) => if is_nested(l) {
            proof {
                value::lemma_val_list(*l, l@.len());
            }
            let r = push_channels(state, l, cap);
            assert(r@ =~= pushed(state@, v@, cap as nat));
            return r;
        },
        _ => {},
    }
    let h = history_of(Some(state));
    let next = push_capped(&h, v, cap);
    Val::Vector(next)
}

/// The series of a state, one per channel.
pub open spec fn channels(v: ValView) -> Seq<Seq<ValView>> {
    match elements(v) {
        Some(s) => if nested(s) {
            s.map_values(|c: ValView| samples(c))
        } else {
            seq![numbers(s)]
        },
        None => seq![samples(v)],
    }
}

/// What a list of series denotes.
pub open spec fn series_views(s: Seq<Vec<Number>>) -> Seq<Seq<ValView>> {
    s.map_values(|c: Vec<Number>| number_vals(c@))
}

/// Splits a state into series: one per element where the elements are lists or vectors,
/// else one.
pub fn split_channels(v: &Val) -> (r: Vec<Vec<Number>>)
    ensures
        series_views(r@) == channels(v@),
{
    let l = match v {
        Val::List(l) => l,
        Val::Vector(l) => l,
        _ => {
            let r = vec![read_samples(v)];
            assert(series_views(r@) =~= seq![samples(v@)]);
            return r;
        },
    };
    if !is_nested(l) {
        let r = vec![list_numbers(l)];
        assert(series_views(r@) =~= seq![numbers(value::val_list(*l, l@.len()))]);
        return r;
    }
    let ghost s = value::val_list(*l, l@.len());
    proof {
        value::lemma_val_list(*l, l@.len());
    }
    let mut r: Vec<Vec<Number>> = Vec::new();
    let mut i: usize = 0;
    while i < l.len()
        invariant
            s == value::val_list(*l, l@.len()),
            s.len() == l@.len(),
            forall|j: int| 0 <= j < s.len() ==> #[trigger] s[j] == value::val_view(l@[j]),
            i <= l@.len(),
            r@.len() == i,
            forall|j: int| 0 <= j < i ==> number_vals((#[trigger] r@[j])@) == samples(s[j]),
        decreases l@.len() - i,
    {
        let c = read_samples(&l[i]);
        r.push(c);
        i = i + 1;
    }
    assert(series_views(r@) =~= s.map_values(|c: ValView| samples(c)));
    r
}

/// A history never holds more than its capacity.
pub proof fn law_history_is_bounded(state: ValView, v: ValView, cap: nat)
    ensures
        match pushed(state, v, cap) {
            ValView::Vector(s) => (!(elements(v) is Some && nested(elements(v)->0)) ==> s.len()
                <= cap) && (elements(v) is Some && nested(elements(v)->0) ==> forall|c: int|
                0 <= c < s.len() ==> match #[trigger] s[c] {
                    ValView::Vector(h) => h.len() <= cap,
                    _ => false,
                }),
            _ => false,
        },
{
}

/// A flat history that is pushed a flat value is what it was, the value's samples behind
/// it, as far as the capacity goes.
pub proof fn law_flat_history_scrolls(h: Seq<ValView>, v: ValView, cap: nat)
    requires
        !nested(h),
        !(elements(v) is Some && nested(elements(v)->0)),
    ensures
        pushed(ValView::Vector(h), v, cap) == ValView::Vector(monitor::tail(h + samples(v), cap)),
{
}

/// The history follows the shape of what comes in: channels that come into a flat
/// history leave nothing of it, and a flat value that comes into channels leaves nothing
/// of them.
pub proof fn law_shape_switch_drops_history(h: Seq<ValView>, v: ValView, cap: nat)
    requires
        elements(v) is Some && nested(elements(v)->0) <==> !nested(h),
    ensures
        pushed(ValView::Vector(h), v, cap) == pushed(ValView::Vector(Seq::empty()), v, cap),
{
    assert(!nested(Seq::<ValView>::empty()));
    if nested(h) {
        assert(history(Some(ValView::Vector(h))) =~= history(
            Some(ValView::Vector(Seq::<ValView>::empty())),
        ));
    } else {
        let a = pushed(ValView::Vector(h), v, cap);
        let b = pushed(ValView::Vector(Seq::empty()), v, cap);
        assert forall|c: int| kept_channel(ValView::Vector(h), c) == kept_channel(
            ValView::Vector(Seq::empty()),
            c,
        ) by {}
        assert(a->Vector_0 =~= b->Vector_0);
    }
}

/// The expression of a plot, given what its input is connected to.
pub open spec fn plot_expr(mode: PlotMode, capacity: u32, val: Option<Seq<char>>) -> Seq<char> {
    match val {
        Some(val) => match mode {
            PlotMode::Scope => "(begin (set! state (plot-push state "@ + val + " "@ + text::dec(
                capacity as nat,
            ) + ")) "@ + val + ")"@,
            PlotMode::Signal => "(begin (set! state "@ + val + ") "@ + val + ")"@,
        },
        None => "(begin state)"@,
    }
}

/// A change that the inspector makes.
#[derive(Clone, Copy, Debug)]
pub enum Edit {
    Mode(PlotMode),
    Style(PlotStyle),
    Capacity(i32),
    Margin(bool),
    Color([u8; 4]),
    /// Follows the theme's colour again.
    ThemeColor,
    YMin(Option<Float>),
    YMax(Option<Float>),
    Grid(bool),
    Axes(bool),
    Interactive(bool),
    /// The body was resized.
    Size(u16, u16),
}

/// An end of the vertical range.
#[derive(Clone, Copy, Debug, PartialEq, Eq, Structural)]
pub enum End {
    Min,
    Max,
}

impl End {
    /// The change that puts a bound at this end, or takes it away.
    pub open spec fn edit_of(self, bound: Option<Float>) -> Edit {
        match self {
            End::Min => Edit::YMin(bound),
            End::Max => Edit::YMax(bound),
        }
    }

    /// The change that puts a bound at this end, or takes it away.
    pub fn edit(self, bound: Option<Float>) -> (r: Edit)
        ensures
            r == self.edit_of(bound),
    {
        match self {
            End::Min => Edit::YMin(bound),
            End::Max => Edit::YMax(bound),
        }
    }
}

/// A capacity within its bounds.
pub open spec fn clamped(c: i32) -> u32 {
    if c < 1 {
        1
    } else if c > MAX_CAPACITY {
        MAX_CAPACITY
    } else {
        c as u32
    }
}

/// The plot after a change.
pub open spec fn edited(p: Plot, e: Edit) -> Plot {
    match e {
        Edit::Mode(mode) => Plot { mode, ..p },
        Edit::Style(style) => Plot { style, ..p },
        Edit::Capacity(c) => Plot { capacity: clamped(c), ..p },
        Edit::Margin(margin) => Plot { margin, ..p },
        Edit::Color(c) => Plot { color: Some(c), ..p },
        Edit::ThemeColor => Plot { color: None, ..p },
        Edit::YMin(y_min) => Plot { y_min, ..p },
        Edit::YMax(y_max) => Plot { y_max, ..p },
        Edit::Grid(show_grid) => Plot { show_grid, ..p },
        Edit::Axes(show_axes) => Plot { show_axes, ..p },
        Edit::Interactive(interactive) => Plot { interactive, ..p },
        Edit::Size(width, height) => Plot { width, height, ..p },
    }
}

/// What an inspector row shows and lets change.
#[derive(Debug)]
#[allow(inconsistent_fields)]
pub enum Widget {
    /// A text.
    Text(String),
    /// One of several choices.
    Choice { label: &'static str, hint: &'static str, on: bool, edit: Edit },
    /// A number within bounds.
    Count { value: u32, min: u32, max: u32, hint: &'static str },
    /// A flag.
    Check { label: &'static str, hint: &'static str, on: bool, edit: Edit },
    /// A colour; that of the theme if none.
    Color { color: Option<[u8; 4]>, hint: &'static str },
    /// A button.
    Button { label: &'static str, hint: &'static str, edit: Edit },
    /// An optional bound.
    Bound { hint: &'static str, value: Option<Float>, end: End },
}

/// A row of the inspector.
#[derive(Debug)]
pub struct Row {
    pub label: &'static str,
    pub widgets: Vec<Widget>,
}

/// The sum of the lengths.
pub open spec fn total(lens: Seq<usize>) -> nat
    decreases lens.len(),
{
    if lens.len() == 0 {
        0
    } else {
        total(lens.drop_last()) + lens.last() as nat
    }
}

/// What the inspector says of the series: how many samples, in how many channels.
pub open spec fn summary_of(lens: Seq<usize>) -> Seq<char> {
    if lens.len() > 1 {
        text::dec(total(lens)) + " samples \u{b7} "@ + text::dec(lens.len()) + " channels"@
    } else {
        text::dec(total(lens)) + " samples"@
    }
}

/// What the inspector says of the series, given the channels' lengths.
pub fn summary(lens: &Vec<usize>) -> (r: String)
    requires
        total(lens@) <= usize::MAX,
    ensures
        r@ == summary_of(lens@),
{
    let mut n: usize = 0;
    let mut i: usize = 0;
    assert(lens@.take(0) =~= Seq::empty());
    while i < lens.len()
        invariant
            i <= lens@.len(),
            total(lens@) <= usize::MAX,
            n == total(lens@.take(i as int)),
        decreases lens@.len() - i,
    {
        proof {
            assert(lens@.take(i + 1).drop_last() =~= lens@.take(i as int));
            lemma_total_prefix(lens@, i + 1);
        }
        n = n + lens[i];
        i = i + 1;
    }
    assert(lens@.take(i as int) =~= lens@);
    let mut s = text::dec_string(n);
    if lens.len() > 1 {
        s.append(" samples \u{b7} ");
        s.append(text::dec_string(lens.len()).as_str());
        s.append(" channels");
    } else {
        s.append(" samples");
    }
    s
}

proof fn lemma_total_prefix(s: Seq<usize>, n: int)
    requires
        0 <= n <= s.len(),
    ensures
        total(s.take(n)) <= total(s),
    decreases s.len(),
{
    if n == s.len() {
        assert(s.take(n) =~= s);
    } else {
        lemma_total_prefix(s.drop_last(), n);
        assert(s.drop_last().take(n) =~= s.take(n));
    }
}

impl Plot {
    /// The node's expression, given what its input is connected to: it passes the input
    /// on, and keeps what is to be plotted.
    pub fn expr(&self, val: Option<&str>) -> (r: String)
        ensures
            r@ == plot_expr(
                self.mode,
                self.capacity,
                match val {
                    Some(v) => Some(v@),
                    None => None,
                },
            ),
    {
        match val {
            Some(v) => match self.mode {
                PlotMode::Scope => {
                    let mut s = String::from_str("(begin (set! state (plot-push state ");
                    s.append(v);
                    s.append(" ");
                    s.append(text::dec_string(self.capacity as usize).as_str());
                    s.append(")) ");
                    s.append(v);
                    s.append(")");
                    s
                },
                PlotMode::Signal => {
                    let mut s = String::from_str("(begin (set! state ");
                    s.append(v);
                    s.append(") ");
                    s.append(v);
                    s.append(")");
                    s
                },
            },
            None => String::from_str("(begin state)"),
        }
    }

    /// Makes a change.
    pub fn apply(&mut self, e: Edit)
        ensures
            *final(self) == edited(*old(self), e),
    {
        match e {
            Edit::Mode(mode) => {
                self.mode = mode;
            },
            Edit::Style(style) => {
                self.style = style;
            },
            Edit::Capacity(c) => {
                self.capacity = if c < 1 {
                    1
                } else if c > MAX_CAPACITY as i32 {
                    MAX_CAPACITY
                } else {
                    c as u32
                };
            },
            Edit::Margin(margin) => {
                self.margin = margin;
            },
            Edit::Color(c) => {
                self.color = Some(c);
            },
            Edit::ThemeColor => {
                self.color = None;
            },
            Edit::YMin(y) => {
                self.y_min = y;
            },
            Edit::YMax(y) => {
                self.y_max = y;
            },
            Edit::Grid(on) => {
                self.show_grid = on;
            },
            Edit::Axes(on) => {
                self.show_axes = on;
            },
            Edit::Interactive(on) => {
                self.interactive = on;
            },
            Edit::Size(w, h) => {
                self.width = w;
                self.height = h;
            },
        }
    }

    /// Takes in the rendered size, rounded. It becomes the node's own only once a drag
    /// of the corner has been released. Whether it did.
    pub fn settle(&mut self, released: bool, width: u16, height: u16) -> (changed: bool)
        ensures
            changed == (released && (old(self).width != width || old(self).height != height)),
            *final(self) == (if changed {
                Plot { width, height, ..*old(self) }
            } else {
                *old(self)
            }),
    {
        if released && (self.width != width || self.height != height) {
            self.width = width;
            self.height = height;
            true
        } else {
            false
        }
    }
}

/// What a [`Widget`] denotes.
#[allow(inconsistent_fields)]
pub enum WidgetView {
    Text(Seq<char>),
    Choice { label: Seq<char>, hint: Seq<char>, on: bool, edit: Edit },
    Count { value: u32, min: u32, max: u32, hint: Seq<char> },
    Check { label: Seq<char>, hint: Seq<char>, on: bool, edit: Edit },
    Color { color: Option<[u8; 4]>, hint: Seq<char> },
    Button { label: Seq<char>, hint: Seq<char>, edit: Edit },
    Bound { hint: Seq<char>, value: Option<Float>, end: End },
}

impl View for Widget {
    type V = WidgetView;

    open spec fn view(&self) -> WidgetView {
        match self {
            Widget::Text(s) => WidgetView::Text(s@),
            Widget::Choice { label, hint, on, edit } => WidgetView::Choice {
                label: label@,
                hint: hint@,
                on: *on,
                edit: *edit,
            },
            Widget::Count { value, min, max, hint } => WidgetView::Count {
                value: *value,
                min: *min,
                max: *max,
                hint: hint@,
            },
            Widget::Check { label, hint, on, edit } => WidgetView::Check {
                label: label@,
                hint: hint@,
                on: *on,
                edit: *edit,
            },
            Widget::Color { color, hint } => WidgetView::Color { color: *color, hint: hint@ },
            Widget::Button { label, hint, edit } => WidgetView::Button {
                label: label@,
                hint: hint@,
                edit: *edit,
            },
            Widget::Bound { hint, value, end } => WidgetView::Bound {
                hint: hint@,
                value: *value,
                end: *end,
            },
        }
    }
}

/// What a [`Row`] denotes.
#[verifier::ext_equal]
pub struct RowView {
    pub label: Seq<char>,
    pub widgets: Seq<WidgetView>,
}

/// What a list of widgets denotes.
pub open spec fn widget_views(s: Seq<Widget>) -> Seq<WidgetView> {
    s.map_values(|w: Widget| w@)
}

impl View for Row {
    type V = RowView;

    open spec fn view(&self) -> RowView {
        RowView { label: self.label@, widgets: widget_views(self.widgets@) }
    }
}

/// What a list of rows denotes.
pub open spec fn row_views(s: Seq<Row>) -> Seq<RowView> {
    s.map_values(|r: Row| r@)
}

/// The row that says what is kept.
pub open spec fn state_row(lens: Seq<usize>) -> RowView {
    RowView { label: "state"@, widgets: seq![WidgetView::Text(summary_of(lens))] }
}

/// The row of the modes.
pub open spec fn mode_row(p: Plot) -> RowView {
    RowView {
        label: "mode"@,
        widgets: seq![
            WidgetView::Choice {
                label: "scope"@,
                hint: "accumulate a scrolling history"@,
                on: p.mode == PlotMode::Scope,
                edit: Edit::Mode(PlotMode::Scope),
            },
            WidgetView::Choice {
                label: "signal"@,
                hint: "plot the incoming value directly"@,
                on: p.mode == PlotMode::Signal,
                edit: Edit::Mode(PlotMode::Signal),
            },
        ],
    }
}

/// The row of the styles.
pub open spec fn style_row(p: Plot) -> RowView {
    RowView {
        label: "style"@,
        widgets: seq![
            WidgetView::Choice {
                label: "bars"@,
                hint: "draw as contiguous bars"@,
                on: p.style == PlotStyle::Bars,
                edit: Edit::Style(PlotStyle::Bars),
            },
            WidgetView::Choice {
                label: "line"@,
                hint: "draw as a connected line"@,
                on: p.style == PlotStyle::Line,
                edit: Edit::Style(PlotStyle::Line),
            },
        ],
    }
}

/// The row of the capacity.
pub open spec fn capacity_row(p: Plot) -> RowView {
    RowView {
        label: "capacity"@,
        widgets: seq![
            WidgetView::Count {
                value: p.capacity,
                min: 1,
                max: MAX_CAPACITY,
                hint: "max samples retained in scope mode"@,
            },
        ],
    }
}

/// The row of the margin.
pub open spec fn margin_row(p: Plot) -> RowView {
    RowView {
        label: "margin"@,
        widgets: seq![
            WidgetView::Check {
                label: ""@,
                hint: "inset the data within the node frame's margin (rounded corners)"@,
                on: p.margin,
                edit: Edit::Margin(!p.margin),
            },
        ],
    }
}

/// The row of the colour, with a way back to the theme's where one is set.
pub open spec fn colour_row(p: Plot) -> RowView {
    let own = WidgetView::Color { color: p.color, hint: "the line/bar colour"@ };
    RowView {
        label: "colour"@,
        widgets: if p.color is Some {
            seq![
                own,
                WidgetView::Button {
                    label: "theme"@,
                    hint: "follow the theme's strong text colour"@,
                    edit: Edit::ThemeColor,
                },
            ]
        } else {
            seq![own]
        },
    }
}

/// The row of the value axis's bounds.
pub open spec fn range_row(p: Plot) -> RowView {
    RowView {
        label: "range"@,
        widgets: seq![
            WidgetView::Bound { hint: "minimum"@, value: p.y_min, end: End::Min },
            WidgetView::Bound { hint: "maximum"@, value: p.y_max, end: End::Max },
        ],
    }
}

/// The row of what is drawn besides the data.
pub open spec fn display_row(p: Plot) -> RowView {
    RowView {
        label: "display"@,
        widgets: seq![
            WidgetView::Check {
                label: "grid"@,
                hint: "draw the background grid"@,
                on: p.show_grid,
                edit: Edit::Grid(!p.show_grid),
            },
            WidgetView::Check {
                label: "axes"@,
                hint: "draw the axes"@,
                on: p.show_axes,
                edit: Edit::Axes(!p.show_axes),
            },
            WidgetView::Check {
                label: "interactive"@,
                hint: "show a crosshair and value readout on hover"@,
                on: p.interactive,
                edit: Edit::Interactive(!p.interactive),
            },
        ],
    }
}

/// The rows of a plot's inspector.
pub open spec fn rows_of(p: Plot, lens: Seq<usize>) -> Seq<RowView> {
    seq![
        state_row(lens),
        mode_row(p),
        style_row(p),
        capacity_row(p),
        margin_row(p),
        colour_row(p),
        range_row(p),
        display_row(p),
    ]
}

/// A row of the given widgets.
fn row(label: &'static str, widgets: Vec<Widget>) -> (r: Row)
    ensures
        r@ == (RowView { label: label@, widgets: widget_views(widgets@) }),
{
    Row { label, widgets }
}

impl Plot {
    fn mode_choices(&self) -> (r: Row)
        ensures
            r@ == mode_row(*self),
    {
        let ws = vec![
            Widget::Choice {
                label: "scope",
                hint: "accumulate a scrolling history",
                on: self.mode == PlotMode::Scope,
                edit: Edit::Mode(PlotMode::Scope),
            },
            Widget::Choice {
                label: "signal",
                hint: "plot the incoming value directly",
                on: self.mode == PlotMode::Signal,
                edit: Edit::Mode(PlotMode::Signal),
            },
        ];
        assert(widget_views(ws@) =~= mode_row(*self).widgets);
        row("mode", ws)
    }

    fn style_choices(&self) -> (r: Row)
        ensures
            r@ == style_row(*self),
    {
        let ws = vec![
            Widget::Choice {
                label: "bars",
                hint: "draw as contiguous bars",
                on: self.style == PlotStyle::Bars,
                edit: Edit::Style(PlotStyle::Bars),
            },
            Widget::Choice {
                label: "line",
                hint: "draw as a connected line",
                on: self.style == PlotStyle::Line,
                edit: Edit::Style(PlotStyle::Line),
            },
        ];
        assert(widget_views(ws@) =~= style_row(*self).widgets);
        row("style", ws)
    }

    fn capacity_count(&self) -> (r: Row)
        ensures
            r@ == capacity_row(*self),
    {
        let ws = vec![
            Widget::Count {
                value: self.capacity,
                min: 1,
                max: MAX_CAPACITY,
                hint: "max samples retained in scope mode",
            },
        ];
        assert(widget_views(ws@) =~= capacity_row(*self).widgets);
        row("capacity", ws)
    }

    fn margin_check(&self) -> (r: Row)
        ensures
            r@ == margin_row(*self),
    {
        let ws = vec![
            Widget::Check {
                label: "",
                hint: "inset the data within the node frame's margin (rounded corners)",
                on: self.margin,
                edit: Edit::Margin(!self.margin),
            },
        ];
        assert(widget_views(ws@) =~= margin_row(*self).widgets);
        row("margin", ws)
    }

    fn colour_button(&self) -> (r: Row)
        ensures
            r@ == colour_row(*self),
    {
        let mut ws: Vec<Widget> = Vec::new();
        ws.push(Widget::Color { color: self.color, hint: "the line/bar colour" });
        if self.color.is_some() {
            ws.push(
                Widget::Button {
                    label: "theme",
                    hint: "follow the theme's strong text colour",
                    edit: Edit::ThemeColor,
                },
            );
        }
        assert(widget_views(ws@) =~= colour_row(*self).widgets);
        row("colour", ws)
    }

    fn range_bounds(&self) -> (r: Row)
        ensures
            r@ == range_row(*self),
    {
        let ws = vec![
            Widget::Bound { hint: "minimum", value: self.y_min, end: End::Min },
            Widget::Bound { hint: "maximum", value: self.y_max, end: End::Max },
        ];
        assert(widget_views(ws@) =~= range_row(*self).widgets);
        row("range", ws)
    }

    fn display_checks(&self) -> (r: Row)
        ensures
            r@ == display_row(*self),
    {
        let ws = vec![
            Widget::Check {
                label: "grid",
                hint: "draw the background grid",
                on: self.show_grid,
                edit: Edit::Grid(!self.show_grid),
            },
            Widget::Check {
                label: "axes",
                hint: "draw the axes",
                on: self.show_axes,
                edit: Edit::Axes(!self.show_axes),
            },
            Widget::Check {
                label: "interactive",
                hint: "show a crosshair and value readout on hover",
                on: self.interactive,
                edit: Edit::Interactive(!self.interactive),
            },
        ];
        assert(widget_views(ws@) =~= display_row(*self).widgets);
        row("display", ws)
    }

    /// The rows of the node's inspector, given the lengths of its channels.
    pub fn inspector_rows(&self, lens: &Vec<usize>) -> (r: Vec<Row>)
        requires
            total(lens@) <= usize::MAX,
        ensures
            row_views(r@) == rows_of(*self, lens@),
    {
        let ws = vec![Widget::Text(summary(lens))];
        assert(widget_views(ws@) =~= state_row(lens@).widgets);
        let first = row("state", ws);
        let r = vec![
            first,
            self.mode_choices(),
            self.style_choices(),
            self.capacity_count(),
            self.margin_check(),
            self.colour_button(),
            self.range_bounds(),
            self.display_checks(),
        ];
        assert(row_views(r@) =~= rows_of(*self, lens@));
        r
    }
}

/// Whatever capacity is asked for, a plot keeps at least one sample and not more than
/// the largest capacity.
pub proof fn law_edited_capacity_is_bounded(p: Plot, c: i32)
    ensures
        1 <= edited(p, Edit::Capacity(c)).capacity <= MAX_CAPACITY,
        1 <= c <= MAX_CAPACITY ==> edited(p, Edit::Capacity(c)).capacity == c,
{
}

/// What is said of a plot's sockets.
pub open spec fn plot_doc(kind: SocketKind) -> DocView {
    match kind {
        SocketKind::Input => DocView {
            ty: "number or list"@,
            description: Some(
                "scope: a number (or list) appended to the history; signal: the value to plot"@,
            ),
        },
        SocketKind::Output => DocView {
            ty: "any"@,
            description: Some("the input value, unchanged"@),
        },
    }
}

impl Plot {
    /// The node's name.
    pub fn name(&self) -> (r: &'static str)
        ensures
            r@ == "plot"@,
    {
        "plot"
    }

    /// What the node does.
    pub fn description(&self) -> (r: &'static str)
        ensures
            r@ == "Plot incoming values as a scrolling scope or a signal/array"@,
    {
        "Plot incoming values as a scrolling scope or a signal/array"
    }

    /// What is said of a socket of the node.
    pub fn socket_doc(&self, kind: SocketKind) -> (r: SocketDoc)
        ensures
            r@ == plot_doc(kind),
    {
        match kind {
            SocketKind::Input => SocketDoc::ty("number or list").with_description(
                String::from_str(
                    "scope: a number (or list) appended to the history; signal: the value to plot",
                ),
            ),
            SocketKind::Output => SocketDoc::ty("any").with_description(
                String::from_str("the input value, unchanged"),
            ),
        }
    }

    /// The state without its history.
    pub fn cleared(&self) -> (r: Val)
        ensures
            r@ == ValView::Vector(Seq::empty()),
    {
        let none: Vec<Val> = Vec::new();
        let r = Val::Vector(none);
        assert(r@ == ValView::Vector(Seq::empty()));
        r
    }
}

/// A widget does what it shows. A choice that is made is on and the plot is as it was where
/// it was on already, a check that is made shows the opposite, a count shows the capacity,
/// a bound that is set shows what it is set to, and the button for the theme's colour
/// leaves no colour of the plot's own. No other row changes with any of them.
#[verifier::spinoff_prover]
#[verifier::rlimit(60)]
pub proof fn law_widgets_do_what_they_show(
    p: Plot,
    lens: Seq<usize>,
    i: int,
    j: int,
    y: Option<Float>,
    other: int,
)
    requires
        0 <= i < rows_of(p, lens).len(),
        0 <= j < rows_of(p, lens)[i].widgets.len(),
        0 <= other < rows_of(p, lens).len(),
        other != i,
    ensures
        match rows_of(p, lens)[i].widgets[j] {
            WidgetView::Choice { on, edit, label, .. } => {
                let after = rows_of(edited(p, edit), lens);
                &&& after[i].widgets[j] is Choice
                &&& after[i].widgets[j]->Choice_on
                &&& after[i].widgets[j]->Choice_label == label
                &&& on ==> edited(p, edit) == p
                &&& !on ==> edited(p, edit) != p
                &&& after[other] == rows_of(p, lens)[other]
            },
            WidgetView::Check { on, edit, label, .. } => {
                let after = rows_of(edited(p, edit), lens);
                &&& after[i].widgets[j] is Check
                &&& after[i].widgets[j]->Check_on == !on
                &&& after[i].widgets[j]->Check_label == label
                &&& after[other] == rows_of(p, lens)[other]
            },
            WidgetView::Bound { value, end, .. } => {
                let after = rows_of(edited(p, end.edit_of(y)), lens);
                &&& after[i].widgets[j] is Bound
                &&& after[i].widgets[j]->Bound_value == y
                &&& after[i].widgets[1 - j] == rows_of(p, lens)[i].widgets[1 - j]
                &&& edited(p, end.edit_of(value)) == p
                &&& after[other] == rows_of(p, lens)[other]
            },
            WidgetView::Button { edit, .. } => {
                let after = rows_of(edited(p, edit), lens);
                &&& edited(p, edit).color is None
                &&& after[other] == rows_of(p, lens)[other]
            },
            WidgetView::Count { value, min, max, .. } => {
                &&& value == p.capacity
                &&& min == 1
                &&& max == MAX_CAPACITY
            },
            WidgetView::Color { color, .. } => color == p.color,
            WidgetView::Text(s) => s == summary_of(lens),
        },
{
    lemma_rows(p, lens);
    match rows_of(p, lens)[i].widgets[j] {
        WidgetView::Choice { edit, .. } => {
            lemma_rows(edited(p, edit), lens);
        },
        WidgetView::Check { edit, .. } => {
            lemma_rows(edited(p, edit), lens);
        },
        WidgetView::Bound { end, .. } => {
            lemma_rows(edited(p, end.edit_of(y)), lens);
        },
        WidgetView::Button { edit, .. } => {
            lemma_rows(edited(p, edit), lens);
        },
        _ => {},
    }
}

proof fn lemma_rows(p: Plot, lens: Seq<usize>)
    ensures
        rows_of(p, lens).len() == 8,
        rows_of(p, lens)[0] == state_row(lens),
        rows_of(p, lens)[1] == mode_row(p),
        rows_of(p, lens)[2] == style_row(p),
        rows_of(p, lens)[3] == capacity_row(p),
        rows_of(p, lens)[4] == margin_row(p),
        rows_of(p, lens)[5] == colour_row(p),
        rows_of(p, lens)[6] == range_row(p),
        rows_of(p, lens)[7] == display_row(p),
{
}

/// A value is plotted as one series per channel where it holds channels, each with the
/// samples of its own channel, and as a single series where it holds none.
pub proof fn law_each_channel_is_a_series(s: Seq<ValView>, c: int, x: Number)
    ensures
        nested(s) ==> {
            &&& channels(ValView::List(s)).len() == s.len()
            &&& channels(ValView::Vector(s)) == channels(ValView::List(s))
            &&& 0 <= c < s.len() ==> channels(ValView::List(s))[c] == samples(s[c])
        },
        !nested(s) ==> {
            &&& channels(ValView::List(s)) == seq![numbers(s)]
            &&& channels(ValView::Vector(s)) == seq![numbers(s)]
        },
        channels(ValView::Num(x)) == seq![seq![ValView::Num(x)]],
{
}

/// A summary tells the number of samples of all channels together.
pub proof fn law_summary_counts_every_sample(a: Seq<usize>, b: Seq<usize>, n: usize)
    ensures
        total(a + b) == total(a) + total(b),
        total(seq![n]) == n,
        summary_of(a).len() > text::dec(total(a)).len(),
        summary_of(a).take(text::dec(total(a)).len() as int) == text::dec(total(a)),
    decreases b.len(),
{
    reveal_strlit(" samples");
    reveal_strlit(" samples \u{b7} ");
    reveal_strlit(" channels");
    assert(seq![n].drop_last() =~= Seq::empty());
    assert(total(Seq::empty()) == 0);
    assert(summary_of(a).take(text::dec(total(a)).len() as int) =~= text::dec(total(a)));
    if b.len() == 0 {
        assert(a + b =~= a);
    } else {
        law_summary_counts_every_sample(a, b.drop_last(), n);
        assert((a + b).drop_last() =~= a + b.drop_last());
        assert((a + b).last() == b.last());
    }
}

/// A plot gives what comes in back last, and its state where nothing comes in. In a history
/// it is told its capacity, and the two modes are told apart.
pub proof fn law_plot_expression_ends_in_its_input(capacity: u32, other: u32, val: Seq<char>)
    ensures
        ({
            let n = val.len() as int;
            let scope = plot_expr(PlotMode::Scope, capacity, Some(val));
            let signal = plot_expr(PlotMode::Signal, capacity, Some(val));
            &&& scope.len() > n && scope.last() == ')'
            &&& scope.subrange(scope.len() - 1 - n, scope.len() - 1) == val
            &&& signal.len() > n && signal.last() == ')'
            &&& signal.subrange(signal.len() - 1 - n, signal.len() - 1) == val
            &&& signal == plot_expr(PlotMode::Signal, other, Some(val))
            &&& scope == plot_expr(PlotMode::Scope, other, Some(val)) ==> capacity == other
            &&& plot_expr(PlotMode::Scope, capacity, None) == plot_expr(
                PlotMode::Signal,
                other,
                None,
            )
        }),
{
    reveal_strlit("(begin (set! state (plot-push state ");
    reveal_strlit(" ");
    reveal_strlit(")) ");
    reveal_strlit(")");
    reveal_strlit("(begin (set! state ");
    reveal_strlit(") ");
    let n = val.len() as int;
    let scope = plot_expr(PlotMode::Scope, capacity, Some(val));
    let signal = plot_expr(PlotMode::Signal, capacity, Some(val));
    assert(scope.subrange(scope.len() - 1 - n, scope.len() - 1) =~= val);
    assert(signal.subrange(signal.len() - 1 - n, signal.len() - 1) =~= val);
    let again = plot_expr(PlotMode::Scope, other, Some(val));
    if scope == again {
        let head = "(begin (set! state (plot-push state "@ + val + " "@;
        let end = ")) "@ + val + ")"@;
        let h = head.len() as int;
        let e = end.len() as int;
        assert(scope =~= head + text::dec(capacity as nat) + end);
        assert(again =~= head + text::dec(other as nat) + end);
        assert(scope.subrange(h, scope.len() - e) =~= text::dec(capacity as nat));
        assert(again.subrange(h, again.len() - e) =~= text::dec(other as nat));
        text::lemma_dec_injective(capacity as nat, other as nat);
    }
}

} // verus!
