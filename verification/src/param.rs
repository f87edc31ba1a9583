//! Parameters of DSP nodes: their names within a synth definition, and their state.
//!
//! A param's value lives in the node's state, so editing it leaves the graph's address
//! alone. Its lag lives in the node, since it is structural.

use crate::dsp::{self, Float, Param, ParamView, Rate};
use crate::hash::{self, Hasher};
use crate::text;
use crate::value::{self, Number, Val, ValView};
use vstd::prelude::*;
use vstd::string::*;

verus! {

/// The decimal digits of each index of a path.
pub open spec fn path_texts(path: Seq<usize>) -> Seq<Seq<char>> {
    path.map_values(|i: usize| text::dec(i as nat))
}

/// The name, within a synthdef, of the param `param` of the node at `path`: the
/// path's indices with dashes between them, a slash and the param's own name.
pub open spec fn name_of(path: Seq<usize>, param: Seq<char>) -> Seq<char> {
    text::join(path_texts(path), "-"@) + "/"@ + param
}

/// A synthdef parameter name unique to a node's parameter within a synthdef,
/// such as `2/freq` for the `freq` param of the node at path `[2]`.
pub fn param_name(path: &Vec<usize>, param: &str) -> (r: String)
    ensures
        r@ == name_of(path@, param@),
{
    let mut parts: Vec<String> = Vec::new();
    let mut i: usize = 0;
    while i < path.len()
        invariant
            i <= path@.len(),
            parts@.len() == i,
            forall|j: int| 0 <= j < i ==> #[trigger] parts@[j]@ == text::dec(path@[j] as nat),
        decreases path@.len() - i,
    {
        parts.push(text::dec_string(path[i]));
        i = i + 1;
    }
    assert(text::texts(parts@) =~= path_texts(path@));
    let mut s = text::join_strings(&parts, "-");
    s.append("/");
    s.append(param);
    s
}

/// A control param that is smoothed where the lag is greater than zero.
pub open spec fn param_of(name: Seq<char>, default: Float, lag: Float) -> ParamView {
    ParamView {
        name,
        default,
        rate: Rate::Control,
        is_trig: false,
        lag: if dsp::float_positive(lag) {
            Some(lag)
        } else {
            None
        },
    }
}

/// The control param named `name` with the given default value and optional
/// one-pole smoothing `lag` (seconds, `0.0` for a plain control).
pub fn plyphon_param(name: String, default: Float, lag: Float) -> (r: Param)
    ensures
        r@ == param_of(name@, default, lag),
{
    Param {
        name,
        default,
        rate: Rate::Control,
        is_trig: false,
        lag: if dsp::is_positive(lag) {
            Some(lag)
        } else {
            None
        },
    }
}

/// Params of different nodes, or of different names, are named apart.
pub proof fn law_param_names_are_unique(
    a: Seq<usize>,
    p: Seq<char>,
    b: Seq<usize>,
    q: Seq<char>,
)
    requires
        name_of(a, p) == name_of(b, q),
    ensures
        a == b,
        p == q,
{
    reveal_strlit("-");
    reveal_strlit("/");
    assert("-"@ =~= seq!['-']);
    assert("/"@ =~= seq!['/']);
    let x = text::join(path_texts(a), "-"@);
    let y = text::join(path_texts(b), "-"@);
    lemma_path_text(path_texts(a), a);
    lemma_path_text(path_texts(b), b);
    let u = name_of(a, p);
    assert(u[x.len() as int] == '/');
    assert(u[y.len() as int] == '/');
    if x.len() < y.len() {
        assert(y[x.len() as int] == '/');
    } else if y.len() < x.len() {
        assert(x[y.len() as int] == '/');
    }
    assert(u.take(x.len() as int) =~= x);
    assert(u.take(y.len() as int) =~= y);
    assert(u.skip(x.len() as int + 1) =~= p);
    assert(u.skip(y.len() as int + 1) =~= q);
    let s = path_texts(a);
    let t = path_texts(b);
    assert forall|i: int| 0 <= i < s.len() implies (#[trigger] s[i]).len() > 0 && !s[i].contains(
        '-',
    ) by {
        lemma_no_dash(a[i] as nat);
    }
    assert forall|i: int| 0 <= i < t.len() implies (#[trigger] t[i]).len() > 0 && !t[i].contains(
        '-',
    ) by {
        lemma_no_dash(b[i] as nat);
    }
    text::lemma_join_injective(s, t, '-');
    assert forall|i: int| 0 <= i < a.len() implies a[i] == b[i] by {
        assert(s[i] == t[i]);
        text::lemma_dec_injective(a[i] as nat, b[i] as nat);
    }
    assert(a.len() == s.len() && b.len() == t.len());
    assert(a =~= b);
}

proof fn lemma_no_dash(n: nat)
    ensures
        text::dec(n).len() > 0,
        !text::dec(n).contains('-'),
        !text::dec(n).contains('/'),
{
    text::lemma_dec_digits(n);
    let d = text::dec(n);
    assert forall|i: int| 0 <= i < d.len() implies d[i] != '-' && d[i] != '/' by {
        assert(text::is_digit(d[i]));
    }
}

proof fn lemma_path_text(s: Seq<Seq<char>>, path: Seq<usize>)
    requires
        s == path_texts(path),
    ensures
        !text::join(s, seq!['-']).contains('/'),
    decreases path.len(),
{
    let u = text::join(s, seq!['-']);
    if path.len() > 0 {
        let init = path.drop_last();
        assert(s.drop_last() =~= path_texts(init));
        lemma_path_text(s.drop_last(), init);
        lemma_no_dash(path.last() as nat);
        let v = text::join(s.drop_last(), seq!['-']);
        let x = s.last();
        assert(x == text::dec(path.last() as nat));
        if path.len() == 1 {
            assert(s.drop_last() =~= Seq::empty());
            assert(u =~= x);
        } else {
            assert(u =~= v + seq!['-'] + x);
            assert forall|i: int| 0 <= i < u.len() implies u[i] != '/' by {
                if i < v.len() {
                    assert(u[i] == v[i]);
                    assert(v.contains(v[i]));
                } else if i > v.len() {
                    assert(u[i] == x[i - v.len() - 1]);
                    assert(x.contains(x[i - v.len() - 1]));
                }
            }
        }
    }
}

/// The key of a param's current value.
pub const VALUE: &'static str = "value";

/// The key of the updates that a control input has queued.
pub const PENDING: &'static str = "pending";

/// The key of an evaluation's firing time.
pub const TIME: &'static str = "time";

/// The expression that queues and sets `val`, and evaluates to `output`.
pub open spec fn queueing(val: Seq<char>, args: Seq<char>, output: Seq<char>) -> Seq<char> {
    "(begin (if (number? "@ + val + ") (set! state (hash-insert (hash-insert state 'value "@ + val
        + ") 'pending (cons (list (hash-ref "@ + args + " 'time) "@ + val
        + ") (hash-ref state 'pending)))) void) "@ + output + ")"@
}

/// The expression of a node with one control param.
pub open spec fn control_expr(val: Option<Seq<char>>, args: Seq<char>, output: Seq<char>) -> Seq<char> {
    match val {
        Some(val) => queueing(val, args, output),
        None => "(begin "@ + output + ")"@,
    }
}

/// The input at an index, if it is there and connected.
pub open spec fn connected(inputs: Seq<Option<String>>, ix: int) -> Option<Seq<char>> {
    if 0 <= ix < inputs.len() {
        match inputs[ix] {
            Some(s) => Some(s@),
            None => None,
        }
    } else {
        None
    }
}

/// The expression of a node with one control param: where the control input is
/// connected, a number that comes in is queued with the evaluation's firing time, and
/// becomes the param's value. It always evaluates to `output`. `args` is the name of
/// the evaluation's arguments.
pub fn control_input_expr(
    inputs: &Vec<Option<String>>,
    args: &str,
    control_ix: usize,
    output: &str,
) -> (r: String)
    ensures
        r@ == control_expr(connected(inputs@, control_ix as int), args@, output@),
{
    if control_ix < inputs.len() {
        if let Some(val) = &inputs[control_ix] {
            let val = val.as_str();
            let mut s = String::from_str("(begin (if (number? ");
            s.append(val);
            s.append(") (set! state (hash-insert (hash-insert state 'value ");
            s.append(val);
            s.append(") 'pending (cons (list (hash-ref ");
            s.append(args);
            s.append(" 'time) ");
            s.append(val);
            s.append(") (hash-ref state 'pending)))) void) ");
            s.append(output);
            s.append(")");
            return s;
        }
    }
    let mut s = String::from_str("(begin ");
    s.append(output);
    s.append(")");
    s
}

/// The state of a param with the given value and no queue.
pub open spec fn fresh_state(v: Number) -> ValView {
    ValView::Record(
        seq![(VALUE@, ValView::Num(v)), (PENDING@, ValView::List(Seq::empty()))],
    )
}

/// The state of a param with the given value and nothing queued.
pub fn param_state(default: Number) -> (r: Val)
    ensures
        r@ == fresh_state(default),
{
    let none: Vec<Val> = Vec::new();
    let mut m: Vec<(String, Val)> = Vec::new();
    m.push((String::from_str(VALUE), Val::Num(default)));
    m.push((String::from_str(PENDING), Val::List(none)));
    proof {
        value::lemma_val_map(m, m@.len());
        assert(value::val_map(m, m@.len()) =~= seq![
            (VALUE@, ValView::Num(default)),
            (PENDING@, ValView::List(Seq::empty())),
        ]);
    }
    Val::Record(m)
}

/// The current value of a param. A bare number counts as the value.
pub open spec fn value_of(state: ValView) -> Option<Number> {
    match state {
        ValView::Record(m) => match value::found(m, VALUE@) {
            Some(v) => value::number_of(v),
            None => None,
        },
        _ => value::number_of(state),
    }
}

/// The current value of a param. A bare number counts as the value.
pub fn param_value(state: &Val) -> (r: Option<Number>)
    ensures
        r == value_of(state@),
{
    match state {
        Val::Record(m) => match value::lookup(m, VALUE) {
            Some(v) => value::number(v),
            None => None,
        },
        _ => value::number(state),
    }
}

/// The queue of a param, the latest update first.
pub open spec fn queue_of(state: ValView) -> Seq<ValView> {
    match state {
        ValView::Record(m) => match value::found(m, PENDING@) {
            Some(ValView::List(l)) => l,
            _ => Seq::empty(),
        },
        _ => Seq::empty(),
    }
}

/// How many updates are queued; none of them is taken out.
pub fn pending_len(state: &Val) -> (r: usize)
    ensures
        r == queue_of(state@).len(),
{
    match state {
        Val::Record(m) => match value::lookup(m, PENDING) {
            Some(Val::List(l)) => {
                proof {
                    value::lemma_val_list(*l, l@.len());
                }
                l.len()
            },
            _ => 0,
        },
        _ => 0,
    }
}

/// The state with another value and the same queue.
pub open spec fn with_value_of(state: ValView, v: Number) -> ValView {
    match state {
        ValView::Record(m) => ValView::Record(value::updated(m, VALUE@, ValView::Num(v))),
        _ => fresh_state(v),
    }
}

/// Sets a param's value and keeps its queue.
pub fn with_value(state: &Val, v: Number) -> (r: Val)
    ensures
        r@ == with_value_of(state@, v),
{
    match state {
        Val::Record(m) => Val::Record(value::with_entry(m, VALUE, Val::Num(v))),
        _ => param_state(v),
    }
}

/// The time and value of a queued update, if it is one.
pub open spec fn update_of(v: ValView) -> Option<(Number, Number)> {
    match v {
        ValView::List(p) => if p.len() >= 2 && value::number_of(p[0]) is Some && value::number_of(
            p[1],
        ) is Some {
            Some((value::number_of(p[0])->0, value::number_of(p[1])->0))
        } else {
            None
        },
        _ => None,
    }
}

/// The updates of a queue, the oldest first.
pub open spec fn updates(queue: Seq<ValView>) -> Seq<(Number, Number)>
    decreases queue.len(),
{
    if queue.len() == 0 {
        Seq::empty()
    } else {
        let rest = updates(queue.skip(1));
        match update_of(queue[0]) {
            Some(u) => rest.push(u),
            None => rest,
        }
    }
}

/// What draining a param's state gives.
#[derive(Debug)]
pub struct Drained {
    /// The current value.
    pub value: Number,
    /// The queued times and values, the oldest first.
    pub pending: Vec<(Number, Number)>,
    /// The state to write back, where anything was queued.
    pub cleared: Option<Val>,
}

/// What [`Drained`] denotes.
#[verifier::ext_equal]
pub struct DrainedView {
    pub value: Number,
    pub pending: Seq<(Number, Number)>,
    pub cleared: Option<ValView>,
}

impl View for Drained {
    type V = DrainedView;

    open spec fn view(&self) -> DrainedView {
        DrainedView {
            value: self.value,
            pending: self.pending@,
            cleared: match self.cleared {
                Some(v) => Some(v@),
                None => None,
            },
        }
    }
}

/// What draining a state gives: its value and its queue, and the state without the
/// queue where there was one. Nothing comes of a state without a value.
pub open spec fn drained(state: ValView) -> Option<DrainedView> {
    match value_of(state) {
        None => None,
        Some(v) => {
            let pending = updates(queue_of(state));
            Some(
                DrainedView {
                    value: v,
                    pending,
                    cleared: match state {
                        ValView::Record(m) => if pending.len() > 0 {
                            Some(
                                ValView::Record(
                                    value::updated(m, PENDING@, ValView::List(Seq::empty())),
                                ),
                            )
                        } else {
                            None
                        },
                        _ => None,
                    },
                },
            )
        },
    }
}

fn read_update(v: &Val) -> (r: Option<(Number, Number)>)
    ensures
        r == update_of(v@),
{
    match v {
        Val::List(p) => {
            proof {
                value::lemma_val_list(*p, p@.len());
            }
            if p.len() >= 2 {
                match (value::number(&p[0]), value::number(&p[1])) {
                    (Some(t), Some(x)) => Some((t, x)),
                    _ => None,
                }
            } else {
                None
            }
        },
        _ => None,
    }
}

fn read_updates(l: &Vec<Val>) -> (r: Vec<(Number, Number)>)
    ensures
        r@ == updates(value::val_list(*l, l@.len())),
{
    let ghost all = value::val_list(*l, l@.len());
    proof {
        value::lemma_val_list(*l, l@.len());
        assert(all.skip(all.len() as int) =~= Seq::empty());
    }
    let mut r: Vec<(Number, Number)> = Vec::new();
    let mut i: usize = l.len();
    while i > 0
        invariant
            all == value::val_list(*l, l@.len()),
            all.len() == l@.len(),
            forall|j: int| 0 <= j < all.len() ==> #[trigger] all[j] == value::val_view(l@[j]),
            i <= l@.len(),
            r@ == updates(all.skip(i as int)),
        decreases i,
    {
        i = i - 1;
        proof {
            assert(all.skip(i as int).skip(1) =~= all.skip(i + 1));
            assert(all.skip(i as int)[0] == all[i as int]);
        }
        if let Some(u) = read_update(&l[i]) {
            r.push(u);
        }
    }
    assert(all.skip(0) =~= all);
    r
}

/// Reads a param's value and queue from its state, and takes the queue out of it.
/// Nothing comes of a state without a value. The updates come oldest first.
pub fn drain_param(state: &Val) -> (r: Option<Drained>)
    ensures
        match r {
            Some(d) => drained(state@) == Some(d@),
            None => drained(state@) is None,
        },
{
    let v = match param_value(state) {
        Some(v) => v,
        None => {
            return None;
        },
    };
    let mut pending: Vec<(Number, Number)> = Vec::new();
    let mut cleared: Option<Val> = None;
    assert(updates(Seq::<ValView>::empty()) =~= Seq::<(Number, Number)>::empty());
    if let Val::Record(m) = state {
        if let Some(Val::List(l)) = value::lookup(m, PENDING) {
            pending = read_updates(l);
            if pending.len() > 0 {
                let none: Vec<Val> = Vec::new();
                proof {
                    assert(value::val_list(none, none@.len()) =~= Seq::<ValView>::empty());
                }
                cleared = Some(Val::Record(value::with_entry(m, PENDING, Val::List(none))));
            }
        }
    }
    let d = Drained { value: v, pending, cleared };
    assert(d@ =~= drained(state@)->0);
    Some(d)
}

proof fn lemma_keys_differ()
    ensures
        VALUE@ != PENDING@,
{
    reveal_strlit("value");
    reveal_strlit("pending");
    assert(VALUE@.len() == 5);
    assert(PENDING@.len() == 7);
}

/// A value that is set is the value, and the queue is what it was.
pub proof fn law_setting_a_value_keeps_the_queue(state: ValView, v: Number)
    ensures
        value_of(with_value_of(state, v)) == Some(v),
        state is Record ==> queue_of(with_value_of(state, v)) == queue_of(state),
{
    lemma_keys_differ();
    match state {
        ValView::Record(m) => {
            value::lemma_found_updated(m, VALUE@, ValView::Num(v), VALUE@);
            value::lemma_found_updated(m, VALUE@, ValView::Num(v), PENDING@);
        },
        _ => {
            let m = fresh_state(v)->Record_0;
            assert(m[0].0 == VALUE@);
        },
    }
}

/// A queue is drained once: what is written back has the same value and nothing queued.
pub proof fn law_draining_empties_the_queue(state: ValView)
    requires
        drained(state) is Some,
        drained(state)->0.cleared is Some,
    ensures
        drained(drained(state)->0.cleared->0) == Some(
            DrainedView {
                value: drained(state)->0.value,
                pending: Seq::empty(),
                cleared: None,
            },
        ),
{
    lemma_keys_differ();
    let m = state->Record_0;
    let none = ValView::List(Seq::empty());
    value::lemma_found_updated(m, PENDING@, none, VALUE@);
    value::lemma_found_updated(m, PENDING@, none, PENDING@);
    let c = drained(state)->0.cleared->0;
    assert(updates(queue_of(c)) =~= Seq::<(Number, Number)>::empty());
}

/// The bytes that a smoothing time adds to a node's address: none where there is no
/// smoothing, so a param without it leaves the address alone.
pub open spec fn lag_bytes(lag: Float) -> Seq<u8> {
    if dsp::float_zero(lag) {
        Seq::empty()
    } else {
        seq![0x6cu8, 0x61u8, 0x67u8] + le_bytes(lag)
    }
}

/// The bytes of a float, the least significant first.
pub open spec fn le_bytes(x: u32) -> Seq<u8> {
    seq![
        (x % 256) as u8,
        (x / 256 % 256) as u8,
        (x / 65536 % 256) as u8,
        (x / 16777216 % 256) as u8,
    ]
}

/// Adds a smoothing time to a node's address, unless it is zero.
pub fn cahash_lag(hasher: &mut Hasher, lag: Float)
    ensures
        final(hasher)@ == old(hasher)@ + lag_bytes(lag),
{
    if !dsp::is_zero(lag) {
        let bytes: [u8; 7] = [
            0x6c,
            0x61,
            0x67,
            (lag % 256) as u8,
            (lag / 256 % 256) as u8,
            (lag / 65536 % 256) as u8,
            (lag / 16777216 % 256) as u8,
        ];
        assert(bytes@ =~= lag_bytes(lag));
        hasher.update(&bytes);
    } else {
        assert(hasher@ =~= old(hasher)@ + lag_bytes(lag));
    }
}

/// Lags that are fed alike are the same, but for the two zeros, of which nothing is fed.
pub proof fn law_lag_bytes_tell_lags_apart(a: Float, b: Float)
    requires
        lag_bytes(a) == lag_bytes(b),
    ensures
        a == b || ((a == 0 || a == 0x8000_0000) && (b == 0 || b == 0x8000_0000)),
        (a == 0 || a == 0x8000_0000) ==> lag_bytes(a).len() == 0,
        lag_bytes(a).len() == 0 || lag_bytes(a).len() == 7,
{
    let (x, y) = (lag_bytes(a), lag_bytes(b));
    if x.len() == 7 {
        assert(x[3] == y[3] && x[4] == y[4] && x[5] == y[5] && x[6] == y[6]);
        assert(x[3] == (a % 256) as u8 && y[3] == (b % 256) as u8);
        assert(x[4] == (a / 256 % 256) as u8 && y[4] == (b / 256 % 256) as u8);
        assert(x[5] == (a / 65536 % 256) as u8 && y[5] == (b / 65536 % 256) as u8);
        assert(x[6] == (a / 16777216 % 256) as u8 && y[6] == (b / 16777216 % 256) as u8);
        assert(a == b);
    }
}

/// A param with a lag smooths where the lag is above zero, and takes its values at once
/// where it is not.
pub proof fn law_only_a_positive_lag_smooths(name: Seq<char>, default: Float, lag: Float)
    ensures
        ({
            let p = param_of(name, default, lag);
            &&& p.name == name && p.default == default
            &&& p.rate is Control && !p.is_trig
            &&& 0 < lag <= 0x7f80_0000 ==> p.lag == Some(lag)
            &&& lag == 0 || lag > 0x7f80_0000 ==> p.lag is None
        }),
{
}

/// An expression that queues a control value gives its output last, whether or not there
/// is a value to queue, and where there is none does nothing else.
pub proof fn law_control_expression_ends_in_its_output(
    val: Option<Seq<char>>,
    args: Seq<char>,
    output: Seq<char>,
)
    ensures
        ({
            let e = control_expr(val, args, output);
            let n = output.len() as int;
            &&& e.len() >= n + 8
            &&& e.take(7) == "(begin "@
            &&& e.last() == ')'
            &&& e.subrange(e.len() - 1 - n, e.len() - 1) == output
            &&& val is None ==> e.len() == n + 8
            &&& val is Some ==> e.len() > n + 8 + 3 * val->0.len() + args.len()
        }),
{
    reveal_strlit("(begin ");
    reveal_strlit(")");
    reveal_strlit("(begin (if (number? ");
    reveal_strlit(") (set! state (hash-insert (hash-insert state 'value ");
    reveal_strlit(") 'pending (cons (list (hash-ref ");
    reveal_strlit(" 'time) ");
    reveal_strlit(") (hash-ref state 'pending)))) void) ");
    let e = control_expr(val, args, output);
    let n = output.len() as int;
    assert(e.take(7) =~= "(begin "@);
    assert(e.subrange(e.len() - 1 - n, e.len() - 1) =~= output);
}

} // verus!
