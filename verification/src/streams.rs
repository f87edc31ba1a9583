//! Values as they stream: rings of monitored samples, queues of param updates, and the
//! histories of plots.

use crate::monitor;
use crate::param::{self, PENDING, VALUE};
use crate::plot::{self, Edit, Plot};
use crate::value::{self, Number, ValView};
use vstd::prelude::*;
use vstd::string::*;

verus! {

/// Whether `r` is the end of `all`, as long as `cap` lets it be.
pub open spec fn latest<A>(r: Seq<A>, all: Seq<A>, cap: nat) -> bool {
    &&& r.len() == (if all.len() < cap {
        all.len()
    } else {
        cap
    })
    &&& forall|i: int| 0 <= i < r.len() ==> #[trigger] r[i] == all[all.len() - r.len() + i]
}

/// A ring holds the latest samples, in the order in which they came: those that it held,
/// the new ones behind them, and the oldest gone beyond its size, which is at least one.
pub proof fn law_ring_holds_the_latest_samples(
    ring: Seq<ValView>,
    values: Seq<Number>,
    size: usize,
)
    ensures
        latest(
            monitor::pushed(ring, values, size),
            ring + Seq::new(values.len(), |i: int| ValView::Num(values[i])),
            if size == 0 {
                1nat
            } else {
                size as nat
            },
        ),
{
    assert(monitor::sample_vals(values) =~= Seq::new(
        values.len(),
        |i: int| ValView::Num(values[i]),
    ));
}

/// Interleaved samples go to their own channel's ring: sample `c` of every frame goes to
/// ring `c`, and there is one ring per channel.
pub proof fn law_frames_are_dealt_to_their_channels(
    state: Option<ValView>,
    samples: Seq<Number>,
    size: usize,
    n: int,
    c: int,
)
    requires
        0 <= c < n,
    ensures
        ({
            let rings = monitor::rings_pushed(state, samples, size, n);
            let old = match state {
                Some(ValView::List(l)) => if c < l.len() {
                    match l[c] {
                        ValView::List(ring) => ring,
                        _ => Seq::empty(),
                    }
                } else {
                    Seq::empty()
                },
                _ => Seq::empty(),
            };
            &&& rings.len() == n
            &&& rings[c] is List
            &&& latest(
                rings[c]->List_0,
                old + Seq::new(
                    (samples.len() as int / n) as nat,
                    |i: int| ValView::Num(samples[i * n + c]),
                ),
                if size == 0 {
                    1nat
                } else {
                    size as nat
                },
            )
        }),
{
    let ring = monitor::channel_ring(state, c);
    let values = monitor::channel(samples, c, n);
    law_ring_holds_the_latest_samples(ring, values, size);
    assert(Seq::new(values.len(), |i: int| ValView::Num(values[i])) =~= Seq::new(
        (samples.len() as int / n) as nat,
        |i: int| ValView::Num(samples[i * n + c]),
    ));
}

/// A queue is read oldest first. An update that is put in front of a queue, as a list that
/// starts with its time and value, is read behind all that were there; anything else in a
/// queue is passed over.
pub proof fn law_queue_is_read_oldest_first(
    queue: Seq<ValView>,
    x: ValView,
    p: Seq<ValView>,
    time: Number,
    v: Number,
)
    ensures
        p.len() >= 2 && p[0] == ValView::Num(time) && p[1] == ValView::Num(v) ==> param::updates(
            seq![ValView::List(p)] + queue,
        ) == param::updates(queue).push((time, v)),
        !(x is List) ==> param::updates(seq![x] + queue) == param::updates(queue),
        p.len() < 2 || !(p[0] is Num) || !(p[1] is Num) ==> param::updates(
            seq![ValView::List(p)] + queue,
        ) == param::updates(queue),
        param::updates(Seq::empty()).len() == 0,
{
    let u = ValView::List(p);
    assert((seq![u] + queue).skip(1) =~= queue);
    assert((seq![x] + queue).skip(1) =~= queue);
    assert((seq![u] + queue)[0] == u);
    assert((seq![x] + queue)[0] == x);
}

/// What is drained of a param. The value is what is set, the updates are what is queued,
/// and where any is, the state to be written back is the state with nothing queued and
/// all else as it was. A bare number is a value with nothing queued.
pub proof fn law_drained_is_what_was_set_and_queued(m: Seq<(Seq<char>, ValView)>, v: Number)
    requires
        value::found(m, VALUE@) == Some(ValView::Num(v)),
    ensures
        ({
            let state = ValView::Record(m);
            let d = param::drained(state);
            let queue = match value::found(m, PENDING@) {
                Some(ValView::List(l)) => l,
                _ => Seq::empty(),
            };
            &&& d is Some
            &&& d->0.value == v
            &&& d->0.pending == param::updates(queue)
            &&& d->0.cleared is Some <==> param::updates(queue).len() > 0
            &&& d->0.cleared is Some ==> {
                &&& d->0.cleared->0 is Record
                &&& value::found(d->0.cleared->0->Record_0, PENDING@) == Some(
                    ValView::List(Seq::empty()),
                )
                &&& forall|k: Seq<char>|
                    k != PENDING@ ==> (#[trigger] value::found(d->0.cleared->0->Record_0, k))
                        == value::found(m, k)
            }
        }),
        param::drained(ValView::Num(v)) == Some(
            (param::DrainedView { value: v, pending: Seq::empty(), cleared: None }),
        ),
{
    let none = ValView::List(Seq::empty());
    assert forall|k: Seq<char>| true implies (#[trigger] value::found(
        value::updated(m, PENDING@, none),
        k,
    )) == (if k == PENDING@ {
        Some(none)
    } else {
        value::found(m, k)
    }) by {
        value::lemma_found_updated(m, PENDING@, none, k);
    }
    assert(param::updates(Seq::<ValView>::empty()) =~= Seq::<(Number, Number)>::empty());
}

/// A fresh param has its default for a value, and nothing queued.
pub proof fn law_fresh_param_has_its_default(v: Number)
    ensures
        param::value_of(param::fresh_state(v)) == Some(v),
        param::queue_of(param::fresh_state(v)).len() == 0,
{
    reveal_strlit("value");
    reveal_strlit("pending");
    let m = param::fresh_state(v)->Record_0;
    assert(m[0].0 == VALUE@ && m[1].0 == PENDING@);
    assert(VALUE@.len() == 5 && PENDING@.len() == 7);
    assert(m.skip(1)[0] == m[1]);
    assert(value::found(m.skip(1), PENDING@) == Some(m[1].1));
}

/// The numbers among values are those that are numbers, in order.
pub proof fn law_numbers_are_picked_in_order(a: Seq<ValView>, b: Seq<ValView>, x: ValView)
    ensures
        plot::numbers(a + b) == plot::numbers(a) + plot::numbers(b),
        plot::numbers(seq![x]) == (if x is Num {
            seq![x]
        } else {
            Seq::empty()
        }),
    decreases b.len(),
{
    assert(seq![x].drop_last() =~= Seq::empty());
    assert(plot::numbers(Seq::<ValView>::empty()) =~= Seq::empty());
    assert(plot::numbers(seq![x]) =~= (if x is Num {
        seq![x]
    } else {
        Seq::empty()
    }));
    if b.len() == 0 {
        assert(a + b =~= a);
        assert(plot::numbers(a) + plot::numbers(b) =~= plot::numbers(a));
    } else {
        law_numbers_are_picked_in_order(a, b.drop_last(), x);
        assert((a + b).drop_last() =~= a + b.drop_last());
        assert(plot::numbers(a + b) =~= plot::numbers(a) + plot::numbers(b));
    }
}

/// A plot's history holds the latest samples. Of one series: what it held, with the number
/// that comes in, or the numbers of the list or vector that does, behind it. Of channels:
/// each channel what it held, with the numbers of its own channel behind it.
pub proof fn law_history_holds_the_latest_samples(
    h: Seq<ValView>,
    x: Number,
    s: Seq<ValView>,
    cap: nat,
    c: int,
)
    ensures
        !plot::nested(h) ==> {
            let r = plot::pushed(ValView::Vector(h), ValView::Num(x), cap);
            r is Vector && latest(r->Vector_0, h + seq![ValView::Num(x)], cap)
        },
        !plot::nested(h) && !plot::nested(s) ==> {
            let r = plot::pushed(ValView::Vector(h), ValView::List(s), cap);
            let q = plot::pushed(ValView::Vector(h), ValView::Vector(s), cap);
            r is Vector && latest(r->Vector_0, h + plot::numbers(s), cap) && q == r
        },
        plot::nested(h) && plot::nested(s) && 0 <= c < s.len() ==> {
            let r = plot::pushed(ValView::Vector(h), ValView::List(s), cap);
            let old = if c < h.len() {
                match h[c] {
                    ValView::Vector(k) => if plot::nested(k) {
                        Seq::empty()
                    } else {
                        k
                    },
                    ValView::List(k) => plot::numbers(k),
                    _ => Seq::empty(),
                }
            } else {
                Seq::empty()
            };
            &&& r is Vector
            &&& r->Vector_0.len() == s.len()
            &&& r->Vector_0[c] is Vector
            &&& latest(r->Vector_0[c]->Vector_0, old + plot::samples(s[c]), cap)
        },
{
}

/// An edit changes the setting that it is of, and no other.
pub proof fn law_edits_change_one_setting(p: Plot, e: Edit)
    ensures
        ({
            let q = plot::edited(p, e);
            &&& match e {
                Edit::Mode(m) => q.mode == m,
                Edit::Style(s) => q.style == s,
                Edit::Capacity(c) => (1 <= c <= plot::MAX_CAPACITY ==> q.capacity == c) && (c < 1
                    ==> q.capacity == 1) && (c > plot::MAX_CAPACITY ==> q.capacity
                    == plot::MAX_CAPACITY),
                Edit::Margin(m) => q.margin == m,
                Edit::Color(c) => q.color == Some(c),
                Edit::ThemeColor => q.color is None,
                Edit::YMin(y) => q.y_min == y,
                Edit::YMax(y) => q.y_max == y,
                Edit::Grid(g) => q.show_grid == g,
                Edit::Axes(a) => q.show_axes == a,
                Edit::Interactive(i) => q.interactive == i,
                Edit::Size(w, h) => q.width == w && q.height == h,
            }
            &&& !(e is Mode) ==> q.mode == p.mode
            &&& !(e is Style) ==> q.style == p.style
            &&& !(e is Capacity) ==> q.capacity == p.capacity
            &&& !(e is Margin) ==> q.margin == p.margin
            &&& !(e is Color) && !(e is ThemeColor) ==> q.color == p.color
            &&& !(e is YMin) ==> q.y_min == p.y_min
            &&& !(e is YMax) ==> q.y_max == p.y_max
            &&& !(e is Grid) ==> q.show_grid == p.show_grid
            &&& !(e is Axes) ==> q.show_axes == p.show_axes
            &&& !(e is Interactive) ==> q.interactive == p.interactive
            &&& !(e is Size) ==> q.width == p.width && q.height == p.height
        }),
{
}

} // verus!
