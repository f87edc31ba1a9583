//! Writing sampled DSP values into the ring buffers of monitor nodes.
//!
//! A monitor holds its recent samples as a list in its state. What the audio side
//! streams is appended, and the oldest samples make room.

use crate::value::{self, Number, Val, ValView};
use vstd::prelude::*;

verus! {

/// The last `n` elements.
pub open spec fn tail<A>(s: Seq<A>, n: nat) -> Seq<A> {
    if s.len() <= n {
        s
    } else {
        s.skip(s.len() - n)
    }
}

/// How many samples a ring of the given size holds: at least the latest.
pub open spec fn capacity(size: usize) -> nat {
    if size == 0 {
        1
    } else {
        size as nat
    }
}

/// The ring that a state is; anything but a list is an empty ring.
pub open spec fn ring_of(state: Option<ValView>) -> Seq<ValView> {
    match state {
        Some(ValView::List(l)) => l,
        _ => Seq::empty(),
    }
}

/// The samples as values.
pub open spec fn sample_vals(s: Seq<Number>) -> Seq<ValView> {
    s.map_values(|n: Number| ValView::Num(n))
}

/// A ring with samples appended.
pub open spec fn pushed(ring: Seq<ValView>, values: Seq<Number>, size: usize) -> Seq<ValView> {
    tail(ring + sample_vals(values), capacity(size))
}

/// What an optional state denotes.
pub open spec fn state_view(s: Option<&Val>) -> Option<ValView> {
    match s {
        Some(v) => Some(v@),
        None => None,
    }
}

/// Appends samples to the ring that a state is, dropping the oldest so that it holds at
/// most `size` (a size of 0 counts as 1). Anything but a list is an empty ring.
pub fn push_ring(old: Option<&Val>, values: &Vec<Number>, size: usize) -> (r: Val)
    ensures
        r@ == ValView::List(pushed(ring_of(state_view(old)), values@, size)),
{
    let cap: usize = if size == 0 {
        1
    } else {
        size
    };
    let ghost ring = ring_of(state_view(old));
    let ghost all = ring + sample_vals(values@);
    let mut out: Vec<Val> = Vec::new();
    let ghost mut from: int = 0;
    let start: usize = if values.len() >= cap {
        proof {
            from = all.len() - cap;
        }
        // The frame alone fills the ring.
        values.len() - cap
    } else {
        if let Some(Val::List(l)) = old {
            proof {
                value::lemma_val_list(*l, l@.len());
            }
            let keep: usize = cap - values.len();
            let skip: usize = if l.len() > keep {
                l.len() - keep
            } else {
                0
            };
            proof {
                from = skip as int;
            }
            let mut i: usize = skip;
            while i < l.len()
                invariant
                    ring == value::val_list(*l, l@.len()),
                    ring.len() == l@.len(),
                    forall|j: int|
                        0 <= j < ring.len() ==> #[trigger] ring[j] == value::val_view(l@[j]),
                    skip <= i <= l@.len(),
                    out@.len() == i - skip,
                    forall|j: int|
                        0 <= j < out@.len() ==> value::val_view(#[trigger] out@[j]) == ring[skip
                            + j],
                decreases l@.len() - i,
            {
                let v = value::dup_val(&l[i]);
                out.push(v);
                i = i + 1;
            }
        }
        0
    };
    let ghost front = out@;
    assert(from == if all.len() <= cap {
        0
    } else {
        all.len() - cap
    });
    assert(forall|j: int|
        0 <= j < front.len() ==> value::val_view(#[trigger] front[j]) == all[from + j]);
    assert(front.len() + from == ring.len() + start);
    let mut k: usize = start;
    while k < values.len()
        invariant
            start <= k <= values@.len(),
            all == ring + sample_vals(values@),
            front.len() + from == ring.len() + start,
            0 <= from,
            out@.len() == front.len() + (k - start),
            forall|j: int|
                0 <= j < out@.len() ==> value::val_view(#[trigger] out@[j]) == all[from + j],
        decreases values@.len() - k,
    {
        proof {
            assert(all[from + out@.len()] == ValView::Num(values@[k as int]));
        }
        out.push(Val::Num(values[k]));
        k = k + 1;
    }
    proof {
        value::lemma_val_list(out, out@.len());
        assert(value::val_list(out, out@.len()) =~= tail(all, capacity(size)));
    }
    Val::List(out)
}

/// The samples of one of `n` interleaved channels.
pub open spec fn channel(samples: Seq<Number>, c: int, n: int) -> Seq<Number> {
    Seq::new((samples.len() as int / n) as nat, |i: int| samples[i * n + c])
}

/// The ring of one channel.
pub open spec fn channel_ring(state: Option<ValView>, c: int) -> Seq<ValView> {
    match state {
        Some(ValView::List(l)) => if 0 <= c < l.len() {
            ring_of(Some(l[c]))
        } else {
            Seq::empty()
        },
        _ => Seq::empty(),
    }
}

/// One ring per channel, each with its channel's samples appended.
pub open spec fn rings_pushed(state: Option<ValView>, samples: Seq<Number>, size: usize, n: int) -> Seq<
    ValView,
> {
    Seq::new(
        n as nat,
        |c: int|
            ValView::List(pushed(channel_ring(state, c), channel(samples, c, n), size)),
    )
}

fn deinterleave(samples: &Vec<Number>, c: usize, n: usize) -> (r: Vec<Number>)
    requires
        c < n,
    ensures
        r@ == channel(samples@, c as int, n as int),
{
    let frames: usize = samples.len() / n;
    let mut r: Vec<Number> = Vec::new();
    let mut i: usize = 0;
    let mut at: usize = c;
    let ghost len = samples@.len() as int;
    proof {
        lemma_frames(len, n as int);
    }
    while i < frames
        invariant
            c < n,
            i <= frames,
            len == samples@.len() <= usize::MAX,
            frames as int == len / (n as int),
            frames * n <= len,
            i < frames ==> at as int == i * n + c,
            r@ =~= channel(samples@, c as int, n as int).take(i as int),
        decreases frames - i,
    {
        proof {
            lemma_frame_in(i as int, frames as int, n as int, c as int, len);
        }
        r.push(samples[at]);
        i = i + 1;
        if i < frames {
            proof {
                lemma_frame_in(i as int, frames as int, n as int, c as int, len);
                lemma_frame_step(i as int, n as int);
            }
            at = at + n;
        }
    }
    assert(r@ =~= channel(samples@, c as int, n as int));
    r
}

proof fn lemma_frames(len: int, n: int)
    requires
        0 <= len,
        0 < n,
    ensures
        (len / n) * n <= len,
        len / n >= 0,
{
    assert((len / n) * n <= len && len / n >= 0) by (nonlinear_arith)
        requires
            0 <= len,
            0 < n,
    ;
}

proof fn lemma_frame_in(i: int, frames: int, n: int, c: int, len: int)
    requires
        0 <= i < frames,
        0 <= c < n,
        frames * n <= len,
    ensures
        0 <= i * n + c < len,
{
    assert(0 <= i * n + c < len) by (nonlinear_arith)
        requires
            0 <= i < frames,
            0 <= c < n,
            frames * n <= len,
    ;
}

proof fn lemma_frame_step(i: int, n: int)
    ensures
        i * n == (i - 1) * n + n,
{
    assert(i * n == (i - 1) * n + n) by (nonlinear_arith);
}

/// Appends interleaved samples to one ring per channel; each ring holds at most `size`
/// frames.
pub fn push_rings(old: Option<&Val>, samples: &Vec<Number>, size: usize, channels: usize) -> (r: Val)
    requires
        channels > 0,
    ensures
        r@ == ValView::List(rings_pushed(state_view(old), samples@, size, channels as int)),
{
    let ghost state = state_view(old);
    let mut out: Vec<Val> = Vec::new();
    let mut c: usize = 0;
    while c < channels
        invariant
            c <= channels,
            state == state_view(old),
            out@.len() == c,
            forall|j: int|
                0 <= j < c ==> value::val_view(#[trigger] out@[j]) == ValView::List(
                    pushed(
                        channel_ring(state, j),
                        channel(samples@, j, channels as int),
                        size,
                    ),
                ),
        decreases channels - c,
    {
        let values = deinterleave(samples, c, channels);
        let ring: Option<&Val> = match old {
            Some(Val::List(l)) => {
                proof {
                    value::lemma_val_list(*l, l@.len());
                }
                if c < l.len() {
                    Some(&l[c])
                } else {
                    None
                }
            },
            _ => None,
        };
        assert(ring_of(state_view(ring)) == channel_ring(state, c as int));
        let v = push_ring(ring, &values, size);
        out.push(v);
        c = c + 1;
    }
    proof {
        value::lemma_val_list(out, out@.len());
        assert(value::val_list(out, out@.len()) =~= rings_pushed(
            state,
            samples@,
            size,
            channels as int,
        ));
    }
    Val::List(out)
}

/// A ring holds at most its capacity.
pub proof fn law_ring_is_bounded(ring: Seq<ValView>, values: Seq<Number>, size: usize)
    ensures
        pushed(ring, values, size).len() <= capacity(size),
{
}

/// Appending in batches comes to the same as appending at once: a ring holds the latest
/// of all that was ever appended.
pub proof fn law_ring_ignores_batches(
    ring: Seq<ValView>,
    a: Seq<Number>,
    b: Seq<Number>,
    size: usize,
)
    ensures
        pushed(pushed(ring, a, size), b, size) == pushed(ring, a + b, size),
{
    assert(sample_vals(a + b) =~= sample_vals(a) + sample_vals(b));
    assert(pushed(pushed(ring, a, size), b, size) =~= pushed(ring, a + b, size));
}

} // verus!
