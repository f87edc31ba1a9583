//! What is shown of cords, sizes and settings.

use crate::audio_settings::{self, AudioPanel};
use crate::control::DEFAULT_DUR;
use crate::dsp::Float;
use crate::dsp_node::DspNode;
use crate::edge_style::{self, EdgeStyle};
use crate::head::HeadView;
use crate::inspect::{self, RowView};
use crate::port_info::PortShape;
use crate::size_sync::{self, SizeSync};
use crate::text;
use crate::value::{Number, ValView};
use vstd::arithmetic::power2::pow2;
use vstd::prelude::*;

verus! {

/// The number that digits stand for, read from the left.
pub open spec fn counted_up(s: Seq<char>) -> nat
    decreases s.len(),
{
    if s.len() == 0 {
        0
    } else {
        (counted_up(s.drop_last()) * 10 + ((s.last() as int) - ('0' as int))) as nat
    }
}

/// A number that is written out reads back as itself, and is written without a leading
/// zero.
pub proof fn law_written_number_reads_back(n: nat)
    ensures
        counted_up(text::dec(n)) == n,
        n > 0 ==> text::dec(n)[0] != '0',
    decreases n,
{
    if n < 10 {
        assert(text::dec(n).drop_last() =~= Seq::empty());
        assert(counted_up(Seq::empty()) == 0);
    } else {
        law_written_number_reads_back(n / 10);
        text::lemma_dec_digits(n / 10);
        assert(text::dec(n).drop_last() =~= text::dec(n / 10));
        assert(text::dec(n)[0] == text::dec(n / 10)[0]);
    }
}

/// Of several styles, the first that has something to say of an edge is the one that says
/// how it looks.
pub proof fn law_first_style_wins<S: EdgeStyle>(
    styles: Seq<S>,
    head: HeadView,
    src: (usize, usize),
    dst: (usize, usize),
    i: int,
)
    ensures
        0 <= i < styles.len() && styles[i].styling(head, src, dst) is Some && (forall|j: int|
            0 <= j < i ==> (#[trigger] styles[j]).styling(head, src, dst) is None)
            ==> edge_style::first_styling(styles, head, src, dst) == styles[i].styling(
            head,
            src,
            dst,
        ),
        (forall|j: int|
            0 <= j < styles.len() ==> (#[trigger] styles[j]).styling(head, src, dst) is None)
            ==> edge_style::first_styling(styles, head, src, dst) is None,
    decreases styles.len(),
{
    if styles.len() > 0 && styles[0].styling(head, src, dst) is None {
        let rest = styles.skip(1);
        law_first_style_wins(rest, head, src, dst, i - 1);
        if forall|j: int|
            0 <= j < styles.len() ==> (#[trigger] styles[j]).styling(head, src, dst) is None {
            assert forall|j: int| 0 <= j < rest.len() implies (#[trigger] rest[j]).styling(
                head,
                src,
                dst,
            ) is None by {
                assert(rest[j] == styles[j + 1]);
            }
        }
        if 0 < i < styles.len() && (forall|j: int|
            0 <= j < i ==> (#[trigger] styles[j]).styling(head, src, dst) is None) {
            assert(rest[i - 1] == styles[i]);
            assert forall|j: int| 0 <= j < i - 1 implies (#[trigger] rest[j]).styling(
                head,
                src,
                dst,
            ) is None by {
                assert(rest[j] == styles[j + 1]);
            }
        }
    }
}

/// A cord of a known shape has a strand per channel, and its text tells the number of
/// channels first. Only an audio cord is drawn solid, and a cord of an unknown shape is a
/// single strand. No cord is coloured or drawn at the width of an ordinary edge.
pub proof fn law_cord_shows_its_shape(s: PortShape)
    ensures
        ({
            let c = edge_style::cord(Some(s));
            let h = c.hover_text->0;
            let n = text::dec(s.width as nat);
            &&& c.strands == s.width
            &&& c.hover_text is Some
            &&& h.len() > n.len()
            &&& h.take(n.len() as int) == n
            &&& c.dash is None <==> s.rate is Audio
            &&& c.color is None
            &&& c.width_scale == edge_style::cord(None).width_scale
            &&& c.width_scale != edge_style::plain().width_scale
            &&& edge_style::cord(None).strands == 1
            &&& edge_style::cord(None).dash is Some
            &&& edge_style::cord(None).color is None
            &&& c.notch is Some && edge_style::cord(None).notch is None
        }),
        forall|t: PortShape|
            (#[trigger] edge_style::cord(Some(t))) == edge_style::cord(Some(s)) ==> t.width
                == s.width && (t.rate is Control <==> s.rate is Control),
{
    let h = edge_style::cord(Some(s)).hover_text->0;
    let n = text::dec(s.width as nat);
    reveal_strlit("ch ");
    assert(h.take(n.len() as int) =~= n);
}

/// A size is pushed to the view where none was seen before or another one was, and a size
/// is committed where a drag has just ended on the size that was seen.
pub proof fn law_sizes_follow_the_drag(
    prev: SizeSync,
    size: [u16; 2],
    resizing: bool,
)
    ensures
        size_sync::decided(None, size, resizing) == (true, false),
        ({
            let moved = prev.last_seen[0] != size[0] || prev.last_seen[1] != size[1];
            let d = size_sync::decided(Some(prev), size, resizing);
            &&& d.0 <==> moved
            &&& d.1 <==> !moved && prev.was_resizing && !resizing
            &&& size_sync::kept(size, d.0, resizing).last_seen == size
            &&& size_sync::kept(size, d.0, resizing).was_resizing <==> resizing && !moved
        }),
{
}

/// A size in points rounds to the nearest whole number, halves upwards, as far as that
/// fits; one that is too large is the largest that does, and one below zero, or that is no
/// number, is zero.
pub proof fn law_sizes_round_to_the_nearest(f: Float)
    ensures
        ({
            let n = size_sync::rounded(f);
            &&& 0 <= n <= 0xffff
            &&& f > 0x7f80_0000 ==> n == 0
            &&& f <= 0x7f80_0000 && f / 0x80_0000 >= 150 ==> n == 0xffff
            &&& f / 0x80_0000 < 150 && n < 0xffff ==> {
                let one = pow2(size_sync::halvings(f));
                let x = size_sync::fraction(f);
                &&& 2 * n * one <= 2 * x + one
                &&& 2 * x + one < 2 * (n + 1) * one
            }
            &&& f / 0x80_0000 < 150 && n == 0xffff ==> 2 * n * pow2(size_sync::halvings(f)) <= 2
                * size_sync::fraction(f) + pow2(size_sync::halvings(f))
        }),
{
    if f / 0x80_0000 < 150 {
        let s = size_sync::halvings(f);
        let x = size_sync::fraction(f) as int;
        assert(s >= 1);
        vstd::arithmetic::power2::lemma_pow2_pos(s);
        vstd::arithmetic::power2::lemma_pow2_unfold(s);
        let one = pow2(s) as int;
        let half = pow2((s - 1) as nat) as int;
        assert(one == 2 * half);
        let q = (x + half) / one;
        vstd::arithmetic::div_mod::lemma_fundamental_div_mod(x + half, one);
        vstd::arithmetic::div_mod::lemma_mod_bound(x + half, one);
        assert(one * q <= x + half < one * q + one);
        assert(q >= 0) by {
            vstd::arithmetic::div_mod::lemma_div_pos_is_pos(x + half, one);
        }
        let n = size_sync::rounded(f);
        assert(n <= q);
        assert(one * n <= one * q) by (nonlinear_arith)
            requires
                n <= q,
                one >= 0,
        ;
        assert(2 * n * one == 2 * (one * n)) by (nonlinear_arith);
        assert(2 * (n + 1) * one == 2 * (one * n) + 2 * one) by (nonlinear_arith);
    }
}

/// The settings that a node shows are its own: its count, size, gain or frequency as it
/// is, and of a lag the value in its state, or the default where there is none.
pub proof fn law_rows_show_the_node(n: DspNode, state: Option<ValView>, i: int)
    requires
        0 <= i < inspect::rows_of(n, state).len(),
    ensures
        match inspect::rows_of(n, state)[i] {
            RowView::Count { value, .. } => match n {
                DspNode::Pack(n) => value == n.count_spec(),
                DspNode::Unpack(n) => value == n.count_spec(),
                DspNode::ScopeOut(n) => value == n.size_spec(),
                DspNode::Tap(n) => value == n.size_spec(),
                _ => false,
            },
            RowView::Setting { value, .. } => match n {
                DspNode::Out(n) => value == n.gain_spec(),
                DspNode::Sine(n) => value == n.freq_spec(),
                _ => false,
            },
            RowView::Value { value, .. } => n is Lag && (match state {
                Some(v) => match crate::param::value_of(v) {
                    Some(x) => value == x,
                    None => value == Number::Float(DEFAULT_DUR),
                },
                None => value == Number::Float(DEFAULT_DUR),
            }),
            RowView::State { .. } => n is Lag || n is ScopeOut,
        },
{
}

/// The panel tells the device's rate and channels where there is a device, and nothing
/// where there is none.
pub proof fn law_panel_tells_rate_and_channels(p: AudioPanel)
    ensures
        ({
            let s = audio_settings::status_of(p);
            let rate = text::dec(p.sample_rate as nat);
            &&& !p.present ==> s.len() == 0
            &&& p.present ==> {
                &&& s.len() == 3
                &&& p.device is Some ==> s[0].1 == p.device->0@
                &&& s[1].1.len() > rate.len() && s[1].1.take(rate.len() as int) == rate
                &&& s[2].1 == text::dec(p.channels as nat)
            }
        }),
{
    reveal_strlit(" Hz");
    let s = audio_settings::status_of(p);
    if p.present {
        let rate = text::dec(p.sample_rate as nat);
        assert(s[1].1.take(rate.len() as int) =~= rate);
    }
}

} // verus!
