//! Keeping the size that a resizable node body has in step with the size it is drawn at.
//!
//! The size that belongs to a node is part of its address, while the drawn size lives
//! with the display. A change from outside goes into the display and is never committed;
//! the node's size is written only by a drag of the corner that was released.

use crate::dsp::Float;
use vstd::arithmetic::power2::{lemma_pow2_strictly_increases, lemma_pow2_unfold, pow2};
use vstd::prelude::*;

verus! {

/// What is kept from one frame to the next.
#[derive(Clone, Copy, Debug)]
pub struct SizeSync {
    /// The node's size when the last frame ended.
    pub last_seen: [u16; 2],
    /// Whether the corner was being dragged.
    pub was_resizing: bool,
}

/// Whether the sizes are the same.
pub open spec fn same_size(a: [u16; 2], b: [u16; 2]) -> bool {
    a[0] == b[0] && a[1] == b[1]
}

/// What is decided for a frame: whether the node's size goes into the display, and
/// whether a drag was released.
pub open spec fn decided(prev: Option<SizeSync>, size: [u16; 2], resizing: bool) -> (bool, bool) {
    match prev {
        None => (true, false),
        Some(p) => (
            !same_size(p.last_seen, size),
            same_size(p.last_seen, size) && p.was_resizing && !resizing,
        ),
    }
}

/// What is kept for the next frame.
pub open spec fn kept(size: [u16; 2], pushed: bool, resizing: bool) -> SizeSync {
    SizeSync { last_seen: size, was_resizing: resizing && !pushed }
}

/// What is decided for a frame: whether the node's size goes into the display, and
/// whether a drag was released. The first frame pushes; a size that was changed from
/// outside pushes, and wins over a drag; a release is the end of a drag that nothing from
/// outside cut short.
pub fn size_sync_frame(prev: Option<SizeSync>, size: [u16; 2], resizing: bool) -> (r: (bool, bool))
    ensures
        r == decided(prev, size, resizing),
{
    match prev {
        None => (true, false),
        Some(p) => {
            let push = p.last_seen[0] != size[0] || p.last_seen[1] != size[1];
            (push, !push && p.was_resizing && !resizing)
        },
    }
}

/// What is kept for the next frame.
pub fn size_sync_next(size: [u16; 2], pushed: bool, resizing: bool) -> (r: SizeSync)
    ensures
        r == kept(size, pushed, resizing),
{
    SizeSync { last_seen: size, was_resizing: resizing && !pushed }
}

/// A change from outside is never committed: the frame that takes it in releases no
/// drag, and neither does the one behind it.
pub proof fn law_outside_change_is_not_committed(
    prev: Option<SizeSync>,
    size: [u16; 2],
    resizing: bool,
    after: [u16; 2],
    still: bool,
)
    requires
        decided(prev, size, resizing).0,
    ensures
        !decided(prev, size, resizing).1,
        !decided(Some(kept(size, true, resizing)), after, still).1,
{
}

/// The number of halvings between the fraction of a float below `2^23` and its value.
pub open spec fn halvings(f: Float) -> nat {
    let e: nat = (f / 0x80_0000) as nat;
    if e == 0 {
        149
    } else {
        (150 - e) as nat
    }
}

/// The fraction of a positive float, as an integer.
pub open spec fn fraction(f: Float) -> nat {
    if f / 0x80_0000 == 0 {
        (f % 0x80_0000) as nat
    } else {
        (f % 0x80_0000 + 0x80_0000) as nat
    }
}

/// A float to the nearest integer, halves up, as far as 16 bits reach. What is negative
/// or no number is zero.
pub open spec fn rounded(f: Float) -> int {
    if f > 0x7f80_0000 {
        0
    } else if f / 0x80_0000 >= 150 {
        0xffff
    } else {
        let s = halvings(f);
        let n = (fraction(f) + pow2((s - 1) as nat)) as int / pow2(s) as int;
        if n > 0xffff {
            0xffff
        } else {
            n
        }
    }
}

fn round(f: Float) -> (r: u16)
    ensures
        r == rounded(f),
{
    if f > 0x7f80_0000 {
        return 0;
    }
    let e: u32 = f / 0x80_0000;
    if e >= 150 {
        return 0xffff;
    }
    let m: u64 = if e == 0 {
        (f % 0x80_0000) as u64
    } else {
        (f % 0x80_0000 + 0x80_0000) as u64
    };
    let s: u32 = if e == 0 {
        149
    } else {
        150 - e
    };
    assert(pow2(24) == 0x100_0000) by {
        vstd::arithmetic::power2::lemma2_to64();
    }
    if s >= 25 {
        proof {
            let half = pow2((s - 1) as nat) as int;
            lemma_pow2_unfold(s as nat);
            if s > 25 {
                lemma_pow2_strictly_increases(24, (s - 1) as nat);
            }
            assert(pow2(s as nat) == 2 * half);
            vstd::arithmetic::div_mod::lemma_fundamental_div_mod_converse(
                m + half,
                pow2(s as nat) as int,
                0,
                m + half,
            );
        }
        return 0;
    }
    let mut half: u64 = 1;
    let mut k: u32 = 1;
    assert(pow2(0) == 1) by {
        vstd::arithmetic::power2::lemma_pow2(0);
        vstd::arithmetic::power::lemma_pow0(2);
    }
    while k < s
        invariant
            1 <= k <= s,
            s <= 24,
            half == pow2((k - 1) as nat),
            half <= 0x100_0000,
            pow2(24) == 0x100_0000,
        decreases s - k,
    {
        proof {
            lemma_pow2_unfold(k as nat);
            lemma_pow2_strictly_increases(k as nat, 24);
        }
        half = half * 2;
        k = k + 1;
    }
    proof {
        lemma_pow2_unfold(s as nat);
        assert(half >= 1) by {
            vstd::arithmetic::power2::lemma_pow2_pos((s - 1) as nat);
        }
    }
    let n: u64 = (m + half) / (2 * half);
    if n > 0xffff {
        0xffff
    } else {
        n as u16
    }
}

/// The size that is committed for a drawn size: each side rounded, so that drawings that
/// differ by a fraction agree on it.
pub fn fitted_size(width: Float, height: Float) -> (r: [u16; 2])
    ensures
        r[0] == rounded(width),
        r[1] == rounded(height),
{
    [round(width), round(height)]
}

} // verus!
