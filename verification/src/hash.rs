//! Content hashing: the bytes a value is addressed by, and their digest.

use crate::addr::ContentAddr;
use vstd::prelude::*;

verus! {

/// The digest that `blake3::hash` gives for some bytes.
pub uninterp spec fn blake3_digest(input: Seq<u8>) -> Seq<u8>;

/// Calls `blake3::hash`. Claimed of it: the 32 bytes it returns depend on the
/// input bytes alone.
#[verifier::external_body]
fn blake3_hash(input: &[u8]) -> (r: [u8; 32])
    ensures
        r@ == blake3_digest(input@),
{
    *blake3::hash(input).as_bytes()
}

/// The last `width` bytes of `x`, most significant first.
pub open spec fn be(x: nat, width: nat) -> Seq<u8>
    decreases width,
{
    if width == 0 {
        Seq::empty()
    } else {
        be(x / 256, (width - 1) as nat).push((x % 256) as u8)
    }
}

/// The last `width` bytes of `x`, least significant first.
pub open spec fn le(x: nat, width: nat) -> Seq<u8>
    decreases width,
{
    if width == 0 {
        Seq::empty()
    } else {
        seq![(x % 256) as u8] + le(x / 256, (width - 1) as nat)
    }
}

/// The length of [`le`].
pub proof fn lemma_le_len(x: nat, width: nat)
    ensures
        le(x, width).len() == width,
    decreases width,
{
    if width > 0 {
        lemma_le_len(x / 256, (width - 1) as nat);
    }
}

/// Numbers that fit in `width` bytes are told apart by them.
pub proof fn lemma_le_injective(x: nat, y: nat, width: nat)
    requires
        x < room(width),
        y < room(width),
        le(x, width) == le(y, width),
    ensures
        x == y,
    decreases width,
{
    if width > 0 {
        let w = (width - 1) as nat;
        assert(le(x, width)[0] == (x % 256) as u8);
        assert(le(y, width)[0] == (y % 256) as u8);
        assert(le(x, width).skip(1) =~= le(x / 256, w));
        assert(le(y, width).skip(1) =~= le(y / 256, w));
        lemma_le_injective(x / 256, y / 256, w);
    }
}

/// How many numbers `width` bytes can tell apart.
pub open spec fn room(width: nat) -> nat
    decreases width,
{
    if width == 0 {
        1
    } else {
        256 * room((width - 1) as nat)
    }
}

/// Numbers that fit in `width` bytes are told apart by them.
pub proof fn lemma_be_injective(x: nat, y: nat, width: nat)
    requires
        x < room(width),
        y < room(width),
        be(x, width) == be(y, width),
    ensures
        x == y,
    decreases width,
{
    if width > 0 {
        let w = (width - 1) as nat;
        let a = be(x / 256, w);
        let b = be(y / 256, w);
        assert(be(x, width).drop_last() =~= a);
        assert(be(y, width).drop_last() =~= b);
        assert(be(x, width).last() == (x % 256) as u8);
        assert(be(y, width).last() == (y % 256) as u8);
        lemma_be_injective(x / 256, y / 256, w);
    }
}

/// The length of [`be`].
pub proof fn lemma_be_len(x: nat, width: nat)
    ensures
        be(x, width).len() == width,
    decreases width,
{
    if width > 0 {
        lemma_be_len(x / 256, (width - 1) as nat);
    }
}

/// Accumulates the bytes to be hashed.
#[derive(Debug)]
pub struct Hasher {
    bytes: Vec<u8>,
}

impl View for Hasher {
    type V = Seq<u8>;

    closed spec fn view(&self) -> Seq<u8> {
        self.bytes@
    }
}

impl Hasher {
    /// A hasher that was fed nothing.
    pub fn new() -> (r: Self)
        ensures
            r@ == Seq::<u8>::empty(),
    {
        Hasher { bytes: Vec::new() }
    }

    /// Feeds bytes.
    pub fn update(&mut self, bytes: &[u8])
        ensures
            final(self)@ == old(self)@ + bytes@,
    {
        let mut i: usize = 0;
        assert(self@ =~= old(self)@ + bytes@.take(0));
        while i < bytes.len()
            invariant
                i <= bytes@.len(),
                self@ == old(self)@ + bytes@.take(i as int),
            decreases bytes@.len() - i,
        {
            self.bytes.push(bytes[i]);
            assert(bytes@.take(i + 1) =~= bytes@.take(i as int).push(bytes@[i as int]));
            i = i + 1;
        }
        assert(bytes@.take(i as int) =~= bytes@);
    }

    /// Feeds the last `width` bytes of `x`, most significant first.
    pub fn update_be(&mut self, x: u64, width: usize)
        ensures
            final(self)@ == old(self)@ + be(x as nat, width as nat),
        decreases width,
    {
        if width > 0 {
            self.update_be(x / 256, width - 1);
            let ghost mid = self@;
            self.bytes.push((x % 256) as u8);
            assert(self@ =~= old(self)@ + be(x as nat, width as nat));
        } else {
            assert(self@ =~= old(self)@ + be(x as nat, 0));
        }
    }

    /// Feeds the last `width` bytes of `x`, least significant first.
    pub fn update_le(&mut self, x: u64, width: usize)
        ensures
            final(self)@ == old(self)@ + le(x as nat, width as nat),
        decreases width,
    {
        if width > 0 {
            self.bytes.push((x % 256) as u8);
            let ghost mid = self@;
            self.update_le(x / 256, width - 1);
            assert(mid =~= old(self)@ + seq![(x % 256) as u8]);
            assert(self@ =~= old(self)@ + le(x as nat, width as nat));
        } else {
            assert(self@ =~= old(self)@ + le(x as nat, 0));
        }
    }

    /// The digest of all bytes fed.
    pub fn finalize(&self) -> (r: [u8; 32])
        ensures
            r@ == blake3_digest(self@),
    {
        blake3_hash(self.bytes.as_slice())
    }
}

/// A value with a content address: it feeds the hasher a fixed sequence of bytes.
pub trait CaHash {
    /// The bytes the value is addressed by.
    spec fn ca_bytes(&self) -> Seq<u8>;

    /// Feeds the value's bytes.
    fn hash(&self, hasher: &mut Hasher)
        ensures
            final(hasher)@ == old(hasher)@ + self.ca_bytes(),
    ;
}

impl CaHash for u32 {
    open spec fn ca_bytes(&self) -> Seq<u8> {
        be(*self as nat, 4)
    }

    fn hash(&self, hasher: &mut Hasher) {
        hasher.update_be(*self as u64, 4);
    }
}

impl CaHash for u64 {
    open spec fn ca_bytes(&self) -> Seq<u8> {
        be(*self as nat, 8)
    }

    fn hash(&self, hasher: &mut Hasher) {
        hasher.update_be(*self, 8);
    }
}

impl CaHash for ContentAddr {
    open spec fn ca_bytes(&self) -> Seq<u8> {
        self.bytes()
    }

    fn hash(&self, hasher: &mut Hasher) {
        hasher.update(&self.0);
    }
}

/// Whether `addr` is the address of content with the given bytes.
pub open spec fn addresses(addr: ContentAddr, bytes: Seq<u8>) -> bool {
    addr.bytes() == blake3_digest(bytes)
}

/// The address of content with the given bytes.
pub open spec fn addr_of(bytes: Seq<u8>) -> ContentAddr {
    choose|addr: ContentAddr| addresses(addr, bytes)
}

/// Content has one address.
pub proof fn lemma_addr_of(addr: ContentAddr, bytes: Seq<u8>)
    requires
        addresses(addr, bytes),
    ensures
        addr_of(bytes) == addr,
{
    crate::addr::lemma_addr_ext(addr_of(bytes), addr);
}

/// The content address of a value.
pub fn content_addr<T: CaHash>(value: &T) -> (r: ContentAddr)
    ensures
        addresses(r, value.ca_bytes()),
{
    let mut hasher = Hasher::new();
    value.hash(&mut hasher);
    assert(hasher@ =~= value.ca_bytes());
    ContentAddr(hasher.finalize())
}

/// The number that bytes stand for, the most significant first.
pub open spec fn weighed(s: Seq<u8>) -> nat
    decreases s.len(),
{
    if s.len() == 0 {
        0
    } else {
        weighed(s.drop_last()) * 256 + s.last() as nat
    }
}

/// A number is fed with its most significant byte first, or last in the other order, and
/// reads back as itself as far as it fits.
pub proof fn law_fed_numbers_read_back(x: nat, width: nat)
    ensures
        be(x, width).len() == width,
        x < room(width) ==> weighed(be(x, width)) == x,
        le(x, width) == be(x, width).reverse(),
    decreases width,
{
    if width > 0 {
        let w = (width - 1) as nat;
        law_fed_numbers_read_back(x / 256, w);
        assert(be(x, width).drop_last() =~= be(x / 256, w));
        assert(le(x, width) =~= be(x, width).reverse());
        if x < room(width) {
            assert(room(width) == 256 * room(w));
            assert(x / 256 < room(w));
        }
    } else {
        assert(le(x, width) =~= be(x, width).reverse());
    }
}

} // verus!
