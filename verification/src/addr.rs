//! Content addresses: the 32-byte digests by which graphs, commits, nodes and
//! blobs are identified.

use crate::order::{self, Key};
use vstd::prelude::*;

verus! {

/// The order of two bytes.
pub open spec fn byte_lt() -> spec_fn(u8, u8) -> bool {
    |a: u8, b: u8| a < b
}

/// The address of some content: its 32-byte digest.
#[derive(Clone, Copy, Debug, PartialEq, Eq, Hash)]
pub struct ContentAddr(pub [u8; 32]);

impl ContentAddr {
    /// The digest's bytes.
    pub open spec fn bytes(&self) -> Seq<u8> {
        self.0@
    }
}

/// Two addresses with the same bytes are the same address.
pub proof fn lemma_addr_ext(a: ContentAddr, b: ContentAddr)
    requires
        a.bytes() == b.bytes(),
    ensures
        a == b,
{
    assert forall|i: int| 0 <= i < 32 implies a.0[i] == b.0[i] by {
        assert(a.0@[i] == b.0@[i]);
    }
    assert(a.0 =~= b.0);
}

impl View for ContentAddr {
    type V = ContentAddr;

    open spec fn view(&self) -> ContentAddr {
        *self
    }
}

proof fn lemma_byte_order()
    ensures
        order::strict_total(byte_lt()),
{
    assert forall|a: u8| !#[trigger] byte_lt()(a, a) by {}
    assert forall|a: u8, b: u8, c: u8| #[trigger] byte_lt()(a, b) && #[trigger] byte_lt()(b, c)
        implies byte_lt()(a, c) by {}
    assert forall|a: u8, b: u8| a == b || #[trigger] byte_lt()(a, b) || byte_lt()(b, a) by {}
}

impl Key for ContentAddr {
    open spec fn precedes(a: ContentAddr, b: ContentAddr) -> bool {
        order::lex_lt(a.bytes(), b.bytes(), byte_lt())
    }

    proof fn lemma_irreflexive(a: ContentAddr) {
        lemma_byte_order();
        order::lemma_lex_irreflexive(a.bytes(), byte_lt());
    }

    proof fn lemma_transitive(a: ContentAddr, b: ContentAddr, c: ContentAddr) {
        lemma_byte_order();
        order::lemma_lex_transitive(a.bytes(), b.bytes(), c.bytes(), byte_lt());
    }

    proof fn lemma_total(a: ContentAddr, b: ContentAddr) {
        lemma_byte_order();
        order::lemma_lex_total(a.bytes(), b.bytes(), byte_lt());
        if a.bytes() == b.bytes() {
            lemma_addr_ext(a, b);
        }
    }

    fn before(&self, other: &Self) -> (r: bool) {
        proof {
            lemma_byte_order();
        }
        let mut i: usize = 0;
        while i < 32
            invariant
                i <= 32,
                order::strict_total(byte_lt()),
                forall|j: int| 0 <= j < i ==> self.0@[j] == other.0@[j],
            decreases 32 - i,
        {
            if self.0[i] != other.0[i] {
                proof {
                    order::lemma_lex_at(self.bytes(), other.bytes(), i as int, byte_lt());
                }
                return self.0[i] < other.0[i];
            }
            i = i + 1;
        }
        proof {
            order::lemma_lex_at(self.bytes(), other.bytes(), 32, byte_lt());
        }
        false
    }

    fn same(&self, other: &Self) -> (r: bool) {
        let mut i: usize = 0;
        while i < 32
            invariant
                i <= 32,
                forall|j: int| 0 <= j < i ==> self.0@[j] == other.0@[j],
            decreases 32 - i,
        {
            if self.0[i] != other.0[i] {
                return false;
            }
            i = i + 1;
        }
        proof {
            assert(self.0@ =~= other.0@);
            lemma_addr_ext(*self, *other);
        }
        true
    }

    fn dup(&self) -> (r: Self) {
        *self
    }
}

} // verus!
