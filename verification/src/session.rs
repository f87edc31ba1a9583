//! Sessions and the peers that may read them.

use vstd::prelude::*;

verus! {

/// A peer, by its public key.
#[derive(Clone, Copy, Debug, PartialEq, Eq, Hash)]
pub struct PeerId(pub [u8; 32]);

impl PeerId {
    /// Whether it is the same peer.
    fn same(&self, other: &Self) -> (r: bool)
        ensures
            r == (self.0@ == other.0@),
    {
        let mut i: usize = 0;
        while i < 32
            invariant
                i <= 32,
                forall|j: int| 0 <= j < i ==> self.0@[j] == other.0@[j],
            decreases 32 - i,
        {
            if self.0[i] != other.0[i] {
                return false;
            }
            i = i + 1;
        }
        assert(self.0@ =~= other.0@);
        true
    }
}

/// A session.
#[derive(Clone, Copy, Debug, PartialEq, Eq, Hash)]
pub struct SessionId(pub [u8; 32]);

/// Who may read a session.
#[derive(Debug)]
pub enum Access {
    /// Anyone.
    Public,
    /// The listed peers.
    Restricted(Vec<PeerId>),
}

impl Access {
    /// Whether `peer` may read.
    pub open spec fn admits(&self, peer: PeerId) -> bool {
        match self {
            Access::Public => true,
            Access::Restricted(allowed) => is_listed(allowed@, peer),
        }
    }
}

/// Whether the peer is among those listed.
pub open spec fn is_listed(allowed: Seq<PeerId>, peer: PeerId) -> bool {
    exists|i: int| 0 <= i < allowed.len() && (#[trigger] allowed[i]).0@ == peer.0@
}

/// A session's configuration.
#[derive(Debug)]
pub struct Session {
    pub id: SessionId,
    pub access: Access,
}

fn holds(allowed: &Vec<PeerId>, peer: PeerId) -> (r: bool)
    ensures
        r == is_listed(allowed@, peer),
{
    let mut i: usize = 0;
    while i < allowed.len()
        invariant
            i <= allowed@.len(),
            forall|j: int| 0 <= j < i ==> (#[trigger] allowed@[j]).0@ != peer.0@,
        decreases allowed@.len() - i,
    {
        if allowed[i].same(&peer) {
            assert(allowed@[i as int].0@ == peer.0@);
            return true;
        }
        i = i + 1;
    }
    false
}

impl Access {
    /// Whether `peer` may read.
    pub fn lets_in(&self, peer: PeerId) -> (r: bool)
        ensures
            r == self.admits(peer),
    {
        match self {
            Access::Public => true,
            Access::Restricted(allowed) => holds(allowed, peer),
        }
    }
}

} // verus!
