//! Commits: the points of a line of history, each with the graph it recorded.

use crate::addr::ContentAddr;
use crate::graph::GraphAddr;
use crate::hash::{self, CaHash, Hasher};
use crate::order::Key;
use vstd::prelude::*;

verus! {

/// The address of a commit.
#[derive(Clone, Copy, Debug, PartialEq, Eq, Hash)]
pub struct CommitAddr(pub ContentAddr);

impl From<ContentAddr> for CommitAddr {
    fn from(ca: ContentAddr) -> (r: Self) {
        CommitAddr(ca)
    }
}

impl vstd::std_specs::convert::FromSpecImpl<ContentAddr> for CommitAddr {
    open spec fn obeys_from_spec() -> bool {
        true
    }

    open spec fn from_spec(ca: ContentAddr) -> Self {
        CommitAddr(ca)
    }
}

impl From<CommitAddr> for ContentAddr {
    fn from(addr: CommitAddr) -> (r: Self) {
        addr.0
    }
}

impl vstd::std_specs::convert::FromSpecImpl<CommitAddr> for ContentAddr {
    open spec fn obeys_from_spec() -> bool {
        true
    }

    open spec fn from_spec(addr: CommitAddr) -> Self {
        addr.0
    }
}

impl View for CommitAddr {
    type V = CommitAddr;

    open spec fn view(&self) -> CommitAddr {
        *self
    }
}

impl Key for CommitAddr {
    open spec fn precedes(a: CommitAddr, b: CommitAddr) -> bool {
        ContentAddr::precedes(a.0, b.0)
    }

    proof fn lemma_irreflexive(a: CommitAddr) {
        ContentAddr::lemma_irreflexive(a.0);
    }

    proof fn lemma_transitive(a: CommitAddr, b: CommitAddr, c: CommitAddr) {
        ContentAddr::lemma_transitive(a.0, b.0, c.0);
    }

    proof fn lemma_total(a: CommitAddr, b: CommitAddr) {
        ContentAddr::lemma_total(a.0, b.0);
    }

    fn before(&self, other: &Self) -> (r: bool) {
        self.0.before(&other.0)
    }

    fn same(&self, other: &Self) -> (r: bool) {
        self.0.same(&other.0)
    }

    fn dup(&self) -> (r: Self) {
        *self
    }
}

/// A point in time, as the time passed since the epoch.
#[derive(Clone, Copy, Debug, PartialEq, Eq, Hash, Structural)]
pub struct Timestamp {
    pub secs: u64,
    pub nanos: u32,
}

/// A commit: when it was made, what it follows, and the graph it recorded.
#[derive(Debug)]
pub struct Commit {
    pub timestamp: Timestamp,
    /// The commit this one follows.
    pub parent: Option<CommitAddr>,
    /// The graph it recorded.
    pub graph: GraphAddr,
    /// The further commits a merge follows.
    pub merge_parents: Vec<CommitAddr>,
}

/// What a [`Commit`] denotes.
#[verifier::ext_equal]
pub struct CommitView {
    pub timestamp: Timestamp,
    pub parent: Option<CommitAddr>,
    pub graph: GraphAddr,
    pub merge_parents: Seq<CommitAddr>,
}

impl View for Commit {
    type V = CommitView;

    open spec fn view(&self) -> CommitView {
        CommitView {
            timestamp: self.timestamp,
            parent: self.parent,
            graph: self.graph,
            merge_parents: self.merge_parents@,
        }
    }
}

impl CommitView {
    /// The commits this one follows.
    pub open spec fn parents(self) -> Seq<CommitAddr> {
        match self.parent {
            Some(p) => seq![p] + self.merge_parents,
            None => self.merge_parents,
        }
    }
}

/// A copy of a list of addresses.
pub fn dup_commits(v: &Vec<CommitAddr>) -> (r: Vec<CommitAddr>)
    ensures
        r@ == v@,
{
    let mut r: Vec<CommitAddr> = Vec::new();
    let mut i: usize = 0;
    while i < v.len()
        invariant
            i <= v@.len(),
            r@ =~= v@.take(i as int),
        decreases v@.len() - i,
    {
        r.push(v[i]);
        i = i + 1;
    }
    assert(v@.take(i as int) =~= v@);
    r
}

impl Commit {
    /// A commit that follows at most one other.
    pub fn new(timestamp: Timestamp, parent: Option<CommitAddr>, graph: GraphAddr) -> (r: Self)
        ensures
            r@ == (CommitView { timestamp, parent, graph, merge_parents: Seq::empty() }),
    {
        Commit { timestamp, parent, graph, merge_parents: Vec::new() }
    }

    /// The commits this one follows.
    pub fn parents(&self) -> (r: Vec<CommitAddr>)
        ensures
            r@ == self@.parents(),
    {
        match self.parent {
            Some(p) => {
                let mut r = vec![p];
                let mut more = dup_commits(&self.merge_parents);
                r.append(&mut more);
                assert(r@ =~= self@.parents());
                r
            },
            None => dup_commits(&self.merge_parents),
        }
    }

    /// The same commit.
    pub fn dup(&self) -> (r: Self)
        ensures
            r@ == self@,
    {
        Commit {
            timestamp: self.timestamp,
            parent: self.parent,
            graph: self.graph,
            merge_parents: dup_commits(&self.merge_parents),
        }
    }
}

/// The prefix that sets commit addresses apart from all other kinds:
/// `gantz.commit`.
pub open spec fn commit_tag() -> Seq<u8> {
    seq![103u8, 97, 110, 116, 122, 46, 99, 111, 109, 109, 105, 116]
}

/// The bytes of a list of addresses.
pub open spec fn addrs_bytes(s: Seq<CommitAddr>) -> Seq<u8>
    decreases s.len(),
{
    if s.len() == 0 {
        Seq::empty()
    } else {
        addrs_bytes(s.drop_last()) + s.last().0.bytes()
    }
}

/// The bytes a commit is addressed by.
pub open spec fn commit_bytes(c: CommitView) -> Seq<u8> {
    commit_tag() + hash::be(c.timestamp.secs as nat, 8) + hash::be(c.timestamp.nanos as nat, 4)
        + hash::be(
        if c.parent is Some {
            1
        } else {
            0
        },
        1,
    ) + match c.parent {
        Some(p) => p.0.bytes(),
        None => Seq::empty(),
    } + c.graph.0.bytes() + addrs_bytes(c.merge_parents)
}

impl CaHash for Commit {
    open spec fn ca_bytes(&self) -> Seq<u8> {
        commit_bytes(self@)
    }

    fn hash(&self, hasher: &mut Hasher) {
        let tag: [u8; 12] = [103, 97, 110, 116, 122, 46, 99, 111, 109, 109, 105, 116];
        assert(tag@ =~= commit_tag());
        hasher.update(&tag);
        hasher.update_be(self.timestamp.secs, 8);
        hasher.update_be(self.timestamp.nanos as u64, 4);
        match self.parent {
            Some(p) => {
                hasher.update_be(1, 1);
                p.0.hash(hasher);
            },
            None => {
                hasher.update_be(0, 1);
            },
        }
        self.graph.hash(hasher);
        let ghost mid = hasher@;
        let mut i: usize = 0;
        assert(self.merge_parents@.take(0) =~= Seq::empty());
        assert(hasher@ =~= mid + addrs_bytes(self.merge_parents@.take(0)));
        while i < self.merge_parents.len()
            invariant
                i <= self.merge_parents@.len(),
                hasher@ == mid + addrs_bytes(self.merge_parents@.take(i as int)),
            decreases self.merge_parents@.len() - i,
        {
            self.merge_parents[i].0.hash(hasher);
            proof {
                let t = self.merge_parents@.take(i + 1);
                assert(t.drop_last() =~= self.merge_parents@.take(i as int));
                assert(hasher@ =~= mid + addrs_bytes(t));
            }
            i = i + 1;
        }
        assert(self.merge_parents@.take(i as int) =~= self.merge_parents@);
        assert(hasher@ =~= old(hasher)@ + self.ca_bytes());
    }
}

/// The address of a commit.
pub fn commit_addr(c: &Commit) -> (r: CommitAddr)
    ensures
        hash::addresses(r.0, commit_bytes(c@)),
{
    CommitAddr(hash::content_addr(c))
}

/// A commit's parents are its first parent, where it has one, and then those merged in.
pub proof fn law_first_parent_comes_first(c: CommitView, i: int)
    ensures
        c.parent is None ==> c.parents() == c.merge_parents,
        c.parent is Some ==> {
            &&& c.parents().len() == c.merge_parents.len() + 1
            &&& c.parents()[0] == c.parent->0
            &&& 0 <= i < c.merge_parents.len() ==> c.parents()[i + 1] == c.merge_parents[i]
        },
{
}

} // verus!
