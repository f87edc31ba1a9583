//! Open heads: a named line of history, or a commit on its own.

use crate::commit::{Commit, CommitAddr, CommitView};
use crate::name::Name;
use crate::order::Key;
use crate::registry::{Payload, Registry, RegistryView};
use vstd::prelude::*;

verus! {

/// What an open graph is the head of.
#[derive(Debug)]
pub enum Head {
    /// A named line of history.
    Branch(Name),
    /// A commit.
    Commit(CommitAddr),
}

/// What a [`Head`] denotes.
pub enum HeadView {
    Branch(Seq<Seq<char>>),
    Commit(CommitAddr),
}

impl View for Head {
    type V = HeadView;

    open spec fn view(&self) -> HeadView {
        match self {
            Head::Branch(n) => HeadView::Branch(n@),
            Head::Commit(c) => HeadView::Commit(*c),
        }
    }
}

impl Key for Head {
    open spec fn precedes(a: HeadView, b: HeadView) -> bool {
        match (a, b) {
            (HeadView::Branch(x), HeadView::Branch(y)) => Name::precedes(x, y),
            (HeadView::Commit(x), HeadView::Commit(y)) => CommitAddr::precedes(x, y),
            (HeadView::Branch(_), HeadView::Commit(_)) => true,
            (HeadView::Commit(_), HeadView::Branch(_)) => false,
        }
    }

    proof fn lemma_irreflexive(a: HeadView) {
        match a {
            HeadView::Branch(x) => Name::lemma_irreflexive(x),
            HeadView::Commit(x) => CommitAddr::lemma_irreflexive(x),
        }
    }

    proof fn lemma_transitive(a: HeadView, b: HeadView, c: HeadView) {
        match (a, b, c) {
            (HeadView::Branch(x), HeadView::Branch(y), HeadView::Branch(z)) => {
                Name::lemma_transitive(x, y, z)
            },
            (HeadView::Commit(x), HeadView::Commit(y), HeadView::Commit(z)) => {
                CommitAddr::lemma_transitive(x, y, z)
            },
            _ => {},
        }
    }

    proof fn lemma_total(a: HeadView, b: HeadView) {
        match (a, b) {
            (HeadView::Branch(x), HeadView::Branch(y)) => Name::lemma_total(x, y),
            (HeadView::Commit(x), HeadView::Commit(y)) => CommitAddr::lemma_total(x, y),
            _ => {},
        }
    }

    fn before(&self, other: &Self) -> (r: bool) {
        match (self, other) {
            (Head::Branch(x), Head::Branch(y)) => x.before(y),
            (Head::Commit(x), Head::Commit(y)) => x.before(y),
            (Head::Branch(_), Head::Commit(_)) => true,
            (Head::Commit(_), Head::Branch(_)) => false,
        }
    }

    fn same(&self, other: &Self) -> (r: bool) {
        match (self, other) {
            (Head::Branch(x), Head::Branch(y)) => x.same(y),
            (Head::Commit(x), Head::Commit(y)) => x.same(y),
            _ => false,
        }
    }

    fn dup(&self) -> (r: Self) {
        match self {
            Head::Branch(n) => Head::Branch(n.dup()),
            Head::Commit(c) => Head::Commit(*c),
        }
    }
}

/// What a list of heads denotes.
pub open spec fn head_list(s: Seq<Head>) -> Seq<HeadView> {
    s.map_values(|h: Head| h@)
}

/// A copy of a list of heads.
pub fn dup_heads(v: &Vec<Head>) -> (r: Vec<Head>)
    ensures
        head_list(r@) == head_list(v@),
{
    let mut r: Vec<Head> = Vec::new();
    let mut i: usize = 0;
    while i < v.len()
        invariant
            i <= v@.len(),
            r@.len() == i,
            forall|j: int| 0 <= j < i ==> (#[trigger] r@[j])@ == v@[j]@,
        decreases v@.len() - i,
    {
        r.push(v[i].dup());
        i = i + 1;
    }
    assert(head_list(r@) =~= head_list(v@));
    r
}

impl<T> RegistryView<T> {
    /// The address of the commit a head is at.
    pub open spec fn head_addr(self, h: HeadView) -> Option<CommitAddr> {
        match h {
            HeadView::Branch(n) => self.head(n),
            HeadView::Commit(c) => Some(c),
        }
    }

    /// The commit a head is at, where it is there.
    pub open spec fn head_commit(self, h: HeadView) -> Option<CommitView> {
        match self.head_addr(h) {
            Some(c) => if self.commits.contains_key(c) {
                Some(self.commits[c])
            } else {
                None
            },
            None => None,
        }
    }
}

impl<G: Payload> Registry<G> {
    /// The address of the commit a head is at.
    pub fn head_addr(&self, head: &Head) -> (r: Option<CommitAddr>)
        ensures
            r == self@.head_addr(head@),
    {
        match head {
            Head::Branch(n) => self.head(n),
            Head::Commit(c) => Some(*c),
        }
    }

    /// The commit a head is at, where it is there.
    pub fn head_commit(&self, head: &Head) -> (r: Option<&Commit>)
        ensures
            match r {
                Some(c) => self@.head_commit(head@) == Some(c@),
                None => self@.head_commit(head@) is None,
            },
    {
        match self.head_addr(head) {
            Some(c) => self.commit(&c),
            None => None,
        }
    }
}

} // verus!
