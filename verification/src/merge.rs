//! Merging one registry into another.

use crate::addr::ContentAddr;
use crate::commit::CommitAddr;
use crate::graph::GraphAddr;
use crate::name::Name;
use crate::order::Key;
use crate::registry::{
    self, BlobStore, BlobView, KeyView, MergePolicy, Payload, Registry, RegistryView, Section, SectionView,
};
use crate::table::{self, Join};
use vstd::prelude::*;

verus! {

/// What a merge did to the heads.
#[derive(Debug)]
pub struct MergeReport {
    /// The heads that were not there, by name.
    pub heads_added: Vec<(Name, CommitAddr)>,
    /// The heads that moved: the name, the commit before and the commit after.
    pub heads_replaced: Vec<(Name, CommitAddr, CommitAddr)>,
}

/// Two sections put together, by the policy of the one that is there.
pub open spec fn merged_section(a: SectionView, b: SectionView) -> SectionView {
    SectionView {
        entries: match a.policy {
            MergePolicy::KeepExisting => b.entries.union_prefer_right(a.entries),
            MergePolicy::TakeIncoming => a.entries.union_prefer_right(b.entries),
        },
        ..a
    }
}

/// Two stores put together.
pub open spec fn merged_store(a: BlobView, b: BlobView) -> BlobView {
    BlobView { entries: b.entries.union_prefer_right(a.entries), ..a }
}

/// The registry `a` with `b` merged in: content goes under its address unless
/// something is there, sections meet by their policy.
pub open spec fn merged<T>(a: RegistryView<T>, b: RegistryView<T>) -> RegistryView<T> {
    RegistryView {
        graphs: b.graphs.union_prefer_right(a.graphs),
        commits: b.commits.union_prefer_right(a.commits),
        sections: Map::new(
            |id: Seq<char>| a.sections.contains_key(id) || b.sections.contains_key(id),
            |id: Seq<char>|
                if a.sections.contains_key(id) && b.sections.contains_key(id) {
                    merged_section(a.sections[id], b.sections[id])
                } else if a.sections.contains_key(id) {
                    a.sections[id]
                } else {
                    b.sections[id]
                },
        ),
        blobs: Map::new(
            |id: Seq<char>| a.blobs.contains_key(id) || b.blobs.contains_key(id),
            |id: Seq<char>|
                if a.blobs.contains_key(id) && b.blobs.contains_key(id) {
                    merged_store(a.blobs[id], b.blobs[id])
                } else if a.blobs.contains_key(id) {
                    a.blobs[id]
                } else {
                    b.blobs[id]
                },
        ),
    }
}

/// The listed heads that `before` lacks.
pub open spec fn added<T>(
    before: RegistryView<T>,
    after: Seq<(Seq<Seq<char>>, CommitAddr)>,
) -> Seq<(Seq<Seq<char>>, CommitAddr)>
    decreases after.len(),
{
    if after.len() == 0 {
        Seq::empty()
    } else {
        let init = added(before, after.drop_last());
        if before.head(after.last().0) is None {
            init.push(after.last())
        } else {
            init
        }
    }
}

/// The listed heads that `before` has at another commit.
pub open spec fn replaced<T>(
    before: RegistryView<T>,
    after: Seq<(Seq<Seq<char>>, CommitAddr)>,
) -> Seq<(Seq<Seq<char>>, CommitAddr, CommitAddr)>
    decreases after.len(),
{
    if after.len() == 0 {
        Seq::empty()
    } else {
        let init = replaced(before, after.drop_last());
        match before.head(after.last().0) {
            Some(c) => if c != after.last().1 {
                init.push((after.last().0, c, after.last().1))
            } else {
                init
            },
            None => init,
        }
    }
}

/// What a list of moved heads denotes.
pub open spec fn moved_views(s: Seq<(Name, CommitAddr, CommitAddr)>) -> Seq<
    (Seq<Seq<char>>, CommitAddr, CommitAddr),
> {
    s.map_values(|h: (Name, CommitAddr, CommitAddr)| (h.0@, h.1, h.2))
}

/// Whether the report says what became of the heads between `before` and `after`.
pub open spec fn reports<T>(r: MergeReport, before: RegistryView<T>, after: RegistryView<T>) -> bool {
    exists|heads: Seq<(Name, CommitAddr)>| #[trigger]
        after.lists_heads(heads) && registry::head_views(r.heads_added@) == added(
            before,
            registry::head_views(heads),
        ) && moved_views(r.heads_replaced@) == replaced(before, registry::head_views(heads))
}

struct Keep {}

impl<V: View> Join<V> for Keep {
    closed spec fn joined(&self, x: V::V, y: V::V) -> V::V {
        x
    }

    fn join(&self, x: V, y: V) -> (r: V) {
        x
    }
}

struct Sections {}

impl Join<Section> for Sections {
    closed spec fn joined(&self, x: SectionView, y: SectionView) -> SectionView {
        merged_section(x, y)
    }

    fn join(&self, x: Section, y: Section) -> (r: Section) {
        let keep = Keep {  };
        let ghost a = x@;
        let ghost b = y@;
        let entries = match x.policy {
            MergePolicy::KeepExisting => table::join(x.entries, y.entries, &keep),
            MergePolicy::TakeIncoming => table::join(y.entries, x.entries, &keep),
        };
        let r = Section { policy: x.policy, liveness: x.liveness, entries };
        proof {
            assert(r@.entries =~= table::views(entries@));
            assert(a.entries =~= table::views(x.entries@));
            assert(b.entries =~= table::views(y.entries@));
            assert(r@ =~= merged_section(a, b));
        }
        r
    }
}

struct Stores {}

impl Join<BlobStore> for Stores {
    closed spec fn joined(&self, x: BlobView, y: BlobView) -> BlobView {
        merged_store(x, y)
    }

    fn join(&self, x: BlobStore, y: BlobStore) -> (r: BlobStore) {
        let keep = Keep {  };
        let ghost a = x@;
        let ghost b = y@;
        let entries = table::join(x.entries, y.entries, &keep);
        let r = BlobStore { liveness: x.liveness, entries };
        proof {
            assert(r@.entries =~= table::views(entries@));
            assert(a.entries =~= table::views(x.entries@));
            assert(b.entries =~= table::views(y.entries@));
            assert(r@ =~= merged_store(a, b));
        }
        r
    }
}

/// Puts two registries together, the first being the one that is there.
fn joined<G: Payload>(a: Registry<G>, b: Registry<G>) -> (r: Registry<G>)
    ensures
        r@ == merged(a@, b@),
{
    let keep = Keep {  };
    let ghost av = a@;
    let ghost bv = b@;
    let r = Registry {
        graphs: table::join(a.graphs, b.graphs, &keep),
        commits: table::join(a.commits, b.commits, &keep),
        sections: table::join(a.sections, b.sections, &(Sections {  })),
        blobs: table::join(a.blobs, b.blobs, &(Stores {  })),
    };
    proof {
        let e = merged(av, bv);
        assert(av.graphs =~= table::views(a.graphs@));
        assert(bv.graphs =~= table::views(b.graphs@));
        assert(r@.graphs =~= table::views(r.graphs@));
        assert(r@.graphs =~= e.graphs);
        assert(av.commits =~= table::views(a.commits@));
        assert(bv.commits =~= table::views(b.commits@));
        assert(r@.commits =~= table::views(r.commits@));
        assert(r@.commits =~= e.commits);
        assert(av.sections =~= table::views(a.sections@));
        assert(bv.sections =~= table::views(b.sections@));
        assert(r@.sections =~= table::views(r.sections@));
        assert(r@.sections =~= e.sections);
        assert(av.blobs =~= table::views(a.blobs@));
        assert(bv.blobs =~= table::views(b.blobs@));
        assert(r@.blobs =~= table::views(r.blobs@));
        assert(r@.blobs =~= e.blobs);
    }
    r
}

impl<G: Payload> Registry<G> {
    /// Merges another registry into this one, and says what became of the heads.
    pub fn merge(&mut self, other: Registry<G>) -> (r: MergeReport)
        ensures
            final(self)@ == merged(old(self)@, other@),
            reports(r, old(self)@, final(self)@),
    {
        let ghost before = self@;
        let mut own = Registry::new();
        std::mem::swap(&mut own, self);
        let old_heads = own.heads();
        *self = joined(own, other);
        let heads = self.heads();
        let ghost hv = registry::head_views(heads@);
        let mut heads_added: Vec<(Name, CommitAddr)> = Vec::new();
        let mut heads_replaced: Vec<(Name, CommitAddr, CommitAddr)> = Vec::new();
        let mut i: usize = 0;
        assert(registry::head_views(heads_added@) =~= added(before, hv.take(0)));
        assert(moved_views(heads_replaced@) =~= replaced(before, hv.take(0)));
        while i < heads.len()
            invariant
                i <= heads@.len(),
                hv == registry::head_views(heads@),
                before.lists_heads(old_heads@),
                registry::head_views(heads_added@) == added(before, hv.take(i as int)),
                moved_views(heads_replaced@) == replaced(before, hv.take(i as int)),
            decreases heads@.len() - i,
        {
            let ghost a0 = heads_added@;
            let ghost r0 = heads_replaced@;
            proof {
                assert(hv.take(i + 1).drop_last() =~= hv.take(i as int));
                assert(hv.take(i + 1).last() == (heads@[i as int].0@, heads@[i as int].1));
            }
            match listed_head::<G::V>(&old_heads, &heads[i].0, Ghost(before)) {
                None => {
                    heads_added.push((heads[i].0.dup(), heads[i].1));
                    assert(registry::head_views(heads_added@) =~= registry::head_views(a0).push(
                        (heads@[i as int].0@, heads@[i as int].1),
                    ));
                },
                Some(c) => {
                    if !c.same(&heads[i].1) {
                        heads_replaced.push((heads[i].0.dup(), c, heads[i].1));
                        assert(moved_views(heads_replaced@) =~= moved_views(r0).push(
                            (heads@[i as int].0@, c, heads@[i as int].1),
                        ));
                    }
                },
            }
            i = i + 1;
        }
        assert(hv.take(i as int) =~= hv);
        assert(self@.lists_heads(heads@));
        MergeReport { heads_added, heads_replaced }
    }
}

/// The commit at a listed head.
fn listed_head<T>(
    heads: &Vec<(Name, CommitAddr)>,
    name: &Name,
    Ghost(rv): Ghost<RegistryView<T>>,
) -> (r: Option<CommitAddr>)
    requires
        rv.lists_heads(heads@),
    ensures
        r == rv.head(name@),
{
    let mut i: usize = 0;
    while i < heads.len()
        invariant
            rv.lists_heads(heads@),
            i <= heads@.len(),
            forall|j: int| 0 <= j < i ==> (#[trigger] heads@[j]).0@ != name@,
        decreases heads@.len() - i,
    {
        if heads[i].0.same(name) {
            assert(rv.head(heads@[i as int].0@) == Some(heads@[i as int].1));
            return Some(heads[i].1);
        }
        i = i + 1;
    }
    None
}

/// Merging a registry in a second time changes nothing.
pub proof fn lemma_merged_twice<T>(a: RegistryView<T>, b: RegistryView<T>)
    ensures
        merged(merged(a, b), b) == merged(a, b),
{
    let m = merged(a, b);
    let n = merged(m, b);
    assert(n.graphs =~= m.graphs);
    assert(n.commits =~= m.commits);
    assert forall|id: Seq<char>| m.sections.contains_key(id) implies n.sections[id]
        == m.sections[id] by {
        assert(n.sections[id].entries =~= m.sections[id].entries);
    }
    assert(n.sections =~= m.sections);
    assert forall|id: Seq<char>| m.blobs.contains_key(id) implies n.blobs[id] == m.blobs[id] by {
        assert(n.blobs[id].entries =~= m.blobs[id].entries);
    }
    assert(n.blobs =~= m.blobs);
    assert(n =~= m);
}

/// Merging a registry in a second time changes nothing and reports nothing.
pub proof fn law_merge_is_idempotent<T>(a: RegistryView<T>, b: RegistryView<T>, r: MergeReport)
    requires
        reports(r, merged(a, b), merged(merged(a, b), b)),
    ensures
        merged(merged(a, b), b) == merged(a, b),
        r.heads_added@.len() == 0,
        r.heads_replaced@.len() == 0,
{
    let m = merged(a, b);
    let n = merged(m, b);
    lemma_merged_twice(a, b);
    let heads = choose|heads: Seq<(Name, CommitAddr)>| #[trigger]
        n.lists_heads(heads) && registry::head_views(r.heads_added@) == added(
            m,
            registry::head_views(heads),
        ) && moved_views(r.heads_replaced@) == replaced(m, registry::head_views(heads));
    let hv = registry::head_views(heads);
    assert forall|i: int| 0 <= i < hv.len() implies m.head((#[trigger] hv[i]).0) == Some(hv[i].1) by {
        assert(n.head(heads[i].0@) == Some(heads[i].1));
    }
    lemma_nothing_moved(m, hv);
    assert(registry::head_views(r.heads_added@).len() == 0);
    assert(moved_views(r.heads_replaced@).len() == 0);
}

proof fn lemma_nothing_moved<T>(m: RegistryView<T>, hv: Seq<(Seq<Seq<char>>, CommitAddr)>)
    requires
        forall|i: int| 0 <= i < hv.len() ==> m.head((#[trigger] hv[i]).0) == Some(hv[i].1),
    ensures
        added(m, hv).len() == 0,
        replaced(m, hv).len() == 0,
    decreases hv.len(),
{
    if hv.len() > 0 {
        let init = hv.drop_last();
        assert forall|i: int| 0 <= i < init.len() implies m.head((#[trigger] init[i]).0) == Some(
            init[i].1,
        ) by {
            assert(init[i] == hv[i]);
        }
        lemma_nothing_moved(m, init);
        assert(hv[hv.len() - 1] == hv.last());
    }
}

/// Merging into a registry that holds nothing gives the registry merged in.
pub proof fn law_merge_into_nothing<T>(b: RegistryView<T>)
    ensures
        merged(RegistryView::<T>::empty(), b) == b,
{
    assert(merged(RegistryView::<T>::empty(), b) =~= b);
}

/// A merge loses nothing: the graphs, commits and blobs that were there stay as they
/// were, and those merged in are there too.
pub proof fn law_merge_keeps_content<T>(a: RegistryView<T>, b: RegistryView<T>)
    ensures
        forall|g: GraphAddr| #[trigger]
            a.graphs.contains_key(g) ==> merged(a, b).graphs.contains_key(g)
                && merged(a, b).graphs[g] == a.graphs[g],
        forall|g: GraphAddr| #[trigger]
            b.graphs.contains_key(g) ==> merged(a, b).graphs.contains_key(g),
        forall|c: CommitAddr| #[trigger]
            a.commits.contains_key(c) ==> merged(a, b).commits.contains_key(c)
                && merged(a, b).commits[c] == a.commits[c],
        forall|c: CommitAddr| #[trigger]
            b.commits.contains_key(c) ==> merged(a, b).commits.contains_key(c),
        forall|id: Seq<char>, x: ContentAddr|
            a.blobs.contains_key(id) && #[trigger] a.blobs[id].entries.contains_key(x) ==> merged(
                a,
                b,
            ).blobs.contains_key(id) && merged(a, b).blobs[id].entries.contains_key(x) && merged(
                a,
                b,
            ).blobs[id].entries[x] == a.blobs[id].entries[x],
        forall|id: Seq<char>, x: ContentAddr|
            b.blobs.contains_key(id) && #[trigger] b.blobs[id].entries.contains_key(x) ==> merged(
                a,
                b,
            ).blobs.contains_key(id) && merged(a, b).blobs[id].entries.contains_key(x),
{
}

/// A head that is merged in replaces the one of that name; a head of any other name
/// stays where it is.
pub proof fn law_incoming_heads_win<T>(a: RegistryView<T>, b: RegistryView<T>, n: Seq<Seq<char>>)
    requires
        a.sections.contains_key(registry::HEADS_ID@) ==> a.sections[registry::HEADS_ID@].policy
            == MergePolicy::TakeIncoming,
        b.head(n) is None && b.sections.contains_key(registry::HEADS_ID@)
            ==> !b.sections[registry::HEADS_ID@].entries.contains_key(registry::KeyView::Name(n)),
    ensures
        merged(a, b).head(n) == (match b.head(n) {
            Some(c) => Some(c),
            None => a.head(n),
        }),
{
}

} // verus!
