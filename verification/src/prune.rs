//! Pruning a registry down to what is live, and exporting the live part.

use crate::addr::ContentAddr;
use crate::commit::{Commit, CommitAddr, CommitView};
use crate::graph::GraphAddr;
use crate::order::Key;
use crate::reach::{self, Item, LiveSet, OutView};
use crate::registry::{
    self, BlobStore, BlobView, KeyView, Liveness, Payload, Registry, RegistryView, Section,
    SectionKey, SectionView, Value, ValueView,
};
use crate::set::KeySet;
use crate::table::{self, Select, Table};
use crate::walk;
use vstd::prelude::*;

verus! {

/// The listed commits that are in the set.
pub open spec fn only(s: Seq<CommitAddr>, keep: Set<CommitAddr>) -> Seq<CommitAddr>
    decreases s.len(),
{
    if s.len() == 0 {
        Seq::empty()
    } else if keep.contains(s.last()) {
        only(s.drop_last(), keep).push(s.last())
    } else {
        only(s.drop_last(), keep)
    }
}

/// A commit without the parents that do not survive.
pub open spec fn detached(c: CommitView, keep: Set<CommitAddr>) -> CommitView {
    CommitView {
        parent: match c.parent {
            Some(p) => if keep.contains(p) {
                Some(p)
            } else {
                None
            },
            None => None,
        },
        merge_parents: only(c.merge_parents, keep),
        ..c
    }
}

/// The commits of the registry that are in the set.
pub open spec fn kept_commits<T>(rv: RegistryView<T>, commits: Set<CommitAddr>) -> Set<CommitAddr> {
    Set::new(|c: CommitAddr| rv.commits.contains_key(c) && commits.contains(c))
}

/// The graphs of the registry that are in the set.
pub open spec fn kept_graphs<T>(rv: RegistryView<T>, graphs: Set<GraphAddr>) -> Set<GraphAddr> {
    Set::new(|g: GraphAddr| rv.graphs.contains_key(g) && graphs.contains(g))
}

/// Whether a section entry survives, given the commits and graphs that do: a
/// root's commit must survive, any other entry follows its section's liveness.
pub open spec fn entry_survives<T>(
    rv: RegistryView<T>,
    liveness: Liveness,
    k: KeyView,
    v: ValueView,
    commits: Set<CommitAddr>,
    graphs: Set<GraphAddr>,
) -> bool {
    match liveness {
        Liveness::Root => match v {
            ValueView::Commit(c) => commits.contains(c),
            _ => true,
        },
        _ => reach::entry_is_live(rv, liveness, k, commits, graphs),
    }
}

/// The entries of a section that survive.
pub open spec fn surviving_entries<T>(
    rv: RegistryView<T>,
    s: SectionView,
    commits: Set<CommitAddr>,
    graphs: Set<GraphAddr>,
) -> Map<KeyView, ValueView> {
    Map::new(
        |k: KeyView|
            s.entries.contains_key(k) && entry_survives(
                rv,
                s.liveness,
                k,
                s.entries[k],
                commits,
                graphs,
            ),
        |k: KeyView| s.entries[k],
    )
}

/// The blobs of a store that survive.
pub open spec fn surviving_blobs(
    id: Seq<char>,
    s: BlobView,
    blob_live: spec_fn(Seq<char>, ContentAddr) -> bool,
) -> Map<ContentAddr, Seq<u8>> {
    Map::new(
        |a: ContentAddr| s.entries.contains_key(a) && blob_live(id, a),
        |a: ContentAddr| s.entries[a],
    )
}

/// The registry pruned down to the given commits, graphs and blobs: dead content
/// goes, commits lose the parents that go, section entries follow their section's
/// liveness, and sections and stores that end up empty go too.
pub open spec fn pruned<T>(
    rv: RegistryView<T>,
    commits: Set<CommitAddr>,
    graphs: Set<GraphAddr>,
    blob_live: spec_fn(Seq<char>, ContentAddr) -> bool,
) -> RegistryView<T> {
    let kc = kept_commits(rv, commits);
    let kg = kept_graphs(rv, graphs);
    RegistryView {
        graphs: Map::new(|g: GraphAddr| kg.contains(g), |g: GraphAddr| rv.graphs[g]),
        commits: Map::new(
            |c: CommitAddr| kc.contains(c),
            |c: CommitAddr| detached(rv.commits[c], kc),
        ),
        sections: Map::new(
            |id: Seq<char>|
                rv.sections.contains_key(id) && surviving_entries(rv, rv.sections[id], kc, kg)
                    != Map::<KeyView, ValueView>::empty(),
            |id: Seq<char>|
                SectionView {
                    entries: surviving_entries(rv, rv.sections[id], kc, kg),
                    ..rv.sections[id]
                },
        ),
        blobs: Map::new(
            |id: Seq<char>|
                rv.blobs.contains_key(id) && surviving_blobs(id, rv.blobs[id], blob_live)
                    != Map::<ContentAddr, Seq<u8>>::empty(),
            |id: Seq<char>|
                BlobView {
                    entries: surviving_blobs(id, rv.blobs[id], blob_live),
                    ..rv.blobs[id]
                },
        ),
    }
}

/// The blobs of a live set.
pub open spec fn live_blobs(live: LiveSet) -> spec_fn(Seq<char>, ContentAddr) -> bool {
    |s: Seq<char>, a: ContentAddr| live.live_blob(s, a)
}

/// What of the registry survives being pruned to a live set.
pub open spec fn pruned_to<T>(rv: RegistryView<T>, live: LiveSet) -> RegistryView<T> {
    pruned(rv, live.commits@, live.graphs@, live_blobs(live))
}

struct GraphPick<'a> {
    keep: &'a KeySet<GraphAddr>,
}

impl<'a, G: Payload> Select<GraphAddr, G, G> for GraphPick<'a> {
    closed spec fn image(&self, k: GraphAddr, v: G) -> Option<G::V> {
        if self.keep@.contains(k) {
            Some(v@)
        } else {
            None
        }
    }

    fn select(&self, k: &GraphAddr, v: &G) -> (w: Option<G>) {
        if self.keep.contains(k) {
            Some(v.dup())
        } else {
            None
        }
    }
}

fn retained(s: &Vec<CommitAddr>, keep: &KeySet<CommitAddr>) -> (r: Vec<CommitAddr>)
    ensures
        r@ == only(s@, keep@),
{
    let mut r: Vec<CommitAddr> = Vec::new();
    let mut i: usize = 0;
    assert(s@.take(0) =~= Seq::empty());
    while i < s.len()
        invariant
            i <= s@.len(),
            r@ == only(s@.take(i as int), keep@),
        decreases s@.len() - i,
    {
        proof {
            assert(s@.take(i + 1).drop_last() =~= s@.take(i as int));
        }
        if keep.contains(&s[i]) {
            r.push(s[i]);
        }
        i = i + 1;
    }
    assert(s@.take(i as int) =~= s@);
    r
}

struct CommitPick<'a> {
    keep: &'a KeySet<CommitAddr>,
}

impl<'a> Select<CommitAddr, Commit, Commit> for CommitPick<'a> {
    closed spec fn image(&self, k: CommitAddr, v: Commit) -> Option<CommitView> {
        if self.keep@.contains(k) {
            Some(detached(v@, self.keep@))
        } else {
            None
        }
    }

    fn select(&self, k: &CommitAddr, v: &Commit) -> (w: Option<Commit>) {
        if !self.keep.contains(k) {
            return None;
        }
        let parent = match v.parent {
            Some(p) => if self.keep.contains(&p) {
                Some(p)
            } else {
                None
            },
            None => None,
        };
        let merge_parents = retained(&v.merge_parents, self.keep);
        let c = Commit { timestamp: v.timestamp, parent, graph: v.graph, merge_parents };
        assert(c@ =~= detached(v@, self.keep@));
        Some(c)
    }
}

struct EntryPick<'a, G: Payload> {
    reg: &'a Registry<G>,
    liveness: Liveness,
    commits: &'a KeySet<CommitAddr>,
    graphs: &'a KeySet<GraphAddr>,
}

impl<'a, G: Payload> Select<SectionKey, Value, Value> for EntryPick<'a, G> {
    closed spec fn image(&self, k: KeyView, v: Value) -> Option<ValueView> {
        if entry_survives(self.reg@, self.liveness, k, v@, self.commits@, self.graphs@) {
            Some(v@)
        } else {
            None
        }
    }

    fn select(&self, k: &SectionKey, v: &Value) -> (w: Option<Value>) {
        let keep = match self.liveness {
            Liveness::Root => match v {
                Value::Commit(c) => self.commits.contains(c),
                _ => true,
            },
            Liveness::Pinned => true,
            Liveness::WithName => match k {
                SectionKey::Name(n) => match self.reg.head(n) {
                    Some(c) => self.commits.contains(&c),
                    None => false,
                },
                _ => false,
            },
            Liveness::WithCommit => match k {
                SectionKey::Commit(c) => self.commits.contains(c),
                _ => false,
            },
            Liveness::WithGraph => match k {
                SectionKey::Graph(g) => self.graphs.contains(g),
                _ => false,
            },
        };
        if keep {
            Some(v.dup())
        } else {
            None
        }
    }
}

struct SectionPick<'a, G: Payload> {
    reg: &'a Registry<G>,
    commits: &'a KeySet<CommitAddr>,
    graphs: &'a KeySet<GraphAddr>,
}

impl<'a, G: Payload> Select<String, Section, Section> for SectionPick<'a, G> {
    closed spec fn image(&self, k: Seq<char>, v: Section) -> Option<SectionView> {
        let entries = surviving_entries(self.reg@, v@, self.commits@, self.graphs@);
        if entries != Map::<KeyView, ValueView>::empty() {
            Some(SectionView { entries, ..v@ })
        } else {
            None
        }
    }

    fn select(&self, k: &String, v: &Section) -> (w: Option<Section>) {
        let pick = EntryPick {
            reg: self.reg,
            liveness: v.liveness,
            commits: self.commits,
            graphs: self.graphs,
        };
        let entries = table::select(&v.entries, &pick);
        let s = Section { policy: v.policy, liveness: v.liveness, entries };
        proof {
            assert(s@.entries =~= table::views(entries@));
            assert(s@.entries =~= surviving_entries(
                self.reg@,
                v@,
                self.commits@,
                self.graphs@,
            ));
        }
        if s.entries.is_empty() {
            assert(s@.entries =~= Map::<KeyView, ValueView>::empty());
            None
        } else {
            proof {
                if s@.entries == Map::<KeyView, ValueView>::empty() {
                    assert forall|k: KeyView| !s.entries@.contains_key(k) by {
                        assert(!s@.entries.contains_key(k));
                    }
                    assert(s.entries@ =~= Map::<KeyView, Value>::empty());
                }
            }
            Some(s)
        }
    }
}

struct BlobPick<'a> {
    live: &'a LiveSet,
    id: &'a String,
}

impl<'a> Select<ContentAddr, Vec<u8>, Vec<u8>> for BlobPick<'a> {
    closed spec fn image(&self, k: ContentAddr, v: Vec<u8>) -> Option<Seq<u8>> {
        if self.live.live_blob(self.id@, k) {
            Some(v@)
        } else {
            None
        }
    }

    fn select(&self, k: &ContentAddr, v: &Vec<u8>) -> (w: Option<Vec<u8>>) {
        if self.live.blob_live(self.id, k) {
            Some(registry::dup_bytes(v))
        } else {
            None
        }
    }
}

struct StorePick<'a> {
    live: &'a LiveSet,
}

impl<'a> Select<String, BlobStore, BlobStore> for StorePick<'a> {
    closed spec fn image(&self, k: Seq<char>, v: BlobStore) -> Option<BlobView> {
        let entries = surviving_blobs(k, v@, live_blobs(*self.live));
        if entries != Map::<ContentAddr, Seq<u8>>::empty() {
            Some(BlobView { entries, ..v@ })
        } else {
            None
        }
    }

    fn select(&self, k: &String, v: &BlobStore) -> (w: Option<BlobStore>) {
        let pick = BlobPick { live: self.live, id: k };
        let entries = table::select(&v.entries, &pick);
        let s = BlobStore { liveness: v.liveness, entries };
        proof {
            assert(s@.entries =~= table::views(entries@));
            assert(s@.entries =~= surviving_blobs(k@, v@, live_blobs(*self.live)));
        }
        if s.entries.is_empty() {
            assert(s@.entries =~= Map::<ContentAddr, Seq<u8>>::empty());
            None
        } else {
            proof {
                if s@.entries == Map::<ContentAddr, Seq<u8>>::empty() {
                    assert forall|a: ContentAddr| !s.entries@.contains_key(a) by {
                        assert(!s@.entries.contains_key(a));
                    }
                    assert(s.entries@ =~= Map::<ContentAddr, Vec<u8>>::empty());
                }
            }
            Some(s)
        }
    }
}

/// The listed keys that are in `live`.
fn present<K: Key, V>(t: &Table<K, V>, live: &KeySet<K>) -> (r: KeySet<K>)
    ensures
        r@ == t@.dom().intersect(live@),
{
    let list = t.entries();
    let ghost m = t@;
    let mut r: KeySet<K> = KeySet::new();
    let mut i: usize = 0;
    while i < list.len()
        invariant
            table::lists(list@, m),
            i <= list@.len(),
            forall|k: K::V| #[trigger]
                r@.contains(k) <==> live@.contains(k) && exists|j: int|
                    0 <= j < i && (#[trigger] list@[j]).0@ == k,
        decreases list@.len() - i,
    {
        let k = &list[i].0;
        let ghost before = r@;
        if live.contains(k) {
            let _ = r.insert(k.dup());
        }
        proof {
            assert forall|x: K::V| #[trigger]
                r@.contains(x) <==> live@.contains(x) && exists|j: int|
                    0 <= j < i + 1 && (#[trigger] list@[j]).0@ == x by {
                assert(list@[i as int].0@ == k@);
                assert(r@.contains(x) <==> before.contains(x) || (x == k@ && live@.contains(x)));
            }
        }
        i = i + 1;
    }
    assert(r@ =~= m.dom().intersect(live@));
    r
}

/// The live subset of a registry: content filtered by `live`, section entries
/// filtered by their section's liveness against what is exported. Heads whose commit
/// falls outside the export are dropped, and the metadata that follows their names
/// with them.
pub fn export<G: Payload>(reg: &Registry<G>, live: &LiveSet) -> (r: Registry<G>)
    ensures
        r@ == pruned_to(reg@, *live),
{
    let ghost rv = reg@;
    let commits = present(&reg.commits, &live.commits);
    let graphs = present(&reg.graphs, &live.graphs);
    let ghost kc = kept_commits(rv, live.commits@);
    let ghost kg = kept_graphs(rv, live.graphs@);
    proof {
        assert(commits@ =~= kc);
        assert(graphs@ =~= kg);
    }
    let graph_pick = GraphPick { keep: &graphs };
    let commit_pick = CommitPick { keep: &commits };
    let section_pick = SectionPick { reg, commits: &commits, graphs: &graphs };
    let store_pick = StorePick { live };
    let r = Registry {
        graphs: table::select(&reg.graphs, &graph_pick),
        commits: table::select(&reg.commits, &commit_pick),
        sections: table::select(&reg.sections, &section_pick),
        blobs: table::select(&reg.blobs, &store_pick),
    };
    proof {
        let e = pruned_to(rv, *live);
        assert(r@.graphs =~= table::views(r.graphs@));
        assert(r@.graphs =~= e.graphs);
        assert(r@.commits =~= table::views(r.commits@));
        assert(r@.commits =~= e.commits);
        assert(r@.sections =~= table::views(r.sections@));
        assert(r@.sections =~= e.sections);
        assert(r@.blobs =~= table::views(r.blobs@));
        assert(r@.blobs =~= e.blobs);
    }
    r
}

/// Prunes the registry down to the live set: dead content is removed, heads
/// pointing outside the live set are dropped, every section's entries are filtered
/// by its liveness against what survives, and commits lose the parents that did
/// not. Sections and stores that end up empty are removed.
pub fn prune<G: Payload>(reg: &mut Registry<G>, live: &LiveSet)
    ensures
        final(reg)@ == pruned_to(old(reg)@, *live),
{
    let r = export(reg, live);
    *reg = r;
}

/// Whether heads outlive a pruning as long as their commits do: the section that
/// holds them is not keyed to the life of something else.
pub open spec fn heads_stay<T>(rv: RegistryView<T>) -> bool {
    rv.sections.contains_key(registry::HEADS_ID@) ==> match rv.sections[registry::HEADS_ID@].liveness {
        Liveness::Root | Liveness::Pinned | Liveness::WithName => true,
        _ => false,
    }
}

proof fn lemma_only(s: Seq<CommitAddr>, keep: Set<CommitAddr>)
    ensures
        only(only(s, keep), keep) == only(s, keep),
        forall|c: CommitAddr| #[trigger]
            only(s, keep).contains(c) <==> s.contains(c) && keep.contains(c),
        (forall|c: CommitAddr| #[trigger] s.contains(c) ==> keep.contains(c)) ==> only(s, keep)
            == s,
    decreases s.len(),
{
    let t = only(s, keep);
    if s.len() > 0 {
        let init = s.drop_last();
        lemma_only(init, keep);
        let u = only(init, keep);
        assert(s =~= init.push(s.last()));
        if keep.contains(s.last()) {
            assert(t.drop_last() =~= u);
        }
        assert forall|c: CommitAddr| #[trigger] t.contains(c) == (s.contains(c) && keep.contains(
            c,
        )) by {
            if t.contains(c) {
                let i = choose|i: int| 0 <= i < t.len() && t[i] == c;
                if i < u.len() {
                    assert(u[i] == c);
                    assert(u.contains(c));
                    let j = choose|j: int| 0 <= j < init.len() && init[j] == c;
                    assert(s[j] == c);
                } else {
                    assert(s[s.len() - 1] == c);
                }
            }
            if s.contains(c) && keep.contains(c) {
                let i = choose|i: int| 0 <= i < s.len() && s[i] == c;
                if i < init.len() {
                    assert(init[i] == c);
                    assert(init.contains(c));
                    assert(u.contains(c));
                    let j = choose|j: int| 0 <= j < u.len() && u[j] == c;
                    assert(t[j] == c);
                } else {
                    assert(t[t.len() - 1] == c);
                }
            }
        }
        if forall|c: CommitAddr| #[trigger] s.contains(c) ==> keep.contains(c) {
            assert(s[s.len() - 1] == s.last());
            assert(s.contains(s.last()));
            assert forall|c: CommitAddr| #[trigger] init.contains(c) implies keep.contains(c) by {
                let i = choose|i: int| 0 <= i < init.len() && init[i] == c;
                assert(s[i] == c);
                assert(s.contains(c));
            }
        }
    }
}

/// A commit that survives keeps the parents that survive, and no others.
proof fn lemma_detached(c: CommitView, keep: Set<CommitAddr>)
    ensures
        detached(detached(c, keep), keep) == detached(c, keep),
        forall|p: CommitAddr| #[trigger]
            detached(c, keep).parents().contains(p) <==> c.parents().contains(p) && keep.contains(p),
        (forall|p: CommitAddr| #[trigger] c.parents().contains(p) ==> keep.contains(p))
            ==> detached(c, keep) == c,
{
    lemma_only(c.merge_parents, keep);
    let d = detached(c, keep);
    assert forall|p: CommitAddr| #[trigger] c.parents().contains(p) <==> c.parent == Some(p)
        || c.merge_parents.contains(p) by {
        lemma_parents(c, p);
    }
    assert forall|p: CommitAddr| #[trigger] d.parents().contains(p) <==> d.parent == Some(p)
        || d.merge_parents.contains(p) by {
        lemma_parents(d, p);
    }
    if forall|p: CommitAddr| #[trigger] c.parents().contains(p) ==> keep.contains(p) {
        assert forall|p: CommitAddr| #[trigger] c.merge_parents.contains(p) implies keep.contains(
            p,
        ) by {
            assert(c.parents().contains(p));
        }
        if c.parent is Some {
            assert(c.parents().contains(c.parent->0));
        }
    }
}

proof fn lemma_parents(c: CommitView, p: CommitAddr)
    ensures
        c.parents().contains(p) <==> c.parent == Some(p) || c.merge_parents.contains(p),
{
    if c.parent is Some {
        let s = seq![c.parent->0] + c.merge_parents;
        if c.parent == Some(p) {
            assert(s[0] == p);
        }
        if c.merge_parents.contains(p) {
            let i = choose|i: int| 0 <= i < c.merge_parents.len() && c.merge_parents[i] == p;
            assert(s[i + 1] == p);
        }
        if s.contains(p) {
            let i = choose|i: int| 0 <= i < s.len() && s[i] == p;
            if i > 0 {
                assert(c.merge_parents[i - 1] == p);
            }
        }
    }
}

/// A head stays where its commit survives, and no head appears.
proof fn lemma_pruned_head<T>(
    rv: RegistryView<T>,
    commits: Set<CommitAddr>,
    graphs: Set<GraphAddr>,
    blob_live: spec_fn(Seq<char>, ContentAddr) -> bool,
    n: Seq<Seq<char>>,
)
    ensures
        pruned(rv, commits, graphs, blob_live).head(n) is Some ==> rv.head(n) == pruned(
            rv,
            commits,
            graphs,
            blob_live,
        ).head(n),
        heads_stay(rv) && rv.head(n) is Some && kept_commits(rv, commits).contains(rv.head(n)->0)
            ==> pruned(rv, commits, graphs, blob_live).head(n) == rv.head(n),
{
    let pr = pruned(rv, commits, graphs, blob_live);
    let id = registry::HEADS_ID@;
    let k = KeyView::Name(n);
    let kc = kept_commits(rv, commits);
    let kg = kept_graphs(rv, graphs);
    if heads_stay(rv) && rv.head(n) is Some && kc.contains(rv.head(n)->0) {
        let e = surviving_entries(rv, rv.sections[id], kc, kg);
        assert(e.contains_key(k));
        assert(!Map::<KeyView, ValueView>::empty().contains_key(k));
        assert(pr.sections.contains_key(id));
    }
}

/// Pruning a second time to the same live set changes nothing.
pub proof fn law_prune_again_changes_nothing<T>(rv: RegistryView<T>, live: LiveSet)
    requires
        heads_stay(rv),
    ensures
        pruned_to(pruned_to(rv, live), live) == pruned_to(rv, live),
{
    let once = pruned_to(rv, live);
    let twice = pruned_to(once, live);
    let kc = kept_commits(rv, live.commits@);
    let kg = kept_graphs(rv, live.graphs@);
    let blobs = live_blobs(live);
    assert(kept_commits(once, live.commits@) =~= kc);
    assert(kept_graphs(once, live.graphs@) =~= kg);
    assert(twice.graphs =~= once.graphs);
    assert(twice.commits =~= once.commits) by {
        assert forall|c: CommitAddr| kc.contains(c) implies detached(
            once.commits[c],
            kc,
        ) == once.commits[c] by {
            lemma_detached(rv.commits[c], kc);
        }
    }
    assert forall|id: Seq<char>| once.sections.contains_key(id) implies surviving_entries(
        once,
        once.sections[id],
        kc,
        kg,
    ) == once.sections[id].entries by {
        let s = once.sections[id];
        assert forall|k: KeyView| s.entries.contains_key(k) implies entry_survives(
            once,
            s.liveness,
            k,
            s.entries[k],
            kc,
            kg,
        ) by {
            if s.liveness == Liveness::WithName && k is Name {
                lemma_pruned_head(rv, live.commits@, live.graphs@, blobs, k->Name_0);
            }
        }
        assert(surviving_entries(once, s, kc, kg) =~= s.entries);
    }
    assert(twice.sections =~= once.sections);
    assert forall|id: Seq<char>| once.blobs.contains_key(id) implies surviving_blobs(
        id,
        once.blobs[id],
        blobs,
    ) == once.blobs[id].entries by {
        assert(surviving_blobs(id, once.blobs[id], blobs) =~= once.blobs[id].entries);
    }
    assert(twice.blobs =~= once.blobs);
}

/// Pruning to the closure of the roots loses nothing that the roots lead to: a head
/// whose commit is there keeps it, a commit that is reached keeps every parent that
/// is there and its graph, and a graph that is reached keeps the graphs and blobs it
/// refers to.
pub proof fn law_closure_survives_pruning<T>(
    rv: RegistryView<T>,
    extra: Seq<CommitAddr>,
    out: spec_fn(T) -> OutView,
    live: LiveSet,
)
    requires
        reach::is_closure(rv, extra, out, live),
    ensures
        ({
            let pr = pruned_to(rv, live);
            &&& forall|id: Seq<char>, k: KeyView, c: CommitAddr| #[trigger]
                reach::rooted(rv, id, k, c) && rv.commits.contains_key(c) ==> reach::rooted(
                    pr,
                    id,
                    k,
                    c,
                ) && pr.commits.contains_key(c)
            &&& forall|c: CommitAddr, p: CommitAddr|
                pr.commits.contains_key(c) && #[trigger] rv.commits[c].parents().contains(p)
                    && rv.commits.contains_key(p) ==> pr.commits[c].parents().contains(p)
                    && pr.commits.contains_key(p)
            &&& forall|c: CommitAddr| #[trigger]
                pr.commits.contains_key(c) && rv.graphs.contains_key(rv.commits[c].graph)
                    ==> pr.commits[c].graph == rv.commits[c].graph && pr.graphs.contains_key(
                    pr.commits[c].graph,
                )
            &&& forall|g: GraphAddr, h: GraphAddr|
                pr.graphs.contains_key(g) && #[trigger] out(rv.graphs[g]).graphs.contains(h)
                    && rv.graphs.contains_key(h) ==> pr.graphs.contains_key(h) && pr.graphs[h]
                    == rv.graphs[h]
            &&& forall|g: GraphAddr, s: Seq<char>, a: ContentAddr|
                pr.graphs.contains_key(g) && #[trigger] out(rv.graphs[g]).blobs.contains((s, a))
                    && rv.blobs.contains_key(s) && rv.blobs[s].entries.contains_key(a)
                    ==> pr.blobs.contains_key(s) && pr.blobs[s].entries.contains_key(a)
        }),
{
    let pr = pruned_to(rv, live);
    let kc = kept_commits(rv, live.commits@);
    let kg = kept_graphs(rv, live.graphs@);
    let step = reach::refers(rv, out);
    assert forall|id: Seq<char>, k: KeyView, c: CommitAddr| #[trigger]
        reach::rooted(rv, id, k, c) && rv.commits.contains_key(c) implies reach::rooted(
        pr,
        id,
        k,
        c,
    ) && pr.commits.contains_key(c) by {
        assert(reach::root(rv, extra, c));
        walk::lemma_reaches_self(step, Item::Commit(c));
        assert(live.commits@.contains(c));
        assert(kc.contains(c));
        let e = surviving_entries(rv, rv.sections[id], kc, kg);
        assert(e.contains_key(k));
        assert(!Map::<KeyView, ValueView>::empty().contains_key(k));
        assert(pr.sections.contains_key(id));
    }
    assert forall|c: CommitAddr, p: CommitAddr|
        pr.commits.contains_key(c) && #[trigger] rv.commits[c].parents().contains(p)
            && rv.commits.contains_key(p) implies pr.commits[c].parents().contains(p)
        && pr.commits.contains_key(p) by {
        assert(live.commits@.contains(c));
        lemma_live_step(rv, extra, out, Item::Commit(c), Item::Commit(p));
        assert(live.commits@.contains(p));
        lemma_detached(rv.commits[c], kc);
        assert(pr.commits[c] == detached(rv.commits[c], kc));
    }
    assert forall|c: CommitAddr| #[trigger]
        pr.commits.contains_key(c) && rv.graphs.contains_key(rv.commits[c].graph) implies
        pr.commits[c].graph == rv.commits[c].graph && pr.graphs.contains_key(
        pr.commits[c].graph,
    ) by {
        assert(live.commits@.contains(c));
        lemma_live_step(rv, extra, out, Item::Commit(c), Item::Graph(rv.commits[c].graph));
        assert(live.graphs@.contains(rv.commits[c].graph));
    }
    assert forall|g: GraphAddr, h: GraphAddr|
        pr.graphs.contains_key(g) && #[trigger] out(rv.graphs[g]).graphs.contains(h)
            && rv.graphs.contains_key(h) implies pr.graphs.contains_key(h) && pr.graphs[h]
        == rv.graphs[h] by {
        assert(live.graphs@.contains(g));
        lemma_live_step(rv, extra, out, Item::Graph(g), Item::Graph(h));
        assert(live.graphs@.contains(h));
    }
    assert forall|g: GraphAddr, s: Seq<char>, a: ContentAddr|
        pr.graphs.contains_key(g) && #[trigger] out(rv.graphs[g]).blobs.contains((s, a))
            && rv.blobs.contains_key(s) && rv.blobs[s].entries.contains_key(a) implies
        pr.blobs.contains_key(s) && pr.blobs[s].entries.contains_key(a) by {
        assert(live.graphs@.contains(g));
        assert(reach::graph_blob(rv, out, live.graphs@, s, a));
        assert(live.live_blob(s, a));
        let e = surviving_blobs(s, rv.blobs[s], live_blobs(live));
        assert(e.contains_key(a));
        assert(!Map::<ContentAddr, Seq<u8>>::empty().contains_key(a));
    }
}

/// The walk goes on from what it comes to.
proof fn lemma_live_step<T>(
    rv: RegistryView<T>,
    extra: Seq<CommitAddr>,
    out: spec_fn(T) -> OutView,
    x: Item,
    y: Item,
)
    requires
        reach::live_item(rv, extra, out, x),
        reach::refers(rv, out)(x, y),
    ensures
        reach::live_item(rv, extra, out, y),
{
    let step = reach::refers(rv, out);
    let c = choose|c: CommitAddr|
        reach::root(rv, extra, c) && #[trigger] walk::reaches(step, Item::Commit(c), x);
    walk::lemma_reaches_step(step, Item::Commit(c), x, y);
}

/// Pruning to the closure of the roots leaves the closure of the roots what it was,
/// so a registry that was pruned to its closure is one that its own closure would
/// not shrink.
pub proof fn law_pruned_registry_has_the_same_closure<T>(
    rv: RegistryView<T>,
    extra: Seq<CommitAddr>,
    out: spec_fn(T) -> OutView,
    live: LiveSet,
)
    requires
        heads_stay(rv),
        reach::is_closure(rv, extra, out, live),
    ensures
        reach::is_closure(pruned_to(rv, live), extra, out, live),
{
    let pr = pruned_to(rv, live);
    let kc = kept_commits(rv, live.commits@);
    let kg = kept_graphs(rv, live.graphs@);
    law_closure_survives_pruning(rv, extra, out, live);
    assert forall|x: Item| #[trigger] reach::live_item(pr, extra, out, x) == reach::live_item(
        rv,
        extra,
        out,
        x,
    ) by {
        lemma_same_walk(rv, extra, out, live, x);
    }
    assert forall|s: Seq<char>, a: ContentAddr| reach::graph_blob(pr, out, live.graphs@, s, a)
        == reach::graph_blob(rv, out, live.graphs@, s, a) by {
        if reach::graph_blob(rv, out, live.graphs@, s, a) {
            let g = choose|g: GraphAddr|
                live.graphs@.contains(g) && rv.graphs.contains_key(g) && (#[trigger] out(
                    rv.graphs[g],
                )).blobs.contains((s, a));
            assert(pr.graphs.contains_key(g) && pr.graphs[g] == rv.graphs[g]);
            assert(out(pr.graphs[g]).blobs.contains((s, a)));
        }
    }
    assert forall|s: Seq<char>, a: ContentAddr| reach::pinned_blob(pr, s, a)
        == reach::pinned_blob(rv, s, a) by {
        if reach::pinned_blob(rv, s, a) {
            assert(live.live_blob(s, a));
            let e = surviving_blobs(s, rv.blobs[s], live_blobs(live));
            assert(e.contains_key(a));
            assert(!Map::<ContentAddr, Seq<u8>>::empty().contains_key(a));
        }
    }
    assert forall|s: Seq<char>, a: ContentAddr| reach::section_blob(
        pr,
        live.commits@,
        live.graphs@,
        s,
        a,
    ) == reach::section_blob(rv, live.commits@, live.graphs@, s, a) by {
        if reach::section_blob(rv, live.commits@, live.graphs@, s, a) {
            let (id, k) = choose|id: Seq<char>, k: KeyView| #[trigger]
                reach::entry_blob(rv, id, k, live.commits@, live.graphs@, s, a);
            lemma_entry_blob(rv, extra, out, live, id, k, s, a);
            assert(reach::entry_blob(pr, id, k, live.commits@, live.graphs@, s, a));
        }
        if reach::section_blob(pr, live.commits@, live.graphs@, s, a) {
            let (id, k) = choose|id: Seq<char>, k: KeyView| #[trigger]
                reach::entry_blob(pr, id, k, live.commits@, live.graphs@, s, a);
            lemma_entry_blob(rv, extra, out, live, id, k, s, a);
            assert(reach::entry_blob(rv, id, k, live.commits@, live.graphs@, s, a));
        }
    }
}

proof fn lemma_entry_blob<T>(
    rv: RegistryView<T>,
    extra: Seq<CommitAddr>,
    out: spec_fn(T) -> OutView,
    live: LiveSet,
    id: Seq<char>,
    k: KeyView,
    s: Seq<char>,
    a: ContentAddr,
)
    requires
        heads_stay(rv),
        reach::is_closure(rv, extra, out, live),
    ensures
        reach::entry_blob(pruned_to(rv, live), id, k, live.commits@, live.graphs@, s, a)
            == reach::entry_blob(rv, id, k, live.commits@, live.graphs@, s, a),
{
    let pr = pruned_to(rv, live);
    let kc = kept_commits(rv, live.commits@);
    let kg = kept_graphs(rv, live.graphs@);
    lemma_live_present(rv, extra, out, live);
    if k is Name {
        lemma_pruned_head(rv, live.commits@, live.graphs@, live_blobs(live), k->Name_0);
    }
    if reach::entry_blob(rv, id, k, live.commits@, live.graphs@, s, a) {
        let e = surviving_entries(rv, rv.sections[id], kc, kg);
        assert(e.contains_key(k));
        assert(!Map::<KeyView, ValueView>::empty().contains_key(k));
        assert(pr.sections.contains_key(id));
    }
}

/// What the closure holds is in the registry.
proof fn lemma_live_present<T>(
    rv: RegistryView<T>,
    extra: Seq<CommitAddr>,
    out: spec_fn(T) -> OutView,
    live: LiveSet,
)
    requires
        reach::is_closure(rv, extra, out, live),
    ensures
        kept_commits(rv, live.commits@) == live.commits@,
        kept_graphs(rv, live.graphs@) == live.graphs@,
{
    let step = reach::refers(rv, out);
    let there = |x: Item|
        match x {
            Item::Commit(c) => rv.commits.contains_key(c),
            Item::Graph(g) => rv.graphs.contains_key(g),
        };
    assert forall|x: Item| #[trigger] reach::live_item(rv, extra, out, x) implies there(x) by {
        let c = choose|c: CommitAddr|
            reach::root(rv, extra, c) && #[trigger] walk::reaches(step, Item::Commit(c), x);
        walk::lemma_closed(step, there, Item::Commit(c), x);
    }
    assert forall|c: CommitAddr| #[trigger] live.commits@.contains(c) implies rv.commits.contains_key(
        c,
    ) by {
        assert(reach::live_item(rv, extra, out, Item::Commit(c)));
        assert(there(Item::Commit(c)));
    }
    assert forall|g: GraphAddr| #[trigger] live.graphs@.contains(g) implies rv.graphs.contains_key(
        g,
    ) by {
        assert(reach::live_item(rv, extra, out, Item::Graph(g)));
        assert(there(Item::Graph(g)));
    }
    assert(kept_commits(rv, live.commits@) =~= live.commits@);
    assert(kept_graphs(rv, live.graphs@) =~= live.graphs@);
}

/// The walk comes to the same places in the pruned registry.
proof fn lemma_same_walk<T>(
    rv: RegistryView<T>,
    extra: Seq<CommitAddr>,
    out: spec_fn(T) -> OutView,
    live: LiveSet,
    x: Item,
)
    requires
        reach::is_closure(rv, extra, out, live),
    ensures
        reach::live_item(pruned_to(rv, live), extra, out, x) == reach::live_item(
            rv,
            extra,
            out,
            x,
        ),
{
    let pr = pruned_to(rv, live);
    let kc = kept_commits(rv, live.commits@);
    let before = reach::refers(rv, out);
    let after = reach::refers(pr, out);
    law_closure_survives_pruning(rv, extra, out, live);
    lemma_live_present(rv, extra, out, live);
    assert forall|a: Item, b: Item| #[trigger] after(a, b) implies before(a, b) by {
        if a is Commit {
            lemma_detached(rv.commits[a->Commit_0], kc);
        }
    }
    if reach::live_item(rv, extra, out, x) {
        let c = choose|c: CommitAddr|
            reach::root(rv, extra, c) && #[trigger] walk::reaches(before, Item::Commit(c), x);
        let r = Item::Commit(c);
        walk::lemma_reaches_self(before, r);
        walk::lemma_reaches_self(after, r);
        assert(reach::live_item(rv, extra, out, r));
        assert(live.commits@.contains(c));
        let s = |y: Item| walk::reaches(after, r, y) && reach::live_item(rv, extra, out, y);
        assert forall|a: Item, b: Item| s(a) && #[trigger] before(a, b) implies s(b) by {
            lemma_live_step(rv, extra, out, a, b);
            match a {
                Item::Commit(q) => {
                    assert(live.commits@.contains(q));
                    lemma_detached(rv.commits[q], kc);
                    match b {
                        Item::Commit(p) => {
                            assert(live.commits@.contains(p));
                        },
                        Item::Graph(g) => {
                            assert(live.graphs@.contains(g));
                        },
                    }
                },
                Item::Graph(g) => {
                    assert(live.graphs@.contains(g));
                    if b is Graph {
                        assert(live.graphs@.contains(b->Graph_0));
                    }
                },
            }
            assert(after(a, b));
            walk::lemma_reaches_step(after, r, a, b);
        }
        walk::lemma_closed(before, s, r, x);
        lemma_same_root(rv, extra, out, live, c);
    }
    if reach::live_item(pr, extra, out, x) {
        let c = choose|c: CommitAddr|
            reach::root(pr, extra, c) && #[trigger] walk::reaches(after, Item::Commit(c), x);
        let r = Item::Commit(c);
        walk::lemma_reaches_self(before, r);
        let s = |y: Item| walk::reaches(before, r, y);
        assert forall|a: Item, b: Item| s(a) && #[trigger] after(a, b) implies s(b) by {
            walk::lemma_reaches_step(before, r, a, b);
        }
        walk::lemma_closed(after, s, r, x);
        lemma_same_root(rv, extra, out, live, c);
    }
}

proof fn lemma_same_root<T>(
    rv: RegistryView<T>,
    extra: Seq<CommitAddr>,
    out: spec_fn(T) -> OutView,
    live: LiveSet,
    c: CommitAddr,
)
    requires
        reach::is_closure(rv, extra, out, live),
    ensures
        reach::root(pruned_to(rv, live), extra, c) == reach::root(rv, extra, c),
{
    let pr = pruned_to(rv, live);
    law_closure_survives_pruning(rv, extra, out, live);
    if reach::root(rv, extra, c) {
        walk::lemma_reaches_self(reach::refers(rv, out), Item::Commit(c));
        assert(reach::live_item(rv, extra, out, Item::Commit(c)));
        assert(live.commits@.contains(c));
        if !extra.contains(c) {
            let (id, k) = choose|id: Seq<char>, k: KeyView| #[trigger]
                reach::rooted(rv, id, k, c);
            assert(reach::rooted(pr, id, k, c));
        }
    }
    if reach::root(pr, extra, c) && !extra.contains(c) {
        let (id, k) = choose|id: Seq<char>, k: KeyView| #[trigger] reach::rooted(pr, id, k, c);
        assert(reach::rooted(rv, id, k, c));
    }
}

/// What is kept of merged-in parents are those that are kept themselves, in their order.
pub proof fn law_kept_parents_stay_in_order(
    a: Seq<CommitAddr>,
    b: Seq<CommitAddr>,
    c: CommitAddr,
    keep: Set<CommitAddr>,
)
    ensures
        only(a + b, keep) == only(a, keep) + only(b, keep),
        only(seq![c], keep) == (if keep.contains(c) {
            seq![c]
        } else {
            Seq::empty()
        }),
    decreases b.len(),
{
    assert(seq![c].drop_last() =~= Seq::empty());
    assert(only(Seq::empty(), keep) =~= Seq::empty());
    assert(Seq::<CommitAddr>::empty().push(c) =~= seq![c]);
    if b.len() == 0 {
        assert(a + b =~= a);
        assert(only(a, keep) + only(b, keep) =~= only(a, keep));
    } else {
        law_kept_parents_stay_in_order(a, b.drop_last(), c, keep);
        assert((a + b).drop_last() =~= a + b.drop_last());
        assert((a + b).last() == b.last());
        assert(only(a + b, keep) =~= only(a, keep) + only(b, keep));
    }
}

/// Pruning keeps what is live and drops everything else. A live graph stays as it is, and
/// a live commit stays but for parents that are gone. An entry of a section stays where
/// what it hangs on does: a root where the commit that it points to does, an entry that
/// goes with a name, a commit or a graph where that is kept, and a pinned one always.
/// Bytes stay where they are live. A section or store that is left with nothing goes.
pub proof fn law_pruning_keeps_what_is_live_alone<T>(
    rv: RegistryView<T>,
    live: LiveSet,
    g: GraphAddr,
    c: CommitAddr,
    id: Seq<char>,
    k: KeyView,
    a: ContentAddr,
)
    ensures
        ({
            let pr = pruned_to(rv, live);
            let commit_stays = |c: CommitAddr| rv.commits.contains_key(c) && live.commits@.contains(
                c,
            );
            let graph_stays = |g: GraphAddr| rv.graphs.contains_key(g) && live.graphs@.contains(g);
            &&& pr.graphs.contains_key(g) <==> rv.graphs.contains_key(g) && live.graphs@.contains(g)
            &&& pr.graphs.contains_key(g) ==> pr.graphs[g] == rv.graphs[g]
            &&& pr.commits.contains_key(c) <==> commit_stays(c)
            &&& pr.commits.contains_key(c) ==> {
                let (was, is) = (rv.commits[c], pr.commits[c]);
                &&& is.timestamp == was.timestamp && is.graph == was.graph
                &&& was.parent is None ==> is.parent is None
                &&& was.parent is Some && commit_stays(was.parent->0) ==> is.parent == was.parent
                &&& was.parent is Some && !commit_stays(was.parent->0) ==> is.parent is None
            }
            &&& rv.sections.contains_key(id) && rv.sections[id].entries.contains_key(k) ==> {
                let s = rv.sections[id];
                let v = s.entries[k];
                let there = pr.sections.contains_key(id) && pr.sections[id].entries.contains_key(k);
                &&& there ==> pr.sections[id].entries[k] == v
                &&& s.liveness is Root && v is Commit ==> (there <==> commit_stays(v->Commit_0))
                &&& s.liveness is Root && !(v is Commit) ==> there
                &&& s.liveness is Pinned ==> there
                &&& s.liveness is WithName ==> (there <==> k is Name && rv.head(k->Name_0) is Some
                    && commit_stays(rv.head(k->Name_0)->0))
                &&& s.liveness is WithCommit ==> (there <==> k is Commit && commit_stays(
                    k->Commit_0,
                ))
                &&& s.liveness is WithGraph ==> (there <==> k is Graph && graph_stays(k->Graph_0))
            }
            &&& pr.sections.contains_key(id) ==> {
                &&& rv.sections.contains_key(id)
                &&& pr.sections[id].policy == rv.sections[id].policy
                &&& pr.sections[id].liveness == rv.sections[id].liveness
                &&& pr.sections[id].entries.contains_key(k) ==> rv.sections[id].entries.contains_key(
                    k,
                )
                &&& pr.sections[id].entries != Map::<KeyView, ValueView>::empty()
            }
            &&& rv.blobs.contains_key(id) && rv.blobs[id].entries.contains_key(a) ==> {
                let there = pr.blobs.contains_key(id) && pr.blobs[id].entries.contains_key(a);
                &&& there <==> live.live_blob(id, a)
                &&& there ==> pr.blobs[id].entries[a] == rv.blobs[id].entries[a]
            }
            &&& pr.blobs.contains_key(id) ==> {
                &&& rv.blobs.contains_key(id)
                &&& pr.blobs[id].liveness == rv.blobs[id].liveness
                &&& pr.blobs[id].entries.contains_key(a) ==> rv.blobs[id].entries.contains_key(a)
                &&& pr.blobs[id].entries != Map::<ContentAddr, Seq<u8>>::empty()
            }
        }),
{
    let kc = kept_commits(rv, live.commits@);
    let kg = kept_graphs(rv, live.graphs@);
    if rv.sections.contains_key(id) {
        let e = surviving_entries(rv, rv.sections[id], kc, kg);
        if e == Map::<KeyView, ValueView>::empty() {
            assert(!e.contains_key(k));
        }
    }
    if rv.blobs.contains_key(id) {
        let e = surviving_blobs(id, rv.blobs[id], live_blobs(live));
        if e == Map::<ContentAddr, Seq<u8>>::empty() {
            assert(!e.contains_key(a));
        }
    }
}

} // verus!
