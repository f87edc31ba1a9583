//! What is read of a registry after it was written, merged or sent.

use crate::addr::ContentAddr;
use crate::base::{self, BaseView};
use crate::commit::{CommitAddr, CommitView};
use crate::graph::{GraphAddr, RawView};
use crate::merge::{self, MergeReport};
use crate::name::{self, Name};
use crate::proto::{ObjectRef, ObjectView};
use crate::registry::{
    self, BlobLiveness, BlobView, KeyView, Liveness, MergePolicy, RegistryView, ValueView,
    HEADS_ID,
};
use crate::store;
use vstd::prelude::*;

verus! {

/// A head that was set is read back, every other head reads as it did, and nothing but
/// the heads has changed.
pub proof fn law_set_head_reads_back<T>(
    r: RegistryView<T>,
    n: Seq<Seq<char>>,
    c: CommitAddr,
    m: Seq<Seq<char>>,
    id: Seq<char>,
)
    ensures
        r.with_head(n, c).head(n) == Some(c),
        m != n ==> r.with_head(n, c).head(m) == r.head(m),
        r.with_head(n, c).graphs == r.graphs,
        r.with_head(n, c).commits == r.commits,
        r.with_head(n, c).blobs == r.blobs,
        id != HEADS_ID@ ==> (r.with_head(n, c).sections.contains_key(id)
            <==> r.sections.contains_key(id)) && r.with_head(n, c).sections[id] == r.sections[id],
{
    assert(KeyView::Name(m) != KeyView::Name(n) || m == n);
}

/// A head that was removed reads as none, every other head reads as it did, and nothing
/// but the heads has changed.
pub proof fn law_removed_head_is_gone<T>(
    r: RegistryView<T>,
    n: Seq<Seq<char>>,
    m: Seq<Seq<char>>,
    id: Seq<char>,
)
    ensures
        r.without_head(n).head(n) is None,
        m != n ==> r.without_head(n).head(m) == r.head(m),
        r.without_head(n).graphs == r.graphs,
        r.without_head(n).commits == r.commits,
        r.without_head(n).blobs == r.blobs,
        r.without_head(n).sections.dom() == r.sections.dom(),
        id != HEADS_ID@ ==> r.without_head(n).sections[id] == r.sections[id],
{
    assert(r.without_head(n).sections.dom() =~= r.sections.dom());
}

/// Where heads are set one after another, the last that is given for a name is its head,
/// and a name for which none is given keeps the one it had.
pub proof fn law_last_head_given_wins<T>(
    r: RegistryView<T>,
    heads: Seq<(Seq<Seq<char>>, CommitAddr)>,
    n: Seq<Seq<char>>,
    i: int,
)
    ensures
        0 <= i < heads.len() && heads[i].0 == n && (forall|j: int|
            i < j < heads.len() ==> (#[trigger] heads[j]).0 != n) ==> r.with_heads(heads).head(n)
            == Some(heads[i].1),
        (forall|j: int| 0 <= j < heads.len() ==> (#[trigger] heads[j]).0 != n) ==> r.with_heads(
            heads,
        ).head(n) == r.head(n),
        r.with_heads(heads).graphs == r.graphs,
        r.with_heads(heads).commits == r.commits,
        r.with_heads(heads).blobs == r.blobs,
    decreases heads.len(),
{
    if heads.len() > 0 {
        let init = heads.drop_last();
        law_last_head_given_wins(r, init, n, i);
        law_set_head_reads_back(
            r.with_heads(init),
            heads.last().0,
            heads.last().1,
            n,
            Seq::empty(),
        );
        assert(forall|j: int| 0 <= j < init.len() ==> #[trigger] init[j] == heads[j]);
        assert(heads[heads.len() - 1] == heads.last());
        if forall|j: int| 0 <= j < heads.len() ==> (#[trigger] heads[j]).0 != n {
            assert forall|j: int| 0 <= j < init.len() implies (#[trigger] init[j]).0 != n by {
                assert(init[j] == heads[j]);
            }
        }
        if 0 <= i < init.len() && (forall|j: int|
            i < j < heads.len() ==> (#[trigger] heads[j]).0 != n) {
            assert forall|j: int| i < j < init.len() implies (#[trigger] init[j]).0 != n by {
                assert(init[j] == heads[j]);
            }
        }
    }
}

/// A value that was set in a section is read back there. Every other value of that
/// section, and every other section, is as it was. A section that was there keeps its
/// policy and liveness, and a fresh one has those that were given.
pub proof fn law_set_value_reads_back<T>(
    r: RegistryView<T>,
    id: Seq<char>,
    policy: MergePolicy,
    liveness: Liveness,
    k: KeyView,
    v: ValueView,
    other: KeyView,
    elsewhere: Seq<char>,
)
    ensures
        ({
            let w = r.with_value(id, policy, liveness, k, v);
            let s = w.sections[id];
            &&& w.sections.contains_key(id)
            &&& s.entries.contains_key(k) && s.entries[k] == v
            &&& if r.sections.contains_key(id) {
                &&& s.policy == r.sections[id].policy
                &&& s.liveness == r.sections[id].liveness
                &&& other != k ==> (s.entries.contains_key(other)
                    <==> r.sections[id].entries.contains_key(other)) && s.entries[other]
                    == r.sections[id].entries[other]
            } else {
                &&& s.policy == policy
                &&& s.liveness == liveness
                &&& other != k ==> !s.entries.contains_key(other)
            }
            &&& elsewhere != id ==> (w.sections.contains_key(elsewhere)
                <==> r.sections.contains_key(elsewhere)) && w.sections[elsewhere]
                == r.sections[elsewhere]
            &&& w.graphs == r.graphs && w.commits == r.commits && w.blobs == r.blobs
        }),
{
}

/// Bytes that were stored under an address are read back there, and everything else is
/// as it was. A store that was there keeps its liveness, and a fresh one has the one that
/// was given.
pub proof fn law_stored_bytes_read_back<T>(
    r: RegistryView<T>,
    id: Seq<char>,
    liveness: BlobLiveness,
    a: ContentAddr,
    bytes: Seq<u8>,
    other: ContentAddr,
    elsewhere: Seq<char>,
)
    ensures
        ({
            let w = r.with_blob(id, liveness, a, bytes);
            let s = w.blobs[id];
            &&& w.blobs.contains_key(id)
            &&& s.entries.contains_key(a) && s.entries[a] == bytes
            &&& if r.blobs.contains_key(id) {
                &&& s.liveness == r.blobs[id].liveness
                &&& other != a ==> (s.entries.contains_key(other)
                    <==> r.blobs[id].entries.contains_key(other)) && s.entries[other]
                    == r.blobs[id].entries[other]
            } else {
                &&& s.liveness == liveness
                &&& other != a ==> !s.entries.contains_key(other)
            }
            &&& elsewhere != id ==> (w.blobs.contains_key(elsewhere) <==> r.blobs.contains_key(
                elsewhere,
            )) && w.blobs[elsewhere] == r.blobs[elsewhere]
            &&& w.graphs == r.graphs && w.commits == r.commits && w.sections == r.sections
        }),
{
}

/// A merge adds the graphs and commits that are missing, and no others.
pub proof fn law_merge_adds_what_is_missing<T>(
    a: RegistryView<T>,
    b: RegistryView<T>,
    g: GraphAddr,
    c: CommitAddr,
)
    ensures
        merge::merged(a, b).graphs.contains_key(g) <==> a.graphs.contains_key(g)
            || b.graphs.contains_key(g),
        b.graphs.contains_key(g) && !a.graphs.contains_key(g) ==> merge::merged(a, b).graphs[g]
            == b.graphs[g],
        merge::merged(a, b).commits.contains_key(c) <==> a.commits.contains_key(c)
            || b.commits.contains_key(c),
        b.commits.contains_key(c) && !a.commits.contains_key(c) ==> merge::merged(a, b).commits[c]
            == b.commits[c],
{
}

/// A merge goes by the policy of the section that was there. A key that only one side has
/// keeps its value. Of one that both have, the value that was there stays under a policy
/// of keeping, and the incoming one takes its place under a policy of taking. A section
/// that only one side has is taken whole.
pub proof fn law_merge_goes_by_the_policy<T>(
    a: RegistryView<T>,
    b: RegistryView<T>,
    id: Seq<char>,
    k: KeyView,
)
    ensures
        ({
            let m = merge::merged(a, b).sections;
            &&& m.contains_key(id) <==> a.sections.contains_key(id) || b.sections.contains_key(id)
            &&& a.sections.contains_key(id) && !b.sections.contains_key(id) ==> m[id]
                == a.sections[id]
            &&& b.sections.contains_key(id) && !a.sections.contains_key(id) ==> m[id]
                == b.sections[id]
            &&& a.sections.contains_key(id) && b.sections.contains_key(id) ==> {
                let x = a.sections[id];
                let y = b.sections[id];
                &&& m[id].policy == x.policy
                &&& m[id].liveness == x.liveness
                &&& m[id].entries.contains_key(k) <==> x.entries.contains_key(k)
                    || y.entries.contains_key(k)
                &&& x.entries.contains_key(k) && !y.entries.contains_key(k) ==> m[id].entries[k]
                    == x.entries[k]
                &&& y.entries.contains_key(k) && !x.entries.contains_key(k) ==> m[id].entries[k]
                    == y.entries[k]
                &&& x.entries.contains_key(k) && y.entries.contains_key(k) && x.policy
                    == MergePolicy::KeepExisting ==> m[id].entries[k] == x.entries[k]
                &&& x.entries.contains_key(k) && y.entries.contains_key(k) && x.policy
                    == MergePolicy::TakeIncoming ==> m[id].entries[k] == y.entries[k]
            }
        }),
{
}

/// A merge adds the bytes that are missing: those that were there stay, in a store that
/// keeps its liveness, and a store that only one side has is taken whole.
pub proof fn law_merge_adds_missing_bytes<T>(
    a: RegistryView<T>,
    b: RegistryView<T>,
    id: Seq<char>,
    x: ContentAddr,
)
    ensures
        ({
            let m = merge::merged(a, b).blobs;
            &&& m.contains_key(id) <==> a.blobs.contains_key(id) || b.blobs.contains_key(id)
            &&& a.blobs.contains_key(id) && !b.blobs.contains_key(id) ==> m[id] == a.blobs[id]
            &&& b.blobs.contains_key(id) && !a.blobs.contains_key(id) ==> m[id] == b.blobs[id]
            &&& a.blobs.contains_key(id) && b.blobs.contains_key(id) ==> {
                let s = a.blobs[id];
                let t = b.blobs[id];
                &&& m[id].liveness == s.liveness
                &&& m[id].entries.contains_key(x) <==> s.entries.contains_key(x)
                    || t.entries.contains_key(x)
                &&& s.entries.contains_key(x) ==> m[id].entries[x] == s.entries[x]
                &&& t.entries.contains_key(x) && !s.entries.contains_key(x) ==> m[id].entries[x]
                    == t.entries[x]
            }
        }),
{
}

proof fn lemma_added<T>(
    before: RegistryView<T>,
    after: Seq<(Seq<Seq<char>>, CommitAddr)>,
    h: (Seq<Seq<char>>, CommitAddr),
)
    ensures
        merge::added(before, after).contains(h) <==> after.contains(h) && before.head(h.0) is None,
    decreases after.len(),
{
    if after.len() > 0 {
        let init = after.drop_last();
        lemma_added(before, init, h);
        let pre = merge::added(before, init);
        assert(after =~= init.push(after.last()));
        assert(after.contains(h) <==> init.contains(h) || after.last() == h) by {
            if init.contains(h) {
                let i = init.index_of(h);
                assert(after[i] == h);
            }
            if after.contains(h) {
                let i = after.index_of(h);
                assert(after[i] == h);
                if i < init.len() {
                    assert(init[i] == h);
                }
            }
            assert(after[after.len() - 1] == after.last());
        }
        assert(pre.push(after.last()).contains(h) <==> pre.contains(h) || after.last() == h) by {
            let p = pre.push(after.last());
            assert(p[p.len() - 1] == after.last());
            if pre.contains(h) {
                assert(p[pre.index_of(h)] == h);
            }
            if p.contains(h) {
                let i = p.index_of(h);
                assert(p[i] == h);
                if i < pre.len() {
                    assert(pre[i] == h);
                }
            }
        }
    }
}

proof fn lemma_replaced<T>(
    before: RegistryView<T>,
    after: Seq<(Seq<Seq<char>>, CommitAddr)>,
    h: (Seq<Seq<char>>, CommitAddr, CommitAddr),
)
    ensures
        merge::replaced(before, after).contains(h) <==> after.contains((h.0, h.2)) && before.head(
            h.0,
        ) == Some(h.1) && h.1 != h.2,
    decreases after.len(),
{
    if after.len() > 0 {
        let init = after.drop_last();
        let e = (h.0, h.2);
        lemma_replaced(before, init, h);
        let pre = merge::replaced(before, init);
        assert(after.contains(e) <==> init.contains(e) || after.last() == e) by {
            if init.contains(e) {
                assert(after[init.index_of(e)] == e);
            }
            if after.contains(e) {
                let i = after.index_of(e);
                assert(after[i] == e);
                if i < init.len() {
                    assert(init[i] == e);
                }
            }
            assert(after[after.len() - 1] == after.last());
        }
        let old = before.head(after.last().0);
        if old is Some {
            let x = (after.last().0, old->0, after.last().1);
            let p = pre.push(x);
            assert(p.contains(h) <==> pre.contains(h) || x == h) by {
                assert(p[p.len() - 1] == x);
                if pre.contains(h) {
                    assert(p[pre.index_of(h)] == h);
                }
                if p.contains(h) {
                    let i = p.index_of(h);
                    assert(p[i] == h);
                    if i < pre.len() {
                        assert(pre[i] == h);
                    }
                }
            }
        }
    }
}

/// A merge's report tells the heads that changed. Those added are the heads that are there
/// after and were not before, and those replaced are the heads that were there and point
/// to another commit after, with both commits.
pub proof fn law_report_tells_what_changed<T>(
    r: MergeReport,
    before: RegistryView<T>,
    after: RegistryView<T>,
    n: Seq<Seq<char>>,
    old: CommitAddr,
    new: CommitAddr,
)
    requires
        merge::reports(r, before, after),
    ensures
        registry::head_views(r.heads_added@).contains((n, new)) <==> before.head(n) is None
            && after.head(n) == Some(new),
        merge::moved_views(r.heads_replaced@).contains((n, old, new)) <==> before.head(n) == Some(
            old,
        ) && after.head(n) == Some(new) && old != new,
{
    let heads = choose|heads: Seq<(Name, CommitAddr)>| #[trigger]
        after.lists_heads(heads) && registry::head_views(r.heads_added@) == merge::added(
            before,
            registry::head_views(heads),
        ) && merge::moved_views(r.heads_replaced@) == merge::replaced(
            before,
            registry::head_views(heads),
        );
    let hv = registry::head_views(heads);
    lemma_added(before, hv, (n, new));
    lemma_replaced(before, hv, (n, old, new));
    assert(hv.contains((n, new)) <==> after.head(n) == Some(new)) by {
        if hv.contains((n, new)) {
            let i = hv.index_of((n, new));
            assert(hv[i] == (n, new));
            assert(heads[i].0@ == n);
        }
        if after.head(n) == Some(new) {
            let i = choose|i: int| 0 <= i < heads.len() && (#[trigger] heads[i]).0@ == n;
            assert(hv[i] == (n, new));
        }
    }
}

/// The objects found for references are those of the references, in their order: of each
/// that is there, the commit, the graph's bytes, or the bytes with their store's liveness,
/// and nothing of one that is not there.
pub proof fn law_objects_are_found_by_reference(
    rv: RegistryView<RawView>,
    a: Seq<ObjectRef>,
    b: Seq<ObjectRef>,
    r: ObjectRef,
)
    ensures
        store::found_all(rv, a + b) == store::found_all(rv, a) + store::found_all(rv, b),
        store::found_all(rv, seq![r]) == (match r {
            ObjectRef::Commit(c) => if rv.commits.contains_key(c) {
                seq![ObjectView::Commit(c, rv.commits[c])]
            } else {
                Seq::empty()
            },
            ObjectRef::Graph(g) => if rv.graphs.contains_key(g) {
                seq![ObjectView::Graph(g, rv.graphs[g].bytes)]
            } else {
                Seq::empty()
            },
            ObjectRef::Blob { section, addr } => if rv.blobs.contains_key(section@)
                && rv.blobs[section@].entries.contains_key(addr) {
                seq![
                    ObjectView::Blob {
                        section: section@,
                        liveness: rv.blobs[section@].liveness,
                        addr,
                        bytes: rv.blobs[section@].entries[addr],
                    },
                ]
            } else {
                Seq::empty()
            },
        }),
    decreases b.len(),
{
    assert(seq![r].drop_last() =~= Seq::empty());
    assert(store::found_all(rv, Seq::<ObjectRef>::empty()) =~= Seq::empty());
    match store::found(rv, r) {
        Some(o) => {
            assert(Seq::<ObjectView>::empty().push(o) =~= seq![o]);
        },
        None => {},
    }
    if b.len() == 0 {
        assert(a + b =~= a);
        assert(store::found_all(rv, a) + store::found_all(rv, b) =~= store::found_all(rv, a));
    } else {
        law_objects_are_found_by_reference(rv, a, b.drop_last(), r);
        assert((a + b).drop_last() =~= a + b.drop_last());
        assert((a + b).last() == b.last());
        assert(store::found_all(rv, a + b) =~= store::found_all(rv, a) + store::found_all(rv, b));
    }
}

/// A registry made of parts holds each of them: every graph under its own address and
/// every commit under the one it is given with, the last where an address is given twice.
pub proof fn law_parts_are_all_there(
    heads: Seq<(Seq<Seq<char>>, CommitAddr)>,
    commits: Seq<(CommitAddr, CommitView)>,
    graphs: Seq<RawView>,
    i: int,
    j: int,
    c: CommitAddr,
    g: GraphAddr,
)
    ensures
        0 <= i < commits.len() && (forall|k: int|
            i < k < commits.len() ==> (#[trigger] commits[k]).0 != commits[i].0) ==> {
            let p = store::parts(heads, commits, graphs);
            p.commits.contains_key(commits[i].0) && p.commits[commits[i].0] == commits[i].1
        },
        0 <= j < graphs.len() && (forall|k: int|
            j < k < graphs.len() ==> (#[trigger] graphs[k]).addr != graphs[j].addr) ==> {
            let p = store::parts(heads, commits, graphs);
            p.graphs.contains_key(graphs[j].addr) && p.graphs[graphs[j].addr] == graphs[j]
        },
        store::parts(heads, commits, graphs).commits.contains_key(c) ==> exists|k: int|
            0 <= k < commits.len() && (#[trigger] commits[k]).0 == c,
        store::parts(heads, commits, graphs).graphs.contains_key(g) ==> exists|k: int|
            0 <= k < graphs.len() && (#[trigger] graphs[k]).addr == g,
        store::parts(heads, commits, graphs).blobs == Map::<Seq<char>, BlobView>::empty(),
{
    let bare = RegistryView {
        graphs: store::graph_map(graphs),
        commits: store::commit_map(commits),
        ..RegistryView::<RawView>::empty()
    };
    law_last_head_given_wins(bare, heads, Seq::empty(), 0);
    lemma_commit_map(commits, i, c);
    lemma_graph_map(graphs, j, g);
}

proof fn lemma_commit_map(s: Seq<(CommitAddr, CommitView)>, i: int, c: CommitAddr)
    ensures
        0 <= i < s.len() && (forall|k: int|
            i < k < s.len() ==> (#[trigger] s[k]).0 != s[i].0) ==> store::commit_map(
            s,
        ).contains_key(s[i].0) && store::commit_map(s)[s[i].0] == s[i].1,
        store::commit_map(s).contains_key(c) ==> exists|k: int|
            0 <= k < s.len() && (#[trigger] s[k]).0 == c,
    decreases s.len(),
{
    if s.len() > 0 {
        let init = s.drop_last();
        lemma_commit_map(init, i, c);
        assert(s[s.len() - 1] == s.last());
        if 0 <= i < init.len() && (forall|k: int|
            i < k < s.len() ==> (#[trigger] s[k]).0 != s[i].0) {
            assert(init[i] == s[i]);
            assert forall|k: int| i < k < init.len() implies (#[trigger] init[k]).0
                != init[i].0 by {
                assert(init[k] == s[k]);
            }
        }
        if store::commit_map(init).contains_key(c) {
            let k = choose|k: int| 0 <= k < init.len() && (#[trigger] init[k]).0 == c;
            assert(s[k].0 == c);
        }
    }
}

proof fn lemma_graph_map(s: Seq<RawView>, i: int, c: GraphAddr)
    ensures
        0 <= i < s.len() && (forall|k: int|
            i < k < s.len() ==> (#[trigger] s[k]).addr != s[i].addr) ==> store::graph_map(
            s,
        ).contains_key(s[i].addr) && store::graph_map(s)[s[i].addr] == s[i],
        store::graph_map(s).contains_key(c) ==> exists|k: int|
            0 <= k < s.len() && (#[trigger] s[k]).addr == c,
    decreases s.len(),
{
    if s.len() > 0 {
        let init = s.drop_last();
        lemma_graph_map(init, i, c);
        assert(s[s.len() - 1] == s.last());
        if 0 <= i < init.len() && (forall|k: int|
            i < k < s.len() ==> (#[trigger] s[k]).addr != s[i].addr) {
            assert(init[i] == s[i]);
            assert forall|k: int| i < k < init.len() implies (#[trigger] init[k]).addr
                != init[i].addr by {
                assert(init[k] == s[k]);
            }
        }
        if store::graph_map(init).contains_key(c) {
            let k = choose|k: int| 0 <= k < init.len() && (#[trigger] init[k]).addr == c;
            assert(s[k].addr == c);
        }
    }
}

/// The names that a base takes from a source are recorded with their commits and that
/// source, the last commit where a name is given twice, and no other name is touched.
pub proof fn law_base_records_where_names_come_from(
    b: BaseView,
    source: Seq<char>,
    heads: Seq<(Seq<Seq<char>>, CommitAddr)>,
    i: int,
    n: Seq<Seq<char>>,
)
    ensures
        0 <= i < heads.len() && (forall|j: int|
            i < j < heads.len() ==> (#[trigger] heads[j]).0 != heads[i].0) ==> {
            let w = b.with_names(source, heads);
            w.names.contains_key(heads[i].0) && w.names[heads[i].0] == heads[i].1
        },
        0 <= i < heads.len() ==> {
            let w = b.with_names(source, heads);
            w.sources.contains_key(name::spelled(heads[i].0)) && w.sources[name::spelled(
                heads[i].0,
            )] == source
        },
        (forall|j: int| 0 <= j < heads.len() ==> (#[trigger] heads[j]).0 != n) ==> {
            let w = b.with_names(source, heads);
            (w.names.contains_key(n) <==> b.names.contains_key(n)) && w.names[n] == b.names[n]
        },
        (forall|j: int|
            0 <= j < heads.len() ==> name::spelled((#[trigger] heads[j]).0) != name::spelled(n))
            ==> {
            let w = b.with_names(source, heads);
            (w.sources.contains_key(name::spelled(n)) <==> b.sources.contains_key(
                name::spelled(n),
            )) && w.sources[name::spelled(n)] == b.sources[name::spelled(n)]
        },
    decreases heads.len(),
{
    if heads.len() > 0 {
        let init = heads.drop_last();
        law_base_records_where_names_come_from(b, source, init, i, n);
        assert(forall|j: int| 0 <= j < init.len() ==> #[trigger] init[j] == heads[j]);
        assert(heads[heads.len() - 1] == heads.last());
        assert((forall|j: int| 0 <= j < heads.len() ==> (#[trigger] heads[j]).0 != n) ==> (forall|
            j: int,
        |
            0 <= j < init.len() ==> (#[trigger] init[j]).0 != n));
        assert((forall|j: int|
            0 <= j < heads.len() ==> name::spelled((#[trigger] heads[j]).0) != name::spelled(n))
            ==> (forall|j: int|
            0 <= j < init.len() ==> name::spelled((#[trigger] init[j]).0) != name::spelled(n)));
        if 0 <= i < init.len() && (forall|j: int|
            i < j < heads.len() ==> (#[trigger] heads[j]).0 != heads[i].0) {
            assert(init[i] == heads[i]);
            assert forall|j: int| i < j < init.len() implies (#[trigger] init[j]).0
                != init[i].0 by {
                assert(init[j] == heads[j]);
            }
        }
    }
}

/// A name comes from the source of the longest of its beginnings that has one, be it the
/// whole name, and from the default where none has.
pub proof fn law_nearest_recorded_name_tells_the_source(
    segments: Seq<Seq<char>>,
    sources: Map<Seq<char>, Seq<char>>,
    default: Seq<char>,
    k: int,
)
    requires
        segments.len() > 0,
    ensures
        1 <= k <= segments.len() && sources.contains_key(name::spelled(segments.take(k))) && (forall|
            j: int,
        |
            k < j <= segments.len() ==> !sources.contains_key(
                name::spelled(#[trigger] segments.take(j)),
            )) ==> base::source_of(segments, sources, default) == sources[name::spelled(
            segments.take(k),
        )],
        (forall|j: int|
            1 <= j <= segments.len() ==> !sources.contains_key(
                name::spelled(#[trigger] segments.take(j)),
            )) ==> base::source_of(segments, sources, default) == default,
    decreases segments.len(),
{
    let n = segments.len() as int;
    assert(segments.take(n) =~= segments);
    if !sources.contains_key(name::spelled(segments)) && n > 1 {
        let up = segments.drop_last();
        assert forall|j: int| 0 <= j < n implies #[trigger] up.take(j) == segments.take(j) by {
            assert(up.take(j) =~= segments.take(j));
        }
        law_nearest_recorded_name_tells_the_source(up, sources, default, k);
    }
}

/// The names that belong to a source are those that come from it, in their order.
pub proof fn law_names_belong_where_they_come_from(
    a: Seq<Seq<char>>,
    b: Seq<Seq<char>>,
    n: Seq<char>,
    sources: Map<Seq<char>, Seq<char>>,
    default: Seq<char>,
    source: Seq<char>,
)
    ensures
        base::belonging(a + b, sources, default, source) == base::belonging(
            a,
            sources,
            default,
            source,
        ) + base::belonging(b, sources, default, source),
        base::source_of(name::split(n), sources, default) == source ==> base::belonging(
            seq![n],
            sources,
            default,
            source,
        ) == seq![n],
        base::source_of(name::split(n), sources, default) != source ==> base::belonging(
            seq![n],
            sources,
            default,
            source,
        ).len() == 0,
    decreases b.len(),
{
    assert(seq![n].drop_last() =~= Seq::empty());
    assert(base::belonging(Seq::empty(), sources, default, source) =~= Seq::empty());
    assert(Seq::<Seq<char>>::empty().push(n) =~= seq![n]);
    if b.len() == 0 {
        assert(a + b =~= a);
        assert(base::belonging(a, sources, default, source) + base::belonging(
            b,
            sources,
            default,
            source,
        ) =~= base::belonging(a, sources, default, source));
    } else {
        law_names_belong_where_they_come_from(a, b.drop_last(), n, sources, default, source);
        assert((a + b).drop_last() =~= a + b.drop_last());
        assert((a + b).last() == b.last());
        assert(base::belonging(a + b, sources, default, source) =~= base::belonging(
            a,
            sources,
            default,
            source,
        ) + base::belonging(b, sources, default, source));
    }
}

} // verus!
