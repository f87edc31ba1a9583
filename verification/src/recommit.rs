//! What is committed when references change: the graph as it was, with its references
//! changed, on the line of history that it was on.

use crate::commit::{CommitAddr, Timestamp};
use crate::data::{self, GraphView, NamedView, NodeView};
use crate::fork;
use crate::graph::GraphAddr;
use crate::registry::{RegistryView, HEADS_ID};
use crate::sync::{self, DataView, ForkState, MovedView, SyncState};
use vstd::prelude::*;

verus! {

/// A commit extends a line of history by one commit: the commit has the given time and
/// graph, and the line's head as its parent, and is the line's head from then on. No other
/// line moves, and nothing that was stored is lost or changed, unless it lay under the
/// commit's own address.
pub proof fn law_commit_extends_its_line<T>(
    rv: RegistryView<T>,
    timestamp: Timestamp,
    a: GraphAddr,
    g: T,
    name: Seq<Seq<char>>,
)
    ensures
        ({
            let after = rv.with_graph_on(timestamp, a, g, name);
            let c = rv.next_addr(timestamp, a, name);
            &&& after.head(name) == Some(c)
            &&& after.commits.contains_key(c)
            &&& after.commits[c].timestamp == timestamp
            &&& after.commits[c].parent == rv.head(name)
            &&& after.commits[c].graph == a
            &&& after.commits[c].merge_parents.len() == 0
            &&& after.graphs.contains_key(a)
            &&& !rv.graphs.contains_key(a) ==> after.graphs[a] == g
            &&& forall|n: Seq<Seq<char>>| n != name ==> (#[trigger] after.head(n)) == rv.head(n)
            &&& forall|b: GraphAddr| #[trigger]
                rv.graphs.contains_key(b) ==> after.graphs.contains_key(b) && after.graphs[b]
                    == rv.graphs[b]
            &&& forall|b: GraphAddr| #[trigger]
                after.graphs.contains_key(b) ==> rv.graphs.contains_key(b) || b == a
            &&& forall|d: CommitAddr|
                d != c ==> (#[trigger] after.commits.contains_key(d) == rv.commits.contains_key(d))
                    && after.commits[d] == rv.commits[d]
            &&& after.blobs == rv.blobs
            &&& forall|id: Seq<char>|
                id != HEADS_ID@ ==> (#[trigger] after.sections.contains_key(id)
                    == rv.sections.contains_key(id)) && after.sections[id] == rv.sections[id]
        }),
{
    let after = rv.with_graph_on(timestamp, a, g, name);
    assert forall|n: Seq<Seq<char>>| n != name implies (#[trigger] after.head(n)) == rv.head(n) by {}
}

/// Whether two graphs differ in nothing but where references that follow their name go.
pub open spec fn alike_but_targets(g: GraphView<NodeView>, h: GraphView<NodeView>) -> bool {
    &&& data::alike_but_refs(g, h)
    &&& forall|i: int|
        0 <= i < g.nodes.len() && (#[trigger] g.nodes[i]) is Some && g.nodes[i]->0.named is Some
            ==> {
            let (r, s) = (g.nodes[i]->0.named->0, h.nodes[i]->0.named->0);
            &&& s.name == r.name
            &&& s.sync == r.sync
            &&& !r.sync ==> s.graph == r.graph
        }
}

proof fn lemma_alike_trans(
    a: GraphView<NodeView>,
    b: GraphView<NodeView>,
    c: GraphView<NodeView>,
)
    requires
        alike_but_targets(a, b),
        alike_but_targets(b, c),
    ensures
        alike_but_targets(a, c),
{
    assert forall|i: int| 0 <= i < a.nodes.len() implies (#[trigger] a.nodes[i] is Some) == (
    c.nodes[i] is Some) by {
        assert((b.nodes[i] is Some) == (c.nodes[i] is Some));
    }
    assert forall|i: int| 0 <= i < a.nodes.len() && #[trigger] a.nodes[i] is Some implies b.nodes[i] is Some by {
        assert((a.nodes[i] is Some) == (b.nodes[i] is Some));
    }
}

/// Whether what rewriting the references of the graph at a commit stores meets nothing
/// else at its address.
pub open spec fn clear(
    rv: DataView,
    timestamp: Timestamp,
    name: Seq<Seq<char>>,
    source: CommitAddr,
    f: spec_fn(NamedView) -> Option<NamedView>,
) -> bool {
    match sync::graph_of(rv, source) {
        Some(g) => {
            let h = data::rewritten(g, f);
            let a = data::data_addr(h);
            let c = rv.next_addr(timestamp, a, name);
            &&& rv.graphs.contains_key(a) ==> rv.graphs[a] == h
            &&& rv.commits.contains_key(c) ==> rv.commits[c].graph == a
        },
        None => true,
    }
}

/// Rewriting the references of the graph at a line's commit leaves every commit that was
/// there at its graph, and the line, if anything changes, at the rewritten graph.
proof fn lemma_rewriting(
    rv: DataView,
    timestamp: Timestamp,
    name: Seq<Seq<char>>,
    source: CommitAddr,
    f: spec_fn(NamedView) -> Option<NamedView>,
    d: CommitAddr,
)
    requires
        clear(rv, timestamp, name, source, f),
    ensures
        ({
            let (after, m) = sync::rewriting(rv, timestamp, name, source, f);
            &&& sync::graph_of(rv, d) is Some ==> sync::graph_of(after, d) == sync::graph_of(rv, d)
            &&& m is Some ==> sync::graph_of(rv, source) is Some && after.head(name) == Some(
                m->0.new_commit,
            ) && sync::graph_of(after, m->0.new_commit) == Some(
                data::rewritten(sync::graph_of(rv, source)->0, f),
            )
            &&& m is None ==> after == rv
            &&& forall|n: Seq<Seq<char>>| n != name ==> (#[trigger] after.head(n)) == rv.head(n)
        }),
{
    let (after, m) = sync::rewriting(rv, timestamp, name, source, f);
    if m is Some {
        let g = sync::graph_of(rv, source)->0;
        let h = data::rewritten(g, f);
        law_commit_extends_its_line(rv, timestamp, data::data_addr(h), h, name);
    }
}

/// Whether nothing that a step of a resync stores meets something else.
pub open spec fn one_clear(st: SyncState, timestamp: Timestamp, name: Seq<Seq<char>>) -> bool {
    st.current.contains_key(name) ==> clear(
        st.rv,
        timestamp,
        name,
        st.current[name].0,
        sync::following(st.current),
    )
}

/// Whether nothing that a pass stores meets something else.
pub open spec fn pass_clear(st: SyncState, timestamp: Timestamp, names: Seq<Seq<Seq<char>>>) -> bool
    decreases names.len(),
{
    names.len() == 0 || (pass_clear(st, timestamp, names.drop_last()) && one_clear(
        sync::resync_pass(st, timestamp, names.drop_last()).0,
        timestamp,
        names.last(),
    ))
}

/// Whether nothing that `n` passes store meets something else.
pub open spec fn passes_clear(
    st: SyncState,
    timestamp: Timestamp,
    names: Seq<Seq<Seq<char>>>,
    n: nat,
) -> bool
    decreases n,
{
    n == 0 || (pass_clear(st, timestamp, names) && (sync::resync_pass(st, timestamp, names).1
        ==> passes_clear(
        sync::resync_pass(st, timestamp, names).0,
        timestamp,
        names,
        (n - 1) as nat,
    )))
}

/// What every step of a resync keeps of the registry that it started from.
spec fn kept(st: SyncState, rv: DataView) -> bool {
    &&& forall|n: Seq<Seq<char>>| #[trigger]
        st.current.contains_key(n) <==> sync::current_of(rv).contains_key(n)
    &&& forall|n: Seq<Seq<char>>| #[trigger]
        st.current.contains_key(n) ==> st.rv.head(n) == Some(st.current[n].0)
    &&& forall|n: Seq<Seq<char>>|
        !sync::current_of(rv).contains_key(n) ==> (#[trigger] st.rv.head(n)) == rv.head(n)
    &&& forall|n: Seq<Seq<char>>| #[trigger]
        fork::has_graph(rv, n) ==> fork::has_graph(st.rv, n) && alike_but_targets(
            sync::graph_of(rv, rv.head(n)->0)->0,
            sync::graph_of(st.rv, st.rv.head(n)->0)->0,
        )
}

proof fn lemma_one_kept(st: SyncState, rv: DataView, timestamp: Timestamp, name: Seq<Seq<char>>)
    requires
        kept(st, rv),
        one_clear(st, timestamp, name),
    ensures
        kept(sync::resync_one(st, timestamp, name).0, rv),
{
    let (next, changed) = sync::resync_one(st, timestamp, name);
    if changed {
        let f = sync::following(st.current);
        let source = st.current[name].0;
        let g = sync::graph_of(st.rv, source)->0;
        let h = data::rewritten(g, f);
        lemma_rewriting(st.rv, timestamp, name, source, f, source);
        data::law_rewriting_touches_references_alone(g, f);
        assert(alike_but_targets(g, h)) by {
            assert forall|i: int|
                0 <= i < g.nodes.len() && (#[trigger] g.nodes[i]) is Some
                    && g.nodes[i]->0.named is Some implies ({
                let (r, s) = (g.nodes[i]->0.named->0, h.nodes[i]->0.named->0);
                &&& s.name == r.name
                &&& s.sync == r.sync
                &&& !r.sync ==> s.graph == r.graph
            }) by {}
        }
        assert forall|n: Seq<Seq<char>>| #[trigger] fork::has_graph(rv, n) implies fork::has_graph(
            next.rv,
            n,
        ) && alike_but_targets(
            sync::graph_of(rv, rv.head(n)->0)->0,
            sync::graph_of(next.rv, next.rv.head(n)->0)->0,
        ) by {
            assert(fork::has_graph(st.rv, n));
            if n == name {
                lemma_alike_trans(sync::graph_of(rv, rv.head(n)->0)->0, g, h);
            } else {
                assert(next.rv.head(n) == st.rv.head(n));
                lemma_rewriting(st.rv, timestamp, name, source, f, st.rv.head(n)->0);
            }
        }
        assert forall|n: Seq<Seq<char>>| #[trigger] next.current.contains_key(n) implies next.rv.head(n)
            == Some(next.current[n].0) by {
            if n != name {
                assert(next.rv.head(n) == st.rv.head(n));
            }
        }
    }
}

proof fn lemma_pass_kept(
    st: SyncState,
    rv: DataView,
    timestamp: Timestamp,
    names: Seq<Seq<Seq<char>>>,
)
    requires
        kept(st, rv),
        pass_clear(st, timestamp, names),
    ensures
        kept(sync::resync_pass(st, timestamp, names).0, rv),
    decreases names.len(),
{
    if names.len() > 0 {
        lemma_pass_kept(st, rv, timestamp, names.drop_last());
        let mid = sync::resync_pass(st, timestamp, names.drop_last()).0;
        lemma_one_kept(mid, rv, timestamp, names.last());
    }
}

proof fn lemma_passes_kept(
    st: SyncState,
    rv: DataView,
    timestamp: Timestamp,
    names: Seq<Seq<Seq<char>>>,
    n: nat,
)
    requires
        kept(st, rv),
        passes_clear(st, timestamp, names, n),
    ensures
        kept(sync::resync_passes(st, timestamp, names, n), rv),
    decreases n,
{
    if n > 0 {
        lemma_pass_kept(st, rv, timestamp, names);
        let (next, changed) = sync::resync_pass(st, timestamp, names);
        if changed {
            lemma_passes_kept(next, rv, timestamp, names, (n - 1) as nat);
        }
    }
}

/// A resync changes nothing but where references that follow their name go. The graph at
/// every line of history is, behind it, the graph that was there, with all of its edges and
/// nodes, and every reference still by the same name; one that does not follow its name
/// is where it was. Lines whose commit is not there stay. That holds where nothing that the
/// resync stores meets something else at its address.
pub proof fn law_resync_changes_targets_alone(
    rv: DataView,
    timestamp: Timestamp,
    n: Seq<Seq<char>>,
)
    requires
        passes_clear(
            sync::resync_start(rv),
            timestamp,
            sync::resync_order(rv),
            sync::resync_order(rv).len() + 1,
        ),
    ensures
        ({
            let after = sync::resynced(rv, timestamp).rv;
            &&& fork::has_graph(rv, n) ==> fork::has_graph(after, n) && alike_but_targets(
                sync::graph_of(rv, rv.head(n)->0)->0,
                sync::graph_of(after, after.head(n)->0)->0,
            )
            &&& rv.head(n) is None ==> after.head(n) is None
            &&& rv.head(n) is Some && !rv.commits.contains_key(rv.head(n)->0) ==> after.head(n)
                == rv.head(n)
        }),
{
    let st = sync::resync_start(rv);
    assert(kept(st, rv)) by {
        assert forall|m: Seq<Seq<char>>| #[trigger] fork::has_graph(rv, m) implies alike_but_targets(
            sync::graph_of(rv, rv.head(m)->0)->0,
            sync::graph_of(rv, rv.head(m)->0)->0,
        ) by {}
    }
    lemma_passes_kept(st, rv, timestamp, sync::resync_order(rv), sync::resync_order(rv).len() + 1);
}

/// Where the reported moves of a name lead from a commit; nowhere where one of them does
/// not start from where the one before it led.
pub open spec fn led(moves: Seq<MovedView>, n: Seq<Seq<char>>, at: Option<CommitAddr>) -> Option<
    CommitAddr,
>
    decreases moves.len(),
{
    if moves.len() == 0 {
        at
    } else {
        let m = moves.last();
        let before = led(moves.drop_last(), n, at);
        if m.name != n {
            before
        } else if before == Some(m.old_commit) {
            Some(m.new_commit)
        } else {
            None
        }
    }
}

/// What the moves say while a resync goes on.
spec fn reported(st: SyncState, rv: DataView) -> bool {
    &&& forall|n: Seq<Seq<char>>| #[trigger] st.rv.head(n) == led(st.moves, n, rv.head(n))
    &&& forall|n: Seq<Seq<char>>| #[trigger]
        st.current.contains_key(n) ==> st.rv.head(n) == Some(st.current[n].0)
}

proof fn lemma_one_reported(st: SyncState, rv: DataView, timestamp: Timestamp, name: Seq<Seq<char>>)
    requires
        reported(st, rv),
    ensures
        reported(sync::resync_one(st, timestamp, name).0, rv),
{
    let (next, changed) = sync::resync_one(st, timestamp, name);
    if changed {
        let g = sync::graph_of(st.rv, st.current[name].0)->0;
        let h = data::rewritten(g, sync::following(st.current));
        law_commit_extends_its_line(st.rv, timestamp, data::data_addr(h), h, name);
        assert(next.moves.drop_last() =~= st.moves);
        assert forall|n: Seq<Seq<char>>| #[trigger] next.rv.head(n) == led(
            next.moves,
            n,
            rv.head(n),
        ) by {
            assert(st.rv.head(n) == led(st.moves, n, rv.head(n)));
        }
        assert forall|n: Seq<Seq<char>>| #[trigger] next.current.contains_key(n) implies next.rv.head(
            n,
        ) == Some(next.current[n].0) by {
            if n != name {
                assert(next.rv.head(n) == st.rv.head(n));
            }
        }
    }
}

proof fn lemma_pass_reported(
    st: SyncState,
    rv: DataView,
    timestamp: Timestamp,
    names: Seq<Seq<Seq<char>>>,
)
    requires
        reported(st, rv),
    ensures
        reported(sync::resync_pass(st, timestamp, names).0, rv),
    decreases names.len(),
{
    if names.len() > 0 {
        lemma_pass_reported(st, rv, timestamp, names.drop_last());
        let mid = sync::resync_pass(st, timestamp, names.drop_last()).0;
        lemma_one_reported(mid, rv, timestamp, names.last());
    }
}

proof fn lemma_passes_reported(
    st: SyncState,
    rv: DataView,
    timestamp: Timestamp,
    names: Seq<Seq<Seq<char>>>,
    n: nat,
)
    requires
        reported(st, rv),
    ensures
        reported(sync::resync_passes(st, timestamp, names, n), rv),
    decreases n,
{
    if n > 0 {
        lemma_pass_reported(st, rv, timestamp, names);
        let (next, changed) = sync::resync_pass(st, timestamp, names);
        if changed {
            lemma_passes_reported(next, rv, timestamp, names, (n - 1) as nat);
        }
    }
}

/// The moves that a resync reports lead every name from the commit that it was at to the
/// one that it is at, each move from where the one before it led; a name without a move
/// is where it was.
pub proof fn law_reported_moves_lead_to_the_heads(
    rv: DataView,
    timestamp: Timestamp,
    n: Seq<Seq<char>>,
)
    ensures
        led(sync::resynced(rv, timestamp).moves, n, rv.head(n)) == sync::resynced(
            rv,
            timestamp,
        ).rv.head(n),
{
    let st = sync::resync_start(rv);
    assert(reported(st, rv));
    lemma_passes_reported(
        st,
        rv,
        timestamp,
        sync::resync_order(rv),
        sync::resync_order(rv).len() + 1,
    );
    assert(sync::resynced(rv, timestamp).rv.head(n) == led(
        sync::resynced(rv, timestamp).moves,
        n,
        rv.head(n),
    ));
}

/// What promoting a nested graph does. Its parent's graph is the graph that it was, with
/// its references to the nested name going to the new name, at the new name's graph, and
/// all others as they were; the parent is reported, with the commits that it was and is
/// at, just where it had such a reference. All names but the parent and those at or under
/// the nested one stay where they were.
pub proof fn law_promotion_repoints_the_parent(
    rv: DataView,
    timestamp: Timestamp,
    old: Seq<Seq<char>>,
    new: Seq<Seq<char>>,
)
    requires
        old.len() > 1,
        rv.head(new) is Some,
        rv.commits.contains_key(rv.head(new)->0),
        fork::has_graph(rv, old.drop_last()),
        clear(
            rv,
            timestamp,
            old.drop_last(),
            rv.head(old.drop_last())->0,
            sync::to_promoted(old, new, rv.commits[rv.head(new)->0].graph),
        ),
    ensures
        ({
            let parent = old.drop_last();
            let (after, moves) = sync::promoted(rv, timestamp, old, new);
            let to = rv.commits[rv.head(new)->0].graph;
            let g = sync::graph_of(rv, rv.head(parent)->0)->0;
            let h = sync::graph_of(after, after.head(parent)->0)->0;
            &&& fork::has_graph(after, parent)
            &&& data::alike_but_refs(g, h)
            &&& forall|i: int|
                0 <= i < g.nodes.len() && (#[trigger] g.nodes[i]) is Some
                    && g.nodes[i]->0.named is Some ==> {
                    let (r, s) = (g.nodes[i]->0.named->0, h.nodes[i]->0.named->0);
                    &&& s.sync == r.sync
                    &&& r.name == old ==> s.name == new && s.graph == to
                    &&& r.name != old ==> s == r
                }
            &&& (exists|r: NamedView| #[trigger] sync::refers(g, r) && r.name == old)
                ==> moves.len() == 1 && moves[0].name == parent && Some(moves[0].old_commit)
                == rv.head(parent) && Some(moves[0].new_commit) == after.head(parent)
            &&& !(exists|r: NamedView| #[trigger] sync::refers(g, r) && r.name == old)
                ==> moves.len() == 0
            &&& forall|n: Seq<Seq<char>>|
                n != parent && !old.is_prefix_of(n) ==> (#[trigger] after.head(n)) == rv.head(n)
        }),
{
    let parent = old.drop_last();
    let to = rv.commits[rv.head(new)->0].graph;
    let f = sync::to_promoted(old, new, to);
    let source = rv.head(parent)->0;
    let g = sync::graph_of(rv, source)->0;
    let (mid, m) = sync::rewriting(rv, timestamp, parent, source, f);
    let (after, moves) = sync::promoted(rv, timestamp, old, new);
    lemma_rewriting(rv, timestamp, parent, source, f, source);
    data::law_rewriting_touches_references_alone(g, f);
    fork::lemma_changes_refs(g, f);
    if exists|r: NamedView| #[trigger] sync::refers(g, r) && r.name == old {
        let r = choose|r: NamedView| #[trigger] sync::refers(g, r) && r.name == old;
        assert(f(r) is Some);
        assert(data::changes(g, f));
    }
    if data::changes(g, f) {
        let r = choose|r: NamedView| #[trigger] sync::refers(g, r) && f(r) is Some;
        assert(r.name == old);
    }
    let gone = sync::at_or_under(sync::head_names(mid), old);
    assert(after == sync::without_heads(mid, gone));
    lemma_without_heads_content(mid, gone);
    assert forall|n: Seq<Seq<char>>| !old.is_prefix_of(n) implies (#[trigger] after.head(n))
        == mid.head(n) by {
        sync::lemma_without_heads(mid, gone, n);
        sync::lemma_at_or_under(sync::head_names(mid), old, n);
    }
    assert(!old.is_prefix_of(parent));
}

proof fn lemma_without_heads_content(rv: DataView, names: Seq<Seq<Seq<char>>>)
    ensures
        sync::without_heads(rv, names).graphs == rv.graphs,
        sync::without_heads(rv, names).commits == rv.commits,
    decreases names.len(),
{
    if names.len() > 0 {
        lemma_without_heads_content(rv, names.drop_last());
    }
}

/// Whether nothing that a fork stores meets something else.
pub open spec fn fork_clear(
    rv: DataView,
    timestamp: Timestamp,
    old: Seq<Seq<char>>,
    new: Seq<Seq<char>>,
) -> bool {
    let st = sync::fork_copied(rv, timestamp, old, new);
    &&& forall|k: nat|
        k < sync::fork_order(rv, old).len() ==> copy_clear(
            #[trigger] sync::fork_all(sync::fork_start(rv, old, new), timestamp, old, new, k),
            timestamp,
            old,
            new,
        )
    &&& st.rv.head(new) is Some ==> clear(
        st.rv,
        timestamp,
        new,
        st.rv.head(new)->0,
        sync::to_copy(st.remap),
    )
}

/// Whether nothing that the next copy of a fork stores meets something else.
pub open spec fn copy_clear(
    st: ForkState,
    timestamp: Timestamp,
    old: Seq<Seq<char>>,
    new: Seq<Seq<char>>,
) -> bool {
    let d = st.left[sync::next_copied(st.rv, st.left, 0) as int];
    st.rv.head(d) is Some ==> clear(
        st.rv,
        timestamp,
        sync::renamed_of(d, old, new),
        st.rv.head(d)->0,
        sync::to_copy(st.remap),
    )
}

/// What copying keeps: what was there stays, and every copy is of what it is a copy of.
spec fn copying(
    st: ForkState,
    rv: DataView,
    names: Seq<Seq<Seq<char>>>,
    old: Seq<Seq<char>>,
    new: Seq<Seq<char>>,
) -> bool {
    &&& st.left.no_duplicates()
    &&& forall|d: Seq<Seq<char>>| #[trigger] st.left.contains(d) ==> names.contains(d)
    &&& forall|n: Seq<Seq<char>>|
        !fork::beneath(n, new) ==> (#[trigger] st.rv.head(n)) == rv.head(n)
    &&& forall|c: CommitAddr|
        (#[trigger] sync::graph_of(rv, c)) is Some ==> sync::graph_of(st.rv, c)
            == sync::graph_of(rv, c)
    &&& forall|d: Seq<Seq<char>>| #[trigger]
        names.contains(d) && !st.left.contains(d) ==> copied(st, rv, d, old, new)
}

spec fn copied(
    st: ForkState,
    rv: DataView,
    d: Seq<Seq<char>>,
    old: Seq<Seq<char>>,
    new: Seq<Seq<char>>,
) -> bool {
    let n = sync::renamed_of(d, old, new);
    &&& fork::has_graph(st.rv, n)
    &&& data::alike_but_refs(
        sync::graph_of(rv, rv.head(d)->0)->0,
        sync::graph_of(st.rv, st.rv.head(n)->0)->0,
    )
}

proof fn lemma_copying(
    rv: DataView,
    timestamp: Timestamp,
    old: Seq<Seq<char>>,
    new: Seq<Seq<char>>,
    k: nat,
)
    requires
        sync::heads_map(rv).dom().finite(),
        fork::apart(old, new),
        fork_clear(rv, timestamp, old, new),
        k <= sync::fork_order(rv, old).len(),
    ensures
        copying(
            sync::fork_all(sync::fork_start(rv, old, new), timestamp, old, new, k),
            rv,
            sync::fork_order(rv, old),
            old,
            new,
        ),
    decreases k,
{
    let st0 = sync::fork_start(rv, old, new);
    let names = sync::fork_order(rv, old);
    fork::lemma_order(rv, old);
    fork::lemma_order_distinct(rv, old);
    if k > 0 {
        lemma_copying(rv, timestamp, old, new, (k - 1) as nat);
        fork::lemma_left(st0, timestamp, old, new, (k - 1) as nat);
        let st = sync::fork_all(st0, timestamp, old, new, (k - 1) as nat);
        sync::lemma_next_copied(st.rv, st.left, 0);
        let p = sync::next_copied(st.rv, st.left, 0) as int;
        let d = st.left[p];
        assert(st.left.contains(d));
        assert(names.contains(d));
        fork::lemma_removed(st.left, p);
        fork::lemma_apart(old, new, d);
        fork::lemma_renamed_under(d, old, new);
        assert(fork::has_graph(rv, d));
        assert(st.rv.head(d) == rv.head(d));
        let f = sync::to_copy(st.remap);
        let g = sync::graph_of(rv, rv.head(d)->0)->0;
        let h = data::rewritten(g, f);
        let n = sync::renamed_of(d, old, new);
        let next = sync::fork_one(st, timestamp, old, new);
        assert(copy_clear(st, timestamp, old, new));
        assert(next.rv == st.rv.with_graph_on(timestamp, data::data_addr(h), h, n));
        assert(next.left == st.left.remove(p));
        law_commit_extends_its_line(st.rv, timestamp, data::data_addr(h), h, n);
        data::law_rewriting_touches_references_alone(g, f);
        assert forall|c: CommitAddr| (#[trigger] sync::graph_of(rv, c)) is Some implies sync::graph_of(
            next.rv,
            c,
        ) == sync::graph_of(rv, c) by {
            assert(sync::graph_of(st.rv, c) == sync::graph_of(rv, c));
        }
        assert forall|e: Seq<Seq<char>>| #[trigger]
            names.contains(e) && !next.left.contains(e) implies copied(next, rv, e, old, new) by {
            if e != d {
                assert(!st.left.contains(e));
                assert(copied(st, rv, e, old, new));
                let m = sync::renamed_of(e, old, new);
                if m == n {
                    fork::lemma_renamed_apart(e, d, old, new);
                }
                assert(next.rv.head(m) == st.rv.head(m));
            }
        }
    }
}

/// A fork copies graphs whole: the graph nested under the new name is the graph that is
/// nested in the same place under the original, with all of its edges and nodes, but for
/// the named references; and the forked graph is what it was, but for them. The originals
/// stay what they were. That holds where neither name is under the other and nothing that
/// the fork stores meets something else at its address.
pub proof fn law_fork_copies_graphs_whole(
    rv: DataView,
    timestamp: Timestamp,
    old: Seq<Seq<char>>,
    new: Seq<Seq<char>>,
    d: Seq<Seq<char>>,
)
    requires
        sync::heads_map(rv).dom().finite(),
        fork::apart(old, new),
        fork_clear(rv, timestamp, old, new),
        fork::has_graph(rv, d),
    ensures
        ({
            let after = sync::forked(rv, timestamp, old, new).rv;
            let g = sync::graph_of(rv, rv.head(d)->0)->0;
            let n = sync::renamed_of(d, old, new);
            &&& fork::beneath(d, old) ==> fork::has_graph(after, n) && data::alike_but_refs(
                g,
                sync::graph_of(after, after.head(n)->0)->0,
            )
            &&& d == new ==> fork::has_graph(after, d) && data::alike_but_refs(
                g,
                sync::graph_of(after, after.head(d)->0)->0,
            )
            &&& !new.is_prefix_of(d) ==> after.head(d) == rv.head(d) && sync::graph_of(
                after,
                after.head(d)->0,
            ) == Some(g)
        }),
{
    let names = sync::fork_order(rv, old);
    let st0 = sync::fork_start(rv, old, new);
    let st = sync::fork_copied(rv, timestamp, old, new);
    let after = sync::forked(rv, timestamp, old, new).rv;
    fork::lemma_order(rv, old);
    lemma_copying(rv, timestamp, old, new, names.len());
    fork::lemma_left(st0, timestamp, old, new, names.len());
    let f = sync::to_copy(st.remap);
    let g = sync::graph_of(rv, rv.head(d)->0)->0;
    let n = sync::renamed_of(d, old, new);
    assert(sync::graph_of(st.rv, rv.head(d)->0) == Some(g));
    if fork::beneath(d, old) {
        assert(names.contains(d));
        assert(copied(st, rv, d, old, new));
        fork::lemma_renamed_under(d, old, new);
    }
    if st.rv.head(new) is Some {
        let c = st.rv.head(new)->0;
        lemma_rewriting(st.rv, timestamp, new, c, f, rv.head(d)->0);
        if fork::has_graph(st.rv, n) {
            lemma_rewriting(st.rv, timestamp, new, c, f, st.rv.head(n)->0);
        }
        if sync::graph_of(st.rv, c) is Some {
            data::law_rewriting_touches_references_alone(sync::graph_of(st.rv, c)->0, f);
        }
    }
    assert(data::alike_but_refs(g, g));
}

/// A copy is named by where it stands beneath what was copied: the rest of the name stays,
/// behind the new beginning in place of the old.
pub proof fn law_copies_keep_the_rest_of_their_name(
    rest: Seq<Seq<char>>,
    old: Seq<Seq<char>>,
    new: Seq<Seq<char>>,
)
    ensures
        sync::renamed_of(old + rest, old, new) == new + rest,
{
    assert((old + rest).skip(old.len() as int) =~= rest);
}

} // verus!
