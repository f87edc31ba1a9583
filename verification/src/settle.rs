//! References settle: those among nested graphs in one pass, and all others that make no
//! circle in as many passes as there are names.
//!
//! A resync goes through the names the deepest first. Where graphs refer to graphs that
//! are nested deeper only, every graph comes behind those that it refers to.

use crate::commit::{CommitAddr, Timestamp};
use crate::data::{self, GraphView, NamedView, NodeView};
use crate::fork;
use crate::graph::GraphAddr;
use crate::identity;
use crate::name::Name;
use crate::order;
use crate::sync::{self, Current, DataView, SyncState};
use crate::table;
use crate::walk;
use vstd::prelude::*;

verus! {

/// Whether the references of a graph that follow their name are to names nested deeper
/// than `depth`.
pub open spec fn refers_below(g: GraphView<NodeView>, depth: nat) -> bool {
    forall|i: int|
        0 <= i < g.nodes.len() && (#[trigger] g.nodes[i]) is Some && g.nodes[i]->0.named is Some
            && g.nodes[i]->0.named->0.sync ==> g.nodes[i]->0.named->0.name.len() > depth
}

/// Whether every named graph refers, as far as its references follow their name, to
/// graphs nested deeper than itself.
pub open spec fn nested(rv: DataView) -> bool {
    forall|n: Seq<Seq<char>>| #[trigger]
        sync::current_of(rv).contains_key(n) ==> match sync::graph_of(
            rv,
            sync::current_of(rv)[n].0,
        ) {
            Some(g) => refers_below(g, n.len()),
            None => true,
        }
}

/// Whether the graph that a name's references are rewritten to does not meet another
/// under its address.
pub open spec fn no_clash(st: SyncState, name: Seq<Seq<char>>) -> bool {
    let f = sync::following(st.current);
    st.current.contains_key(name) ==> match sync::graph_of(st.rv, st.current[name].0) {
        Some(g) => data::changes(g, f) && st.rv.graphs.contains_key(
            data::data_addr(data::rewritten(g, f)),
        ) ==> st.rv.graphs[data::data_addr(data::rewritten(g, f))] == data::rewritten(g, f),
        None => true,
    }
}

/// Whether no graph that a pass commits meets another under its address.
pub open spec fn no_clashes(st: SyncState, timestamp: Timestamp, names: Seq<Seq<Seq<char>>>) -> bool
    decreases names.len(),
{
    names.len() == 0 || (no_clashes(st, timestamp, names.drop_last()) && no_clash(
        sync::resync_pass(st, timestamp, names.drop_last()).0,
        names.last(),
    ))
}

/// The graph that a listed name is at.
spec fn at(st: SyncState, name: Seq<Seq<char>>) -> Option<GraphView<NodeView>> {
    sync::graph_of(st.rv, st.current[name].0)
}

/// Whether all names are distinct, the deepest first.
spec fn by_depth(names: Seq<Seq<Seq<char>>>) -> bool {
    &&& names.no_duplicates()
    &&& forall|i: int, j: int|
        0 <= i < j < names.len() ==> (#[trigger] names[i]).len() >= (#[trigger] names[j]).len()
}

/// What holds when the first `k` names were gone through: they are at their references,
/// and nothing that comes later is referred to from them.
spec fn through(st: SyncState, names: Seq<Seq<Seq<char>>>, k: int) -> bool {
    &&& forall|i: int|
        0 <= i < k && st.current.contains_key(#[trigger] names[i]) ==> match at(st, names[i]) {
            Some(g) => !data::changes(g, sync::following(st.current)) && refers_below(
                g,
                names[k - 1].len(),
            ),
            None => true,
        }
    &&& forall|i: int|
        k <= i < names.len() && st.current.contains_key(#[trigger] names[i]) ==> match at(
            st,
            names[i],
        ) {
            Some(g) => refers_below(g, names[i].len()),
            None => true,
        }
}

/// References below a depth are not affected by where a name at that depth goes.
proof fn lemma_unaffected(
    g: GraphView<NodeView>,
    c: Current,
    name: Seq<Seq<char>>,
    to: (CommitAddr, GraphAddr),
)
    requires
        refers_below(g, name.len()),
        !data::changes(g, sync::following(c)),
    ensures
        !data::changes(g, sync::following(c.insert(name, to))),
{
    let d = c.insert(name, to);
    if data::changes(g, sync::following(d)) {
        let i = choose|i: int|
            0 <= i < g.nodes.len() && #[trigger] g.nodes[i] is Some && data::node_changes(
                g.nodes[i]->0,
                sync::following(d),
            );
        let r = g.nodes[i]->0.named->0;
        assert(r.name != name);
        assert(data::node_changes(g.nodes[i]->0, sync::following(c)));
        assert(data::changes(g, sync::following(c)));
    }
}

/// Once rewritten, a graph is at its references, and refers no higher than before.
proof fn lemma_rewritten_quiet(
    g: GraphView<NodeView>,
    c: Current,
    name: Seq<Seq<char>>,
    to: (CommitAddr, GraphAddr),
)
    requires
        refers_below(g, name.len()),
    ensures
        refers_below(data::rewritten(g, sync::following(c)), name.len()),
        !data::changes(
            data::rewritten(g, sync::following(c)),
            sync::following(c.insert(name, to)),
        ),
{
    let f = sync::following(c);
    let h = data::rewritten(g, f);
    let d = c.insert(name, to);
    assert forall|i: int|
        0 <= i < h.nodes.len() && (#[trigger] h.nodes[i]) is Some && h.nodes[i]->0.named is Some
            && h.nodes[i]->0.named->0.sync implies h.nodes[i]->0.named->0.name.len() > name.len() by {
        assert(g.nodes[i] is Some);
        assert(h.nodes[i]->0 == data::rewritten_node(g.nodes[i]->0, f));
    }
    if data::changes(h, sync::following(d)) {
        let i = choose|i: int|
            0 <= i < h.nodes.len() && #[trigger] h.nodes[i] is Some && data::node_changes(
                h.nodes[i]->0,
                sync::following(d),
            );
        assert(g.nodes[i] is Some);
        assert(h.nodes[i]->0 == data::rewritten_node(g.nodes[i]->0, f));
        let r = g.nodes[i]->0.named->0;
        let s = h.nodes[i]->0.named->0;
        assert(s.name == r.name && s.sync == r.sync);
        assert(r.name != name);
        assert(d.contains_key(r.name) == c.contains_key(r.name));
        assert(d[r.name] == c[r.name]);
    }
}

proof fn lemma_through_one(
    st: SyncState,
    timestamp: Timestamp,
    names: Seq<Seq<Seq<char>>>,
    k: int,
)
    requires
        by_depth(names),
        0 <= k < names.len(),
        through(st, names, k),
        no_clash(st, names[k]),
    ensures
        through(sync::resync_one(st, timestamp, names[k]).0, names, k + 1),
{
    let x = names[k];
    let (next, changed) = sync::resync_one(st, timestamp, x);
    let f = sync::following(st.current);
    if changed {
        let g = at(st, x)->0;
        let h = data::rewritten(g, f);
        let a = data::data_addr(h);
        let c = st.rv.next_addr(timestamp, a, x);
        let to = (c, a);
        assert(next.rv.commits[c].graph == a);
        assert(next.current == st.current.insert(x, to));
        lemma_rewritten_quiet(g, st.current, x, to);
        assert(next.rv.graphs.contains_key(a) && next.rv.graphs[a] == h);
        assert(at(next, x) == Some(h));
        assert forall|i: int|
            0 <= i < names.len() && i != k && next.current.contains_key(#[trigger] names[i])
            implies st.current.contains_key(names[i]) && (at(next, names[i]) == at(st, names[i])
            || at(next, names[i]) == Some(h)) by {
            assert(names[i] != x);
            let ci = st.current[names[i]].0;
            assert(next.current[names[i]].0 == ci);
        }
        assert forall|i: int| 0 <= i < k + 1 && next.current.contains_key(#[trigger] names[i]) implies match at(
            next,
            names[i],
        ) {
            Some(e) => !data::changes(e, sync::following(next.current)) && refers_below(
                e,
                names[k].len(),
            ),
            None => true,
        } by {
            if i < k && at(next, names[i]) == at(st, names[i]) {
                if let Some(e) = at(st, names[i]) {
                    assert(names[k - 1].len() >= names[k].len());
                    assert(refers_below(e, x.len()));
                    lemma_unaffected(e, st.current, x, to);
                }
            }
        }
        assert forall|i: int|
            k + 1 <= i < names.len() && next.current.contains_key(#[trigger] names[i]) implies match at(
            next,
            names[i],
        ) {
            Some(e) => refers_below(e, names[i].len()),
            None => true,
        } by {
            assert(names[k].len() >= names[i].len());
        }
    } else {
        assert(next == st);
        assert forall|i: int| 0 <= i < k + 1 && st.current.contains_key(#[trigger] names[i]) implies match at(
            st,
            names[i],
        ) {
            Some(e) => !data::changes(e, f) && refers_below(e, names[k].len()),
            None => true,
        } by {
            if i < k {
                assert(names[k - 1].len() >= names[k].len());
            }
        }
    }
}

proof fn lemma_through(
    st: SyncState,
    timestamp: Timestamp,
    names: Seq<Seq<Seq<char>>>,
    k: int,
)
    requires
        by_depth(names),
        0 <= k <= names.len(),
        through(st, names, 0),
        no_clashes(st, timestamp, names.take(k)),
    ensures
        through(sync::resync_pass(st, timestamp, names.take(k)).0, names, k),
    decreases k,
{
    if k > 0 {
        assert(names.take(k).drop_last() =~= names.take(k - 1));
        assert(names.take(k).last() == names[k - 1]);
        lemma_through(st, timestamp, names, k - 1);
        lemma_through_one(
            sync::resync_pass(st, timestamp, names.take(k - 1)).0,
            timestamp,
            names,
            k - 1,
        );
    }
}

proof fn lemma_by_depth(rv: DataView)
    requires
        sync::heads_map(rv).dom().finite(),
    ensures
        by_depth(sync::resync_order(rv)),
{
    let keys = sync::head_names(rv);
    let names = sync::resync_order(rv);
    let lt = sync::deeper();
    sync::lemma_head_names_distinct(rv);
    order::lemma_sorted_multiset(keys, lt);
    assert(order::strict_weak(lt));
    order::lemma_sorted_sorted(keys, lt);
    keys.lemma_multiset_has_no_duplicates();
    names.lemma_multiset_has_no_duplicates_conv();
    assert forall|i: int, j: int| 0 <= i < j < names.len() implies (#[trigger] names[i]).len() >= (
    #[trigger] names[j]).len() by {
        assert(!lt(names[j], names[i]));
    }
}

/// Where graphs refer to graphs nested deeper than themselves only, every reference that
/// follows its name is at it after the first pass, and a resync ends there.
pub proof fn law_nested_references_settle(rv: DataView, timestamp: Timestamp)
    requires
        sync::heads_map(rv).dom().finite(),
        nested(rv),
        no_clashes(sync::resync_start(rv), timestamp, sync::resync_order(rv)),
    ensures
        sync::settled(sync::resynced(rv, timestamp), sync::resync_order(rv)),
        sync::resynced(rv, timestamp) == sync::resync_pass(
            sync::resync_start(rv),
            timestamp,
            sync::resync_order(rv),
        ).0,
{
    let st = sync::resync_start(rv);
    let names = sync::resync_order(rv);
    lemma_by_depth(rv);
    assert(through(st, names, 0)) by {
        assert forall|i: int|
            0 <= i < names.len() && st.current.contains_key(#[trigger] names[i]) implies match at(
            st,
            names[i],
        ) {
            Some(g) => refers_below(g, names[i].len()),
            None => true,
        } by {}
    }
    assert(names.take(names.len() as int) =~= names);
    lemma_through(st, timestamp, names, names.len() as int);
    let (next, changed) = sync::resync_pass(st, timestamp, names);
    assert(sync::settled(next, names)) by {
        assert forall|i: int|
            0 <= i < names.len() && next.current.contains_key(#[trigger] names[i]) implies match sync::graph_of(
            next.rv,
            next.current[names[i]].0,
        ) {
            Some(g) => !data::changes(g, sync::following(next.current)),
            None => true,
        } by {
            assert(at(next, names[i]) == sync::graph_of(next.rv, next.current[names[i]].0));
        }
    }
    sync::lemma_quiet_pass(st, timestamp, names);
    sync::lemma_quiet_pass(next, timestamp, names);
    if changed {
        assert(names.len() > 0);
    }
    reveal_with_fuel(sync::resync_passes, 3);
}

/// Whether the graph that a name's references are rewritten to meets none with other
/// references at its address, and its commit none of another graph that a name is at.
pub open spec fn one_unmet(st: SyncState, timestamp: Timestamp, name: Seq<Seq<char>>) -> bool {
    let f = sync::following(st.current);
    st.current.contains_key(name) ==> match sync::graph_of(st.rv, st.current[name].0) {
        Some(g) => data::changes(g, f) ==> {
            let a = data::data_addr(data::rewritten(g, f));
            let c = st.rv.next_addr(timestamp, a, name);
            &&& fork::unmet(st.rv, data::rewritten(g, f))
            &&& forall|n: Seq<Seq<char>>| #[trigger]
                st.current.contains_key(n) && st.current[n].0 == c ==> st.rv.commits[c].graph == a
        },
        None => true,
    }
}

/// Whether nothing that a pass stores meets another at its address.
pub open spec fn pass_unmet(st: SyncState, timestamp: Timestamp, names: Seq<Seq<Seq<char>>>) -> bool
    decreases names.len(),
{
    names.len() == 0 || (pass_unmet(st, timestamp, names.drop_last()) && one_unmet(
        sync::resync_pass(st, timestamp, names.drop_last()).0,
        timestamp,
        names.last(),
    ))
}

/// Whether nothing that `n` passes store meets another at its address.
pub open spec fn passes_unmet(
    st: SyncState,
    timestamp: Timestamp,
    names: Seq<Seq<Seq<char>>>,
    n: nat,
) -> bool
    decreases n,
{
    n == 0 || (pass_unmet(st, timestamp, names) && (sync::resync_pass(st, timestamp, names).1
        ==> passes_unmet(
        sync::resync_pass(st, timestamp, names).0,
        timestamp,
        names,
        (n - 1) as nat,
    )))
}

/// Whether the references of a graph that follow a name in `current` go to ranks lower
/// than `bound`.
pub open spec fn ranks_below(
    g: GraphView<NodeView>,
    current: Current,
    rank: spec_fn(Seq<Seq<char>>) -> nat,
    bound: nat,
) -> bool {
    forall|r: NamedView| #[trigger]
        sync::refers(g, r) && r.sync && current.contains_key(r.name) ==> rank(r.name) < bound
}

/// Whether every head has its graph, and the references among the heads that follow
/// their name only go to lower ranks, so that they make no circle.
pub open spec fn ranked(rv: DataView, rank: spec_fn(Seq<Seq<char>>) -> nat) -> bool {
    forall|n: Seq<Seq<char>>| #[trigger]
        rv.head(n) is Some ==> fork::has_graph(rv, n) && ranks_below(
            sync::graph_of(rv, rv.head(n)->0)->0,
            sync::current_of(rv),
            rank,
            rank(n),
        )
}

/// How many of the names have a rank lower than `bound`.
spec fn lower(
    names: Seq<Seq<Seq<char>>>,
    rank: spec_fn(Seq<Seq<char>>) -> nat,
    bound: nat,
) -> nat
    decreases names.len(),
{
    if names.len() == 0 {
        0
    } else {
        lower(names.drop_last(), rank, bound) + if rank(names.last()) < bound {
            1nat
        } else {
            0nat
        }
    }
}

proof fn lemma_lower(
    names: Seq<Seq<Seq<char>>>,
    rank: spec_fn(Seq<Seq<char>>) -> nat,
    a: nat,
    b: nat,
)
    requires
        a <= b,
    ensures
        lower(names, rank, a) <= lower(names, rank, b) <= names.len(),
        forall|m: Seq<Seq<char>>| #[trigger]
            names.contains(m) && rank(m) < b && !(rank(m) < a) ==> lower(names, rank, a) < lower(
                names,
                rank,
                b,
            ),
        forall|m: Seq<Seq<char>>| #[trigger]
            names.contains(m) && !(rank(m) < b) ==> lower(names, rank, b) < names.len(),
    decreases names.len(),
{
    if names.len() > 0 {
        let init = names.drop_last();
        lemma_lower(init, rank, a, b);
        assert forall|m: Seq<Seq<char>>| #[trigger] names.contains(m) implies m == names.last()
            || init.contains(m) by {
            let i = choose|i: int| 0 <= i < names.len() && names[i] == m;
            if i < init.len() {
                assert(init[i] == m);
            }
        }
    }
}

/// The graph that a name is at.
spec fn graph_at(st: SyncState, n: Seq<Seq<char>>) -> GraphView<NodeView> {
    sync::graph_of(st.rv, st.current[n].0)->0
}

/// Whether the references of a name's graph that follow their name are at it.
spec fn quiet(st: SyncState, n: Seq<Seq<char>>) -> bool {
    !data::changes(graph_at(st, n), sync::following(st.current))
}

/// What every step of a resync keeps.
spec fn kept(
    st: SyncState,
    names: Seq<Seq<Seq<char>>>,
    level: spec_fn(Seq<Seq<char>>) -> nat,
) -> bool {
    &&& st.current == sync::current_of(st.rv)
    &&& forall|n: Seq<Seq<char>>| #[trigger] st.rv.head(n) is Some <==> names.contains(n)
    &&& forall|n: Seq<Seq<char>>| #[trigger]
        names.contains(n) ==> st.current.contains_key(n) && sync::graph_of(
            st.rv,
            st.current[n].0,
        ) is Some && ranks_below(graph_at(st, n), st.current, level, level(n))
}

/// Whether the names below a level are settled.
spec fn settled_below(
    st: SyncState,
    names: Seq<Seq<Seq<char>>>,
    level: spec_fn(Seq<Seq<char>>) -> nat,
    bound: nat,
) -> bool {
    forall|n: Seq<Seq<char>>| #[trigger] names.contains(n) && level(n) < bound ==> quiet(st, n)
}

proof fn lemma_step_kept(
    st: SyncState,
    timestamp: Timestamp,
    names: Seq<Seq<Seq<char>>>,
    level: spec_fn(Seq<Seq<char>>) -> nat,
    x: Seq<Seq<char>>,
)
    requires
        kept(st, names, level),
        names.contains(x),
        one_unmet(st, timestamp, x),
    ensures
        ({
            let next = sync::resync_one(st, timestamp, x).0;
            &&& kept(next, names, level)
            &&& quiet(next, x)
            &&& !quiet(st, x) ==> forall|n: Seq<Seq<char>>| #[trigger]
                names.contains(n) && level(n) <= level(x) && quiet(st, n) ==> quiet(next, n)
            &&& quiet(st, x) ==> next == st
        }),
{
    let next = sync::resync_one(st, timestamp, x).0;
    let f = sync::following(st.current);
    assert(st.current.contains_key(x));
    let g = graph_at(st, x);
    if !quiet(st, x) {
        let h = data::rewritten(g, f);
        let a = data::data_addr(h);
        let c = st.rv.next_addr(timestamp, a, x);
        let commit = st.rv.next_commit(timestamp, a, x);
        assert(next.rv == st.rv.with_graph_on(timestamp, a, h, x));
        assert(next.rv.commits[c].graph == a);
        assert(next.current == st.current.insert(x, (c, a)));
        assert forall|n: Seq<Seq<char>>| next.rv.head(n) == (if n == x {
            Some(c)
        } else {
            #[trigger] st.rv.head(n)
        }) by {
            sync::lemma_with_graph_on(st.rv, timestamp, a, h, x, n);
        }
        assert forall|n: Seq<Seq<char>>| #[trigger] next.rv.head(n) is Some <==> names.contains(n) by {
            assert(st.rv.head(n) is Some <==> names.contains(n));
        }
        assert forall|n: Seq<Seq<char>>|
            next.current.contains_key(n) == sync::current_of(next.rv).contains_key(n) && (
            next.current.contains_key(n) ==> next.current[n] == sync::current_of(next.rv)[n]) by {
            assert(st.rv.head(n) is Some <==> names.contains(n));
            assert(next.rv.head(n) is Some <==> names.contains(n));
            if names.contains(n) {
                assert(st.current.contains_key(n));
                assert(sync::current_of(st.rv).contains_key(n));
                assert(st.rv.commits.contains_key(st.rv.head(n)->0));
            }
        }
        assert(next.current =~= sync::current_of(next.rv));
        assert(sync::graph_of(next.rv, c) is Some);
        let stored = graph_at(next, x);
        fork::lemma_committed(st.rv, timestamp, h, x, c);
        assert(fork::same_refs(stored, h));
        assert forall|n: Seq<Seq<char>>| #[trigger] names.contains(n) && n != x implies sync::graph_of(
            next.rv,
            next.current[n].0,
        ) == sync::graph_of(st.rv, st.current[n].0) by {
            assert(st.current.contains_key(n));
            assert(sync::graph_of(st.rv, st.current[n].0) is Some);
        }
        // The references of the stored graph are those of the graph, at their names.
        assert forall|s: NamedView| #[trigger] sync::refers(stored, s) implies (exists|
            r: NamedView,
        | #[trigger]
            sync::refers(g, r) && r.name == s.name && r.sync == s.sync && (s.sync
                && st.current.contains_key(s.name) ==> s.graph == st.current[s.name].1)) by {
            assert(sync::refers(h, s));
            fork::lemma_rewritten_refs(g, f, s);
            let r = choose|r: NamedView| #[trigger]
                sync::refers(g, r) && s == (match f(r) {
                    Some(t) => t,
                    None => r,
                });
            assert(sync::refers(g, r));
        }
        assert(ranks_below(g, st.current, level, level(x)));
        assert(ranks_below(stored, next.current, level, level(x))) by {
            assert forall|s: NamedView| #[trigger]
                sync::refers(stored, s) && s.sync && next.current.contains_key(s.name) implies level(
                s.name,
            ) < level(x) by {
                let r = choose|r: NamedView| #[trigger]
                    sync::refers(g, r) && r.name == s.name && r.sync == s.sync && (s.sync
                        && st.current.contains_key(s.name) ==> s.graph == st.current[s.name].1);
                assert(st.current.contains_key(r.name));
            }
        }
        assert(quiet(next, x)) by {
            let f2 = sync::following(next.current);
            fork::lemma_changes_refs(stored, f2);
            assert forall|s: NamedView| #[trigger] sync::refers(stored, s) implies f2(s) is None by {
                let r = choose|r: NamedView| #[trigger]
                    sync::refers(g, r) && r.name == s.name && r.sync == s.sync && (s.sync
                        && st.current.contains_key(s.name) ==> s.graph == st.current[s.name].1);
                if s.sync && next.current.contains_key(s.name) {
                    assert(level(s.name) < level(x));
                    assert(s.name != x);
                }
            }
        }
        assert forall|n: Seq<Seq<char>>| #[trigger] names.contains(n) implies next.current.contains_key(
            n,
        ) && sync::graph_of(next.rv, next.current[n].0) is Some && ranks_below(
            graph_at(next, n),
            next.current,
            level,
            level(n),
        ) by {
            if n != x {
                assert(graph_at(next, n) == graph_at(st, n));
                assert(ranks_below(graph_at(st, n), st.current, level, level(n)));
                assert forall|r: NamedView| #[trigger]
                    sync::refers(graph_at(next, n), r) && r.sync && next.current.contains_key(
                        r.name,
                    ) implies level(r.name) < level(n) by {
                    assert(st.current.contains_key(r.name));
                }
            }
        }
        assert forall|n: Seq<Seq<char>>| #[trigger]
            names.contains(n) && level(n) <= level(x) && quiet(st, n) implies quiet(next, n) by {
            if n != x {
                let e = graph_at(st, n);
                assert(graph_at(next, n) == e);
                let f2 = sync::following(next.current);
                fork::lemma_changes_refs(e, f);
                fork::lemma_changes_refs(e, f2);
                assert(ranks_below(e, st.current, level, level(n)));
                assert forall|r: NamedView| #[trigger] sync::refers(e, r) implies f2(r) is None by {
                    assert(f(r) is None);
                    if r.sync && next.current.contains_key(r.name) {
                        assert(st.current.contains_key(r.name));
                        assert(level(r.name) < level(n));
                        assert(r.name != x);
                    }
                }
            }
        }
    }
}

proof fn lemma_pass_kept(
    st: SyncState,
    timestamp: Timestamp,
    names: Seq<Seq<Seq<char>>>,
    level: spec_fn(Seq<Seq<char>>) -> nat,
    bound: nat,
    j: int,
)
    requires
        kept(st, names, level),
        settled_below(st, names, level, bound),
        0 <= j <= names.len(),
        pass_unmet(st, timestamp, names.take(j)),
    ensures
        ({
            let next = sync::resync_pass(st, timestamp, names.take(j)).0;
            &&& kept(next, names, level)
            &&& settled_below(next, names, level, bound)
            &&& forall|i: int|
                0 <= i < j && level(#[trigger] names[i]) == bound ==> quiet(next, names[i])
        }),
    decreases j,
{
    if j > 0 {
        assert(names.take(j).drop_last() =~= names.take(j - 1));
        assert(names.take(j).last() == names[j - 1]);
        lemma_pass_kept(st, timestamp, names, level, bound, j - 1);
        let mid = sync::resync_pass(st, timestamp, names.take(j - 1)).0;
        let x = names[j - 1];
        assert(names.contains(x));
        lemma_step_kept(mid, timestamp, names, level, x);
        let next = sync::resync_one(mid, timestamp, x).0;
        assert forall|n: Seq<Seq<char>>| #[trigger]
            names.contains(n) && level(n) < bound implies quiet(next, n) by {
            assert(quiet(mid, n));
            if !quiet(mid, x) {
                assert(!(level(x) < bound));
            }
        }
        assert forall|i: int| 0 <= i < j && level(#[trigger] names[i]) == bound implies quiet(
            next,
            names[i],
        ) by {
            assert(names.contains(names[i]));
            if i < j - 1 {
                assert(quiet(mid, names[i]));
                if !quiet(mid, x) {
                    assert(!(level(x) < bound));
                }
            }
        }
    }
}

proof fn lemma_passes_settle(
    st: SyncState,
    timestamp: Timestamp,
    names: Seq<Seq<Seq<char>>>,
    level: spec_fn(Seq<Seq<char>>) -> nat,
    bound: nat,
    n: nat,
)
    requires
        kept(st, names, level),
        settled_below(st, names, level, bound),
        forall|m: Seq<Seq<char>>| #[trigger] names.contains(m) ==> level(m) < names.len(),
        bound + n >= names.len(),
        passes_unmet(st, timestamp, names, n),
    ensures
        kept(sync::resync_passes(st, timestamp, names, n), names, level),
        sync::settled(sync::resync_passes(st, timestamp, names, n), names),
    decreases n,
{
    if n == 0 {
        assert forall|i: int|
            0 <= i < names.len() && st.current.contains_key(#[trigger] names[i]) implies match sync::graph_of(
            st.rv,
            st.current[names[i]].0,
        ) {
            Some(g) => !data::changes(g, sync::following(st.current)),
            None => true,
        } by {
            assert(names.contains(names[i]));
            assert(quiet(st, names[i]));
        }
    } else {
        assert(names.take(names.len() as int) =~= names);
        lemma_pass_kept(st, timestamp, names, level, bound, names.len() as int);
        let (next, changed) = sync::resync_pass(st, timestamp, names);
        sync::lemma_quiet_pass(st, timestamp, names);
        if changed {
            assert forall|m: Seq<Seq<char>>| #[trigger]
                names.contains(m) && level(m) < bound + 1 implies quiet(next, m) by {
                let i = choose|i: int| 0 <= i < names.len() && names[i] == m;
                assert(level(names[i]) == level(m));
            }
            lemma_passes_settle(next, timestamp, names, level, bound + 1, (n - 1) as nat);
        }
    }
}

proof fn lemma_ranked_settle(
    rv: DataView,
    timestamp: Timestamp,
    later: Timestamp,
    rank: spec_fn(Seq<Seq<char>>) -> nat,
)
    requires
        sync::heads_map(rv).dom().finite(),
        ranked(rv, rank),
        passes_unmet(
            sync::resync_start(rv),
            timestamp,
            sync::resync_order(rv),
            sync::resync_order(rv).len() + 1,
        ),
    ensures
        sync::settled(sync::resynced(rv, timestamp), sync::resync_order(rv)),
        ({
            let after = sync::resynced(rv, timestamp).rv;
            &&& forall|n: Seq<Seq<char>>| #[trigger]
                after.head(n) is Some ==> fork::has_graph(after, n)
            &&& sync::heads_map(after).dom().finite()
            &&& sync::settled(sync::resync_start(after), sync::resync_order(after))
            &&& sync::resynced(after, later).rv == after
            &&& sync::resynced(after, later).moves.len() == 0
        }),
{
    let st = sync::resync_start(rv);
    let names = sync::resync_order(rv);
    let keys = sync::head_names(rv);
    let level = |n: Seq<Seq<char>>| lower(names, rank, rank(n));
    table::lemma_keys_of::<Name, CommitAddr>(sync::heads_map(rv));
    order::lemma_sorted_multiset(keys, sync::deeper());
    assert forall|n: Seq<Seq<char>>| #[trigger] st.rv.head(n) is Some <==> names.contains(n) by {
        if rv.head(n) is Some {
            assert(sync::heads_map(rv).contains_key(n));
            assert(keys.contains(n));
            let i = choose|i: int| 0 <= i < keys.len() && keys[i] == n;
            sync::lemma_sorted_from(names, keys, i);
        }
        if names.contains(n) {
            let i = choose|i: int| 0 <= i < names.len() && names[i] == n;
            sync::lemma_sorted_from(keys, names, i);
            assert(sync::heads_map(rv).contains_key(n));
        }
    }
    assert forall|n: Seq<Seq<char>>| #[trigger] names.contains(n) implies level(n) < names.len() by {
        lemma_lower(names, rank, rank(n), rank(n));
    }
    assert forall|n: Seq<Seq<char>>| #[trigger] names.contains(n) implies st.current.contains_key(n)
        && sync::graph_of(st.rv, st.current[n].0) is Some && ranks_below(
        graph_at(st, n),
        st.current,
        level,
        level(n),
    ) by {
        assert(rv.head(n) is Some);
        let g = sync::graph_of(rv, rv.head(n)->0)->0;
        assert(ranks_below(g, sync::current_of(rv), rank, rank(n)));
        assert forall|r: NamedView| #[trigger]
            sync::refers(g, r) && r.sync && st.current.contains_key(r.name) implies level(r.name)
            < level(n) by {
            assert(rv.head(r.name) is Some);
            assert(names.contains(r.name));
            lemma_lower(names, rank, rank(r.name), rank(n));
        }
    }
    lemma_passes_settle(st, timestamp, names, level, 0, names.len() + 1);
    let end = sync::resynced(rv, timestamp);
    let after = end.rv;
    assert(sync::head_names(after) == keys) by {
        assert forall|n: Seq<Seq<char>>| #[trigger]
            sync::heads_map(after).contains_key(n) <==> keys.contains(n) by {
            assert(after.head(n) is Some <==> names.contains(n));
            assert(rv.head(n) is Some <==> names.contains(n));
            if keys.contains(n) {
                assert(sync::heads_map(rv).contains_key(n));
            }
            if rv.head(n) is Some {
                assert(sync::heads_map(rv).contains_key(n));
            }
        }
        table::lemma_keys::<Name, CommitAddr>(keys, sync::heads_map(after));
    }
    assert forall|n: Seq<Seq<char>>| #[trigger] after.head(n) is Some implies fork::has_graph(
        after,
        n,
    ) by {
        assert(names.contains(n));
        assert(end.current.contains_key(n));
    }
    assert(sync::heads_map(after).dom() =~= sync::heads_map(rv).dom()) by {
        assert forall|n: Seq<Seq<char>>| sync::heads_map(after).dom().contains(n)
            == sync::heads_map(rv).dom().contains(n) by {
            assert(after.head(n) is Some <==> names.contains(n));
            assert(rv.head(n) is Some <==> names.contains(n));
        }
    }
    assert(sync::resync_start(after).current == end.current);
    assert(sync::settled(sync::resync_start(after), names));
    sync::law_resync_of_settled_moves_nothing(after, later);
}

/// The references among heads that follow their name.
pub open spec fn follows(rv: DataView) -> spec_fn(Seq<Seq<char>>, Seq<Seq<char>>) -> bool {
    |n: Seq<Seq<char>>, m: Seq<Seq<char>>|
        fork::has_graph(rv, n) && rv.head(m) is Some && exists|r: NamedView| #[trigger]
            sync::refers(sync::graph_of(rv, rv.head(n)->0)->0, r) && r.sync && r.name == m
}

/// Whether the references among heads that follow their name make no circle.
pub open spec fn acyclic(rv: DataView) -> bool {
    forall|n: Seq<Seq<char>>, m: Seq<Seq<char>>| #[trigger]
        follows(rv)(n, m) ==> !walk::reaches(follows(rv), m, n)
}

/// Whether every reference of a head's graph that follows its name is at the graph that
/// the name is at.
pub open spec fn up_to_date(rv: DataView) -> bool {
    forall|n: Seq<Seq<char>>, r: NamedView|
        fork::has_graph(rv, n) && #[trigger] sync::refers(
            sync::graph_of(rv, rv.head(n)->0)->0,
            r,
        ) && r.sync && fork::has_graph(rv, r.name) ==> rv.commits[rv.head(r.name)->0].graph
            == r.graph
}

/// The heads that are reached from one.
spec fn reached(rv: DataView, n: Seq<Seq<char>>) -> Set<Seq<Seq<char>>> {
    sync::heads_map(rv).dom().filter(|m: Seq<Seq<char>>| walk::reaches(follows(rv), n, m))
}

/// Where references make no circle, fewer heads are reached from what a head refers to.
proof fn lemma_acyclic_ranked(rv: DataView)
    requires
        sync::heads_map(rv).dom().finite(),
        acyclic(rv),
        forall|n: Seq<Seq<char>>| #[trigger] rv.head(n) is Some ==> fork::has_graph(rv, n),
    ensures
        ranked(rv, |n: Seq<Seq<char>>| reached(rv, n).len()),
{
    let rank = |n: Seq<Seq<char>>| reached(rv, n).len();
    let step = follows(rv);
    let heads = sync::heads_map(rv).dom();
    assert forall|n: Seq<Seq<char>>| #[trigger] rv.head(n) is Some implies fork::has_graph(rv, n)
        && ranks_below(
        sync::graph_of(rv, rv.head(n)->0)->0,
        sync::current_of(rv),
        rank,
        rank(n),
    ) by {
        let g = sync::graph_of(rv, rv.head(n)->0)->0;
        assert forall|r: NamedView| #[trigger]
            sync::refers(g, r) && r.sync && sync::current_of(rv).contains_key(r.name) implies rank(
            r.name,
        ) < rank(n) by {
            let m = r.name;
            assert(rv.head(m) is Some);
            assert(step(n, m));
            let (a, b) = (reached(rv, m), reached(rv, n));
            vstd::set_lib::lemma_len_subset(a, heads);
            vstd::set_lib::lemma_len_subset(b, heads);
            walk::lemma_reaches_self(step, n);
            walk::lemma_reaches_step(step, n, n, m);
            assert(heads.contains(n));
            assert(b.contains(n) && !a.contains(n));
            assert forall|k: Seq<Seq<char>>| #[trigger] a.contains(k) implies b.remove(n).contains(
                k,
            ) by {
                walk::lemma_reaches_trans(step, n, m, k);
            }
            vstd::set_lib::lemma_len_subset(a, b.remove(n));
        }
    }
}

/// A resync brings references up to date: where the references among heads that follow
/// their name make no circle, every one of them is at the graph that its name is at, a
/// name that is not reported is where it was, and another resync reports and changes
/// nothing. That holds where every head has its graph, and nothing that the resync stores
/// meets something else at its address.
pub proof fn law_acyclic_references_settle(
    rv: DataView,
    timestamp: Timestamp,
    later: Timestamp,
)
    requires
        sync::heads_map(rv).dom().finite(),
        forall|n: Seq<Seq<char>>| #[trigger] rv.head(n) is Some ==> fork::has_graph(rv, n),
        acyclic(rv),
        passes_unmet(
            sync::resync_start(rv),
            timestamp,
            sync::resync_order(rv),
            sync::resync_order(rv).len() + 1,
        ),
    ensures
        sync::settled(sync::resynced(rv, timestamp), sync::resync_order(rv)),
        ({
            let after = sync::resynced(rv, timestamp).rv;
            let moves = sync::resynced(rv, timestamp).moves;
            &&& up_to_date(after)
            &&& forall|n: Seq<Seq<char>>|
                (forall|i: int| 0 <= i < moves.len() ==> (#[trigger] moves[i]).name != n)
                    ==> #[trigger] after.head(n) == rv.head(n)
            &&& sync::resynced(after, later).rv == after
            &&& sync::resynced(after, later).moves.len() == 0
        }),
{
    let rank = |n: Seq<Seq<char>>| reached(rv, n).len();
    lemma_acyclic_ranked(rv);
    lemma_ranked_settle(rv, timestamp, later, rank);
    sync::law_resync_reports_what_moves(rv, timestamp);
    let after = sync::resynced(rv, timestamp).rv;
    let names = sync::resync_order(after);
    let st = sync::resync_start(after);
    let f = sync::following(st.current);
    let keys = sync::head_names(after);
    table::lemma_keys_of::<Name, CommitAddr>(sync::heads_map(after));
    order::lemma_sorted_multiset(keys, sync::deeper());
    assert forall|n: Seq<Seq<char>>, r: NamedView|
        fork::has_graph(after, n) && #[trigger] sync::refers(
            sync::graph_of(after, after.head(n)->0)->0,
            r,
        ) && r.sync && fork::has_graph(after, r.name) implies after.commits[after.head(
        r.name,
    )->0].graph == r.graph by {
        let g = sync::graph_of(after, after.head(n)->0)->0;
        assert(sync::heads_map(after).contains_key(n));
        assert(keys.contains(n));
        let i = choose|i: int| 0 <= i < keys.len() && keys[i] == n;
        sync::lemma_sorted_from(names, keys, i);
        let j = choose|j: int| 0 <= j < names.len() && names[j] == n;
        assert(st.current.contains_key(names[j]));
        assert(!data::changes(g, f));
        fork::lemma_changes_refs(g, f);
        assert(f(r) is None);
    }
}

/// Whether `p` holds of the bytes of what bringing one name's references up to date
/// commits.
pub open spec fn one_hashed(
    st: SyncState,
    timestamp: Timestamp,
    name: Seq<Seq<char>>,
    p: spec_fn(Seq<u8>) -> bool,
) -> bool {
    let f = sync::following(st.current);
    st.current.contains_key(name) ==> match sync::graph_of(st.rv, st.current[name].0) {
        Some(g) => data::changes(g, f) ==> identity::commit_hashed(
            st.rv,
            timestamp,
            data::rewritten(g, f),
            name,
            p,
        ),
        None => true,
    }
}

/// Whether `p` holds of the bytes of all that a pass commits.
pub open spec fn pass_hashed(
    st: SyncState,
    timestamp: Timestamp,
    names: Seq<Seq<Seq<char>>>,
    p: spec_fn(Seq<u8>) -> bool,
) -> bool
    decreases names.len(),
{
    names.len() == 0 || (pass_hashed(st, timestamp, names.drop_last(), p) && one_hashed(
        sync::resync_pass(st, timestamp, names.drop_last()).0,
        timestamp,
        names.last(),
        p,
    ))
}

/// Whether `p` holds of the bytes of all that `n` passes commit.
pub open spec fn passes_hashed(
    st: SyncState,
    timestamp: Timestamp,
    names: Seq<Seq<Seq<char>>>,
    n: nat,
    p: spec_fn(Seq<u8>) -> bool,
) -> bool
    decreases n,
{
    n == 0 || (pass_hashed(st, timestamp, names, p) && (sync::resync_pass(st, timestamp, names).1
        ==> passes_hashed(
        sync::resync_pass(st, timestamp, names).0,
        timestamp,
        names,
        (n - 1) as nat,
        p,
    )))
}

/// What a resync keeps of content addressing.
spec fn in_place(st: SyncState, p: spec_fn(Seq<u8>) -> bool) -> bool {
    &&& identity::addressed(st.rv, p)
    &&& forall|n: Seq<Seq<char>>| #[trigger]
        st.current.contains_key(n) ==> st.rv.commits.contains_key(st.current[n].0)
}

proof fn lemma_one_in_place(
    st: SyncState,
    timestamp: Timestamp,
    name: Seq<Seq<char>>,
    p: spec_fn(Seq<u8>) -> bool,
)
    requires
        identity::told_apart(p),
        in_place(st, p),
        one_hashed(st, timestamp, name, p),
    ensures
        one_unmet(st, timestamp, name),
        in_place(sync::resync_one(st, timestamp, name).0, p),
{
    let (next, changed) = sync::resync_one(st, timestamp, name);
    if changed {
        let f = sync::following(st.current);
        let g = sync::graph_of(st.rv, st.current[name].0)->0;
        let h = data::rewritten(g, f);
        identity::lemma_rewritten_fits(g, f);
        identity::lemma_commit_addressed(st.rv, timestamp, h, name, p);
        assert(next.rv == st.rv.with_graph_on(timestamp, data::data_addr(h), h, name));
    }
}

proof fn lemma_pass_in_place(
    st: SyncState,
    timestamp: Timestamp,
    names: Seq<Seq<Seq<char>>>,
    p: spec_fn(Seq<u8>) -> bool,
)
    requires
        identity::told_apart(p),
        in_place(st, p),
        pass_hashed(st, timestamp, names, p),
    ensures
        pass_unmet(st, timestamp, names),
        in_place(sync::resync_pass(st, timestamp, names).0, p),
    decreases names.len(),
{
    if names.len() > 0 {
        lemma_pass_in_place(st, timestamp, names.drop_last(), p);
        let mid = sync::resync_pass(st, timestamp, names.drop_last()).0;
        lemma_one_in_place(mid, timestamp, names.last(), p);
    }
}

proof fn lemma_passes_in_place(
    st: SyncState,
    timestamp: Timestamp,
    names: Seq<Seq<Seq<char>>>,
    n: nat,
    p: spec_fn(Seq<u8>) -> bool,
)
    requires
        identity::told_apart(p),
        in_place(st, p),
        passes_hashed(st, timestamp, names, n, p),
    ensures
        passes_unmet(st, timestamp, names, n),
    decreases n,
{
    if n > 0 {
        lemma_pass_in_place(st, timestamp, names, p);
        let (next, changed) = sync::resync_pass(st, timestamp, names);
        if changed {
            lemma_passes_in_place(next, timestamp, names, (n - 1) as nat, p);
        }
    }
}

/// In a registry whose content lies under its address, a resync stores nothing that meets
/// something else, as far as the hash tells apart the bytes of what is there and of what
/// the resync commits.
pub proof fn law_content_addressed_resync_meets_nothing(
    rv: DataView,
    timestamp: Timestamp,
    p: spec_fn(Seq<u8>) -> bool,
)
    requires
        identity::told_apart(p),
        identity::addressed(rv, p),
        passes_hashed(
            sync::resync_start(rv),
            timestamp,
            sync::resync_order(rv),
            sync::resync_order(rv).len() + 1,
            p,
        ),
    ensures
        passes_unmet(
            sync::resync_start(rv),
            timestamp,
            sync::resync_order(rv),
            sync::resync_order(rv).len() + 1,
        ),
{
    lemma_passes_in_place(
        sync::resync_start(rv),
        timestamp,
        sync::resync_order(rv),
        sync::resync_order(rv).len() + 1,
        p,
    );
}

/// A resync of a registry whose content lies under its address brings references up to
/// date, where those among heads that follow their name make no circle and every head has
/// its graph, as far as the hash tells apart the bytes of what is there and of what the
/// resync commits.
pub proof fn law_content_addressed_references_settle(
    rv: DataView,
    timestamp: Timestamp,
    later: Timestamp,
    p: spec_fn(Seq<u8>) -> bool,
)
    requires
        sync::heads_map(rv).dom().finite(),
        forall|n: Seq<Seq<char>>| #[trigger] rv.head(n) is Some ==> fork::has_graph(rv, n),
        acyclic(rv),
        identity::told_apart(p),
        identity::addressed(rv, p),
        passes_hashed(
            sync::resync_start(rv),
            timestamp,
            sync::resync_order(rv),
            sync::resync_order(rv).len() + 1,
            p,
        ),
    ensures
        ({
            let after = sync::resynced(rv, timestamp).rv;
            let moves = sync::resynced(rv, timestamp).moves;
            &&& up_to_date(after)
            &&& forall|n: Seq<Seq<char>>|
                (forall|i: int| 0 <= i < moves.len() ==> (#[trigger] moves[i]).name != n)
                    ==> #[trigger] after.head(n) == rv.head(n)
            &&& sync::resynced(after, later).rv == after
            &&& sync::resynced(after, later).moves.len() == 0
        }),
{
    law_content_addressed_resync_meets_nothing(rv, timestamp, p);
    law_acyclic_references_settle(rv, timestamp, later);
}

} // verus!
