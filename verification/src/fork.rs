//! What a fork is promised: nested graphs of its own, and references that go to them.

use crate::commit::{CommitAddr, Timestamp};
use crate::data::{self, GraphView, NamedView, NodeView};
use crate::graph::GraphAddr;
use crate::name::Name;
use crate::order;
use crate::sync::{self, DataView, ForkState, Remap};
use crate::table;
use vstd::prelude::*;

verus! {

/// Whether two graphs have the same named references.
pub open spec fn same_refs(g: GraphView<NodeView>, h: GraphView<NodeView>) -> bool {
    forall|r: NamedView| #[trigger] sync::refers(g, r) <==> sync::refers(h, r)
}

/// Whether no other graph stands at the address of `h`: what is there has the same
/// references.
pub open spec fn unmet(rv: DataView, h: GraphView<NodeView>) -> bool {
    rv.graphs.contains_key(data::data_addr(h)) ==> same_refs(rv.graphs[data::data_addr(h)], h)
}

/// Whether the graph that is committed when the references of the graph at `c` are
/// rewritten meets no other at its address.
pub open spec fn rewrite_unmet(
    rv: DataView,
    c: Option<CommitAddr>,
    f: spec_fn(NamedView) -> Option<NamedView>,
) -> bool {
    match c {
        Some(c) => match sync::graph_of(rv, c) {
            Some(g) => unmet(rv, data::rewritten(g, f)),
            None => true,
        },
        None => true,
    }
}

/// Whether the next copy of a fork meets no other graph at its address.
pub open spec fn copy_unmet(st: ForkState) -> bool {
    rewrite_unmet(
        st.rv,
        st.rv.head(st.left[sync::next_copied(st.rv, st.left, 0) as int]),
        sync::to_copy(st.remap),
    )
}

/// Whether no graph that a fork commits meets another at its address.
pub open spec fn fork_unmet(
    rv: DataView,
    timestamp: Timestamp,
    old: Seq<Seq<char>>,
    new: Seq<Seq<char>>,
) -> bool {
    let st = sync::fork_copied(rv, timestamp, old, new);
    &&& forall|k: nat|
        k < sync::fork_order(rv, old).len() ==> copy_unmet(
            #[trigger] sync::fork_all(sync::fork_start(rv, old, new), timestamp, old, new, k),
        )
    &&& rewrite_unmet(st.rv, st.rv.head(new), sync::to_copy(st.remap))
}

/// Whether neither of two names is at or under the other.
pub open spec fn apart(a: Seq<Seq<char>>, b: Seq<Seq<char>>) -> bool {
    !a.is_prefix_of(b) && !b.is_prefix_of(a)
}

/// Whether `n` is nested under `of`.
pub open spec fn beneath(n: Seq<Seq<char>>, of: Seq<Seq<char>>) -> bool {
    of.is_prefix_of(n) && n != of
}

/// Whether a head is there with its graph.
pub open spec fn has_graph(rv: DataView, n: Seq<Seq<char>>) -> bool {
    rv.head(n) is Some && sync::graph_of(rv, rv.head(n)->0) is Some
}

/// After a commit, a commit's graph is what it was, or has the references of the graph
/// that was committed.
pub proof fn lemma_committed(
    rv: DataView,
    timestamp: Timestamp,
    h: GraphView<NodeView>,
    name: Seq<Seq<char>>,
    c: CommitAddr,
)
    requires
        unmet(rv, h),
    ensures
        ({
            let a = data::data_addr(h);
            let after = rv.with_graph_on(timestamp, a, h, name);
            let g = sync::graph_of(after, c);
            &&& g == sync::graph_of(rv, c) || (g is Some && same_refs(g->0, h))
            &&& c == rv.next_addr(timestamp, a, name) ==> g is Some && same_refs(g->0, h)
        }),
{
}

/// A rewritten graph has the references that those of the graph become.
pub proof fn lemma_rewritten_refs(
    g: GraphView<NodeView>,
    f: spec_fn(NamedView) -> Option<NamedView>,
    s: NamedView,
)
    ensures
        sync::refers(data::rewritten(g, f), s) <==> exists|r: NamedView| #[trigger]
            sync::refers(g, r) && s == (match f(r) {
                Some(t) => t,
                None => r,
            }),
{
    let h = data::rewritten(g, f);
    if sync::refers(h, s) {
        let i = choose|i: int|
            0 <= i < h.nodes.len() && (#[trigger] h.nodes[i]) is Some && h.nodes[i]->0.named
                == Some(s);
        assert(g.nodes[i] is Some);
        assert(h.nodes[i]->0 == data::rewritten_node(g.nodes[i]->0, f));
        let r = g.nodes[i]->0.named->0;
        assert(sync::refers(g, r));
    }
    if exists|r: NamedView| #[trigger]
        sync::refers(g, r) && s == (match f(r) {
            Some(t) => t,
            None => r,
        }) {
        let r = choose|r: NamedView| #[trigger]
            sync::refers(g, r) && s == (match f(r) {
                Some(t) => t,
                None => r,
            });
        let i = choose|i: int|
            0 <= i < g.nodes.len() && (#[trigger] g.nodes[i]) is Some && g.nodes[i]->0.named
                == Some(r);
        assert(h.nodes[i] is Some);
        assert(h.nodes[i]->0 == data::rewritten_node(g.nodes[i]->0, f));
        assert(h.nodes[i]->0.named == Some(s));
    }
}

/// Rewriting changes a graph just where it changes one of its references.
pub proof fn lemma_changes_refs(g: GraphView<NodeView>, f: spec_fn(NamedView) -> Option<NamedView>)
    ensures
        data::changes(g, f) <==> exists|r: NamedView| #[trigger] sync::refers(g, r) && f(r) is Some,
{
    if data::changes(g, f) {
        let i = choose|i: int|
            0 <= i < g.nodes.len() && #[trigger] g.nodes[i] is Some && data::node_changes(
                g.nodes[i]->0,
                f,
            );
        assert(sync::refers(g, g.nodes[i]->0.named->0));
    }
    if exists|r: NamedView| #[trigger] sync::refers(g, r) && f(r) is Some {
        let r = choose|r: NamedView| #[trigger] sync::refers(g, r) && f(r) is Some;
        let i = choose|i: int|
            0 <= i < g.nodes.len() && (#[trigger] g.nodes[i]) is Some && g.nodes[i]->0.named
                == Some(r);
        assert(data::node_changes(g.nodes[i]->0, f));
    }
}

/// What is under one of two names that are apart is not under the other.
pub proof fn lemma_apart(a: Seq<Seq<char>>, b: Seq<Seq<char>>, n: Seq<Seq<char>>)
    requires
        apart(a, b),
        a.is_prefix_of(n),
    ensures
        !b.is_prefix_of(n),
{
    if b.is_prefix_of(n) {
        if a.len() <= b.len() {
            assert(a =~= b.subrange(0, a.len() as int)) by {
                assert forall|i: int| 0 <= i < a.len() implies a[i] == b[i] by {
                    assert(a[i] == n[i] && b[i] == n[i]);
                }
            }
        } else {
            assert(b =~= a.subrange(0, b.len() as int)) by {
                assert forall|i: int| 0 <= i < b.len() implies a[i] == b[i] by {
                    assert(a[i] == n[i] && b[i] == n[i]);
                }
            }
        }
    }
}

/// A fork copies just the graphs nested under `old`.
pub proof fn lemma_order(rv: DataView, old: Seq<Seq<char>>)
    requires
        sync::heads_map(rv).dom().finite(),
    ensures
        forall|d: Seq<Seq<char>>| #[trigger]
            sync::fork_order(rv, old).contains(d) <==> beneath(d, old) && has_graph(rv, d),
{
    let names = sync::head_names(rv);
    let ds = sync::descendants(names, old);
    let sorted = sync::deepest_first(ds);
    table::lemma_keys_of::<Name, CommitAddr>(sync::heads_map(rv));
    sync::lemma_descendants(names, old);
    order::lemma_sorted_multiset(ds, sync::deeper());
    sync::lemma_with_graph(rv, sorted);
    assert forall|d: Seq<Seq<char>>| #[trigger]
        sync::fork_order(rv, old).contains(d) <==> beneath(d, old) && has_graph(rv, d) by {
        if sorted.contains(d) {
            let i = choose|i: int| 0 <= i < sorted.len() && sorted[i] == d;
            sync::lemma_sorted_from(ds, sorted, i);
            assert(ds.contains(d));
        }
        if ds.contains(d) {
            let i = choose|i: int| 0 <= i < ds.len() && ds[i] == d;
            sync::lemma_sorted_from(sorted, ds, i);
        }
        if has_graph(rv, d) {
            assert(sync::heads_map(rv).contains_key(d));
            assert(names.contains(d));
        }
    }
}

/// Whether a graph has no reference to one of the listed names.
spec fn clear(g: GraphView<NodeView>, names: Seq<Seq<Seq<char>>>) -> bool {
    forall|r: NamedView| #[trigger] sync::refers(g, r) ==> !names.contains(r.name)
}

/// Whether the listed names, which are nested under `old`, are given their new names.
spec fn renames(
    remap: Remap,
    names: Seq<Seq<Seq<char>>>,
    old: Seq<Seq<char>>,
    new: Seq<Seq<char>>,
) -> bool {
    &&& forall|d: Seq<Seq<char>>| #[trigger] remap.contains_key(d) <==> names.contains(d)
    &&& forall|d: Seq<Seq<char>>| #[trigger]
        remap.contains_key(d) ==> remap[d].0 == sync::renamed_of(d, old, new) && beneath(d, old)
}

/// What is nested under the original is renamed to a name nested under the fork.
pub proof fn lemma_renamed_under(d: Seq<Seq<char>>, old: Seq<Seq<char>>, new: Seq<Seq<char>>)
    requires
        beneath(d, old),
    ensures
        beneath(sync::renamed_of(d, old, new), new),
{
    let n = sync::renamed_of(d, old, new);
    assert(new =~= n.subrange(0, new.len() as int));
    if d.len() == old.len() {
        assert(d =~= old);
    }
}

proof fn lemma_rewritten_clear(
    g: GraphView<NodeView>,
    remap: Remap,
    names: Seq<Seq<Seq<char>>>,
    old: Seq<Seq<char>>,
    new: Seq<Seq<char>>,
)
    requires
        apart(old, new),
        renames(remap, names, old, new),
    ensures
        clear(data::rewritten(g, sync::to_copy(remap)), names),
        !data::changes(g, sync::to_copy(remap)) ==> clear(g, names),
{
    let f = sync::to_copy(remap);
    let h = data::rewritten(g, f);
    assert forall|s: NamedView| #[trigger] sync::refers(h, s) implies !names.contains(s.name) by {
        lemma_rewritten_refs(g, f, s);
        let r = choose|r: NamedView| #[trigger]
            sync::refers(g, r) && s == (match f(r) {
                Some(t) => t,
                None => r,
            });
        if remap.contains_key(r.name) {
            lemma_renamed_under(r.name, old, new);
            if names.contains(s.name) {
                assert(remap.contains_key(s.name));
                lemma_apart(old, new, s.name);
            }
        }
    }
    lemma_changes_refs(g, f);
    if !data::changes(g, f) {
        assert forall|r: NamedView| #[trigger] sync::refers(g, r) implies !names.contains(r.name) by {
            if names.contains(r.name) {
                assert(remap.contains_key(r.name));
                assert(f(r) is Some);
            }
        }
    }
}

/// What holds while descendants are copied: what stands under `new` refers to nothing
/// that is copied.
spec fn copies_clear(
    st: ForkState,
    names: Seq<Seq<Seq<char>>>,
    old: Seq<Seq<char>>,
    new: Seq<Seq<char>>,
) -> bool {
    &&& renames(st.remap, names, old, new)
    &&& forall|d: Seq<Seq<char>>| #[trigger] st.left.contains(d) ==> names.contains(d)
    &&& forall|n: Seq<Seq<char>>|
        beneath(n, new) && has_graph(st.rv, n) ==> clear(
            (#[trigger] sync::graph_of(st.rv, st.rv.head(n)->0))->0,
            names,
        )
}

proof fn lemma_commit_clear(
    rv: DataView,
    timestamp: Timestamp,
    h: GraphView<NodeView>,
    name: Seq<Seq<char>>,
    names: Seq<Seq<Seq<char>>>,
    new: Seq<Seq<char>>,
)
    requires
        unmet(rv, h),
        clear(h, names),
        forall|n: Seq<Seq<char>>|
            beneath(n, new) && has_graph(rv, n) ==> clear(
                (#[trigger] sync::graph_of(rv, rv.head(n)->0))->0,
                names,
            ),
    ensures
        ({
            let after = rv.with_graph_on(timestamp, data::data_addr(h), h, name);
            forall|n: Seq<Seq<char>>|
                (beneath(n, new) || n == name) && has_graph(after, n) ==> clear(
                    (#[trigger] sync::graph_of(after, after.head(n)->0))->0,
                    names,
                )
        }),
{
    let after = rv.with_graph_on(timestamp, data::data_addr(h), h, name);
    assert forall|n: Seq<Seq<char>>|
        (beneath(n, new) || n == name) && has_graph(after, n) implies clear(
        (#[trigger] sync::graph_of(after, after.head(n)->0))->0,
        names,
    ) by {
        sync::lemma_with_graph_on(rv, timestamp, data::data_addr(h), h, name, n);
        let c = after.head(n)->0;
        lemma_committed(rv, timestamp, h, name, c);
        let g = sync::graph_of(after, c)->0;
        if same_refs(g, h) {
            assert forall|r: NamedView| #[trigger] sync::refers(g, r) implies !names.contains(
                r.name,
            ) by {
                assert(sync::refers(h, r));
            }
        } else {
            assert(n != name);
            assert(sync::graph_of(rv, rv.head(n)->0) == Some(g));
        }
    }
}

/// What is left once an element is removed was there before.
pub proof fn lemma_removed<A>(s: Seq<A>, p: int)
    requires
        0 <= p < s.len(),
    ensures
        forall|x: A| #[trigger] s.remove(p).contains(x) ==> s.contains(x),
        s.no_duplicates() ==> s.remove(p).no_duplicates() && forall|x: A| #[trigger]
            s.remove(p).contains(x) <==> s.contains(x) && x != s[p],
{
    let t = s.remove(p);
    assert forall|x: A| #[trigger] t.contains(x) implies s.contains(x) by {
        let i = choose|i: int| 0 <= i < t.len() && t[i] == x;
        if i < p {
            assert(s[i] == x);
        } else {
            assert(s[i + 1] == x);
        }
    }
    if s.no_duplicates() {
        assert forall|x: A| #[trigger] t.contains(x) <==> s.contains(x) && x != s[p] by {
            if t.contains(x) {
                let i = choose|i: int| 0 <= i < t.len() && t[i] == x;
                if i < p {
                    assert(s[i] == x);
                } else {
                    assert(s[i + 1] == x);
                }
            }
            if s.contains(x) && x != s[p] {
                let i = choose|i: int| 0 <= i < s.len() && s[i] == x;
                if i < p {
                    assert(t[i] == x);
                } else {
                    assert(t[i - 1] == x);
                }
            }
        }
    }
}

/// Every copy leaves one name fewer to be copied.
pub proof fn lemma_left(
    st: ForkState,
    timestamp: Timestamp,
    old: Seq<Seq<char>>,
    new: Seq<Seq<char>>,
    k: nat,
)
    requires
        k <= st.left.len(),
    ensures
        sync::fork_all(st, timestamp, old, new, k).left.len() == st.left.len() - k,
    decreases k,
{
    if k > 0 {
        lemma_left(st, timestamp, old, new, (k - 1) as nat);
        let mid = sync::fork_all(st, timestamp, old, new, (k - 1) as nat);
        sync::lemma_next_copied(mid.rv, mid.left, 0);
    }
}

proof fn lemma_copies_clear(
    rv: DataView,
    timestamp: Timestamp,
    old: Seq<Seq<char>>,
    new: Seq<Seq<char>>,
    k: nat,
)
    requires
        sync::heads_map(rv).dom().finite(),
        apart(old, new),
        forall|n: Seq<Seq<char>>| beneath(n, new) ==> (#[trigger] rv.head(n)) is None,
        fork_unmet(rv, timestamp, old, new),
        k <= sync::fork_order(rv, old).len(),
    ensures
        copies_clear(
            sync::fork_all(sync::fork_start(rv, old, new), timestamp, old, new, k),
            sync::fork_order(rv, old),
            old,
            new,
        ),
    decreases k,
{
    let st0 = sync::fork_start(rv, old, new);
    let names = sync::fork_order(rv, old);
    lemma_order(rv, old);
    if k > 0 {
        lemma_copies_clear(rv, timestamp, old, new, (k - 1) as nat);
        lemma_left(st0, timestamp, old, new, (k - 1) as nat);
        let st = sync::fork_all(st0, timestamp, old, new, (k - 1) as nat);
        assert(copy_unmet(st));
        sync::lemma_next_copied(st.rv, st.left, 0);
        let p = sync::next_copied(st.rv, st.left, 0) as int;
        let d = st.left[p];
        assert(st.left.contains(d));
        assert(names.contains(d));
        assert(st.remap.contains_key(d));
        lemma_removed(st.left, p);
        let next = sync::fork_one(st, timestamp, old, new);
        assert(next.left == st.left.remove(p));
        if st.rv.head(d) is Some && sync::graph_of(st.rv, st.rv.head(d)->0) is Some {
            let g = sync::graph_of(st.rv, st.rv.head(d)->0)->0;
            let h = data::rewritten(g, sync::to_copy(st.remap));
            lemma_rewritten_clear(g, st.remap, names, old, new);
            lemma_commit_clear(
                st.rv,
                timestamp,
                h,
                sync::renamed_of(d, old, new),
                names,
                new,
            );
        }
    }
}

/// A fork has nested graphs of its own: neither the forked graph nor any graph nested
/// under it refers to a graph that is nested under the original. That holds where
/// neither name is under the other, nothing was nested under the new one before, and no
/// graph that the fork commits meets another at its address. A name nested under the
/// original whose graph is not there is not copied, and references to it stay.
pub proof fn law_fork_refers_to_its_own(
    rv: DataView,
    timestamp: Timestamp,
    old: Seq<Seq<char>>,
    new: Seq<Seq<char>>,
    n: Seq<Seq<char>>,
    r: NamedView,
)
    requires
        sync::heads_map(rv).dom().finite(),
        apart(old, new),
        forall|m: Seq<Seq<char>>| beneath(m, new) ==> (#[trigger] rv.head(m)) is None,
        fork_unmet(rv, timestamp, old, new),
        new.is_prefix_of(n),
        has_graph(sync::forked(rv, timestamp, old, new).rv, n),
        sync::refers(
            sync::graph_of(
                sync::forked(rv, timestamp, old, new).rv,
                sync::forked(rv, timestamp, old, new).rv.head(n)->0,
            )->0,
            r,
        ),
    ensures
        !(beneath(r.name, old) && has_graph(rv, r.name)),
{
    let names = sync::fork_order(rv, old);
    let st = sync::fork_copied(rv, timestamp, old, new);
    let after = sync::forked(rv, timestamp, old, new).rv;
    lemma_order(rv, old);
    lemma_copies_clear(rv, timestamp, old, new, names.len());
    let g = sync::graph_of(after, after.head(n)->0)->0;
    let f = sync::to_copy(st.remap);
    if st.rv.head(new) is Some && sync::graph_of(st.rv, st.rv.head(new)->0) is Some {
        let root = sync::graph_of(st.rv, st.rv.head(new)->0)->0;
        lemma_rewritten_clear(root, st.remap, names, old, new);
        if data::changes(root, f) {
            lemma_commit_clear(st.rv, timestamp, data::rewritten(root, f), new, names, new);
        }
    }
    assert(clear(g, names));
    assert(!names.contains(r.name));
}

proof fn lemma_fork_all_head(
    st: ForkState,
    timestamp: Timestamp,
    old: Seq<Seq<char>>,
    new: Seq<Seq<char>>,
    k: nat,
    n: Seq<Seq<char>>,
)
    requires
        !new.is_prefix_of(n),
    ensures
        sync::fork_all(st, timestamp, old, new, k).rv.head(n) == st.rv.head(n),
    decreases k,
{
    if k > 0 {
        lemma_fork_all_head(st, timestamp, old, new, (k - 1) as nat, n);
        let mid = sync::fork_all(st, timestamp, old, new, (k - 1) as nat);
        let d = mid.left[sync::next_copied(mid.rv, mid.left, 0) as int];
        let dn = sync::renamed_of(d, old, new);
        assert(new =~= dn.subrange(0, new.len() as int));
        if mid.rv.head(d) is Some && sync::graph_of(mid.rv, mid.rv.head(d)->0) is Some {
            let g = sync::graph_of(mid.rv, mid.rv.head(d)->0)->0;
            let h = data::rewritten(g, sync::to_copy(mid.remap));
            sync::lemma_with_graph_on(mid.rv, timestamp, data::data_addr(h), h, dn, n);
        }
    }
}

/// A fork leaves everything outside of it where it was: only names at or under the new
/// one move.
pub proof fn law_fork_leaves_the_original(
    rv: DataView,
    timestamp: Timestamp,
    old: Seq<Seq<char>>,
    new: Seq<Seq<char>>,
    n: Seq<Seq<char>>,
)
    requires
        !new.is_prefix_of(n),
    ensures
        sync::forked(rv, timestamp, old, new).rv.head(n) == rv.head(n),
{
    let k = sync::fork_order(rv, old).len();
    lemma_fork_all_head(sync::fork_start(rv, old, new), timestamp, old, new, k, n);
    let st = sync::fork_copied(rv, timestamp, old, new);
    if st.rv.head(new) is Some {
        let c = st.rv.head(new)->0;
        let f = sync::to_copy(st.remap);
        if sync::graph_of(st.rv, c) is Some && data::changes(sync::graph_of(st.rv, c)->0, f) {
            let h = data::rewritten(sync::graph_of(st.rv, c)->0, f);
            sync::lemma_with_graph_on(st.rv, timestamp, data::data_addr(h), h, new, n);
        }
    }
}

proof fn lemma_distinct_under(names: Seq<Seq<Seq<char>>>, of: Seq<Seq<char>>)
    requires
        names.no_duplicates(),
    ensures
        sync::descendants(names, of).no_duplicates(),
    decreases names.len(),
{
    if names.len() > 0 {
        let init = names.drop_last();
        lemma_distinct_under(init, of);
        sync::lemma_descendants(init, of);
        let ds = sync::descendants(init, of);
        if ds.contains(names.last()) {
            assert(init.contains(names.last()));
            let j = choose|j: int| 0 <= j < init.len() && init[j] == names.last();
            assert(names[j] == names[names.len() - 1]);
        }
        assert forall|i: int| 0 <= i < ds.len() implies ds[i] != names.last() by {
            assert(ds.contains(ds[i]));
        }
    }
}

proof fn lemma_distinct_held(rv: DataView, names: Seq<Seq<Seq<char>>>)
    requires
        names.no_duplicates(),
    ensures
        sync::with_graph(rv, names).no_duplicates(),
    decreases names.len(),
{
    if names.len() > 0 {
        let init = names.drop_last();
        lemma_distinct_held(rv, init);
        sync::lemma_with_graph(rv, init);
        let ds = sync::with_graph(rv, init);
        if ds.contains(names.last()) {
            assert(init.contains(names.last()));
            let j = choose|j: int| 0 <= j < init.len() && init[j] == names.last();
            assert(names[j] == names[names.len() - 1]);
        }
        assert forall|i: int| 0 <= i < ds.len() implies ds[i] != names.last() by {
            assert(ds.contains(ds[i]));
        }
    }
}

/// A fork copies no graph twice.
pub proof fn lemma_order_distinct(rv: DataView, old: Seq<Seq<char>>)
    requires
        sync::heads_map(rv).dom().finite(),
    ensures
        sync::fork_order(rv, old).no_duplicates(),
{
    let names = sync::head_names(rv);
    let ds = sync::descendants(names, old);
    let sorted = sync::deepest_first(ds);
    sync::lemma_head_names_distinct(rv);
    lemma_distinct_under(names, old);
    order::lemma_sorted_multiset(ds, sync::deeper());
    ds.lemma_multiset_has_no_duplicates();
    sorted.lemma_multiset_has_no_duplicates_conv();
    lemma_distinct_held(rv, sorted);
}

/// Whether a descendant was copied.
spec fn done(st: ForkState, names: Seq<Seq<Seq<char>>>, d: Seq<Seq<char>>) -> bool {
    names.contains(d) && !st.left.contains(d)
}

/// What the moves say while descendants are copied: each is of a copy, none is of the
/// same copy as another, and each copy has one.
spec fn reported(
    st: ForkState,
    rv: DataView,
    names: Seq<Seq<Seq<char>>>,
    old: Seq<Seq<char>>,
    new: Seq<Seq<char>>,
) -> bool {
    &&& st.left.no_duplicates()
    &&& forall|d: Seq<Seq<char>>| #[trigger] st.left.contains(d) ==> names.contains(d)
    &&& forall|d: Seq<Seq<char>>| #[trigger] names.contains(d) ==> has_graph(st.rv, d)
    &&& forall|i: int|
        0 <= i < st.moves.len() ==> beneath((#[trigger] st.moves[i]).name, new) && st.rv.head(
            st.moves[i].name,
        ) == Some(st.moves[i].new_commit) && exists|d: Seq<Seq<char>>| #[trigger]
            done(st, names, d) && st.moves[i].name == sync::renamed_of(d, old, new)
                && rv.head(d) == Some(st.moves[i].old_commit)
    &&& forall|i: int, j: int|
        0 <= i < j < st.moves.len() ==> (#[trigger] st.moves[i]).name != (#[trigger] st.moves[j]).name
    &&& forall|d: Seq<Seq<char>>| #[trigger]
        done(st, names, d) ==> exists|i: int|
            0 <= i < st.moves.len() && (#[trigger] st.moves[i]).name == sync::renamed_of(
                d,
                old,
                new,
            )
    &&& forall|n: Seq<Seq<char>>|
        beneath(n, new) && (#[trigger] st.rv.head(n)) is Some ==> exists|i: int|
            0 <= i < st.moves.len() && (#[trigger] st.moves[i]).name == n
}

/// Different names are renamed to different names.
pub proof fn lemma_renamed_apart(
    a: Seq<Seq<char>>,
    b: Seq<Seq<char>>,
    old: Seq<Seq<char>>,
    new: Seq<Seq<char>>,
)
    requires
        beneath(a, old),
        beneath(b, old),
        sync::renamed_of(a, old, new) == sync::renamed_of(b, old, new),
    ensures
        a == b,
{
    let x = sync::renamed_of(a, old, new);
    let y = sync::renamed_of(b, old, new);
    assert(x.len() == new.len() + a.len() - old.len());
    assert(y.len() == new.len() + b.len() - old.len());
    assert forall|i: int| 0 <= i < a.len() implies a[i] == b[i] by {
        if i < old.len() {
            assert(a[i] == old[i] && b[i] == old[i]);
        } else {
            assert(x[new.len() + i - old.len()] == a[i]);
            assert(y[new.len() + i - old.len()] == b[i]);
        }
    }
    assert(a =~= b);
}

proof fn lemma_keeps_graph(
    rv: DataView,
    timestamp: Timestamp,
    h: GraphView<NodeView>,
    name: Seq<Seq<char>>,
    n: Seq<Seq<char>>,
)
    requires
        has_graph(rv, n),
        n != name,
    ensures
        has_graph(rv.with_graph_on(timestamp, data::data_addr(h), h, name), n),
{
    sync::lemma_with_graph_on(rv, timestamp, data::data_addr(h), h, name, n);
}

proof fn lemma_reported(
    rv: DataView,
    timestamp: Timestamp,
    old: Seq<Seq<char>>,
    new: Seq<Seq<char>>,
    k: nat,
)
    requires
        sync::heads_map(rv).dom().finite(),
        apart(old, new),
        forall|n: Seq<Seq<char>>| beneath(n, new) ==> (#[trigger] rv.head(n)) is None,
        k <= sync::fork_order(rv, old).len(),
    ensures
        reported(
            sync::fork_all(sync::fork_start(rv, old, new), timestamp, old, new, k),
            rv,
            sync::fork_order(rv, old),
            old,
            new,
        ),
    decreases k,
{
    let st0 = sync::fork_start(rv, old, new);
    let names = sync::fork_order(rv, old);
    lemma_order(rv, old);
    lemma_order_distinct(rv, old);
    if k > 0 {
        lemma_reported(rv, timestamp, old, new, (k - 1) as nat);
        lemma_left(st0, timestamp, old, new, (k - 1) as nat);
        let st = sync::fork_all(st0, timestamp, old, new, (k - 1) as nat);
        sync::lemma_next_copied(st.rv, st.left, 0);
        let p = sync::next_copied(st.rv, st.left, 0) as int;
        let d = st.left[p];
        assert(st.left.contains(d));
        assert(names.contains(d));
        lemma_removed(st.left, p);
        let next = sync::fork_one(st, timestamp, old, new);
        assert(next.left == st.left.remove(p));
        assert(has_graph(st.rv, d));
        let g = sync::graph_of(st.rv, st.rv.head(d)->0)->0;
        let h = data::rewritten(g, sync::to_copy(st.remap));
        let n = sync::renamed_of(d, old, new);
        lemma_renamed_under(d, old, new);
        lemma_apart(old, new, d);
        lemma_fork_all_head(st0, timestamp, old, new, (k - 1) as nat, d);
        assert(next.moves == st.moves.push(next.moves.last()));
        assert(done(next, names, d));
        assert forall|e: Seq<Seq<char>>| #[trigger] names.contains(e) implies has_graph(
            next.rv,
            e,
        ) by {
            lemma_apart(old, new, e);
            lemma_keeps_graph(st.rv, timestamp, h, n, e);
        }
        assert forall|i: int| 0 <= i < st.moves.len() implies (#[trigger] st.moves[i]).name != n by {
            let e = choose|e: Seq<Seq<char>>| #[trigger]
                done(st, names, e) && st.moves[i].name == sync::renamed_of(e, old, new)
                    && rv.head(e) == Some(st.moves[i].old_commit);
            if st.moves[i].name == n {
                lemma_renamed_apart(e, d, old, new);
            }
        }
        assert forall|i: int| 0 <= i < next.moves.len() implies beneath(
            (#[trigger] next.moves[i]).name,
            new,
        ) && next.rv.head(next.moves[i].name) == Some(next.moves[i].new_commit) && exists|
            e: Seq<Seq<char>>,
        | #[trigger]
            done(next, names, e) && next.moves[i].name == sync::renamed_of(e, old, new) && rv.head(
                e,
            ) == Some(next.moves[i].old_commit) by {
            sync::lemma_with_graph_on(
                st.rv,
                timestamp,
                data::data_addr(h),
                h,
                n,
                next.moves[i].name,
            );
            if i < st.moves.len() {
                assert(next.moves[i] == st.moves[i]);
                let e = choose|e: Seq<Seq<char>>| #[trigger]
                    done(st, names, e) && st.moves[i].name == sync::renamed_of(e, old, new)
                        && rv.head(e) == Some(st.moves[i].old_commit);
                assert(done(next, names, e));
            } else {
                assert(done(next, names, d));
            }
        }
        assert forall|i: int, j: int| 0 <= i < j < next.moves.len() implies (
        #[trigger] next.moves[i]).name != (#[trigger] next.moves[j]).name by {
            assert(next.moves[i] == st.moves[i]);
            if j < st.moves.len() {
                assert(next.moves[j] == st.moves[j]);
            }
        }
        assert forall|e: Seq<Seq<char>>| #[trigger] done(next, names, e) implies exists|i: int|
            0 <= i < next.moves.len() && (#[trigger] next.moves[i]).name == sync::renamed_of(
                e,
                old,
                new,
            ) by {
            if e == d {
                assert(next.moves[st.moves.len() as int].name == n);
            } else {
                assert(done(st, names, e));
                let i = choose|i: int|
                    0 <= i < st.moves.len() && (#[trigger] st.moves[i]).name == sync::renamed_of(
                        e,
                        old,
                        new,
                    );
                assert(next.moves[i] == st.moves[i]);
            }
        }
        assert forall|m: Seq<Seq<char>>|
            beneath(m, new) && (#[trigger] next.rv.head(m)) is Some implies exists|i: int|
            0 <= i < next.moves.len() && (#[trigger] next.moves[i]).name == m by {
            sync::lemma_with_graph_on(st.rv, timestamp, data::data_addr(h), h, n, m);
            if m == n {
                assert(next.moves[st.moves.len() as int].name == n);
            } else {
                assert(st.rv.head(m) is Some);
                let i = choose|i: int| 0 <= i < st.moves.len() && (#[trigger] st.moves[i]).name == m;
                assert(next.moves[i] == st.moves[i]);
            }
        }
    }
}

proof fn lemma_fork_new_stays(
    rv: DataView,
    timestamp: Timestamp,
    old: Seq<Seq<char>>,
    new: Seq<Seq<char>>,
    k: nat,
)
    requires
        sync::heads_map(rv).dom().finite(),
        k <= sync::fork_order(rv, old).len(),
    ensures
        ({
            let st = sync::fork_all(sync::fork_start(rv, old, new), timestamp, old, new, k);
            &&& st.rv.head(new) == rv.head(new)
            &&& forall|d: Seq<Seq<char>>| #[trigger]
                st.left.contains(d) ==> sync::fork_order(rv, old).contains(d)
        }),
    decreases k,
{
    let st0 = sync::fork_start(rv, old, new);
    lemma_order(rv, old);
    if k > 0 {
        lemma_fork_new_stays(rv, timestamp, old, new, (k - 1) as nat);
        lemma_left(st0, timestamp, old, new, (k - 1) as nat);
        let st = sync::fork_all(st0, timestamp, old, new, (k - 1) as nat);
        sync::lemma_next_copied(st.rv, st.left, 0);
        let p = sync::next_copied(st.rv, st.left, 0) as int;
        let d = st.left[p];
        assert(st.left.contains(d));
        lemma_removed(st.left, p);
        lemma_renamed_under(d, old, new);
        if has_graph(st.rv, d) {
            let g = sync::graph_of(st.rv, st.rv.head(d)->0)->0;
            let h = data::rewritten(g, sync::to_copy(st.remap));
            let n = sync::renamed_of(d, old, new);
            sync::lemma_with_graph_on(st.rv, timestamp, data::data_addr(h), h, n, new);
        }
    }
}

/// A fork copies and reports every nested graph. Each graph nested under the original is
/// there under the new name, every name nested under the new one is reported once, the
/// new name itself is reported at most, and every report gives the commit that its name
/// is at, and the commit that it is a copy of or was at before. That holds where neither name is under the other and nothing was nested under
/// the new one before.
pub proof fn law_fork_copies_and_reports(
    rv: DataView,
    timestamp: Timestamp,
    old: Seq<Seq<char>>,
    new: Seq<Seq<char>>,
)
    requires
        sync::heads_map(rv).dom().finite(),
        apart(old, new),
        forall|n: Seq<Seq<char>>| beneath(n, new) ==> (#[trigger] rv.head(n)) is None,
    ensures
        ({
            let after = sync::forked(rv, timestamp, old, new);
            &&& forall|d: Seq<Seq<char>>|
                beneath(d, old) && has_graph(rv, d) ==> after.rv.head(
                    #[trigger] sync::renamed_of(d, old, new),
                ) is Some
            &&& forall|n: Seq<Seq<char>>|
                beneath(n, new) && (#[trigger] after.rv.head(n)) is Some ==> exists|i: int|
                    0 <= i < after.moves.len() && (#[trigger] after.moves[i]).name == n
            &&& forall|i: int|
                0 <= i < after.moves.len() ==> new.is_prefix_of((#[trigger] after.moves[i]).name)
                    && after.rv.head(after.moves[i].name) == Some(after.moves[i].new_commit) && (
                after.moves[i].name == new && rv.head(new) == Some(after.moves[i].old_commit) || exists|
                    d: Seq<Seq<char>>,
                | #[trigger]
                    has_graph(rv, d) && beneath(d, old) && after.moves[i].name == sync::renamed_of(
                        d,
                        old,
                        new,
                    ) && rv.head(d) == Some(after.moves[i].old_commit))
            &&& forall|i: int, j: int|
                0 <= i < j < after.moves.len() ==> (#[trigger] after.moves[i]).name != (
                #[trigger] after.moves[j]).name
        }),
{
    let names = sync::fork_order(rv, old);
    let st0 = sync::fork_start(rv, old, new);
    let st = sync::fork_copied(rv, timestamp, old, new);
    let after = sync::forked(rv, timestamp, old, new);
    lemma_order(rv, old);
    lemma_reported(rv, timestamp, old, new, names.len());
    lemma_left(st0, timestamp, old, new, names.len());
    assert forall|m: Seq<Seq<char>>| m != new implies (#[trigger] after.rv.head(m)) == st.rv.head(
        m,
    ) by {
        if st.rv.head(new) is Some {
            let c = st.rv.head(new)->0;
            let f = sync::to_copy(st.remap);
            if sync::graph_of(st.rv, c) is Some && data::changes(sync::graph_of(st.rv, c)->0, f) {
                let h = data::rewritten(sync::graph_of(st.rv, c)->0, f);
                sync::lemma_with_graph_on(st.rv, timestamp, data::data_addr(h), h, new, m);
            }
        }
    }
    if after.moves.len() > st.moves.len() {
        let c = st.rv.head(new)->0;
        let h = data::rewritten(sync::graph_of(st.rv, c)->0, sync::to_copy(st.remap));
        sync::lemma_with_graph_on(st.rv, timestamp, data::data_addr(h), h, new, new);
    }
    assert forall|i: int| 0 <= i < st.moves.len() implies #[trigger] after.moves[i] == st.moves[i] by {}
    lemma_fork_new_stays(rv, timestamp, old, new, names.len());
    assert forall|i: int| 0 <= i < after.moves.len() implies (#[trigger] after.moves[i]).name == new
        && rv.head(new) == Some(after.moves[i].old_commit) || exists|d: Seq<Seq<char>>| #[trigger]
        has_graph(rv, d) && beneath(d, old) && after.moves[i].name == sync::renamed_of(d, old, new)
            && rv.head(d) == Some(after.moves[i].old_commit) by {
        if i < st.moves.len() {
            let d = choose|d: Seq<Seq<char>>| #[trigger]
                done(st, names, d) && st.moves[i].name == sync::renamed_of(d, old, new) && rv.head(d)
                    == Some(st.moves[i].old_commit);
            assert(names.contains(d));
            assert(has_graph(rv, d));
        }
    }
    assert forall|d: Seq<Seq<char>>| beneath(d, old) && has_graph(rv, d) implies after.rv.head(
        #[trigger] sync::renamed_of(d, old, new),
    ) is Some by {
        assert(names.contains(d));
        assert(done(st, names, d));
        lemma_renamed_under(d, old, new);
        let i = choose|i: int|
            0 <= i < st.moves.len() && (#[trigger] st.moves[i]).name == sync::renamed_of(
                d,
                old,
                new,
            );
        assert(st.rv.head(st.moves[i].name) is Some);
    }
    assert forall|n: Seq<Seq<char>>| beneath(n, new) && (#[trigger] after.rv.head(n)) is Some implies exists|
        i: int,
    | 0 <= i < after.moves.len() && (#[trigger] after.moves[i]).name == n by {
        assert(st.rv.head(n) is Some);
        let i = choose|i: int| 0 <= i < st.moves.len() && (#[trigger] st.moves[i]).name == n;
        assert(after.moves[i].name == n);
    }
    assert forall|i: int, j: int| 0 <= i < j < after.moves.len() implies (
    #[trigger] after.moves[i]).name != (#[trigger] after.moves[j]).name by {
        assert(after.moves[i] == st.moves[i]);
        if j < st.moves.len() {
            assert(after.moves[j] == st.moves[j]);
        }
    }
}

/// Whether the commit of a graph under a name meets no other at its address.
pub open spec fn commit_unmet(
    rv: DataView,
    timestamp: Timestamp,
    h: GraphView<NodeView>,
    name: Seq<Seq<char>>,
) -> bool {
    let a = data::data_addr(h);
    let c = rv.next_addr(timestamp, a, name);
    rv.commits.contains_key(c) ==> rv.commits[c] == rv.next_commit(timestamp, a, name)
}

/// Whether the commit that is made when the references of the graph at `c` are rewritten
/// meets no other at its address.
pub open spec fn rewrite_commit_unmet(
    rv: DataView,
    timestamp: Timestamp,
    c: Option<CommitAddr>,
    f: spec_fn(NamedView) -> Option<NamedView>,
    name: Seq<Seq<char>>,
) -> bool {
    match c {
        Some(c) => match sync::graph_of(rv, c) {
            Some(g) => commit_unmet(rv, timestamp, data::rewritten(g, f), name),
            None => true,
        },
        None => true,
    }
}

/// Whether the commit of the next copy of a fork meets no other at its address.
pub open spec fn copy_commit_unmet(
    st: ForkState,
    timestamp: Timestamp,
    old: Seq<Seq<char>>,
    new: Seq<Seq<char>>,
) -> bool {
    let d = st.left[sync::next_copied(st.rv, st.left, 0) as int];
    rewrite_commit_unmet(
        st.rv,
        timestamp,
        st.rv.head(d),
        sync::to_copy(st.remap),
        sync::renamed_of(d, old, new),
    )
}

/// Whether no commit that a fork makes meets another at its address.
pub open spec fn fork_commits_unmet(
    rv: DataView,
    timestamp: Timestamp,
    old: Seq<Seq<char>>,
    new: Seq<Seq<char>>,
) -> bool {
    let st = sync::fork_copied(rv, timestamp, old, new);
    &&& forall|k: nat|
        k < sync::fork_order(rv, old).len() ==> copy_commit_unmet(
            #[trigger] sync::fork_all(sync::fork_start(rv, old, new), timestamp, old, new, k),
            timestamp,
            old,
            new,
        )
    &&& rewrite_commit_unmet(st.rv, timestamp, st.rv.head(new), sync::to_copy(st.remap), new)
}

/// Whether the references among the graphs nested under `old` only go to lower ranks, so
/// that they make no circle.
pub open spec fn ranked_under(
    rv: DataView,
    old: Seq<Seq<char>>,
    rank: spec_fn(Seq<Seq<char>>) -> nat,
) -> bool {
    forall|d: Seq<Seq<char>>, r: NamedView|
        beneath(d, old) && has_graph(rv, d) && #[trigger] sync::refers(
            sync::graph_of(rv, rv.head(d)->0)->0,
            r,
        ) && beneath(r.name, old) && has_graph(rv, r.name) ==> rank(r.name) < rank(d)
}

/// Whether neither the graph at `new` nor one nested under `old` refers to a name nested
/// under `new`.
pub open spec fn none_ahead(rv: DataView, old: Seq<Seq<char>>, new: Seq<Seq<char>>) -> bool {
    forall|d: Seq<Seq<char>>, r: NamedView|
        (beneath(d, old) || d == new) && has_graph(rv, d) && #[trigger] sync::refers(
            sync::graph_of(rv, rv.head(d)->0)->0,
            r,
        ) ==> !beneath(r.name, new)
}

/// Where the commit meets no other, what was there stays as it was.
proof fn lemma_committed_exactly(
    rv: DataView,
    timestamp: Timestamp,
    h: GraphView<NodeView>,
    name: Seq<Seq<char>>,
    c: CommitAddr,
)
    requires
        commit_unmet(rv, timestamp, h, name),
    ensures
        ({
            let after = rv.with_graph_on(timestamp, data::data_addr(h), h, name);
            &&& sync::graph_of(rv, c) is Some ==> sync::graph_of(after, c) == sync::graph_of(rv, c)
            &&& rv.commits.contains_key(c) ==> after.commits.contains_key(c) && after.commits[c]
                == rv.commits[c]
        }),
{
}

/// Whether a reference is to a copy, at the graph that the copy is at.
spec fn resolved(
    st: ForkState,
    names: Seq<Seq<Seq<char>>>,
    old: Seq<Seq<char>>,
    new: Seq<Seq<char>>,
    r: NamedView,
) -> bool {
    exists|d: Seq<Seq<char>>| #[trigger]
        done(st, names, d) && r.name == sync::renamed_of(d, old, new) && r.graph == st.remap[d].1
}

/// What holds while descendants that make no circle are copied.
spec fn resolving(
    st: ForkState,
    rv: DataView,
    names: Seq<Seq<Seq<char>>>,
    old: Seq<Seq<char>>,
    new: Seq<Seq<char>>,
) -> bool {
    &&& renames(st.remap, names, old, new)
    &&& st.left.no_duplicates()
    &&& forall|d: Seq<Seq<char>>| #[trigger] st.left.contains(d) ==> names.contains(d)
    // What is outside of the fork, and the graph at `new`, stay.
    &&& forall|n: Seq<Seq<char>>| !beneath(n, new) ==> (#[trigger] st.rv.head(n)) == rv.head(n)
    &&& forall|n: Seq<Seq<char>>|
        !beneath(n, new) && #[trigger] has_graph(rv, n) ==> sync::graph_of(
            st.rv,
            rv.head(n)->0,
        ) == sync::graph_of(rv, rv.head(n)->0)
    // The copies are at their graphs.
    &&& forall|d: Seq<Seq<char>>| #[trigger]
        done(st, names, d) ==> at_copy(st, sync::renamed_of(d, old, new), st.remap[d].1)
    // Everything beneath `new` is a copy, and refers to copies where they are.
    &&& forall|n: Seq<Seq<char>>|
        beneath(n, new) && #[trigger] has_graph(st.rv, n) ==> resolves(st, names, old, new, n)
}

spec fn at_copy(st: ForkState, n: Seq<Seq<char>>, a: GraphAddr) -> bool {
    &&& st.rv.head(n) is Some
    &&& st.rv.commits.contains_key(st.rv.head(n)->0)
    &&& st.rv.commits[st.rv.head(n)->0].graph == a
    &&& sync::graph_of(st.rv, st.rv.head(n)->0) is Some
}

spec fn resolves(
    st: ForkState,
    names: Seq<Seq<Seq<char>>>,
    old: Seq<Seq<char>>,
    new: Seq<Seq<char>>,
    n: Seq<Seq<char>>,
) -> bool {
    forall|r: NamedView| #[trigger]
        sync::refers(sync::graph_of(st.rv, st.rv.head(n)->0)->0, r) && beneath(r.name, new)
            ==> resolved(st, names, old, new, r)
}

/// Where references make no circle, one of the names that are left refers to none.
proof fn lemma_some_ready(
    st: ForkState,
    rv: DataView,
    names: Seq<Seq<Seq<char>>>,
    old: Seq<Seq<char>>,
    new: Seq<Seq<char>>,
    rank: spec_fn(Seq<Seq<char>>) -> nat,
    d: Seq<Seq<char>>,
)
    requires
        apart(old, new),
        resolving(st, rv, names, old, new),
        forall|n: Seq<Seq<char>>| #[trigger]
            names.contains(n) <==> beneath(n, old) && has_graph(rv, n),
        ranked_under(rv, old, rank),
        st.left.contains(d),
    ensures
        exists|i: int| 0 <= i < st.left.len() && sync::ready(st.rv, st.left, #[trigger] st.left[i]),
    decreases rank(d),
{
    let i = choose|i: int| 0 <= i < st.left.len() && st.left[i] == d;
    if !sync::ready(st.rv, st.left, st.left[i]) {
        assert(names.contains(d));
        lemma_apart(old, new, d);
        assert(has_graph(rv, d));
        assert(st.rv.head(d) == rv.head(d));
        let g = sync::graph_of(rv, rv.head(d)->0)->0;
        let r = choose|r: NamedView| #[trigger] sync::refers(g, r) && st.left.contains(r.name);
        assert(names.contains(r.name));
        lemma_some_ready(st, rv, names, old, new, rank, r.name);
    }
}

proof fn lemma_resolving_step(
    st: ForkState,
    rv: DataView,
    timestamp: Timestamp,
    names: Seq<Seq<Seq<char>>>,
    old: Seq<Seq<char>>,
    new: Seq<Seq<char>>,
    rank: spec_fn(Seq<Seq<char>>) -> nat,
)
    requires
        apart(old, new),
        resolving(st, rv, names, old, new),
        forall|n: Seq<Seq<char>>| #[trigger]
            names.contains(n) <==> beneath(n, old) && has_graph(rv, n),
        ranked_under(rv, old, rank),
        none_ahead(rv, old, new),
        st.left.len() > 0,
        copy_unmet(st),
        copy_commit_unmet(st, timestamp, old, new),
    ensures
        resolving(sync::fork_one(st, timestamp, old, new), rv, names, old, new),
{
    sync::lemma_next_copied(st.rv, st.left, 0);
    let p = sync::next_copied(st.rv, st.left, 0) as int;
    let d = st.left[p];
    assert(st.left.contains(d));
    lemma_some_ready(st, rv, names, old, new, rank, d);
    assert(sync::ready(st.rv, st.left, d));
    assert(names.contains(d));
    lemma_apart(old, new, d);
    assert(has_graph(rv, d));
    assert(st.rv.head(d) == rv.head(d));
    let g = sync::graph_of(rv, rv.head(d)->0)->0;
    assert(sync::graph_of(st.rv, st.rv.head(d)->0) == Some(g));
    let f = sync::to_copy(st.remap);
    let h = data::rewritten(g, f);
    let a = data::data_addr(h);
    let n = sync::renamed_of(d, old, new);
    let c = st.rv.next_addr(timestamp, a, n);
    let next = sync::fork_one(st, timestamp, old, new);
    assert(next.rv == st.rv.with_graph_on(timestamp, a, h, n));
    assert(next.left == st.left.remove(p));
    assert(next.remap == st.remap.insert(d, (n, a)));
    lemma_renamed_under(d, old, new);
    lemma_removed(st.left, p);
    assert forall|m: Seq<Seq<char>>| (#[trigger] next.rv.head(m)) == (if m == n {
        Some(c)
    } else {
        st.rv.head(m)
    }) by {
        sync::lemma_with_graph_on(st.rv, timestamp, a, h, n, m);
    }
    assert(renames(next.remap, names, old, new)) by {
        assert(st.remap.contains_key(d));
    }
    assert forall|m: Seq<Seq<char>>| !beneath(m, new) && #[trigger] has_graph(rv, m) implies sync::graph_of(
        next.rv,
        rv.head(m)->0,
    ) == sync::graph_of(rv, rv.head(m)->0) by {
        lemma_committed_exactly(st.rv, timestamp, h, n, rv.head(m)->0);
    }
    assert forall|e: Seq<Seq<char>>| #[trigger] done(next, names, e) implies (e == d || done(
        st,
        names,
        e,
    )) && at_copy(next, sync::renamed_of(e, old, new), next.remap[e].1) by {
        if e == d {
            lemma_committed(st.rv, timestamp, h, n, c);
        } else {
            assert(done(st, names, e));
            assert(at_copy(st, sync::renamed_of(e, old, new), st.remap[e].1));
            assert(names.contains(e));
            if sync::renamed_of(e, old, new) == n {
                lemma_renamed_apart(e, d, old, new);
            }
            lemma_committed_exactly(
                st.rv,
                timestamp,
                h,
                n,
                st.rv.head(sync::renamed_of(e, old, new))->0,
            );
        }
    }
    // What was resolved stays resolved.
    assert forall|r: NamedView| resolved(st, names, old, new, r) implies #[trigger] resolved(
        next,
        names,
        old,
        new,
        r,
    ) by {
        let e = choose|e: Seq<Seq<char>>| #[trigger]
            done(st, names, e) && r.name == sync::renamed_of(e, old, new) && r.graph
                == st.remap[e].1;
        assert(!st.left.contains(e));
        assert(e != d);
        assert(done(next, names, e));
    }
    assert forall|m: Seq<Seq<char>>| beneath(m, new) && #[trigger] has_graph(next.rv, m) implies resolves(
        next,
        names,
        old,
        new,
        m,
    ) by {
        let k = next.rv.head(m)->0;
        let stored = sync::graph_of(next.rv, k)->0;
        lemma_committed(st.rv, timestamp, h, n, k);
        assert forall|s: NamedView| #[trigger] sync::refers(stored, s) && beneath(s.name, new) implies resolved(
            next,
            names,
            old,
            new,
            s,
        ) by {
            if same_refs(stored, h) {
                assert(sync::refers(h, s));
                lemma_rewritten_refs(g, f, s);
                let r = choose|r: NamedView| #[trigger]
                    sync::refers(g, r) && s == (match f(r) {
                        Some(t) => t,
                        None => r,
                    });
                assert(!st.left.contains(r.name));
                if st.remap.contains_key(r.name) {
                    assert(names.contains(r.name));
                    assert(done(st, names, r.name));
                    assert(resolved(st, names, old, new, s));
                } else {
                    assert(s == r);
                    assert(!beneath(r.name, new));
                }
            } else {
                assert(m != n);
                assert(st.rv.head(m) == next.rv.head(m));
                assert(has_graph(st.rv, m));
                assert(resolves(st, names, old, new, m));
                assert(resolved(st, names, old, new, s));
            }
        }
    }
}

proof fn lemma_resolving(
    rv: DataView,
    timestamp: Timestamp,
    old: Seq<Seq<char>>,
    new: Seq<Seq<char>>,
    rank: spec_fn(Seq<Seq<char>>) -> nat,
    k: nat,
)
    requires
        sync::heads_map(rv).dom().finite(),
        apart(old, new),
        forall|n: Seq<Seq<char>>| beneath(n, new) ==> (#[trigger] rv.head(n)) is None,
        fork_unmet(rv, timestamp, old, new),
        fork_commits_unmet(rv, timestamp, old, new),
        ranked_under(rv, old, rank),
        none_ahead(rv, old, new),
        k <= sync::fork_order(rv, old).len(),
    ensures
        resolving(
            sync::fork_all(sync::fork_start(rv, old, new), timestamp, old, new, k),
            rv,
            sync::fork_order(rv, old),
            old,
            new,
        ),
    decreases k,
{
    let st0 = sync::fork_start(rv, old, new);
    let names = sync::fork_order(rv, old);
    lemma_order(rv, old);
    lemma_order_distinct(rv, old);
    if k > 0 {
        lemma_resolving(rv, timestamp, old, new, rank, (k - 1) as nat);
        lemma_left(st0, timestamp, old, new, (k - 1) as nat);
        let st = sync::fork_all(st0, timestamp, old, new, (k - 1) as nat);
        lemma_resolving_step(st, rv, timestamp, names, old, new, rank);
    }
}

/// A fork's references are at its own graphs: where the forked graph, or one nested under
/// it, refers to a name nested under the fork, that name is at the graph that is referred
/// to. That holds where the forked graph is there, the references among what is copied
/// make no circle, nothing referred to the fork's nested names before, neither name is
/// under the other, nothing was nested under the new one before, and nothing that the fork
/// stores meets another at its address.
pub proof fn law_fork_references_are_at_their_copies(
    rv: DataView,
    timestamp: Timestamp,
    old: Seq<Seq<char>>,
    new: Seq<Seq<char>>,
    rank: spec_fn(Seq<Seq<char>>) -> nat,
    n: Seq<Seq<char>>,
    r: NamedView,
)
    requires
        sync::heads_map(rv).dom().finite(),
        apart(old, new),
        has_graph(rv, new),
        forall|m: Seq<Seq<char>>| beneath(m, new) ==> (#[trigger] rv.head(m)) is None,
        fork_unmet(rv, timestamp, old, new),
        fork_commits_unmet(rv, timestamp, old, new),
        ranked_under(rv, old, rank),
        none_ahead(rv, old, new),
        new.is_prefix_of(n),
        has_graph(sync::forked(rv, timestamp, old, new).rv, n),
        sync::refers(
            sync::graph_of(
                sync::forked(rv, timestamp, old, new).rv,
                sync::forked(rv, timestamp, old, new).rv.head(n)->0,
            )->0,
            r,
        ),
        beneath(r.name, new),
    ensures
        ({
            let after = sync::forked(rv, timestamp, old, new).rv;
            &&& after.head(r.name) is Some
            &&& after.commits.contains_key(after.head(r.name)->0)
            &&& after.commits[after.head(r.name)->0].graph == r.graph
        }),
{
    let names = sync::fork_order(rv, old);
    let st0 = sync::fork_start(rv, old, new);
    let st = sync::fork_copied(rv, timestamp, old, new);
    let after = sync::forked(rv, timestamp, old, new).rv;
    lemma_order(rv, old);
    lemma_resolving(rv, timestamp, old, new, rank, names.len());
    lemma_left(st0, timestamp, old, new, names.len());
    let f = sync::to_copy(st.remap);
    assert(st.rv.head(new) == rv.head(new));
    let changed = has_graph(st.rv, new) && data::changes(
        sync::graph_of(st.rv, st.rv.head(new)->0)->0,
        f,
    );
    let root = sync::graph_of(st.rv, st.rv.head(new)->0)->0;
    let h = data::rewritten(root, f);
    let stored = sync::graph_of(after, after.head(n)->0)->0;
    if changed {
        assert(after == st.rv.with_graph_on(timestamp, data::data_addr(h), h, new));
        sync::lemma_with_graph_on(st.rv, timestamp, data::data_addr(h), h, new, n);
        sync::lemma_with_graph_on(st.rv, timestamp, data::data_addr(h), h, new, r.name);
        lemma_committed(st.rv, timestamp, h, new, after.head(n)->0);
        lemma_committed_exactly(st.rv, timestamp, h, new, st.rv.head(r.name)->0);
    } else {
        assert(after == st.rv);
    }
    assert(resolved(st, names, old, new, r)) by {
        if changed && same_refs(stored, h) {
            assert(sync::refers(h, r));
            lemma_rewritten_refs(root, f, r);
            let q = choose|q: NamedView| #[trigger]
                sync::refers(root, q) && r == (match f(q) {
                    Some(t) => t,
                    None => q,
                });
            lemma_root_refs(st, rv, names, old, new, q);
            if st.remap.contains_key(q.name) {
                assert(names.contains(q.name));
                assert(done(st, names, q.name));
            }
        } else if n == new {
            lemma_root_refs(st, rv, names, old, new, r);
        } else {
            assert(has_graph(st.rv, n));
            assert(resolves(st, names, old, new, n));
        }
    }
    let d = choose|d: Seq<Seq<char>>| #[trigger]
        done(st, names, d) && r.name == sync::renamed_of(d, old, new) && r.graph == st.remap[d].1;
    assert(at_copy(st, sync::renamed_of(d, old, new), st.remap[d].1));
}

/// The graph at `new` is what it was, so it refers to nothing beneath itself.
proof fn lemma_root_refs(
    st: ForkState,
    rv: DataView,
    names: Seq<Seq<Seq<char>>>,
    old: Seq<Seq<char>>,
    new: Seq<Seq<char>>,
    r: NamedView,
)
    requires
        resolving(st, rv, names, old, new),
        none_ahead(rv, old, new),
        has_graph(st.rv, new),
        has_graph(rv, new),
        sync::refers(sync::graph_of(st.rv, st.rv.head(new)->0)->0, r),
    ensures
        !beneath(r.name, new),
{
    assert(st.rv.head(new) == rv.head(new));
    assert(sync::graph_of(st.rv, rv.head(new)->0) == sync::graph_of(rv, rv.head(new)->0));
    assert(sync::refers(sync::graph_of(rv, rv.head(new)->0)->0, r));
}

} // verus!
