//! Keeping named references current across the registry.
//!
//! A named graph that is edited moves to a new address, and every graph that refers to
//! it by name has to follow. [`resync`] brings all references that follow their name up
//! to it; [`fork_nested`] gives a forked graph nested graphs of its own, and
//! [`promote_nested`] makes a nested graph a root.

use crate::commit::{CommitAddr, Timestamp};
use crate::data::{self, DataGraph, GraphView, NamedRef, NamedView, NodeView, RefRewrite};
use crate::graph::GraphAddr;
use crate::name::{self, Name};
use crate::order::{self, Key, Ranker};
use crate::registry::{Payload, Registry, RegistryView};
use crate::table::{self, Table};
use crate::text;
use vstd::prelude::*;
use vstd::string::*;

verus! {

/// What a registry of graphs as data denotes.
pub type DataView = RegistryView<GraphView<NodeView>>;

/// A named graph whose commit moved.
#[derive(Debug)]
pub struct Moved {
    pub name: Name,
    /// The commit that the name pointed at before.
    pub old_commit: CommitAddr,
    /// The commit that it points at now.
    pub new_commit: CommitAddr,
}

/// What a [`Moved`] denotes.
#[verifier::ext_equal]
pub struct MovedView {
    pub name: Seq<Seq<char>>,
    pub old_commit: CommitAddr,
    pub new_commit: CommitAddr,
}

impl View for Moved {
    type V = MovedView;

    open spec fn view(&self) -> MovedView {
        MovedView {
            name: self.name@,
            old_commit: self.old_commit,
            new_commit: self.new_commit,
        }
    }
}

/// What a list of moves denotes.
pub open spec fn move_views(s: Seq<Moved>) -> Seq<MovedView> {
    s.map_values(|m: Moved| m@)
}

/// The heads by name.
pub open spec fn heads_map<T>(rv: RegistryView<T>) -> Map<Seq<Seq<char>>, CommitAddr> {
    Map::new(
        |n: Seq<Seq<char>>| rv.head(n) is Some,
        |n: Seq<Seq<char>>| rv.head(n)->0,
    )
}

/// The names of the heads, ascending.
pub open spec fn head_names<T>(rv: RegistryView<T>) -> Seq<Seq<Seq<char>>> {
    table::keys_of::<Name, CommitAddr>(heads_map(rv))
}

/// What a list of names denotes.
pub open spec fn name_views(s: Seq<Name>) -> Seq<Seq<Seq<char>>> {
    s.map_values(|n: Name| n@)
}

proof fn lemma_head_names<T>(rv: RegistryView<T>, s: Seq<(Name, CommitAddr)>)
    requires
        rv.lists_heads(s),
    ensures
        head_names(rv) == s.map_values(|h: (Name, CommitAddr)| h.0@),
{
    let names = s.map_values(|h: (Name, CommitAddr)| h.0@);
    let m = heads_map(rv);
    assert forall|n: Seq<Seq<char>>| #[trigger] m.contains_key(n) <==> names.contains(n) by {
        if m.contains_key(n) {
            assert(rv.head(n) is Some);
            let i = choose|i: int| 0 <= i < s.len() && (#[trigger] s[i]).0@ == n;
            assert(names[i] == n);
        }
        if names.contains(n) {
            let i = choose|i: int| 0 <= i < names.len() && names[i] == n;
            assert(rv.head(s[i].0@) == Some(s[i].1));
        }
    }
    assert forall|i: int, j: int| 0 <= i < j < names.len() implies Name::precedes(
        #[trigger] names[i],
        #[trigger] names[j],
    ) by {
        assert(Name::precedes(s[i].0@, s[j].0@));
    }
    table::lemma_keys::<Name, CommitAddr>(names, m);
}

/// No name is listed twice.
pub proof fn lemma_head_names_distinct<T>(rv: RegistryView<T>)
    requires
        heads_map(rv).dom().finite(),
    ensures
        head_names(rv).no_duplicates(),
{
    let keys = head_names(rv);
    table::lemma_keys_of::<Name, CommitAddr>(heads_map(rv));
    assert forall|i: int, j: int|
        0 <= i < keys.len() && 0 <= j < keys.len() && i != j implies keys[i] != keys[j] by {
        if i < j {
            assert(Name::precedes(keys[i], keys[j]));
        } else {
            assert(Name::precedes(keys[j], keys[i]));
        }
        Name::lemma_irreflexive(keys[i]);
    }
}

/// The names of the heads, ascending.
pub fn registry_names<G: Payload>(reg: &Registry<G>) -> (r: Vec<Name>)
    ensures
        name_views(r@) == head_names(reg@),
{
    let heads = reg.heads();
    proof {
        lemma_head_names(reg@, heads@);
    }
    let mut r: Vec<Name> = Vec::new();
    let mut i: usize = 0;
    while i < heads.len()
        invariant
            i <= heads@.len(),
            r@.len() == i,
            forall|j: int| 0 <= j < i ==> (#[trigger] r@[j])@ == heads@[j].0@,
        decreases heads@.len() - i,
    {
        r.push(heads[i].0.dup());
        i = i + 1;
    }
    assert(name_views(r@) =~= heads@.map_values(|h: (Name, CommitAddr)| h.0@));
    r
}

/// Whether a name is nested deeper than another.
pub open spec fn deeper() -> spec_fn(Seq<Seq<char>>, Seq<Seq<char>>) -> bool {
    |a: Seq<Seq<char>>, b: Seq<Seq<char>>| a.len() > b.len()
}

/// The names, the deepest first, and those of one depth in the order they had.
pub open spec fn deepest_first(names: Seq<Seq<Seq<char>>>) -> Seq<Seq<Seq<char>>> {
    order::sorted(names, deeper())
}

struct DepthRanker {}

impl Ranker<Name> for DepthRanker {
    open spec fn judges(&self, x: Name) -> bool {
        true
    }

    open spec fn lt(&self) -> spec_fn(Name, Name) -> bool {
        |a: Name, b: Name| a@.len() > b@.len()
    }

    fn less(&self, a: &Name, b: &Name) -> (r: bool) {
        a.depth() > b.depth()
    }
}

fn sort_by_depth(names: Vec<Name>) -> (r: Vec<Name>)
    ensures
        name_views(r@) == deepest_first(name_views(names@)),
{
    let ranker = DepthRanker {  };
    let ghost s = names@;
    let r = order::sort(names, &ranker);
    proof {
        let f = |n: Name| n@;
        let lt = ranker.lt();
        assert forall|a: Name, b: Name| #[trigger] lt(a, b) == deeper()(f(a), f(b)) by {}
        order::lemma_sorted_map(s, f, lt, deeper());
        assert(name_views(r@) =~= order::sorted(s, lt).map_values(f));
        assert(name_views(s) =~= s.map_values(f));
    }
    r
}

/// The graph at a commit, if both are there.
pub open spec fn graph_of(rv: DataView, c: CommitAddr) -> Option<GraphView<NodeView>> {
    if rv.commits.contains_key(c) && rv.graphs.contains_key(rv.commits[c].graph) {
        Some(rv.graphs[rv.commits[c].graph])
    } else {
        None
    }
}

fn commit_graph_ref<'a>(reg: &'a Registry<DataGraph>, c: &CommitAddr) -> (r: Option<&'a DataGraph>)
    ensures
        match r {
            Some(g) => graph_of(reg@, *c) == Some(g@),
            None => graph_of(reg@, *c) is None,
        },
{
    match reg.commit(c) {
        Some(commit) => reg.graph(&commit.graph),
        None => None,
    }
}

/// What becomes of the registry when the references of the graph at a commit are
/// rewritten: where any of them changes, the graph is committed under the name.
pub open spec fn rewriting(
    rv: DataView,
    timestamp: Timestamp,
    name: Seq<Seq<char>>,
    source: CommitAddr,
    f: spec_fn(NamedView) -> Option<NamedView>,
) -> (DataView, Option<MovedView>) {
    match graph_of(rv, source) {
        Some(g) => if data::changes(g, f) {
            let h = data::rewritten(g, f);
            let a = data::data_addr(h);
            (
                rv.with_graph_on(timestamp, a, h, name),
                Some(
                    MovedView {
                        name,
                        old_commit: source,
                        new_commit: rv.next_addr(timestamp, a, name),
                    },
                ),
            )
        } else {
            (rv, None)
        },
        None => (rv, None),
    }
}

/// What an optional move denotes.
pub open spec fn moved_view(m: Option<Moved>) -> Option<MovedView> {
    match m {
        Some(m) => Some(m@),
        None => None,
    }
}

fn commit_rewritten<R: RefRewrite>(
    reg: &mut Registry<DataGraph>,
    timestamp: Timestamp,
    name: &Name,
    source: CommitAddr,
    rewriter: &R,
) -> (r: Option<Moved>)
    ensures
        (final(reg)@, moved_view(r)) == rewriting(
            old(reg)@,
            timestamp,
            name@,
            source,
            data::rule(*rewriter),
        ),
{
    let (h, changed) = match commit_graph_ref(reg, &source) {
        Some(g) => data::rewrite_refs(g, rewriter),
        None => {
            return None;
        },
    };
    if !changed {
        return None;
    }
    let a = data::graph_addr(&h);
    let new_commit = reg.commit_graph_to_name(timestamp, a, h, name);
    Some(Moved { name: name.dup(), old_commit: source, new_commit })
}

/// The copied names, each with the name and graph of its copy.
pub type Remap = Map<Seq<Seq<char>>, (Seq<Seq<char>>, GraphAddr)>;

/// References to what was copied go to the copy.
pub open spec fn to_copy(remap: Remap) -> spec_fn(NamedView) -> Option<NamedView> {
    |r: NamedView|
        if remap.contains_key(r.name) {
            Some(NamedView { name: remap[r.name].0, graph: remap[r.name].1, ..r })
        } else {
            None
        }
}

/// What the executable map of copies denotes.
pub open spec fn remap_view(m: Map<Seq<Seq<char>>, (Name, GraphAddr)>) -> Remap {
    m.map_values(|x: (Name, GraphAddr)| (x.0@, x.1))
}

struct ToCopy<'a> {
    remap: &'a Table<Name, (Name, GraphAddr)>,
}

impl<'a> RefRewrite for ToCopy<'a> {
    closed spec fn becomes(&self, r: NamedView) -> Option<NamedView> {
        to_copy(remap_view(self.remap@))(r)
    }

    fn rewrite(&self, r: &NamedRef) -> (n: Option<NamedRef>) {
        match self.remap.get(&r.name) {
            Some((name, graph)) => Some(r.renamed(name, *graph)),
            None => None,
        }
    }
}

/// The name that `descendant` has once `old` is called `new`.
pub open spec fn renamed_of(
    descendant: Seq<Seq<char>>,
    old: Seq<Seq<char>>,
    new: Seq<Seq<char>>,
) -> Seq<Seq<char>> {
    new + descendant.skip(old.len() as int)
}

/// The name that `descendant` has once `old` is called `new`: the segments of `new`, and
/// behind them those that `descendant` has past `old`.
pub fn renamed(descendant: &Name, old: &Name, new: &Name) -> (r: Name)
    requires
        old@.len() <= descendant@.len(),
    ensures
        r@ == renamed_of(descendant@, old@, new@),
{
    let from = descendant.segments();
    let to = new.segments();
    let mut segments = name::dup_strings(to, to.len());
    let ghost start = text::texts(segments@);
    assert(start =~= new@) by {
        assert(text::texts(to@).len() == to@.len());
    }
    assert(segments@.len() == start.len());
    let n: usize = old.depth();
    let mut i: usize = n;
    assert(text::texts(from@).len() == from@.len());
    assert(descendant@.skip(n as int).take(0) =~= Seq::empty());
    assert(text::texts(segments@) =~= start + descendant@.skip(n as int).take(0));
    while i < from.len()
        invariant
            n <= i <= from@.len(),
            text::texts(from@) == descendant@,
            segments@.len() >= 1,
            text::texts(segments@) == start + descendant@.skip(n as int).take(i - n),
        decreases from@.len() - i,
    {
        let ghost before = segments@;
        segments.push(from[i].clone());
        proof {
            let t = descendant@.skip(n as int);
            assert(t.take(i + 1 - n) =~= t.take(i - n).push(t[i - n]));
            assert(t[i - n] == from@[i as int]@);
            assert(text::texts(segments@) =~= text::texts(before).push(from@[i as int]@));
            assert(text::texts(segments@) =~= start + t.take(i + 1 - n));
        }
        i = i + 1;
    }
    proof {
        let t = descendant@.skip(n as int);
        assert(t.take(i - n) =~= t);
    }
    Name::from_segments(segments)
}

/// Whether a graph has the named reference `r`.
pub open spec fn refers(g: GraphView<NodeView>, r: NamedView) -> bool {
    exists|i: int|
        0 <= i < g.nodes.len() && (#[trigger] g.nodes[i]) is Some && g.nodes[i]->0.named == Some(r)
}

/// The state of a fork.
#[verifier::ext_equal]
pub struct ForkState {
    pub rv: DataView,
    /// The names that are still to be copied.
    pub left: Seq<Seq<Seq<char>>>,
    /// All names that are copied. What is still to be copied stands with the graph that
    /// it is copied from.
    pub remap: Remap,
    pub moves: Seq<MovedView>,
}

/// Whether the graph at the head `d` has no reference to a listed name.
pub open spec fn ready(rv: DataView, left: Seq<Seq<Seq<char>>>, d: Seq<Seq<char>>) -> bool {
    match rv.head(d) {
        Some(c) => match graph_of(rv, c) {
            Some(g) => forall|r: NamedView| #[trigger] refers(g, r) ==> !left.contains(r.name),
            None => true,
        },
        None => true,
    }
}

/// The first name, from the `i`th on, that refers to none that is still to be copied;
/// the first of all where there is none.
pub open spec fn next_copied(rv: DataView, left: Seq<Seq<Seq<char>>>, i: nat) -> nat
    decreases left.len() - i,
{
    if i >= left.len() {
        0
    } else if ready(rv, left, left[i as int]) {
        i
    } else {
        next_copied(rv, left, i + 1)
    }
}

/// Copying the descendant `d`, with its references to what is copied renamed.
pub open spec fn copied(
    st: ForkState,
    timestamp: Timestamp,
    old: Seq<Seq<char>>,
    new: Seq<Seq<char>>,
    d: Seq<Seq<char>>,
) -> ForkState {
    match st.rv.head(d) {
        Some(c) => match graph_of(st.rv, c) {
            Some(g) => {
                let h = data::rewritten(g, to_copy(st.remap));
                let a = data::data_addr(h);
                let n = renamed_of(d, old, new);
                ForkState {
                    rv: st.rv.with_graph_on(timestamp, a, h, n),
                    remap: st.remap.insert(d, (n, a)),
                    moves: st.moves.push(
                        MovedView {
                            name: n,
                            old_commit: c,
                            new_commit: st.rv.next_addr(timestamp, a, n),
                        },
                    ),
                    ..st
                }
            },
            None => st,
        },
        None => st,
    }
}

/// Copying the descendant whose turn it is.
pub open spec fn fork_one(
    st: ForkState,
    timestamp: Timestamp,
    old: Seq<Seq<char>>,
    new: Seq<Seq<char>>,
) -> ForkState {
    let p = next_copied(st.rv, st.left, 0) as int;
    copied(
        ForkState { left: st.left.remove(p), ..st },
        timestamp,
        old,
        new,
        st.left[p],
    )
}

/// Copying the first `n` descendants.
pub open spec fn fork_all(
    st: ForkState,
    timestamp: Timestamp,
    old: Seq<Seq<char>>,
    new: Seq<Seq<char>>,
    n: nat,
) -> ForkState
    decreases n,
{
    if n == 0 {
        st
    } else {
        fork_one(fork_all(st, timestamp, old, new, (n - 1) as nat), timestamp, old, new)
    }
}

/// The listed heads whose graph is there.
pub open spec fn with_graph(rv: DataView, names: Seq<Seq<Seq<char>>>) -> Seq<Seq<Seq<char>>>
    decreases names.len(),
{
    if names.len() == 0 {
        Seq::empty()
    } else {
        let init = with_graph(rv, names.drop_last());
        let n = names.last();
        if rv.head(n) is Some && graph_of(rv, rv.head(n)->0) is Some {
            init.push(n)
        } else {
            init
        }
    }
}

/// The names nested under another.
pub open spec fn descendants(names: Seq<Seq<Seq<char>>>, of: Seq<Seq<char>>) -> Seq<Seq<Seq<char>>>
    decreases names.len(),
{
    if names.len() == 0 {
        Seq::empty()
    } else {
        let init = descendants(names.drop_last(), of);
        if of.is_prefix_of(names.last()) && names.last() != of {
            init.push(names.last())
        } else {
            init
        }
    }
}

/// What a fork copies: the graphs nested under `old`, the deepest first.
pub open spec fn fork_order(rv: DataView, old: Seq<Seq<char>>) -> Seq<Seq<Seq<char>>> {
    with_graph(rv, deepest_first(descendants(head_names(rv), old)))
}

/// The state that a fork starts from: every name that is copied is given its new name.
pub open spec fn fork_start(rv: DataView, old: Seq<Seq<char>>, new: Seq<Seq<char>>) -> ForkState {
    let left = fork_order(rv, old);
    ForkState {
        rv,
        left,
        remap: Map::new(
            |d: Seq<Seq<char>>| left.contains(d),
            |d: Seq<Seq<char>>| (renamed_of(d, old, new), rv.commits[rv.head(d)->0].graph),
        ),
        moves: Seq::empty(),
    }
}

/// The state of a fork once all descendants are copied.
pub open spec fn fork_copied(
    rv: DataView,
    timestamp: Timestamp,
    old: Seq<Seq<char>>,
    new: Seq<Seq<char>>,
) -> ForkState {
    fork_all(fork_start(rv, old, new), timestamp, old, new, fork_order(rv, old).len())
}

/// What becomes of the registry, and the moves, when the graphs nested under `old` are
/// copied for `new`: each behind those that it refers to, and the deepest first as far as
/// that leaves it open; then the references of `new` itself. References to what is
/// copied go to the copies' names, and to their graphs. Where copied graphs refer to one
/// another in a circle, one of them has to come first: it refers to the other by the
/// copy's name, and to the graph that it is a copy of.
pub open spec fn forked(
    rv: DataView,
    timestamp: Timestamp,
    old: Seq<Seq<char>>,
    new: Seq<Seq<char>>,
) -> ForkState {
    let st = fork_copied(rv, timestamp, old, new);
    match st.rv.head(new) {
        Some(c) => {
            let (after, m) = rewriting(st.rv, timestamp, new, c, to_copy(st.remap));
            ForkState {
                rv: after,
                moves: match m {
                    Some(m) => st.moves.push(m),
                    None => st.moves,
                },
                ..st
            }
        },
        None => st,
    }
}

fn nested_under(names: &Vec<Name>, of: &Name) -> (r: Vec<Name>)
    ensures
        name_views(r@) == descendants(name_views(names@), of@),
{
    let ghost all = name_views(names@);
    let mut r: Vec<Name> = Vec::new();
    let mut i: usize = 0;
    assert(name_views(r@) =~= descendants(all.take(0), of@));
    while i < names.len()
        invariant
            all == name_views(names@),
            i <= names@.len(),
            name_views(r@) == descendants(all.take(i as int), of@),
        decreases names@.len() - i,
    {
        let ghost before = r@;
        proof {
            assert(all.take(i + 1).drop_last() =~= all.take(i as int));
            assert(all.take(i + 1).last() == names@[i as int]@);
        }
        if names[i].starts_with(of) && !names[i].same(of) {
            r.push(names[i].dup());
            assert(name_views(r@) =~= name_views(before).push(names@[i as int]@));
        }
        i = i + 1;
    }
    assert(all.take(i as int) =~= all);
    r
}

/// Those nested under a name are the listed names that it is a proper prefix of.
pub proof fn lemma_descendants(names: Seq<Seq<Seq<char>>>, of: Seq<Seq<char>>)
    ensures
        forall|d: Seq<Seq<char>>| #[trigger]
            descendants(names, of).contains(d) <==> names.contains(d) && of.is_prefix_of(d) && d
                != of,
    decreases names.len(),
{
    let ds = descendants(names, of);
    if names.len() > 0 {
        let init = names.drop_last();
        let last = names.last();
        lemma_descendants(init, of);
        let di = descendants(init, of);
        assert forall|d: Seq<Seq<char>>| #[trigger]
            ds.contains(d) <==> names.contains(d) && of.is_prefix_of(d) && d != of by {
            if ds.contains(d) {
                let i = choose|i: int| 0 <= i < ds.len() && ds[i] == d;
                if i < di.len() {
                    assert(di[i] == d);
                    assert(di.contains(d));
                    let j = choose|j: int| 0 <= j < init.len() && init[j] == d;
                    assert(names[j] == d);
                } else {
                    assert(names[names.len() - 1] == d);
                }
            }
            if names.contains(d) && of.is_prefix_of(d) && d != of {
                let j = choose|j: int| 0 <= j < names.len() && names[j] == d;
                if j < init.len() {
                    assert(init[j] == d);
                    assert(di.contains(d));
                    let i = choose|i: int| 0 <= i < di.len() && di[i] == d;
                    assert(ds[i] == d);
                } else {
                    assert(ds[ds.len() - 1] == d);
                }
            }
        }
    }
}

/// The listed heads that have a graph are just those.
pub proof fn lemma_with_graph(rv: DataView, names: Seq<Seq<Seq<char>>>)
    ensures
        forall|d: Seq<Seq<char>>| #[trigger]
            with_graph(rv, names).contains(d) <==> names.contains(d) && rv.head(d) is Some
                && graph_of(rv, rv.head(d)->0) is Some,
    decreases names.len(),
{
    let ds = with_graph(rv, names);
    if names.len() > 0 {
        let init = names.drop_last();
        lemma_with_graph(rv, init);
        let di = with_graph(rv, init);
        assert forall|d: Seq<Seq<char>>| #[trigger]
            ds.contains(d) <==> names.contains(d) && rv.head(d) is Some && graph_of(
                rv,
                rv.head(d)->0,
            ) is Some by {
            assert(di.contains(d) <==> init.contains(d) && rv.head(d) is Some && graph_of(
                rv,
                rv.head(d)->0,
            ) is Some);
            if ds.contains(d) {
                let i = choose|i: int| 0 <= i < ds.len() && ds[i] == d;
                if i < di.len() {
                    assert(di[i] == d);
                    let j = choose|j: int| 0 <= j < init.len() && init[j] == d;
                    assert(names[j] == d);
                } else {
                    assert(names[names.len() - 1] == d);
                }
            }
            if names.contains(d) && rv.head(d) is Some && graph_of(rv, rv.head(d)->0) is Some {
                let j = choose|j: int| 0 <= j < names.len() && names[j] == d;
                if j < init.len() {
                    assert(init[j] == d);
                    let i = choose|i: int| 0 <= i < di.len() && di[i] == d;
                    assert(ds[i] == d);
                } else {
                    assert(ds[ds.len() - 1] == d);
                }
            }
        }
    }
}

fn is_ready(reg: &Registry<DataGraph>, left: &Vec<Name>, d: &Name) -> (r: bool)
    ensures
        r == ready(reg@, name_views(left@), d@),
{
    let ghost lv = name_views(left@);
    let c = match reg.head(d) {
        Some(c) => c,
        None => {
            return true;
        },
    };
    let g = match commit_graph_ref(reg, &c) {
        Some(g) => g,
        None => {
            return true;
        },
    };
    let inner = g.graph();
    let ghost v = g@;
    assert(v.nodes.len() == inner.nodes@.len());
    let mut i: usize = 0;
    while i < inner.nodes.len()
        invariant
            lv == name_views(left@),
            v.nodes == data::node_views(inner.nodes@),
            v.nodes.len() == inner.nodes@.len(),
            i <= inner.nodes@.len(),
            forall|j: int|
                0 <= j < i && (#[trigger] v.nodes[j]) is Some && v.nodes[j]->0.named is Some
                    ==> !lv.contains(v.nodes[j]->0.named->0.name),
            graph_of(reg@, c) == Some(v),
            reg@.head(d@) == Some(c),
        decreases inner.nodes@.len() - i,
    {
        if let Some(n) = &inner.nodes[i] {
            if let Some(r) = &n.named {
                assert(v.nodes[i as int]->0.named == Some(r@));
                if is_listed(left, &r.name) {
                    proof {
                        let at = r@;
                        assert(refers(v, at) && lv.contains(at.name));
                        if ready(reg@, lv, d@) {
                            let h = graph_of(reg@, reg@.head(d@)->0)->0;
                            assert(h == v);
                            assert(forall|q: NamedView| #[trigger]
                                refers(h, q) ==> !lv.contains(q.name));
                        }
                    }
                    return false;
                }
            }
        }
        i = i + 1;
    }
    assert forall|r: NamedView| #[trigger] refers(v, r) implies !lv.contains(r.name) by {
        let j = choose|j: int|
            0 <= j < v.nodes.len() && (#[trigger] v.nodes[j]) is Some && v.nodes[j]->0.named
                == Some(r);
        assert(v.nodes[j] is Some);
    }
    true
}

fn is_listed(names: &Vec<Name>, name: &Name) -> (r: bool)
    ensures
        r == name_views(names@).contains(name@),
{
    let mut i: usize = 0;
    while i < names.len()
        invariant
            i <= names@.len(),
            forall|j: int| 0 <= j < i ==> (#[trigger] names@[j])@ != name@,
        decreases names@.len() - i,
    {
        if names[i].same(name) {
            assert(name_views(names@)[i as int] == name@);
            return true;
        }
        i = i + 1;
    }
    false
}

/// One of the names is copied next: one that refers to none of them, if there is one.
pub proof fn lemma_next_copied(rv: DataView, left: Seq<Seq<Seq<char>>>, i: nat)
    requires
        left.len() > 0,
    ensures
        next_copied(rv, left, i) < left.len(),
        !ready(rv, left, left[next_copied(rv, left, i) as int]) ==> forall|j: int|
            i <= j < left.len() ==> !ready(rv, left, #[trigger] left[j]),
    decreases left.len() - i,
{
    if i < left.len() && !ready(rv, left, left[i as int]) {
        lemma_next_copied(rv, left, i + 1);
    }
}

fn next_index(reg: &Registry<DataGraph>, left: &Vec<Name>) -> (r: usize)
    requires
        left@.len() > 0,
    ensures
        r == next_copied(reg@, name_views(left@), 0),
        r < left@.len(),
{
    let ghost lv = name_views(left@);
    let mut i: usize = 0;
    while i < left.len()
        invariant
            lv == name_views(left@),
            i <= left@.len(),
            next_copied(reg@, lv, 0) == next_copied(reg@, lv, i as nat),
        decreases left@.len() - i,
    {
        if is_ready(reg, left, &left[i]) {
            return i;
        }
        i = i + 1;
    }
    0
}

/// Gives a forked graph nested graphs of its own. What is nested under `old` is copied
/// to the same place under `new`, and references to it from the copies and from `new`
/// go to the copies. Returns the names that came to be or moved.
pub fn fork_nested(reg: &mut Registry<DataGraph>, timestamp: Timestamp, old_name: &Name, new_name: &Name) -> (r:
    Vec<Moved>)
    ensures
        final(reg)@ == forked(old(reg)@, timestamp, old_name@, new_name@).rv,
        move_views(r@) == forked(old(reg)@, timestamp, old_name@, new_name@).moves,
{
    let ghost rv0 = reg@;
    let names = registry_names(reg);
    let under = nested_under(&names, old_name);
    let ds = sort_by_depth(under);
    let ghost dv = name_views(ds@);
    proof {
        assert(dv == deepest_first(descendants(head_names(rv0), old_name@)));
        lemma_descendants(head_names(rv0), old_name@);
        order::lemma_sorted_multiset(descendants(head_names(rv0), old_name@), deeper());
        assert forall|i: int| 0 <= i < dv.len() implies old_name@.is_prefix_of(#[trigger] dv[i]) by {
            lemma_sorted_from(descendants(head_names(rv0), old_name@), dv, i);
        }
    }
    let ghost st0 = fork_start(rv0, old_name@, new_name@);
    let mut remap: Table<Name, (Name, GraphAddr)> = Table::new();
    let mut left: Vec<Name> = Vec::new();
    let mut i: usize = 0;
    assert(name_views(left@) =~= with_graph(rv0, dv.take(0)));
    while i < ds.len()
        invariant
            dv == name_views(ds@),
            forall|i: int| 0 <= i < dv.len() ==> old_name@.is_prefix_of(#[trigger] dv[i]),
            i <= ds@.len(),
            reg@ == rv0,
            name_views(left@) == with_graph(rv0, dv.take(i as int)),
            forall|j: int|
                0 <= j < left@.len() ==> old_name@.is_prefix_of((#[trigger] left@[j])@),
            forall|d: Seq<Seq<char>>| #[trigger]
                remap@.contains_key(d) <==> name_views(left@).contains(d),
            forall|d: Seq<Seq<char>>| #[trigger]
                remap@.contains_key(d) ==> remap@[d].0@ == renamed_of(d, old_name@, new_name@)
                    && remap@[d].1 == rv0.commits[rv0.head(d)->0].graph,
        decreases ds@.len() - i,
    {
        let d = &ds[i];
        let ghost before = left@;
        let ghost remap0 = remap@;
        proof {
            assert(dv.take(i + 1).drop_last() =~= dv.take(i as int));
            assert(dv.take(i + 1).last() == d@);
            assert(dv[i as int] == d@);
        }
        let from = match reg.head(d) {
            Some(c) => match reg.commit(&c) {
                Some(commit) => match reg.graph(&commit.graph) {
                    Some(_) => Some(commit.graph),
                    None => None,
                },
                None => None,
            },
            None => None,
        };
        if let Some(graph) = from {
            let n = renamed(d, old_name, new_name);
            remap.insert(d.dup(), (n, graph));
            left.push(d.dup());
            proof {
                assert(name_views(left@) =~= name_views(before).push(d@));
                assert forall|e: Seq<Seq<char>>| #[trigger]
                    remap@.contains_key(e) <==> name_views(left@).contains(e) by {
                    assert(name_views(left@)[before.len() as int] == d@);
                    assert(remap0.contains_key(e) <==> name_views(before).contains(e));
                    if name_views(before).contains(e) {
                        let j = choose|j: int|
                            0 <= j < before.len() && name_views(before)[j] == e;
                        assert(name_views(left@)[j] == e);
                    }
                    if name_views(left@).contains(e) && e != d@ {
                        let j = choose|j: int|
                            0 <= j < left@.len() && name_views(left@)[j] == e;
                        assert(name_views(before)[j] == e);
                    }
                }
            }
        }
        i = i + 1;
    }
    assert(dv.take(i as int) =~= dv);
    let mut moves: Vec<Moved> = Vec::new();
    let total: usize = left.len();
    let mut done: usize = 0;
    proof {
        assert(st0.left == name_views(left@));
        assert(total == st0.left.len());
        assert(remap_view(remap@) =~= st0.remap);
        assert(move_views(moves@) =~= st0.moves);
    }
    while done < total
        invariant
            done <= total,
            left@.len() == total - done,
            forall|j: int|
                0 <= j < left@.len() ==> old_name@.is_prefix_of((#[trigger] left@[j])@),
            fork_all(st0, timestamp, old_name@, new_name@, done as nat) == (ForkState {
                rv: reg@,
                left: name_views(left@),
                remap: remap_view(remap@),
                moves: move_views(moves@),
            }),
        decreases total - done,
    {
        let ghost st = ForkState {
            rv: reg@,
            left: name_views(left@),
            remap: remap_view(remap@),
            moves: move_views(moves@),
        };
        let ghost remap0 = remap@;
        let ghost moves0 = moves@;
        let ghost left0 = left@;
        let p = next_index(reg, &left);
        let d = left.remove(p);
        proof {
            assert(d@ == st.left[p as int]);
            assert(old_name@.is_prefix_of(left0[p as int]@));
            assert(name_views(left@) =~= st.left.remove(p as int));
            assert forall|j: int| 0 <= j < left@.len() implies old_name@.is_prefix_of(
                (#[trigger] left@[j])@,
            ) by {
                if j < p {
                    assert(left@[j] == left0[j]);
                } else {
                    assert(left@[j] == left0[j + 1]);
                }
            }
        }
        if let Some(c) = reg.head(&d) {
            let copy = match commit_graph_ref(reg, &c) {
                Some(g) => {
                    let rewriter = ToCopy { remap: &remap };
                    proof {
                        assert(data::rule(rewriter) =~= to_copy(remap_view(remap@)));
                    }
                    let (h, _) = data::rewrite_refs(g, &rewriter);
                    Some(h)
                },
                None => None,
            };
            if let Some(h) = copy {
                let a = data::graph_addr(&h);
                let n = renamed(&d, old_name, new_name);
                let new_commit = reg.commit_graph_to_name(timestamp, a, h, &n);
                let m = Moved { name: n.dup(), old_commit: c, new_commit };
                let ghost mv = m@;
                remap.insert(d.dup(), (n, a));
                moves.push(m);
                proof {
                    assert(remap_view(remap@) =~= remap_view(remap0).insert(
                        d@,
                        (renamed_of(d@, old_name@, new_name@), a),
                    ));
                    assert(move_views(moves@) =~= move_views(moves0).push(mv));
                }
            }
        }
        proof {
            assert(fork_one(st, timestamp, old_name@, new_name@) =~= (ForkState {
                rv: reg@,
                left: name_views(left@),
                remap: remap_view(remap@),
                moves: move_views(moves@),
            }));
        }
        done = done + 1;
    }
    if let Some(c) = reg.head(new_name) {
        let rewriter = ToCopy { remap: &remap };
        proof {
            assert(data::rule(rewriter) =~= to_copy(remap_view(remap@)));
        }
        let ghost moves0 = moves@;
        if let Some(m) = commit_rewritten(reg, timestamp, new_name, c, &rewriter) {
            let ghost mv = m@;
            moves.push(m);
            assert(move_views(moves@) =~= move_views(moves0).push(mv));
        }
    }
    moves
}

/// What stands in a list stands in every rearrangement of it.
pub proof fn lemma_sorted_from(s: Seq<Seq<Seq<char>>>, t: Seq<Seq<Seq<char>>>, i: int)
    requires
        s.to_multiset() == t.to_multiset(),
        0 <= i < t.len(),
    ensures
        s.contains(t[i]),
{
    broadcast use vstd::seq_lib::group_to_multiset_ensures;

    assert(t.contains(t[i]));
    assert(t.to_multiset().count(t[i]) > 0);
    assert(s.to_multiset().count(t[i]) > 0);
}

/// The names with the commit and graph that they are at.
pub type Current = Map<Seq<Seq<char>>, (CommitAddr, GraphAddr)>;

/// The names with the commit and graph that they are at, where the commit is there.
pub open spec fn current_of(rv: DataView) -> Current {
    Map::new(
        |n: Seq<Seq<char>>| rv.head_commit(crate::head::HeadView::Branch(n)) is Some,
        |n: Seq<Seq<char>>| (rv.head(n)->0, rv.commits[rv.head(n)->0].graph),
    )
}

/// References that follow their name go to the graph that it is at.
pub open spec fn following(current: Current) -> spec_fn(NamedView) -> Option<NamedView> {
    |r: NamedView|
        if r.sync && current.contains_key(r.name) && current[r.name].1 != r.graph {
            Some(NamedView { graph: current[r.name].1, ..r })
        } else {
            None
        }
}

struct Follow<'a> {
    current: &'a Table<Name, (CommitAddr, GraphAddr)>,
}

impl<'a> RefRewrite for Follow<'a> {
    closed spec fn becomes(&self, r: NamedView) -> Option<NamedView> {
        following(self.current@)(r)
    }

    fn rewrite(&self, r: &NamedRef) -> (n: Option<NamedRef>) {
        if !r.sync {
            return None;
        }
        match self.current.get(&r.name) {
            Some((_, graph)) => if graph.same(&r.graph) {
                None
            } else {
                Some(NamedRef { name: r.name.dup(), graph: *graph, sync: r.sync })
            },
            None => None,
        }
    }
}

/// The state of a resync.
#[verifier::ext_equal]
pub struct SyncState {
    pub rv: DataView,
    pub current: Current,
    pub moves: Seq<MovedView>,
}

/// Bringing the references of one named graph up to date, and whether any of them
/// changed.
pub open spec fn resync_one(st: SyncState, timestamp: Timestamp, name: Seq<Seq<char>>) -> (
    SyncState,
    bool,
) {
    if st.current.contains_key(name) {
        let (rv, m) = rewriting(
            st.rv,
            timestamp,
            name,
            st.current[name].0,
            following(st.current),
        );
        match m {
            Some(m) => (
                SyncState {
                    rv,
                    current: st.current.insert(
                        name,
                        (m.new_commit, rv.commits[m.new_commit].graph),
                    ),
                    moves: st.moves.push(m),
                },
                true,
            ),
            None => (st, false),
        }
    } else {
        (st, false)
    }
}

/// Bringing the references of the named graphs up to date, one after the other, and
/// whether any of them changed.
pub open spec fn resync_pass(st: SyncState, timestamp: Timestamp, names: Seq<Seq<Seq<char>>>) -> (
    SyncState,
    bool,
)
    decreases names.len(),
{
    if names.len() == 0 {
        (st, false)
    } else {
        let (mid, before) = resync_pass(st, timestamp, names.drop_last());
        let (after, now) = resync_one(mid, timestamp, names.last());
        (after, before || now)
    }
}

/// At most `n` passes, as long as they change anything.
pub open spec fn resync_passes(
    st: SyncState,
    timestamp: Timestamp,
    names: Seq<Seq<Seq<char>>>,
    n: nat,
) -> SyncState
    decreases n,
{
    if n == 0 {
        st
    } else {
        let (next, changed) = resync_pass(st, timestamp, names);
        if changed {
            resync_passes(next, timestamp, names, (n - 1) as nat)
        } else {
            next
        }
    }
}

/// The state that a resync starts from.
pub open spec fn resync_start(rv: DataView) -> SyncState {
    SyncState { rv, current: current_of(rv), moves: Seq::empty() }
}

/// The order in which a resync goes through the names: the deepest first, so that a
/// graph sees where the graphs nested under it have gone.
pub open spec fn resync_order(rv: DataView) -> Seq<Seq<Seq<char>>> {
    deepest_first(head_names(rv))
}

/// What becomes of the registry, and the moves, when all references that follow their
/// name are brought up to it. There is one pass more than there are names, at most.
pub open spec fn resynced(rv: DataView, timestamp: Timestamp) -> SyncState {
    resync_passes(
        resync_start(rv),
        timestamp,
        resync_order(rv),
        resync_order(rv).len() + 1,
    )
}

fn current_table(reg: &Registry<DataGraph>) -> (r: Table<Name, (CommitAddr, GraphAddr)>)
    ensures
        r@ == current_of(reg@),
{
    let heads = reg.heads();
    let ghost rv = reg@;
    let mut r: Table<Name, (CommitAddr, GraphAddr)> = Table::new();
    let mut i: usize = 0;
    while i < heads.len()
        invariant
            rv == reg@,
            rv.lists_heads(heads@),
            i <= heads@.len(),
            forall|n: Seq<Seq<char>>| #[trigger]
                r@.contains_key(n) <==> current_of(rv).contains_key(n) && exists|j: int|
                    0 <= j < i && (#[trigger] heads@[j]).0@ == n,
            forall|n: Seq<Seq<char>>| #[trigger]
                r@.contains_key(n) ==> r@[n] == current_of(rv)[n],
        decreases heads@.len() - i,
    {
        let c = heads[i].1;
        let ghost before = r@;
        let ghost name = heads@[i as int].0@;
        assert(rv.head(name) == Some(c));
        if let Some(commit) = reg.commit(&c) {
            let graph = commit.graph;
            r.insert(heads[i].0.dup(), (c, graph));
            assert(r@ == before.insert(name, (c, graph)));
        }
        proof {
            assert forall|n: Seq<Seq<char>>| #[trigger]
                r@.contains_key(n) <==> current_of(rv).contains_key(n) && exists|j: int|
                    0 <= j < i + 1 && (#[trigger] heads@[j]).0@ == n by {
                assert(heads@[i as int].0@ == name);
                if before.contains_key(n) {
                    let j = choose|j: int| 0 <= j < i && (#[trigger] heads@[j]).0@ == n;
                    assert(heads@[j].0@ == n);
                }
            }
        }
        i = i + 1;
    }
    proof {
        assert forall|n: Seq<Seq<char>>| r@.contains_key(n) == current_of(rv).contains_key(n) by {
            if current_of(rv).contains_key(n) {
                assert(rv.head(n) is Some);
                let j = choose|j: int| 0 <= j < heads@.len() && (#[trigger] heads@[j]).0@ == n;
                assert(heads@[j].0@ == n);
            }
        }
        assert(r@ =~= current_of(rv));
    }
    r
}

/// Brings every reference that follows its name up to the name's graph, and commits the
/// named graphs that this changes. Returns the names that moved.
pub fn resync(reg: &mut Registry<DataGraph>, timestamp: Timestamp) -> (r: Vec<Moved>)
    ensures
        final(reg)@ == resynced(old(reg)@, timestamp).rv,
        move_views(r@) == resynced(old(reg)@, timestamp).moves,
{
    let ghost rv0 = reg@;
    let names = registry_names(reg);
    let names = sort_by_depth(names);
    let ghost nv = name_views(names@);
    let mut current = current_table(reg);
    let mut moves: Vec<Moved> = Vec::new();
    let ghost goal = resynced(rv0, timestamp);
    let total: usize = names.len();
    let mut left: usize = total;
    let mut go = true;
    proof {
        assert(nv == resync_order(rv0));
        assert(nv.len() == total);
        assert(move_views(moves@) =~= resync_start(rv0).moves);
    }
    while go
        invariant
            nv == name_views(names@),
            go ==> resync_passes(
                (SyncState { rv: reg@, current: current@, moves: move_views(moves@) }),
                timestamp,
                nv,
                (left + 1) as nat,
            ) == goal,
            !go ==> goal == (SyncState { rv: reg@, current: current@, moves: move_views(moves@) }),
        decreases left, go as int,
    {
        let ghost st = SyncState { rv: reg@, current: current@, moves: move_views(moves@) };
        let mut changed = false;
        let mut i: usize = 0;
        assert(nv.take(0) =~= Seq::empty());
        while i < names.len()
            invariant
                nv == name_views(names@),
                i <= names@.len(),
                resync_pass(st, timestamp, nv.take(i as int)) == (
                    (SyncState { rv: reg@, current: current@, moves: move_views(moves@) }),
                    changed,
                ),
            decreases names@.len() - i,
        {
            let name = &names[i];
            let ghost mid = SyncState {
                rv: reg@,
                current: current@,
                moves: move_views(moves@),
            };
            let ghost moves0 = moves@;
            let ghost current0 = current@;
            proof {
                assert(nv.take(i + 1).drop_last() =~= nv.take(i as int));
                assert(nv.take(i + 1).last() == name@);
            }
            let at = match current.get(name) {
                Some((c, _)) => Some(*c),
                None => None,
            };
            if let Some(c) = at {
                let rewriter = Follow { current: &current };
                proof {
                    assert(data::rule(rewriter) =~= following(current@));
                }
                let moved = commit_rewritten(reg, timestamp, name, c, &rewriter);
                if let Some(m) = moved {
                    let ghost mv = m@;
                    let graph = match reg.commit(&m.new_commit) {
                        Some(commit) => commit.graph,
                        None => GraphAddr(c.0),
                    };
                    current.insert(name.dup(), (m.new_commit, graph));
                    moves.push(m);
                    changed = true;
                    proof {
                        assert(move_views(moves@) =~= move_views(moves0).push(mv));
                        assert(reg@.commits.contains_key(mv.new_commit));
                        assert(resync_one(mid, timestamp, name@).0 =~= (SyncState {
                            rv: reg@,
                            current: current@,
                            moves: move_views(moves@),
                        }));
                    }
                }
            }
            i = i + 1;
        }
        assert(nv.take(i as int) =~= nv);
        if !changed || left == 0 {
            go = false;
        } else {
            left = left - 1;
        }
        proof {
            let here = SyncState { rv: reg@, current: current@, moves: move_views(moves@) };
            assert(resync_passes(here, timestamp, nv, 0) == here);
        }
    }
    moves
}

/// References to the promoted graph go to its new name.
pub open spec fn to_promoted(
    old: Seq<Seq<char>>,
    new: Seq<Seq<char>>,
    graph: GraphAddr,
) -> spec_fn(NamedView) -> Option<NamedView> {
    |r: NamedView|
        if r.name == old {
            Some(NamedView { name: new, graph, ..r })
        } else {
            None
        }
}

struct ToPromoted<'a> {
    old_name: &'a Name,
    new_name: &'a Name,
    graph: GraphAddr,
}

impl<'a> RefRewrite for ToPromoted<'a> {
    closed spec fn becomes(&self, r: NamedView) -> Option<NamedView> {
        to_promoted(self.old_name@, self.new_name@, self.graph)(r)
    }

    fn rewrite(&self, r: &NamedRef) -> (n: Option<NamedRef>) {
        if r.name.same(self.old_name) {
            Some(r.renamed(self.new_name, self.graph))
        } else {
            None
        }
    }
}

/// The listed names at or under another.
pub open spec fn at_or_under(names: Seq<Seq<Seq<char>>>, of: Seq<Seq<char>>) -> Seq<Seq<Seq<char>>>
    decreases names.len(),
{
    if names.len() == 0 {
        Seq::empty()
    } else {
        let init = at_or_under(names.drop_last(), of);
        if of.is_prefix_of(names.last()) {
            init.push(names.last())
        } else {
            init
        }
    }
}

/// With the listed lines of history gone.
pub open spec fn without_heads(rv: DataView, names: Seq<Seq<Seq<char>>>) -> DataView
    decreases names.len(),
{
    if names.len() == 0 {
        rv
    } else {
        without_heads(rv, names.drop_last()).without_head(names.last())
    }
}

/// What becomes of the registry, and the moves, when a nested graph has become a root:
/// its parent refers to the root, and the nested name and all beneath it go. Nothing
/// happens where the name is not nested, or the root or the parent is not there.
pub open spec fn promoted(
    rv: DataView,
    timestamp: Timestamp,
    old: Seq<Seq<char>>,
    new: Seq<Seq<char>>,
) -> (DataView, Seq<MovedView>) {
    if old.len() > 1 && rv.head_commit(crate::head::HeadView::Branch(new)) is Some && rv.head(
        old.drop_last(),
    ) is Some {
        let graph = rv.head_commit(crate::head::HeadView::Branch(new))->0.graph;
        let parent = old.drop_last();
        let (mid, m) = rewriting(
            rv,
            timestamp,
            parent,
            rv.head(parent)->0,
            to_promoted(old, new, graph),
        );
        (
            without_heads(mid, at_or_under(head_names(mid), old)),
            match m {
                Some(m) => seq![m],
                None => Seq::empty(),
            },
        )
    } else {
        (rv, Seq::empty())
    }
}

/// Makes a nested graph, of which there is a copy under a root name, that root: its
/// parent's references go to the root, and the nested name goes, and all beneath it.
/// Returns the parent's move, if it moved.
pub fn promote_nested(
    reg: &mut Registry<DataGraph>,
    timestamp: Timestamp,
    old_nested: &Name,
    new_name: &Name,
) -> (r: Vec<Moved>)
    ensures
        (final(reg)@, move_views(r@)) == promoted(
            old(reg)@,
            timestamp,
            old_nested@,
            new_name@,
        ),
{
    let mut moves: Vec<Moved> = Vec::new();
    assert(move_views(moves@) =~= Seq::<MovedView>::empty());
    let parent = match old_nested.parent() {
        Some(p) => p,
        None => {
            return moves;
        },
    };
    let new_head = crate::head::Head::Branch(new_name.dup());
    let graph = match reg.head_commit(&new_head) {
        Some(c) => c.graph,
        None => {
            return moves;
        },
    };
    let parent_commit = match reg.head(&parent) {
        Some(c) => c,
        None => {
            return moves;
        },
    };
    let rewriter = ToPromoted { old_name: old_nested, new_name, graph };
    proof {
        assert(data::rule(rewriter) =~= to_promoted(old_nested@, new_name@, graph));
    }
    if let Some(m) = commit_rewritten(reg, timestamp, &parent, parent_commit, &rewriter) {
        let ghost mv = m@;
        moves.push(m);
        assert(move_views(moves@) =~= seq![mv]);
    }
    let ghost mid = reg@;
    let names = registry_names(reg);
    let ghost nv = name_views(names@);
    let ghost gone = at_or_under(nv, old_nested@);
    let mut i: usize = 0;
    proof {
        assert(nv.take(0) =~= Seq::empty());
        assert(at_or_under(nv.take(0), old_nested@) =~= Seq::empty());
    }
    while i < names.len()
        invariant
            nv == name_views(names@),
            i <= names@.len(),
            reg@ == without_heads(mid, at_or_under(nv.take(i as int), old_nested@)),
        decreases names@.len() - i,
    {
        proof {
            assert(nv.take(i + 1).drop_last() =~= nv.take(i as int));
            assert(nv.take(i + 1).last() == names@[i as int]@);
        }
        if names[i].starts_with(old_nested) {
            reg.remove_head(&names[i]);
            proof {
                let a = at_or_under(nv.take(i as int), old_nested@);
                let b = at_or_under(nv.take(i + 1), old_nested@);
                assert(b.drop_last() =~= a);
            }
        }
        i = i + 1;
    }
    assert(nv.take(i as int) =~= nv);
    moves
}

/// Committing a graph on a line of history moves that line's head alone.
pub proof fn lemma_with_graph_on(
    rv: DataView,
    timestamp: Timestamp,
    a: GraphAddr,
    g: GraphView<NodeView>,
    name: Seq<Seq<char>>,
    n: Seq<Seq<char>>,
)
    ensures
        rv.with_graph_on(timestamp, a, g, name).head(n) == (if n == name {
            Some(rv.next_addr(timestamp, a, name))
        } else {
            rv.head(n)
        }),
{
}

/// Whether no named graph has a reference that follows its name and is not at it.
pub open spec fn settled(st: SyncState, names: Seq<Seq<Seq<char>>>) -> bool {
    forall|i: int|
        0 <= i < names.len() && st.current.contains_key(#[trigger] names[i]) ==> match graph_of(
            st.rv,
            st.current[names[i]].0,
        ) {
            Some(g) => !data::changes(g, following(st.current)),
            None => true,
        }
}

/// A pass that changes nothing leaves all as it is, and does so just where all is settled.
pub proof fn lemma_quiet_pass(st: SyncState, timestamp: Timestamp, names: Seq<Seq<Seq<char>>>)
    ensures
        !resync_pass(st, timestamp, names).1 ==> resync_pass(st, timestamp, names).0 == st
            && settled(st, names),
        settled(st, names) ==> resync_pass(st, timestamp, names) == (st, false),
    decreases names.len(),
{
    if names.len() > 0 {
        let init = names.drop_last();
        lemma_quiet_pass(st, timestamp, init);
        let last = names.last();
        assert(names[names.len() - 1] == last);
        if !resync_pass(st, timestamp, names).1 {
            assert forall|i: int|
                0 <= i < names.len() && st.current.contains_key(#[trigger] names[i]) implies match graph_of(
                st.rv,
                st.current[names[i]].0,
            ) {
                Some(g) => !data::changes(g, following(st.current)),
                None => true,
            } by {
                if i < init.len() {
                    assert(init[i] == names[i]);
                }
            }
        }
        if settled(st, names) {
            assert forall|i: int|
                0 <= i < init.len() && st.current.contains_key(#[trigger] init[i]) implies match graph_of(
                st.rv,
                st.current[init[i]].0,
            ) {
                Some(g) => !data::changes(g, following(st.current)),
                None => true,
            } by {
                assert(init[i] == names[i]);
            }
            assert(settled(st, init));
        }
    }
}

/// A registry in which every reference that follows its name is at it stays as it is:
/// nothing moves.
pub proof fn law_resync_of_settled_moves_nothing(rv: DataView, timestamp: Timestamp)
    requires
        settled(resync_start(rv), resync_order(rv)),
    ensures
        resynced(rv, timestamp).rv == rv,
        resynced(rv, timestamp).moves.len() == 0,
{
    lemma_quiet_pass(resync_start(rv), timestamp, resync_order(rv));
}

/// A resync ends with every reference that follows its name at it, unless it runs out of
/// passes: whenever a pass changes nothing, all are.
pub proof fn law_resync_settles(
    st: SyncState,
    timestamp: Timestamp,
    names: Seq<Seq<Seq<char>>>,
    n: nat,
)
    ensures
        settled(resync_passes(st, timestamp, names, n), names) || all_change(
            st,
            timestamp,
            names,
            n,
        ),
    decreases n,
{
    if n > 0 {
        let (next, changed) = resync_pass(st, timestamp, names);
        lemma_quiet_pass(st, timestamp, names);
        if changed {
            law_resync_settles(next, timestamp, names, (n - 1) as nat);
        }
    }
}

/// Whether each of `n` passes changes something.
pub open spec fn all_change(
    st: SyncState,
    timestamp: Timestamp,
    names: Seq<Seq<Seq<char>>>,
    n: nat,
) -> bool
    decreases n,
{
    n == 0 || (resync_pass(st, timestamp, names).1 && all_change(
        resync_pass(st, timestamp, names).0,
        timestamp,
        names,
        (n - 1) as nat,
    ))
}

/// Whether the moves name every name whose head is not what it was.
pub open spec fn accounts(moves: Seq<MovedView>, before: DataView, after: DataView) -> bool {
    forall|n: Seq<Seq<char>>| #[trigger]
        after.head(n) != before.head(n) ==> exists|i: int|
            0 <= i < moves.len() && (#[trigger] moves[i]).name == n
}

proof fn lemma_one_accounts(
    st: SyncState,
    timestamp: Timestamp,
    name: Seq<Seq<char>>,
    before: DataView,
)
    requires
        accounts(st.moves, before, st.rv),
    ensures
        accounts(resync_one(st, timestamp, name).0.moves, before, resync_one(st, timestamp, name).0.rv),
{
    let (next, changed) = resync_one(st, timestamp, name);
    if changed {
        let g = graph_of(st.rv, st.current[name].0)->0;
        let h = data::rewritten(g, following(st.current));
        assert forall|n: Seq<Seq<char>>| #[trigger] next.rv.head(n) != before.head(n) implies exists|
            i: int,
        |
            0 <= i < next.moves.len() && (#[trigger] next.moves[i]).name == n by {
            lemma_with_graph_on(st.rv, timestamp, data::data_addr(h), h, name, n);
            if n == name {
                assert(next.moves[st.moves.len() as int].name == n);
            } else {
                assert(st.rv.head(n) != before.head(n));
                let i = choose|i: int|
                    0 <= i < st.moves.len() && (#[trigger] st.moves[i]).name == n;
                assert(next.moves[i] == st.moves[i]);
            }
        }
    }
}

proof fn lemma_pass_accounts(
    st: SyncState,
    timestamp: Timestamp,
    names: Seq<Seq<Seq<char>>>,
    before: DataView,
)
    requires
        accounts(st.moves, before, st.rv),
    ensures
        accounts(
            resync_pass(st, timestamp, names).0.moves,
            before,
            resync_pass(st, timestamp, names).0.rv,
        ),
    decreases names.len(),
{
    if names.len() > 0 {
        lemma_pass_accounts(st, timestamp, names.drop_last(), before);
        let mid = resync_pass(st, timestamp, names.drop_last()).0;
        lemma_one_accounts(mid, timestamp, names.last(), before);
    }
}

proof fn lemma_passes_account(
    st: SyncState,
    timestamp: Timestamp,
    names: Seq<Seq<Seq<char>>>,
    n: nat,
    before: DataView,
)
    requires
        accounts(st.moves, before, st.rv),
    ensures
        accounts(
            resync_passes(st, timestamp, names, n).moves,
            before,
            resync_passes(st, timestamp, names, n).rv,
        ),
    decreases n,
{
    if n > 0 {
        lemma_pass_accounts(st, timestamp, names, before);
        let (next, changed) = resync_pass(st, timestamp, names);
        if changed {
            lemma_passes_account(next, timestamp, names, (n - 1) as nat, before);
        }
    }
}

/// A resync reports every name that it moves.
pub proof fn law_resync_reports_what_moves(rv: DataView, timestamp: Timestamp)
    ensures
        accounts(resynced(rv, timestamp).moves, rv, resynced(rv, timestamp).rv),
{
    lemma_passes_account(
        resync_start(rv),
        timestamp,
        resync_order(rv),
        resync_order(rv).len() + 1,
        rv,
    );
}

/// Which lines of history are left once some are gone.
pub proof fn lemma_without_heads(rv: DataView, names: Seq<Seq<Seq<char>>>, n: Seq<Seq<char>>)
    ensures
        without_heads(rv, names).head(n) == (if names.contains(n) {
            None
        } else {
            rv.head(n)
        }),
    decreases names.len(),
{
    if names.len() > 0 {
        let init = names.drop_last();
        lemma_without_heads(rv, init, n);
        let last = names.last();
        if names.contains(n) {
            let i = choose|i: int| 0 <= i < names.len() && names[i] == n;
            if i < init.len() {
                assert(init[i] == n);
                assert(init.contains(n));
            }
        }
        if init.contains(n) {
            let i = choose|i: int| 0 <= i < init.len() && init[i] == n;
            assert(names[i] == n);
        }
        assert(names[names.len() - 1] == last);
    }
}

/// The names at or under another are the listed names that it is a prefix of.
pub proof fn lemma_at_or_under(names: Seq<Seq<Seq<char>>>, of: Seq<Seq<char>>, n: Seq<Seq<char>>)
    ensures
        at_or_under(names, of).contains(n) <==> names.contains(n) && of.is_prefix_of(n),
    decreases names.len(),
{
    if names.len() > 0 {
        let init = names.drop_last();
        lemma_at_or_under(init, of, n);
        let all = at_or_under(names, of);
        let before = at_or_under(init, of);
        if all.contains(n) {
            let i = choose|i: int| 0 <= i < all.len() && all[i] == n;
            if i < before.len() {
                assert(before[i] == n);
                assert(before.contains(n));
                let j = choose|j: int| 0 <= j < init.len() && init[j] == n;
                assert(names[j] == n);
            } else {
                assert(names[names.len() - 1] == n);
            }
        }
        if names.contains(n) && of.is_prefix_of(n) {
            let j = choose|j: int| 0 <= j < names.len() && names[j] == n;
            if j < init.len() {
                assert(init[j] == n);
                assert(init.contains(n));
                let i = choose|i: int| 0 <= i < before.len() && before[i] == n;
                assert(all[i] == n);
            } else {
                assert(all[all.len() - 1] == n);
            }
        }
    }
}

/// Once a nested graph is promoted, its nested name and all names beneath it are gone.
pub proof fn law_promoted_name_is_gone(
    rv: DataView,
    timestamp: Timestamp,
    old: Seq<Seq<char>>,
    new: Seq<Seq<char>>,
    n: Seq<Seq<char>>,
)
    requires
        old.len() > 1,
        rv.head_commit(crate::head::HeadView::Branch(new)) is Some,
        rv.head(old.drop_last()) is Some,
        heads_map(rv).dom().finite(),
        old.is_prefix_of(n),
    ensures
        promoted(rv, timestamp, old, new).0.head(n) is None,
{
    let graph = rv.head_commit(crate::head::HeadView::Branch(new))->0.graph;
    let parent = old.drop_last();
    let f = to_promoted(old, new, graph);
    let (mid, m) = rewriting(rv, timestamp, parent, rv.head(parent)->0, f);
    let names = head_names(mid);
    let gone = at_or_under(names, old);
    lemma_without_heads(mid, gone, n);
    if mid.head(n) is Some {
        assert(heads_map(mid).contains_key(n));
        assert(heads_map(mid).dom().finite()) by {
            lemma_rewriting_heads(rv, timestamp, parent, rv.head(parent)->0, f);
            assert(heads_map(mid).dom() =~= heads_map(rv).dom().insert(parent)) by {
                assert forall|k: Seq<Seq<char>>| heads_map(mid).dom().contains(k) == heads_map(
                    rv,
                ).dom().insert(parent).contains(k) by {
                    assert(mid.head(k) is Some <==> rv.head(k) is Some || k == parent);
                }
            }
        }
        table::lemma_keys_of::<Name, CommitAddr>(heads_map(mid));
        assert(names.contains(n));
        lemma_at_or_under(names, old, n);
    }
}

proof fn lemma_rewriting_heads(
    rv: DataView,
    timestamp: Timestamp,
    name: Seq<Seq<char>>,
    source: CommitAddr,
    f: spec_fn(NamedView) -> Option<NamedView>,
)
    requires
        rv.head(name) is Some,
    ensures
        forall|k: Seq<Seq<char>>|
            (#[trigger] rewriting(rv, timestamp, name, source, f).0.head(k)) is Some <==> rv.head(
                k,
            ) is Some || k == name,
{
    let after = rewriting(rv, timestamp, name, source, f).0;
    assert forall|k: Seq<Seq<char>>| (#[trigger] after.head(k)) is Some <==> rv.head(k) is Some || k
        == name by {
        if graph_of(rv, source) is Some && data::changes(graph_of(rv, source)->0, f) {
            let h = data::rewritten(graph_of(rv, source)->0, f);
            lemma_with_graph_on(rv, timestamp, data::data_addr(h), h, name, k);
        }
    }
}

} // verus!
