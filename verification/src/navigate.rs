//! Which node is which when a head moves through history.
//!
//! Along a line of first parents, identity is followed from commit to commit, so that a
//! node keeps its state though its index changes. Between commits on no common line,
//! nodes are paired by content alone.

use crate::addr::ContentAddr;
use crate::commit::CommitAddr;
use crate::data::{self, DataGraph};
use crate::hash;
use crate::order::Key;
use crate::registry::Registry;
use crate::set::KeySet;
use crate::sync::DataView;
use crate::table::{self, Table};
use vstd::prelude::*;

verus! {

/// Pairs of old and new node indices.
pub type Matching = Table<usize, usize>;

/// The commit that `c` follows first.
pub open spec fn first_parent(rv: DataView, c: CommitAddr) -> Option<CommitAddr> {
    if rv.commits.contains_key(c) {
        rv.commits[c].parent
    } else {
        None
    }
}

/// Whether `s` runs from `c` over first parents to `a`, and meets `a` at its end only.
pub open spec fn is_chain(rv: DataView, s: Seq<CommitAddr>, c: CommitAddr, a: CommitAddr) -> bool {
    &&& s.len() >= 1
    &&& s[0] == c
    &&& s.last() == a
    &&& forall|i: int|
        0 <= i < s.len() - 1 ==> (#[trigger] s[i]) != a && first_parent(rv, s[i]) == Some(s[i + 1])
}

/// Whether `c` descends from `a` over first parents, or is `a`.
pub open spec fn descends(rv: DataView, c: CommitAddr, a: CommitAddr) -> bool {
    exists|s: Seq<CommitAddr>| is_chain(rv, s, c, a)
}

/// The chain from `c` to `a`.
pub open spec fn chain_of(rv: DataView, c: CommitAddr, a: CommitAddr) -> Seq<CommitAddr> {
    choose|s: Seq<CommitAddr>| is_chain(rv, s, c, a)
}

proof fn lemma_chain_unique(
    rv: DataView,
    s: Seq<CommitAddr>,
    t: Seq<CommitAddr>,
    c: CommitAddr,
    a: CommitAddr,
)
    requires
        is_chain(rv, s, c, a),
        is_chain(rv, t, c, a),
    ensures
        s == t,
{
    lemma_chain_agrees(rv, s, t, c, a, s.len() as int - 1);
    lemma_chain_agrees(rv, t, s, c, a, t.len() as int - 1);
    assert forall|i: int| 0 <= i < s.len() implies s[i] == t[i] by {
        lemma_chain_agrees(rv, s, t, c, a, i);
    }
    assert(s =~= t);
}

proof fn lemma_chain_agrees(
    rv: DataView,
    s: Seq<CommitAddr>,
    t: Seq<CommitAddr>,
    c: CommitAddr,
    a: CommitAddr,
    n: int,
)
    requires
        is_chain(rv, s, c, a),
        is_chain(rv, t, c, a),
        0 <= n < s.len(),
    ensures
        n < t.len(),
        s[n] == t[n],
    decreases n,
{
    if n > 0 {
        lemma_chain_agrees(rv, s, t, c, a, n - 1);
        assert(s[n - 1] != a);
        assert(n - 1 < t.len() - 1);
        assert(first_parent(rv, t[n - 1]) == Some(t[n - 1 + 1]));
    }
}

/// The first commits of a chain, as far as the walk has come, without `a`.
spec fn is_walk(rv: DataView, s: Seq<CommitAddr>, c: CommitAddr, a: CommitAddr) -> bool {
    &&& s.len() >= 1
    &&& s[0] == c
    &&& forall|i: int| 0 <= i < s.len() ==> (#[trigger] s[i]) != a
    &&& forall|i: int| 0 <= i < s.len() - 1 ==> first_parent(rv, #[trigger] s[i]) == Some(s[i + 1])
}

/// Where a walk without `a` comes back to itself or ends, no chain leads to `a`.
proof fn lemma_no_chain(
    rv: DataView,
    s: Seq<CommitAddr>,
    c: CommitAddr,
    a: CommitAddr,
)
    requires
        is_walk(rv, s, c, a),
        first_parent(rv, s.last()) matches Some(p) ==> s.contains(p),
    ensures
        !descends(rv, c, a),
{
    if descends(rv, c, a) {
        let t = chain_of(rv, c, a);
        lemma_chain_stays(rv, s, c, a, t, t.len() as int - 1);
        let i = s.index_of(t[t.len() - 1]);
        assert(s[i] == a);
    }
}

proof fn lemma_chain_stays(
    rv: DataView,
    s: Seq<CommitAddr>,
    c: CommitAddr,
    a: CommitAddr,
    t: Seq<CommitAddr>,
    n: int,
)
    requires
        is_walk(rv, s, c, a),
        first_parent(rv, s.last()) matches Some(p) ==> s.contains(p),
        is_chain(rv, t, c, a),
        0 <= n < t.len(),
    ensures
        s.contains(t[n]),
    decreases n,
{
    if n > 0 {
        lemma_chain_stays(rv, s, c, a, t, n - 1);
        let i = s.index_of(t[n - 1]);
        assert(s[i] == t[n - 1]);
        assert(first_parent(rv, t[n - 1]) == Some(t[n - 1 + 1]));
        if i < s.len() - 1 {
            assert(first_parent(rv, s[i]) == Some(s[i + 1]));
            assert(s[i + 1] == t[n]);
        } else {
            assert(s[i] == s.last());
        }
    } else {
        assert(s[0] == t[0]);
    }
}

/// The chain from `c` over first parents to `a`, if there is one.
pub fn first_parent_chain_to(reg: &Registry<DataGraph>, c: CommitAddr, a: CommitAddr) -> (r: Option<
    Vec<CommitAddr>,
>)
    ensures
        match r {
            Some(s) => is_chain(reg@, s@, c, a),
            None => !descends(reg@, c, a),
        },
{
    let ghost rv = reg@;
    let total: usize = reg.commits.len();
    proof {
        assert(rv.commits.dom() =~= reg.commits@.dom());
    }
    let mut s: Vec<CommitAddr> = vec![c];
    if c.same(&a) {
        return Some(s);
    }
    let mut at: CommitAddr = c;
    let mut seen: KeySet<CommitAddr> = KeySet::new();
    loop
        invariant
            rv == reg@,
            rv.commits.dom().finite(),
            total == rv.commits.dom().len(),
            is_walk(rv, s@, c, a),
            s@.last() == at,
            seen@.subset_of(rv.commits.dom()),
            forall|x: CommitAddr| #[trigger] seen@.contains(x) ==> s@.contains(x),
            !seen@.contains(at),
        decreases total - seen@.len(),
    {
        let ghost walked = s@;
        proof {
            vstd::set_lib::lemma_len_subset(seen@, rv.commits.dom());
        }
        let parent = match reg.commit(&at) {
            Some(commit) => commit.parent,
            None => None,
        };
        match parent {
            None => {
                proof {
                    lemma_no_chain(rv, walked, c, a);
                }
                return None;
            },
            Some(p) => {
                let ghost before = seen@;
                let _ = seen.insert(at);
                proof {
                    assert(seen@ =~= before.insert(at));
                    assert(walked[walked.len() - 1] == at);
                    vstd::set_lib::lemma_len_subset(seen@, rv.commits.dom());
                }
                if p.same(&a) {
                    s.push(p);
                    proof {
                        assert forall|i: int| 0 <= i < s@.len() - 1 implies (#[trigger] s@[i]) != a
                            && first_parent(rv, s@[i]) == Some(s@[i + 1]) by {
                            assert(s@[i] == walked[i]);
                            if i < walked.len() - 1 {
                                assert(first_parent(rv, walked[i]) == Some(walked[i + 1]));
                            }
                        }
                    }
                    return Some(s);
                }
                if seen.contains(&p) {
                    proof {
                        assert(walked.contains(p));
                        lemma_no_chain(rv, walked, c, a);
                    }
                    return None;
                }
                s.push(p);
                at = p;
                proof {
                    assert forall|i: int| 0 <= i < s@.len() implies (#[trigger] s@[i]) != a by {
                        if i < walked.len() {
                            assert(s@[i] == walked[i]);
                        }
                    }
                    assert forall|i: int| 0 <= i < s@.len() - 1 implies first_parent(
                        rv,
                        #[trigger] s@[i],
                    ) == Some(s@[i + 1]) by {
                        assert(s@[i] == walked[i]);
                        if i < walked.len() - 1 {
                            assert(first_parent(rv, walked[i]) == Some(walked[i + 1]));
                        }
                    }
                    assert forall|x: CommitAddr| #[trigger] seen@.contains(x) implies s@.contains(
                        x,
                    ) by {
                        assert(walked.contains(x));
                        let i = walked.index_of(x);
                        assert(s@[i] == x);
                    }
                }
            },
        }
    }
}

/// The content of the nodes of a commit's graph, where the registry has it.
pub open spec fn contents_at(rv: DataView, c: CommitAddr) -> Option<Seq<Option<ContentAddr>>> {
    if rv.commits.contains_key(c) && rv.graphs.contains_key(rv.commits[c].graph) {
        Some(data::view_addrs(rv.graphs[rv.commits[c].graph].nodes))
    } else {
        None
    }
}

/// The first node at or behind `j` with the given content that `m` pairs with none.
pub open spec fn free_at(
    to: Seq<Option<ContentAddr>>,
    a: ContentAddr,
    m: Map<usize, usize>,
    j: int,
) -> Option<usize>
    decreases to.len() - j,
{
    if j < 0 || j >= to.len() {
        None
    } else if to[j] == Some(a) && !m.contains_value(j as usize) {
        Some(j as usize)
    } else {
        free_at(to, a, m, j + 1)
    }
}

/// Nodes paired by content: in order, each with the first of its kind that is left.
pub open spec fn matched(from: Seq<Option<ContentAddr>>, to: Seq<Option<ContentAddr>>) -> Map<
    usize,
    usize,
>
    decreases from.len(),
{
    if from.len() == 0 {
        Map::empty()
    } else {
        let init = matched(from.drop_last(), to);
        match from.last() {
            Some(a) => match free_at(to, a, init, 0) {
                Some(j) => init.insert((from.len() - 1) as usize, j),
                None => init,
            },
            None => init,
        }
    }
}

/// Whether no two pairs share their new node.
pub open spec fn injective(m: Map<usize, usize>) -> bool {
    forall|a: usize, b: usize| #[trigger]
        m.contains_key(a) && #[trigger] m.contains_key(b) && m[a] == m[b] ==> a == b
}

proof fn lemma_free(to: Seq<Option<ContentAddr>>, a: ContentAddr, m: Map<usize, usize>, j: int)
    requires
        0 <= j <= to.len() <= usize::MAX,
    ensures
        match free_at(to, a, m, j) {
            Some(k) => j <= k < to.len() && to[k as int] == Some(a) && !m.contains_value(k)
                && forall|i: int|
                j <= i < k ==> !((#[trigger] to[i]) == Some(a) && !m.contains_value(i as usize)),
            None => forall|i: int|
                j <= i < to.len() ==> !((#[trigger] to[i]) == Some(a) && !m.contains_value(
                    i as usize,
                )),
        },
    decreases to.len() - j,
{
    if j < to.len() && !(to[j] == Some(a) && !m.contains_value(j as usize)) {
        lemma_free(to, a, m, j + 1);
    }
}

/// Paired nodes have the same content, no node is in two pairs, and of the nodes that
/// are left over no old one has the content of a new one.
pub proof fn law_matched_nodes_are_alike(
    from: Seq<Option<ContentAddr>>,
    to: Seq<Option<ContentAddr>>,
)
    requires
        from.len() <= usize::MAX,
        to.len() <= usize::MAX,
    ensures
        injective(matched(from, to)),
        forall|k: usize| #[trigger]
            matched(from, to).contains_key(k) ==> k < from.len() && matched(from, to)[k] < to.len()
                && from[k as int] is Some && from[k as int] == to[matched(from, to)[k] as int],
        forall|k: usize, j: usize|
            k < from.len() && j < to.len() && (#[trigger] from[k as int]) is Some
                && from[k as int] == (#[trigger] to[j as int]) ==> matched(from, to).contains_key(k)
                || matched(from, to).contains_value(j),
    decreases from.len(),
{
    let m = matched(from, to);
    if from.len() > 0 {
        let init = matched(from.drop_last(), to);
        law_matched_nodes_are_alike(from.drop_last(), to);
        let n = (from.len() - 1) as usize;
        assert(!init.contains_key(n));
        if let Some(a) = from.last() {
            lemma_free(to, a, init, 0);
        }
        assert forall|j: usize| #[trigger] init.contains_value(j) implies m.contains_value(j) by {
            let k = choose|k: usize| #[trigger] init.contains_key(k) && init[k] == j;
            assert(m.contains_key(k) && m[k] == j);
        }
        assert forall|k: usize| #[trigger] m.contains_key(k) implies k < from.len() && m[k]
            < to.len() && from[k as int] is Some && from[k as int] == to[m[k] as int] by {
            if k != n {
                assert(init.contains_key(k));
                assert(from.drop_last()[k as int] == from[k as int]);
            }
        }
        assert forall|a: usize, b: usize| #[trigger]
            m.contains_key(a) && #[trigger] m.contains_key(b) && m[a] == m[b] implies a == b by {
            if a != n && b != n {
                assert(init.contains_key(a) && init.contains_key(b));
            } else if a == n && b != n {
                assert(init.contains_key(b));
                assert(init.contains_value(init[b]));
            } else if b == n && a != n {
                assert(init.contains_key(a));
                assert(init.contains_value(init[a]));
            }
        }
        assert forall|k: usize, j: usize|
            k < from.len() && j < to.len() && (#[trigger] from[k as int]) is Some && from[k as int]
                == (#[trigger] to[j as int]) implies m.contains_key(k) || m.contains_value(j) by {
            if k != n {
                assert(from.drop_last()[k as int] == from[k as int]);
                assert(init.contains_key(k) || init.contains_value(j));
            } else if !m.contains_key(n) {
                assert(free_at(to, from.last()->0, init, 0) is None);
                assert(to[j as int] == Some(from.last()->0));
                assert(init.contains_value(j as int as usize));
            }
        }
    }
}

/// The nodes of a graph, each paired with itself.
pub open spec fn identity(s: Seq<Option<ContentAddr>>) -> Map<usize, usize> {
    Map::new(|k: usize| k < s.len() && s[k as int] is Some, |k: usize| k)
}

proof fn lemma_identity(s: Seq<Option<ContentAddr>>, n: int)
    requires
        0 <= n <= s.len() <= usize::MAX,
    ensures
        matched(s.take(n), s) == identity(s.take(n)),
    decreases n,
{
    let t = s.take(n);
    let m = matched(t, s);
    if n > 0 {
        lemma_identity(s, n - 1);
        let u = s.take(n - 1);
        assert(t.drop_last() =~= u);
        let init = matched(u, s);
        match t.last() {
            Some(a) => {
                lemma_free(s, a, init, 0);
                let last = (n - 1) as usize;
                if init.contains_value(last) {
                    let k = choose|k: usize| #[trigger] init.contains_key(k) && init[k] == last;
                    assert(false);
                }
                assert(s[last as int] == Some(a));
                let j = free_at(s, a, init, 0);
                assert(j is Some) by {
                    if j is None {
                        assert(!(s[last as int] == Some(a) && !init.contains_value(
                            last as int as usize,
                        )));
                    }
                }
                if j->0 < last {
                    assert(u[j->0 as int] == s[j->0 as int]);
                    assert(init.contains_key(j->0) && init[j->0] == j->0);
                    assert(init.contains_value(j->0));
                    assert(false);
                }
                if j->0 > last {
                    assert(!(s[last as int] == Some(a) && !init.contains_value(
                        last as int as usize,
                    )));
                }
                assert(j == Some(last));
                assert(m =~= identity(t)) by {
                    assert forall|k: usize| m.contains_key(k) == identity(t).contains_key(k) by {
                        if k < n - 1 {
                            assert(u[k as int] == t[k as int]);
                        }
                    }
                }
            },
            None => {
                assert(m =~= identity(t)) by {
                    assert forall|k: usize| m.contains_key(k) == identity(t).contains_key(k) by {
                        if k < n - 1 {
                            assert(u[k as int] == t[k as int]);
                        }
                    }
                }
            },
        }
    } else {
        assert(m =~= identity(t));
    }
}

/// A graph matched with itself pairs every node with itself.
pub proof fn law_graph_matches_itself(s: Seq<Option<ContentAddr>>)
    requires
        s.len() <= usize::MAX,
    ensures
        matched(s, s) == identity(s),
{
    lemma_identity(s, s.len() as int);
    assert(s.take(s.len() as int) =~= s);
}

/// One matching after the other.
pub open spec fn composed(m: Map<usize, usize>, n: Map<usize, usize>) -> Map<usize, usize> {
    Map::new(|k: usize| m.contains_key(k) && n.contains_key(m[k]), |k: usize| n[m[k]])
}

/// A matching the other way round.
pub open spec fn inverted(m: Map<usize, usize>) -> Map<usize, usize> {
    Map::new(
        |j: usize| m.contains_value(j),
        |j: usize| choose|k: usize| #[trigger] m.contains_key(k) && m[k] == j,
    )
}

/// The contents at the first commit of `s` whose graph is there.
pub open spec fn latest(rv: DataView, s: Seq<CommitAddr>) -> Seq<Option<ContentAddr>>
    decreases s.len(),
{
    if s.len() == 0 {
        Seq::empty()
    } else {
        match contents_at(rv, s[0]) {
            Some(c) => c,
            None => latest(rv, s.skip(1)),
        }
    }
}

/// Which node of the last commit of `s` is which of the first: followed from commit to
/// commit, past those whose graph is not there.
pub open spec fn followed(rv: DataView, s: Seq<CommitAddr>) -> Map<usize, usize>
    decreases s.len(),
{
    if s.len() <= 1 {
        identity(latest(rv, s))
    } else {
        let rest = s.skip(1);
        match contents_at(rv, s[0]) {
            Some(c) => composed(followed(rv, rest), matched(latest(rv, rest), c)),
            None => followed(rv, rest),
        }
    }
}

/// Which node is which when a head moves from one commit to another.
pub open spec fn navigation(rv: DataView, from: CommitAddr, to: CommitAddr) -> Option<
    Map<usize, usize>,
> {
    match (contents_at(rv, from), contents_at(rv, to)) {
        (Some(a), Some(b)) => Some(
            if descends(rv, to, from) {
                followed(rv, chain_of(rv, to, from))
            } else if descends(rv, from, to) {
                inverted(followed(rv, chain_of(rv, from, to)))
            } else {
                matched(a, b)
            },
        ),
        _ => None,
    }
}

fn contents(g: &DataGraph) -> (r: Vec<Option<ContentAddr>>)
    ensures
        r@ == data::view_addrs(g@.nodes),
{
    let inner = g.graph();
    let mut r: Vec<Option<ContentAddr>> = Vec::new();
    let mut i: usize = 0;
    while i < inner.nodes.len()
        invariant
            g@ == (data::GraphView {
                nodes: data::node_views(inner.nodes@),
                edges: inner.edges@,
            }),
            i <= inner.nodes@.len(),
            r@.len() == i,
            forall|j: int| 0 <= j < i ==> #[trigger] r@[j] == data::view_addrs(g@.nodes)[j],
        decreases inner.nodes@.len() - i,
    {
        match &inner.nodes[i] {
            Some(n) => {
                let a = hash::content_addr(n);
                proof {
                    hash::lemma_addr_of(a, data::node_view_bytes(n@));
                }
                r.push(Some(a));
            },
            None => {
                r.push(None);
            },
        }
        i = i + 1;
    }
    assert(r@ =~= data::view_addrs(g@.nodes));
    r
}

fn commit_contents(reg: &Registry<DataGraph>, c: &CommitAddr) -> (r: Option<Vec<Option<ContentAddr>>>)
    ensures
        match r {
            Some(v) => contents_at(reg@, *c) == Some(v@),
            None => contents_at(reg@, *c) is None,
        },
{
    match reg.commit(c) {
        Some(commit) => match reg.graph(&commit.graph) {
            Some(g) => Some(contents(g)),
            None => None,
        },
        None => None,
    }
}

fn match_contents(from: &Vec<Option<ContentAddr>>, to: &Vec<Option<ContentAddr>>) -> (r: Matching)
    ensures
        r@ == matched(from@, to@),
{
    let ghost f = from@;
    let ghost t = to@;
    let mut r: Matching = Table::new();
    let mut used: Vec<bool> = Vec::new();
    let mut k: usize = 0;
    while k < to.len()
        invariant
            k <= to@.len(),
            used@.len() == k,
            forall|j: int| 0 <= j < k ==> !#[trigger] used@[j],
        decreases to@.len() - k,
    {
        used.push(false);
        k = k + 1;
    }
    proof {
        assert(f.take(0) =~= Seq::empty());
        assert forall|j: int| 0 <= j < t.len() implies !#[trigger] r@.contains_value(j as usize) by {}
    }
    let mut i: usize = 0;
    while i < from.len()
        invariant
            f == from@,
            t == to@,
            i <= f.len(),
            used@.len() == t.len(),
            r@ == matched(f.take(i as int), t),
            forall|j: int| 0 <= j < t.len() ==> #[trigger] used@[j] == r@.contains_value(j as usize),
        decreases f.len() - i,
    {
        proof {
            assert(f.take(i + 1).drop_last() =~= f.take(i as int));
            assert(f.take(i + 1).last() == f[i as int]);
        }
        if let Some(a) = &from[i] {
            let ghost before = r@;
            let mut j: usize = 0;
            while j < to.len() && (used[j] || !same_content(&to[j], a))
                invariant
                    t == to@,
                    j <= t.len(),
                    used@.len() == t.len(),
                    before == r@,
                    forall|x: int|
                        0 <= x < t.len() ==> #[trigger] used@[x] == r@.contains_value(x as usize),
                    free_at(t, *a, before, 0) == free_at(t, *a, before, j as int),
                decreases t.len() - j,
            {
                assert(used@[j as int] == r@.contains_value(j as int as usize));
                j = j + 1;
            }
            if j < to.len() {
                assert(used@[j as int] == r@.contains_value(j as int as usize));
                proof {
                    let all = f.take(i as int);
                    law_matched_nodes_are_alike(all, t);
                    if before.contains_key(i) {
                        assert(i < all.len());
                    }
                }
                r.insert(i, j);
                used.set(j, true);
                proof {
                    assert(r@ =~= before.insert(i, j));
                    assert forall|x: int| 0 <= x < t.len() implies #[trigger] used@[x]
                        == r@.contains_value(x as usize) by {
                        if x == j {
                            assert(r@.contains_key(i) && r@[i] == j);
                        } else {
                            if before.contains_value(x as usize) {
                                let y = choose|y: usize| #[trigger]
                                    before.contains_key(y) && before[y] == x as usize;
                                assert(r@.contains_key(y) && r@[y] == x as usize);
                            }
                            if r@.contains_value(x as usize) {
                                let y = choose|y: usize| #[trigger]
                                    r@.contains_key(y) && r@[y] == x as usize;
                                assert(before.contains_key(y) && before[y] == x as usize);
                            }
                        }
                    }
                }
            }
        }
        i = i + 1;
    }
    assert(f.take(i as int) =~= f);
    r
}

fn same_content(x: &Option<ContentAddr>, a: &ContentAddr) -> (r: bool)
    ensures
        r == (*x == Some(*a)),
{
    match x {
        Some(y) => y.same(a),
        None => false,
    }
}

/// The nodes of two graphs, paired by content.
pub fn match_nodes(from: &DataGraph, to: &DataGraph) -> (r: Matching)
    ensures
        r@ == matched(data::view_addrs(from@.nodes), data::view_addrs(to@.nodes)),
{
    match_contents(&contents(from), &contents(to))
}

fn compose(m: &Matching, n: &Matching) -> (r: Matching)
    ensures
        r@ == composed(m@, n@),
{
    let list = m.entries();
    let ghost mv = m@;
    let ghost nv = n@;
    let mut r: Matching = Table::new();
    let mut i: usize = 0;
    while i < list.len()
        invariant
            mv == m@,
            nv == n@,
            table::lists(list@, mv),
            i <= list@.len(),
            forall|k: usize| #[trigger]
                r@.contains_key(k) <==> composed(mv, nv).contains_key(k) && exists|x: int|
                    0 <= x < i && (#[trigger] list@[x]).0@ == k,
            forall|k: usize| #[trigger] r@.contains_key(k) ==> r@[k] == composed(mv, nv)[k],
        decreases list@.len() - i,
    {
        let (k, j) = (list[i].0, list[i].1);
        let ghost before = r@;
        proof {
            table::lemma_entry(list@, i as int);
        }
        if let Some(to) = n.get(&j) {
            r.insert(k, *to);
        }
        proof {
            assert(list@[i as int].0@ == k);
            assert forall|x: usize| #[trigger]
                r@.contains_key(x) <==> composed(mv, nv).contains_key(x) && exists|y: int|
                    0 <= y < i + 1 && (#[trigger] list@[y]).0@ == x by {
                assert(before.contains_key(x) <==> composed(mv, nv).contains_key(x) && exists|y: int|
                    0 <= y < i && (#[trigger] list@[y]).0@ == x);
            }
        }
        i = i + 1;
    }
    proof {
        assert forall|k: usize| r@.contains_key(k) == composed(mv, nv).contains_key(k) by {
            if mv.contains_key(k) {
                let x = choose|x: int| 0 <= x < list@.len() && #[trigger] list@[x].0@ == k;
                assert(list@[x].0@ == k);
            }
        }
        assert(r@ =~= composed(mv, nv));
    }
    r
}

fn invert(m: &Matching) -> (r: Matching)
    requires
        injective(m@),
    ensures
        r@ == inverted(m@),
{
    let list = m.entries();
    let ghost mv = m@;
    let mut r: Matching = Table::new();
    let mut i: usize = 0;
    while i < list.len()
        invariant
            mv == m@,
            injective(mv),
            table::lists(list@, mv),
            i <= list@.len(),
            forall|j: usize| #[trigger]
                r@.contains_key(j) <==> exists|x: int| 0 <= x < i && (#[trigger] list@[x]).1 == j,
            forall|j: usize| #[trigger]
                r@.contains_key(j) ==> mv.contains_key(r@[j]) && mv[r@[j]] == j,
        decreases list@.len() - i,
    {
        let ghost before = r@;
        proof {
            table::lemma_entry(list@, i as int);
        }
        r.insert(list[i].1, list[i].0);
        proof {
            assert forall|j: usize| #[trigger]
                r@.contains_key(j) <==> exists|x: int|
                    0 <= x < i + 1 && (#[trigger] list@[x]).1 == j by {
                assert(before.contains_key(j) <==> exists|x: int|
                    0 <= x < i && (#[trigger] list@[x]).1 == j);
                assert(list@[i as int].1 == list@[i as int].1);
            }
            assert forall|j: usize| #[trigger] r@.contains_key(j) implies mv.contains_key(r@[j])
                && mv[r@[j]] == j by {
                if j != list@[i as int].1 {
                    assert(before.contains_key(j));
                }
            }
        }
        i = i + 1;
    }
    proof {
        assert forall|j: usize| r@.contains_key(j) == #[trigger] inverted(mv).contains_key(j) by {
            if mv.contains_value(j) {
                let k = choose|k: usize| #[trigger] mv.contains_key(k) && mv[k] == j;
                let x = choose|x: int| 0 <= x < list@.len() && #[trigger] list@[x].0@ == k;
                table::lemma_entry(list@, x);
                assert(list@[x].1 == j);
            }
            if r@.contains_key(j) {
                assert(mv.contains_key(r@[j]) && mv[r@[j]] == j);
            }
        }
        assert forall|j: usize| #[trigger] r@.contains_key(j) implies r@[j] == inverted(mv)[j] by {
            let k = choose|k: usize| #[trigger] mv.contains_key(k) && mv[k] == j;
            assert(mv.contains_key(r@[j]) && mv[r@[j]] == j);
            assert(mv.contains_key(k) && mv[k] == j);
        }
        assert(r@ =~= inverted(mv));
    }
    r
}

fn identical(c: &Vec<Option<ContentAddr>>) -> (r: Matching)
    ensures
        r@ == identity(c@),
{
    let r = match_contents(c, c);
    let ghost n: usize = c.len();
    proof {
        law_graph_matches_itself(c@);
    }
    r
}

proof fn lemma_composed_injective(m: Map<usize, usize>, n: Map<usize, usize>)
    requires
        injective(m),
        injective(n),
    ensures
        injective(composed(m, n)),
{
    let c = composed(m, n);
    assert forall|a: usize, b: usize| #[trigger]
        c.contains_key(a) && #[trigger] c.contains_key(b) && c[a] == c[b] implies a == b by {
        assert(m.contains_key(a) && m.contains_key(b));
        assert(n.contains_key(m[a]) && n.contains_key(m[b]));
    }
}

proof fn lemma_inverted_injective(m: Map<usize, usize>)
    ensures
        injective(inverted(m)),
        injective(m) ==> inverted(inverted(m)) == m,
{
    let v = inverted(m);
    assert forall|a: usize, b: usize| #[trigger]
        v.contains_key(a) && #[trigger] v.contains_key(b) && v[a] == v[b] implies a == b by {
        assert(m.contains_value(a) && m.contains_value(b));
        let x = choose|k: usize| #[trigger] m.contains_key(k) && m[k] == a;
        let y = choose|k: usize| #[trigger] m.contains_key(k) && m[k] == b;
        assert(m.contains_key(x) && m[x] == a);
        assert(m.contains_key(y) && m[y] == b);
    }
    if injective(m) {
        let w = inverted(v);
        assert forall|k: usize| w.contains_key(k) == #[trigger] m.contains_key(k) by {
            if m.contains_key(k) {
                let j = m[k];
                assert(m.contains_value(j));
                let x = choose|x: usize| #[trigger] m.contains_key(x) && m[x] == j;
                assert(m.contains_key(x) && m[x] == j);
                assert(v.contains_key(j) && v[j] == k);
                assert(v.contains_value(k));
            }
            if v.contains_value(k) {
                let j = choose|j: usize| #[trigger] v.contains_key(j) && v[j] == k;
                assert(m.contains_value(j));
                let x = choose|x: usize| #[trigger] m.contains_key(x) && m[x] == j;
                assert(m.contains_key(x) && m[x] == j);
            }
        }
        assert forall|k: usize| #[trigger] m.contains_key(k) implies w[k] == m[k] by {
            let j = m[k];
            assert(m.contains_value(j));
            let x = choose|x: usize| #[trigger] m.contains_key(x) && m[x] == j;
            assert(m.contains_key(x) && m[x] == j);
            assert(v.contains_key(j) && v[j] == k);
            assert(v.contains_value(k));
            let i = choose|i: usize| #[trigger] v.contains_key(i) && v[i] == k;
            assert(v.contains_key(i) && v[i] == k);
            let y = choose|y: usize| #[trigger] m.contains_key(y) && m[y] == i;
            assert(m.contains_value(i));
            assert(m.contains_key(y) && m[y] == i);
        }
        assert(w =~= m);
    }
}

/// Follows identity along a chain, from its last commit to its first.
fn follow(reg: &Registry<DataGraph>, chain: &Vec<CommitAddr>) -> (r: Matching)
    requires
        chain@.len() >= 1,
        contents_at(reg@, chain@.last()) is Some,
    ensures
        r@ == followed(reg@, chain@),
        injective(r@),
{
    let ghost rv = reg@;
    let n: usize = chain.len();
    let mut i: usize = n - 1;
    let ghost tail = chain@.skip(n - 1);
    proof {
        assert(tail =~= seq![chain@.last()]);
    }
    let mut here: Vec<Option<ContentAddr>> = match commit_contents(reg, &chain[n - 1]) {
        Some(c) => c,
        None => Vec::new(),
    };
    let mut m = identical(&here);
    while i > 0
        invariant
            rv == reg@,
            i < chain@.len(),
            here@ == latest(rv, chain@.skip(i as int)),
            m@ == followed(rv, chain@.skip(i as int)),
            injective(m@),
        decreases i,
    {
        i = i - 1;
        let ghost s = chain@.skip(i as int);
        proof {
            assert(s.skip(1) =~= chain@.skip(i + 1));
            assert(s[0] == chain@[i as int]);
        }
        if let Some(c) = commit_contents(reg, &chain[i]) {
            let step = match_contents(&here, &c);
            let ghost hl: usize = here.len();
            let ghost cl: usize = c.len();
            proof {
                law_matched_nodes_are_alike(here@, c@);
                lemma_composed_injective(m@, step@);
            }
            m = compose(&m, &step);
            here = c;
        }
    }
    assert(chain@.skip(0) =~= chain@);
    m
}

/// Which node is which when a head moves from one commit to another: the new index for
/// each old one that has a counterpart. Identity is followed along first parents in
/// either direction; between commits on no common line nodes are paired by content. It
/// is `None` only where a commit or its graph is missing.
pub fn navigation_matching(reg: &Registry<DataGraph>, from: CommitAddr, to: CommitAddr) -> (r: Option<
    Matching,
>)
    ensures
        match r {
            Some(m) => navigation(reg@, from, to) == Some(m@) && injective(m@),
            None => navigation(reg@, from, to) is None,
        },
{
    let ghost rv = reg@;
    match (commit_contents(reg, &from), commit_contents(reg, &to)) {
        (Some(a), Some(b)) => {
            if let Some(chain) = first_parent_chain_to(reg, to, from) {
                proof {
                    lemma_chain_unique(rv, chain@, chain_of(rv, to, from), to, from);
                }
                return Some(follow(reg, &chain));
            }
            if let Some(chain) = first_parent_chain_to(reg, from, to) {
                proof {
                    lemma_chain_unique(rv, chain@, chain_of(rv, from, to), from, to);
                }
                let m = follow(reg, &chain);
                proof {
                    lemma_inverted_injective(m@);
                }
                return Some(invert(&m));
            }
            let ghost sizes: (usize, usize) = (a.len(), b.len());
            proof {
                law_matched_nodes_are_alike(a@, b@);
            }
            Some(match_contents(&a, &b))
        },
        _ => None,
    }
}

/// To go back undoes going forth: where one commit descends from the other and not the
/// other way round, the two matchings are each other's inverse.
pub proof fn law_undo_inverts_redo(rv: DataView, base: CommitAddr, tip: CommitAddr)
    requires
        descends(rv, tip, base),
        !descends(rv, base, tip),
        navigation(rv, base, tip) is Some,
    ensures
        navigation(rv, tip, base) == Some(inverted(navigation(rv, base, tip)->0)),
        injective(navigation(rv, base, tip)->0) ==> inverted(navigation(rv, tip, base)->0)
            == navigation(rv, base, tip)->0,
{
    lemma_inverted_injective(navigation(rv, base, tip)->0);
}

/// A head that stays where it is keeps every node.
pub proof fn law_staying_keeps_every_node(rv: DataView, c: CommitAddr)
    requires
        contents_at(rv, c) is Some,
    ensures
        navigation(rv, c, c) == Some(identity(contents_at(rv, c)->0)),
{
    let s = seq![c];
    assert(is_chain(rv, s, c, c));
    lemma_chain_unique(rv, s, chain_of(rv, c, c), c, c);
}

/// Like nodes keep their order: of two nodes with the same content that both have a
/// counterpart, the earlier has the earlier one, and no counterpart is passed over.
pub proof fn law_like_nodes_keep_their_order(
    from: Seq<Option<ContentAddr>>,
    to: Seq<Option<ContentAddr>>,
)
    requires
        from.len() <= usize::MAX,
        to.len() <= usize::MAX,
    ensures
        forall|a: usize, b: usize| #[trigger]
            matched(from, to).contains_key(a) && #[trigger] matched(from, to).contains_key(b) && a
                < b && from[a as int] == from[b as int] ==> matched(from, to)[a] < matched(
                from,
                to,
            )[b],
        forall|k: usize, j: usize| #[trigger]
            matched(from, to).contains_key(k) && j < matched(from, to)[k] && from[k as int]
                == #[trigger] to[j as int] ==> matched(from, to).contains_value(j),
    decreases from.len(),
{
    let m = matched(from, to);
    if from.len() > 0 {
        let f = from.drop_last();
        let init = matched(f, to);
        law_like_nodes_keep_their_order(f, to);
        law_matched_nodes_are_alike(f, to);
        law_matched_nodes_are_alike(from, to);
        let n = (from.len() - 1) as usize;
        assert(!init.contains_key(n));
        if let Some(a) = from.last() {
            lemma_free(to, a, init, 0);
        }
        assert forall|j: usize| #[trigger] init.contains_value(j) implies m.contains_value(j) by {
            let k = choose|k: usize| #[trigger] init.contains_key(k) && init[k] == j;
            assert(m.contains_key(k) && m[k] == j);
        }
        assert forall|a: usize, b: usize| #[trigger]
            m.contains_key(a) && #[trigger] m.contains_key(b) && a < b && from[a as int]
                == from[b as int] implies m[a] < m[b] by {
            assert(init.contains_key(a));
            assert(f[a as int] == from[a as int]);
            if b != n {
                assert(init.contains_key(b));
                assert(f[b as int] == from[b as int]);
            } else if m[b] < m[a] {
                let j = m[b];
                assert(to[j as int] == from[b as int]);
                assert(init.contains_value(j));
            } else if m[b] == m[a] {
                assert(m.contains_key(a) && m.contains_key(b));
            }
        }
        assert forall|k: usize, j: usize| #[trigger]
            m.contains_key(k) && j < m[k] && from[k as int]
                == #[trigger] to[j as int] implies m.contains_value(j) by {
            if k != n {
                assert(init.contains_key(k));
                assert(f[k as int] == from[k as int]);
            } else {
                assert(to[j as int] == Some(from.last()->0));
                assert(init.contains_value(j as int as usize));
            }
        }
    }
}

proof fn lemma_chain_grows(rv: DataView, a: CommitAddr, b: CommitAddr, c: CommitAddr)
    requires
        first_parent(rv, c) == Some(b),
        c != a,
        descends(rv, b, a),
    ensures
        descends(rv, c, a),
        chain_of(rv, c, a) == seq![c] + chain_of(rv, b, a),
{
    let s = chain_of(rv, b, a);
    let t = seq![c] + s;
    assert forall|i: int| 0 <= i < t.len() - 1 implies (#[trigger] t[i]) != a && first_parent(
        rv,
        t[i],
    ) == Some(t[i + 1]) by {
        if i > 0 {
            assert(t[i] == s[i - 1]);
            assert(t[i + 1] == s[i]);
        } else {
            assert(t[1] == s[0]);
        }
    }
    assert(t.last() == s.last());
    assert(is_chain(rv, t, c, a));
    lemma_chain_unique(rv, t, chain_of(rv, c, a), c, a);
}

/// Nodes are followed edit by edit: where a commit comes directly after another that
/// descends from where the way begins, a node ends up where its counterpart before the
/// last edit is matched to, and nowhere if it was lost before or is lost then.
pub proof fn law_nodes_are_followed_edit_by_edit(
    rv: DataView,
    a: CommitAddr,
    b: CommitAddr,
    c: CommitAddr,
    k: usize,
    j: usize,
)
    requires
        first_parent(rv, c) == Some(b),
        c != a,
        descends(rv, b, a),
        contents_at(rv, a) is Some,
        contents_at(rv, b) is Some,
        contents_at(rv, c) is Some,
    ensures
        ({
            let before = navigation(rv, a, b)->0;
            let last = matched(contents_at(rv, b)->0, contents_at(rv, c)->0);
            let all = navigation(rv, a, c)->0;
            &&& navigation(rv, a, b) is Some
            &&& navigation(rv, a, c) is Some
            &&& all.contains_key(k) <==> before.contains_key(k) && last.contains_key(before[k])
            &&& all.contains_key(k) ==> all[k] == last[before[k]]
        }),
{
    lemma_chain_grows(rv, a, b, c);
    let s = chain_of(rv, b, a);
    let t = seq![c] + s;
    assert(t.skip(1) =~= s);
    assert(t[0] == c);
    assert(s[0] == b);
    assert(latest(rv, s) == contents_at(rv, b)->0);
}

/// A commit whose graph is missing is passed over on the way: its neighbours are matched
/// with each other.
pub proof fn law_missing_graph_is_passed_over(
    rv: DataView,
    a: CommitAddr,
    b: CommitAddr,
    c: CommitAddr,
    k: usize,
)
    requires
        first_parent(rv, c) == Some(b),
        first_parent(rv, b) == Some(a),
        c != a,
        b != a,
        contents_at(rv, a) is Some,
        contents_at(rv, b) is None,
        contents_at(rv, c) is Some,
        (contents_at(rv, a)->0).len() <= usize::MAX,
        (contents_at(rv, c)->0).len() <= usize::MAX,
    ensures
        ({
            let step = matched(contents_at(rv, a)->0, contents_at(rv, c)->0);
            let all = navigation(rv, a, c)->0;
            &&& navigation(rv, a, c) is Some
            &&& all.contains_key(k) <==> step.contains_key(k)
            &&& all.contains_key(k) ==> all[k] == step[k]
        }),
{
    let x = contents_at(rv, a)->0;
    let s = seq![a];
    assert(is_chain(rv, s, a, a));
    lemma_chain_unique(rv, s, chain_of(rv, a, a), a, a);
    lemma_chain_grows(rv, a, a, b);
    lemma_chain_grows(rv, a, b, c);
    let t = seq![b] + s;
    let u = seq![c] + t;
    assert(t.skip(1) =~= s);
    assert(u.skip(1) =~= t);
    assert(latest(rv, s) == x);
    assert(latest(rv, t) == x);
    assert(followed(rv, s) == identity(x));
    assert(followed(rv, t) == identity(x));
    law_matched_nodes_are_alike(x, contents_at(rv, c)->0);
}

/// Going back leads every node to where it came from: where a node goes on the way forth
/// is where the way back brings it from.
pub proof fn law_way_back_leads_back(
    rv: DataView,
    base: CommitAddr,
    tip: CommitAddr,
    k: usize,
    j: usize,
)
    requires
        descends(rv, tip, base),
        !descends(rv, base, tip),
        navigation(rv, base, tip) is Some,
        injective(navigation(rv, base, tip)->0),
    ensures
        navigation(rv, tip, base) is Some,
        (navigation(rv, base, tip)->0.contains_key(k) && navigation(rv, base, tip)->0[k] == j)
            <==> (navigation(rv, tip, base)->0.contains_key(j) && navigation(rv, tip, base)->0[j]
            == k),
{
    let m = navigation(rv, base, tip)->0;
    let v = inverted(m);
    if m.contains_key(k) && m[k] == j {
        assert(m.contains_value(j));
        let x = choose|x: usize| #[trigger] m.contains_key(x) && m[x] == j;
        assert(m.contains_key(x) && m[x] == j);
    }
    if v.contains_key(j) && v[j] == k {
        assert(m.contains_value(j));
        let x = choose|x: usize| #[trigger] m.contains_key(x) && m[x] == j;
        assert(m.contains_key(x) && m[x] == j);
    }
}

/// Between commits of which neither descends from the other, nodes are paired by their
/// content alone.
pub proof fn law_unrelated_commits_are_paired_by_content(
    rv: DataView,
    from: CommitAddr,
    to: CommitAddr,
    k: usize,
    j: usize,
)
    requires
        !descends(rv, to, from),
        !descends(rv, from, to),
        contents_at(rv, from) is Some,
        contents_at(rv, to) is Some,
        (contents_at(rv, from)->0).len() <= usize::MAX,
        (contents_at(rv, to)->0).len() <= usize::MAX,
    ensures
        ({
            let a = contents_at(rv, from)->0;
            let b = contents_at(rv, to)->0;
            let m = navigation(rv, from, to)->0;
            &&& navigation(rv, from, to) is Some
            &&& injective(m)
            &&& m.contains_key(k) ==> k < a.len() && m[k] < b.len() && a[k as int] is Some
                && a[k as int] == b[m[k] as int]
            &&& k < a.len() && j < b.len() && a[k as int] is Some && a[k as int] == b[j as int]
                ==> m.contains_key(k) || m.contains_value(j)
        }),
{
    law_matched_nodes_are_alike(contents_at(rv, from)->0, contents_at(rv, to)->0);
}

} // verus!
