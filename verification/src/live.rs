//! What heads keep alive: closures, exports and root names over open heads.

use crate::addr::ContentAddr;
use crate::commit::CommitAddr;
use crate::graph::GraphAddr;
use crate::head::{self, Head, HeadView};
use crate::name::Name;
use crate::order::Key;
use crate::prune;
use crate::reach::{self, Item, LiveSet, OutRefs, OutView};
use crate::registry::{
    KeyView, Liveness, Payload, Registry, RegistryView, ValueView,
};
use crate::set::KeySet;
use crate::table::{self, Table};
use crate::walk;
use vstd::prelude::*;

verus! {

/// The commits that heads are at, where they are known.
pub open spec fn seeds<T>(rv: RegistryView<T>, heads: Seq<HeadView>) -> Seq<CommitAddr>
    decreases heads.len(),
{
    if heads.len() == 0 {
        Seq::empty()
    } else {
        let init = seeds(rv, heads.drop_last());
        match rv.head_addr(heads.last()) {
            Some(c) => init.push(c),
            None => init,
        }
    }
}

fn head_seeds<G: Payload>(reg: &Registry<G>, heads: &Vec<Head>) -> (r: Vec<CommitAddr>)
    ensures
        r@ == seeds(reg@, head::head_list(heads@)),
{
    let ghost hv = head::head_list(heads@);
    let mut r: Vec<CommitAddr> = Vec::new();
    let mut i: usize = 0;
    assert(hv.take(0) =~= Seq::empty());
    while i < heads.len()
        invariant
            hv == head::head_list(heads@),
            i <= heads@.len(),
            r@ == seeds(reg@, hv.take(i as int)),
        decreases heads@.len() - i,
    {
        assert(hv.take(i + 1).drop_last() =~= hv.take(i as int));
        assert(hv.take(i + 1).last() == heads@[i as int]@);
        if let Some(c) = reg.head_addr(&heads[i]) {
            r.push(c);
        }
        i = i + 1;
    }
    assert(hv.take(i as int) =~= hv);
    r
}

/// What is reachable from all of the registry's heads and the given ones: everything
/// else is unused.
pub fn live<G: Payload, F: Fn(&G) -> OutRefs>(
    reg: &Registry<G>,
    extra_heads: &Vec<Head>,
    graph_out: F,
) -> (r: LiveSet)
    requires
        reach::answers::<G, F>(graph_out),
    ensures
        reach::is_closure(
            reg@,
            seeds(reg@, head::head_list(extra_heads@)),
            reach::answer::<G, F>(graph_out),
            r,
        ),
{
    let extra = head_seeds(reg, extra_heads);
    reach::closure(reg, &extra, graph_out)
}

/// What is reachable from the given heads alone.
pub fn live_for_heads<G: Payload, F: Fn(&G) -> OutRefs>(
    reg: &Registry<G>,
    heads: &Vec<Head>,
    graph_out: F,
) -> (r: LiveSet)
    requires
        reach::answers::<G, F>(graph_out),
    ensures
        reach::is_closure_from(
            reg@,
            seeds(reg@, head::head_list(heads@)),
            reach::answer::<G, F>(graph_out),
            r,
        ),
{
    let from = head_seeds(reg, heads);
    reach::closure_from(reg, &from, graph_out)
}

/// The part of the registry that its heads and the given ones need.
pub fn export<G: Payload, F: Fn(&G) -> OutRefs>(
    reg: &Registry<G>,
    extra_heads: &Vec<Head>,
    graph_out: F,
) -> (r: Registry<G>)
    requires
        reach::answers::<G, F>(graph_out),
    ensures
        exists|l: LiveSet| #[trigger]
            reach::is_closure(
                reg@,
                seeds(reg@, head::head_list(extra_heads@)),
                reach::answer::<G, F>(graph_out),
                l,
            ) && r@ == prune::pruned_to(reg@, l),
{
    let l = live(reg, extra_heads, graph_out);
    prune::export(reg, &l)
}

/// The part of the registry that the given heads need, and no more: of the heads, those
/// whose commits it holds.
pub fn export_heads<G: Payload, F: Fn(&G) -> OutRefs>(
    reg: &Registry<G>,
    heads: &Vec<Head>,
    graph_out: F,
) -> (r: Registry<G>)
    requires
        reach::answers::<G, F>(graph_out),
    ensures
        exists|l: LiveSet| #[trigger]
            reach::is_closure_from(
                reg@,
                seeds(reg@, head::head_list(heads@)),
                reach::answer::<G, F>(graph_out),
                l,
            ) && r@ == prune::pruned_to(reg@, l),
{
    let l = live_for_heads(reg, heads, graph_out);
    prune::export(reg, &l)
}

fn retained<C>(cache: Table<GraphAddr, C>, keep: &KeySet<GraphAddr>) -> (r: Table<GraphAddr, C>)
    ensures
        r@ == cache@.restrict(keep@),
{
    let ghost m = cache@;
    let mut rest = cache.into_entries();
    let ghost list = rest@;
    let mut r: Table<GraphAddr, C> = Table::new();
    let ghost mut n: int = list.len() as int;
    while rest.len() > 0
        invariant
            table::lists(list, m),
            0 <= n <= list.len(),
            rest@ == list.take(n),
            forall|g: GraphAddr| #[trigger]
                r@.contains_key(g) <==> keep@.contains(g) && exists|j: int|
                    n <= j < list.len() && (#[trigger] list[j]).0@ == g,
            forall|g: GraphAddr| #[trigger] r@.contains_key(g) ==> m.contains_key(g) && r@[g] == m[g],
        decreases rest@.len(),
    {
        if let Some((g, c)) = rest.pop() {
            let ghost before = r@;
            let ghost gone = n;
            proof {
                n = n - 1;
                assert(list[n] == (g, c));
                assert(rest@ =~= list.take(n));
                table::lemma_entry(list, n);
            }
            if keep.contains(&g) {
                r.insert(g, c);
            }
            proof {
                assert(list[n].0@ == g);
                assert forall|x: GraphAddr| #[trigger] r@.contains_key(x) <==> keep@.contains(x)
                    && exists|j: int| n <= j < list.len() && (#[trigger] list[j]).0@ == x by {
                    assert(before.contains_key(x) <==> keep@.contains(x) && exists|j: int|
                        gone <= j < list.len() && (#[trigger] list[j]).0@ == x);
                }
            }
        }
    }
    proof {
        assert forall|g: GraphAddr| r@.contains_key(g) == m.restrict(keep@).contains_key(g) by {
            if m.contains_key(g) {
                let j = choose|j: int| 0 <= j < list.len() && #[trigger] list[j].0@ == g;
                assert(list[j].0@ == g);
            }
        }
        assert(r@ =~= m.restrict(keep@));
    }
    r
}

/// Prunes what neither the registry's heads nor the given ones need, and drops what a
/// cache keeps for the graphs that went.
pub fn prune_unused<G: Payload, C, F: Fn(&G) -> OutRefs>(
    reg: &mut Registry<G>,
    cache: Table<GraphAddr, C>,
    heads: &Vec<Head>,
    graph_out: F,
) -> (r: Table<GraphAddr, C>)
    requires
        reach::answers::<G, F>(graph_out),
    ensures
        exists|l: LiveSet| #[trigger]
            reach::is_closure(
                old(reg)@,
                seeds(old(reg)@, head::head_list(heads@)),
                reach::answer::<G, F>(graph_out),
                l,
            ) && final(reg)@ == prune::pruned_to(old(reg)@, l) && r@ == cache@.restrict(l.graphs@),
{
    let l = live(reg, heads, graph_out);
    prune::prune(reg, &l);
    retained(cache, &l.graphs)
}

/// Whether a graph of the registry refers to the graph at `g`.
pub open spec fn referenced<T>(
    rv: RegistryView<T>,
    out: spec_fn(T) -> OutView,
    g: GraphAddr,
) -> bool {
    exists|a: GraphAddr|
        rv.graphs.contains_key(a) && (#[trigger] out(rv.graphs[a])).graphs.contains(g)
}

/// Whether `n` names a head whose graph no graph refers to.
pub open spec fn is_root_name<T>(
    rv: RegistryView<T>,
    out: spec_fn(T) -> OutView,
    n: Seq<Seq<char>>,
) -> bool {
    rv.head(n) matches Some(c) && (rv.commits.contains_key(c) ==> !referenced(
        rv,
        out,
        rv.commits[c].graph,
    ))
}

fn referenced_graphs<G: Payload, F: Fn(&G) -> OutRefs>(reg: &Registry<G>, graph_out: &F) -> (r:
    KeySet<GraphAddr>)
    requires
        reach::answers::<G, F>(*graph_out),
    ensures
        forall|g: GraphAddr| #[trigger]
            r@.contains(g) <==> referenced(reg@, reach::answer::<G, F>(*graph_out), g),
{
    let ghost out = reach::answer::<G, F>(*graph_out);
    let ghost rv = reg@;
    let list = reg.graphs.entries();
    let ghost m = reg.graphs@;
    let mut r: KeySet<GraphAddr> = KeySet::new();
    let mut i: usize = 0;
    while i < list.len()
        invariant
            reach::answers::<G, F>(*graph_out),
            out == reach::answer::<G, F>(*graph_out),
            rv == reg@,
            m == reg.graphs@,
            table::lists(list@, m),
            i <= list@.len(),
            forall|g: GraphAddr| #[trigger]
                r@.contains(g) <==> exists|j: int|
                    0 <= j < i && out((#[trigger] list@[j]).1@).graphs.contains(g),
        decreases list@.len() - i,
    {
        let ghost before = r@;
        let o = graph_out(&list[i].1);
        proof {
            reach::lemma_answer(*graph_out, list@[i as int].1, o);
        }
        let ghost og = o@.graphs;
        let mut k: usize = 0;
        while k < o.graphs.len()
            invariant
                og == o@.graphs,
                k <= o.graphs@.len(),
                forall|g: GraphAddr| #[trigger]
                    r@.contains(g) <==> before.contains(g) || og.take(k as int).contains(g),
            decreases o.graphs@.len() - k,
        {
            let ghost mid = r@;
            let a: GraphAddr = o.graphs[k];
            let _ = r.insert(a);
            proof {
                assert(og.take(k + 1) =~= og.take(k as int).push(a));
                assert forall|g: GraphAddr| #[trigger] r@.contains(g) <==> before.contains(g)
                    || og.take(k + 1).contains(g) by {
                    assert(mid.contains(g) <==> before.contains(g) || og.take(k as int).contains(g));
                    if og.take(k as int).contains(g) {
                        let j = og.take(k as int).index_of(g);
                        assert(og.take(k + 1)[j] == g);
                    }
                    if g == a {
                        assert(og.take(k + 1)[k as int] == g);
                    }
                    if og.take(k + 1).contains(g) && g != a {
                        let j = og.take(k + 1).index_of(g);
                        assert(og.take(k as int)[j] == g);
                    }
                }
            }
            k = k + 1;
        }
        proof {
            assert(og.take(k as int) =~= og);
            assert forall|g: GraphAddr| #[trigger] r@.contains(g) <==> exists|j: int|
                0 <= j < i + 1 && out((#[trigger] list@[j]).1@).graphs.contains(g) by {
                assert(before.contains(g) <==> exists|j: int|
                    0 <= j < i && out((#[trigger] list@[j]).1@).graphs.contains(g));
                assert(out(list@[i as int].1@).graphs == og);
            }
        }
        i = i + 1;
    }
    proof {
        assert forall|g: GraphAddr| #[trigger] r@.contains(g) <==> referenced(rv, out, g) by {
            if r@.contains(g) {
                let j = choose|j: int|
                    0 <= j < list@.len() && out((#[trigger] list@[j]).1@).graphs.contains(g);
                table::lemma_entry(list@, j);
                let a = list@[j].0@;
                assert(rv.graphs.contains_key(a) && out(rv.graphs[a]).graphs.contains(g));
            }
            if referenced(rv, out, g) {
                let a = choose|a: GraphAddr|
                    rv.graphs.contains_key(a) && (#[trigger] out(rv.graphs[a])).graphs.contains(g);
                assert(m.contains_key(a));
                let j = choose|j: int| 0 <= j < list@.len() && #[trigger] list@[j].0@ == a;
                table::lemma_entry(list@, j);
                assert(out(list@[j].1@).graphs.contains(g));
            }
        }
    }
    r
}

/// The names of the heads whose graph no graph of the registry refers to, in order.
pub fn root_names<G: Payload, F: Fn(&G) -> OutRefs>(reg: &Registry<G>, graph_out: F) -> (r: Vec<
    Name,
>)
    requires
        reach::answers::<G, F>(graph_out),
    ensures
        forall|i: int, j: int|
            0 <= i < j < r@.len() ==> Name::precedes((#[trigger] r@[i])@, (#[trigger] r@[j])@),
        forall|n: Seq<Seq<char>>| #[trigger]
            is_root_name(reg@, reach::answer::<G, F>(graph_out), n) <==> exists|i: int|
                0 <= i < r@.len() && (#[trigger] r@[i])@ == n,
{
    let ghost out = reach::answer::<G, F>(graph_out);
    let ghost rv = reg@;
    let used = referenced_graphs(reg, &graph_out);
    let heads = reg.heads();
    let mut r: Vec<Name> = Vec::new();
    let ghost mut at: Seq<int> = Seq::empty();
    let mut i: usize = 0;
    while i < heads.len()
        invariant
            rv == reg@,
            rv.lists_heads(heads@),
            forall|g: GraphAddr| #[trigger] used@.contains(g) <==> referenced(rv, out, g),
            i <= heads@.len(),
            at.len() == r@.len(),
            forall|a: int|
                0 <= a < at.len() ==> 0 <= #[trigger] at[a] < i && r@[a]@ == heads@[at[a]].0@
                    && is_root_name(rv, out, heads@[at[a]].0@),
            forall|a: int, b: int| 0 <= a < b < at.len() ==> #[trigger] at[a] < #[trigger] at[b],
            forall|j: int|
                0 <= j < i && is_root_name(rv, out, (#[trigger] heads@[j]).0@) ==> at.contains(j),
        decreases heads@.len() - i,
    {
        let ghost before = at;
        let free = match reg.commit(&heads[i].1) {
            Some(c) => !used.contains(&c.graph),
            None => true,
        };
        assert(free == is_root_name(rv, out, heads@[i as int].0@)) by {
            assert(rv.head(heads@[i as int].0@) == Some(heads@[i as int].1));
        }
        if free {
            r.push(heads[i].0.dup());
            proof {
                at = at.push(i as int);
                assert(at[before.len() as int] == i);
                assert forall|j: int| before.contains(j) implies #[trigger] at.contains(j) by {
                    let a = before.index_of(j);
                    assert(at[a] == j);
                }
            }
        }
        i = i + 1;
    }
    proof {
        assert forall|i: int, j: int| 0 <= i < j < r@.len() implies Name::precedes(
            (#[trigger] r@[i])@,
            (#[trigger] r@[j])@,
        ) by {
            assert(at[i] < at[j]);
            assert(Name::precedes(heads@[at[i]].0@, heads@[at[j]].0@));
        }
        assert forall|n: Seq<Seq<char>>| #[trigger]
            is_root_name(rv, out, n) <==> exists|a: int|
                0 <= a < r@.len() && (#[trigger] r@[a])@ == n by {
            if is_root_name(rv, out, n) {
                assert(rv.head(n) is Some);
                let j = choose|j: int| 0 <= j < heads@.len() && (#[trigger] heads@[j]).0@ == n;
                assert(is_root_name(rv, out, heads@[j].0@));
                let a = at.index_of(j);
                assert(at.contains(j));
                assert(at[a] == j);
                assert(r@[a]@ == n);
            }
            if exists|a: int| 0 <= a < r@.len() && (#[trigger] r@[a])@ == n {
                let a = choose|a: int| 0 <= a < r@.len() && (#[trigger] r@[a])@ == n;
                assert(0 <= at[a] < heads@.len());
            }
        }
    }
    r
}

/// Names whose heads share the same graph are either all root names or none.
pub proof fn law_same_content_is_root_alike<T>(
    rv: RegistryView<T>,
    out: spec_fn(T) -> OutView,
    m: Seq<Seq<char>>,
    n: Seq<Seq<char>>,
)
    requires
        rv.head(m) is Some,
        rv.head(n) is Some,
        rv.commits.contains_key(rv.head(m)->0),
        rv.commits.contains_key(rv.head(n)->0),
        rv.commits[rv.head(m)->0].graph == rv.commits[rv.head(n)->0].graph,
    ensures
        is_root_name(rv, out, m) == is_root_name(rv, out, n),
{
}

proof fn lemma_seeded<T>(rv: RegistryView<T>, heads: Seq<HeadView>, i: int)
    requires
        0 <= i < heads.len(),
        rv.head_addr(heads[i]) is Some,
    ensures
        seeds(rv, heads).contains(rv.head_addr(heads[i])->0),
    decreases heads.len(),
{
    let all = seeds(rv, heads);
    if i == heads.len() - 1 {
        assert(all[all.len() - 1] == rv.head_addr(heads[i])->0);
    } else {
        let init = seeds(rv, heads.drop_last());
        lemma_seeded(rv, heads.drop_last(), i);
        let j = init.index_of(rv.head_addr(heads[i])->0);
        assert(all[j] == init[j]);
    }
}

/// What the given heads alone need is needed by the registry's heads and the given ones
/// together, and holds the commit of every given head.
pub proof fn law_closure_of_heads_is_within_the_whole<T>(
    rv: RegistryView<T>,
    heads: Seq<HeadView>,
    out: spec_fn(T) -> OutView,
    few: LiveSet,
    all: LiveSet,
)
    requires
        reach::is_closure_from(rv, seeds(rv, heads), out, few),
        reach::is_closure(rv, seeds(rv, heads), out, all),
    ensures
        few.commits@.subset_of(all.commits@),
        few.graphs@.subset_of(all.graphs@),
        forall|i: int|
            0 <= i < heads.len() && rv.head_commit(#[trigger] heads[i]) is Some
                ==> few.commits@.contains(rv.head_addr(heads[i])->0),
{
    let s = seeds(rv, heads);
    let step = reach::refers(rv, out);
    assert forall|x: Item| #[trigger] reach::live_from(rv, s, out, x) implies reach::live_item(
        rv,
        s,
        out,
        x,
    ) by {
        let c = choose|c: CommitAddr|
            s.contains(c) && rv.commits.contains_key(c) && #[trigger] walk::reaches(
                step,
                Item::Commit(c),
                x,
            );
        assert(reach::root(rv, s, c));
    }
    assert forall|c: CommitAddr| #[trigger] few.commits@.contains(c) implies all.commits@.contains(
        c,
    ) by {
        assert(reach::live_from(rv, s, out, Item::Commit(c)));
    }
    assert forall|g: GraphAddr| #[trigger] few.graphs@.contains(g) implies all.graphs@.contains(
        g,
    ) by {
        assert(reach::live_from(rv, s, out, Item::Graph(g)));
    }
    assert forall|i: int|
        0 <= i < heads.len() && rv.head_commit(#[trigger] heads[i]) is Some implies few.commits@.contains(
        rv.head_addr(heads[i])->0) by {
        let c = rv.head_addr(heads[i])->0;
        lemma_seeded(rv, heads, i);
        walk::lemma_reaches_self(step, Item::Commit(c));
        assert(reach::live_from(rv, s, out, Item::Commit(c)));
    }
}

/// Where content leads: a commit to its parent, to what it merged and to its graph, and a
/// graph to the graphs that are reported for it, as far as they are there.
pub open spec fn leads_on<T>(rv: RegistryView<T>, out: spec_fn(T) -> OutView) -> spec_fn(
    Item,
    Item,
) -> bool {
    |a: Item, b: Item|
        match (a, b) {
            (Item::Commit(c), Item::Commit(p)) => {
                &&& rv.commits.contains_key(c)
                &&& rv.commits.contains_key(p)
                &&& rv.commits[c].parent == Some(p) || rv.commits[c].merge_parents.contains(p)
            },
            (Item::Commit(c), Item::Graph(g)) => {
                &&& rv.commits.contains_key(c)
                &&& rv.graphs.contains_key(g)
                &&& rv.commits[c].graph == g
            },
            (Item::Graph(g), Item::Graph(h)) => {
                &&& rv.graphs.contains_key(g)
                &&& rv.graphs.contains_key(h)
                &&& out(rv.graphs[g]).graphs.contains(h)
            },
            (Item::Graph(_), Item::Commit(_)) => false,
        }
}

/// Whether a commit is one to start from: one of those given, or in an entry of a section
/// of roots.
pub open spec fn starts<T>(rv: RegistryView<T>, extra: Seq<CommitAddr>, c: CommitAddr) -> bool {
    &&& rv.commits.contains_key(c)
    &&& extra.contains(c) || exists|id: Seq<char>, k: KeyView|
        rv.sections.contains_key(id) && rv.sections[id].liveness is Root
            && (#[trigger] rv.sections[id].entries.contains_key(k)) && rv.sections[id].entries[k]
            == ValueView::Commit(c)
}

/// What is live is what is led to, and nothing else: from the roots and the commits that
/// are given, or from those that are given alone.
pub proof fn law_live_is_what_is_led_to<T>(
    rv: RegistryView<T>,
    extra: Seq<CommitAddr>,
    out: spec_fn(T) -> OutView,
    live: LiveSet,
    x: Item,
)
    ensures
        reach::is_closure(rv, extra, out, live) ==> ((match x {
            Item::Commit(c) => live.commits@.contains(c),
            Item::Graph(g) => live.graphs@.contains(g),
        }) <==> exists|c: CommitAddr|
            starts(rv, extra, c) && #[trigger] walk::reaches(
                leads_on(rv, out),
                Item::Commit(c),
                x,
            )),
        reach::is_closure_from(rv, extra, out, live) ==> ((match x {
            Item::Commit(c) => live.commits@.contains(c),
            Item::Graph(g) => live.graphs@.contains(g),
        }) <==> exists|c: CommitAddr|
            extra.contains(c) && rv.commits.contains_key(c) && #[trigger] walk::reaches(
                leads_on(rv, out),
                Item::Commit(c),
                x,
            )),
{
    let step = reach::refers(rv, out);
    let mine = leads_on(rv, out);
    assert forall|a: Item, b: Item| #[trigger] step(a, b) == mine(a, b) by {
        match (a, b) {
            (Item::Commit(c), Item::Commit(p)) => {
                if rv.commits.contains_key(c) {
                    let v = rv.commits[c];
                    if v.parent == Some(p) {
                        assert(v.parents()[0] == p);
                    }
                    if v.merge_parents.contains(p) {
                        let i = v.merge_parents.index_of(p);
                        assert(v.merge_parents[i] == p);
                        if v.parent is Some {
                            assert(v.parents()[i + 1] == p);
                        }
                    }
                    if v.parents().contains(p) {
                        let i = v.parents().index_of(p);
                        assert(v.parents()[i] == p);
                        if v.parent is Some && i > 0 {
                            assert(v.merge_parents[i - 1] == p);
                        }
                    }
                }
            },
            _ => {},
        }
    }
    assert(step =~= mine);
    assert forall|c: CommitAddr| #[trigger] reach::root(rv, extra, c) == starts(rv, extra, c) by {
        if exists|id: Seq<char>, k: KeyView| #[trigger] reach::rooted(rv, id, k, c) {
            let (id, k) = choose|id: Seq<char>, k: KeyView| #[trigger] reach::rooted(rv, id, k, c);
            assert(rv.sections[id].entries.contains_key(k));
        }
        if starts(rv, extra, c) && !extra.contains(c) {
            let (id, k) = choose|id: Seq<char>, k: KeyView|
                rv.sections.contains_key(id) && rv.sections[id].liveness is Root
                    && (#[trigger] rv.sections[id].entries.contains_key(k))
                    && rv.sections[id].entries[k] == ValueView::Commit(c);
            assert(reach::rooted(rv, id, k, c));
        }
    }
    if reach::is_closure(rv, extra, out, live) {
        if exists|c: CommitAddr|
            starts(rv, extra, c) && #[trigger] walk::reaches(mine, Item::Commit(c), x) {
            let c = choose|c: CommitAddr|
                starts(rv, extra, c) && #[trigger] walk::reaches(mine, Item::Commit(c), x);
            assert(reach::root(rv, extra, c) && walk::reaches(step, Item::Commit(c), x));
            assert(reach::live_item(rv, extra, out, x));
        }
        if reach::live_item(rv, extra, out, x) {
            let c = choose|c: CommitAddr|
                reach::root(rv, extra, c) && #[trigger] walk::reaches(step, Item::Commit(c), x);
            assert(starts(rv, extra, c) && walk::reaches(mine, Item::Commit(c), x));
        }
    }
    if reach::is_closure_from(rv, extra, out, live) {
        if reach::live_from(rv, extra, out, x) {
            let c = choose|c: CommitAddr|
                extra.contains(c) && rv.commits.contains_key(c) && #[trigger] walk::reaches(
                    step,
                    Item::Commit(c),
                    x,
                );
            assert(walk::reaches(mine, Item::Commit(c), x));
        }
    }
}

/// Bytes are live where a live graph refers to them, where an entry that goes with
/// something live does, and where their store is live as a whole.
pub proof fn law_live_bytes_are_referred_to<T>(
    rv: RegistryView<T>,
    extra: Seq<CommitAddr>,
    out: spec_fn(T) -> OutView,
    live: LiveSet,
    s: Seq<char>,
    a: ContentAddr,
    g: GraphAddr,
    id: Seq<char>,
    k: KeyView,
)
    requires
        reach::is_closure(rv, extra, out, live) || reach::is_closure_from(rv, extra, out, live),
    ensures
        live.graphs@.contains(g) && rv.graphs.contains_key(g) && out(rv.graphs[g]).blobs.contains(
            (s, a),
        ) ==> live.live_blob(s, a),
        rv.blobs.contains_key(s) && rv.blobs[s].liveness is Pinned
            && rv.blobs[s].entries.contains_key(a) ==> live.live_blob(s, a),
        rv.sections.contains_key(id) && rv.sections[id].entries.contains_key(k)
            && rv.sections[id].entries[k] == ValueView::Blob(s, a) && (match rv.sections[id].liveness {
            Liveness::Pinned => true,
            Liveness::Root => true,
            Liveness::WithCommit => k is Commit && live.commits@.contains(k->Commit_0),
            Liveness::WithGraph => k is Graph && live.graphs@.contains(k->Graph_0),
            Liveness::WithName => k is Name && rv.head(k->Name_0) is Some && live.commits@.contains(
                rv.head(k->Name_0)->0,
            ),
        }) ==> live.live_blob(s, a),
        live.live_blob(s, a) && !(rv.blobs.contains_key(s) && rv.blobs[s].liveness is Pinned)
            && !(exists|h: GraphAddr|
            live.graphs@.contains(h) && rv.graphs.contains_key(h) && (#[trigger] out(
                rv.graphs[h],
            )).blobs.contains((s, a))) ==> exists|i: Seq<char>, j: KeyView|
            rv.sections.contains_key(i) && (#[trigger] rv.sections[i].entries.contains_key(j))
                && rv.sections[i].entries[j] == ValueView::Blob(s, a),
{
    if reach::entry_blob(rv, id, k, live.commits@, live.graphs@, s, a) {
        assert(reach::section_blob(rv, live.commits@, live.graphs@, s, a));
        assert(live.live_blob(s, a));
    }
    if reach::section_blob(rv, live.commits@, live.graphs@, s, a) {
        let (i, j) = choose|i: Seq<char>, j: KeyView| #[trigger]
            reach::entry_blob(rv, i, j, live.commits@, live.graphs@, s, a);
        assert(rv.sections[i].entries.contains_key(j));
    }
    assert(live.live_blob(s, a) || !live.live_blob(s, a));
    assert(reach::graph_blob(rv, out, live.graphs@, s, a) || !reach::graph_blob(
        rv,
        out,
        live.graphs@,
        s,
        a,
    ));
}

/// The commits to start from are those that the heads lead to, in their order.
pub proof fn law_seeds_are_where_heads_lead<T>(
    rv: RegistryView<T>,
    a: Seq<HeadView>,
    b: Seq<HeadView>,
    n: Seq<Seq<char>>,
    c: CommitAddr,
)
    ensures
        seeds(rv, a + b) == seeds(rv, a) + seeds(rv, b),
        seeds(rv, seq![HeadView::Commit(c)]) == seq![c],
        rv.head(n) == Some(c) ==> seeds(rv, seq![HeadView::Branch(n)]) == seq![c],
        rv.head(n) is None ==> seeds(rv, seq![HeadView::Branch(n)]).len() == 0,
    decreases b.len(),
{
    let (x, y) = (HeadView::Commit(c), HeadView::Branch(n));
    assert(seq![x].drop_last() =~= Seq::empty());
    assert(seq![y].drop_last() =~= Seq::empty());
    assert(seeds(rv, Seq::empty()) =~= Seq::empty());
    assert(Seq::<CommitAddr>::empty().push(c) =~= seq![c]);
    if b.len() == 0 {
        assert(a + b =~= a);
        assert(seeds(rv, a) + seeds(rv, b) =~= seeds(rv, a));
    } else {
        law_seeds_are_where_heads_lead(rv, a, b.drop_last(), n, c);
        assert((a + b).drop_last() =~= a + b.drop_last());
        assert((a + b).last() == b.last());
        assert(seeds(rv, a + b) =~= seeds(rv, a) + seeds(rv, b));
    }
}

} // verus!
