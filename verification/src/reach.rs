//! The one reachability walk: what of a registry is live, and how the rest is
//! pruned.
//!
//! A commit leads to its parents and its graph. A graph leads to the graphs and
//! blobs that the application reports for it. The roots are the commits in the
//! entries of sections with `Root` liveness, and any further commits given.

use crate::addr::ContentAddr;
use crate::commit::{Commit, CommitAddr};
use crate::graph::GraphAddr;
use crate::registry::{
    BlobLiveness, KeyView, Liveness, Payload, Registry, RegistryView, SectionKey, Value, ValueView,
};
use crate::set::KeySet;
use crate::table::{self, Table};
use crate::walk;
use vstd::prelude::*;

verus! {

/// The outgoing references of a single graph, as the application reports them.
#[derive(Debug)]
pub struct OutRefs {
    /// Nested graphs.
    pub graphs: Vec<GraphAddr>,
    /// Blobs, each with its store.
    pub blobs: Vec<(String, ContentAddr)>,
}

/// What [`OutRefs`] denotes.
#[verifier::ext_equal]
pub struct OutView {
    pub graphs: Seq<GraphAddr>,
    pub blobs: Seq<(Seq<char>, ContentAddr)>,
}

impl View for OutRefs {
    type V = OutView;

    open spec fn view(&self) -> OutView {
        OutView {
            graphs: self.graphs@,
            blobs: self.blobs@.map_values(|b: (String, ContentAddr)| (b.0@, b.1)),
        }
    }
}

impl Payload for OutRefs {
    fn dup(&self) -> (r: Self) {
        let mut graphs: Vec<GraphAddr> = Vec::new();
        let mut i: usize = 0;
        while i < self.graphs.len()
            invariant
                i <= self.graphs@.len(),
                graphs@ =~= self.graphs@.take(i as int),
            decreases self.graphs@.len() - i,
        {
            graphs.push(self.graphs[i]);
            i = i + 1;
        }
        let mut blobs: Vec<(String, ContentAddr)> = Vec::new();
        let mut k: usize = 0;
        while k < self.blobs.len()
            invariant
                k <= self.blobs@.len(),
                blobs@.len() == k,
                forall|j: int|
                    0 <= j < k ==> (#[trigger] blobs@[j]).0@ == self.blobs@[j].0@ && blobs@[j].1
                        == self.blobs@[j].1,
            decreases self.blobs@.len() - k,
        {
            blobs.push((self.blobs[k].0.clone(), self.blobs[k].1));
            k = k + 1;
        }
        let r = OutRefs { graphs, blobs };
        assert(r@ =~= self@);
        r
    }
}

/// The live content of a registry.
#[derive(Debug)]
pub struct LiveSet {
    pub commits: KeySet<CommitAddr>,
    pub graphs: KeySet<GraphAddr>,
    pub blobs: Table<String, KeySet<ContentAddr>>,
}

/// Whether the blob sets hold the blob `a` of the store `s`.
pub open spec fn holds_blob(m: Map<Seq<char>, KeySet<ContentAddr>>, s: Seq<char>, a: ContentAddr) -> bool {
    m.contains_key(s) && m[s]@.contains(a)
}

impl LiveSet {
    /// Whether the given blob is live.
    pub open spec fn live_blob(&self, s: Seq<char>, a: ContentAddr) -> bool {
        holds_blob(self.blobs@, s, a)
    }

    /// Nothing live.
    pub fn new() -> (r: Self)
        ensures
            r.commits@ == Set::<CommitAddr>::empty(),
            r.graphs@ == Set::<GraphAddr>::empty(),
            forall|s: Seq<char>, a: ContentAddr| !#[trigger] r.live_blob(s, a),
    {
        LiveSet { commits: KeySet::new(), graphs: KeySet::new(), blobs: Table::new() }
    }

    /// Whether the given blob is live.
    pub fn blob_live(&self, section: &String, addr: &ContentAddr) -> (r: bool)
        ensures
            r == self.live_blob(section@, *addr),
    {
        match self.blobs.get(section) {
            Some(s) => s.contains(addr),
            None => false,
        }
    }
}

/// What the walk visits.
pub enum Item {
    Commit(CommitAddr),
    Graph(GraphAddr),
}

/// Whether `a` leads to `b`, both being in the registry. Graphs lead where `out`
/// says.
pub open spec fn refers<T>(rv: RegistryView<T>, out: spec_fn(T) -> OutView) -> spec_fn(Item, Item) -> bool {
    |a: Item, b: Item|
        match a {
            Item::Commit(c) => rv.commits.contains_key(c) && match b {
                Item::Commit(p) => rv.commits[c].parents().contains(p)
                    && rv.commits.contains_key(p),
                Item::Graph(g) => rv.commits[c].graph == g && rv.graphs.contains_key(g),
            },
            Item::Graph(g) => rv.graphs.contains_key(g) && match b {
                Item::Commit(_) => false,
                Item::Graph(h) => out(rv.graphs[g]).graphs.contains(h)
                    && rv.graphs.contains_key(h),
            },
        }
}

/// Whether a section entry makes `c` a root.
pub open spec fn rooted<T>(rv: RegistryView<T>, id: Seq<char>, k: KeyView, c: CommitAddr) -> bool {
    &&& rv.sections.contains_key(id)
    &&& rv.sections[id].liveness == Liveness::Root
    &&& rv.sections[id].entries.contains_key(k)
    &&& rv.sections[id].entries[k] == ValueView::Commit(c)
}

/// Whether `c` is a root: one of the given commits, or in an entry of a section
/// with `Root` liveness; and a commit of the registry.
pub open spec fn root<T>(rv: RegistryView<T>, extra: Seq<CommitAddr>, c: CommitAddr) -> bool {
    &&& rv.commits.contains_key(c)
    &&& extra.contains(c) || exists|id: Seq<char>, k: KeyView| #[trigger] rooted(rv, id, k, c)
}

/// Whether the walk from the roots comes to `x`.
pub open spec fn live_item<T>(
    rv: RegistryView<T>,
    extra: Seq<CommitAddr>,
    out: spec_fn(T) -> OutView,
    x: Item,
) -> bool {
    exists|c: CommitAddr|
        root(rv, extra, c) && #[trigger] walk::reaches(refers(rv, out), Item::Commit(c), x)
}

/// Whether the walk from the given commits, as far as the registry has them, comes to
/// `x`.
pub open spec fn live_from<T>(
    rv: RegistryView<T>,
    seeds: Seq<CommitAddr>,
    out: spec_fn(T) -> OutView,
    x: Item,
) -> bool {
    exists|c: CommitAddr|
        seeds.contains(c) && rv.commits.contains_key(c) && #[trigger] walk::reaches(
            refers(rv, out),
            Item::Commit(c),
            x,
        )
}

/// Whether an entry of a section with the given liveness is live, given what else
/// is.
pub open spec fn entry_is_live<T>(
    rv: RegistryView<T>,
    liveness: Liveness,
    k: KeyView,
    commits: Set<CommitAddr>,
    graphs: Set<GraphAddr>,
) -> bool {
    match liveness {
        Liveness::Pinned => true,
        Liveness::Root => true,
        Liveness::WithName => match k {
            KeyView::Name(n) => rv.head(n) is Some && commits.contains(rv.head(n)->0),
            _ => false,
        },
        Liveness::WithCommit => match k {
            KeyView::Commit(c) => commits.contains(c),
            _ => false,
        },
        Liveness::WithGraph => match k {
            KeyView::Graph(g) => graphs.contains(g),
            _ => false,
        },
    }
}

/// Whether a live graph refers to a blob.
pub open spec fn graph_blob<T>(
    rv: RegistryView<T>,
    out: spec_fn(T) -> OutView,
    graphs: Set<GraphAddr>,
    s: Seq<char>,
    a: ContentAddr,
) -> bool {
    exists|g: GraphAddr|
        graphs.contains(g) && rv.graphs.contains_key(g) && (#[trigger] out(
            rv.graphs[g],
        )).blobs.contains((s, a))
}

/// Whether a live section entry at `k` of section `id` refers to a blob.
pub open spec fn entry_blob<T>(
    rv: RegistryView<T>,
    id: Seq<char>,
    k: KeyView,
    commits: Set<CommitAddr>,
    graphs: Set<GraphAddr>,
    s: Seq<char>,
    a: ContentAddr,
) -> bool {
    &&& rv.sections.contains_key(id)
    &&& rv.sections[id].entries.contains_key(k)
    &&& rv.sections[id].entries[k] == ValueView::Blob(s, a)
    &&& entry_is_live(rv, rv.sections[id].liveness, k, commits, graphs)
}

/// Whether a live section entry refers to a blob.
pub open spec fn section_blob<T>(
    rv: RegistryView<T>,
    commits: Set<CommitAddr>,
    graphs: Set<GraphAddr>,
    s: Seq<char>,
    a: ContentAddr,
) -> bool {
    exists|id: Seq<char>, k: KeyView| #[trigger] entry_blob(rv, id, k, commits, graphs, s, a)
}

/// Whether a blob is in a store that is live as a whole.
pub open spec fn pinned_blob<T>(rv: RegistryView<T>, s: Seq<char>, a: ContentAddr) -> bool {
    rv.blobs.contains_key(s) && rv.blobs[s].liveness == BlobLiveness::Pinned
        && rv.blobs[s].entries.contains_key(a)
}

/// Whether the live blobs are those that live content refers to, and those of stores
/// that are live as a whole.
pub open spec fn blobs_follow<T>(
    rv: RegistryView<T>,
    out: spec_fn(T) -> OutView,
    live: LiveSet,
) -> bool {
    forall|s: Seq<char>, a: ContentAddr| #[trigger]
        live.live_blob(s, a) <==> graph_blob(rv, out, live.graphs@, s, a) || section_blob(
            rv,
            live.commits@,
            live.graphs@,
            s,
            a,
        ) || pinned_blob(rv, s, a)
}

/// Whether `live` is the closure of the registry's roots.
pub open spec fn is_closure<T>(
    rv: RegistryView<T>,
    extra: Seq<CommitAddr>,
    out: spec_fn(T) -> OutView,
    live: LiveSet,
) -> bool {
    &&& forall|c: CommitAddr| #[trigger]
        live.commits@.contains(c) <==> live_item(rv, extra, out, Item::Commit(c))
    &&& forall|g: GraphAddr| #[trigger]
        live.graphs@.contains(g) <==> live_item(rv, extra, out, Item::Graph(g))
    &&& blobs_follow(rv, out, live)
}

/// Whether `live` is the closure of the given commits alone.
pub open spec fn is_closure_from<T>(
    rv: RegistryView<T>,
    seeds: Seq<CommitAddr>,
    out: spec_fn(T) -> OutView,
    live: LiveSet,
) -> bool {
    &&& forall|c: CommitAddr| #[trigger]
        live.commits@.contains(c) <==> live_from(rv, seeds, out, Item::Commit(c))
    &&& forall|g: GraphAddr| #[trigger]
        live.graphs@.contains(g) <==> live_from(rv, seeds, out, Item::Graph(g))
    &&& blobs_follow(rv, out, live)
}

/// Whether `f` answers for every graph, and what it answers depends on what the
/// graph denotes alone.
pub open spec fn answers<G: Payload, F: Fn(&G) -> OutRefs>(f: F) -> bool {
    &&& forall|g: &G| call_requires(f, (g,))
    &&& forall|g: &G, h: &G, o: OutRefs, p: OutRefs|
        g@ == h@ && #[trigger] call_ensures(f, (g,), o) && #[trigger] call_ensures(f, (h,), p)
            ==> o@ == p@
}

/// What `f` answers for a graph that denotes `t`.
pub open spec fn answer<G: Payload, F: Fn(&G) -> OutRefs>(f: F) -> spec_fn(G::V) -> OutView {
    |t: G::V|
        (choose|p: (G, OutRefs)| p.0@ == t && #[trigger] call_ensures(f, (&p.0,), p.1)).1@
}

/// What was answered for a graph is the answer for what it denotes.
pub proof fn lemma_answer<G: Payload, F: Fn(&G) -> OutRefs>(f: F, g: G, o: OutRefs)
    requires
        answers::<G, F>(f),
        call_ensures(f, (&g,), o),
    ensures
        answer::<G, F>(f)(g@) == o@,
{
    let t = g@;
    let q = (g, o);
    assert(q.0@ == t && call_ensures(f, (&q.0,), q.1));
    let p = choose|p: (G, OutRefs)| p.0@ == t && #[trigger] call_ensures(f, (&p.0,), p.1);
    assert(p.0@ == t && call_ensures(f, (&p.0,), p.1));
}

fn add_blob(m: &mut Table<String, KeySet<ContentAddr>>, section: &String, addr: ContentAddr)
    ensures
        forall|s: Seq<char>, a: ContentAddr| #[trigger]
            holds_blob(final(m)@, s, a) <==> holds_blob(old(m)@, s, a) || (s == section@ && a
                == addr),
{
    let mut set = match m.take(section) {
        Some(set) => set,
        None => KeySet::new(),
    };
    let _ = set.insert(addr);
    m.insert(section.clone(), set);
}

/// Whether the graphs lead only to graphs among them.
spec fn graphs_closed<T>(
    rv: RegistryView<T>,
    out: spec_fn(T) -> OutView,
    graphs: Set<GraphAddr>,
    queue: Seq<GraphAddr>,
) -> bool {
    forall|g: GraphAddr, h: GraphAddr|
        graphs.contains(g) && #[trigger] refers(rv, out)(Item::Graph(g), Item::Graph(h))
            ==> graphs.contains(h) || queue.contains(h)
}

/// Whether the blob sets hold just what the graphs refer to.
spec fn blobs_match<T>(
    rv: RegistryView<T>,
    out: spec_fn(T) -> OutView,
    graphs: Set<GraphAddr>,
    blobs: Map<Seq<char>, KeySet<ContentAddr>>,
) -> bool {
    forall|s: Seq<char>, a: ContentAddr| #[trigger]
        holds_blob(blobs, s, a) <==> graph_blob(rv, out, graphs, s, a)
}

proof fn lemma_sub_len<A>(a: Set<A>, b: Set<A>)
    requires
        b.finite(),
        a.subset_of(b),
    ensures
        a.finite(),
        a.len() <= b.len(),
{
    vstd::set_lib::lemma_len_subset(a, b);
}

fn walk_graphs<G: Payload, F: Fn(&G) -> OutRefs>(
    reg: &Registry<G>,
    graph_out: &F,
    seed: GraphAddr,
    graphs: &mut KeySet<GraphAddr>,
    blobs: &mut Table<String, KeySet<ContentAddr>>,
)
    requires
        answers::<G, F>(*graph_out),
        old(graphs)@.subset_of(reg@.graphs.dom()),
        graphs_closed(reg@, answer::<G, F>(*graph_out), old(graphs)@, Seq::empty()),
        blobs_match(reg@, answer::<G, F>(*graph_out), old(graphs)@, old(blobs)@),
    ensures
        final(graphs)@.subset_of(reg@.graphs.dom()),
        old(graphs)@.subset_of(final(graphs)@),
        reg@.graphs.contains_key(seed) ==> final(graphs)@.contains(seed),
        forall|g: GraphAddr| #[trigger]
            final(graphs)@.contains(g) ==> old(graphs)@.contains(g) || walk::reaches(
                refers(reg@, answer::<G, F>(*graph_out)),
                Item::Graph(seed),
                Item::Graph(g),
            ),
        graphs_closed(reg@, answer::<G, F>(*graph_out), final(graphs)@, Seq::empty()),
        blobs_match(reg@, answer::<G, F>(*graph_out), final(graphs)@, final(blobs)@),
{
    let ghost rv = reg@;
    let ghost out = answer::<G, F>(*graph_out);
    let ghost step = refers(rv, out);
    let ghost graphs0 = graphs@;
    let n: usize = reg.graphs.len();
    let mut queue: Vec<GraphAddr> = vec![seed];
    proof {
        assert(queue@ =~= seq![seed]);
        assert(rv.graphs.dom() =~= reg.graphs@.dom());
        walk::lemma_reaches_self(step, Item::Graph(seed));
        assert(queue@.contains(seed)) by {
            assert(queue@[0] == seed);
        }
    }
    while queue.len() > 0
        invariant
            answers::<G, F>(*graph_out),
            rv == reg@,
            out == answer::<G, F>(*graph_out),
            step == refers(rv, out),
            rv.graphs.dom().finite(),
            n == rv.graphs.dom().len(),
            graphs@.subset_of(rv.graphs.dom()),
            graphs0.subset_of(graphs@),
            rv.graphs.contains_key(seed) ==> graphs@.contains(seed) || queue@.contains(seed),
            forall|g: GraphAddr| #[trigger]
                graphs@.contains(g) ==> graphs0.contains(g) || walk::reaches(
                    step,
                    Item::Graph(seed),
                    Item::Graph(g),
                ),
            forall|i: int|
                0 <= i < queue@.len() && rv.graphs.contains_key(#[trigger] queue@[i])
                    ==> walk::reaches(step, Item::Graph(seed), Item::Graph(queue@[i])),
            graphs_closed(rv, out, graphs@, queue@),
            blobs_match(rv, out, graphs@, blobs@),
        decreases n - graphs@.len(), queue@.len(),
    {
        let ghost queue0 = queue@;
        let ghost before = graphs@;
        proof {
            lemma_sub_len(graphs@, rv.graphs.dom());
        }
        if let Some(ga) = queue.pop() {
            proof {
                assert(queue0 =~= queue@.push(ga));
                assert(queue0[queue0.len() - 1] == ga);
                assert forall|h: GraphAddr| #[trigger] queue0.contains(h) implies queue@.contains(h)
                    || h == ga by {
                    let j = choose|j: int| 0 <= j < queue0.len() && queue0[j] == h;
                    if j < queue@.len() {
                        assert(queue@[j] == h);
                    }
                }
                assert forall|i: int|
                    0 <= i < queue@.len() && rv.graphs.contains_key(#[trigger] queue@[i])
                    implies walk::reaches(step, Item::Graph(seed), Item::Graph(queue@[i])) by {
                    assert(queue@[i] == queue0[i]);
                }
            }
            match reg.graph(&ga) {
                Some(graph) => {
                    if graphs.insert(ga) {
                        let refs = graph_out(graph);
                        proof {
                            lemma_answer::<G, F>(*graph_out, *graph, refs);
                            assert(out(rv.graphs[ga]) == refs@);
                            lemma_sub_len(graphs@, rv.graphs.dom());
                            assert(graphs@.len() == before.len() + 1);
                        }
                        let ghost queue1 = queue@;
                        let mut i: usize = 0;
                        while i < refs.graphs.len()
                            invariant
                                i <= refs.graphs@.len(),
                                refs@ == out(rv.graphs[ga]),
                                rv.graphs.contains_key(ga),
                                step == refers(rv, out),
                                queue@ =~= queue1 + refs.graphs@.take(i as int),
                            decreases refs.graphs@.len() - i,
                        {
                            queue.push(refs.graphs[i]);
                            i = i + 1;
                        }
                        assert(refs.graphs@.take(i as int) =~= refs.graphs@);
                        let ghost blobs1 = blobs@;
                        let mut k: usize = 0;
                        while k < refs.blobs.len()
                            invariant
                                k <= refs.blobs@.len(),
                                forall|s: Seq<char>, a: ContentAddr| #[trigger]
                                    holds_blob(blobs@, s, a) <==> holds_blob(blobs1, s, a)
                                        || exists|j: int|
                                        0 <= j < k && (#[trigger] refs.blobs@[j]).0@ == s
                                            && refs.blobs@[j].1 == a,
                            decreases refs.blobs@.len() - k,
                        {
                            let ghost blobs2 = blobs@;
                            let b = &refs.blobs[k];
                            add_blob(blobs, &b.0, b.1);
                            proof {
                                assert forall|s: Seq<char>, a: ContentAddr| #[trigger]
                                    holds_blob(blobs@, s, a) <==> holds_blob(blobs1, s, a)
                                        || exists|j: int|
                                        0 <= j < k + 1 && (#[trigger] refs.blobs@[j]).0@ == s
                                            && refs.blobs@[j].1 == a by {
                                    if s == b.0@ && a == b.1 {
                                        assert(refs.blobs@[k as int].0@ == s);
                                    }
                                    assert(holds_blob(blobs@, s, a) <==> holds_blob(blobs2, s, a)
                                        || (s == b.0@ && a == b.1));
                                }
                            }
                            k = k + 1;
                        }
                        proof {
                            lemma_walk_step(
                                rv,
                                out,
                                seed,
                                ga,
                                refs,
                                before,
                                graphs@,
                                queue1,
                                queue@,
                                blobs1,
                                blobs@,
                            );
                        }
                    } else {
                        proof {
                            assert(graphs@ =~= before);
                            assert(graphs_closed(rv, out, graphs@, queue@));
                        }
                    }
                },
                None => {
                    proof {
                        assert(graphs_closed(rv, out, graphs@, queue@)) by {
                            assert forall|g: GraphAddr, h: GraphAddr|
                                graphs@.contains(g) && #[trigger] refers(rv, out)(
                                    Item::Graph(g),
                                    Item::Graph(h),
                                ) implies graphs@.contains(h) || queue@.contains(h) by {
                                assert(rv.graphs.contains_key(h));
                            }
                        }
                    }
                },
            }
        }
    }
    proof {
        assert(queue@ =~= Seq::empty());
    }
}

/// One step of the walk over graphs: `ga` becomes live, what it leads to is
/// queued, and the blobs it refers to become live.
proof fn lemma_walk_step<T>(
    rv: RegistryView<T>,
    out: spec_fn(T) -> OutView,
    seed: GraphAddr,
    ga: GraphAddr,
    refs: OutRefs,
    graphs: Set<GraphAddr>,
    graphs1: Set<GraphAddr>,
    queue: Seq<GraphAddr>,
    queue1: Seq<GraphAddr>,
    blobs: Map<Seq<char>, KeySet<ContentAddr>>,
    blobs1: Map<Seq<char>, KeySet<ContentAddr>>,
)
    requires
        rv.graphs.contains_key(ga),
        out(rv.graphs[ga]) == refs@,
        walk::reaches(refers(rv, out), Item::Graph(seed), Item::Graph(ga)),
        graphs1 == graphs.insert(ga),
        queue1 == queue + refs.graphs@,
        graphs_closed(rv, out, graphs, queue.push(ga)),
        forall|i: int|
            0 <= i < queue.len() && rv.graphs.contains_key(#[trigger] queue[i]) ==> walk::reaches(
                refers(rv, out),
                Item::Graph(seed),
                Item::Graph(queue[i]),
            ),
        blobs_match(rv, out, graphs, blobs),
        forall|s: Seq<char>, a: ContentAddr| #[trigger]
            holds_blob(blobs1, s, a) <==> holds_blob(blobs, s, a) || exists|j: int|
                0 <= j < refs.blobs@.len() && (#[trigger] refs.blobs@[j]).0@ == s
                    && refs.blobs@[j].1 == a,
    ensures
        graphs_closed(rv, out, graphs1, queue1),
        forall|i: int|
            0 <= i < queue1.len() && rv.graphs.contains_key(#[trigger] queue1[i])
                ==> walk::reaches(refers(rv, out), Item::Graph(seed), Item::Graph(queue1[i])),
        blobs_match(rv, out, graphs1, blobs1),
        forall|h: GraphAddr| queue.contains(h) ==> #[trigger] queue1.contains(h),
{
    let step = refers(rv, out);
    assert forall|h: GraphAddr| queue.contains(h) implies #[trigger] queue1.contains(h) by {
        let j = choose|j: int| 0 <= j < queue.len() && queue[j] == h;
        assert(queue1[j] == h);
    }
    assert forall|g: GraphAddr, h: GraphAddr|
        graphs1.contains(g) && #[trigger] step(Item::Graph(g), Item::Graph(h))
        implies graphs1.contains(h) || queue1.contains(h) by {
        if g == ga {
            let j = choose|j: int| 0 <= j < refs.graphs@.len() && refs.graphs@[j] == h;
            assert(queue1[queue.len() + j] == h);
        } else {
            assert(graphs.contains(g));
            assert(graphs.contains(h) || queue.push(ga).contains(h));
            if queue.push(ga).contains(h) && h != ga {
                let j = choose|j: int| 0 <= j < queue.push(ga).len() && queue.push(ga)[j] == h;
                assert(queue[j] == h);
            }
        }
    }
    assert forall|i: int| 0 <= i < queue1.len() && rv.graphs.contains_key(#[trigger] queue1[i])
        implies walk::reaches(step, Item::Graph(seed), Item::Graph(queue1[i])) by {
        if i < queue.len() {
            assert(queue1[i] == queue[i]);
        } else {
            assert(queue1[i] == refs.graphs@[i - queue.len()]);
            assert(step(Item::Graph(ga), Item::Graph(queue1[i])));
            walk::lemma_reaches_step(
                step,
                Item::Graph(seed),
                Item::Graph(ga),
                Item::Graph(queue1[i]),
            );
        }
    }
    assert forall|s: Seq<char>, a: ContentAddr| #[trigger]
        holds_blob(blobs1, s, a) <==> graph_blob(rv, out, graphs1, s, a) by {
        if graph_blob(rv, out, graphs, s, a) {
            let g = choose|g: GraphAddr|
                graphs.contains(g) && rv.graphs.contains_key(g) && (#[trigger] out(
                    rv.graphs[g],
                )).blobs.contains((s, a));
            assert(graphs1.contains(g) && out(rv.graphs[g]).blobs.contains((s, a)));
        }
        let mine = exists|j: int|
            0 <= j < refs.blobs@.len() && (#[trigger] refs.blobs@[j]).0@ == s && refs.blobs@[j].1
                == a;
        assert(mine == refs@.blobs.contains((s, a))) by {
            if mine {
                let j = choose|j: int|
                    0 <= j < refs.blobs@.len() && (#[trigger] refs.blobs@[j]).0@ == s
                        && refs.blobs@[j].1 == a;
                assert(refs@.blobs[j] == (s, a));
            }
            if refs@.blobs.contains((s, a)) {
                let j = choose|j: int| 0 <= j < refs@.blobs.len() && refs@.blobs[j] == (s, a);
                assert(refs.blobs@[j].0@ == s);
            }
        }
        if mine {
            assert(graphs1.contains(ga) && out(rv.graphs[ga]).blobs.contains((s, a)));
        }
        if graph_blob(rv, out, graphs1, s, a) {
            let g = choose|g: GraphAddr|
                graphs1.contains(g) && rv.graphs.contains_key(g) && (#[trigger] out(
                    rv.graphs[g],
                )).blobs.contains((s, a));
            if g != ga {
                assert(graphs.contains(g));
            }
        }
    }
}

/// Whether an entry of section `id` makes `c` a root.
spec fn rooted_in<T>(rv: RegistryView<T>, id: Seq<char>, c: CommitAddr) -> bool {
    exists|k: KeyView| #[trigger] rooted(rv, id, k, c)
}

/// The commits in the entries of sections with `Root` liveness.
fn root_commits<G: Payload>(reg: &Registry<G>) -> (r: Vec<CommitAddr>)
    ensures
        forall|c: CommitAddr| #[trigger]
            r@.contains(c) <==> exists|id: Seq<char>, k: KeyView| #[trigger]
                rooted(reg@, id, k, c),
{
    let ghost rv = reg@;
    let mut r: Vec<CommitAddr> = Vec::new();
    let list = reg.sections.entries();
    let ghost m = reg.sections@;
    let mut i: usize = 0;
    while i < list.len()
        invariant
            rv == reg@,
            m == reg.sections@,
            table::lists(list@, m),
            i <= list@.len(),
            forall|c: CommitAddr| #[trigger]
                r@.contains(c) <==> exists|id: Seq<char>, k: KeyView, j: int|
                    0 <= j < i && #[trigger] list@[j].0@ == id && #[trigger] rooted(rv, id, k, c),
        decreases list@.len() - i,
    {
        let section = &list[i].1;
        let ghost id = list@[i as int].0@;
        let ghost before = r@;
        proof {
            table::lemma_entry(list@, i as int);
            assert(rv.sections.contains_key(id) && rv.sections[id] == section@);
        }
        if section.liveness == Liveness::Root {
            let entries = section.entries.entries();
            let ghost em = section.entries@;
            let mut j: usize = 0;
            while j < entries.len()
                invariant
                    table::lists(entries@, em),
                    em == section.entries@,
                    rv.sections.contains_key(id),
                    rv.sections[id] == section@,
                    section.liveness == Liveness::Root,
                    j <= entries@.len(),
                    forall|c: CommitAddr| #[trigger]
                        r@.contains(c) <==> before.contains(c) || exists|x: int|
                            0 <= x < j && (#[trigger] entries@[x]).1@ == ValueView::Commit(c),
                decreases entries@.len() - j,
            {
                let ghost mid = r@;
                if let Value::Commit(ca) = &entries[j].1 {
                    r.push(*ca);
                    proof {
                        assert forall|c: CommitAddr| #[trigger] r@.contains(c) <==> mid.contains(c)
                            || c == *ca by {
                            if mid.contains(c) {
                                let x = choose|x: int| 0 <= x < mid.len() && mid[x] == c;
                                assert(r@[x] == c);
                            }
                            if c == *ca {
                                assert(r@[mid.len() as int] == c);
                            }
                            if r@.contains(c) {
                                let x = choose|x: int| 0 <= x < r@.len() && r@[x] == c;
                                if x < mid.len() {
                                    assert(mid[x] == c);
                                }
                            }
                        }
                    }
                }
                proof {
                    assert forall|c: CommitAddr| #[trigger]
                        r@.contains(c) <==> before.contains(c) || exists|x: int|
                            0 <= x < j + 1 && (#[trigger] entries@[x]).1@ == ValueView::Commit(
                                c,
                            ) by {
                        let here = entries@[j as int].1@ == ValueView::Commit(c);
                        assert(r@.contains(c) <==> mid.contains(c) || here);
                    }
                }
                j = j + 1;
            }
            proof {
                assert forall|c: CommitAddr|
                    (exists|x: int|
                        0 <= x < entries@.len() && (#[trigger] entries@[x]).1@
                            == ValueView::Commit(c)) == #[trigger] rooted_in(rv, id, c) by {
                    if exists|x: int|
                        0 <= x < entries@.len() && (#[trigger] entries@[x]).1@
                            == ValueView::Commit(c) {
                        let x = choose|x: int|
                            0 <= x < entries@.len() && (#[trigger] entries@[x]).1@
                                == ValueView::Commit(c);
                        table::lemma_entry(entries@, x);
                        assert(rooted(rv, id, entries@[x].0@, c));
                    }
                    if exists|k: KeyView| #[trigger] rooted(rv, id, k, c) {
                        let k = choose|k: KeyView| #[trigger] rooted(rv, id, k, c);
                        let x = choose|x: int|
                            0 <= x < entries@.len() && #[trigger] entries@[x].0@ == k;
                        table::lemma_entry(entries@, x);
                        assert(entries@[x].1@ == ValueView::Commit(c));
                    }
                }
            }
        }
        proof {
            assert forall|c: CommitAddr| #[trigger]
                r@.contains(c) <==> exists|id: Seq<char>, k: KeyView, j: int|
                    0 <= j < i + 1 && #[trigger] list@[j].0@ == id && #[trigger] rooted(
                        rv,
                        id,
                        k,
                        c,
                    ) by {
                let here = rooted_in(rv, id, c);
                assert(r@.contains(c) <==> before.contains(c) || here);
                if here {
                    let k = choose|k: KeyView| #[trigger] rooted(rv, id, k, c);
                    assert(list@[i as int].0@ == id && rooted(rv, id, k, c));
                }
                if before.contains(c) {
                    let (id2, k, j) = choose|id2: Seq<char>, k: KeyView, j: int|
                        0 <= j < i && #[trigger] list@[j].0@ == id2 && #[trigger] rooted(
                            rv,
                            id2,
                            k,
                            c,
                        );
                    assert(list@[j].0@ == id2 && rooted(rv, id2, k, c));
                }
            }
        }
        i = i + 1;
    }
    proof {
        assert forall|c: CommitAddr| #[trigger]
            r@.contains(c) <==> exists|id: Seq<char>, k: KeyView| #[trigger]
                rooted(rv, id, k, c) by {
            if exists|id: Seq<char>, k: KeyView| #[trigger] rooted(rv, id, k, c) {
                let (id, k) = choose|id: Seq<char>, k: KeyView| #[trigger] rooted(rv, id, k, c);
                assert(m.contains_key(id));
                let j = choose|j: int| 0 <= j < list@.len() && #[trigger] list@[j].0@ == id;
                assert(list@[j].0@ == id && rooted(rv, id, k, c));
            }
        }
    }
    r
}

/// Whether the commits lead only to commits and graphs among those given.
spec fn commits_closed<T>(
    rv: RegistryView<T>,
    out: spec_fn(T) -> OutView,
    commits: Set<CommitAddr>,
    graphs: Set<GraphAddr>,
    queue: Seq<CommitAddr>,
) -> bool {
    &&& forall|c: CommitAddr, p: CommitAddr|
        commits.contains(c) && #[trigger] refers(rv, out)(Item::Commit(c), Item::Commit(p))
            ==> commits.contains(p) || queue.contains(p)
    &&& forall|c: CommitAddr, g: GraphAddr|
        commits.contains(c) && #[trigger] refers(rv, out)(Item::Commit(c), Item::Graph(g))
            ==> graphs.contains(g)
}

/// Whether a section entry is live, given what else is.
fn entry_live<G: Payload>(reg: &Registry<G>, liveness: Liveness, key: &SectionKey, live: &LiveSet) -> (r: bool)
    ensures
        r == entry_is_live(reg@, liveness, key@, live.commits@, live.graphs@),
{
    match liveness {
        Liveness::Pinned => true,
        Liveness::Root => true,
        Liveness::WithName => match key {
            SectionKey::Name(n) => match reg.head(n) {
                Some(c) => live.commits.contains(&c),
                None => false,
            },
            _ => false,
        },
        Liveness::WithCommit => match key {
            SectionKey::Commit(c) => live.commits.contains(c),
            _ => false,
        },
        Liveness::WithGraph => match key {
            SectionKey::Graph(g) => live.graphs.contains(g),
            _ => false,
        },
    }
}

/// Makes the blobs live that live section entries refer to.
fn add_section_blobs<G: Payload>(reg: &Registry<G>, live: &mut LiveSet)
    ensures
        final(live).commits@ == old(live).commits@,
        final(live).graphs@ == old(live).graphs@,
        forall|s: Seq<char>, a: ContentAddr| #[trigger]
            final(live).live_blob(s, a) <==> old(live).live_blob(s, a) || section_blob(
                reg@,
                old(live).commits@,
                old(live).graphs@,
                s,
                a,
            ),
{
    let ghost rv = reg@;
    let ghost blobs0 = live.blobs@;
    let ghost commits = live.commits@;
    let ghost graphs = live.graphs@;
    let list = reg.sections.entries();
    let ghost m = reg.sections@;
    let mut i: usize = 0;
    while i < list.len()
        invariant
            rv == reg@,
            m == reg.sections@,
            table::lists(list@, m),
            live.commits@ == commits,
            live.graphs@ == graphs,
            i <= list@.len(),
            forall|s: Seq<char>, a: ContentAddr| #[trigger]
                holds_blob(live.blobs@, s, a) <==> holds_blob(blobs0, s, a) || exists|
                    id: Seq<char>,
                    k: KeyView,
                    j: int,
                |
                    0 <= j < i && #[trigger] list@[j].0@ == id && #[trigger] entry_blob(
                        rv,
                        id,
                        k,
                        commits,
                        graphs,
                        s,
                        a,
                    ),
        decreases list@.len() - i,
    {
        let section = &list[i].1;
        let ghost id = list@[i as int].0@;
        let ghost before = live.blobs@;
        proof {
            table::lemma_entry(list@, i as int);
            assert(rv.sections.contains_key(id) && rv.sections[id] == section@);
        }
        let entries = section.entries.entries();
        let ghost em = section.entries@;
        let mut j: usize = 0;
        while j < entries.len()
            invariant
                rv == reg@,
                table::lists(entries@, em),
                em == section.entries@,
                rv.sections.contains_key(id),
                rv.sections[id] == section@,
                live.commits@ == commits,
                live.graphs@ == graphs,
                j <= entries@.len(),
                forall|s: Seq<char>, a: ContentAddr| #[trigger]
                    holds_blob(live.blobs@, s, a) <==> holds_blob(before, s, a) || exists|x: int|
                        0 <= x < j && entry_blob(
                            rv,
                            id,
                            (#[trigger] entries@[x]).0@,
                            commits,
                            graphs,
                            s,
                            a,
                        ),
            decreases entries@.len() - j,
        {
            let e = &entries[j];
            let ghost mid = live.blobs@;
            proof {
                table::lemma_entry(entries@, j as int);
            }
            if let Value::Blob(store, addr) = &e.1 {
                if entry_live(reg, section.liveness, &e.0, live) {
                    add_blob(&mut live.blobs, store, *addr);
                }
            }
            proof {
                assert forall|s: Seq<char>, a: ContentAddr| #[trigger]
                    holds_blob(live.blobs@, s, a) <==> holds_blob(before, s, a) || exists|x: int|
                        0 <= x < j + 1 && entry_blob(
                            rv,
                            id,
                            (#[trigger] entries@[x]).0@,
                            commits,
                            graphs,
                            s,
                            a,
                        ) by {
                    let here = entry_blob(rv, id, entries@[j as int].0@, commits, graphs, s, a);
                    assert(holds_blob(live.blobs@, s, a) <==> holds_blob(mid, s, a) || here);
                }
            }
            j = j + 1;
        }
        proof {
            assert forall|s: Seq<char>, a: ContentAddr| #[trigger]
                holds_blob(live.blobs@, s, a) <==> holds_blob(blobs0, s, a) || exists|
                    id: Seq<char>,
                    k: KeyView,
                    j: int,
                |
                    0 <= j < i + 1 && #[trigger] list@[j].0@ == id && #[trigger] entry_blob(
                        rv,
                        id,
                        k,
                        commits,
                        graphs,
                        s,
                        a,
                    ) by {
                let here = exists|x: int|
                    0 <= x < entries@.len() && entry_blob(
                        rv,
                        id,
                        (#[trigger] entries@[x]).0@,
                        commits,
                        graphs,
                        s,
                        a,
                    );
                assert(holds_blob(live.blobs@, s, a) <==> holds_blob(before, s, a) || here);
                if here {
                    let x = choose|x: int|
                        0 <= x < entries@.len() && entry_blob(
                            rv,
                            id,
                            (#[trigger] entries@[x]).0@,
                            commits,
                            graphs,
                            s,
                            a,
                        );
                    assert(list@[i as int].0@ == id && entry_blob(
                        rv,
                        id,
                        entries@[x].0@,
                        commits,
                        graphs,
                        s,
                        a,
                    ));
                }
                if exists|id2: Seq<char>, k: KeyView, j: int|
                    0 <= j < i + 1 && #[trigger] list@[j].0@ == id2 && #[trigger] entry_blob(
                        rv,
                        id2,
                        k,
                        commits,
                        graphs,
                        s,
                        a,
                    ) {
                    let (id2, k, j) = choose|id2: Seq<char>, k: KeyView, j: int|
                        0 <= j < i + 1 && #[trigger] list@[j].0@ == id2 && #[trigger] entry_blob(
                            rv,
                            id2,
                            k,
                            commits,
                            graphs,
                            s,
                            a,
                        );
                    if j == i {
                        let x = choose|x: int|
                            0 <= x < entries@.len() && #[trigger] entries@[x].0@ == k;
                        assert(entry_blob(rv, id, entries@[x].0@, commits, graphs, s, a));
                    } else {
                        assert(list@[j].0@ == id2);
                    }
                }
                if holds_blob(before, s, a) && !holds_blob(blobs0, s, a) {
                    let (id2, k, j) = choose|id2: Seq<char>, k: KeyView, j: int|
                        0 <= j < i && #[trigger] list@[j].0@ == id2 && #[trigger] entry_blob(
                            rv,
                            id2,
                            k,
                            commits,
                            graphs,
                            s,
                            a,
                        );
                    assert(list@[j].0@ == id2 && entry_blob(
                        rv,
                        id2,
                        k,
                        commits,
                        graphs,
                        s,
                        a,
                    ));
                }
            }
        }
        i = i + 1;
    }
    proof {
        assert forall|s: Seq<char>, a: ContentAddr| #[trigger]
            live.live_blob(s, a) <==> old(live).live_blob(s, a) || section_blob(
                rv,
                commits,
                graphs,
                s,
                a,
            ) by {
            assert(holds_blob(live.blobs@, s, a) == live.live_blob(s, a));
            if section_blob(rv, commits, graphs, s, a) {
                let (id, k) = choose|id: Seq<char>, k: KeyView| #[trigger]
                    entry_blob(rv, id, k, commits, graphs, s, a);
                assert(m.contains_key(id));
                let j = choose|j: int| 0 <= j < list@.len() && #[trigger] list@[j].0@ == id;
                assert(list@[j].0@ == id && entry_blob(rv, id, k, commits, graphs, s, a));
            }
        }
    }
}

/// Makes the blobs live that are in stores live as a whole.
fn add_pinned_blobs<G: Payload>(reg: &Registry<G>, live: &mut LiveSet)
    ensures
        final(live).commits@ == old(live).commits@,
        final(live).graphs@ == old(live).graphs@,
        forall|s: Seq<char>, a: ContentAddr| #[trigger]
            final(live).live_blob(s, a) <==> old(live).live_blob(s, a) || pinned_blob(reg@, s, a),
{
    let ghost rv = reg@;
    let ghost blobs0 = live.blobs@;
    let ghost commits = live.commits@;
    let ghost graphs = live.graphs@;
    let list = reg.blobs.entries();
    let ghost m = reg.blobs@;
    let mut i: usize = 0;
    while i < list.len()
        invariant
            rv == reg@,
            m == reg.blobs@,
            table::lists(list@, m),
            live.commits@ == commits,
            live.graphs@ == graphs,
            i <= list@.len(),
            forall|s: Seq<char>, a: ContentAddr| #[trigger]
                holds_blob(live.blobs@, s, a) <==> holds_blob(blobs0, s, a) || (pinned_blob(
                    rv,
                    s,
                    a,
                ) && exists|j: int| 0 <= j < i && #[trigger] list@[j].0@ == s),
        decreases list@.len() - i,
    {
        let store = &list[i].1;
        let ghost id = list@[i as int].0@;
        let ghost before = live.blobs@;
        proof {
            table::lemma_entry(list@, i as int);
            assert(rv.blobs.contains_key(id) && rv.blobs[id] == store@);
        }
        if store.liveness == BlobLiveness::Pinned {
            let entries = store.entries.entries();
            let ghost em = store.entries@;
            let mut j: usize = 0;
            while j < entries.len()
                invariant
                    table::lists(entries@, em),
                    live.commits@ == commits,
                    live.graphs@ == graphs,
                    list@[i as int].0@ == id,
                    i < list@.len(),
                    j <= entries@.len(),
                    forall|s: Seq<char>, a: ContentAddr| #[trigger]
                        holds_blob(live.blobs@, s, a) <==> holds_blob(before, s, a) || (s == id
                            && exists|x: int| 0 <= x < j && (#[trigger] entries@[x]).0@ == a),
                decreases entries@.len() - j,
            {
                let ghost mid = live.blobs@;
                let addr: ContentAddr = entries[j].0;
                add_blob(&mut live.blobs, &list[i].0, addr);
                proof {
                    assert forall|s: Seq<char>, a: ContentAddr| #[trigger]
                        holds_blob(live.blobs@, s, a) <==> holds_blob(before, s, a) || (s == id
                            && exists|x: int| 0 <= x < j + 1 && (#[trigger] entries@[x]).0@ == a) by {
                        assert(entries@[j as int].0@ == addr);
                        assert(holds_blob(live.blobs@, s, a) <==> holds_blob(mid, s, a) || (s == id
                            && a == addr));
                    }
                }
                j = j + 1;
            }
            proof {
                assert forall|a: ContentAddr|
                    (exists|x: int| 0 <= x < entries@.len() && (#[trigger] entries@[x]).0@ == a)
                        == #[trigger] pinned_blob(rv, id, a) by {
                    assert(em.contains_key(a) == store@.entries.contains_key(a));
                }
            }
        }
        proof {
            assert forall|s: Seq<char>, a: ContentAddr| #[trigger]
                holds_blob(live.blobs@, s, a) <==> holds_blob(blobs0, s, a) || (pinned_blob(
                    rv,
                    s,
                    a,
                ) && exists|j: int| 0 <= j < i + 1 && #[trigger] list@[j].0@ == s) by {
                assert(holds_blob(live.blobs@, s, a) <==> holds_blob(before, s, a) || (s == id
                    && pinned_blob(rv, id, a)));
                assert(list@[i as int].0@ == id);
            }
        }
        i = i + 1;
    }
    proof {
        assert forall|s: Seq<char>, a: ContentAddr| #[trigger]
            live.live_blob(s, a) <==> old(live).live_blob(s, a) || pinned_blob(rv, s, a) by {
            assert(holds_blob(live.blobs@, s, a) == live.live_blob(s, a));
            if pinned_blob(rv, s, a) {
                assert(m.contains_key(s));
                let j = choose|j: int| 0 <= j < list@.len() && #[trigger] list@[j].0@ == s;
                assert(list@[j].0@ == s);
            }
        }
    }
}

/// The live closure of `reg` from the given commits. `graph_out` tells what a graph
/// refers to. References to what the registry does not hold are passed over.
pub fn closure_from<G: Payload, F: Fn(&G) -> OutRefs>(
    reg: &Registry<G>,
    commits: &Vec<CommitAddr>,
    graph_out: F,
) -> (live: LiveSet)
    requires
        answers::<G, F>(graph_out),
    ensures
        is_closure_from(reg@, commits@, answer::<G, F>(graph_out), live),
{
    let ghost rv = reg@;
    let ghost seeds = commits@;
    let ghost out = answer::<G, F>(graph_out);
    let ghost step = refers(rv, out);
    let n: usize = reg.commits.len();
    let mut live = LiveSet::new();
    let mut queue: Vec<CommitAddr> = Vec::new();
    let mut i: usize = 0;
    while i < commits.len()
        invariant
            i <= commits@.len(),
            queue@ =~= commits@.take(i as int),
        decreases commits@.len() - i,
    {
        queue.push(commits[i]);
        i = i + 1;
    }
    proof {
        assert(queue@ =~= seeds);
        assert(rv.commits.dom() =~= reg.commits@.dom());
        assert forall|j: int| 0 <= j < queue@.len() && rv.commits.contains_key(#[trigger] queue@[j])
            implies live_from(rv, seeds, out, Item::Commit(queue@[j])) by {
            assert(seeds.contains(queue@[j]));
            walk::lemma_reaches_self(step, Item::Commit(queue@[j]));
        }
        assert forall|s: Seq<char>, a: ContentAddr| #[trigger]
            holds_blob(live.blobs@, s, a) <==> graph_blob(rv, out, live.graphs@, s, a) by {
            assert(!live.live_blob(s, a));
        }
    }
    while queue.len() > 0
        invariant
            answers::<G, F>(graph_out),
            rv == reg@,
            out == answer::<G, F>(graph_out),
            step == refers(rv, out),
            rv.commits.dom().finite(),
            n == rv.commits.dom().len(),
            live.commits@.subset_of(rv.commits.dom()),
            live.graphs@.subset_of(rv.graphs.dom()),
            forall|c: CommitAddr| #[trigger] seeds.contains(c) && rv.commits.contains_key(c) ==> live.commits@.contains(c)
                || queue@.contains(c),
            forall|c: CommitAddr| #[trigger]
                live.commits@.contains(c) ==> live_from(rv, seeds, out, Item::Commit(c)),
            forall|g: GraphAddr| #[trigger]
                live.graphs@.contains(g) ==> live_from(rv, seeds, out, Item::Graph(g)),
            forall|j: int|
                0 <= j < queue@.len() && rv.commits.contains_key(#[trigger] queue@[j])
                    ==> live_from(rv, seeds, out, Item::Commit(queue@[j])),
            commits_closed(rv, out, live.commits@, live.graphs@, queue@),
            graphs_closed(rv, out, live.graphs@, Seq::empty()),
            blobs_match(rv, out, live.graphs@, live.blobs@),
        decreases n - live.commits@.len(), queue@.len(),
    {
        let ghost queue0 = queue@;
        let ghost commits0 = live.commits@;
        let ghost graphs0 = live.graphs@;
        proof {
            lemma_sub_len(live.commits@, rv.commits.dom());
        }
        if let Some(ca) = queue.pop() {
            proof {
                assert(queue0 =~= queue@.push(ca));
                assert(queue0[queue0.len() - 1] == ca);
                assert forall|h: CommitAddr| #[trigger] queue0.contains(h) implies queue@.contains(h)
                    || h == ca by {
                    let j = choose|j: int| 0 <= j < queue0.len() && queue0[j] == h;
                    if j < queue@.len() {
                        assert(queue@[j] == h);
                    }
                }
                assert forall|j: int|
                    0 <= j < queue@.len() && rv.commits.contains_key(#[trigger] queue@[j])
                    implies live_from(rv, seeds, out, Item::Commit(queue@[j])) by {
                    assert(queue@[j] == queue0[j]);
                }
            }
            match reg.commit(&ca) {
                Some(commit) => {
                    if live.commits.insert(ca) {
                        let mut parents = commit.parents();
                        let ghost ps = parents@;
                        let ghost queue1 = queue@;
                        queue.append(&mut parents);
                        proof {
                            lemma_sub_len(live.commits@, rv.commits.dom());
                            assert(live.commits@.len() == commits0.len() + 1);
                            assert(queue@ =~= queue1 + ps);
                            assert(rv.commits[ca].parents() == ps);
                        }
                        walk_graphs(
                            reg,
                            &graph_out,
                            commit.graph,
                            &mut live.graphs,
                            &mut live.blobs,
                        );
                        proof {
                            lemma_commit_step(
                                rv,
                                seeds,
                                out,
                                ca,
                                commits0,
                                live.commits@,
                                graphs0,
                                live.graphs@,
                                queue1,
                                queue@,
                            );
                        }
                    } else {
                        proof {
                            assert(live.commits@ =~= commits0);
                        }
                    }
                },
                None => {
                    proof {
                        assert(commits_closed(rv, out, live.commits@, live.graphs@, queue@)) by {
                            assert forall|c: CommitAddr, p: CommitAddr|
                                live.commits@.contains(c) && #[trigger] refers(rv, out)(
                                    Item::Commit(c),
                                    Item::Commit(p),
                                ) implies live.commits@.contains(p) || queue@.contains(p) by {
                                assert(rv.commits.contains_key(p));
                            }
                        }
                    }
                },
            }
        }
    }
    proof {
        assert(queue@ =~= Seq::empty());
        let member = |x: Item|
            match x {
                Item::Commit(c) => live.commits@.contains(c),
                Item::Graph(g) => live.graphs@.contains(g),
            };
        assert forall|x: Item, y: Item| member(x) && #[trigger] step(x, y) implies member(y) by {
            match (x, y) {
                (Item::Commit(c), Item::Commit(p)) => {
                    assert(refers(rv, out)(Item::Commit(c), Item::Commit(p)));
                },
                (Item::Commit(c), Item::Graph(g)) => {
                    assert(refers(rv, out)(Item::Commit(c), Item::Graph(g)));
                },
                (Item::Graph(g), Item::Graph(h)) => {
                    assert(refers(rv, out)(Item::Graph(g), Item::Graph(h)));
                },
                _ => {},
            }
        }
        assert forall|x: Item| live_from(rv, seeds, out, x) implies #[trigger] member(x) by {
            let c = choose|c: CommitAddr|
                seeds.contains(c) && rv.commits.contains_key(c) && #[trigger] walk::reaches(step, Item::Commit(c), x);
            assert(member(Item::Commit(c)));
            walk::lemma_closed(step, member, Item::Commit(c), x);
        }
        assert forall|c: CommitAddr| #[trigger]
            live.commits@.contains(c) <==> live_from(rv, seeds, out, Item::Commit(c)) by {
            if live_from(rv, seeds, out, Item::Commit(c)) {
                assert(member(Item::Commit(c)));
            }
        }
        assert forall|g: GraphAddr| #[trigger]
            live.graphs@.contains(g) <==> live_from(rv, seeds, out, Item::Graph(g)) by {
            if live_from(rv, seeds, out, Item::Graph(g)) {
                assert(member(Item::Graph(g)));
            }
        }
        assert forall|s: Seq<char>, a: ContentAddr| #[trigger]
            live.live_blob(s, a) <==> graph_blob(rv, out, live.graphs@, s, a) by {
            assert(holds_blob(live.blobs@, s, a) == live.live_blob(s, a));
        }
    }
    let ghost mid = live;
    add_section_blobs(reg, &mut live);
    let ghost mid2 = live;
    add_pinned_blobs(reg, &mut live);
    proof {
        assert forall|s: Seq<char>, a: ContentAddr| #[trigger]
            live.live_blob(s, a) <==> graph_blob(rv, out, live.graphs@, s, a) || section_blob(
                rv,
                live.commits@,
                live.graphs@,
                s,
                a,
            ) || pinned_blob(rv, s, a) by {
            assert(mid2.live_blob(s, a) == mid2.live_blob(s, a));
            assert(mid.live_blob(s, a) == mid.live_blob(s, a));
        }
    }
    live
}

/// The live closure of `reg` from its sections with `Root` liveness and the given
/// further commits. `graph_out` tells what a graph refers to. References to what
/// the registry does not hold are passed over.
pub fn closure<G: Payload, F: Fn(&G) -> OutRefs>(
    reg: &Registry<G>,
    extra_commits: &Vec<CommitAddr>,
    graph_out: F,
) -> (live: LiveSet)
    requires
        answers::<G, F>(graph_out),
    ensures
        is_closure(reg@, extra_commits@, answer::<G, F>(graph_out), live),
{
    let ghost rv = reg@;
    let ghost extra = extra_commits@;
    let ghost out = answer::<G, F>(graph_out);
    let mut queue = root_commits(reg);
    let ghost roots = queue@;
    let mut i: usize = 0;
    while i < extra_commits.len()
        invariant
            i <= extra_commits@.len(),
            queue@ =~= roots + extra_commits@.take(i as int),
        decreases extra_commits@.len() - i,
    {
        queue.push(extra_commits[i]);
        i = i + 1;
    }
    proof {
        assert(extra_commits@.take(i as int) =~= extra);
        assert forall|c: CommitAddr| #[trigger] queue@.contains(c) && rv.commits.contains_key(c)
            <==> root(rv, extra, c) by {
            if queue@.contains(c) {
                let j = choose|j: int| 0 <= j < queue@.len() && queue@[j] == c;
                if j < roots.len() {
                    assert(roots[j] == c);
                    assert(roots.contains(c));
                } else {
                    assert(extra[j - roots.len()] == c);
                }
            }
            if extra.contains(c) {
                let j = choose|j: int| 0 <= j < extra.len() && extra[j] == c;
                assert(queue@[roots.len() + j] == c);
            }
            if roots.contains(c) {
                let j = choose|j: int| 0 <= j < roots.len() && roots[j] == c;
                assert(queue@[j] == c);
            }
        }
        assert forall|x: Item| #[trigger] live_from(rv, queue@, out, x) == live_item(
            rv,
            extra,
            out,
            x,
        ) by {
            let step = refers(rv, out);
            if live_from(rv, queue@, out, x) {
                let c = choose|c: CommitAddr|
                    queue@.contains(c) && rv.commits.contains_key(c) && #[trigger] walk::reaches(
                        step,
                        Item::Commit(c),
                        x,
                    );
                assert(root(rv, extra, c));
            }
            if live_item(rv, extra, out, x) {
                let c = choose|c: CommitAddr|
                    root(rv, extra, c) && #[trigger] walk::reaches(step, Item::Commit(c), x);
                assert(queue@.contains(c) && rv.commits.contains_key(c));
            }
        }
    }
    closure_from(reg, &queue, graph_out)
}

/// One step of the walk over commits: `ca` becomes live, its parents are queued,
/// and the walk over graphs went on from its graph.
proof fn lemma_commit_step<T>(
    rv: RegistryView<T>,
    seeds: Seq<CommitAddr>,
    out: spec_fn(T) -> OutView,
    ca: CommitAddr,
    commits: Set<CommitAddr>,
    commits1: Set<CommitAddr>,
    graphs: Set<GraphAddr>,
    graphs1: Set<GraphAddr>,
    queue: Seq<CommitAddr>,
    queue1: Seq<CommitAddr>,
)
    requires
        rv.commits.contains_key(ca),
        live_from(rv, seeds, out, Item::Commit(ca)),
        commits1 == commits.insert(ca),
        queue1 == queue + rv.commits[ca].parents(),
        commits_closed(rv, out, commits, graphs, queue.push(ca)),
        graphs.subset_of(graphs1),
        rv.graphs.contains_key(rv.commits[ca].graph) ==> graphs1.contains(rv.commits[ca].graph),
        graphs1.subset_of(rv.graphs.dom()),
        forall|g: GraphAddr| #[trigger]
            graphs.contains(g) ==> live_from(rv, seeds, out, Item::Graph(g)),
        forall|g: GraphAddr| #[trigger]
            graphs1.contains(g) ==> graphs.contains(g) || walk::reaches(
                refers(rv, out),
                Item::Graph(rv.commits[ca].graph),
                Item::Graph(g),
            ),
        forall|j: int|
            0 <= j < queue.len() && rv.commits.contains_key(#[trigger] queue[j]) ==> live_from(
                rv,
                seeds,
                out,
                Item::Commit(queue[j]),
            ),
    ensures
        commits_closed(rv, out, commits1, graphs1, queue1),
        forall|j: int|
            0 <= j < queue1.len() && rv.commits.contains_key(#[trigger] queue1[j]) ==> live_from(
                rv,
                seeds,
                out,
                Item::Commit(queue1[j]),
            ),
        forall|g: GraphAddr| #[trigger]
            graphs1.contains(g) ==> live_from(rv, seeds, out, Item::Graph(g)),
        forall|h: CommitAddr| queue.contains(h) ==> #[trigger] queue1.contains(h),
{
    let step = refers(rv, out);
    let ps = rv.commits[ca].parents();
    let c0 = choose|c: CommitAddr|
        seeds.contains(c) && rv.commits.contains_key(c) && #[trigger] walk::reaches(step, Item::Commit(c), Item::Commit(ca));
    assert forall|h: CommitAddr| queue.contains(h) implies #[trigger] queue1.contains(h) by {
        let j = choose|j: int| 0 <= j < queue.len() && queue[j] == h;
        assert(queue1[j] == h);
    }
    assert forall|c: CommitAddr, p: CommitAddr|
        commits1.contains(c) && #[trigger] step(Item::Commit(c), Item::Commit(p))
        implies commits1.contains(p) || queue1.contains(p) by {
        if c == ca {
            let j = choose|j: int| 0 <= j < ps.len() && ps[j] == p;
            assert(queue1[queue.len() + j] == p);
        } else {
            assert(commits.contains(c));
            assert(commits.contains(p) || queue.push(ca).contains(p));
            if queue.push(ca).contains(p) && p != ca {
                let j = choose|j: int| 0 <= j < queue.push(ca).len() && queue.push(ca)[j] == p;
                assert(queue[j] == p);
            }
        }
    }
    assert forall|c: CommitAddr, g: GraphAddr|
        commits1.contains(c) && #[trigger] step(Item::Commit(c), Item::Graph(g))
        implies graphs1.contains(g) by {
        if c != ca {
            assert(commits.contains(c));
            assert(graphs.contains(g));
        }
    }
    assert forall|j: int| 0 <= j < queue1.len() && rv.commits.contains_key(#[trigger] queue1[j])
        implies live_from(rv, seeds, out, Item::Commit(queue1[j])) by {
        if j < queue.len() {
            assert(queue1[j] == queue[j]);
        } else {
            let p = ps[j - queue.len()];
            assert(queue1[j] == p);
            assert(ps.contains(p));
            assert(step(Item::Commit(ca), Item::Commit(p)));
            walk::lemma_reaches_step(step, Item::Commit(c0), Item::Commit(ca), Item::Commit(p));
        }
    }
    assert forall|g: GraphAddr| #[trigger] graphs1.contains(g) implies live_from(
        rv,
        seeds,
        out,
        Item::Graph(g),
    ) by {
        if !graphs.contains(g) {
            let seed = rv.commits[ca].graph;
            assert(walk::reaches(step, Item::Graph(seed), Item::Graph(g)));
            assert(rv.graphs.contains_key(seed)) by {
                if g != seed {
                    lemma_reaches_from_known(rv, out, seed, g);
                }
            }
            assert(step(Item::Commit(ca), Item::Graph(seed)));
            walk::lemma_reaches_step(
                step,
                Item::Commit(c0),
                Item::Commit(ca),
                Item::Graph(seed),
            );
            walk::lemma_reaches_trans(
                step,
                Item::Commit(c0),
                Item::Graph(seed),
                Item::Graph(g),
            );
        }
    }
}

/// What leads somewhere else is in the registry.
proof fn lemma_reaches_from_known<T>(
    rv: RegistryView<T>,
    out: spec_fn(T) -> OutView,
    seed: GraphAddr,
    g: GraphAddr,
)
    requires
        walk::reaches(refers(rv, out), Item::Graph(seed), Item::Graph(g)),
        g != seed,
    ensures
        rv.graphs.contains_key(seed),
{
    let step = refers(rv, out);
    let p = choose|p: Seq<Item>| #[trigger]
        walk::leads(step, p, Item::Graph(seed), Item::Graph(g));
    assert(p.len() >= 2) by {
        if p.len() == 1 {
            assert(p[0] == p.last());
        }
    }
    let zero: int = 0;
    assert(step(p[zero], p[zero + 1]));
}

} // verus!
