//! The ports through which graphs are wired into the graphs that refer to them.

use crate::edge::Edge;
use crate::flow;
use crate::graph::{Graph, GraphAddr};
use crate::node::{NodeDsp, RefNode, ToNodeDsp};
use crate::order::Key;
use crate::ref_ext;
use crate::set::KeySet;
use crate::table::{self, Table};
use crate::walk;
use vstd::prelude::*;

verus! {

/// A port of a graph, by the graph's address.
#[derive(Clone, Copy, Debug)]
pub struct GraphPort {
    pub graph: GraphAddr,
    pub port: usize,
}

impl View for GraphPort {
    type V = (GraphAddr, usize);

    open spec fn view(&self) -> (GraphAddr, usize) {
        (self.graph, self.port)
    }
}

impl Key for GraphPort {
    open spec fn precedes(a: (GraphAddr, usize), b: (GraphAddr, usize)) -> bool {
        GraphAddr::precedes(a.0, b.0) || (a.0 == b.0 && a.1 < b.1)
    }

    proof fn lemma_irreflexive(a: (GraphAddr, usize)) {
        GraphAddr::lemma_irreflexive(a.0);
    }

    proof fn lemma_transitive(
        a: (GraphAddr, usize),
        b: (GraphAddr, usize),
        c: (GraphAddr, usize),
    ) {
        if GraphAddr::precedes(a.0, b.0) && GraphAddr::precedes(b.0, c.0) {
            GraphAddr::lemma_transitive(a.0, b.0, c.0);
        }
    }

    proof fn lemma_total(a: (GraphAddr, usize), b: (GraphAddr, usize)) {
        GraphAddr::lemma_total(a.0, b.0);
    }

    fn before(&self, other: &Self) -> (r: bool) {
        self.graph.before(&other.graph) || (self.graph.same(&other.graph) && self.port
            < other.port)
    }

    fn same(&self, other: &Self) -> (r: bool) {
        self.graph.same(&other.graph) && self.port == other.port
    }

    fn dup(&self) -> (r: Self) {
        *self
    }
}

/// Whether slot `i` holds an inlet.
pub open spec fn inlet_at<N: RefNode>(g: Graph<N, Edge>, i: int) -> bool {
    g.has(i) && g.nodes@[i]->0.inlet()
}

/// Whether slot `i` holds an outlet.
pub open spec fn outlet_at<N: RefNode>(g: Graph<N, Edge>, i: int) -> bool {
    g.has(i) && g.nodes@[i]->0.outlet()
}

/// The inlets of a graph, by slot: input `i` of a reference is inlet `i`.
pub open spec fn inlets<N: RefNode>(g: Graph<N, Edge>) -> Seq<usize> {
    flow::indices(g.nodes@.len(), |i: int| inlet_at(g, i))
}

/// The outlets of a graph, by slot: output `i` of a reference is outlet `i`.
pub open spec fn outlets<N: RefNode>(g: Graph<N, Edge>) -> Seq<usize> {
    flow::indices(g.nodes@.len(), |i: int| outlet_at(g, i))
}

/// The inlets of a graph, by slot.
pub fn graph_inlets<N: RefNode>(g: &Graph<N, Edge>) -> (r: Vec<usize>)
    ensures
        r@ == inlets(*g),
{
    let mut r: Vec<usize> = Vec::new();
    let ghost p = |i: int| inlet_at(*g, i);
    let mut i: usize = 0;
    while i < g.nodes.len()
        invariant
            i <= g.nodes@.len(),
            p == |i: int| inlet_at(*g, i),
            r@ == flow::indices(i as nat, p),
        decreases g.nodes@.len() - i,
    {
        let yes = is_inlet(g, i);
        assert(yes == p(i as int));
        if yes {
            r.push(i);
        }
        i = i + 1;
    }
    r
}

/// Whether slot `i` holds an inlet.
pub fn is_inlet<N: RefNode>(g: &Graph<N, Edge>, i: usize) -> (r: bool)
    ensures
        r == inlet_at(*g, i as int),
{
    if i < g.nodes.len() {
        match &g.nodes[i] {
            Some(n) => n.is_inlet(),
            None => false,
        }
    } else {
        false
    }
}

/// Whether slot `i` holds an outlet.
pub fn is_outlet<N: RefNode>(g: &Graph<N, Edge>, i: usize) -> (r: bool)
    ensures
        r == outlet_at(*g, i as int),
{
    if i < g.nodes.len() {
        match &g.nodes[i] {
            Some(n) => n.is_outlet(),
            None => false,
        }
    } else {
        false
    }
}

/// The outlets of a graph, by slot.
pub fn graph_outlets<N: RefNode>(g: &Graph<N, Edge>) -> (r: Vec<usize>)
    ensures
        r@ == outlets(*g),
{
    let mut r: Vec<usize> = Vec::new();
    let ghost p = |i: int| outlet_at(*g, i);
    let mut i: usize = 0;
    while i < g.nodes.len()
        invariant
            i <= g.nodes@.len(),
            p == |i: int| outlet_at(*g, i),
            r@ == flow::indices(i as nat, p),
        decreases g.nodes@.len() - i,
    {
        let yes = is_outlet(g, i);
        assert(yes == p(i as int));
        if yes {
            r.push(i);
        }
        i = i + 1;
    }
    r
}

/// The number of dsp outputs of the node in slot `i`.
pub open spec fn n_out<N: ToNodeDsp>(g: Graph<N, Edge>, i: int) -> nat {
    match flow::dsp_at(g, i) {
        Some(d) => d.dsp_outputs(),
        None => 0,
    }
}

/// The number of dsp outputs of the node in slot `i`.
pub fn dsp_outputs<N: ToNodeDsp>(g: &Graph<N, Edge>, i: usize) -> (r: usize)
    ensures
        r == n_out(*g, i as int),
{
    if i < g.nodes.len() {
        match &g.nodes[i] {
            Some(n) => match n.to_node_dsp() {
                Some(d) => d.n_dsp_outputs(),
                None => 0,
            },
            None => 0,
        }
    } else {
        0
    }
}

/// Whether edge `k` leads from the node in slot `node` straight into a dsp input.
pub open spec fn feeds_dsp<N: RefNode>(g: Graph<N, Edge>, node: usize, k: int) -> bool {
    &&& 0 <= k < g.edges@.len()
    &&& g.edges@[k].source == node
    &&& (g.edges@[k].weight.input.0 as nat) < flow::n_in(g, g.edges@[k].target as int)
}

/// Whether edge `k` leads from the node in slot `node` into the given input of a
/// reference.
pub open spec fn feeds_ref<N: RefNode>(
    g: Graph<N, Edge>,
    node: usize,
    k: int,
    to: (GraphAddr, usize),
) -> bool {
    &&& 0 <= k < g.edges@.len()
    &&& g.edges@[k].source == node
    &&& flow::dsp_at(g, g.edges@[k].target as int) is None
    &&& ref_ext::target_at(g, g.edges@[k].target as int) == Some(to.0)
    &&& g.edges@[k].weight.input.0 == to.1
}

/// Whether a port is an inlet of one of the graphs.
pub open spec fn is_port<N: RefNode>(
    graphs: Map<GraphAddr, Graph<N, Edge>>,
    p: (GraphAddr, usize),
) -> bool {
    graphs.contains_key(p.0) && p.1 < inlets(graphs[p.0]).len()
}

/// Whether an inlet feeds a dsp input of its own graph.
pub open spec fn direct<N: RefNode>(
    graphs: Map<GraphAddr, Graph<N, Edge>>,
    p: (GraphAddr, usize),
) -> bool {
    is_port(graphs, p) && exists|k: int| #[trigger]
        feeds_dsp(graphs[p.0], inlets(graphs[p.0])[p.1 as int], k)
}

/// An inlet passes on to the inlets of the graphs that its own graph refers to.
pub open spec fn passes<N: RefNode>(graphs: Map<GraphAddr, Graph<N, Edge>>) -> spec_fn(
    (GraphAddr, usize),
    (GraphAddr, usize),
) -> bool {
    |p: (GraphAddr, usize), q: (GraphAddr, usize)|
        is_port(graphs, p) && is_port(graphs, q) && exists|k: int| #[trigger]
            feeds_ref(graphs[p.0], inlets(graphs[p.0])[p.1 as int], k, q)
}

/// Whether a chain of inlets, each of which passes on to the next, ends at a dsp input and
/// comes into no graph twice.
pub open spec fn is_chain<N: RefNode>(
    graphs: Map<GraphAddr, Graph<N, Edge>>,
    s: Seq<(GraphAddr, usize)>,
) -> bool {
    &&& walk::is_path(passes(graphs), s)
    &&& direct(graphs, s.last())
    &&& forall|i: int, j: int|
        0 <= i < j < s.len() ==> (#[trigger] s[i]).0 != (#[trigger] s[j]).0
}

/// Whether an inlet feeds a dsp input, in its own graph or through references: whether
/// what arrives at it carries a signal. A chain of references that comes back into a
/// graph counts for nothing.
pub open spec fn signal_inlet<N: RefNode>(
    graphs: Map<GraphAddr, Graph<N, Edge>>,
    p: (GraphAddr, usize),
) -> bool {
    exists|s: Seq<(GraphAddr, usize)>| #[trigger] is_chain(graphs, s) && s[0] == p
}

/// Whether a chain leads from an inlet to a dsp input that comes into none of the given
/// graphs.
spec fn chains_past<N: RefNode>(
    graphs: Map<GraphAddr, Graph<N, Edge>>,
    open: Set<GraphAddr>,
    p: (GraphAddr, usize),
) -> bool {
    exists|s: Seq<(GraphAddr, usize)>| #[trigger]
        is_chain(graphs, s) && s[0] == p && avoids(s, open)
}

spec fn avoids(s: Seq<(GraphAddr, usize)>, open: Set<GraphAddr>) -> bool {
    forall|i: int| 0 <= i < s.len() ==> !open.contains((#[trigger] s[i]).0)
}

/// Whether an inlet reaches a dsp input, whatever graphs it comes back into on the way.
spec fn may_signal<N: RefNode>(
    graphs: Map<GraphAddr, Graph<N, Edge>>,
    p: (GraphAddr, usize),
) -> bool {
    is_port(graphs, p) && exists|q: (GraphAddr, usize)|
        direct(graphs, q) && #[trigger] walk::reaches(passes(graphs), p, q)
}

/// Whether the node feeds a dsp input, or an inlet that is marked.
spec fn feeds_marked<N: RefNode>(
    g: Graph<N, Edge>,
    node: usize,
    marked: Set<(GraphAddr, usize)>,
) -> bool {
    ||| exists|k: int| #[trigger] feeds_dsp(g, node, k)
    ||| exists|k: int, q: (GraphAddr, usize)|
        marked.contains(q) && #[trigger] feeds_ref(g, node, k, q)
}

fn feeds_signal<N: RefNode>(g: &Graph<N, Edge>, node: usize, marked: &KeySet<GraphPort>) -> (r: bool)
    ensures
        r == feeds_marked(*g, node, marked@),
{
    let mut k: usize = 0;
    while k < g.edges.len()
        invariant
            k <= g.edges@.len(),
            forall|j: int| 0 <= j < k ==> !#[trigger] feeds_dsp(*g, node, j),
            forall|j: int, q: (GraphAddr, usize)|
                0 <= j < k && marked@.contains(q) ==> !#[trigger] feeds_ref(*g, node, j, q),
        decreases g.edges@.len() - k,
    {
        let e = &g.edges[k];
        let t: usize = e.target;
        let port: usize = e.weight.input.0 as usize;
        if e.source == node {
            if flow::is_dsp(g, t) {
                if port < flow::dsp_inputs(g, t) {
                    assert(feeds_dsp(*g, node, k as int));
                    return true;
                }
            } else if let Some(a) = ref_ext::ref_at(g, t) {
                let p = GraphPort { graph: a, port };
                if marked.contains(&p) {
                    assert(marked@.contains((a, port)) && feeds_ref(
                        *g,
                        node,
                        k as int,
                        (a, port),
                    ));
                    return true;
                }
            }
        }
        k = k + 1;
    }
    false
}

/// All the inlets of the graphs.
fn all_inlets<N: RefNode>(graphs: &Table<GraphAddr, Graph<N, Edge>>) -> (r: KeySet<GraphPort>)
    ensures
        forall|p: (GraphAddr, usize)| #[trigger] r@.contains(p) <==> is_port(graphs@, p),
{
    let list = graphs.entries();
    let ghost m = graphs@;
    let mut r: KeySet<GraphPort> = KeySet::new();
    let mut i: usize = 0;
    while i < list.len()
        invariant
            table::lists(list@, m),
            m == graphs@,
            i <= list@.len(),
            forall|p: (GraphAddr, usize)| #[trigger]
                r@.contains(p) <==> is_port(m, p) && exists|j: int|
                    0 <= j < i && (#[trigger] list@[j]).0 == p.0,
        decreases list@.len() - i,
    {
        let a = list[i].0;
        proof {
            table::lemma_entry(list@, i as int);
        }
        let ins = graph_inlets(&list[i].1);
        let ghost before = r@;
        let mut k: usize = 0;
        while k < ins.len()
            invariant
                i < list@.len(),
                a == list@[i as int].0,
                m.contains_key(a),
                ins@ == inlets(m[a]),
                k <= ins@.len(),
                forall|p: (GraphAddr, usize)| #[trigger]
                    r@.contains(p) <==> before.contains(p) || (p.0 == a && p.1 < k),
            decreases ins@.len() - k,
        {
            let _ = r.insert(GraphPort { graph: a, port: k });
            k = k + 1;
        }
        proof {
            assert forall|p: (GraphAddr, usize)| #[trigger]
                r@.contains(p) <==> is_port(m, p) && exists|j: int|
                    0 <= j < i + 1 && (#[trigger] list@[j]).0 == p.0 by {
                assert(list@[i as int].0 == a);
                if r@.contains(p) && before.contains(p) {
                    let j = choose|j: int| 0 <= j < i && (#[trigger] list@[j]).0 == p.0;
                    assert(list@[j].0 == p.0);
                }
            }
        }
        i = i + 1;
    }
    proof {
        assert forall|p: (GraphAddr, usize)| #[trigger] r@.contains(p) <==> is_port(m, p) by {
            if is_port(m, p) {
                let j = choose|j: int| 0 <= j < list@.len() && #[trigger] list@[j].0@ == p.0;
                assert(list@[j].0 == p.0);
            }
        }
    }
    r
}

/// Whether a port is an outlet of one of the graphs.
pub open spec fn is_outlet_port<N: RefNode>(
    graphs: Map<GraphAddr, Graph<N, Edge>>,
    p: (GraphAddr, usize),
) -> bool {
    graphs.contains_key(p.0) && p.1 < outlets(graphs[p.0]).len()
}

/// All the outlets of the graphs.
pub open spec fn outlet_ports<N: RefNode>(graphs: Map<GraphAddr, Graph<N, Edge>>) -> Set<
    (GraphAddr, usize),
> {
    Set::new(|p: (GraphAddr, usize)| is_outlet_port(graphs, p))
}

/// All the outlets of the graphs.
pub fn all_outlets<N: RefNode>(graphs: &Table<GraphAddr, Graph<N, Edge>>) -> (r: KeySet<GraphPort>)
    ensures
        r@ == outlet_ports(graphs@),
{
    let list = graphs.entries();
    let ghost m = graphs@;
    let mut r: KeySet<GraphPort> = KeySet::new();
    let mut i: usize = 0;
    while i < list.len()
        invariant
            table::lists(list@, m),
            m == graphs@,
            i <= list@.len(),
            forall|p: (GraphAddr, usize)| #[trigger]
                r@.contains(p) <==> is_outlet_port(m, p) && exists|j: int|
                    0 <= j < i && (#[trigger] list@[j]).0 == p.0,
        decreases list@.len() - i,
    {
        let a = list[i].0;
        proof {
            table::lemma_entry(list@, i as int);
        }
        let outs = graph_outlets(&list[i].1);
        let ghost before = r@;
        let mut k: usize = 0;
        while k < outs.len()
            invariant
                i < list@.len(),
                a == list@[i as int].0,
                m.contains_key(a),
                outs@ == outlets(m[a]),
                k <= outs@.len(),
                forall|p: (GraphAddr, usize)| #[trigger]
                    r@.contains(p) <==> before.contains(p) || (p.0 == a && p.1 < k),
            decreases outs@.len() - k,
        {
            let _ = r.insert(GraphPort { graph: a, port: k });
            k = k + 1;
        }
        proof {
            assert forall|p: (GraphAddr, usize)| #[trigger]
                r@.contains(p) <==> is_outlet_port(m, p) && exists|j: int|
                    0 <= j < i + 1 && (#[trigger] list@[j]).0 == p.0 by {
                assert(list@[i as int].0 == a);
                if r@.contains(p) && before.contains(p) {
                    let j = choose|j: int| 0 <= j < i && (#[trigger] list@[j]).0 == p.0;
                    assert(list@[j].0 == p.0);
                }
            }
        }
        i = i + 1;
    }
    proof {
        assert forall|p: (GraphAddr, usize)| #[trigger] r@.contains(p) <==> is_outlet_port(m, p) by {
            if is_outlet_port(m, p) {
                let j = choose|j: int| 0 <= j < list@.len() && #[trigger] list@[j].0@ == p.0;
                assert(list@[j].0 == p.0);
            }
        }
        assert(r@ =~= outlet_ports(m));
    }
    r
}

/// The inlets that reach a dsp input, whatever graphs they come back into on the way.
fn candidates<N: RefNode>(graphs: &Table<GraphAddr, Graph<N, Edge>>) -> (r: KeySet<GraphPort>)
    ensures
        forall|p: (GraphAddr, usize)| #[trigger] r@.contains(p) <==> may_signal(graphs@, p),
{
    let universe = all_inlets(graphs);
    let list = universe.items();
    let ghost m = graphs@;
    let ghost all = universe@;
    let ghost step = passes(m);
    let n: usize = universe.len();
    let mut marked: KeySet<GraphPort> = KeySet::new();
    let mut changed = true;
    while changed
        invariant
            m == graphs@,
            crate::set::lists_set(list@, all),
            step == passes(m),
            forall|p: (GraphAddr, usize)| #[trigger] all.contains(p) <==> is_port(m, p),
            all.finite(),
            n == all.len(),
            marked@.subset_of(all),
            forall|p: (GraphAddr, usize)| #[trigger] marked@.contains(p) ==> may_signal(m, p),
            !changed ==> forall|p: (GraphAddr, usize)| #[trigger]
                all.contains(p) && !marked@.contains(p) ==> !feeds_marked(
                    m[p.0],
                    inlets(m[p.0])[p.1 as int],
                    marked@,
                ),
        decreases n - marked@.len(), changed as int,
    {
        let ghost before = marked@;
        proof {
            vstd::set_lib::lemma_len_subset(before, all);
        }
        changed = false;
        let mut i: usize = 0;
        while i < list.len()
            invariant
                m == graphs@,
                crate::set::lists_set(list@, all),
                step == passes(m),
                forall|p: (GraphAddr, usize)| #[trigger] all.contains(p) <==> is_port(m, p),
                i <= list@.len(),
                before.subset_of(marked@),
                marked@.subset_of(all),
                marked@.finite(),
                !changed ==> marked@ == before,
                changed ==> marked@.len() > before.len(),
                forall|p: (GraphAddr, usize)| #[trigger]
                    marked@.contains(p) ==> may_signal(m, p),
                !changed ==> forall|j: int|
                    0 <= j < i && !marked@.contains((#[trigger] list@[j]).0@) ==> !feeds_marked(
                        m[list@[j].0.graph],
                        inlets(m[list@[j].0.graph])[list@[j].0.port as int],
                        marked@,
                    ),
            decreases list@.len() - i,
        {
            let p = list[i].0;
            proof {
                table::lemma_entry(list@, i as int);
                assert(all.contains(p@));
                assert(is_port(m, p@));
            }
            if !marked.contains(&p) {
                if let Some(g) = graphs.get(&p.graph) {
                    let ins = graph_inlets(g);
                    let node: usize = ins[p.port];
                    if feeds_signal(g, node, &marked) {
                        proof {
                            lemma_marked(m, p@, marked@);
                        }
                        let _ = marked.insert(p);
                        changed = true;
                    }
                }
            }
            i = i + 1;
        }
        proof {
            vstd::set_lib::lemma_len_subset(marked@, all);
            if !changed {
                assert forall|p: (GraphAddr, usize)| #[trigger]
                    all.contains(p) && !marked@.contains(p) implies !feeds_marked(
                    m[p.0],
                    inlets(m[p.0])[p.1 as int],
                    marked@,
                ) by {
                    let j = choose|j: int| 0 <= j < list@.len() && #[trigger] list@[j].0@ == p;
                    assert(!marked@.contains(list@[j].0@));
                }
            }
        }
    }
    proof {
        assert forall|p: (GraphAddr, usize)| #[trigger] marked@.contains(p) <==> may_signal(
            m,
            p,
        ) by {
            if may_signal(m, p) && !marked@.contains(p) {
                let q = choose|q: (GraphAddr, usize)|
                    direct(m, q) && #[trigger] walk::reaches(step, p, q);
                let s = |x: (GraphAddr, usize)| all.contains(x) && !marked@.contains(x);
                assert forall|x: (GraphAddr, usize), y: (GraphAddr, usize)|
                    s(x) && #[trigger] step(x, y) implies s(y) by {
                    if marked@.contains(y) {
                        let k = choose|k: int| #[trigger]
                            feeds_ref(m[x.0], inlets(m[x.0])[x.1 as int], k, y);
                        assert(all.contains(x) && !marked@.contains(x));
                        assert(marked@.contains(y) && feeds_ref(
                            m[x.0],
                            inlets(m[x.0])[x.1 as int],
                            k,
                            y,
                        ));
                    }
                }
                assert(all.contains(p));
                walk::lemma_closed(step, s, p, q);
                let k = choose|k: int| #[trigger]
                    feeds_dsp(m[q.0], inlets(m[q.0])[q.1 as int], k);
                assert(feeds_dsp(m[q.0], inlets(m[q.0])[q.1 as int], k));
                assert(all.contains(q) && !marked@.contains(q));
            }
        }
    }
    marked
}

proof fn lemma_marked<N: RefNode>(
    m: Map<GraphAddr, Graph<N, Edge>>,
    p: (GraphAddr, usize),
    marked: Set<(GraphAddr, usize)>,
)
    requires
        is_port(m, p),
        forall|q: (GraphAddr, usize)| #[trigger] marked.contains(q) ==> may_signal(m, q),
        feeds_marked(m[p.0], inlets(m[p.0])[p.1 as int], marked),
    ensures
        may_signal(m, p),
{
    let step = passes(m);
    let node = inlets(m[p.0])[p.1 as int];
    walk::lemma_reaches_self(step, p);
    if exists|k: int| #[trigger] feeds_dsp(m[p.0], node, k) {
        assert(direct(m, p));
    } else {
        let (k, q) = choose|k: int, q: (GraphAddr, usize)|
            marked.contains(q) && #[trigger] feeds_ref(m[p.0], node, k, q);
        assert(may_signal(m, q));
        let x = choose|x: (GraphAddr, usize)|
            direct(m, x) && #[trigger] walk::reaches(step, q, x);
        assert(step(p, q));
        walk::lemma_reaches_step(step, p, p, q);
        walk::lemma_reaches_trans(step, p, q, x);
    }
}

proof fn lemma_chain_may_signal<N: RefNode>(
    m: Map<GraphAddr, Graph<N, Edge>>,
    s: Seq<(GraphAddr, usize)>,
)
    requires
        is_chain(m, s),
    ensures
        may_signal(m, s[0]),
{
    assert(walk::leads(passes(m), s, s[0], s.last()));
    assert(walk::reaches(passes(m), s[0], s.last()));
    if s.len() > 1 {
        assert(passes(m)(s[0], s[0int + 1]));
    }
}

/// Where a signal arrives is an inlet.
pub proof fn lemma_signal_is_port<N: RefNode>(
    m: Map<GraphAddr, Graph<N, Edge>>,
    p: (GraphAddr, usize),
)
    requires
        signal_inlet(m, p),
    ensures
        is_port(m, p),
{
    let s = choose|s: Seq<(GraphAddr, usize)>| #[trigger] is_chain(m, s) && s[0] == p;
    lemma_chain_may_signal(m, s);
}

/// A chain past some graphs is a dsp input of the inlet's own graph, or goes on past that
/// graph too.
proof fn lemma_chains_past<N: RefNode>(
    m: Map<GraphAddr, Graph<N, Edge>>,
    open: Set<GraphAddr>,
    p: (GraphAddr, usize),
)
    requires
        !open.contains(p.0),
    ensures
        chains_past(m, open, p) <==> direct(m, p) || exists|q: (GraphAddr, usize)| #[trigger]
            passes(m)(p, q) && chains_past(m, open.insert(p.0), q),
{
    let step = passes(m);
    if chains_past(m, open, p) && !direct(m, p) {
        let s = choose|s: Seq<(GraphAddr, usize)>| #[trigger]
            is_chain(m, s) && s[0] == p && avoids(s, open);
        assert(s.len() > 1);
        let t = s.skip(1);
        assert(step(s[0], s[0int + 1]));
        assert(walk::is_path(step, t)) by {
            assert forall|i: int| 0 <= i < t.len() - 1 implies #[trigger] step(t[i], t[i + 1]) by {
                assert(step(s[i + 1], s[i + 1 + 1]));
            }
        }
        assert forall|i: int, j: int| 0 <= i < j < t.len() implies (#[trigger] t[i]).0 != (
        #[trigger] t[j]).0 by {
            assert(s[i + 1].0 != s[j + 1].0);
        }
        assert(t.last() == s.last());
        assert(is_chain(m, t));
        assert(avoids(t, open.insert(p.0))) by {
            assert forall|i: int| 0 <= i < t.len() implies !open.insert(p.0).contains(
                (#[trigger] t[i]).0,
            ) by {
                assert(s[0].0 != s[i + 1].0);
                assert(!open.contains(s[i + 1].0));
            }
        }
        assert(passes(m)(p, t[0]) && chains_past(m, open.insert(p.0), t[0]));
    }
    if direct(m, p) {
        let s = seq![p];
        assert(is_chain(m, s) && s[0] == p && avoids(s, open));
    }
    if exists|q: (GraphAddr, usize)| #[trigger]
        passes(m)(p, q) && chains_past(m, open.insert(p.0), q) {
        let q = choose|q: (GraphAddr, usize)| #[trigger]
            passes(m)(p, q) && chains_past(m, open.insert(p.0), q);
        let t = choose|t: Seq<(GraphAddr, usize)>| #[trigger]
            is_chain(m, t) && t[0] == q && avoids(t, open.insert(p.0));
        let s = seq![p] + t;
        assert(walk::is_path(step, s)) by {
            assert forall|i: int| 0 <= i < s.len() - 1 implies #[trigger] step(s[i], s[i + 1]) by {
                if i > 0 {
                    assert(step(t[i - 1], t[i - 1 + 1]));
                }
            }
        }
        assert(s.last() == t.last());
        assert forall|i: int, j: int| 0 <= i < j < s.len() implies (#[trigger] s[i]).0 != (
        #[trigger] s[j]).0 by {
            assert(s[j] == t[j - 1]);
            assert(!open.insert(p.0).contains(t[j - 1].0));
            if i > 0 {
                assert(t[i - 1].0 != t[j - 1].0);
            }
        }
        assert(avoids(s, open)) by {
            assert forall|i: int| 0 <= i < s.len() implies !open.contains((#[trigger] s[i]).0) by {
                if i > 0 {
                    assert(!open.insert(p.0).contains(t[i - 1].0));
                }
            }
        }
        assert(is_chain(m, s) && s[0] == p && avoids(s, open));
    }
}

/// Whether a chain leads from an inlet to a dsp input past the given graphs. `left` is
/// how many graphs there are besides those, at most. Only inlets that reach a dsp input
/// at all are followed.
fn leads_past<N: RefNode>(
    graphs: &Table<GraphAddr, Graph<N, Edge>>,
    marked: &KeySet<GraphPort>,
    open: &mut KeySet<GraphAddr>,
    p: &GraphPort,
    left: usize,
) -> (r: bool)
    requires
        is_port(graphs@, p@),
        forall|q: (GraphAddr, usize)| #[trigger] marked@.contains(q) <==> may_signal(graphs@, q),
        graphs@.dom().finite(),
        graphs@.dom().difference(old(open)@).len() <= left,
    ensures
        final(open)@ == old(open)@,
        r == chains_past(graphs@, old(open)@, p@),
    decreases left,
{
    let ghost m = graphs@;
    let ghost before = open@;
    if open.contains(&p.graph) {
        proof {
            assert forall|s: Seq<(GraphAddr, usize)>| #[trigger]
                is_chain(m, s) && s[0] == p@ implies !avoids(s, before) by {
                assert(before.contains(s[0].0));
            }
        }
        return false;
    }
    proof {
        lemma_chains_past(m, before, p@);
        let rest = m.dom().difference(before);
        assert(rest.contains(p.graph));
        assert(m.dom().difference(before.insert(p.graph)) =~= rest.remove(p.graph));
        vstd::set_lib::lemma_len_subset(rest, m.dom());
    }
    let g = match graphs.get(&p.graph) {
        Some(g) => g,
        None => {
            return false;
        },
    };
    let ins = graph_inlets(g);
    let node: usize = ins[p.port];
    let _ = open.insert(p.graph);
    let ghost inner = open@;
    let mut found = false;
    let mut k: usize = 0;
    while k < g.edges.len()
        invariant
            m == graphs@,
            is_port(m, p@),
            *g == m[p.graph],
            node == inlets(*g)[p.port as int],
            inner == before.insert(p.graph),
            open@ == inner,
            left > 0,
            m.dom().finite(),
            m.dom().difference(inner).len() <= left - 1,
            forall|q: (GraphAddr, usize)| #[trigger] marked@.contains(q) <==> may_signal(m, q),
            k <= g.edges@.len(),
            found ==> direct(m, p@) || exists|q: (GraphAddr, usize)| #[trigger]
                passes(m)(p@, q) && chains_past(m, inner, q),
            !found ==> forall|j: int| 0 <= j < k ==> !#[trigger] feeds_dsp(*g, node, j),
            !found ==> forall|j: int, q: (GraphAddr, usize)|
                0 <= j < k && #[trigger] feeds_ref(*g, node, j, q) && is_port(m, q)
                    ==> !chains_past(m, inner, q),
        decreases g.edges@.len() - k,
    {
        let e = &g.edges[k];
        let t: usize = e.target;
        let port: usize = e.weight.input.0 as usize;
        if !found && e.source == node {
            if flow::is_dsp(g, t) {
                if port < flow::dsp_inputs(g, t) {
                    assert(feeds_dsp(*g, node, k as int));
                    found = true;
                }
            } else if let Some(a) = ref_ext::ref_at(g, t) {
                let q = GraphPort { graph: a, port };
                assert(feeds_ref(*g, node, k as int, q@));
                if marked.contains(&q) {
                    if leads_past(graphs, marked, open, &q, left - 1) {
                        assert(passes(m)(p@, q@));
                        found = true;
                    }
                } else {
                    proof {
                        if chains_past(m, inner, q@) {
                            let s = choose|s: Seq<(GraphAddr, usize)>| #[trigger]
                                is_chain(m, s) && s[0] == q@ && avoids(s, inner);
                            lemma_chain_may_signal(m, s);
                        }
                    }
                }
            }
        }
        k = k + 1;
    }
    open.remove(&p.graph);
    proof {
        assert(open@ =~= before);
        if !found {
            if direct(m, p@) {
                let j = choose|j: int| #[trigger] feeds_dsp(*g, node, j);
            }
            assert forall|q: (GraphAddr, usize)| #[trigger] passes(m)(p@, q) implies !chains_past(
                m,
                inner,
                q,
            ) by {
                let j = choose|j: int| #[trigger] feeds_ref(*g, node, j, q);
            }
        }
    }
    found
}

/// The inlets of the graphs at which signals arrive: those that feed a dsp input, in
/// their own graph or through references. References to graphs that are not there, and
/// chains of references that come back into a graph, count for nothing.
pub fn signal_inlets<N: RefNode>(graphs: &Table<GraphAddr, Graph<N, Edge>>) -> (r: KeySet<GraphPort>)
    ensures
        forall|p: (GraphAddr, usize)| #[trigger] r@.contains(p) <==> signal_inlet(graphs@, p),
{
    let marked = candidates(graphs);
    let list = marked.items();
    let ghost m = graphs@;
    let mut open: KeySet<GraphAddr> = KeySet::new();
    let mut r: KeySet<GraphPort> = KeySet::new();
    let n: usize = graphs.len();
    let mut i: usize = 0;
    while i < list.len()
        invariant
            m == graphs@,
            m.dom().finite(),
            n == m.dom().len(),
            open@ == Set::<GraphAddr>::empty(),
            crate::set::lists_set(list@, marked@),
            forall|p: (GraphAddr, usize)| #[trigger] marked@.contains(p) <==> may_signal(m, p),
            i <= list@.len(),
            forall|p: (GraphAddr, usize)| #[trigger]
                r@.contains(p) <==> signal_inlet(m, p) && exists|j: int|
                    0 <= j < i && (#[trigger] list@[j]).0@ == p,
        decreases list@.len() - i,
    {
        let p = list[i].0;
        let ghost before = r@;
        proof {
            table::lemma_entry(list@, i as int);
            assert(marked@.contains(p@));
            assert(m.dom().difference(open@) =~= m.dom());
        }
        let yes = leads_past(graphs, &marked, &mut open, &p, n);
        proof {
            assert(chains_past(m, Set::empty(), p@) == signal_inlet(m, p@)) by {
                if signal_inlet(m, p@) {
                    let s = choose|s: Seq<(GraphAddr, usize)>| #[trigger]
                        is_chain(m, s) && s[0] == p@;
                    assert(avoids(s, Set::empty()));
                }
            }
        }
        if yes {
            let _ = r.insert(p);
        }
        proof {
            assert forall|q: (GraphAddr, usize)| #[trigger]
                r@.contains(q) <==> signal_inlet(m, q) && exists|j: int|
                    0 <= j < i + 1 && (#[trigger] list@[j]).0@ == q by {
                assert(list@[i as int].0@ == p@);
                if before.contains(q) {
                    let j = choose|j: int| 0 <= j < i && (#[trigger] list@[j]).0@ == q;
                    assert(list@[j].0@ == q);
                }
            }
        }
        i = i + 1;
    }
    proof {
        assert forall|p: (GraphAddr, usize)| #[trigger] r@.contains(p) <==> signal_inlet(m, p) by {
            if signal_inlet(m, p) {
                let s = choose|s: Seq<(GraphAddr, usize)>| #[trigger] is_chain(m, s) && s[0] == p;
                lemma_chain_may_signal(m, s);
                assert(marked@.contains(p));
                let j = choose|j: int| 0 <= j < list@.len() && #[trigger] list@[j].0@ == p;
                assert(list@[j].0@ == p);
            }
        }
    }
    r
}

} // verus!
