//! Which ports of a viewed graph carry DSP signals, and of which shape: what edges are
//! styled by.
//!
//! A DSP node's ports are its own. A reference's ports resolve through the inlets and
//! outlets of the graph that it refers to. The viewed graph's own inlets and outlets
//! carry what their neighbours carry. One approximation: what comes into a referenced
//! graph and goes straight out again is not followed, and counts as control.

use crate::dsp::Rate;
use crate::edge::Edge;
use crate::flow;
use crate::graph::{Graph, GraphAddr};
use crate::node::{RefNode, ToNodeDsp};
use crate::order::Key;
use crate::ports::{self, GraphPort};
use crate::ref_ext;
use crate::regions::PathKey;
use crate::set::KeySet;
use crate::table::Table;
use vstd::prelude::*;

verus! {

/// A port of the viewed graph: a node's slot and the port's index.
#[derive(Clone, Copy, Debug, PartialEq, Eq, Hash)]
pub struct Port {
    pub node: usize,
    pub port: usize,
}

impl View for Port {
    type V = (usize, usize);

    open spec fn view(&self) -> (usize, usize) {
        (self.node, self.port)
    }
}

impl Key for Port {
    open spec fn precedes(a: (usize, usize), b: (usize, usize)) -> bool {
        a.0 < b.0 || (a.0 == b.0 && a.1 < b.1)
    }

    proof fn lemma_irreflexive(a: (usize, usize)) {
    }

    proof fn lemma_transitive(a: (usize, usize), b: (usize, usize), c: (usize, usize)) {
    }

    proof fn lemma_total(a: (usize, usize), b: (usize, usize)) {
    }

    fn before(&self, other: &Self) -> (r: bool) {
        self.node < other.node || (self.node == other.node && self.port < other.port)
    }

    fn same(&self, other: &Self) -> (r: bool) {
        self.node == other.node && self.port == other.port
    }

    fn dup(&self) -> (r: Self) {
        *self
    }
}

/// An output of a node, by the node's path.
#[derive(Debug)]
pub struct PathPort {
    pub path: PathKey,
    pub port: usize,
}

impl View for PathPort {
    type V = (Seq<usize>, usize);

    open spec fn view(&self) -> (Seq<usize>, usize) {
        (self.path@, self.port)
    }
}

impl Key for PathPort {
    open spec fn precedes(a: (Seq<usize>, usize), b: (Seq<usize>, usize)) -> bool {
        PathKey::precedes(a.0, b.0) || (a.0 == b.0 && a.1 < b.1)
    }

    proof fn lemma_irreflexive(a: (Seq<usize>, usize)) {
        PathKey::lemma_irreflexive(a.0);
    }

    proof fn lemma_transitive(
        a: (Seq<usize>, usize),
        b: (Seq<usize>, usize),
        c: (Seq<usize>, usize),
    ) {
        if PathKey::precedes(a.0, b.0) && PathKey::precedes(b.0, c.0) {
            PathKey::lemma_transitive(a.0, b.0, c.0);
        }
    }

    proof fn lemma_total(a: (Seq<usize>, usize), b: (Seq<usize>, usize)) {
        PathKey::lemma_total(a.0, b.0);
    }

    fn before(&self, other: &Self) -> (r: bool) {
        self.path.before(&other.path) || (self.path.same(&other.path) && self.port < other.port)
    }

    fn same(&self, other: &Self) -> (r: bool) {
        self.path.same(&other.path) && self.port == other.port
    }

    fn dup(&self) -> (r: Self) {
        PathPort { path: self.path.dup(), port: self.port }
    }
}

/// What an output carries: how many channels, at which rate.
#[derive(Clone, Copy, Debug, PartialEq, Eq, Hash, Structural)]
pub struct PortShape {
    pub width: usize,
    pub rate: Rate,
}

/// The shapes that a derivation recorded, by node path and output.
pub type PortShapes = Table<PathPort, PortShape>;

/// Which ports of a viewed graph carry signals. All others carry control values.
#[derive(Debug)]
pub struct RootPortInfo {
    /// The inputs at which signals arrive.
    pub signal_inputs: KeySet<Port>,
    /// The outputs that signals leave from, with their shape where it is known.
    pub signal_outputs: Table<Port, Option<PortShape>>,
}

/// The sources with a node put in front of their paths.
pub open spec fn beneath(node: usize, s: Seq<(Seq<usize>, usize)>) -> Seq<(Seq<usize>, usize)> {
    s.map_values(|x: (Seq<usize>, usize)| (seq![node] + x.0, x.1))
}

/// The dsp outputs that feed outlet `o` of the graph at `a`, by path and output. Only
/// the outlets in `left` are entered, each once along a chain.
pub open spec fn outlet_feeds<N: RefNode>(
    graphs: Map<GraphAddr, Graph<N, Edge>>,
    a: GraphAddr,
    o: usize,
    left: Set<(GraphAddr, usize)>,
) -> Seq<(Seq<usize>, usize)>
    decreases left.len(), 0nat,
    when left.finite()
{
    if left.contains((a, o)) && graphs.contains_key(a) && o < ports::outlets(graphs[a]).len() {
        let g = graphs[a];
        edge_feeds(
            graphs,
            g,
            ports::outlets(g)[o as int],
            g.edges@.len(),
            left.remove((a, o)),
        )
    } else {
        Seq::empty()
    }
}

/// What the first `n` edges bring to input 0 of a node, the newest edge first.
pub open spec fn edge_feeds<N: RefNode>(
    graphs: Map<GraphAddr, Graph<N, Edge>>,
    g: Graph<N, Edge>,
    node: usize,
    n: nat,
    left: Set<(GraphAddr, usize)>,
) -> Seq<(Seq<usize>, usize)>
    decreases left.len(), n + 1,
    when left.finite()
{
    if n == 0 || n > g.edges@.len() {
        Seq::empty()
    } else {
        let e = g.edges@[n - 1];
        let older = edge_feeds(graphs, g, node, (n - 1) as nat, left);
        let port = e.weight.output.0 as usize;
        if e.target == node && e.weight.input.0 == 0 {
            if flow::dsp_at(g, e.source as int) is Some {
                if port < ports::n_out(g, e.source as int) {
                    seq![(seq![e.source], port)] + older
                } else {
                    older
                }
            } else {
                match ref_ext::target_at(g, e.source as int) {
                    Some(b) => beneath(e.source, outlet_feeds(graphs, b, port, left)) + older,
                    None => older,
                }
            }
        } else {
            older
        }
    }
}

/// What a list of sources denotes.
pub open spec fn source_views(s: Seq<(Vec<usize>, usize)>) -> Seq<(Seq<usize>, usize)> {
    s.map_values(|x: (Vec<usize>, usize)| (x.0@, x.1))
}

fn edge_sources<N: RefNode>(
    graphs: &Table<GraphAddr, Graph<N, Edge>>,
    g: &Graph<N, Edge>,
    node: usize,
    left: &KeySet<GraphPort>,
) -> (r: Vec<(Vec<usize>, usize)>)
    requires
        left@.finite(),
    ensures
        source_views(r@) == edge_feeds(graphs@, *g, node, g.edges@.len(), left@),
    decreases left@.len(), 1nat,
{
    let mut r: Vec<(Vec<usize>, usize)> = Vec::new();
    let ghost m = graphs@;
    let ghost all = edge_feeds(m, *g, node, g.edges@.len(), left@);
    let mut k: usize = g.edges.len();
    assert(source_views(r@) + edge_feeds(m, *g, node, k as nat, left@) =~= all);
    while k > 0
        invariant
            m == graphs@,
            left@.finite(),
            k <= g.edges@.len(),
            source_views(r@) + edge_feeds(m, *g, node, k as nat, left@) == all,
        decreases k,
    {
        k = k - 1;
        let ghost older = edge_feeds(m, *g, node, k as nat, left@);
        let e = &g.edges[k];
        let s: usize = e.source;
        let port: usize = e.weight.output.0 as usize;
        let ghost before = r@;
        if e.target == node && e.weight.input.0 == 0 {
            if flow::is_dsp(g, s) {
                if port < ports::dsp_outputs(g, s) {
                    let path = vec![s];
                    assert(path@ =~= seq![s]);
                    r.push((path, port));
                    assert(source_views(r@) =~= source_views(before).push((seq![s], port)));
                }
            } else if let Some(b) = ref_ext::ref_at(g, s) {
                let inner = outlet_sources(graphs, b, port, left);
                let ghost iv = source_views(inner@);
                let mut j: usize = 0;
                assert(source_views(r@) =~= source_views(before) + beneath(s, iv.take(0)));
                while j < inner.len()
                    invariant
                        j <= inner@.len(),
                        iv == source_views(inner@),
                        source_views(r@) == source_views(before) + beneath(s, iv.take(j as int)),
                    decreases inner@.len() - j,
                {
                    let ghost here = r@;
                    let mut path = vec![s];
                    assert(path@ =~= seq![s]);
                    extend(&mut path, &inner[j].0);
                    let ghost pv = path@;
                    r.push((path, inner[j].1));
                    proof {
                        assert(iv.take(j + 1) =~= iv.take(j as int).push(iv[j as int]));
                        assert(source_views(r@) =~= source_views(here).push(
                            (pv, inner@[j as int].1),
                        ));
                        assert(beneath(s, iv.take(j + 1)) =~= beneath(s, iv.take(j as int)).push(
                            (seq![s] + iv[j as int].0, iv[j as int].1),
                        ));
                        assert(source_views(r@) =~= source_views(before) + beneath(
                            s,
                            iv.take(j + 1),
                        ));
                    }
                    j = j + 1;
                }
                assert(iv.take(j as int) =~= iv);
            }
        }
        assert(source_views(r@) + older =~= all);
    }
    assert(source_views(r@) =~= all);
    r
}

fn extend(v: &mut Vec<usize>, s: &Vec<usize>)
    ensures
        final(v)@ == old(v)@ + s@,
{
    let mut i: usize = 0;
    assert(v@ =~= old(v)@ + s@.take(0));
    while i < s.len()
        invariant
            i <= s@.len(),
            v@ == old(v)@ + s@.take(i as int),
        decreases s@.len() - i,
    {
        v.push(s[i]);
        assert(s@.take(i + 1) =~= s@.take(i as int).push(s@[i as int]));
        i = i + 1;
    }
    assert(s@.take(i as int) =~= s@);
}

/// The dsp outputs that feed outlet `o` of the graph at `a`, by path within that graph
/// and output. A chain that ends at anything but a dsp output, or comes back to an outlet
/// that it went through, contributes nothing.
pub fn outlet_sources<N: RefNode>(
    graphs: &Table<GraphAddr, Graph<N, Edge>>,
    a: GraphAddr,
    o: usize,
    left: &KeySet<GraphPort>,
) -> (r: Vec<(Vec<usize>, usize)>)
    requires
        left@.finite(),
    ensures
        source_views(r@) == outlet_feeds(graphs@, a, o, left@),
    decreases left@.len(), 0nat,
{
    let none: Vec<(Vec<usize>, usize)> = Vec::new();
    assert(source_views(none@) =~= Seq::<(Seq<usize>, usize)>::empty());
    let at = GraphPort { graph: a, port: o };
    if !left.contains(&at) {
        return none;
    }
    match graphs.get(&a) {
        Some(g) => {
            let outs = ports::graph_outlets(g);
            if o < outs.len() {
                let rest = crate::set::without(left, &at);
                edge_sources(graphs, g, outs[o], &rest)
            } else {
                none
            }
        },
        None => none,
    }
}

/// The shape recorded for a source beneath a reference.
pub open spec fn shape_of(
    shapes: Map<(Seq<usize>, usize), PortShape>,
    root: usize,
    s: (Seq<usize>, usize),
) -> Option<PortShape> {
    let key = (seq![root] + s.0, s.1);
    if shapes.contains_key(key) {
        Some(shapes[key])
    } else {
        None
    }
}

/// Two shapes summed: as wide as the wider, at audio rate if either is.
pub open spec fn joined(a: PortShape, b: PortShape) -> PortShape {
    PortShape {
        width: if a.width < b.width {
            b.width
        } else {
            a.width
        },
        rate: if a.rate == Rate::Audio || b.rate == Rate::Audio {
            Rate::Audio
        } else {
            a.rate
        },
    }
}

/// The shape of the sum of the sources, if any of them has one.
pub open spec fn summed(
    shapes: Map<(Seq<usize>, usize), PortShape>,
    root: usize,
    sources: Seq<(Seq<usize>, usize)>,
) -> Option<PortShape>
    decreases sources.len(),
{
    if sources.len() == 0 {
        None
    } else {
        let init = summed(shapes, root, sources.drop_last());
        match shape_of(shapes, root, sources.last()) {
            Some(s) => match init {
                Some(acc) => Some(joined(acc, s)),
                None => Some(s),
            },
            None => init,
        }
    }
}

/// The shape of a reference's output that is fed by the given sources: the sum is as
/// wide as the widest, and at audio rate if any is.
pub fn sum_shape(shapes: &PortShapes, root: usize, sources: &Vec<(Vec<usize>, usize)>) -> (r: Option<
    PortShape,
>)
    ensures
        r == summed(shapes@, root, source_views(sources@)),
{
    let ghost all = source_views(sources@);
    let mut acc: Option<PortShape> = None;
    let mut i: usize = 0;
    assert(all.take(0) =~= Seq::empty());
    while i < sources.len()
        invariant
            all == source_views(sources@),
            i <= sources@.len(),
            acc == summed(shapes@, root, all.take(i as int)),
        decreases sources@.len() - i,
    {
        let mut path = vec![root];
        assert(path@ =~= seq![root]);
        extend(&mut path, &sources[i].0);
        let key = PathPort { path: PathKey(path), port: sources[i].1 };
        proof {
            assert(all.take(i + 1).drop_last() =~= all.take(i as int));
            assert(all.take(i + 1).last() == all[i as int]);
            assert(key@ == (seq![root] + all[i as int].0, all[i as int].1));
        }
        if let Some(s) = shapes.get(&key) {
            acc = match acc {
                Some(a) => Some(
                    PortShape {
                        width: if a.width < s.width {
                            s.width
                        } else {
                            a.width
                        },
                        rate: if a.rate == Rate::Audio || s.rate == Rate::Audio {
                            Rate::Audio
                        } else {
                            a.rate
                        },
                    },
                ),
                None => Some(*s),
            };
        }
        i = i + 1;
    }
    assert(all.take(i as int) =~= all);
    acc
}

/// Whether a signal arrives at input `p` of node `i`, as far as the node itself tells.
pub open spec fn own_input<N: RefNode>(
    graphs: Map<GraphAddr, Graph<N, Edge>>,
    g: Graph<N, Edge>,
    i: usize,
    p: usize,
) -> bool {
    if flow::dsp_at(g, i as int) is Some {
        p < flow::n_in(g, i as int)
    } else {
        match ref_ext::target_at(g, i as int) {
            Some(a) => ports::signal_inlet(graphs, (a, p)),
            None => false,
        }
    }
}

/// The shape of the signal that leaves from output `p` of node `i`, as far as the node
/// itself tells; `None` where no signal does.
pub open spec fn own_output<N: RefNode>(
    graphs: Map<GraphAddr, Graph<N, Edge>>,
    g: Graph<N, Edge>,
    shapes: Map<(Seq<usize>, usize), PortShape>,
    i: usize,
    p: usize,
) -> Option<Option<PortShape>> {
    if flow::dsp_at(g, i as int) is Some {
        if p < ports::n_out(g, i as int) {
            Some(
                if shapes.contains_key((seq![i], p)) {
                    Some(shapes[(seq![i], p)])
                } else {
                    None
                },
            )
        } else {
            None
        }
    } else {
        match ref_ext::target_at(g, i as int) {
            Some(a) => {
                let feeds = outlet_feeds(graphs, a, p, ports::outlet_ports(graphs));
                if feeds.len() > 0 {
                    Some(summed(shapes, i, feeds))
                } else {
                    None
                }
            },
            None => None,
        }
    }
}

/// Whether edge `k` leads from node `i` to an input at which a signal arrives.
pub open spec fn leads_to_signal<N: RefNode>(
    graphs: Map<GraphAddr, Graph<N, Edge>>,
    g: Graph<N, Edge>,
    i: usize,
    k: int,
) -> bool {
    0 <= k < g.edges@.len() && g.edges@[k].source == i && own_input(
        graphs,
        g,
        g.edges@[k].target,
        g.edges@[k].weight.input.0 as usize,
    )
}

/// The shape of the signal that leaves from an output, where one does: an inlet carries
/// a signal if it feeds an input that does.
pub open spec fn signal_output<N: RefNode>(
    graphs: Map<GraphAddr, Graph<N, Edge>>,
    g: Graph<N, Edge>,
    shapes: Map<(Seq<usize>, usize), PortShape>,
    i: usize,
    p: usize,
) -> Option<Option<PortShape>> {
    if p == 0 && ports::inlet_at(g, i as int) && exists|k: int| #[trigger]
        leads_to_signal(graphs, g, i, k) {
        Some(None)
    } else {
        own_output(graphs, g, shapes, i, p)
    }
}

/// Whether edge `k` leads from an output that a signal leaves from to node `i`.
pub open spec fn brings_signal<N: RefNode>(
    graphs: Map<GraphAddr, Graph<N, Edge>>,
    g: Graph<N, Edge>,
    shapes: Map<(Seq<usize>, usize), PortShape>,
    i: usize,
    k: int,
) -> bool {
    0 <= k < g.edges@.len() && g.edges@[k].target == i && signal_output(
        graphs,
        g,
        shapes,
        g.edges@[k].source,
        g.edges@[k].weight.output.0 as usize,
    ) is Some
}

/// Whether a signal arrives at an input: an outlet carries one if an output that does
/// feeds it.
pub open spec fn signal_input<N: RefNode>(
    graphs: Map<GraphAddr, Graph<N, Edge>>,
    g: Graph<N, Edge>,
    shapes: Map<(Seq<usize>, usize), PortShape>,
    i: usize,
    p: usize,
) -> bool {
    own_input(graphs, g, i, p) || (p == 0 && ports::outlet_at(g, i as int) && exists|k: int|
     #[trigger] brings_signal(graphs, g, shapes, i, k))
}

fn put_inputs(inputs: &mut KeySet<Port>, i: usize, n: usize)
    ensures
        forall|q: (usize, usize)| #[trigger]
            final(inputs)@.contains(q) <==> old(inputs)@.contains(q) || (q.0 == i && q.1 < n),
{
    let ghost before = inputs@;
    let mut p: usize = 0;
    while p < n
        invariant
            p <= n,
            forall|q: (usize, usize)| #[trigger]
                inputs@.contains(q) <==> before.contains(q) || (q.0 == i && q.1 < p),
        decreases n - p,
    {
        let _ = inputs.insert(Port { node: i, port: p });
        p = p + 1;
    }
}

fn put_ref_inputs(
    inputs: &mut KeySet<Port>,
    i: usize,
    a: GraphAddr,
    signal: &KeySet<GraphPort>,
    n: usize,
)
    ensures
        forall|q: (usize, usize)| #[trigger]
            final(inputs)@.contains(q) <==> old(inputs)@.contains(q) || (q.0 == i && q.1 < n
                && signal@.contains((a, q.1))),
{
    let ghost before = inputs@;
    let mut p: usize = 0;
    while p < n
        invariant
            p <= n,
            forall|q: (usize, usize)| #[trigger]
                inputs@.contains(q) <==> before.contains(q) || (q.0 == i && q.1 < p
                    && signal@.contains((a, q.1))),
        decreases n - p,
    {
        if signal.contains(&GraphPort { graph: a, port: p }) {
            let _ = inputs.insert(Port { node: i, port: p });
        }
        p = p + 1;
    }
}

/// Whether `after` is `before` with the outputs of node `i` that `f` gives a shape for.
spec fn outputs_put(
    before: Map<(usize, usize), Option<PortShape>>,
    after: Map<(usize, usize), Option<PortShape>>,
    i: usize,
    n: usize,
    f: spec_fn(usize) -> Option<Option<PortShape>>,
) -> bool {
    &&& forall|q: (usize, usize)| #[trigger]
        after.contains_key(q) <==> before.contains_key(q) || (q.0 == i && q.1 < n && f(q.1) is Some)
    &&& forall|q: (usize, usize)| #[trigger]
        after.contains_key(q) ==> after[q] == (if q.0 == i && q.1 < n && f(q.1) is Some {
            f(q.1)->0
        } else {
            before[q]
        })
}

fn put_outputs<N: RefNode>(
    g: &Graph<N, Edge>,
    shapes: &PortShapes,
    outputs: &mut Table<Port, Option<PortShape>>,
    i: usize,
    n: usize,
    Ghost(graphs): Ghost<Map<GraphAddr, Graph<N, Edge>>>,
)
    requires
        flow::dsp_at(*g, i as int) is Some,
        n == ports::n_out(*g, i as int),
    ensures
        outputs_put(
            old(outputs)@,
            final(outputs)@,
            i,
            n,
            |p: usize| own_output(graphs, *g, shapes@, i, p),
        ),
{
    let ghost before = outputs@;
    let ghost f = |p: usize| own_output(graphs, *g, shapes@, i, p);
    let mut p: usize = 0;
    while p < n
        invariant
            p <= n,
            f == |p: usize| own_output(graphs, *g, shapes@, i, p),
            flow::dsp_at(*g, i as int) is Some,
            n == ports::n_out(*g, i as int),
            outputs_put(before, outputs@, i, p, f),
        decreases n - p,
    {
        let path = vec![i];
        assert(path@ =~= seq![i]);
        let key = PathPort { path: PathKey(path), port: p };
        let shape = match shapes.get(&key) {
            Some(s) => Some(*s),
            None => None,
        };
        assert(f(p) == Some(shape));
        let ghost here = outputs@;
        outputs.insert(Port { node: i, port: p }, shape);
        assert(outputs@ == here.insert((i, p), shape));
        p = p + 1;
    }
}

fn put_ref_outputs<N: RefNode>(
    graphs: &Table<GraphAddr, Graph<N, Edge>>,
    g: &Graph<N, Edge>,
    shapes: &PortShapes,
    outputs: &mut Table<Port, Option<PortShape>>,
    i: usize,
    a: GraphAddr,
    n: usize,
    left: &KeySet<GraphPort>,
)
    requires
        flow::dsp_at(*g, i as int) is None,
        ref_ext::target_at(*g, i as int) == Some(a),
        left@ == ports::outlet_ports(graphs@),
        left@.finite(),
    ensures
        outputs_put(
            old(outputs)@,
            final(outputs)@,
            i,
            n,
            |p: usize| own_output(graphs@, *g, shapes@, i, p),
        ),
{
    let ghost before = outputs@;
    let ghost f = |p: usize| own_output(graphs@, *g, shapes@, i, p);
    let mut p: usize = 0;
    while p < n
        invariant
            p <= n,
            f == |p: usize| own_output(graphs@, *g, shapes@, i, p),
            flow::dsp_at(*g, i as int) is None,
            ref_ext::target_at(*g, i as int) == Some(a),
            left@ == ports::outlet_ports(graphs@),
            left@.finite(),
            outputs_put(before, outputs@, i, p, f),
        decreases n - p,
    {
        let sources = outlet_sources(graphs, a, p, left);
        assert(source_views(sources@).len() == sources@.len());
        if sources.len() > 0 {
            let shape = sum_shape(shapes, i, &sources);
            assert(f(p) == Some(shape));
            let ghost here = outputs@;
            outputs.insert(Port { node: i, port: p }, shape);
            assert(outputs@ == here.insert((i, p), shape));
        } else {
            assert(f(p) is None);
        }
        p = p + 1;
    }
}

fn inlet_feeds_signal<N: RefNode>(
    g: &Graph<N, Edge>,
    inputs: &KeySet<Port>,
    i: usize,
    Ghost(graphs): Ghost<Map<GraphAddr, Graph<N, Edge>>>,
) -> (r: bool)
    requires
        forall|q: (usize, usize)| #[trigger]
            inputs@.contains(q) <==> own_input(graphs, *g, q.0, q.1),
    ensures
        r == (exists|k: int| #[trigger] leads_to_signal(graphs, *g, i, k)),
{
    let mut k: usize = 0;
    while k < g.edges.len()
        invariant
            forall|q: (usize, usize)| #[trigger]
                inputs@.contains(q) <==> own_input(graphs, *g, q.0, q.1),
            k <= g.edges@.len(),
            forall|j: int| 0 <= j < k ==> !#[trigger] leads_to_signal(graphs, *g, i, j),
        decreases g.edges@.len() - k,
    {
        let e = &g.edges[k];
        let to = Port { node: e.target, port: e.weight.input.0 as usize };
        let there = inputs.contains(&to);
        assert(there == own_input(graphs, *g, to@.0, to@.1));
        if e.source == i && there {
            assert(leads_to_signal(graphs, *g, i, k as int));
            return true;
        }
        assert(!leads_to_signal(graphs, *g, i, k as int));
        k = k + 1;
    }
    false
}

fn outlet_gets_signal<N: RefNode>(
    g: &Graph<N, Edge>,
    outputs: &Table<Port, Option<PortShape>>,
    i: usize,
    Ghost(graphs): Ghost<Map<GraphAddr, Graph<N, Edge>>>,
    Ghost(shapes): Ghost<Map<(Seq<usize>, usize), PortShape>>,
) -> (r: bool)
    requires
        forall|q: (usize, usize)| #[trigger]
            outputs@.contains_key(q) <==> signal_output(graphs, *g, shapes, q.0, q.1) is Some,
    ensures
        r == (exists|k: int| #[trigger] brings_signal(graphs, *g, shapes, i, k)),
{
    let mut k: usize = 0;
    while k < g.edges.len()
        invariant
            forall|q: (usize, usize)| #[trigger]
                outputs@.contains_key(q) <==> signal_output(graphs, *g, shapes, q.0, q.1) is Some,
            k <= g.edges@.len(),
            forall|j: int| 0 <= j < k ==> !#[trigger] brings_signal(graphs, *g, shapes, i, j),
        decreases g.edges@.len() - k,
    {
        let e = &g.edges[k];
        let from = Port { node: e.source, port: e.weight.output.0 as usize };
        let there = outputs.contains_key(&from);
        assert(there == (signal_output(graphs, *g, shapes, from@.0, from@.1) is Some));
        if e.target == i && there {
            assert(brings_signal(graphs, *g, shapes, i, k as int));
            return true;
        }
        assert(!brings_signal(graphs, *g, shapes, i, k as int));
        k = k + 1;
    }
    false
}

/// Which ports of a viewed graph carry signals, and of which shape. References resolve
/// through `graphs`; `shapes` are those that the graph's derivation recorded.
pub fn root_port_info<N: RefNode>(
    g: &Graph<N, Edge>,
    graphs: &Table<GraphAddr, Graph<N, Edge>>,
    shapes: &PortShapes,
) -> (r: RootPortInfo)
    ensures
        forall|i: usize, p: usize| #[trigger]
            r.signal_inputs@.contains((i, p)) <==> signal_input(graphs@, *g, shapes@, i, p),
        forall|i: usize, p: usize| #[trigger]
            r.signal_outputs@.contains_key((i, p)) <==> signal_output(
                graphs@,
                *g,
                shapes@,
                i,
                p,
            ) is Some,
        forall|i: usize, p: usize| #[trigger]
            r.signal_outputs@.contains_key((i, p)) ==> r.signal_outputs@[(i, p)] == signal_output(
                graphs@,
                *g,
                shapes@,
                i,
                p,
            )->0,
{
    let ghost m = graphs@;
    let ghost sh = shapes@;
    let signal = ports::signal_inlets(graphs);
    let left = ports::all_outlets(graphs);
    let n_outlets: usize = left.len();
    let mut inputs: KeySet<Port> = KeySet::new();
    let mut outputs: Table<Port, Option<PortShape>> = Table::new();
    let mut i: usize = 0;
    while i < g.nodes.len()
        invariant
            m == graphs@,
            sh == shapes@,
            left@ == ports::outlet_ports(m),
            left@.finite(),
            forall|p: (GraphAddr, usize)| #[trigger]
                signal@.contains(p) <==> ports::signal_inlet(m, p),
            i <= g.nodes@.len(),
            forall|q: (usize, usize)| #[trigger]
                inputs@.contains(q) <==> q.0 < i && own_input(m, *g, q.0, q.1),
            forall|q: (usize, usize)| #[trigger]
                outputs@.contains_key(q) <==> q.0 < i && own_output(m, *g, sh, q.0, q.1) is Some,
            forall|q: (usize, usize)| #[trigger]
                outputs@.contains_key(q) ==> outputs@[q] == own_output(m, *g, sh, q.0, q.1)->0,
        decreases g.nodes@.len() - i,
    {
        let ghost in0 = inputs@;
        let ghost out0 = outputs@;
        let ghost f = |p: usize| own_output(m, *g, sh, i, p);
        if flow::is_dsp(g, i) {
            let n_in: usize = flow::dsp_inputs(g, i);
            let n_out: usize = ports::dsp_outputs(g, i);
            put_inputs(&mut inputs, i, n_in);
            put_outputs(g, shapes, &mut outputs, i, n_out, Ghost(m));
            proof {
                assert(outputs_put(out0, outputs@, i, n_out, f));
                assert forall|p: usize| (#[trigger] f(p)) is Some implies p < n_out by {}
                lemma_next_outputs(*g, m, sh, out0, outputs@, i, n_out);
                assert forall|q: (usize, usize)| #[trigger]
                    inputs@.contains(q) <==> q.0 < i + 1 && own_input(m, *g, q.0, q.1) by {
                    assert(in0.contains(q) <==> q.0 < i && own_input(m, *g, q.0, q.1));
                }
            }
        } else if let Some(a) = ref_ext::ref_at(g, i) {
            let (n_in, n_out): (usize, usize) = match graphs.get(&a) {
                Some(h) => (ports::graph_inlets(h).len(), ports::graph_outlets(h).len()),
                None => (0, 0),
            };
            put_ref_inputs(&mut inputs, i, a, &signal, n_in);
            put_ref_outputs(graphs, g, shapes, &mut outputs, i, a, n_out, &left);
            proof {
                assert(outputs_put(out0, outputs@, i, n_out, f));
                assert forall|p: usize| (#[trigger] f(p)) is Some implies p < n_out by {
                    assert(outlet_feeds(m, a, p, ports::outlet_ports(m)).len() > 0);
                }
                lemma_next_outputs(*g, m, sh, out0, outputs@, i, n_out);
                assert forall|q: (usize, usize)| #[trigger]
                    inputs@.contains(q) <==> q.0 < i + 1 && own_input(m, *g, q.0, q.1) by {
                    assert(in0.contains(q) <==> q.0 < i && own_input(m, *g, q.0, q.1));
                    assert(signal@.contains((a, q.1)) <==> ports::signal_inlet(m, (a, q.1)));
                    if ports::signal_inlet(m, (a, q.1)) {
                        ports::lemma_signal_is_port(m, (a, q.1));
                    }
                }
            }
        } else {
            proof {
                assert forall|q: (usize, usize)| #[trigger]
                    inputs@.contains(q) <==> q.0 < i + 1 && own_input(m, *g, q.0, q.1) by {
                    assert(in0.contains(q) <==> q.0 < i && own_input(m, *g, q.0, q.1));
                }
                assert forall|q: (usize, usize)| #[trigger]
                    outputs@.contains_key(q) <==> q.0 < i + 1 && own_output(
                        m,
                        *g,
                        sh,
                        q.0,
                        q.1,
                    ) is Some by {
                    assert(out0.contains_key(q) <==> q.0 < i && own_output(
                        m,
                        *g,
                        sh,
                        q.0,
                        q.1,
                    ) is Some);
                }
            }
        }
        i = i + 1;
    }
    proof {
        assert forall|q: (usize, usize)| #[trigger] inputs@.contains(q) <==> own_input(
            m,
            *g,
            q.0,
            q.1,
        ) by {
            if own_input(m, *g, q.0, q.1) {
                assert(g.has(q.0 as int));
            }
        }
        assert forall|q: (usize, usize)| #[trigger] outputs@.contains_key(q) <==> own_output(
            m,
            *g,
            sh,
            q.0,
            q.1,
        ) is Some by {
            if own_output(m, *g, sh, q.0, q.1) is Some {
                assert(g.has(q.0 as int));
            }
        }
    }
    let mut j: usize = 0;
    while j < g.nodes.len()
        invariant
            m == graphs@,
            j <= g.nodes@.len(),
            forall|q: (usize, usize)| #[trigger]
                inputs@.contains(q) <==> own_input(m, *g, q.0, q.1),
            forall|q: (usize, usize)| #[trigger]
                outputs@.contains_key(q) <==> passed_output(m, *g, sh, j, q) is Some,
            forall|q: (usize, usize)| #[trigger]
                outputs@.contains_key(q) ==> outputs@[q] == passed_output(m, *g, sh, j, q)->0,
        decreases g.nodes@.len() - j,
    {
        let ghost out0 = outputs@;
        if ports::is_inlet(g, j) && inlet_feeds_signal(g, &inputs, j, Ghost(m)) {
            outputs.insert(Port { node: j, port: 0 }, None);
            assert(outputs@ == out0.insert((j, 0), None));
        }
        proof {
            assert forall|q: (usize, usize)| #[trigger] outputs@.contains_key(q) <==> passed_output(
                m,
                *g,
                sh,
                (j + 1) as usize,
                q,
            ) is Some by {
                assert(out0.contains_key(q) <==> passed_output(m, *g, sh, j, q) is Some);
            }
            assert forall|q: (usize, usize)| #[trigger] outputs@.contains_key(q) implies outputs@[q]
                == passed_output(m, *g, sh, (j + 1) as usize, q)->0 by {
                if out0.contains_key(q) {
                    assert(out0[q] == passed_output(m, *g, sh, j, q)->0);
                }
            }
        }
        j = j + 1;
    }
    proof {
        assert forall|q: (usize, usize)| passed_output(m, *g, sh, j, q) == #[trigger] signal_output(
            m,
            *g,
            sh,
            q.0,
            q.1,
        ) by {}
        assert forall|q: (usize, usize)| #[trigger] outputs@.contains_key(q) <==> signal_output(
            m,
            *g,
            sh,
            q.0,
            q.1,
        ) is Some by {}
    }
    let ghost in1 = inputs@;
    let mut k: usize = 0;
    while k < g.nodes.len()
        invariant
            m == graphs@,
            sh == shapes@,
            k <= g.nodes@.len(),
            forall|q: (usize, usize)| #[trigger]
                outputs@.contains_key(q) <==> signal_output(m, *g, sh, q.0, q.1) is Some,
            forall|q: (usize, usize)| #[trigger]
                in1.contains(q) <==> own_input(m, *g, q.0, q.1),
            forall|q: (usize, usize)| #[trigger]
                inputs@.contains(q) <==> in1.contains(q) || (q.0 < k && signal_input(
                    m,
                    *g,
                    sh,
                    q.0,
                    q.1,
                )),
        decreases g.nodes@.len() - k,
    {
        let ghost here = inputs@;
        let yes = ports::is_outlet(g, k) && outlet_gets_signal(
            g,
            &outputs,
            k,
            Ghost(m),
            Ghost(sh),
        );
        if yes {
            let _ = inputs.insert(Port { node: k, port: 0 });
        }
        proof {
            assert forall|q: (usize, usize)| #[trigger]
                inputs@.contains(q) <==> in1.contains(q) || (q.0 < k + 1 && signal_input(
                    m,
                    *g,
                    sh,
                    q.0,
                    q.1,
                )) by {
                assert(here.contains(q) <==> in1.contains(q) || (q.0 < k && signal_input(
                    m,
                    *g,
                    sh,
                    q.0,
                    q.1,
                )));
                assert(in1.contains(q) <==> own_input(m, *g, q.0, q.1));
            }
        }
        k = k + 1;
    }
    let r = RootPortInfo { signal_inputs: inputs, signal_outputs: outputs };
    proof {
        assert forall|x: usize, p: usize| #[trigger] r.signal_inputs@.contains((x, p))
            <==> signal_input(m, *g, sh, x, p) by {
            let q = (x, p);
            assert(inputs@.contains(q) <==> in1.contains(q) || (q.0 < k && signal_input(
                m,
                *g,
                sh,
                q.0,
                q.1,
            )));
            if signal_input(m, *g, sh, x, p) {
                assert(g.has(x as int));
            }
        }
        assert forall|x: usize, p: usize| #[trigger] r.signal_outputs@.contains_key((x, p))
            <==> signal_output(m, *g, sh, x, p) is Some by {
            let q = (x, p);
            assert(outputs@.contains_key(q) <==> signal_output(m, *g, sh, q.0, q.1) is Some);
        }
        assert forall|x: usize, p: usize| #[trigger]
            r.signal_outputs@.contains_key((x, p)) implies r.signal_outputs@[(x, p)]
            == signal_output(m, *g, sh, x, p)->0 by {
            let q = (x, p);
            assert(outputs@[q] == passed_output(m, *g, sh, j, q)->0);
            assert(passed_output(m, *g, sh, j, q) == signal_output(m, *g, sh, q.0, q.1));
        }
    }
    r
}

/// The outputs once the inlets below slot `j` have been looked at.
spec fn passed_output<N: RefNode>(
    graphs: Map<GraphAddr, Graph<N, Edge>>,
    g: Graph<N, Edge>,
    shapes: Map<(Seq<usize>, usize), PortShape>,
    j: usize,
    q: (usize, usize),
) -> Option<Option<PortShape>> {
    if q.0 < j {
        signal_output(graphs, g, shapes, q.0, q.1)
    } else {
        own_output(graphs, g, shapes, q.0, q.1)
    }
}

proof fn lemma_next_outputs<N: RefNode>(
    g: Graph<N, Edge>,
    m: Map<GraphAddr, Graph<N, Edge>>,
    sh: Map<(Seq<usize>, usize), PortShape>,
    before: Map<(usize, usize), Option<PortShape>>,
    after: Map<(usize, usize), Option<PortShape>>,
    i: usize,
    n: usize,
)
    requires
        i < usize::MAX,
        forall|q: (usize, usize)| #[trigger]
            before.contains_key(q) <==> q.0 < i && own_output(m, g, sh, q.0, q.1) is Some,
        forall|q: (usize, usize)| #[trigger]
            before.contains_key(q) ==> before[q] == own_output(m, g, sh, q.0, q.1)->0,
        outputs_put(before, after, i, n, |p: usize| own_output(m, g, sh, i, p)),
        forall|p: usize| (#[trigger] own_output(m, g, sh, i, p)) is Some ==> p < n,
    ensures
        forall|q: (usize, usize)| #[trigger]
            after.contains_key(q) <==> q.0 < i + 1 && own_output(m, g, sh, q.0, q.1) is Some,
        forall|q: (usize, usize)| #[trigger]
            after.contains_key(q) ==> after[q] == own_output(m, g, sh, q.0, q.1)->0,
{
    assert forall|q: (usize, usize)| #[trigger] after.contains_key(q) <==> q.0 < i + 1
        && own_output(m, g, sh, q.0, q.1) is Some by {
        assert(before.contains_key(q) <==> q.0 < i && own_output(m, g, sh, q.0, q.1) is Some);
    }
}

} // verus!
