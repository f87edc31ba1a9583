//! What the cords of a viewed graph show: which of them carry signals, and of which shape.

use crate::dsp::Rate;
use crate::edge::Edge;
use crate::flow;
use crate::graph::{Graph, GraphAddr};
use crate::node::{NodeDsp, RefNode, ToNodeDsp};
use crate::port_info::{self, PortShape};
use crate::ports;
use crate::ref_ext;
use crate::walk;
use vstd::prelude::*;

verus! {

/// The graphs that references go to, by address.
pub type Graphs<N> = Map<GraphAddr, Graph<N, Edge>>;

/// The shapes that a derivation recorded, by node path and output.
pub type Shapes = Map<(Seq<usize>, usize), PortShape>;

/// A dsp node shows what was derived of it: signals arrive at just its dsp inputs and
/// leave from just its dsp outputs, and each output has the very shape that was recorded
/// for it, or none where none was.
pub proof fn law_dsp_nodes_show_their_recorded_shapes<N: RefNode>(
    graphs: Graphs<N>,
    g: Graph<N, Edge>,
    shapes: Shapes,
    i: usize,
    p: usize,
)
    requires
        flow::dsp_at(g, i as int) is Some,
        !ports::inlet_at(g, i as int),
        !ports::outlet_at(g, i as int),
    ensures
        port_info::signal_input(graphs, g, shapes, i, p) <==> p < flow::dsp_at(
            g,
            i as int,
        )->0.dsp_inputs(),
        port_info::signal_output(graphs, g, shapes, i, p) is Some <==> p < flow::dsp_at(
            g,
            i as int,
        )->0.dsp_outputs(),
        p < flow::dsp_at(g, i as int)->0.dsp_outputs() && shapes.contains_key((seq![i], p))
            ==> port_info::signal_output(graphs, g, shapes, i, p) == Some(
            Some(shapes[(seq![i], p)]),
        ),
        p < flow::dsp_at(g, i as int)->0.dsp_outputs() && !shapes.contains_key((seq![i], p))
            ==> port_info::signal_output(graphs, g, shapes, i, p) == Some(None::<PortShape>),
{
}

/// Whether a chain of outlets leads from a reference's output to a dsp output: it starts
/// at outlet `s[0]`, each outlet is fed, at its input, by the node of the path that stands
/// in its graph, that node is a reference to the graph of the next outlet and feeds from
/// it, and the last is the dsp node that the signal comes from. No outlet comes twice.
pub open spec fn feeds_through<N: RefNode>(
    graphs: Graphs<N>,
    s: Seq<(GraphAddr, usize)>,
    path: Seq<usize>,
    port: usize,
) -> bool {
    &&& s.len() == path.len()
    &&& s.len() > 0
    &&& forall|k: int, l: int| 0 <= k < l < s.len() ==> #[trigger] s[k] != #[trigger] s[l]
    &&& forall|k: int| 0 <= k < s.len() ==> #[trigger] fed_at(graphs, s, path, port, k)
}

/// Whether link `k` of such a chain holds.
pub open spec fn fed_at<N: RefNode>(
    graphs: Graphs<N>,
    s: Seq<(GraphAddr, usize)>,
    path: Seq<usize>,
    port: usize,
    k: int,
) -> bool {
    if k + 1 < s.len() {
        &&& joined(graphs, s[k], path[k], s[k + 1].1)
        &&& flow::dsp_at(graphs[s[k].0], path[k] as int) is None
        &&& ref_ext::target_at(graphs[s[k].0], path[k] as int) == Some(s[k + 1].0)
    } else {
        &&& joined(graphs, s[k], path[k], port)
        &&& flow::dsp_at(graphs[s[k].0], path[k] as int) is Some
        &&& port < flow::dsp_at(graphs[s[k].0], path[k] as int)->0.dsp_outputs()
    }
}

/// Whether an output of a node is joined to an outlet of its graph.
pub open spec fn joined<N: RefNode>(
    graphs: Graphs<N>,
    at: (GraphAddr, usize),
    node: usize,
    output: usize,
) -> bool {
    &&& graphs.contains_key(at.0)
    &&& at.1 < ports::outlets(graphs[at.0]).len()
    &&& exists|e: int| #[trigger]
        cord(graphs[at.0], e, node, output, ports::outlets(graphs[at.0])[at.1 as int])
}

/// Whether edge `e` joins an output of a node to input 0 of another.
pub open spec fn cord<N>(g: Graph<N, Edge>, e: int, from: usize, output: usize, to: usize) -> bool {
    &&& 0 <= e < g.edges@.len()
    &&& g.edges@[e].source == from
    &&& g.edges@[e].weight.output.0 == output
    &&& g.edges@[e].target == to
    &&& g.edges@[e].weight.input.0 == 0
}

/// Whether such a chain starts at an outlet and stays within some.
spec fn fed_within<N: RefNode>(
    graphs: Graphs<N>,
    a: GraphAddr,
    o: usize,
    left: Set<(GraphAddr, usize)>,
    path: Seq<usize>,
    port: usize,
) -> bool {
    exists|s: Seq<(GraphAddr, usize)>| #[trigger]
        feeds_through(graphs, s, path, port) && s[0] == (a, o) && within(s, left)
}

spec fn within(s: Seq<(GraphAddr, usize)>, left: Set<(GraphAddr, usize)>) -> bool {
    forall|k: int| 0 <= k < s.len() ==> left.contains(#[trigger] s[k])
}

proof fn lemma_beneath_contains(
    node: usize,
    s: Seq<(Seq<usize>, usize)>,
    path: Seq<usize>,
    port: usize,
)
    ensures
        port_info::beneath(node, s).contains((path, port)) <==> path.len() > 0 && path[0] == node
            && s.contains((path.skip(1), port)),
{
    let t = port_info::beneath(node, s);
    if t.contains((path, port)) {
        let j = choose|j: int| 0 <= j < t.len() && t[j] == (path, port);
        assert(path.skip(1) =~= s[j].0);
        assert(s[j] == (path.skip(1), port));
    }
    if path.len() > 0 && path[0] == node && s.contains((path.skip(1), port)) {
        let j = choose|j: int| 0 <= j < s.len() && s[j] == (path.skip(1), port);
        assert(seq![node] + path.skip(1) =~= path);
        assert(t[j] == (path, port));
    }
}

proof fn lemma_outlet_feeds<N: RefNode>(
    graphs: Graphs<N>,
    a: GraphAddr,
    o: usize,
    left: Set<(GraphAddr, usize)>,
    path: Seq<usize>,
    port: usize,
)
    requires
        left.finite(),
    ensures
        port_info::outlet_feeds(graphs, a, o, left).contains((path, port)) <==> fed_within(
            graphs,
            a,
            o,
            left,
            path,
            port,
        ),
    decreases left.len(), 0nat,
{
    if left.contains((a, o)) && graphs.contains_key(a) && o < ports::outlets(graphs[a]).len() {
        let g = graphs[a];
        let node = ports::outlets(g)[o as int];
        let rest = left.remove((a, o));
        lemma_edge_feeds(graphs, g, node, g.edges@.len(), rest, path, port);
        let fs = port_info::edge_feeds(graphs, g, node, g.edges@.len(), rest);
        if fs.contains((path, port)) {
            let e = choose|e: int|
                0 <= e < g.edges@.len() && #[trigger] edge_brings(
                    graphs,
                    g,
                    node,
                    e,
                    rest,
                    path,
                    port,
                );
            if flow::dsp_at(g, path[0] as int) is Some {
                let s = seq![(a, o)];
                assert(cord(g, e, path[0], port, node));
                assert(joined(graphs, s[0], path[0], port));
                assert(fed_at(graphs, s, path, port, 0));
                assert(feeds_through(graphs, s, path, port) && s[0] == (a, o) && within(s, left));
            } else {
                let b = ref_ext::target_at(g, path[0] as int)->0;
                let output = g.edges@[e].weight.output.0 as usize;
                let t = choose|t: Seq<(GraphAddr, usize)>| #[trigger]
                    feeds_through(graphs, t, path.skip(1), port) && t[0] == (b, output) && within(
                        t,
                        rest,
                    );
                let s = seq![(a, o)] + t;
                assert forall|k: int, l: int| 0 <= k < l < s.len() implies #[trigger] s[k]
                    != #[trigger] s[l] by {
                    assert(s[l] == t[l - 1]);
                    assert(rest.contains(t[l - 1]));
                    if k > 0 {
                        assert(s[k] == t[k - 1]);
                    }
                }
                assert(s[0] == (a, o));
                assert(cord(graphs[s[0].0], e, path[0], output, ports::outlets(graphs[s[0].0])[o as int]));
                assert(joined(graphs, s[0], path[0], output));
                assert(s[1] == t[0]);
                assert(fed_at(graphs, s, path, port, 0));
                assert forall|k: int| 0 <= k < s.len() implies #[trigger] fed_at(
                    graphs,
                    s,
                    path,
                    port,
                    k,
                ) by {
                    if k > 0 {
                        assert(fed_at(graphs, t, path.skip(1), port, k - 1));
                        assert(s[k] == t[k - 1]);
                        assert(path.skip(1)[k - 1] == path[k]);
                        if k + 1 < s.len() {
                            assert(s[k + 1] == t[k]);
                        }
                    }
                }
                assert(within(s, left)) by {
                    assert forall|k: int| 0 <= k < s.len() implies left.contains(#[trigger] s[k]) by {
                        if k > 0 {
                            assert(rest.contains(t[k - 1]));
                        }
                    }
                }
                assert(feeds_through(graphs, s, path, port) && s[0] == (a, o));
            }
        }
        if fed_within(graphs, a, o, left, path, port) {
            let s = choose|s: Seq<(GraphAddr, usize)>| #[trigger]
                feeds_through(graphs, s, path, port) && s[0] == (a, o) && within(s, left);
            assert(fed_at(graphs, s, path, port, 0));
            let output = if s.len() > 1 {
                s[1].1
            } else {
                port
            };
            let e = choose|e: int| #[trigger] cord(g, e, path[0], output, node);
            if s.len() > 1 {
                let t = s.skip(1);
                assert(feeds_through(graphs, t, path.skip(1), port)) by {
                    assert forall|k: int, l: int| 0 <= k < l < t.len() implies #[trigger] t[k]
                        != #[trigger] t[l] by {
                        assert(s[k + 1] != s[l + 1]);
                    }
                    assert forall|k: int| 0 <= k < t.len() implies #[trigger] fed_at(
                        graphs,
                        t,
                        path.skip(1),
                        port,
                        k,
                    ) by {
                        assert(fed_at(graphs, s, path, port, k + 1));
                        assert(t[k] == s[k + 1]);
                        assert(path.skip(1)[k] == path[k + 1]);
                        if k + 1 < t.len() {
                            assert(t[k + 1] == s[k + 2]);
                        }
                    }
                }
                assert(within(t, rest)) by {
                    assert forall|k: int| 0 <= k < t.len() implies rest.contains(#[trigger] t[k]) by {
                        assert(t[k] == s[k + 1]);
                        assert(s[0] != s[k + 1]);
                        assert(left.contains(s[k + 1]));
                    }
                }
                assert(t[0] == s[1]);
                assert(fed_within(graphs, s[1].0, s[1].1, rest, path.skip(1), port));
            }
            assert(edge_brings(graphs, g, node, e, rest, path, port));
        }
    } else {
        if fed_within(graphs, a, o, left, path, port) {
            let s = choose|s: Seq<(GraphAddr, usize)>| #[trigger]
                feeds_through(graphs, s, path, port) && s[0] == (a, o) && within(s, left);
            assert(fed_at(graphs, s, path, port, 0));
            assert(left.contains(s[0]));
        }
    }
}

/// Whether edge `e` brings a source to a node.
spec fn edge_brings<N: RefNode>(
    graphs: Graphs<N>,
    g: Graph<N, Edge>,
    node: usize,
    e: int,
    left: Set<(GraphAddr, usize)>,
    path: Seq<usize>,
    port: usize,
) -> bool {
    let output = g.edges@[e].weight.output.0 as usize;
    &&& 0 <= e < g.edges@.len()
    &&& path.len() > 0
    &&& cord(g, e, path[0], output, node)
    &&& if flow::dsp_at(g, path[0] as int) is Some {
        path.len() == 1 && output == port && port < flow::dsp_at(g, path[0] as int)->0.dsp_outputs()
    } else {
        ref_ext::target_at(g, path[0] as int) is Some && fed_within(
            graphs,
            ref_ext::target_at(g, path[0] as int)->0,
            output,
            left,
            path.skip(1),
            port,
        )
    }
}

proof fn lemma_edge_feeds<N: RefNode>(
    graphs: Graphs<N>,
    g: Graph<N, Edge>,
    node: usize,
    n: nat,
    left: Set<(GraphAddr, usize)>,
    path: Seq<usize>,
    port: usize,
)
    requires
        left.finite(),
        n <= g.edges@.len(),
    ensures
        port_info::edge_feeds(graphs, g, node, n, left).contains((path, port)) <==> exists|e: int|
            0 <= e < n && #[trigger] edge_brings(graphs, g, node, e, left, path, port),
    decreases left.len(), n + 1,
{
    let all = port_info::edge_feeds(graphs, g, node, n, left);
    let x = (path, port);
    if n > 0 {
        let older = port_info::edge_feeds(graphs, g, node, (n - 1) as nat, left);
        lemma_edge_feeds(graphs, g, node, (n - 1) as nat, left, path, port);
        let e = g.edges@[n - 1];
        let output = e.weight.output.0 as usize;
        let new: Seq<(Seq<usize>, usize)> = if e.target == node && e.weight.input.0 == 0 {
            if flow::dsp_at(g, e.source as int) is Some {
                if output < ports::n_out(g, e.source as int) {
                    seq![(seq![e.source], output)]
                } else {
                    Seq::empty()
                }
            } else {
                match ref_ext::target_at(g, e.source as int) {
                    Some(b) => port_info::beneath(
                        e.source,
                        port_info::outlet_feeds(graphs, b, output, left),
                    ),
                    None => Seq::empty(),
                }
            }
        } else {
            Seq::empty()
        };
        assert(all =~= new + older);
        assert(all.contains(x) <==> new.contains(x) || older.contains(x)) by {
            if new.contains(x) {
                let j = choose|j: int| 0 <= j < new.len() && new[j] == x;
                assert(all[j] == x);
            }
            if older.contains(x) {
                let j = choose|j: int| 0 <= j < older.len() && older[j] == x;
                assert(all[new.len() + j] == x);
            }
            if all.contains(x) {
                let j = choose|j: int| 0 <= j < all.len() && all[j] == x;
                if j < new.len() {
                    assert(new[j] == x);
                } else {
                    assert(older[j - new.len()] == x);
                }
            }
        }
        assert(new.contains(x) <==> edge_brings(graphs, g, node, n - 1, left, path, port)) by {
            if e.target == node && e.weight.input.0 == 0 {
                if flow::dsp_at(g, e.source as int) is Some {
                    if new.contains(x) {
                        let j = choose|j: int| 0 <= j < new.len() && new[j] == x;
                        assert(path == seq![e.source]);
                    }
                    if edge_brings(graphs, g, node, n - 1, left, path, port) {
                        assert(path =~= seq![e.source]);
                        assert(new[0] == x);
                    }
                } else if ref_ext::target_at(g, e.source as int) is Some {
                    let b = ref_ext::target_at(g, e.source as int)->0;
                    lemma_beneath_contains(
                        e.source,
                        port_info::outlet_feeds(graphs, b, output, left),
                        path,
                        port,
                    );
                    lemma_outlet_feeds(graphs, b, output, left, path.skip(1), port);
                }
            }
        }
        if edge_brings(graphs, g, node, n - 1, left, path, port) {
            assert(0 <= n - 1 < n);
        }
        if exists|k: int| 0 <= k < n && #[trigger] edge_brings(graphs, g, node, k, left, path, port) {
            let k = choose|k: int|
                0 <= k < n && #[trigger] edge_brings(graphs, g, node, k, left, path, port);
            if k < n - 1 {
                assert(0 <= k < n - 1 && edge_brings(graphs, g, node, k, left, path, port));
            }
        }
    }
}

/// The sources behind a reference's output are just the dsp outputs that a chain of
/// outlets leads to.
pub proof fn law_outlet_sources_are_what_feeds_it<N: RefNode>(
    graphs: Graphs<N>,
    a: GraphAddr,
    o: usize,
    path: Seq<usize>,
    port: usize,
)
    requires
        ports::outlet_ports(graphs).finite(),
    ensures
        port_info::outlet_feeds(graphs, a, o, ports::outlet_ports(graphs)).contains((path, port))
            <==> exists|s: Seq<(GraphAddr, usize)>| #[trigger]
            feeds_through(graphs, s, path, port) && s[0] == (a, o),
{
    let left = ports::outlet_ports(graphs);
    lemma_outlet_feeds(graphs, a, o, left, path, port);
    if exists|s: Seq<(GraphAddr, usize)>| #[trigger]
        feeds_through(graphs, s, path, port) && s[0] == (a, o) {
        let s = choose|s: Seq<(GraphAddr, usize)>| #[trigger]
            feeds_through(graphs, s, path, port) && s[0] == (a, o);
        assert forall|k: int| 0 <= k < s.len() implies left.contains(#[trigger] s[k]) by {
            assert(fed_at(graphs, s, path, port, k));
        }
        assert(within(s, left));
    }
}

/// A signal leaves from a reference's output just where a dsp output feeds it.
pub proof fn law_reference_outputs_carry_what_feeds_them<N: RefNode>(
    graphs: Graphs<N>,
    g: Graph<N, Edge>,
    shapes: Shapes,
    i: usize,
    p: usize,
    a: GraphAddr,
)
    requires
        ports::outlet_ports(graphs).finite(),
        flow::dsp_at(g, i as int) is None,
        !ports::inlet_at(g, i as int),
        ref_ext::target_at(g, i as int) == Some(a),
    ensures
        port_info::signal_output(graphs, g, shapes, i, p) is Some <==> exists|
            s: Seq<(GraphAddr, usize)>,
            path: Seq<usize>,
            port: usize,
        | #[trigger]
            feeds_through(graphs, s, path, port) && s[0] == (a, p),
{
    let fs = port_info::outlet_feeds(graphs, a, p, ports::outlet_ports(graphs));
    if fs.len() > 0 {
        let (path, port) = fs[0];
        assert(fs.contains((path, port)));
        law_outlet_sources_are_what_feeds_it(graphs, a, p, path, port);
        let s = choose|s: Seq<(GraphAddr, usize)>| #[trigger]
            feeds_through(graphs, s, path, port) && s[0] == (a, p);
        assert(feeds_through(graphs, s, path, port) && s[0] == (a, p));
    }
    if exists|s: Seq<(GraphAddr, usize)>, path: Seq<usize>, port: usize| #[trigger]
        feeds_through(graphs, s, path, port) && s[0] == (a, p) {
        let (s, path, port) = choose|s: Seq<(GraphAddr, usize)>, path: Seq<usize>, port: usize|
            #[trigger] feeds_through(graphs, s, path, port) && s[0] == (a, p);
        law_outlet_sources_are_what_feeds_it(graphs, a, p, path, port);
        assert(fs.contains((path, port)));
    }
}

/// Whether a source beneath the reference in slot `root` has the recorded shape `x`.
pub open spec fn recorded(
    shapes: Shapes,
    root: usize,
    s: (Seq<usize>, usize),
    x: PortShape,
) -> bool {
    shapes.contains_key((seq![root] + s.0, s.1)) && shapes[(seq![root] + s.0, s.1)] == x
}

/// The shape of a sum of sources: known just where one of theirs is recorded; as wide as
/// the widest that is recorded; at audio rate just where one that is recorded is, and
/// otherwise at the rate of one of them.
pub proof fn law_summed_shape_covers_its_sources(
    shapes: Shapes,
    root: usize,
    sources: Seq<(Seq<usize>, usize)>,
)
    ensures
        ({
            let r = port_info::summed(shapes, root, sources);
            &&& r is Some <==> exists|k: int, x: PortShape|
                0 <= k < sources.len() && #[trigger] recorded(shapes, root, sources[k], x)
            &&& r is Some ==> {
                &&& forall|k: int, x: PortShape|
                    0 <= k < sources.len() && #[trigger] recorded(shapes, root, sources[k], x)
                        ==> x.width <= r->0.width && (x.rate == Rate::Audio ==> r->0.rate
                        == Rate::Audio)
                &&& exists|k: int, x: PortShape|
                    0 <= k < sources.len() && #[trigger] recorded(shapes, root, sources[k], x)
                        && x.width == r->0.width
                &&& exists|k: int, x: PortShape|
                    0 <= k < sources.len() && #[trigger] recorded(shapes, root, sources[k], x)
                        && x.rate == r->0.rate
            }
        }),
    decreases sources.len(),
{
    let r = port_info::summed(shapes, root, sources);
    if sources.len() > 0 {
        let init = sources.drop_last();
        law_summed_shape_covers_its_sources(shapes, root, init);
        let before = port_info::summed(shapes, root, init);
        let n = sources.len() - 1;
        let last = sources[n];
        let key = (seq![root] + last.0, last.1);
        assert forall|k: int, x: PortShape|
            0 <= k < sources.len() && #[trigger] recorded(shapes, root, sources[k], x) implies (k
            == n && x == shapes[key] && shapes.contains_key(key)) || (k < n && recorded(
            shapes,
            root,
            init[k],
            x,
        )) by {
            if k < n {
                assert(init[k] == sources[k]);
            }
        }
        if before is Some {
            let (k, x) = choose|k: int, x: PortShape|
                0 <= k < init.len() && #[trigger] recorded(shapes, root, init[k], x) && x.width
                    == before->0.width;
            let (l, y) = choose|l: int, y: PortShape|
                0 <= l < init.len() && #[trigger] recorded(shapes, root, init[l], y) && y.rate
                    == before->0.rate;
            assert(recorded(shapes, root, sources[k], x));
            assert(recorded(shapes, root, sources[l], y));
        }
        if shapes.contains_key(key) {
            assert(recorded(shapes, root, sources[n], shapes[key]));
        }
    }
}

/// The inlets and outlets of a graph are its inlet and outlet nodes, in the order of their
/// slots.
pub proof fn law_interface_is_listed_in_order<N: RefNode>(g: Graph<N, Edge>)
    requires
        g.nodes@.len() <= usize::MAX,
    ensures
        forall|i: usize| #[trigger]
            ports::inlets(g).contains(i) <==> g.has(i as int) && g.nodes@[i as int]->0.inlet(),
        forall|i: usize| #[trigger]
            ports::outlets(g).contains(i) <==> g.has(i as int) && g.nodes@[i as int]->0.outlet(),
        forall|j: int, k: int|
            0 <= j < k < ports::inlets(g).len() ==> #[trigger] ports::inlets(g)[j]
                < #[trigger] ports::inlets(g)[k],
        forall|j: int, k: int|
            0 <= j < k < ports::outlets(g).len() ==> #[trigger] ports::outlets(g)[j]
                < #[trigger] ports::outlets(g)[k],
{
    let p = |i: int| ports::inlet_at(g, i);
    let q = |i: int| ports::outlet_at(g, i);
    flow::lemma_indices(g.nodes@.len(), p);
    flow::lemma_indices(g.nodes@.len(), q);
    lemma_ascending(g.nodes@.len(), p);
    lemma_ascending(g.nodes@.len(), q);
}

proof fn lemma_ascending(n: nat, p: spec_fn(int) -> bool)
    requires
        n <= usize::MAX,
    ensures
        forall|j: int, k: int|
            0 <= j < k < flow::indices(n, p).len() ==> #[trigger] flow::indices(n, p)[j]
                < #[trigger] flow::indices(n, p)[k],
    decreases n,
{
    if n > 0 {
        lemma_ascending((n - 1) as nat, p);
        flow::lemma_indices((n - 1) as nat, p);
    }
}

/// Whether edge `e` joins node `from` to an input of another.
pub open spec fn leads<N>(g: Graph<N, Edge>, e: int, from: usize, to: usize, input: usize) -> bool {
    &&& 0 <= e < g.edges@.len()
    &&& g.edges@[e].source == from
    &&& g.edges@[e].target == to
    &&& g.edges@[e].weight.input.0 == input
}

/// An inlet that is joined to a dsp input of its own graph carries a signal. One that
/// carries a signal is joined to a dsp input, or to the input of a reference whose inlet
/// carries one.
pub proof fn law_signal_inlets_lead_to_dsp_inputs<N: RefNode>(
    graphs: Graphs<N>,
    a: GraphAddr,
    o: usize,
)
    requires
        graphs.contains_key(a),
        o < ports::inlets(graphs[a]).len(),
    ensures
        ({
            let g = graphs[a];
            let node = ports::inlets(g)[o as int];
            &&& (exists|e: int, t: usize, p: usize| #[trigger]
                leads(g, e, node, t, p) && flow::dsp_at(g, t as int) is Some && p < flow::dsp_at(
                    g,
                    t as int,
                )->0.dsp_inputs()) ==> ports::signal_inlet(graphs, (a, o))
            &&& ports::signal_inlet(graphs, (a, o)) ==> exists|e: int, t: usize, p: usize|
                #[trigger] leads(g, e, node, t, p) && ((flow::dsp_at(g, t as int) is Some && p
                    < flow::dsp_at(g, t as int)->0.dsp_inputs()) || (flow::dsp_at(g, t as int) is None
                    && ref_ext::target_at(g, t as int) is Some && ports::signal_inlet(
                    graphs,
                    (ref_ext::target_at(g, t as int)->0, p),
                )))
        }),
{
    let g = graphs[a];
    let node = ports::inlets(g)[o as int];
    if exists|e: int, t: usize, p: usize| #[trigger]
        leads(g, e, node, t, p) && flow::dsp_at(g, t as int) is Some && p < flow::dsp_at(
            g,
            t as int,
        )->0.dsp_inputs() {
        let (e, t, p) = choose|e: int, t: usize, p: usize| #[trigger]
            leads(g, e, node, t, p) && flow::dsp_at(g, t as int) is Some && p < flow::dsp_at(
                g,
                t as int,
            )->0.dsp_inputs();
        assert(ports::feeds_dsp(g, node, e));
        let s = seq![(a, o)];
        assert(ports::direct(graphs, (a, o)));
        assert(walk::is_path(ports::passes(graphs), s));
        assert(ports::is_chain(graphs, s) && s[0] == (a, o));
    }
    if ports::signal_inlet(graphs, (a, o)) {
        let s = choose|s: Seq<(GraphAddr, usize)>| #[trigger]
            ports::is_chain(graphs, s) && s[0] == (a, o);
        if s.len() == 1 {
            let e = choose|e: int| #[trigger] ports::feeds_dsp(g, node, e);
            let t = g.edges@[e].target;
            let p = g.edges@[e].weight.input.0 as usize;
            assert(leads(g, e, node, t, p));
            assert(flow::dsp_at(g, t as int) is Some);
        } else {
            assert(ports::passes(graphs)(s[0], s[0 + 1int]));
            let e = choose|e: int| #[trigger] ports::feeds_ref(g, node, e, s[1]);
            let t = g.edges@[e].target;
            let p = g.edges@[e].weight.input.0 as usize;
            assert(leads(g, e, node, t, p));
            let u = s.skip(1);
            assert(ports::is_chain(graphs, u)) by {
                assert forall|i: int| 0 <= i < u.len() - 1 implies #[trigger] ports::passes(
                    graphs,
                )(u[i], u[i + 1]) by {
                    assert(ports::passes(graphs)(s[i + 1], s[i + 1 + 1]));
                }
                assert forall|i: int, j: int| 0 <= i < j < u.len() implies (#[trigger] u[i]).0 != (
                #[trigger] u[j]).0 by {
                    assert(s[i + 1].0 != s[j + 1].0);
                }
            }
            assert(u[0] == s[1]);
            assert(ports::signal_inlet(graphs, s[1]));
        }
    }
}

/// A signal arrives at a reference's input just where the inlet that it stands for carries
/// one. An inlet of the viewed graph carries a signal, of a shape that is not known, just
/// where it is joined to an input at which one arrives; an outlet gets one just where an
/// output that a signal leaves from is joined to it. All other nodes carry none.
pub proof fn law_cords_follow_their_ends<N: RefNode>(
    graphs: Graphs<N>,
    g: Graph<N, Edge>,
    shapes: Shapes,
    i: usize,
    p: usize,
)
    requires
        flow::dsp_at(g, i as int) is None,
    ensures
        ref_ext::target_at(g, i as int) is Some && !ports::outlet_at(g, i as int) ==> (
        port_info::signal_input(graphs, g, shapes, i, p) <==> ports::signal_inlet(
            graphs,
            (ref_ext::target_at(g, i as int)->0, p),
        )),
        ref_ext::target_at(g, i as int) is None && !ports::outlet_at(g, i as int)
            ==> !port_info::signal_input(graphs, g, shapes, i, p),
        ref_ext::target_at(g, i as int) is None && !ports::inlet_at(g, i as int)
            ==> port_info::signal_output(graphs, g, shapes, i, p) is None,
        ref_ext::target_at(g, i as int) is None && ports::inlet_at(g, i as int) ==> (
        port_info::signal_output(graphs, g, shapes, i, p) == (if p == 0 && exists|
            e: int,
            t: usize,
            q: usize,
        | #[trigger] leads(g, e, i, t, q) && port_info::own_input(graphs, g, t, q) {
            Some(None::<PortShape>)
        } else {
            None
        })),
        ref_ext::target_at(g, i as int) is None && ports::outlet_at(g, i as int) ==> (
        port_info::signal_input(graphs, g, shapes, i, p) <==> p == 0 && exists|
            e: int,
            f: usize,
            q: usize,
        | #[trigger]
            comes(g, e, f, q, i) && port_info::signal_output(graphs, g, shapes, f, q) is Some),
{
    if exists|k: int| #[trigger] port_info::leads_to_signal(graphs, g, i, k) {
        let k = choose|k: int| #[trigger] port_info::leads_to_signal(graphs, g, i, k);
        assert(leads(g, k, i, g.edges@[k].target, g.edges@[k].weight.input.0 as usize));
    }
    if exists|e: int, t: usize, q: usize| #[trigger]
        leads(g, e, i, t, q) && port_info::own_input(graphs, g, t, q) {
        let (e, t, q) = choose|e: int, t: usize, q: usize| #[trigger]
            leads(g, e, i, t, q) && port_info::own_input(graphs, g, t, q);
        assert(port_info::leads_to_signal(graphs, g, i, e));
    }
    if exists|k: int| #[trigger] port_info::brings_signal(graphs, g, shapes, i, k) {
        let k = choose|k: int| #[trigger] port_info::brings_signal(graphs, g, shapes, i, k);
        assert(comes(g, k, g.edges@[k].source, g.edges@[k].weight.output.0 as usize, i));
    }
    if exists|e: int, f: usize, q: usize| #[trigger]
        comes(g, e, f, q, i) && port_info::signal_output(graphs, g, shapes, f, q) is Some {
        let (e, f, q) = choose|e: int, f: usize, q: usize| #[trigger]
            comes(g, e, f, q, i) && port_info::signal_output(graphs, g, shapes, f, q) is Some;
        assert(port_info::brings_signal(graphs, g, shapes, i, e));
    }
}

/// Whether edge `e` joins an output of node `from` to node `to`.
pub open spec fn comes<N>(g: Graph<N, Edge>, e: int, from: usize, output: usize, to: usize) -> bool {
    &&& 0 <= e < g.edges@.len()
    &&& g.edges@[e].source == from
    &&& g.edges@[e].weight.output.0 == output
    &&& g.edges@[e].target == to
}

} // verus!
