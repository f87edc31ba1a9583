//! What references to graphs with DSP nodes carry, and which graphs those are.

use crate::edge::Edge;
use crate::flow;
use crate::graph::{Graph, GraphAddr};
use crate::node::{RefNode, ToNodeDsp};
use crate::registry::{Payload, Registry};
use crate::set::KeySet;
use crate::table::{self, Table};
use crate::walk;
use vstd::prelude::*;

verus! {

/// The key under which a reference stores its [`DspRefExt`].
pub const DSP_REF_EXT_KEY: &'static str = "plyphon.dsp-ref";

/// The DSP options of a reference.
#[derive(Clone, Copy, Debug, PartialEq, Eq, Hash, Structural)]
pub struct DspRefExt {
    /// Whether the referenced graph's DSP nodes go into the parent's definition, rather
    /// than into definitions of their own that all references share.
    pub inline: bool,
}

impl Default for DspRefExt {
    fn default() -> (r: Self)
        ensures
            r == (DspRefExt { inline: false }),
    {
        DspRefExt { inline: false }
    }
}

/// The graph that the node in slot `i` refers to.
pub open spec fn target_at<N: RefNode>(g: Graph<N, Edge>, i: int) -> Option<GraphAddr> {
    if g.has(i) {
        g.nodes@[i]->0.target()
    } else {
        None
    }
}

/// Whether a graph has a DSP node.
pub open spec fn has_dsp<N: RefNode>(g: Graph<N, Edge>) -> bool {
    exists|i: int| 0 <= i < g.nodes@.len() && #[trigger] flow::dsp_at(g, i) is Some
}

/// Whether a graph has a reference to `a`.
pub open spec fn has_ref<N: RefNode>(g: Graph<N, Edge>, a: GraphAddr) -> bool {
    exists|i: int| 0 <= i < g.nodes@.len() && #[trigger] target_at(g, i) == Some(a)
}

/// Graphs refer to graphs.
pub open spec fn refs<N: RefNode>(graphs: Map<GraphAddr, Graph<N, Edge>>) -> spec_fn(
    GraphAddr,
    GraphAddr,
) -> bool {
    |a: GraphAddr, b: GraphAddr|
        graphs.contains_key(a) && graphs.contains_key(b) && has_ref(graphs[a], b)
}

/// Whether the graph at `a` has a DSP node, directly or through references.
pub open spec fn reaches_dsp<N: RefNode>(graphs: Map<GraphAddr, Graph<N, Edge>>, a: GraphAddr) -> bool {
    exists|b: GraphAddr|
        graphs.contains_key(a) && graphs.contains_key(b) && has_dsp(graphs[b])
            && #[trigger] walk::reaches(refs(graphs), a, b)
}

/// The graph that the node in slot `i` refers to.
pub fn ref_at<N: RefNode>(g: &Graph<N, Edge>, i: usize) -> (r: Option<GraphAddr>)
    ensures
        r == target_at(*g, i as int),
{
    if i < g.nodes.len() {
        match &g.nodes[i] {
            Some(n) => n.as_ref_node(),
            None => None,
        }
    } else {
        None
    }
}

/// Whether a graph has a DSP node itself.
fn is_direct<N: RefNode>(g: &Graph<N, Edge>) -> (r: bool)
    ensures
        r == has_dsp(*g),
{
    let mut i: usize = 0;
    while i < g.nodes.len()
        invariant
            i <= g.nodes@.len(),
            forall|j: int| 0 <= j < i ==> #[trigger] flow::dsp_at(*g, j) is None,
        decreases g.nodes@.len() - i,
    {
        if flow::is_dsp(g, i) {
            assert(flow::dsp_at(*g, i as int) is Some);
            return true;
        }
        i = i + 1;
    }
    false
}

/// Whether a graph has a reference to one of those marked.
fn refers_to_marked<N: RefNode>(g: &Graph<N, Edge>, marked: &KeySet<GraphAddr>) -> (r: bool)
    ensures
        r == (exists|a: GraphAddr| #[trigger] marked@.contains(a) && has_ref(*g, a)),
{
    let mut i: usize = 0;
    while i < g.nodes.len()
        invariant
            i <= g.nodes@.len(),
            forall|j: int|
                0 <= j < i && #[trigger] target_at(*g, j) is Some ==> !marked@.contains(
                    target_at(*g, j)->0,
                ),
        decreases g.nodes@.len() - i,
    {
        if let Some(a) = ref_at(g, i) {
            if marked.contains(&a) {
                assert(target_at(*g, i as int) == Some(a));
                assert(has_ref(*g, a));
                return true;
            }
        }
        i = i + 1;
    }
    proof {
        assert forall|a: GraphAddr| #[trigger] marked@.contains(a) implies !has_ref(*g, a) by {
            if has_ref(*g, a) {
                let j = choose|j: int|
                    0 <= j < g.nodes@.len() && #[trigger] target_at(*g, j) == Some(a);
                assert(target_at(*g, j) is Some);
            }
        }
    }
    false
}

/// The addresses of the cached graphs that have a DSP node, directly or through
/// references.
fn reaching<N: RefNode>(graphs: &Table<GraphAddr, Graph<N, Edge>>) -> (r: KeySet<GraphAddr>)
    ensures
        forall|a: GraphAddr| #[trigger] r@.contains(a) <==> reaches_dsp(graphs@, a),
{
    let list = graphs.entries();
    let ghost m = graphs@;
    let ghost step = refs(m);
    let n: usize = graphs.len();
    let mut marked: KeySet<GraphAddr> = KeySet::new();
    let mut changed = true;
    while changed
        invariant
            table::lists(list@, m),
            step == refs(m),
            m.dom().finite(),
            n == m.dom().len(),
            marked@.subset_of(m.dom()),
            forall|a: GraphAddr| #[trigger] marked@.contains(a) ==> reaches_dsp(m, a),
            !changed ==> forall|a: GraphAddr| #[trigger]
                m.contains_key(a) && !marked@.contains(a) ==> !has_dsp(m[a]) && forall|b: GraphAddr|
                 #[trigger] marked@.contains(b) ==> !has_ref(m[a], b),
        decreases n - marked@.len(), changed as int,
    {
        let ghost before = marked@;
        proof {
            vstd::set_lib::lemma_len_subset(before, m.dom());
        }
        changed = false;
        let mut i: usize = 0;
        while i < list.len()
            invariant
                table::lists(list@, m),
                step == refs(m),
                m.dom().finite(),
                i <= list@.len(),
                before.subset_of(marked@),
                marked@.subset_of(m.dom()),
                !changed ==> marked@ == before,
                changed ==> marked@.len() > before.len(),
                marked@.finite(),
                forall|a: GraphAddr| #[trigger] marked@.contains(a) ==> reaches_dsp(m, a),
                !changed ==> forall|j: int|
                    0 <= j < i && !marked@.contains((#[trigger] list@[j]).0) ==> !has_dsp(
                        list@[j].1,
                    ) && forall|b: GraphAddr| #[trigger]
                        marked@.contains(b) ==> !has_ref(list@[j].1, b),
            decreases list@.len() - i,
        {
            let a = list[i].0;
            let g = &list[i].1;
            proof {
                table::lemma_entry(list@, i as int);
                assert(m.contains_key(a) && m[a] == *g);
            }
            if !marked.contains(&a) {
                let direct = is_direct(g);
                let through = refers_to_marked(g, &marked);
                if direct || through {
                    proof {
                        if direct {
                            walk::lemma_reaches_self(step, a);
                            assert(reaches_dsp(m, a));
                        } else {
                            let b = choose|b: GraphAddr| #[trigger]
                                marked@.contains(b) && has_ref(*g, b);
                            assert(reaches_dsp(m, b));
                            let c = choose|c: GraphAddr|
                                m.contains_key(b) && m.contains_key(c) && has_dsp(m[c])
                                    && #[trigger] walk::reaches(step, b, c);
                            walk::lemma_reaches_self(step, a);
                            assert(step(a, b));
                            walk::lemma_reaches_step(step, a, a, b);
                            walk::lemma_reaches_trans(step, a, b, c);
                            assert(reaches_dsp(m, a));
                        }
                    }
                    let _ = marked.insert(a);
                    changed = true;
                }
            }
            i = i + 1;
        }
        proof {
            vstd::set_lib::lemma_len_subset(marked@, m.dom());
            if !changed {
                assert forall|a: GraphAddr| #[trigger]
                    m.contains_key(a) && !marked@.contains(a) implies !has_dsp(m[a]) && forall|
                    b: GraphAddr,
                | #[trigger] marked@.contains(b) ==> !has_ref(m[a], b) by {
                    let j = choose|j: int| 0 <= j < list@.len() && #[trigger] list@[j].0@ == a;
                    table::lemma_entry(list@, j);
                    assert(list@[j].1 == m[a]);
                    assert(!marked@.contains(list@[j].0));
                }
            }
        }
    }
    proof {
        assert forall|a: GraphAddr| #[trigger] marked@.contains(a) <==> reaches_dsp(m, a) by {
            if reaches_dsp(m, a) && !marked@.contains(a) {
                let c = choose|c: GraphAddr|
                    m.contains_key(a) && m.contains_key(c) && has_dsp(m[c])
                        && #[trigger] walk::reaches(step, a, c);
                let s = |x: GraphAddr| m.contains_key(x) && !marked@.contains(x);
                assert forall|x: GraphAddr, y: GraphAddr| s(x) && #[trigger] step(x, y) implies s(
                    y,
                ) by {
                    if marked@.contains(y) {
                        assert(m.contains_key(x) && !marked@.contains(x));
                        assert(!has_ref(m[x], y));
                    }
                }
                walk::lemma_closed(step, s, a, c);
                assert(m.contains_key(c) && !marked@.contains(c));
            }
        }
    }
    marked
}

/// The addresses of the registry's graphs that have a DSP node, directly or through
/// references, as the cache of graphs has them. A graph that the cache lacks has none,
/// and references to it count for nothing.
pub fn dsp_graphs<G: Payload, N: RefNode>(
    reg: &Registry<G>,
    reified: &Table<GraphAddr, Graph<N, Edge>>,
) -> (r: KeySet<GraphAddr>)
    ensures
        forall|a: GraphAddr| #[trigger]
            r@.contains(a) <==> reg@.graphs.contains_key(a) && reaches_dsp(reified@, a),
{
    let marked = reaching(reified);
    let list = reified.entries();
    let mut r: KeySet<GraphAddr> = KeySet::new();
    let mut i: usize = 0;
    while i < list.len()
        invariant
            table::lists(list@, reified@),
            forall|a: GraphAddr| #[trigger] marked@.contains(a) <==> reaches_dsp(reified@, a),
            i <= list@.len(),
            forall|a: GraphAddr| #[trigger]
                r@.contains(a) <==> reg@.graphs.contains_key(a) && marked@.contains(a) && exists|
                    j: int,
                | 0 <= j < i && (#[trigger] list@[j]).0 == a,
        decreases list@.len() - i,
    {
        let a = list[i].0;
        let ghost before = r@;
        if marked.contains(&a) && reg.graph(&a).is_some() {
            let _ = r.insert(a);
        }
        proof {
            assert forall|b: GraphAddr| #[trigger]
                r@.contains(b) <==> reg@.graphs.contains_key(b) && marked@.contains(b) && exists|
                    j: int,
                | 0 <= j < i + 1 && (#[trigger] list@[j]).0 == b by {
                assert(list@[i as int].0 == a);
                if before.contains(b) {
                    let j = choose|j: int| 0 <= j < i && (#[trigger] list@[j]).0 == b;
                    assert(list@[j].0 == b);
                }
            }
        }
        i = i + 1;
    }
    proof {
        assert forall|a: GraphAddr| reaches_dsp(reified@, a) implies exists|j: int|
            0 <= j < list@.len() && (#[trigger] list@[j]).0 == a by {
            let j = choose|j: int| 0 <= j < list@.len() && #[trigger] list@[j].0@ == a;
            assert(list@[j].0 == a);
        }
    }
    r
}

} // verus!
