//! Graphs as the registry stores them: nodes as data, with what they refer to.

use crate::addr::ContentAddr;
use crate::edge::Edge;
use crate::graph::{self, EdgeRef, Graph, GraphAddr, RankedEdge};
use crate::hash::{self, CaHash, Hasher};
use crate::name::{self, Name};
use crate::order::Key;
use crate::reach::{OutRefs, OutView};
use crate::registry::{self, Payload};
use vstd::prelude::*;
use vstd::string::*;
use vstd::utf8::*;

verus! {

/// A reference to a graph, by a name and by the address that the name had.
#[derive(Debug)]
pub struct NamedRef {
    pub name: Name,
    pub graph: GraphAddr,
    /// Whether the reference follows its name.
    pub sync: bool,
}

/// What a [`NamedRef`] denotes.
#[verifier::ext_equal]
pub struct NamedView {
    pub name: Seq<Seq<char>>,
    pub graph: GraphAddr,
    pub sync: bool,
}

impl View for NamedRef {
    type V = NamedView;

    open spec fn view(&self) -> NamedView {
        NamedView { name: self.name@, graph: self.graph, sync: self.sync }
    }
}

impl NamedRef {
    /// A reference that follows its name.
    pub fn new(name: Name, graph: GraphAddr) -> (r: Self)
        ensures
            r@ == (NamedView { name: name@, graph, sync: true }),
    {
        NamedRef { name, graph, sync: true }
    }

    /// The same reference.
    pub fn dup(&self) -> (r: Self)
        ensures
            r@ == self@,
    {
        NamedRef { name: self.name.dup(), graph: self.graph, sync: self.sync }
    }

    /// The same reference, by another name and address.
    pub fn renamed(&self, name: &Name, graph: GraphAddr) -> (r: Self)
        ensures
            r@ == (NamedView { name: name@, graph, ..self@ }),
    {
        NamedRef { name: name.dup(), graph, sync: self.sync }
    }
}

/// Access to the [`NamedRef`] that a node may be.
pub trait AsNamedRef {
    /// The reference, if the node is one.
    spec fn named_ref(&self) -> Option<NamedView>;

    fn as_named_ref(&self) -> (r: Option<&NamedRef>)
        ensures
            match r {
                Some(n) => self.named_ref() == Some(n@),
                None => self.named_ref() is None,
            },
    ;
}

/// Access to the [`NamedRef`] that a node may be, for changing it.
pub trait AsNamedRefMut: AsNamedRef {
    /// Puts another reference in the node's place.
    fn set_named_ref(&mut self, r: NamedRef)
        ensures
            final(self).named_ref() == Some(r@),
    ;
}

/// A node as data.
#[derive(Debug)]
pub struct NodeData {
    /// The kind of node.
    pub tag: String,
    /// The node's fields, serialized.
    pub data: Vec<u8>,
    /// The named reference that the node is, if it is one.
    pub named: Option<NamedRef>,
    /// The graphs that the node refers to besides.
    pub refs: Vec<GraphAddr>,
    /// The blobs that the node refers to, each with its store.
    pub blobs: Vec<(String, ContentAddr)>,
}

/// What a [`NodeData`] denotes.
#[verifier::ext_equal]
pub struct NodeView {
    pub tag: Seq<char>,
    pub data: Seq<u8>,
    pub named: Option<NamedView>,
    pub refs: Seq<GraphAddr>,
    pub blobs: Seq<(Seq<char>, ContentAddr)>,
}

/// What a list of blob references denotes.
pub open spec fn blob_refs(s: Seq<(String, ContentAddr)>) -> Seq<(Seq<char>, ContentAddr)> {
    s.map_values(|b: (String, ContentAddr)| (b.0@, b.1))
}

impl View for NodeData {
    type V = NodeView;

    open spec fn view(&self) -> NodeView {
        NodeView {
            tag: self.tag@,
            data: self.data@,
            named: match self.named {
                Some(n) => Some(n@),
                None => None,
            },
            refs: self.refs@,
            blobs: blob_refs(self.blobs@),
        }
    }
}

impl AsNamedRef for NodeData {
    open spec fn named_ref(&self) -> Option<NamedView> {
        self@.named
    }

    fn as_named_ref(&self) -> (r: Option<&NamedRef>) {
        match &self.named {
            Some(n) => {
                assert(self.named_ref() == self@.named);
                assert(self@.named == Some(n@));
                Some(n)
            },
            None => {
                assert(self.named_ref() == self@.named);
                assert(self@.named is None);
                None
            },
        }
    }
}

impl AsNamedRefMut for NodeData {
    fn set_named_ref(&mut self, r: NamedRef)
        ensures
            final(self)@ == (NodeView { named: Some(r@), ..old(self)@ }),
    {
        self.named = Some(r);
    }
}

/// A copy of a list of graph addresses.
pub fn dup_addrs(v: &Vec<GraphAddr>) -> (r: Vec<GraphAddr>)
    ensures
        r@ == v@,
{
    let mut r: Vec<GraphAddr> = Vec::new();
    let mut i: usize = 0;
    while i < v.len()
        invariant
            i <= v@.len(),
            r@ =~= v@.take(i as int),
        decreases v@.len() - i,
    {
        r.push(v[i]);
        i = i + 1;
    }
    assert(v@.take(i as int) =~= v@);
    r
}

/// A copy of a list of blob references.
pub fn dup_blobs(v: &Vec<(String, ContentAddr)>) -> (r: Vec<(String, ContentAddr)>)
    ensures
        blob_refs(r@) == blob_refs(v@),
{
    let mut r: Vec<(String, ContentAddr)> = Vec::new();
    let mut i: usize = 0;
    while i < v.len()
        invariant
            i <= v@.len(),
            r@.len() == i,
            forall|j: int|
                0 <= j < i ==> (#[trigger] r@[j]).0@ == v@[j].0@ && r@[j].1 == v@[j].1,
        decreases v@.len() - i,
    {
        r.push((v[i].0.clone(), v[i].1));
        i = i + 1;
    }
    assert(blob_refs(r@) =~= blob_refs(v@));
    r
}

impl NodeData {
    /// The same node.
    pub fn dup(&self) -> (r: Self)
        ensures
            r@ == self@,
    {
        let named = match &self.named {
            Some(n) => Some(n.dup()),
            None => None,
        };
        NodeData {
            tag: self.tag.clone(),
            data: registry::dup_bytes(&self.data),
            named,
            refs: dup_addrs(&self.refs),
            blobs: dup_blobs(&self.blobs),
        }
    }
}

/// Some bytes behind their length.
pub open spec fn framed(s: Seq<u8>) -> Seq<u8> {
    hash::be(s.len(), 8) + s
}

/// The bytes of the addresses, one after the other.
pub open spec fn addr_bytes(s: Seq<GraphAddr>) -> Seq<u8>
    decreases s.len(),
{
    if s.len() == 0 {
        Seq::empty()
    } else {
        addr_bytes(s.drop_last()) + s.last().0.bytes()
    }
}

/// The bytes of the blob references, one after the other.
pub open spec fn blob_bytes(s: Seq<(Seq<char>, ContentAddr)>) -> Seq<u8>
    decreases s.len(),
{
    if s.len() == 0 {
        Seq::empty()
    } else {
        blob_bytes(s.drop_last()) + framed(encode_utf8(s.last().0)) + s.last().1.bytes()
    }
}

/// The bytes of a named reference.
pub open spec fn named_bytes(n: Option<NamedView>) -> Seq<u8> {
    match n {
        None => seq![0u8],
        Some(n) => seq![
            if n.sync {
                2u8
            } else {
                1u8
            },
        ] + framed(encode_utf8(name::spelled(n.name))) + n.graph.0.bytes(),
    }
}

/// The bytes a node is addressed by.
pub open spec fn node_view_bytes(n: NodeView) -> Seq<u8> {
    framed(encode_utf8(n.tag)) + framed(n.data) + named_bytes(n.named) + hash::be(n.refs.len(), 8)
        + addr_bytes(n.refs) + hash::be(n.blobs.len(), 8) + blob_bytes(n.blobs)
}

fn feed(hasher: &mut Hasher, s: &[u8])
    ensures
        final(hasher)@ == old(hasher)@ + framed(s@),
{
    hasher.update_be(s.len() as u64, 8);
    hasher.update(s);
    assert(hasher@ =~= old(hasher)@ + framed(s@));
}

fn feed_addrs(hasher: &mut Hasher, v: &Vec<GraphAddr>)
    ensures
        final(hasher)@ == old(hasher)@ + addr_bytes(v@),
{
    let mut i: usize = 0;
    assert(hasher@ =~= old(hasher)@ + addr_bytes(v@.take(0)));
    while i < v.len()
        invariant
            i <= v@.len(),
            hasher@ == old(hasher)@ + addr_bytes(v@.take(i as int)),
        decreases v@.len() - i,
    {
        hasher.update(&v[i].0.0);
        proof {
            assert(v@.take(i + 1).drop_last() =~= v@.take(i as int));
            assert(hasher@ =~= old(hasher)@ + addr_bytes(v@.take(i + 1)));
        }
        i = i + 1;
    }
    assert(v@.take(i as int) =~= v@);
}

fn feed_blobs(hasher: &mut Hasher, v: &Vec<(String, ContentAddr)>)
    ensures
        final(hasher)@ == old(hasher)@ + blob_bytes(blob_refs(v@)),
{
    let ghost b = blob_refs(v@);
    let mut i: usize = 0;
    assert(hasher@ =~= old(hasher)@ + blob_bytes(b.take(0)));
    while i < v.len()
        invariant
            b == blob_refs(v@),
            i <= v@.len(),
            hasher@ == old(hasher)@ + blob_bytes(b.take(i as int)),
        decreases v@.len() - i,
    {
        feed(hasher, v[i].0.as_str().as_bytes());
        hasher.update(&v[i].1.0);
        proof {
            assert(b.take(i + 1).drop_last() =~= b.take(i as int));
            assert(b.take(i + 1).last() == b[i as int]);
            assert(hasher@ =~= old(hasher)@ + blob_bytes(b.take(i + 1)));
        }
        i = i + 1;
    }
    assert(b.take(i as int) =~= b);
}

fn feed_named(hasher: &mut Hasher, n: &Option<NamedRef>)
    ensures
        final(hasher)@ == old(hasher)@ + named_bytes(
            match *n {
                Some(r) => Some(r@),
                None => None,
            },
        ),
{
    match n {
        None => {
            let tag: [u8; 1] = [0];
            hasher.update(&tag);
            assert(hasher@ =~= old(hasher)@ + seq![0u8]);
        },
        Some(r) => {
            let tag: [u8; 1] = [
                if r.sync {
                    2
                } else {
                    1
                },
            ];
            hasher.update(&tag);
            let name = r.name.to_text();
            feed(hasher, name.as_str().as_bytes());
            hasher.update(&r.graph.0.0);
            assert(hasher@ =~= old(hasher)@ + named_bytes(Some(r@)));
        },
    }
}

impl CaHash for NodeData {
    open spec fn ca_bytes(&self) -> Seq<u8> {
        node_view_bytes(self@)
    }

    fn hash(&self, hasher: &mut Hasher) {
        feed(hasher, self.tag.as_str().as_bytes());
        feed(hasher, self.data.as_slice());
        feed_named(hasher, &self.named);
        hasher.update_be(self.refs.len() as u64, 8);
        feed_addrs(hasher, &self.refs);
        hasher.update_be(self.blobs.len() as u64, 8);
        feed_blobs(hasher, &self.blobs);
        assert(hasher@ =~= old(hasher)@ + node_view_bytes(self@));
    }
}

/// What a graph denotes, over what its nodes denote.
#[verifier::ext_equal]
pub struct GraphView<T> {
    pub nodes: Seq<Option<T>>,
    pub edges: Seq<EdgeRef<Edge>>,
}

impl<T> GraphView<T> {
    /// Whether slot `i` holds a node.
    pub open spec fn has(self, i: int) -> bool {
        0 <= i < self.nodes.len() && self.nodes[i] is Some
    }

    /// Whether every edge runs between nodes of the graph.
    pub open spec fn wf(self) -> bool {
        forall|k: int|
            0 <= k < self.edges.len() ==> self.has((#[trigger] self.edges[k]).source as int)
                && self.has(self.edges[k].target as int)
    }
}

/// What the nodes of a graph denote.
pub open spec fn node_views(s: Seq<Option<NodeData>>) -> Seq<Option<NodeView>> {
    s.map_values(
        |n: Option<NodeData>|
            match n {
                Some(d) => Some(d@),
                None => None,
            },
    )
}

/// A graph as the registry stores it.
#[derive(Debug)]
pub struct DataGraph {
    graph: Graph<NodeData, Edge>,
}

impl View for DataGraph {
    type V = GraphView<NodeView>;

    closed spec fn view(&self) -> GraphView<NodeView> {
        GraphView { nodes: node_views(self.graph.nodes@), edges: self.graph.edges@ }
    }
}

impl DataGraph {
    #[verifier::type_invariant]
    spec fn inv(&self) -> bool {
        self.graph.wf()
    }

    /// The graph itself.
    pub closed spec fn held(&self) -> Graph<NodeData, Edge> {
        self.graph
    }

    /// A graph whose edges run between its nodes, as data.
    pub fn new(graph: Graph<NodeData, Edge>) -> (r: Self)
        requires
            graph.wf(),
        ensures
            r@ == (GraphView { nodes: node_views(graph.nodes@), edges: graph.edges@ }),
            r.held() == graph,
    {
        DataGraph { graph }
    }

    /// The graph itself.
    pub fn graph(&self) -> (r: &Graph<NodeData, Edge>)
        ensures
            self@ == (GraphView { nodes: node_views(r.nodes@), edges: r.edges@ }),
            *r == self.held(),
            r.wf(),
    {
        proof {
            use_type_invariant(self);
        }
        &self.graph
    }
}

/// A copy of a list of edges.
pub fn dup_edges(v: &Vec<EdgeRef<Edge>>) -> (r: Vec<EdgeRef<Edge>>)
    ensures
        r@ == v@,
{
    let mut r: Vec<EdgeRef<Edge>> = Vec::new();
    let mut i: usize = 0;
    while i < v.len()
        invariant
            i <= v@.len(),
            r@ =~= v@.take(i as int),
        decreases v@.len() - i,
    {
        r.push(v[i]);
        i = i + 1;
    }
    assert(v@.take(i as int) =~= v@);
    r
}

/// A way to change the named references of a graph.
pub trait RefRewrite {
    /// What a reference becomes, if it changes.
    spec fn becomes(&self, r: NamedView) -> Option<NamedView>;

    fn rewrite(&self, r: &NamedRef) -> (n: Option<NamedRef>)
        ensures
            match n {
                Some(n) => self.becomes(r@) == Some(n@),
                None => self.becomes(r@) is None,
            },
    ;
}

/// What a node becomes.
pub open spec fn rewritten_node(n: NodeView, f: spec_fn(NamedView) -> Option<NamedView>) -> NodeView {
    match n.named {
        Some(r) => match f(r) {
            Some(s) => NodeView { named: Some(s), ..n },
            None => n,
        },
        None => n,
    }
}

/// Whether a node changes.
pub open spec fn node_changes(n: NodeView, f: spec_fn(NamedView) -> Option<NamedView>) -> bool {
    n.named is Some && f(n.named->0) is Some
}

/// A graph with its references rewritten.
pub open spec fn rewritten(
    g: GraphView<NodeView>,
    f: spec_fn(NamedView) -> Option<NamedView>,
) -> GraphView<NodeView> {
    GraphView {
        nodes: g.nodes.map_values(
            |n: Option<NodeView>|
                match n {
                    Some(d) => Some(rewritten_node(d, f)),
                    None => None,
                },
        ),
        ..g
    }
}

/// Whether rewriting changes any reference of a graph.
pub open spec fn changes(g: GraphView<NodeView>, f: spec_fn(NamedView) -> Option<NamedView>) -> bool {
    exists|i: int|
        0 <= i < g.nodes.len() && #[trigger] g.nodes[i] is Some && node_changes(g.nodes[i]->0, f)
}

/// Whether two graphs differ in nothing but the named references of their nodes: the same
/// edges, from the same to the same slots, and the same nodes in the same slots, but for
/// what they refer to by name.
pub open spec fn alike_but_refs(g: GraphView<NodeView>, h: GraphView<NodeView>) -> bool {
    &&& g.edges == h.edges
    &&& g.nodes.len() == h.nodes.len()
    &&& forall|i: int|
        0 <= i < g.nodes.len() ==> (#[trigger] g.nodes[i] is Some) == (h.nodes[i] is Some)
    &&& forall|i: int|
        0 <= i < g.nodes.len() && #[trigger] g.nodes[i] is Some ==> {
            &&& h.nodes[i]->0.tag == g.nodes[i]->0.tag
            &&& h.nodes[i]->0.data == g.nodes[i]->0.data
            &&& h.nodes[i]->0.refs == g.nodes[i]->0.refs
            &&& h.nodes[i]->0.blobs == g.nodes[i]->0.blobs
            &&& (h.nodes[i]->0.named is Some) == (g.nodes[i]->0.named is Some)
        }
}

/// Rewriting touches references alone: a rewritten graph has the edges that it had, and
/// the nodes, each with the reference that its own becomes, and with its own where that
/// stays. It is another graph just where a reference becomes another.
pub proof fn law_rewriting_touches_references_alone(
    g: GraphView<NodeView>,
    f: spec_fn(NamedView) -> Option<NamedView>,
)
    ensures
        alike_but_refs(g, rewritten(g, f)),
        forall|i: int|
            0 <= i < g.nodes.len() && (#[trigger] g.nodes[i]) is Some && g.nodes[i]->0.named is Some
                ==> rewritten(g, f).nodes[i]->0.named->0 == (match f(g.nodes[i]->0.named->0) {
                Some(r) => r,
                None => g.nodes[i]->0.named->0,
            }),
        changes(g, f) <==> exists|i: int|
            0 <= i < g.nodes.len() && (#[trigger] g.nodes[i]) is Some && g.nodes[i]->0.named is Some
                && f(g.nodes[i]->0.named->0) is Some,
        !changes(g, f) ==> rewritten(g, f) == g,
{
    let h = rewritten(g, f);
    if changes(g, f) {
        let i = choose|i: int|
            0 <= i < g.nodes.len() && #[trigger] g.nodes[i] is Some && node_changes(
                g.nodes[i]->0,
                f,
            );
        assert(g.nodes[i]->0.named is Some && f(g.nodes[i]->0.named->0) is Some);
    } else {
        assert forall|i: int| 0 <= i < g.nodes.len() implies h.nodes[i] == g.nodes[i] by {
            if g.nodes[i] is Some {
                assert(!node_changes(g.nodes[i]->0, f));
            }
        }
        assert(h.nodes =~= g.nodes);
        assert(h =~= g);
    }
    if exists|i: int|
        0 <= i < g.nodes.len() && (#[trigger] g.nodes[i]) is Some && g.nodes[i]->0.named is Some
            && f(g.nodes[i]->0.named->0) is Some {
        let i = choose|i: int|
            0 <= i < g.nodes.len() && (#[trigger] g.nodes[i]) is Some && g.nodes[i]->0.named is Some
                && f(g.nodes[i]->0.named->0) is Some;
        assert(node_changes(g.nodes[i]->0, f));
    }
}

/// The rewriting that a rewriter does.
pub open spec fn rule<R: RefRewrite>(r: R) -> spec_fn(NamedView) -> Option<NamedView> {
    |n: NamedView| r.becomes(n)
}

/// A copy of a graph with its references rewritten, and whether any of them changed.
pub fn rewrite_refs<R: RefRewrite>(g: &DataGraph, rewriter: &R) -> (r: (DataGraph, bool))
    ensures
        r.0@ == rewritten(g@, rule(*rewriter)),
        r.1 == changes(g@, rule(*rewriter)),
        alike_but_refs(g@, r.0@),
{
    let inner = g.graph();
    let ghost f = rule(*rewriter);
    let ghost v = g@;
    let mut nodes: Vec<Option<NodeData>> = Vec::new();
    let mut changed = false;
    let mut i: usize = 0;
    while i < inner.nodes.len()
        invariant
            f == rule(*rewriter),
            v == g@,
            v.nodes == node_views(inner.nodes@),
            v.nodes.len() == inner.nodes@.len(),
            i <= inner.nodes@.len(),
            nodes@.len() == i,
            forall|j: int|
                0 <= j < i ==> node_views(nodes@)[j] == rewritten(v, f).nodes[j] && (
                #[trigger] nodes@[j] is Some) == (inner.nodes@[j] is Some),
            changed == (exists|j: int|
                0 <= j < i && #[trigger] v.nodes[j] is Some && node_changes(v.nodes[j]->0, f)),
        decreases inner.nodes@.len() - i,
    {
        let ghost before = nodes@;
        let ghost changed0 = changed;
        assert(v.nodes[i as int] == match inner.nodes@[i as int] {
            Some(d) => Some(d@),
            None => None,
        });
        let next = match &inner.nodes[i] {
            None => None,
            Some(d) => {
                let mut copy = d.dup();
                if let Some(n) = d.as_named_ref() {
                    if let Some(m) = rewriter.rewrite(n) {
                        copy.set_named_ref(m);
                        changed = true;
                        assert(node_changes(v.nodes[i as int]->0, f));
                    }
                }
                assert(copy@ == rewritten_node(d@, f));
                Some(copy)
            },
        };
        nodes.push(next);
        proof {
            assert forall|j: int| 0 <= j < i + 1 implies node_views(nodes@)[j] == rewritten(
                v,
                f,
            ).nodes[j] && (#[trigger] nodes@[j] is Some) == (inner.nodes@[j] is Some) by {
                if j < i {
                    assert(nodes@[j] == before[j]);
                    assert(node_views(before)[j] == rewritten(v, f).nodes[j]);
                }
            }
            if changed0 {
                let j = choose|j: int|
                    0 <= j < i && #[trigger] v.nodes[j] is Some && node_changes(v.nodes[j]->0, f);
                assert(v.nodes[j] is Some && node_changes(v.nodes[j]->0, f));
            }
        }
        i = i + 1;
    }
    let edges = dup_edges(&inner.edges);
    let out = Graph { nodes, edges };
    proof {
        assert(out.wf()) by {
            assert forall|k: int| 0 <= k < out.edges@.len() implies out.has(
                (#[trigger] out.edges@[k]).source as int,
            ) && out.has(out.edges@[k].target as int) by {
                assert(inner.has(inner.edges@[k].source as int));
                assert(inner.has(inner.edges@[k].target as int));
                assert(nodes@[inner.edges@[k].source as int] is Some);
                assert(nodes@[inner.edges@[k].target as int] is Some);
            }
        }
        assert(node_views(out.nodes@) =~= rewritten(v, f).nodes);
    }
    let r = DataGraph::new(out);
    assert(r@ =~= rewritten(v, f));
    (r, changed)
}

struct Same {}

impl RefRewrite for Same {
    closed spec fn becomes(&self, r: NamedView) -> Option<NamedView> {
        None
    }

    fn rewrite(&self, r: &NamedRef) -> (n: Option<NamedRef>) {
        None
    }
}

impl Payload for DataGraph {
    fn dup(&self) -> (r: Self) {
        let (r, _) = rewrite_refs(self, &(Same {  }));
        assert(r@ =~= self@);
        r
    }
}

/// The content address of each node.
pub open spec fn view_addrs(s: Seq<Option<NodeView>>) -> Seq<Option<ContentAddr>> {
    s.map_values(
        |n: Option<NodeView>|
            match n {
                Some(d) => Some(hash::addr_of(node_view_bytes(d))),
                None => None,
            },
    )
}

/// The edges between canonical ranks.
pub open spec fn view_edges<T>(g: GraphView<T>) -> Seq<RankedEdge<Edge>> {
    g.edges.map_values(
        |e: EdgeRef<Edge>|
            RankedEdge {
                source: graph::rank(g.nodes, e.source as int) as u64,
                target: graph::rank(g.nodes, e.target as int) as u64,
                weight: e.weight,
            },
    )
}

/// The address of a graph.
pub open spec fn data_addr(g: GraphView<NodeView>) -> GraphAddr {
    GraphAddr(
        hash::addr_of(graph::graph_bytes(graph::occupied(view_addrs(g.nodes)), view_edges(g))),
    )
}

proof fn lemma_occupied_len<A, B>(a: Seq<Option<A>>, b: Seq<Option<B>>)
    requires
        a.len() == b.len(),
        forall|i: int| 0 <= i < a.len() ==> (#[trigger] a[i] is Some) == (b[i] is Some),
    ensures
        graph::occupied(a).len() == graph::occupied(b).len(),
    decreases a.len(),
{
    if a.len() > 0 {
        let x = a.drop_last();
        let y = b.drop_last();
        assert forall|i: int| 0 <= i < x.len() implies (#[trigger] x[i] is Some) == (y[i] is Some) by {
            assert(x[i] == a[i] && y[i] == b[i]);
        }
        lemma_occupied_len(x, y);
        assert((a[a.len() - 1] is Some) == (b[b.len() - 1] is Some));
    }
}

/// The address of a graph.
pub fn graph_addr(g: &DataGraph) -> (r: GraphAddr)
    ensures
        r == data_addr(g@),
{
    let inner = g.graph();
    let r = graph::addr(inner);
    proof {
        let nodes = inner.nodes@;
        let v = g@;
        assert(graph::own_addrs(nodes) =~= view_addrs(v.nodes));
        assert forall|i: int| 0 <= i <= nodes.len() implies graph::rank(nodes, i) == #[trigger] graph::rank(
            v.nodes,
            i,
        ) by {
            lemma_occupied_len(nodes.take(i), v.nodes.take(i));
        }
        assert forall|k: int| 0 <= k < inner.edges@.len() implies graph::ranked_edges(*inner)[k]
            == #[trigger] view_edges(v)[k] by {
            let e = inner.edges@[k];
            assert(inner.has(e.source as int) && inner.has(e.target as int));
            assert(graph::rank(v.nodes, e.source as int) == graph::rank(nodes, e.source as int));
            assert(graph::rank(v.nodes, e.target as int) == graph::rank(nodes, e.target as int));
        }
        assert(graph::ranked_edges(*inner) =~= view_edges(v));
        hash::lemma_addr_of(r.0, graph::canonical_bytes(*inner));
    }
    r
}

/// What a node refers to.
pub open spec fn node_out(n: NodeView) -> OutView {
    OutView {
        graphs: match n.named {
            Some(r) => n.refs.push(r.graph),
            None => n.refs,
        },
        blobs: n.blobs,
    }
}

/// What some nodes of a graph refer to.
pub open spec fn out_of(nodes: Seq<Option<NodeView>>) -> OutView
    decreases nodes.len(),
{
    if nodes.len() == 0 {
        OutView { graphs: Seq::empty(), blobs: Seq::empty() }
    } else {
        let init = out_of(nodes.drop_last());
        match nodes.last() {
            Some(d) => OutView {
                graphs: init.graphs + node_out(d).graphs,
                blobs: init.blobs + node_out(d).blobs,
            },
            None => init,
        }
    }
}

/// What a graph refers to.
pub fn out_refs(g: &DataGraph) -> (r: OutRefs)
    ensures
        r@ == out_of(g@.nodes),
{
    let inner = g.graph();
    let ghost v = g@.nodes;
    let mut graphs: Vec<GraphAddr> = Vec::new();
    let mut blobs: Vec<(String, ContentAddr)> = Vec::new();
    let mut i: usize = 0;
    assert(blob_refs(blobs@) =~= out_of(v.take(0)).blobs);
    assert(graphs@ =~= out_of(v.take(0)).graphs);
    while i < inner.nodes.len()
        invariant
            v == node_views(inner.nodes@),
            v.len() == inner.nodes@.len(),
            i <= inner.nodes@.len(),
            graphs@ == out_of(v.take(i as int)).graphs,
            blob_refs(blobs@) == out_of(v.take(i as int)).blobs,
        decreases inner.nodes@.len() - i,
    {
        proof {
            assert(v.take(i + 1).drop_last() =~= v.take(i as int));
            assert(v.take(i + 1).last() == v[i as int]);
        }
        let ghost g0 = graphs@;
        let ghost b0 = blobs@;
        if let Some(d) = &inner.nodes[i] {
            let mut more = dup_addrs(&d.refs);
            if let Some(r) = &d.named {
                more.push(r.graph);
            }
            assert(more@ == node_out(d@).graphs);
            graphs.append(&mut more);
            let mut other = dup_blobs(&d.blobs);
            let ghost ov = other@;
            blobs.append(&mut other);
            proof {
                assert(blob_refs(blobs@) =~= blob_refs(b0) + blob_refs(ov));
                assert(v[i as int] == Some(d@));
            }
        }
        i = i + 1;
    }
    assert(v.take(i as int) =~= v);
    let r = OutRefs { graphs, blobs };
    assert(r@ =~= out_of(v));
    r
}

/// A graph refers to what its nodes refer to, node by node: the graphs of a node's own list
/// and the one that it names, and its blobs.
pub proof fn law_graph_refers_to_what_its_nodes_do(
    a: Seq<Option<NodeView>>,
    b: Seq<Option<NodeView>>,
    n: NodeView,
)
    ensures
        out_of(a + b).graphs == out_of(a).graphs + out_of(b).graphs,
        out_of(a + b).blobs == out_of(a).blobs + out_of(b).blobs,
        out_of(seq![None::<NodeView>]).graphs.len() == 0,
        out_of(seq![None::<NodeView>]).blobs.len() == 0,
        out_of(seq![Some(n)]).blobs == n.blobs,
        n.named is None ==> out_of(seq![Some(n)]).graphs == n.refs,
        n.named is Some ==> out_of(seq![Some(n)]).graphs == n.refs.push(n.named->0.graph),
    decreases b.len(),
{
    let none = seq![None::<NodeView>];
    let one = seq![Some(n)];
    let empty = Seq::<Option<NodeView>>::empty();
    assert(none.drop_last() =~= empty);
    assert(one.drop_last() =~= empty);
    assert(one.last() == Some(n));
    assert(out_of(empty).graphs + node_out(n).graphs =~= node_out(n).graphs);
    assert(out_of(empty).blobs + node_out(n).blobs =~= n.blobs);
    if b.len() == 0 {
        assert(a + b =~= a);
        assert(out_of(a).graphs + out_of(b).graphs =~= out_of(a).graphs);
        assert(out_of(a).blobs + out_of(b).blobs =~= out_of(a).blobs);
    } else {
        law_graph_refers_to_what_its_nodes_do(a, b.drop_last(), n);
        assert((a + b).drop_last() =~= a + b.drop_last());
        assert((a + b).last() == b.last());
        assert(out_of(a + b).graphs =~= out_of(a).graphs + out_of(b).graphs);
        assert(out_of(a + b).blobs =~= out_of(a).blobs + out_of(b).blobs);
    }
}

} // verus!
