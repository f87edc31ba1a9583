//! Directed graphs with stable node indices, and their content addresses.

use crate::addr::ContentAddr;
use crate::edge::Edge;
use crate::hash::{self, CaHash, Hasher};
use crate::order::{self, Key, Ranker};
use crate::table::Table;
use vstd::prelude::*;

verus! {

/// An edge between two nodes, by their indices.
#[derive(Clone, Copy, Debug)]
pub struct EdgeRef<E> {
    pub source: usize,
    pub target: usize,
    pub weight: E,
}

/// The edges that neither leave nor enter a node.
pub open spec fn away_from<E>(edges: Seq<EdgeRef<E>>, ix: usize) -> Seq<EdgeRef<E>>
    decreases edges.len(),
{
    if edges.len() == 0 {
        Seq::empty()
    } else {
        let init = away_from(edges.drop_last(), ix);
        if edges.last().source != ix && edges.last().target != ix {
            init.push(edges.last())
        } else {
            init
        }
    }
}

proof fn lemma_away_from<E>(edges: Seq<EdgeRef<E>>, ix: usize)
    ensures
        forall|k: int|
            0 <= k < away_from(edges, ix).len() ==> edges.contains(
                #[trigger] away_from(edges, ix)[k],
            ) && away_from(edges, ix)[k].source != ix && away_from(edges, ix)[k].target != ix,
    decreases edges.len(),
{
    if edges.len() > 0 {
        let init = away_from(edges.drop_last(), ix);
        lemma_away_from(edges.drop_last(), ix);
        assert forall|k: int| 0 <= k < away_from(edges, ix).len() implies edges.contains(
            #[trigger] away_from(edges, ix)[k],
        ) && away_from(edges, ix)[k].source != ix && away_from(edges, ix)[k].target != ix by {
            let e = away_from(edges, ix)[k];
            if k < init.len() {
                assert(e == init[k]);
                let j = edges.drop_last().index_of(e);
                assert(edges.drop_last().contains(e));
                assert(edges[j] == e);
            } else {
                assert(edges[edges.len() - 1] == e);
            }
        }
    }
}

/// A directed graph. A node is identified by its slot; the removal of a node
/// leaves its slot vacant, so that the others keep their indices.
#[derive(Clone, Debug)]
pub struct Graph<N, E> {
    pub nodes: Vec<Option<N>>,
    pub edges: Vec<EdgeRef<E>>,
}

impl<N, E> Graph<N, E> {
    /// Whether slot `i` holds a node.
    pub open spec fn has(&self, i: int) -> bool {
        0 <= i < self.nodes@.len() && self.nodes@[i] is Some
    }

    /// Whether every edge runs between nodes of the graph.
    pub open spec fn wf(&self) -> bool {
        forall|k: int|
            0 <= k < self.edges@.len() ==> self.has((#[trigger] self.edges@[k]).source as int)
                && self.has(self.edges@[k].target as int)
    }

    /// A graph without nodes.
    pub fn new() -> (r: Self)
        ensures
            r.nodes@ == Seq::<Option<N>>::empty(),
            r.edges@ == Seq::<EdgeRef<E>>::empty(),
            r.wf(),
    {
        Graph { nodes: Vec::new(), edges: Vec::new() }
    }

    /// Adds a node in a slot of its own, behind all others.
    pub fn add_node(&mut self, node: N) -> (ix: usize)
        requires
            old(self).wf(),
        ensures
            ix == old(self).nodes@.len(),
            final(self).nodes@ == old(self).nodes@.push(Some(node)),
            final(self).edges@ == old(self).edges@,
            final(self).wf(),
    {
        let ix: usize = self.nodes.len();
        self.nodes.push(Some(node));
        proof {
            assert forall|k: int| 0 <= k < self.edges@.len() implies self.has(
                (#[trigger] self.edges@[k]).source as int,
            ) && self.has(self.edges@[k].target as int) by {
                assert(old(self).has(old(self).edges@[k].source as int));
                assert(old(self).has(old(self).edges@[k].target as int));
            }
        }
        ix
    }

    /// Removes a node, and the edges that leave or enter it. Its slot stays vacant.
    pub fn remove_node(&mut self, ix: usize) -> (node: Option<N>) where E: Copy
        requires
            old(self).wf(),
        ensures
            final(self).wf(),
            node == (if old(self).has(ix as int) {
                old(self).nodes@[ix as int]
            } else {
                None
            }),
            old(self).has(ix as int) ==> final(self).nodes@ == old(self).nodes@.update(
                ix as int,
                None,
            ) && final(self).edges@ == away_from(old(self).edges@, ix),
            !old(self).has(ix as int) ==> final(self).nodes@ == old(self).nodes@
                && final(self).edges@ == old(self).edges@,
    {
        if ix >= self.nodes.len() || self.nodes[ix].is_none() {
            return None;
        }
        let ghost all = self.edges@;
        let mut edges: Vec<EdgeRef<E>> = Vec::new();
        let mut i: usize = 0;
        assert(all.take(0) =~= Seq::empty());
        while i < self.edges.len()
            invariant
                all == self.edges@,
                i <= all.len(),
                edges@ == away_from(all.take(i as int), ix),
            decreases all.len() - i,
        {
            let e = self.edges[i];
            assert(all.take(i + 1).drop_last() =~= all.take(i as int));
            assert(all.take(i + 1).last() == e);
            if e.source != ix && e.target != ix {
                edges.push(e);
            }
            i = i + 1;
        }
        assert(all.take(i as int) =~= all);
        let mut node: Option<N> = None;
        std::mem::swap(&mut node, &mut self.nodes[ix]);
        self.edges = edges;
        proof {
            lemma_away_from(all, ix);
            assert forall|k: int| 0 <= k < self.edges@.len() implies self.has(
                (#[trigger] self.edges@[k]).source as int,
            ) && self.has(self.edges@[k].target as int) by {
                let e = self.edges@[k];
                let j = all.index_of(e);
                assert(all.contains(e));
                assert(old(self).has(old(self).edges@[j].source as int));
                assert(old(self).has(old(self).edges@[j].target as int));
            }
        }
        node
    }

    /// Adds an edge.
    pub fn add_edge(&mut self, source: usize, target: usize, weight: E)
        requires
            old(self).wf(),
            old(self).has(source as int),
            old(self).has(target as int),
        ensures
            final(self).nodes@ == old(self).nodes@,
            final(self).edges@ == old(self).edges@.push((EdgeRef { source, target, weight })),
            final(self).wf(),
    {
        self.edges.push(EdgeRef { source, target, weight });
        proof {
            assert forall|k: int| 0 <= k < self.edges@.len() implies self.has(
                (#[trigger] self.edges@[k]).source as int,
            ) && self.has(self.edges@[k].target as int) by {
                if k < old(self).edges@.len() {
                    assert(old(self).has(old(self).edges@[k].source as int));
                    assert(old(self).has(old(self).edges@[k].target as int));
                }
            }
        }
    }
}

/// The address of a graph.
#[derive(Clone, Copy, Debug, PartialEq, Eq, Hash)]
pub struct GraphAddr(pub ContentAddr);

impl From<ContentAddr> for GraphAddr {
    fn from(ca: ContentAddr) -> (r: Self) {
        GraphAddr(ca)
    }
}

impl vstd::std_specs::convert::FromSpecImpl<ContentAddr> for GraphAddr {
    open spec fn obeys_from_spec() -> bool {
        true
    }

    open spec fn from_spec(ca: ContentAddr) -> Self {
        GraphAddr(ca)
    }
}

impl From<GraphAddr> for ContentAddr {
    fn from(addr: GraphAddr) -> (r: Self) {
        addr.0
    }
}

impl vstd::std_specs::convert::FromSpecImpl<GraphAddr> for ContentAddr {
    open spec fn obeys_from_spec() -> bool {
        true
    }

    open spec fn from_spec(addr: GraphAddr) -> Self {
        addr.0
    }
}

impl View for GraphAddr {
    type V = GraphAddr;

    open spec fn view(&self) -> GraphAddr {
        *self
    }
}

impl Key for GraphAddr {
    open spec fn precedes(a: GraphAddr, b: GraphAddr) -> bool {
        ContentAddr::precedes(a.0, b.0)
    }

    proof fn lemma_irreflexive(a: GraphAddr) {
        ContentAddr::lemma_irreflexive(a.0);
    }

    proof fn lemma_transitive(a: GraphAddr, b: GraphAddr, c: GraphAddr) {
        ContentAddr::lemma_transitive(a.0, b.0, c.0);
    }

    proof fn lemma_total(a: GraphAddr, b: GraphAddr) {
        ContentAddr::lemma_total(a.0, b.0);
    }

    fn before(&self, other: &Self) -> (r: bool) {
        self.0.before(&other.0)
    }

    fn same(&self, other: &Self) -> (r: bool) {
        self.0.same(&other.0)
    }

    fn dup(&self) -> (r: Self) {
        *self
    }
}

impl CaHash for GraphAddr {
    open spec fn ca_bytes(&self) -> Seq<u8> {
        self.0.bytes()
    }

    fn hash(&self, hasher: &mut Hasher) {
        self.0.hash(hasher);
    }
}

/// The one capability a graph store needs of a graph payload: its address.
pub trait GraphHash {
    spec fn addr_spec(&self) -> GraphAddr;

    /// The content address of the graph.
    fn graph_addr(&self) -> (r: GraphAddr)
        ensures
            r == self.addr_spec(),
    ;
}

/// A graph payload at rest: serialized bytes, carried under the address that a
/// decoding peer validated them against.
#[derive(Clone, Debug)]
pub struct RawGraph {
    /// The address the bytes were validated against.
    pub addr: GraphAddr,
    /// The serialized graph.
    pub bytes: Vec<u8>,
}

impl RawGraph {
    /// A raw graph from its validated address and serialized bytes.
    pub fn new(addr: GraphAddr, bytes: Vec<u8>) -> (r: Self)
        ensures
            r@ == (RawView { addr, bytes: bytes@ }),
    {
        RawGraph { addr, bytes }
    }
}

/// What a [`RawGraph`] denotes.
#[verifier::ext_equal]
pub struct RawView {
    pub addr: GraphAddr,
    pub bytes: Seq<u8>,
}

impl View for RawGraph {
    type V = RawView;

    open spec fn view(&self) -> RawView {
        RawView { addr: self.addr, bytes: self.bytes@ }
    }
}

impl GraphHash for RawGraph {
    open spec fn addr_spec(&self) -> GraphAddr {
        self.addr
    }

    fn graph_addr(&self) -> (r: GraphAddr) {
        self.addr
    }
}

impl Key for usize {
    open spec fn precedes(a: usize, b: usize) -> bool {
        a < b
    }

    proof fn lemma_irreflexive(a: usize) {
    }

    proof fn lemma_transitive(a: usize, b: usize, c: usize) {
    }

    proof fn lemma_total(a: usize, b: usize) {
    }

    fn before(&self, other: &Self) -> (r: bool) {
        *self < *other
    }

    fn same(&self, other: &Self) -> (r: bool) {
        *self == *other
    }

    fn dup(&self) -> (r: Self) {
        *self
    }
}

impl Key for u32 {
    open spec fn precedes(a: u32, b: u32) -> bool {
        a < b
    }

    proof fn lemma_irreflexive(a: u32) {
    }

    proof fn lemma_transitive(a: u32, b: u32, c: u32) {
    }

    proof fn lemma_total(a: u32, b: u32) {
    }

    fn before(&self, other: &Self) -> (r: bool) {
        *self < *other
    }

    fn same(&self, other: &Self) -> (r: bool) {
        *self == *other
    }

    fn dup(&self) -> (r: Self) {
        *self
    }
}

/// What stands in the occupied slots, in slot order.
pub open spec fn occupied<T>(slots: Seq<Option<T>>) -> Seq<T>
    decreases slots.len(),
{
    if slots.len() == 0 {
        Seq::empty()
    } else {
        match slots.last() {
            Some(x) => occupied(slots.drop_last()).push(x),
            None => occupied(slots.drop_last()),
        }
    }
}

/// The canonical rank of the node in slot `i`: how many nodes stand before it.
pub open spec fn rank<T>(slots: Seq<Option<T>>, i: int) -> nat {
    occupied(slots.take(i)).len()
}

/// An edge between canonical ranks.
#[derive(Debug)]
pub struct RankedEdge<E> {
    pub source: u64,
    pub target: u64,
    pub weight: E,
}

/// The order of edges: by source rank, then target rank, then weight.
pub open spec fn edge_order<E: Key>() -> spec_fn(RankedEdge<E>, RankedEdge<E>) -> bool {
    |a: RankedEdge<E>, b: RankedEdge<E>|
        a.source < b.source || (a.source == b.source && (a.target < b.target || (a.target
            == b.target && E::precedes(a.weight@, b.weight@))))
}

struct EdgeRanker {}

impl<E: Key> Ranker<RankedEdge<E>> for EdgeRanker {
    open spec fn judges(&self, x: RankedEdge<E>) -> bool {
        true
    }

    open spec fn lt(&self) -> spec_fn(RankedEdge<E>, RankedEdge<E>) -> bool {
        edge_order()
    }

    fn less(&self, a: &RankedEdge<E>, b: &RankedEdge<E>) -> (r: bool) {
        a.source < b.source || (a.source == b.source && (a.target < b.target || (a.target
            == b.target && a.weight.before(&b.weight))))
    }
}

/// The graph's edges between canonical ranks, in the order they were added.
pub open spec fn ranked_edges<N, E>(g: Graph<N, E>) -> Seq<RankedEdge<E>> {
    g.edges@.map_values(
        |e: EdgeRef<E>|
            RankedEdge {
                source: rank(g.nodes@, e.source as int) as u64,
                target: rank(g.nodes@, e.target as int) as u64,
                weight: e.weight,
            },
    )
}

/// The bytes of the nodes: each node's rank and content address, in rank order.
pub open spec fn node_bytes(addrs: Seq<ContentAddr>) -> Seq<u8>
    decreases addrs.len(),
{
    if addrs.len() == 0 {
        Seq::empty()
    } else {
        node_bytes(addrs.drop_last()) + hash::be((addrs.len() - 1) as nat, 8)
            + addrs.last().bytes()
    }
}

/// The bytes of the edges: each edge's source rank, target rank and weight.
pub open spec fn edge_bytes<E: CaHash>(edges: Seq<RankedEdge<E>>) -> Seq<u8>
    decreases edges.len(),
{
    if edges.len() == 0 {
        Seq::empty()
    } else {
        edge_bytes(edges.drop_last()) + hash::be(edges.last().source as nat, 8) + hash::be(
            edges.last().target as nat,
            8,
        ) + edges.last().weight.ca_bytes()
    }
}

/// The bytes a graph is addressed by, given its nodes' addresses in rank order
/// and its edges between ranks: a domain prefix, the nodes, the sorted edges.
pub open spec fn graph_bytes<E: CaHash + Key>(
    addrs: Seq<ContentAddr>,
    edges: Seq<RankedEdge<E>>,
) -> Seq<u8> {
    graph_tag() + node_bytes(addrs) + edge_bytes(order::sorted(edges, edge_order::<E>()))
}

/// The prefix that sets graph addresses apart from all other kinds:
/// `gantz.graph`.
pub open spec fn graph_tag() -> Seq<u8> {
    seq![103u8, 97, 110, 116, 122, 46, 103, 114, 97, 112, 104]
}

/// The address at each slot of the graph, as given by a table.
pub open spec fn slot_addrs<N>(slots: Seq<Option<N>>, addrs: Map<usize, ContentAddr>) -> Seq<
    Option<ContentAddr>,
> {
    Seq::new(
        slots.len(),
        |i: int|
            if slots[i] is Some {
                Some(addrs[i as usize])
            } else {
                None
            },
    )
}

/// The bytes that address a graph whose nodes have the given addresses.
pub open spec fn bytes_with_nodes<N, E: CaHash + Key>(
    g: Graph<N, E>,
    addrs: Map<usize, ContentAddr>,
) -> Seq<u8> {
    graph_bytes(occupied(slot_addrs(g.nodes@, addrs)), ranked_edges(g))
}

proof fn lemma_occupied_step<T>(slots: Seq<Option<T>>, i: int)
    requires
        0 <= i < slots.len(),
    ensures
        slots[i] is Some ==> occupied(slots.take(i + 1)) == occupied(slots.take(i)).push(
            slots[i]->0,
        ),
        slots[i] is None ==> occupied(slots.take(i + 1)) == occupied(slots.take(i)),
{
    assert(slots.take(i + 1).drop_last() =~= slots.take(i));
}

/// The rank of every slot.
fn ranks<N>(slots: &Vec<Option<N>>) -> (r: Vec<u64>)
    ensures
        r@.len() == slots@.len(),
        forall|i: int| 0 <= i < slots@.len() ==> #[trigger] r@[i] == rank(slots@, i),
{
    let mut r: Vec<u64> = Vec::new();
    let mut k: u64 = 0;
    let mut i: usize = 0;
    assert(slots@.take(0) =~= Seq::empty());
    while i < slots.len()
        invariant
            i <= slots@.len(),
            k <= i,
            k == rank(slots@, i as int),
            r@.len() == i,
            forall|j: int| 0 <= j < i ==> #[trigger] r@[j] == rank(slots@, j),
        decreases slots@.len() - i,
    {
        r.push(k);
        proof {
            lemma_occupied_step(slots@, i as int);
        }
        if slots[i].is_some() {
            k = k + 1;
        }
        i = i + 1;
    }
    r
}

/// The edges between ranks, in the order they were added.
fn edges_between_ranks<N, E: Key + Copy>(g: &Graph<N, E>) -> (r: Vec<RankedEdge<E>>)
    requires
        g.wf(),
    ensures
        r@ == ranked_edges(*g),
{
    let ranks = ranks(&g.nodes);
    let mut r: Vec<RankedEdge<E>> = Vec::new();
    let mut i: usize = 0;
    while i < g.edges.len()
        invariant
            g.wf(),
                i <= g.edges@.len(),
            ranks@.len() == g.nodes@.len(),
            forall|j: int| 0 <= j < ranks@.len() ==> #[trigger] ranks@[j] == rank(g.nodes@, j),
            r@ =~= ranked_edges(*g).take(i as int),
        decreases g.edges@.len() - i,
    {
        let e = &g.edges[i];
        assert(g.has(e.source as int) && g.has(e.target as int));
        r.push(
            RankedEdge {
                source: ranks[e.source],
                target: ranks[e.target],
                weight: e.weight,
            },
        );
        i = i + 1;
    }
    assert(ranked_edges(*g).take(i as int) =~= ranked_edges(*g));
    r
}

/// Feeds the hasher a graph whose nodes' content addresses are known.
pub fn hash_graph_with_nodes<N, E: CaHash + Key + Copy>(
    g: &Graph<N, E>,
    nodes: &Table<usize, ContentAddr>,
    hasher: &mut Hasher,
)
    requires
        g.wf(),
        forall|i: usize| #[trigger] g.has(i as int) ==> nodes@.contains_key(i),
    ensures
        final(hasher)@ == old(hasher)@ + bytes_with_nodes(*g, nodes@),
{
    let tag: [u8; 11] = [103, 97, 110, 116, 122, 46, 103, 114, 97, 112, 104];
    assert(tag@ =~= graph_tag());
    hasher.update(&tag);
    let ghost slots = slot_addrs(g.nodes@, nodes@);
    let ghost start = hasher@;
    let mut rank: u64 = 0;
    let mut i: usize = 0;
    assert(slots.take(0) =~= Seq::empty());
    assert(hasher@ =~= start + node_bytes(occupied(slots.take(0))));
    while i < g.nodes.len()
        invariant
            forall|i: usize| #[trigger] g.has(i as int) ==> nodes@.contains_key(i),
            slots == slot_addrs(g.nodes@, nodes@),
            i <= g.nodes@.len(),
            rank <= i,
            rank == occupied(slots.take(i as int)).len(),
            hasher@ == start + node_bytes(occupied(slots.take(i as int))),
        decreases g.nodes@.len() - i,
    {
        proof {
            lemma_occupied_step(slots, i as int);
        }
        if g.nodes[i].is_some() {
            assert(g.has(i as int));
            let ghost before = hasher@;
            let ghost done = occupied(slots.take(i as int));
            match nodes.get(&i) {
                Some(ca) => {
                    rank.hash(hasher);
                    ca.hash(hasher);
                    proof {
                        let next = done.push(*ca);
                        assert(next.drop_last() =~= done);
                        assert(hasher@ =~= start + node_bytes(next));
                    }
                },
                None => {},
            }
            rank = rank + 1;
        }
        i = i + 1;
    }
    assert(slots.take(i as int) =~= slots);
    let ghost mid = hasher@;
    let edges = order::sort(edges_between_ranks(g), &EdgeRanker {  });
    let ghost all = edges@;
    let mut k: usize = 0;
    assert(all.take(0) =~= Seq::empty());
    assert(hasher@ =~= mid + edge_bytes(all.take(0)));
    while k < edges.len()
        invariant
            k <= edges@.len(),
            all == edges@,
            hasher@ == mid + edge_bytes(all.take(k as int)),
        decreases edges@.len() - k,
    {
        edges[k].source.hash(hasher);
        edges[k].target.hash(hasher);
        edges[k].weight.hash(hasher);
        proof {
            let t = all.take(k + 1);
            assert(t.drop_last() =~= all.take(k as int));
            assert(hasher@ =~= mid + edge_bytes(t));
        }
        k = k + 1;
    }
    assert(all.take(k as int) =~= all);
    assert(hasher@ =~= old(hasher)@ + bytes_with_nodes(*g, nodes@));
}

/// The content address of each node, by its index.
pub fn node_addrs<N: CaHash, E>(g: &Graph<N, E>) -> (r: Table<usize, ContentAddr>)
    ensures
        forall|i: usize| #[trigger] r@.contains_key(i) == g.has(i as int),
        forall|i: usize| #[trigger]
            r@.contains_key(i) ==> hash::addresses(r@[i], g.nodes@[i as int]->0.ca_bytes()),
{
    let mut r: Table<usize, ContentAddr> = Table::new();
    let mut i: usize = 0;
    while i < g.nodes.len()
        invariant
            i <= g.nodes@.len(),
            forall|j: usize| #[trigger] r@.contains_key(j) == (j < i && g.has(j as int)),
            forall|j: usize| #[trigger]
                r@.contains_key(j) ==> hash::addresses(r@[j], g.nodes@[j as int]->0.ca_bytes()),
        decreases g.nodes@.len() - i,
    {
        match &g.nodes[i] {
            Some(node) => {
                r.insert(i, hash::content_addr(node));
            },
            None => {},
        }
        i = i + 1;
    }
    r
}

/// Feeds the hasher a graph.
pub fn hash_graph<N: CaHash, E: CaHash + Key + Copy>(g: &Graph<N, E>, hasher: &mut Hasher)
    requires
        g.wf(),
    ensures
        final(hasher)@ == old(hasher)@ + canonical_bytes(*g),
{
    let nodes = node_addrs(g);
    let n: usize = g.nodes.len();
    hash_graph_with_nodes(g, &nodes, hasher);
    proof {
        let a = slot_addrs(g.nodes@, nodes@);
        let b = own_addrs(g.nodes@);
        assert forall|i: int| 0 <= i < a.len() implies a[i] == b[i] by {
            if g.nodes@[i] is Some {
                assert(i < n && g.has(i as usize as int));
                assert(nodes@.contains_key(i as usize));
                hash::lemma_addr_of(nodes@[i as usize], g.nodes@[i]->0.ca_bytes());
            }
        }
        assert(a =~= b);
    }
}

/// The content address at each occupied slot.
pub open spec fn own_addrs<N: CaHash>(slots: Seq<Option<N>>) -> Seq<Option<ContentAddr>> {
    slots.map_values(
        |n: Option<N>|
            match n {
                Some(node) => Some(hash::addr_of(node.ca_bytes())),
                None => None,
            },
    )
}

/// The bytes that address a graph.
pub open spec fn canonical_bytes<N: CaHash, E: CaHash + Key>(g: Graph<N, E>) -> Seq<u8> {
    graph_bytes(occupied(own_addrs(g.nodes@)), ranked_edges(g))
}

/// The content address of a graph. It depends on the graph's structure, not on
/// the layout of its slots nor on the order of its edges: each node is hashed by
/// its canonical rank, and the edges are sorted.
pub fn addr<N: CaHash, E: CaHash + Key + Copy>(g: &Graph<N, E>) -> (r: GraphAddr)
    requires
        g.wf(),
    ensures
        hash::addresses(r.0, canonical_bytes(*g)),
{
    let mut hasher = Hasher::new();
    hash_graph(g, &mut hasher);
    assert(hasher@ =~= canonical_bytes(*g));
    GraphAddr(ContentAddr(hasher.finalize()))
}

/// The content address of a graph whose nodes' addresses are already known.
pub fn addr_with_nodes<N, E: CaHash + Key + Copy>(g: &Graph<N, E>, nodes: &Table<usize, ContentAddr>) -> (r:
    GraphAddr)
    requires
        g.wf(),
        forall|i: usize| #[trigger] g.has(i as int) ==> nodes@.contains_key(i),
    ensures
        hash::addresses(r.0, bytes_with_nodes(*g, nodes@)),
{
    let mut hasher = Hasher::new();
    hash_graph_with_nodes(g, nodes, &mut hasher);
    assert(hasher@ =~= bytes_with_nodes(*g, nodes@));
    GraphAddr(ContentAddr(hasher.finalize()))
}

/// Whether weights that denote the same are addressed by the same bytes.
pub open spec fn weights_tell<E: CaHash + Key>() -> bool {
    forall|a: E, b: E| a@ == b@ ==> #[trigger] a.ca_bytes() == #[trigger] b.ca_bytes()
}

/// What an edge between ranks denotes.
spec fn denoted<E: Key>() -> spec_fn(RankedEdge<E>) -> (u64, u64, E::V) {
    |e: RankedEdge<E>| (e.source, e.target, e.weight@)
}

/// The order of what edges denote.
spec fn denoted_order<E: Key>() -> spec_fn((u64, u64, E::V), (u64, u64, E::V)) -> bool {
    |a: (u64, u64, E::V), b: (u64, u64, E::V)|
        a.0 < b.0 || (a.0 == b.0 && (a.1 < b.1 || (a.1 == b.1 && E::precedes(a.2, b.2))))
}

proof fn lemma_denoted_order<E: Key>()
    ensures
        order::strict_total(denoted_order::<E>()),
{
    let lt = denoted_order::<E>();
    assert forall|a: (u64, u64, E::V)| !#[trigger] lt(a, a) by {
        E::lemma_irreflexive(a.2);
    }
    assert forall|a: (u64, u64, E::V), b: (u64, u64, E::V), c: (u64, u64, E::V)| #[trigger]
        lt(a, b) && #[trigger] lt(b, c) implies lt(a, c) by {
        if E::precedes(a.2, b.2) && E::precedes(b.2, c.2) {
            E::lemma_transitive(a.2, b.2, c.2);
        }
    }
    assert forall|a: (u64, u64, E::V), b: (u64, u64, E::V)|
        a == b || #[trigger] lt(a, b) || lt(b, a) by {
        E::lemma_total(a.2, b.2);
    }
}

proof fn lemma_map_multiset<A, B>(a: Seq<A>, b: Seq<A>, f: spec_fn(A) -> B)
    requires
        a.to_multiset() == b.to_multiset(),
    ensures
        a.map_values(f).to_multiset() == b.map_values(f).to_multiset(),
    decreases a.len(),
{
    broadcast use vstd::seq_lib::group_to_multiset_ensures;

    assert(a.len() == a.to_multiset().len() && b.len() == b.to_multiset().len());
    if a.len() > 0 {
        let x = a.last();
        let init = a.drop_last();
        assert(a =~= init.push(x));
        assert(a.to_multiset().count(x) > 0);
        let j = b.index_of(x);
        assert(b.contains(x));
        let rest = b.remove(j);
        assert(init.to_multiset() =~= rest.to_multiset()) by {
            assert(init.push(x).to_multiset() =~= init.to_multiset().insert(x));
            assert(rest.to_multiset() =~= b.to_multiset().remove(x));
        }
        lemma_map_multiset(init, rest, f);
        let fa = a.map_values(f);
        let fb = b.map_values(f);
        assert(fa =~= init.map_values(f).push(f(x)));
        assert(fb.remove(j) =~= rest.map_values(f));
        assert(fb[j] == f(x));
        assert(fb.to_multiset() =~= fb.remove(j).to_multiset().insert(f(x))) by {
            assert(fb.remove(j).to_multiset() =~= fb.to_multiset().remove(fb[j]));
            assert(fb.contains(fb[j]));
            assert(fb.to_multiset().count(fb[j]) > 0);
        }
        assert(init.map_values(f).push(f(x)).to_multiset() =~= init.map_values(
            f,
        ).to_multiset().insert(f(x)));
    } else {
        assert(a =~= b);
    }
}

proof fn lemma_edge_bytes_denoted<E: CaHash + Key>(a: Seq<RankedEdge<E>>, b: Seq<RankedEdge<E>>)
    requires
        weights_tell::<E>(),
        a.map_values(denoted::<E>()) == b.map_values(denoted::<E>()),
    ensures
        edge_bytes(a) == edge_bytes(b),
    decreases a.len(),
{
    let f = denoted::<E>();
    assert(a.map_values(f).len() == a.len() && b.map_values(f).len() == b.len());
    if a.len() > 0 {
        assert(a.drop_last().map_values(f) =~= a.map_values(f).drop_last());
        assert(b.drop_last().map_values(f) =~= b.map_values(f).drop_last());
        lemma_edge_bytes_denoted(a.drop_last(), b.drop_last());
        let (x, y) = (a.last(), b.last());
        assert(a.map_values(f)[a.len() - 1] == f(x));
        assert(b.map_values(f)[b.len() - 1] == f(y));
        assert(x.weight.ca_bytes() == y.weight.ca_bytes());
    }
}

/// Two graphs whose nodes have the same addresses in the same order, and whose edges
/// between ranks are the same in any order, are addressed by the same bytes.
pub proof fn law_addr_follows_structure<N: CaHash, E: CaHash + Key>(g: Graph<N, E>, h: Graph<N, E>)
    requires
        weights_tell::<E>(),
        occupied(own_addrs(g.nodes@)) == occupied(own_addrs(h.nodes@)),
        ranked_edges(g).to_multiset() == ranked_edges(h).to_multiset(),
    ensures
        canonical_bytes(g) == canonical_bytes(h),
{
    let f = denoted::<E>();
    let lt = edge_order::<E>();
    let under = denoted_order::<E>();
    let (a, b) = (ranked_edges(g), ranked_edges(h));
    lemma_denoted_order::<E>();
    assert forall|x: RankedEdge<E>, y: RankedEdge<E>| #[trigger] lt(x, y) == under(f(x), f(y)) by {}
    order::lemma_sorted_map(a, f, lt, under);
    order::lemma_sorted_map(b, f, lt, under);
    lemma_map_multiset(a, b, f);
    order::lemma_sorted_unique(a.map_values(f), b.map_values(f), under);
    lemma_edge_bytes_denoted(order::sorted(a, lt), order::sorted(b, lt));
}

proof fn lemma_occupied_all<T>(slots: Seq<Option<T>>, all: Seq<T>)
    requires
        slots.len() == all.len(),
        forall|i: int| 0 <= i < all.len() ==> #[trigger] slots[i] == Some(all[i]),
    ensures
        occupied(slots) == all,
    decreases slots.len(),
{
    if slots.len() > 0 {
        lemma_occupied_all(slots.drop_last(), all.drop_last());
        assert(slots.last() == Some(all.last()));
        assert(all =~= all.drop_last().push(all.last()));
    } else {
        assert(all =~= Seq::empty());
    }
}

proof fn lemma_occupied_own<N: CaHash>(slots: Seq<Option<N>>)
    ensures
        occupied(own_addrs(slots)) == occupied(slots).map_values(|n: N| hash::addr_of(n.ca_bytes())),
    decreases slots.len(),
{
    let f = |n: N| hash::addr_of(n.ca_bytes());
    if slots.len() > 0 {
        lemma_occupied_own(slots.drop_last());
        assert(own_addrs(slots).drop_last() =~= own_addrs(slots.drop_last()));
        match slots.last() {
            Some(x) => {
                assert(occupied(slots).map_values(f) =~= occupied(slots.drop_last()).map_values(
                    f,
                ).push(f(x)));
            },
            None => {},
        }
    } else {
        assert(occupied(own_addrs(slots)) =~= occupied(slots).map_values(f));
    }
}

/// Whether `h` is `g` with its vacant slots closed up: the same nodes in the same
/// order, and every edge between the ranks of its ends.
pub open spec fn compacts<N, E>(g: Graph<N, E>, h: Graph<N, E>) -> bool {
    &&& h.nodes@ == occupied(g.nodes@).map_values(|n: N| Some(n))
    &&& h.edges@.len() == g.edges@.len()
    &&& forall|k: int|
        0 <= k < g.edges@.len() ==> {
            &&& (#[trigger] h.edges@[k]).source == rank(g.nodes@, g.edges@[k].source as int)
            &&& h.edges@[k].target == rank(g.nodes@, g.edges@[k].target as int)
            &&& h.edges@[k].weight == g.edges@[k].weight
        }
}

/// Closing up the vacant slots of a graph leaves the bytes it is addressed by unchanged.
pub proof fn law_addr_ignores_vacant_slots<N: CaHash, E: CaHash + Key>(
    g: Graph<N, E>,
    h: Graph<N, E>,
)
    requires
        h.wf(),
        compacts(g, h),
    ensures
        canonical_bytes(g) == canonical_bytes(h),
{
    let all = occupied(g.nodes@);
    lemma_occupied_all(h.nodes@, all);
    lemma_occupied_own(g.nodes@);
    lemma_occupied_own(h.nodes@);
    assert forall|k: int| 0 <= k < g.edges@.len() implies ranked_edges(g)[k] == #[trigger] ranked_edges(
        h,
    )[k] by {
        let e = h.edges@[k];
        assert(h.has(e.source as int) && h.has(e.target as int));
        lemma_occupied_all(h.nodes@.take(e.source as int), all.take(e.source as int));
        lemma_occupied_all(h.nodes@.take(e.target as int), all.take(e.target as int));
    }
    assert(ranked_edges(g) =~= ranked_edges(h));
}

/// The edges away from a node are those that neither leave nor enter it, in their order.
pub proof fn law_edges_away_are_kept_in_order<E>(
    a: Seq<EdgeRef<E>>,
    b: Seq<EdgeRef<E>>,
    e: EdgeRef<E>,
    ix: usize,
)
    ensures
        away_from(a + b, ix) == away_from(a, ix) + away_from(b, ix),
        away_from(seq![e], ix) == (if e.source == ix || e.target == ix {
            Seq::empty()
        } else {
            seq![e]
        }),
    decreases b.len(),
{
    assert(seq![e].drop_last() =~= Seq::empty());
    assert(away_from(Seq::<EdgeRef<E>>::empty(), ix) =~= Seq::empty());
    assert(Seq::<EdgeRef<E>>::empty().push(e) =~= seq![e]);
    if b.len() == 0 {
        assert(a + b =~= a);
        assert(away_from(a, ix) + away_from(b, ix) =~= away_from(a, ix));
    } else {
        law_edges_away_are_kept_in_order(a, b.drop_last(), e, ix);
        assert((a + b).drop_last() =~= a + b.drop_last());
        assert((a + b).last() == b.last());
        assert(away_from(a + b, ix) =~= away_from(a, ix) + away_from(b, ix));
    }
}

/// What occupies slots is what the slots that hold something hold, in their order: a slot's
/// rank is the place at which what it holds is found.
pub proof fn law_rank_finds_the_occupant<T>(slots: Seq<Option<T>>, i: int)
    requires
        0 <= i < slots.len(),
    ensures
        slots[i] is Some ==> rank(slots, i) < occupied(slots).len() && occupied(slots)[rank(
            slots,
            i,
        ) as int] == slots[i]->0,
        slots[i] is Some ==> rank(slots, i + 1) == rank(slots, i) + 1,
        slots[i] is None ==> rank(slots, i + 1) == rank(slots, i),
        rank(slots, 0) == 0,
        rank(slots, slots.len() as int) == occupied(slots).len(),
    decreases slots.len(),
{
    let n = slots.len() as int;
    let init = slots.drop_last();
    assert(slots.take(n) =~= slots);
    assert(slots.take(0) =~= Seq::<Option<T>>::empty());
    assert(slots.take(i + 1).drop_last() =~= slots.take(i));
    assert(slots.take(i + 1).last() == slots[i]);
    assert(slots.take(n - 1) =~= init);
    if i < n - 1 {
        law_rank_finds_the_occupant(init, i);
        assert(init.take(i) =~= slots.take(i));
    }
}

} // verus!
