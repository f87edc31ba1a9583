//! Content addressing: what has the same address is the same.
//!
//! Addresses are hashes, so this holds of content whose bytes the hash tells apart.

use crate::addr::{self, ContentAddr};
use crate::commit::{self, CommitAddr, CommitView, Timestamp};
use crate::data::{self, GraphView, NamedView, NodeView};
use crate::edge::Edge;
use crate::fork;
use crate::graph::{self, GraphAddr, RankedEdge};
use crate::hash;
use crate::name;
use crate::order;
use crate::sync::{self, DataView, ForkState};
use vstd::prelude::*;
use vstd::utf8::*;

verus! {

/// Whether no two of the byte strings that `p` holds of have the same address.
pub open spec fn told_apart(p: spec_fn(Seq<u8>) -> bool) -> bool {
    forall|a: Seq<u8>, b: Seq<u8>| #[trigger]
        p(a) && #[trigger] p(b) && hash::addr_of(a) == hash::addr_of(b) ==> a == b
}

/// Whether a text's length can be written in a word.
pub open spec fn short(s: Seq<char>) -> bool {
    encode_utf8(s).len() <= u64::MAX
}

/// Whether a name can be told from its text: it has segments, and none holds a colon.
pub open spec fn plain(n: Seq<Seq<char>>) -> bool {
    &&& n.len() >= 1
    &&& forall|i: int| 0 <= i < n.len() ==> !(#[trigger] n[i]).contains(':')
    &&& short(name::spelled(n))
}

/// Whether all lengths in a node can be written in a word, and its name can be told from
/// its text.
pub open spec fn fits(n: NodeView) -> bool {
    &&& short(n.tag)
    &&& n.data.len() <= u64::MAX
    &&& n.named is Some ==> plain(n.named->0.name)
    &&& n.refs.len() <= u64::MAX
    &&& n.blobs.len() <= u64::MAX
    &&& forall|i: int| 0 <= i < n.blobs.len() ==> short((#[trigger] n.blobs[i]).0)
}

/// Whether all nodes of a graph fit, its edges run between them, and they can be counted
/// in a word.
pub open spec fn graph_fits(g: GraphView<NodeView>) -> bool {
    &&& g.wf()
    &&& g.nodes.len() <= u64::MAX
    &&& forall|i: int| #[trigger] g.has(i) ==> fits(g.nodes[i]->0)
}

/// The bytes that a graph is addressed by.
pub open spec fn graph_view_bytes(g: GraphView<NodeView>) -> Seq<u8> {
    graph::graph_bytes(graph::occupied(data::view_addrs(g.nodes)), data::view_edges(g))
}

/// Whether `p` holds of the bytes that a graph and its nodes are addressed by.
pub open spec fn hashed(g: GraphView<NodeView>, p: spec_fn(Seq<u8>) -> bool) -> bool {
    &&& p(graph_view_bytes(g))
    &&& forall|i: int| #[trigger] g.has(i) ==> p(data::node_view_bytes(g.nodes[i]->0))
}

proof fn lemma_word_front(m: nat, n: nat, x: Seq<u8>, y: Seq<u8>)
    requires
        m <= u64::MAX,
        n <= u64::MAX,
        hash::be(m, 8) + x == hash::be(n, 8) + y,
    ensures
        m == n,
        x == y,
{
    hash::lemma_be_len(m, 8);
    hash::lemma_be_len(n, 8);
    let s = hash::be(m, 8) + x;
    assert(s.take(8) =~= hash::be(m, 8));
    assert(s.take(8) =~= hash::be(n, 8));
    assert(s.skip(8) =~= x);
    assert(s.skip(8) =~= y);
    assert(hash::room(8) == 0x1_0000_0000_0000_0000) by {
        reveal_with_fuel(hash::room, 9);
    }
    hash::lemma_be_injective(m, n, 8);
}

proof fn lemma_addr_front(a: ContentAddr, b: ContentAddr, x: Seq<u8>, y: Seq<u8>)
    requires
        a.bytes() + x == b.bytes() + y,
    ensures
        a == b,
        x == y,
{
    let s = a.bytes() + x;
    assert(s.take(32) =~= a.bytes());
    assert(s.take(32) =~= b.bytes());
    assert(s.skip(32) =~= x);
    assert(s.skip(32) =~= y);
    addr::lemma_addr_ext(a, b);
}

proof fn lemma_framed_front(a: Seq<u8>, b: Seq<u8>, x: Seq<u8>, y: Seq<u8>)
    requires
        a.len() <= u64::MAX,
        b.len() <= u64::MAX,
        data::framed(a) + x == data::framed(b) + y,
    ensures
        a == b,
        x == y,
{
    assert(data::framed(a) + x =~= hash::be(a.len(), 8) + (a + x));
    assert(data::framed(b) + y =~= hash::be(b.len(), 8) + (b + y));
    lemma_word_front(a.len(), b.len(), a + x, b + y);
    let s = a + x;
    assert(s.take(a.len() as int) =~= a);
    assert(s.take(a.len() as int) =~= b);
    assert(s.skip(a.len() as int) =~= x);
    assert(s.skip(a.len() as int) =~= y);
}

proof fn lemma_text_front(a: Seq<char>, b: Seq<char>, x: Seq<u8>, y: Seq<u8>)
    requires
        short(a),
        short(b),
        data::framed(encode_utf8(a)) + x == data::framed(encode_utf8(b)) + y,
    ensures
        a == b,
        x == y,
{
    lemma_framed_front(encode_utf8(a), encode_utf8(b), x, y);
    encode_utf8_decode_utf8(a);
    encode_utf8_decode_utf8(b);
}

proof fn lemma_addrs_front(s: Seq<GraphAddr>, t: Seq<GraphAddr>, x: Seq<u8>, y: Seq<u8>)
    requires
        s.len() == t.len(),
        data::addr_bytes(s) + x == data::addr_bytes(t) + y,
    ensures
        s == t,
        x == y,
    decreases s.len(),
{
    if s.len() > 0 {
        let (a, b) = (s.last().0, t.last().0);
        assert(data::addr_bytes(s) + x =~= data::addr_bytes(s.drop_last()) + (a.bytes() + x));
        assert(data::addr_bytes(t) + y =~= data::addr_bytes(t.drop_last()) + (b.bytes() + y));
        lemma_addrs_front(s.drop_last(), t.drop_last(), a.bytes() + x, b.bytes() + y);
        lemma_addr_front(a, b, x, y);
        assert(s =~= s.drop_last().push(s.last()));
        assert(t =~= t.drop_last().push(t.last()));
    } else {
        assert(s =~= t);
        assert(data::addr_bytes(s) + x =~= x);
        assert(data::addr_bytes(t) + y =~= y);
    }
}

proof fn lemma_blobs_front(
    s: Seq<(Seq<char>, ContentAddr)>,
    t: Seq<(Seq<char>, ContentAddr)>,
    x: Seq<u8>,
    y: Seq<u8>,
)
    requires
        s.len() == t.len(),
        forall|i: int| 0 <= i < s.len() ==> short((#[trigger] s[i]).0),
        forall|i: int| 0 <= i < t.len() ==> short((#[trigger] t[i]).0),
        data::blob_bytes(s) + x == data::blob_bytes(t) + y,
    ensures
        s == t,
        x == y,
    decreases s.len(),
{
    if s.len() > 0 {
        let (a, b) = (s.last(), t.last());
        assert(short(s[s.len() - 1].0) && short(t[t.len() - 1].0));
        let u = data::framed(encode_utf8(a.0)) + (a.1.bytes() + x);
        let v = data::framed(encode_utf8(b.0)) + (b.1.bytes() + y);
        assert(data::blob_bytes(s) + x =~= data::blob_bytes(s.drop_last()) + u);
        assert(data::blob_bytes(t) + y =~= data::blob_bytes(t.drop_last()) + v);
        assert forall|i: int| 0 <= i < s.drop_last().len() implies short(
            (#[trigger] s.drop_last()[i]).0,
        ) by {
            assert(s.drop_last()[i] == s[i]);
        }
        assert forall|i: int| 0 <= i < t.drop_last().len() implies short(
            (#[trigger] t.drop_last()[i]).0,
        ) by {
            assert(t.drop_last()[i] == t[i]);
        }
        lemma_blobs_front(s.drop_last(), t.drop_last(), u, v);
        lemma_text_front(a.0, b.0, a.1.bytes() + x, b.1.bytes() + y);
        lemma_addr_front(a.1, b.1, x, y);
        assert(s =~= s.drop_last().push(s.last()));
        assert(t =~= t.drop_last().push(t.last()));
    } else {
        assert(s =~= t);
        assert(data::blob_bytes(s) + x =~= x);
        assert(data::blob_bytes(t) + y =~= y);
    }
}

proof fn lemma_named_front(a: Option<NamedView>, b: Option<NamedView>, x: Seq<u8>, y: Seq<u8>)
    requires
        a is Some ==> plain(a->0.name),
        b is Some ==> plain(b->0.name),
        data::named_bytes(a) + x == data::named_bytes(b) + y,
    ensures
        a == b,
        x == y,
{
    let s = data::named_bytes(a) + x;
    let t = data::named_bytes(b) + y;
    assert(s[0] == data::named_bytes(a)[0] && t[0] == data::named_bytes(b)[0]);
    assert((a is Some) == (b is Some));
    if a is Some {
        let (m, n) = (a->0, b->0);
        assert(m.sync == n.sync);
        let u = data::framed(encode_utf8(name::spelled(m.name))) + (m.graph.0.bytes() + x);
        let v = data::framed(encode_utf8(name::spelled(n.name))) + (n.graph.0.bytes() + y);
        assert(s.skip(1) =~= u);
        assert(t.skip(1) =~= v);
        lemma_text_front(
            name::spelled(m.name),
            name::spelled(n.name),
            m.graph.0.bytes() + x,
            n.graph.0.bytes() + y,
        );
        lemma_addr_front(m.graph.0, n.graph.0, x, y);
        name::law_name_reads_back(m.name);
        name::law_name_reads_back(n.name);
        assert(m =~= n);
    } else {
        assert(s.skip(1) =~= x);
        assert(t.skip(1) =~= y);
    }
}

spec fn blob_tail(n: NodeView) -> Seq<u8> {
    hash::be(n.blobs.len(), 8) + (data::blob_bytes(n.blobs) + Seq::<u8>::empty())
}

spec fn ref_tail(n: NodeView) -> Seq<u8> {
    hash::be(n.refs.len(), 8) + (data::addr_bytes(n.refs) + blob_tail(n))
}

spec fn named_tail(n: NodeView) -> Seq<u8> {
    data::named_bytes(n.named) + ref_tail(n)
}

spec fn data_tail(n: NodeView) -> Seq<u8> {
    data::framed(n.data) + named_tail(n)
}

proof fn lemma_node_split(n: NodeView)
    ensures
        data::node_view_bytes(n) == data::framed(encode_utf8(n.tag)) + data_tail(n),
{
    assert(data::node_view_bytes(n) =~= data::framed(encode_utf8(n.tag)) + data_tail(n));
}

/// Nodes that are addressed by the same bytes are the same.
pub proof fn lemma_node_bytes_tell(m: NodeView, n: NodeView)
    requires
        fits(m),
        fits(n),
        data::node_view_bytes(m) == data::node_view_bytes(n),
    ensures
        m == n,
{
    lemma_node_split(m);
    lemma_node_split(n);
    lemma_text_front(m.tag, n.tag, data_tail(m), data_tail(n));
    lemma_framed_front(m.data, n.data, named_tail(m), named_tail(n));
    lemma_named_front(m.named, n.named, ref_tail(m), ref_tail(n));
    let none = Seq::<u8>::empty();
    lemma_word_front(
        m.refs.len(),
        n.refs.len(),
        data::addr_bytes(m.refs) + blob_tail(m),
        data::addr_bytes(n.refs) + blob_tail(n),
    );
    lemma_addrs_front(m.refs, n.refs, blob_tail(m), blob_tail(n));
    lemma_word_front(
        m.blobs.len(),
        n.blobs.len(),
        data::blob_bytes(m.blobs) + none,
        data::blob_bytes(n.blobs) + none,
    );
    lemma_blobs_front(m.blobs, n.blobs, none, none);
    assert(m =~= n);
}

spec fn node_record(a: ContentAddr, k: nat) -> Seq<u8> {
    hash::be(k, 8) + a.bytes()
}

/// Behind the nodes of the shorter list come those that the longer list has more, the
/// first of which starts with its rank.
proof fn lemma_nodes_front(a: Seq<ContentAddr>, b: Seq<ContentAddr>, x: Seq<u8>, y: Seq<u8>)
    requires
        a.len() <= b.len() <= u64::MAX,
        graph::node_bytes(a) + x == graph::node_bytes(b) + y,
    ensures
        a == b.take(a.len() as int),
        a.len() == b.len() ==> x == y,
        a.len() < b.len() ==> x.len() >= 8 && x.take(8) == hash::be(a.len(), 8),
    decreases b.len(),
{
    if b.len() == 0 {
        assert(a =~= b.take(0));
        assert(graph::node_bytes(a) + x =~= x);
        assert(graph::node_bytes(b) + y =~= y);
    } else {
        let bi = b.drop_last();
        let k = (b.len() - 1) as nat;
        let yy = node_record(b.last(), k) + y;
        assert(graph::node_bytes(b) + y =~= graph::node_bytes(bi) + yy);
        if a.len() == b.len() {
            let ai = a.drop_last();
            let xx = node_record(a.last(), k) + x;
            assert(graph::node_bytes(a) + x =~= graph::node_bytes(ai) + xx);
            lemma_nodes_front(ai, bi, xx, yy);
            assert(xx =~= hash::be(k, 8) + (a.last().bytes() + x));
            assert(yy =~= hash::be(k, 8) + (b.last().bytes() + y));
            lemma_word_front(k, k, a.last().bytes() + x, b.last().bytes() + y);
            lemma_addr_front(a.last(), b.last(), x, y);
            assert(bi.take(ai.len() as int) =~= bi);
            assert(a =~= ai.push(a.last()));
            assert(b =~= bi.push(b.last()));
            assert(b.take(a.len() as int) =~= b);
        } else {
            lemma_nodes_front(a, bi, x, yy);
            assert(bi.take(a.len() as int) =~= b.take(a.len() as int));
            if a.len() == bi.len() {
                hash::lemma_be_len(k, 8);
                assert(x.take(8) =~= hash::be(k, 8));
            }
        }
    }
}

spec fn edge_record(e: RankedEdge<Edge>) -> Seq<u8> {
    hash::be(e.source as nat, 8) + (hash::be(e.target as nat, 8) + (hash::be(
        e.weight.output.0 as nat,
        2,
    ) + hash::be(e.weight.input.0 as nat, 2)))
}

proof fn lemma_edge_record(e: RankedEdge<Edge>)
    ensures
        edge_record(e).len() == 20,
{
    hash::lemma_be_len(e.source as nat, 8);
    hash::lemma_be_len(e.target as nat, 8);
    hash::lemma_be_len(e.weight.output.0 as nat, 2);
    hash::lemma_be_len(e.weight.input.0 as nat, 2);
}

proof fn lemma_edge_split(s: Seq<RankedEdge<Edge>>)
    requires
        s.len() > 0,
    ensures
        graph::edge_bytes(s) == graph::edge_bytes(s.drop_last()) + edge_record(s.last()),
{
    assert(graph::edge_bytes(s) =~= graph::edge_bytes(s.drop_last()) + edge_record(s.last()));
}

proof fn lemma_edges_len(s: Seq<RankedEdge<Edge>>)
    ensures
        graph::edge_bytes(s).len() == 20 * s.len(),
    decreases s.len(),
{
    if s.len() > 0 {
        lemma_edges_len(s.drop_last());
        lemma_edge_split(s);
        lemma_edge_record(s.last());
    }
}

proof fn lemma_edges_front(s: Seq<RankedEdge<Edge>>)
    requires
        s.len() > 0,
    ensures
        graph::edge_bytes(s).take(8) == hash::be(s[0].source as nat, 8),
    decreases s.len(),
{
    lemma_edge_split(s);
    hash::lemma_be_len(s[0].source as nat, 8);
    if s.len() == 1 {
        assert(graph::edge_bytes(s.drop_last()) =~= Seq::empty());
        assert(graph::edge_bytes(s).take(8) =~= hash::be(s[0].source as nat, 8));
    } else {
        lemma_edges_front(s.drop_last());
        lemma_edges_len(s.drop_last());
        assert(graph::edge_bytes(s).take(8) =~= graph::edge_bytes(s.drop_last()).take(8));
    }
}

proof fn lemma_edge_record_tells(a: RankedEdge<Edge>, b: RankedEdge<Edge>)
    requires
        edge_record(a) == edge_record(b),
    ensures
        a == b,
{
    let (ap, bp) = (a.weight.output.0 as nat, b.weight.output.0 as nat);
    let (aq, bq) = (a.weight.input.0 as nat, b.weight.input.0 as nat);
    let u = hash::be(ap, 2) + hash::be(aq, 2);
    let v = hash::be(bp, 2) + hash::be(bq, 2);
    lemma_word_front(
        a.source as nat,
        b.source as nat,
        hash::be(a.target as nat, 8) + u,
        hash::be(b.target as nat, 8) + v,
    );
    lemma_word_front(a.target as nat, b.target as nat, u, v);
    hash::lemma_be_len(ap, 2);
    hash::lemma_be_len(bp, 2);
    assert(u.take(2) =~= hash::be(ap, 2));
    assert(v.take(2) =~= hash::be(bp, 2));
    assert(u.skip(2) =~= hash::be(aq, 2));
    assert(v.skip(2) =~= hash::be(bq, 2));
    assert(hash::room(2) == 0x1_0000) by {
        reveal_with_fuel(hash::room, 3);
    }
    hash::lemma_be_injective(ap, bp, 2);
    hash::lemma_be_injective(aq, bq, 2);
}

proof fn lemma_edges_tell(s: Seq<RankedEdge<Edge>>, t: Seq<RankedEdge<Edge>>)
    requires
        graph::edge_bytes(s) == graph::edge_bytes(t),
    ensures
        s == t,
    decreases s.len(),
{
    lemma_edges_len(s);
    lemma_edges_len(t);
    assert(s.len() == t.len());
    if s.len() > 0 {
        let (a, b) = (s.drop_last(), t.drop_last());
        lemma_edge_split(s);
        lemma_edge_split(t);
        lemma_edges_len(a);
        lemma_edges_len(b);
        let whole = graph::edge_bytes(s);
        let n = 20 * a.len() as int;
        assert(whole.take(n) =~= graph::edge_bytes(a));
        assert(whole.take(n) =~= graph::edge_bytes(b));
        assert(whole.skip(n) =~= edge_record(s.last()));
        assert(whole.skip(n) =~= edge_record(t.last()));
        lemma_edges_tell(a, b);
        lemma_edge_record_tells(s.last(), t.last());
        assert(s =~= a.push(s.last()));
        assert(t =~= b.push(t.last()));
    } else {
        assert(s =~= t);
    }
}

proof fn lemma_occupied_grows<T>(slots: Seq<Option<T>>, i: int)
    requires
        0 <= i <= slots.len(),
    ensures
        graph::occupied(slots.take(i)).len() <= graph::occupied(slots).len() <= slots.len(),
        i < slots.len() && slots[i] is Some ==> graph::occupied(slots.take(i)).len()
            < graph::occupied(slots).len(),
    decreases slots.len(),
{
    if i == slots.len() {
        assert(slots.take(i) =~= slots);
        if slots.len() > 0 {
            lemma_occupied_grows(slots.drop_last(), i - 1);
        }
    } else {
        let init = slots.drop_last();
        assert(slots.take(i) =~= init.take(i));
        lemma_occupied_grows(init, i);
        if i < init.len() {
            assert(init[i] == slots[i]);
        } else {
            assert(init.take(i) =~= init);
        }
    }
}

proof fn lemma_occupied_addrs(slots: Seq<Option<NodeView>>)
    ensures
        graph::occupied(data::view_addrs(slots)).len() == graph::occupied(slots).len(),
        forall|k: int|
            0 <= k < graph::occupied(slots).len() ==> #[trigger] graph::occupied(
                data::view_addrs(slots),
            )[k] == hash::addr_of(data::node_view_bytes(graph::occupied(slots)[k])),
    decreases slots.len(),
{
    if slots.len() > 0 {
        let init = slots.drop_last();
        lemma_occupied_addrs(init);
        assert(data::view_addrs(slots).drop_last() =~= data::view_addrs(init));
    }
}

/// What stands in the slots is just what is occupied.
proof fn lemma_occupied_from(slots: Seq<Option<NodeView>>)
    ensures
        forall|k: int|
            0 <= k < graph::occupied(slots).len() ==> slots.contains(
                Some(#[trigger] graph::occupied(slots)[k]),
            ),
        forall|i: int|
            0 <= i < slots.len() && (#[trigger] slots[i]) is Some ==> graph::occupied(
                slots,
            ).contains(slots[i]->0),
    decreases slots.len(),
{
    if slots.len() > 0 {
        let init = slots.drop_last();
        let (a, b) = (graph::occupied(init), graph::occupied(slots));
        lemma_occupied_from(init);
        assert forall|k: int| 0 <= k < b.len() implies slots.contains(Some(#[trigger] b[k])) by {
            if k < a.len() {
                assert(b[k] == a[k]);
                assert(init.contains(Some(a[k])));
                let j = choose|j: int| 0 <= j < init.len() && init[j] == Some(a[k]);
                assert(slots[j] == Some(b[k]));
            } else {
                assert(slots[slots.len() - 1] == Some(b[k]));
            }
        }
        assert forall|i: int| 0 <= i < slots.len() && (#[trigger] slots[i]) is Some implies b.contains(
            slots[i]->0,
        ) by {
            if i < init.len() {
                assert(init[i] == slots[i]);
                assert(a.contains(init[i]->0));
                let j = choose|j: int| 0 <= j < a.len() && a[j] == init[i]->0;
                assert(b[j] == slots[i]->0);
            } else {
                assert(b[b.len() - 1] == slots[i]->0);
            }
        }
    }
}

/// Edges start at nodes.
proof fn lemma_sorted_source(g: GraphView<NodeView>, k: int)
    requires
        graph_fits(g),
        0 <= k < order::sorted(data::view_edges(g), graph::edge_order::<Edge>()).len(),
    ensures
        order::sorted(data::view_edges(g), graph::edge_order::<Edge>())[k].source
            < graph::occupied(g.nodes).len() <= u64::MAX,
{
    broadcast use vstd::seq_lib::group_to_multiset_ensures;

    let edges = data::view_edges(g);
    let lt = graph::edge_order::<Edge>();
    let s = order::sorted(edges, lt);
    order::lemma_sorted_multiset(edges, lt);
    assert(s.to_multiset().count(s[k]) > 0);
    assert(edges.contains(s[k]));
    let j = choose|j: int| 0 <= j < edges.len() && edges[j] == s[k];
    let i = g.edges[j].source as int;
    assert(g.has(i));
    lemma_occupied_grows(g.nodes, i);
}

proof fn lemma_same_addrs(g: GraphView<NodeView>, h: GraphView<NodeView>)
    requires
        graph_fits(g),
        graph_fits(h),
        graph_view_bytes(g) == graph_view_bytes(h),
        graph::occupied(g.nodes).len() <= graph::occupied(h.nodes).len(),
    ensures
        graph::occupied(data::view_addrs(g.nodes)) == graph::occupied(data::view_addrs(h.nodes)),
        order::sorted(data::view_edges(g), graph::edge_order::<Edge>()) == order::sorted(
            data::view_edges(h),
            graph::edge_order::<Edge>(),
        ),
{
    let lt = graph::edge_order::<Edge>();
    let (a, b) = (
        graph::occupied(data::view_addrs(g.nodes)),
        graph::occupied(data::view_addrs(h.nodes)),
    );
    let (s, t) = (order::sorted(data::view_edges(g), lt), order::sorted(data::view_edges(h), lt));
    let (x, y) = (graph::edge_bytes(s), graph::edge_bytes(t));
    let tag = graph::graph_tag();
    lemma_occupied_addrs(g.nodes);
    lemma_occupied_addrs(h.nodes);
    lemma_occupied_grows(h.nodes, 0);
    let n = tag.len() as int;
    assert(graph_view_bytes(g).skip(n) =~= graph::node_bytes(a) + x);
    assert(graph_view_bytes(h).skip(n) =~= graph::node_bytes(b) + y);
    lemma_nodes_front(a, b, x, y);
    if a.len() < b.len() {
        lemma_edges_len(s);
        assert(s.len() > 0);
        lemma_edges_front(s);
        lemma_sorted_source(g, 0);
        let none = Seq::<u8>::empty();
        lemma_word_front(s[0].source as nat, a.len(), none, none);
    }
    assert(b.take(a.len() as int) =~= b);
    lemma_edges_tell(s, t);
}

/// Graphs with the same address have the same nodes in the same order, and the same edges
/// between them, as far as the hash tells their bytes apart. Vacant slots are not
/// addressed.
pub proof fn law_addr_tells_graphs_apart(
    g: GraphView<NodeView>,
    h: GraphView<NodeView>,
    p: spec_fn(Seq<u8>) -> bool,
)
    requires
        told_apart(p),
        graph_fits(g),
        graph_fits(h),
        hashed(g, p),
        hashed(h, p),
        data::data_addr(g) == data::data_addr(h),
    ensures
        graph::occupied(g.nodes) == graph::occupied(h.nodes),
        data::view_edges(g).to_multiset() == data::view_edges(h).to_multiset(),
{
    let lt = graph::edge_order::<Edge>();
    assert(graph_view_bytes(g) == graph_view_bytes(h));
    if graph::occupied(g.nodes).len() <= graph::occupied(h.nodes).len() {
        lemma_same_addrs(g, h);
    } else {
        lemma_same_addrs(h, g);
    }
    order::lemma_sorted_multiset(data::view_edges(g), lt);
    order::lemma_sorted_multiset(data::view_edges(h), lt);
    lemma_occupied_addrs(g.nodes);
    lemma_occupied_addrs(h.nodes);
    lemma_occupied_from(g.nodes);
    lemma_occupied_from(h.nodes);
    let (a, b) = (graph::occupied(g.nodes), graph::occupied(h.nodes));
    let addrs = graph::occupied(data::view_addrs(g.nodes));
    assert forall|k: int| 0 <= k < a.len() implies a[k] == b[k] by {
        assert(g.nodes.contains(Some(a[k])) && h.nodes.contains(Some(b[k])));
        let i = choose|i: int| 0 <= i < g.nodes.len() && g.nodes[i] == Some(a[k]);
        let j = choose|j: int| 0 <= j < h.nodes.len() && h.nodes[j] == Some(b[k]);
        assert(g.has(i) && h.has(j));
        assert(addrs[k] == hash::addr_of(data::node_view_bytes(a[k])));
        assert(graph::occupied(data::view_addrs(h.nodes))[k] == hash::addr_of(
            data::node_view_bytes(b[k]),
        ));
        assert(p(data::node_view_bytes(a[k])) && p(data::node_view_bytes(b[k])));
        lemma_node_bytes_tell(a[k], b[k]);
    }
    assert(a =~= b);
}

/// Graphs with the same nodes have the same named references.
pub proof fn lemma_occupied_refs(g: GraphView<NodeView>, h: GraphView<NodeView>, r: NamedView)
    requires
        graph::occupied(g.nodes) == graph::occupied(h.nodes),
        sync::refers(g, r),
    ensures
        sync::refers(h, r),
{
    lemma_occupied_from(g.nodes);
    lemma_occupied_from(h.nodes);
    let i = choose|i: int|
        0 <= i < g.nodes.len() && (#[trigger] g.nodes[i]) is Some && g.nodes[i]->0.named == Some(r);
    let all = graph::occupied(g.nodes);
    assert(all.contains(g.nodes[i]->0));
    let k = choose|k: int| 0 <= k < all.len() && all[k] == g.nodes[i]->0;
    assert(h.nodes.contains(Some(all[k])));
    let j = choose|j: int| 0 <= j < h.nodes.len() && h.nodes[j] == Some(all[k]);
    assert(h.nodes[j] is Some);
}

spec fn commit_tail(c: CommitView) -> Seq<u8> {
    c.graph.0.bytes() + commit::addrs_bytes(c.merge_parents)
}

proof fn lemma_parents_tell(s: Seq<CommitAddr>, t: Seq<CommitAddr>)
    requires
        commit::addrs_bytes(s) == commit::addrs_bytes(t),
    ensures
        s == t,
    decreases s.len(),
{
    lemma_parents_len(s);
    lemma_parents_len(t);
    assert(s.len() == t.len());
    if s.len() > 0 {
        let (a, b) = (s.drop_last(), t.drop_last());
        lemma_parents_len(a);
        lemma_parents_len(b);
        let whole = commit::addrs_bytes(s);
        let n = 32 * a.len() as int;
        assert(whole.take(n) =~= commit::addrs_bytes(a));
        assert(whole.take(n) =~= commit::addrs_bytes(b));
        assert(whole.skip(n) =~= s.last().0.bytes());
        assert(whole.skip(n) =~= t.last().0.bytes());
        addr::lemma_addr_ext(s.last().0, t.last().0);
        lemma_parents_tell(a, b);
        assert(s =~= a.push(s.last()));
        assert(t =~= b.push(t.last()));
    } else {
        assert(s =~= t);
    }
}

proof fn lemma_parents_len(s: Seq<CommitAddr>)
    ensures
        commit::addrs_bytes(s).len() == 32 * s.len(),
    decreases s.len(),
{
    if s.len() > 0 {
        lemma_parents_len(s.drop_last());
    }
}

/// Commits that are addressed by the same bytes are the same.
pub proof fn law_commit_bytes_tell_commits_apart(c: CommitView, d: CommitView)
    requires
        commit::commit_bytes(c) == commit::commit_bytes(d),
    ensures
        c == d,
{
    let (cf, df) = (
        if c.parent is Some {
            1nat
        } else {
            0nat
        },
        if d.parent is Some {
            1nat
        } else {
            0nat
        },
    );
    let (s, t) = (commit::commit_bytes(c), commit::commit_bytes(d));
    hash::lemma_be_len(c.timestamp.secs as nat, 8);
    hash::lemma_be_len(d.timestamp.secs as nat, 8);
    hash::lemma_be_len(c.timestamp.nanos as nat, 4);
    hash::lemma_be_len(d.timestamp.nanos as nat, 4);
    hash::lemma_be_len(cf, 1);
    hash::lemma_be_len(df, 1);
    assert(commit::commit_tag().len() == 12);
    assert(s.subrange(12, 20) =~= hash::be(c.timestamp.secs as nat, 8));
    assert(t.subrange(12, 20) =~= hash::be(d.timestamp.secs as nat, 8));
    assert(s.subrange(20, 24) =~= hash::be(c.timestamp.nanos as nat, 4));
    assert(t.subrange(20, 24) =~= hash::be(d.timestamp.nanos as nat, 4));
    assert(s.subrange(24, 25) =~= hash::be(cf, 1));
    assert(t.subrange(24, 25) =~= hash::be(df, 1));
    assert(hash::room(8) == 0x1_0000_0000_0000_0000 && hash::room(4) == 0x1_0000_0000
        && hash::room(1) == 0x100) by {
        reveal_with_fuel(hash::room, 9);
    }
    hash::lemma_be_injective(c.timestamp.secs as nat, d.timestamp.secs as nat, 8);
    hash::lemma_be_injective(c.timestamp.nanos as nat, d.timestamp.nanos as nat, 4);
    hash::lemma_be_injective(cf, df, 1);
    if c.parent is Some {
        let (x, y) = (c.parent->0, d.parent->0);
        assert(s.skip(25) =~= x.0.bytes() + commit_tail(c));
        assert(t.skip(25) =~= y.0.bytes() + commit_tail(d));
        lemma_addr_front(x.0, y.0, commit_tail(c), commit_tail(d));
    } else {
        assert(s.skip(25) =~= commit_tail(c));
        assert(t.skip(25) =~= commit_tail(d));
    }
    lemma_addr_front(
        c.graph.0,
        d.graph.0,
        commit::addrs_bytes(c.merge_parents),
        commit::addrs_bytes(d.merge_parents),
    );
    lemma_parents_tell(c.merge_parents, d.merge_parents);
    assert(c =~= d);
}

/// Whether everything in a registry lies under its address, and `p` holds of the bytes
/// that it is addressed by.
pub open spec fn addressed(rv: DataView, p: spec_fn(Seq<u8>) -> bool) -> bool {
    &&& forall|a: GraphAddr| #[trigger]
        rv.graphs.contains_key(a) ==> data::data_addr(rv.graphs[a]) == a && graph_fits(
            rv.graphs[a],
        ) && hashed(rv.graphs[a], p)
    &&& forall|c: CommitAddr| #[trigger]
        rv.commits.contains_key(c) ==> CommitAddr(
            hash::addr_of(commit::commit_bytes(rv.commits[c])),
        ) == c && p(commit::commit_bytes(rv.commits[c]))
}

/// Whether `p` holds of the bytes of a graph that is committed, and of its commit's.
pub open spec fn commit_hashed(
    rv: DataView,
    timestamp: Timestamp,
    h: GraphView<NodeView>,
    name: Seq<Seq<char>>,
    p: spec_fn(Seq<u8>) -> bool,
) -> bool {
    &&& hashed(h, p)
    &&& p(commit::commit_bytes(rv.next_commit(timestamp, data::data_addr(h), name)))
}

/// In a registry whose content lies under its address, what is committed meets nothing
/// else, and again lies under its address.
pub proof fn lemma_commit_addressed(
    rv: DataView,
    timestamp: Timestamp,
    h: GraphView<NodeView>,
    name: Seq<Seq<char>>,
    p: spec_fn(Seq<u8>) -> bool,
)
    requires
        told_apart(p),
        addressed(rv, p),
        graph_fits(h),
        commit_hashed(rv, timestamp, h, name, p),
    ensures
        fork::unmet(rv, h),
        fork::commit_unmet(rv, timestamp, h, name),
        addressed(rv.with_graph_on(timestamp, data::data_addr(h), h, name), p),
{
    let a = data::data_addr(h);
    let c = rv.next_addr(timestamp, a, name);
    let commit = rv.next_commit(timestamp, a, name);
    if rv.graphs.contains_key(a) {
        let g = rv.graphs[a];
        law_addr_tells_graphs_apart(g, h, p);
        assert forall|r: NamedView| #[trigger] sync::refers(g, r) <==> sync::refers(h, r) by {
            if sync::refers(g, r) {
                lemma_occupied_refs(g, h, r);
            }
            if sync::refers(h, r) {
                lemma_occupied_refs(h, g, r);
            }
        }
    }
    if rv.commits.contains_key(c) {
        let other = rv.commits[c];
        assert(commit::commit_bytes(other) == commit::commit_bytes(commit));
        law_commit_bytes_tell_commits_apart(other, commit);
    }
    let after = rv.with_graph_on(timestamp, a, h, name);
    assert forall|b: GraphAddr| #[trigger] after.graphs.contains_key(b) implies data::data_addr(
        after.graphs[b],
    ) == b && graph_fits(after.graphs[b]) && hashed(after.graphs[b], p) by {
        if rv.graphs.contains_key(b) {
            assert(after.graphs[b] == rv.graphs[b]);
        }
    }
    assert forall|d: CommitAddr| #[trigger] after.commits.contains_key(d) implies CommitAddr(
        hash::addr_of(commit::commit_bytes(after.commits[d])),
    ) == d && p(commit::commit_bytes(after.commits[d])) by {
        if d != c {
            assert(rv.commits.contains_key(d));
        }
    }
}

/// Rewriting references to names that can be told from their texts leaves a graph fit.
pub proof fn lemma_rewritten_fits(
    g: GraphView<NodeView>,
    f: spec_fn(NamedView) -> Option<NamedView>,
)
    requires
        graph_fits(g),
        forall|r: NamedView|
            plain(r.name) && (#[trigger] f(r)) is Some ==> plain(f(r)->0.name),
    ensures
        graph_fits(data::rewritten(g, f)),
{
    let h = data::rewritten(g, f);
    assert forall|i: int| #[trigger] h.has(i) implies fits(h.nodes[i]->0) by {
        assert(g.has(i));
        assert(h.nodes[i]->0 == data::rewritten_node(g.nodes[i]->0, f));
    }
    assert forall|k: int| 0 <= k < h.edges.len() implies h.has((#[trigger] h.edges[k]).source as int)
        && h.has(h.edges[k].target as int) by {
        assert(g.has(g.edges[k].source as int) && g.has(g.edges[k].target as int));
    }
}

/// Whether `p` holds of the bytes of what rewriting the references of the graph at `c`
/// commits.
pub open spec fn rewrite_hashed(
    rv: DataView,
    timestamp: Timestamp,
    c: Option<CommitAddr>,
    f: spec_fn(NamedView) -> Option<NamedView>,
    name: Seq<Seq<char>>,
    p: spec_fn(Seq<u8>) -> bool,
) -> bool {
    match c {
        Some(c) => match sync::graph_of(rv, c) {
            Some(g) => commit_hashed(rv, timestamp, data::rewritten(g, f), name, p),
            None => true,
        },
        None => true,
    }
}

/// Whether `p` holds of the bytes of the next copy of a fork.
pub open spec fn copy_hashed(
    st: ForkState,
    timestamp: Timestamp,
    old: Seq<Seq<char>>,
    new: Seq<Seq<char>>,
    p: spec_fn(Seq<u8>) -> bool,
) -> bool {
    let d = st.left[sync::next_copied(st.rv, st.left, 0) as int];
    rewrite_hashed(
        st.rv,
        timestamp,
        st.rv.head(d),
        sync::to_copy(st.remap),
        sync::renamed_of(d, old, new),
        p,
    )
}

/// Whether `p` holds of the bytes of all that a fork commits.
pub open spec fn fork_hashed(
    rv: DataView,
    timestamp: Timestamp,
    old: Seq<Seq<char>>,
    new: Seq<Seq<char>>,
    p: spec_fn(Seq<u8>) -> bool,
) -> bool {
    let st = sync::fork_copied(rv, timestamp, old, new);
    &&& forall|k: nat|
        k < sync::fork_order(rv, old).len() ==> copy_hashed(
            #[trigger] sync::fork_all(sync::fork_start(rv, old, new), timestamp, old, new, k),
            timestamp,
            old,
            new,
            p,
        )
    &&& rewrite_hashed(st.rv, timestamp, st.rv.head(new), sync::to_copy(st.remap), new, p)
}

/// What a fork keeps of content addressing.
spec fn fork_in_place(
    st: ForkState,
    old: Seq<Seq<char>>,
    new: Seq<Seq<char>>,
    p: spec_fn(Seq<u8>) -> bool,
) -> bool {
    &&& addressed(st.rv, p)
    &&& forall|d: Seq<Seq<char>>| #[trigger]
        st.left.contains(d) ==> plain(sync::renamed_of(d, old, new))
    &&& forall|d: Seq<Seq<char>>| #[trigger] st.remap.contains_key(d) ==> plain(st.remap[d].0)
}

proof fn lemma_rewrite_in_place(
    st: ForkState,
    timestamp: Timestamp,
    c: Option<CommitAddr>,
    name: Seq<Seq<char>>,
    old: Seq<Seq<char>>,
    new: Seq<Seq<char>>,
    p: spec_fn(Seq<u8>) -> bool,
)
    requires
        told_apart(p),
        fork_in_place(st, old, new, p),
        rewrite_hashed(st.rv, timestamp, c, sync::to_copy(st.remap), name, p),
    ensures
        fork::rewrite_unmet(st.rv, c, sync::to_copy(st.remap)),
        fork::rewrite_commit_unmet(st.rv, timestamp, c, sync::to_copy(st.remap), name),
        c is Some && sync::graph_of(st.rv, c->0) is Some ==> ({
            let h = data::rewritten(sync::graph_of(st.rv, c->0)->0, sync::to_copy(st.remap));
            addressed(st.rv.with_graph_on(timestamp, data::data_addr(h), h, name), p)
        }),
{
    if c is Some && sync::graph_of(st.rv, c->0) is Some {
        let f = sync::to_copy(st.remap);
        let g = sync::graph_of(st.rv, c->0)->0;
        lemma_rewritten_fits(g, f);
        lemma_commit_addressed(st.rv, timestamp, data::rewritten(g, f), name, p);
    }
}

proof fn lemma_fork_in_place(
    rv: DataView,
    timestamp: Timestamp,
    old: Seq<Seq<char>>,
    new: Seq<Seq<char>>,
    p: spec_fn(Seq<u8>) -> bool,
    k: nat,
)
    requires
        told_apart(p),
        addressed(rv, p),
        forall|d: Seq<Seq<char>>| #[trigger]
            sync::fork_order(rv, old).contains(d) ==> plain(sync::renamed_of(d, old, new)),
        fork_hashed(rv, timestamp, old, new, p),
        k <= sync::fork_order(rv, old).len(),
    ensures
        fork_in_place(
            sync::fork_all(sync::fork_start(rv, old, new), timestamp, old, new, k),
            old,
            new,
            p,
        ),
    decreases k,
{
    let st0 = sync::fork_start(rv, old, new);
    if k > 0 {
        lemma_fork_in_place(rv, timestamp, old, new, p, (k - 1) as nat);
        fork::lemma_left(st0, timestamp, old, new, (k - 1) as nat);
        let st = sync::fork_all(st0, timestamp, old, new, (k - 1) as nat);
        sync::lemma_next_copied(st.rv, st.left, 0);
        let i = sync::next_copied(st.rv, st.left, 0) as int;
        let d = st.left[i];
        assert(st.left.contains(d));
        fork::lemma_removed(st.left, i);
        assert(copy_hashed(st, timestamp, old, new, p));
        lemma_rewrite_in_place(
            st,
            timestamp,
            st.rv.head(d),
            sync::renamed_of(d, old, new),
            old,
            new,
            p,
        );
        let next = sync::fork_one(st, timestamp, old, new);
        assert(next.left == st.left.remove(i));
    }
}

/// In a registry whose content lies under its address, a fork stores nothing that meets
/// something else, as far as the hash tells apart the bytes of what is there and of what
/// the fork commits, and the names of the copies can be told from their texts.
pub proof fn law_content_addressed_fork_meets_nothing(
    rv: DataView,
    timestamp: Timestamp,
    old: Seq<Seq<char>>,
    new: Seq<Seq<char>>,
    p: spec_fn(Seq<u8>) -> bool,
)
    requires
        told_apart(p),
        addressed(rv, p),
        forall|d: Seq<Seq<char>>| #[trigger]
            sync::fork_order(rv, old).contains(d) ==> plain(sync::renamed_of(d, old, new)),
        fork_hashed(rv, timestamp, old, new, p),
    ensures
        fork::fork_unmet(rv, timestamp, old, new),
        fork::fork_commits_unmet(rv, timestamp, old, new),
{
    let st0 = sync::fork_start(rv, old, new);
    let n = sync::fork_order(rv, old).len();
    assert forall|k: nat| k < n implies fork::copy_unmet(
        #[trigger] sync::fork_all(st0, timestamp, old, new, k),
    ) && fork::copy_commit_unmet(
        sync::fork_all(st0, timestamp, old, new, k),
        timestamp,
        old,
        new,
    ) by {
        lemma_fork_in_place(rv, timestamp, old, new, p, k);
        let st = sync::fork_all(st0, timestamp, old, new, k);
        let d = st.left[sync::next_copied(st.rv, st.left, 0) as int];
        assert(copy_hashed(st, timestamp, old, new, p));
        lemma_rewrite_in_place(
            st,
            timestamp,
            st.rv.head(d),
            sync::renamed_of(d, old, new),
            old,
            new,
            p,
        );
    }
    lemma_fork_in_place(rv, timestamp, old, new, p, n);
    let st = sync::fork_copied(rv, timestamp, old, new);
    lemma_rewrite_in_place(st, timestamp, st.rv.head(new), new, old, new, p);
}

} // verus!
