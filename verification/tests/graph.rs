use gantz::addr::ContentAddr;
use gantz::edge::{Edge, Input, Output};
use gantz::graph::{addr, Graph};
use gantz::hash::content_addr;

type G = Graph<u32, u32>;

#[test]
fn addr_is_stable_across_hole_compaction() {
    let mut holey = G::new();
    let h0 = holey.add_node(10);
    let h1 = holey.add_node(20);
    let h2 = holey.add_node(30);
    let h3 = holey.add_node(40);
    holey.add_edge(h0, h2, 0);
    holey.add_edge(h2, h3, 1);
    holey.add_edge(h0, h1, 2);
    assert_eq!(holey.remove_node(h1), Some(20));

    let mut compact = G::new();
    let c0 = compact.add_node(10);
    let c1 = compact.add_node(30);
    let c2 = compact.add_node(40);
    compact.add_edge(c0, c1, 0);
    compact.add_edge(c1, c2, 1);

    assert_eq!(addr(&holey), addr(&compact));
}

#[test]
fn addr_is_deterministic_and_structure_sensitive() {
    let build = |rev: bool| {
        let mut g = G::new();
        let n0 = g.add_node(1);
        let n1 = g.add_node(2);
        if rev {
            g.add_edge(n1, n0, 0);
        } else {
            g.add_edge(n0, n1, 0);
        }
        g
    };
    assert_eq!(addr(&build(false)), addr(&build(false)));
    assert_ne!(addr(&build(false)), addr(&build(true)));
}

#[test]
fn addr_ignores_the_order_of_edges() {
    let build = |flip: bool| {
        let mut g: Graph<u32, Edge> = Graph::new();
        let a = g.add_node(1);
        let b = g.add_node(2);
        let mut edges = vec![
            (a, b, Edge::new(Output(0), Input(0))),
            (a, b, Edge::new(Output(1), Input(0))),
            (b, a, Edge::new(Output(0), Input(3))),
        ];
        if flip {
            edges.reverse();
        }
        for (s, t, w) in edges {
            g.add_edge(s, t, w);
        }
        g
    };
    assert_eq!(addr(&build(false)), addr(&build(true)));
}

#[test]
fn addresses_are_digests_of_tagged_bytes() {
    let mut g = G::new();
    let a = g.add_node(7);
    let b = g.add_node(8);
    g.add_edge(a, b, 5);
    let node = |n: u32| *blake3::hash(&n.to_be_bytes()).as_bytes();
    let mut bytes = b"gantz.graph".to_vec();
    for (rank, n) in [(0u64, 7u32), (1, 8)] {
        bytes.extend(rank.to_be_bytes());
        bytes.extend(node(n));
    }
    bytes.extend(0u64.to_be_bytes());
    bytes.extend(1u64.to_be_bytes());
    bytes.extend(5u32.to_be_bytes());
    assert_eq!(addr(&g).0, ContentAddr(*blake3::hash(&bytes).as_bytes()));
    assert_eq!(content_addr(&7u32), ContentAddr(node(7)));
}

#[test]
fn removing_a_vacant_node_changes_nothing() {
    let mut g = G::new();
    let a = g.add_node(1);
    let b = g.add_node(2);
    g.add_edge(a, b, 0);
    assert_eq!(g.remove_node(9), None);
    assert_eq!(g.edges.len(), 1);
    assert_eq!(g.remove_node(b), Some(2));
    assert_eq!(g.remove_node(b), None);
    assert!(g.edges.is_empty());
}
