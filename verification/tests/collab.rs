use gantz::addr::ContentAddr;
use gantz::commit::{commit_addr, Commit, CommitAddr, Timestamp};
use gantz::graph::{GraphAddr, RawGraph};
use gantz::name::Name;
use gantz::order::Key;
use gantz::proto::{heads_digest, Object, ObjectRef, Want, WireCommit};
use gantz::registry::{BlobLiveness, Registry};
use gantz::session::{Access, PeerId, Session, SessionId};
use gantz::store::{merge, objects, snapshot, SessionEntry, SessionRegistry};
use gantz::table::Table;

fn name(s: &str) -> Name {
    Name::parse(s)
}

fn graph_addr(n: u8) -> GraphAddr {
    GraphAddr(ContentAddr([n; 32]))
}

fn secs(secs: u64) -> Timestamp {
    Timestamp { secs, nanos: 0 }
}

/// A store with one head over a chain of two commits and their graphs.
fn test_store() -> (SessionRegistry, CommitAddr, CommitAddr) {
    let mut store: SessionRegistry = Registry::new();
    let root = Commit::new(secs(1), None, graph_addr(1));
    let root_ca = commit_addr(&root);
    let tip = Commit::new(secs(2), Some(root_ca), graph_addr(2));
    let tip_ca = commit_addr(&tip);
    merge(
        &mut store,
        vec![(name("jam"), tip_ca)],
        vec![(root_ca, root), (tip_ca, tip)],
        vec![
            RawGraph::new(graph_addr(1), b"g1".to_vec()),
            RawGraph::new(graph_addr(2), b"g2".to_vec()),
        ],
    );
    (store, root_ca, tip_ca)
}

#[test]
fn heads_digest_is_order_independent_and_content_sensitive() {
    let ca = |n: u8| CommitAddr(ContentAddr([n; 32]));
    let mut a: Table<String, CommitAddr> = Table::new();
    a.insert("a".to_string(), ca(1));
    a.insert("b".to_string(), ca(2));
    let mut b: Table<String, CommitAddr> = Table::new();
    b.insert("b".to_string(), ca(2));
    b.insert("a".to_string(), ca(1));
    assert_eq!(heads_digest(&a), heads_digest(&b));
    let mut c: Table<String, CommitAddr> = Table::new();
    c.insert("a".to_string(), ca(9));
    assert_ne!(heads_digest(&a), heads_digest(&c));
}

#[test]
fn heads_digest_hashes_lengths_names_and_tips() {
    let mut heads: Table<String, CommitAddr> = Table::new();
    heads.insert("b".to_string(), CommitAddr(ContentAddr([2; 32])));
    heads.insert("\u{e4}".to_string(), CommitAddr(ContentAddr([3; 32])));
    let mut bytes = Vec::new();
    bytes.extend(1u64.to_be_bytes());
    bytes.extend(b"b");
    bytes.extend([2; 32]);
    bytes.extend(2u64.to_be_bytes());
    bytes.extend("\u{e4}".as_bytes());
    bytes.extend([3; 32]);
    assert_eq!(heads_digest(&heads), *blake3::hash(&bytes).as_bytes());
}

#[test]
fn merge_is_idempotent() {
    let (mut store, root_ca, tip_ca) = test_store();
    let root = store.commit(&root_ca).unwrap().dup();
    let tip = store.commit(&tip_ca).unwrap().dup();
    let report = merge(
        &mut store,
        vec![(name("jam"), tip_ca)],
        vec![(root_ca, root), (tip_ca, tip)],
        vec![RawGraph::new(graph_addr(1), b"g1".to_vec())],
    );
    assert!(report.heads_added.is_empty());
    assert!(report.heads_replaced.is_empty());
    assert_eq!(store.commits.len(), 2);
    assert_eq!(store.graphs.len(), 2);
}

#[test]
fn merge_repoints_heads() {
    let (mut store, root_ca, tip_ca) = test_store();
    let report = merge(&mut store, vec![(name("jam"), root_ca)], vec![], vec![]);
    assert_eq!(report.heads_replaced.len(), 1);
    let (n, from, to) = &report.heads_replaced[0];
    assert!(n.same(&name("jam")));
    assert_eq!((*from, *to), (tip_ca, root_ca));
    assert_eq!(store.head(&name("jam")), Some(root_ca));
}

#[test]
fn merge_reports_new_heads() {
    let (mut store, root_ca, _) = test_store();
    let report = merge(&mut store, vec![(name("solo"), root_ca)], vec![], vec![]);
    assert_eq!(report.heads_added.len(), 1);
    assert!(report.heads_added[0].0.same(&name("solo")));
    assert_eq!(report.heads_added[0].1, root_ca);
    assert!(report.heads_replaced.is_empty());
}

#[test]
fn objects_filters_to_present() {
    let (store, root_ca, _tip_ca) = test_store();
    let absent_ca = CommitAddr(ContentAddr([9; 32]));
    let want = Want {
        refs: vec![
            ObjectRef::Commit(root_ca),
            ObjectRef::Commit(absent_ca),
            ObjectRef::Graph(graph_addr(1)),
            ObjectRef::Graph(graph_addr(9)),
            ObjectRef::Blob { section: "dsp.buffer".to_string(), addr: ContentAddr([9; 32]) },
        ],
    };
    let objects = objects(&store, &want).objects;
    assert_eq!(objects.len(), 2);
    assert!(matches!(&objects[0], Object::Commit(ca, _) if *ca == root_ca));
    assert!(
        matches!(&objects[1], Object::Graph(ga, bytes) if *ga == graph_addr(1) && bytes == b"g1")
    );
}

#[test]
fn objects_serves_blobs() {
    let (mut store, _root_ca, _tip_ca) = test_store();
    let id = "dsp.buffer".to_string();
    let addr = store.add_blob(id.clone(), BlobLiveness::ContentReferenced, b"pcm".to_vec());
    let want = Want { refs: vec![ObjectRef::Blob { section: id.clone(), addr }] };
    let objects = objects(&store, &want).objects;
    assert_eq!(objects.len(), 1);
    let Object::Blob { section, liveness, addr: a, bytes } = &objects[0] else {
        panic!("expected a blob");
    };
    assert_eq!(*section, id);
    assert_eq!(*liveness, BlobLiveness::ContentReferenced);
    assert_eq!(*a, addr);
    assert_eq!(*bytes, b"pcm".to_vec());
}

#[test]
fn snapshot_round_trips() {
    let (mut store, _root_ca, tip_ca) = test_store();
    let id = "dsp.buffer".to_string();
    store.add_blob(id.clone(), BlobLiveness::ContentReferenced, b"pcm".to_vec());
    let (heads, objects) = snapshot(&store);
    assert_eq!(heads.len(), 1);
    assert!(heads[0].0.same(&name("jam")));
    assert_eq!(heads[0].1, tip_ca);
    // A store is rebuilt from the snapshot's objects.
    let mut rebuilt: SessionRegistry = Registry::new();
    let mut commits = Vec::new();
    let mut graphs = Vec::new();
    for object in objects.objects {
        match object {
            Object::Commit(ca, c) => commits.push((ca, Commit::from(c))),
            Object::Graph(ga, bytes) => graphs.push(RawGraph::new(ga, bytes)),
            Object::Blob { section, liveness, bytes, .. } => {
                rebuilt.add_blob(section, liveness, bytes);
            }
        }
    }
    merge(&mut rebuilt, heads, commits, graphs);
    let a = rebuilt.commits.entries();
    let b = store.commits.entries();
    assert_eq!(a.len(), b.len());
    for (x, y) in a.iter().zip(b) {
        assert_eq!(x.0, y.0);
        assert_eq!(commit_addr(&x.1), commit_addr(&y.1));
    }
    let a = rebuilt.graphs.entries();
    let b = store.graphs.entries();
    assert_eq!(a.len(), b.len());
    for (x, y) in a.iter().zip(b) {
        assert_eq!((x.0, x.1.addr, &x.1.bytes), (y.0, y.1.addr, &y.1.bytes));
    }
    let a = rebuilt.blobs.entries();
    let b = store.blobs.entries();
    assert_eq!(a.len(), b.len());
    for (x, y) in a.iter().zip(b) {
        assert_eq!(x.0, y.0);
        assert_eq!(x.1.liveness, y.1.liveness);
        assert_eq!(x.1.entries.entries(), y.1.entries.entries());
    }
    let a = rebuilt.heads();
    let b = store.heads();
    assert_eq!(a.len(), b.len());
    for (x, y) in a.iter().zip(&b) {
        assert!(x.0.same(&y.0));
        assert_eq!(x.1, y.1);
    }
}

#[test]
fn wire_commits_keep_every_field() {
    let parent = CommitAddr(ContentAddr([7; 32]));
    let merged = CommitAddr(ContentAddr([8; 32]));
    let c = Commit {
        timestamp: secs(5),
        parent: Some(parent),
        graph: graph_addr(4),
        merge_parents: vec![merged],
    };
    let addr = commit_addr(&c);
    let wire = WireCommit::from(c);
    assert_eq!(wire.parent, Some(parent));
    assert_eq!(wire.merge_parents, vec![merged]);
    assert_eq!(commit_addr(&Commit::from(wire)), addr);
}

#[test]
fn nothing_wanted_is_empty() {
    assert!(Want { refs: vec![] }.is_empty());
    assert!(!Want { refs: vec![ObjectRef::Graph(graph_addr(1))] }.is_empty());
}

#[test]
fn access_admits_listed_peers() {
    let (a, b) = (PeerId([1; 32]), PeerId([2; 32]));
    let entry = |access: Access| SessionEntry {
        session: Session { id: SessionId([0; 32]), access },
        store: Registry::new(),
    };
    assert!(entry(Access::Public).allows(a));
    assert!(entry(Access::Restricted(vec![b, a])).allows(a));
    assert!(!entry(Access::Restricted(vec![b])).allows(a));
    assert!(!entry(Access::Restricted(vec![])).allows(a));
}
