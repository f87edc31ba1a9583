use gantz::addr::ContentAddr;
use gantz::commit::{Commit, CommitAddr, Timestamp};
use gantz::graph::{GraphAddr, RawGraph};
use gantz::head::Head;
use gantz::name::Name;
use gantz::order::Key;
use gantz::reach::LiveSet;
use gantz::registry::{
    BlobLiveness, Liveness, MergePolicy, Payload, Registry, Section, SectionKey, Value, HEADS_ID,
};
use gantz::saving::{save_registry_incremental, PersistedRegistry};
use gantz::storage::{self, BatchWriter, Load, Manifest, Save, Stored};
use gantz::table::Table;
use gantz::{loading::load_registry, prune};
use std::collections::HashMap;

type Reg = Registry<RawGraph>;

/// A key-value store that records the keys written to it.
struct MockStore {
    map: HashMap<String, Stored<RawGraph>>,
    writes: Vec<String>,
}

impl MockStore {
    fn new() -> Self {
        MockStore { map: HashMap::new(), writes: Vec::new() }
    }

    fn take_writes(&mut self) -> Vec<String> {
        std::mem::take(&mut self.writes)
    }
}

fn dup(v: &Stored<RawGraph>) -> Stored<RawGraph> {
    match v {
        Stored::Graph(g) => Stored::Graph(g.dup()),
        Stored::Commit(c) => Stored::Commit(c.dup()),
        Stored::GraphAddrs(s) => Stored::GraphAddrs(s.clone()),
        Stored::CommitAddrs(s) => Stored::CommitAddrs(s.clone()),
        Stored::Manifest(s) => Stored::Manifest(
            s.iter()
                .map(|m| Manifest {
                    section: m.section.clone(),
                    liveness: m.liveness,
                    addrs: m.addrs.clone(),
                })
                .collect(),
        ),
        Stored::Section(s) => Stored::Section(s.dup()),
        Stored::SectionIndex(s) => Stored::SectionIndex(s.clone()),
        Stored::Blob(s) => Stored::Blob(s.clone()),
        Stored::Heads(s) => Stored::Heads(s.iter().map(|h| h.dup()).collect()),
        Stored::Head(h) => Stored::Head(h.dup()),
    }
}

impl Save<RawGraph> for MockStore {
    type Err = ();

    fn set_stored(&mut self, key: String, value: Stored<RawGraph>) -> Result<(), ()> {
        self.writes.push(key.clone());
        self.map.insert(key, value);
        Ok(())
    }
}

impl Load<RawGraph> for MockStore {
    type Err = ();

    fn get_stored(&self, key: &String) -> Result<Option<Stored<RawGraph>>, ()> {
        Ok(self.map.get(key).map(dup))
    }
}

fn graph_addr(n: u8) -> GraphAddr {
    GraphAddr(ContentAddr([n; 32]))
}

fn commit_addr(n: u8) -> CommitAddr {
    CommitAddr(ContentAddr([n; 32]))
}

fn name(s: &str) -> Name {
    Name::parse(s)
}

fn wrote(writes: &[String], key: &str) -> bool {
    writes.iter().any(|w| w == key)
}

fn heads_key() -> String {
    storage::section(&HEADS_ID.to_string())
}

fn graph_key(n: u8) -> String {
    storage::graph(&graph_addr(n))
}

fn commit_key(n: u8) -> String {
    storage::commit(&commit_addr(n))
}

fn registry(graphs: &[(u8, u8)], heads: &[(&str, u8)]) -> Reg {
    let mut g: Table<GraphAddr, RawGraph> = Table::new();
    let mut c: Table<CommitAddr, Commit> = Table::new();
    for &(ga, ca) in graphs {
        g.insert(graph_addr(ga), RawGraph::new(graph_addr(ga), Vec::new()));
        let t = Timestamp { secs: ca as u64, nanos: 0 };
        c.insert(commit_addr(ca), Commit::new(t, None, graph_addr(ga)));
    }
    let h = heads.iter().map(|&(n, ca)| (name(n), commit_addr(ca))).collect();
    Registry::from_parts(g, c, h)
}

fn set_view(reg: &mut Reg, commit: u8, value: u8) {
    reg.set_section_value(
        "egui.view".to_string(),
        MergePolicy::KeepExisting,
        Liveness::WithCommit,
        SectionKey::Commit(commit_addr(commit)),
        Value::Datum(vec![value]),
    );
}

fn sections_same(a: &Reg, b: &Reg) -> bool {
    let x: &Vec<(String, Section)> = a.sections.entries();
    let y: &Vec<(String, Section)> = b.sections.entries();
    x.len() == y.len() && x.iter().zip(y).all(|(s, t)| s.0 == t.0 && s.1.same(&t.1))
}

fn commits_same(a: &Reg, b: &Reg) -> bool {
    let x = a.commits.entries();
    let y = b.commits.entries();
    x.len() == y.len()
        && x.iter().zip(y).all(|(s, t)| {
            s.0 == t.0
                && s.1.timestamp == t.1.timestamp
                && s.1.parent == t.1.parent
                && s.1.graph == t.1.graph
                && s.1.merge_parents == t.1.merge_parents
        })
}

fn blobs_same(a: &Reg, b: &Reg) -> bool {
    let x = a.blobs.entries();
    let y = b.blobs.entries();
    x.len() == y.len()
        && x.iter().zip(y).all(|(s, t)| {
            s.0 == t.0
                && s.1.liveness == t.1.liveness
                && s.1.entries.entries() == t.1.entries.entries()
        })
}

#[test]
fn first_save_writes_all_content_indices_and_sections() {
    let reg = registry(&[(1, 11), (2, 12)], &[("alpha", 11)]);
    let mut persisted = PersistedRegistry::new();
    let mut store = MockStore::new();
    save_registry_incremental(&mut store, &reg, &mut persisted);
    let writes = store.take_writes();
    assert!(wrote(&writes, &graph_key(1)));
    assert!(wrote(&writes, &graph_key(2)));
    assert!(wrote(&writes, storage::GRAPH_ADDRS));
    assert!(wrote(&writes, &commit_key(11)));
    assert!(wrote(&writes, &commit_key(12)));
    assert!(wrote(&writes, storage::COMMIT_ADDRS));
    assert!(wrote(&writes, &heads_key()));
    assert!(wrote(&writes, storage::SECTION_INDEX));
    // No blobs, so no manifest.
    assert!(!wrote(&writes, storage::BLOB_MANIFEST));
}

#[test]
fn resave_unchanged_writes_nothing() {
    let mut reg = registry(&[(1, 11), (2, 12)], &[("alpha", 11)]);
    set_view(&mut reg, 11, 1);
    reg.add_blob("dsp.buffer".to_string(), BlobLiveness::Pinned, b"pcm".to_vec());
    let mut persisted = PersistedRegistry::new();
    let mut store = MockStore::new();
    save_registry_incremental(&mut store, &reg, &mut persisted);
    store.take_writes();
    save_registry_incremental(&mut store, &reg, &mut persisted);
    assert!(store.take_writes().is_empty());
}

#[test]
fn adding_graph_and_commit_writes_only_the_new_ones() {
    let mut persisted = PersistedRegistry::new();
    let mut store = MockStore::new();
    save_registry_incremental(
        &mut store,
        &registry(&[(1, 11)], &[("alpha", 11)]),
        &mut persisted,
    );
    store.take_writes();
    let reg = registry(&[(1, 11), (2, 12)], &[("alpha", 11)]);
    save_registry_incremental(&mut store, &reg, &mut persisted);
    let writes = store.take_writes();
    assert!(wrote(&writes, &graph_key(2)));
    assert!(wrote(&writes, &commit_key(12)));
    assert!(wrote(&writes, storage::GRAPH_ADDRS));
    assert!(wrote(&writes, storage::COMMIT_ADDRS));
    // Content and sections that are on disk are not written again.
    assert!(!wrote(&writes, &graph_key(1)));
    assert!(!wrote(&writes, &commit_key(11)));
    assert!(!wrote(&writes, &heads_key()));
    assert!(!wrote(&writes, storage::SECTION_INDEX));
}

#[test]
fn changing_one_section_entry_writes_only_that_section() {
    let mut reg = registry(&[(1, 11), (2, 12)], &[("alpha", 11)]);
    set_view(&mut reg, 11, 1);
    set_view(&mut reg, 12, 2);
    let mut persisted = PersistedRegistry::new();
    let mut store = MockStore::new();
    save_registry_incremental(&mut store, &reg, &mut persisted);
    store.take_writes();
    // One view entry moves; heads and content stay.
    set_view(&mut reg, 12, 3);
    save_registry_incremental(&mut store, &reg, &mut persisted);
    let writes = store.take_writes();
    assert_eq!(writes, vec![storage::section(&"egui.view".to_string())]);
}

#[test]
fn new_section_writes_the_section_and_the_index() {
    let mut reg = registry(&[(1, 11)], &[("alpha", 11)]);
    let mut persisted = PersistedRegistry::new();
    let mut store = MockStore::new();
    save_registry_incremental(&mut store, &reg, &mut persisted);
    store.take_writes();
    set_view(&mut reg, 11, 1);
    save_registry_incremental(&mut store, &reg, &mut persisted);
    let writes = store.take_writes();
    assert!(wrote(&writes, &storage::section(&"egui.view".to_string())));
    assert!(wrote(&writes, storage::SECTION_INDEX));
    assert_eq!(writes.len(), 2);
}

#[test]
fn new_blob_writes_the_blob_and_the_manifest() {
    let mut reg = registry(&[(1, 11)], &[("alpha", 11)]);
    let mut persisted = PersistedRegistry::new();
    let mut store = MockStore::new();
    save_registry_incremental(&mut store, &reg, &mut persisted);
    store.take_writes();
    let id = "dsp.buffer".to_string();
    let addr = reg.add_blob(id.clone(), BlobLiveness::Pinned, b"pcm".to_vec());
    save_registry_incremental(&mut store, &reg, &mut persisted);
    let writes = store.take_writes();
    assert!(wrote(&writes, &storage::blob(&id, &addr)));
    assert!(wrote(&writes, storage::BLOB_MANIFEST));
    assert_eq!(writes.len(), 2);
}

#[test]
fn pruning_rewrites_indices_and_trims_tracker() {
    let mut reg = registry(&[(1, 11), (2, 12)], &[("alpha", 11)]);
    let mut persisted = PersistedRegistry::new();
    let mut store = MockStore::new();
    save_registry_incremental(&mut store, &reg, &mut persisted);
    store.take_writes();
    // Only commit 11 stays, and graph 1, which it refers to.
    let mut live = LiveSet::new();
    live.commits.insert(commit_addr(11));
    live.graphs.insert(graph_addr(1));
    prune::prune(&mut reg, &live);
    save_registry_incremental(&mut store, &reg, &mut persisted);
    let writes = store.take_writes();
    // There is nothing new to write, but both indices shrank.
    assert!(wrote(&writes, storage::GRAPH_ADDRS));
    assert!(wrote(&writes, storage::COMMIT_ADDRS));
    assert!(!wrote(&writes, &graph_key(1)));
    assert!(!wrote(&writes, &commit_key(11)));
    assert_eq!(persisted.graphs_len(), 1);
    assert_eq!(persisted.commits_len(), 1);
}

#[test]
fn load_round_trips_incremental_save() {
    let mut reg = registry(&[(1, 11), (2, 12)], &[("alpha", 11)]);
    set_view(&mut reg, 11, 7);
    reg.add_blob("dsp.buffer".to_string(), BlobLiveness::Pinned, b"pcm".to_vec());
    let mut persisted = PersistedRegistry::new();
    let mut store = MockStore::new();
    save_registry_incremental(&mut store, &reg, &mut persisted);
    let loaded: Reg = load_registry(&store);
    assert_eq!(loaded.graphs.len(), reg.graphs.len());
    assert!(commits_same(&loaded, &reg));
    assert!(sections_same(&loaded, &reg));
    assert!(blobs_same(&loaded, &reg));
    assert_eq!(loaded.head(&name("alpha")), Some(commit_addr(11)));
}

#[test]
fn batch_writer_collects_pairs_and_take_empties() {
    let reg = registry(&[(1, 11)], &[("alpha", 11)]);
    let mut persisted = PersistedRegistry::new();
    let mut batch: BatchWriter<RawGraph> = BatchWriter::new();
    save_registry_incremental(&mut batch, &reg, &mut persisted);

    let keys: Vec<String> = batch.writes.iter().map(|(k, _)| k.clone()).collect();
    assert!(keys.contains(&graph_key(1)));
    assert!(keys.contains(&commit_key(11)));
    assert!(keys.contains(&storage::GRAPH_ADDRS.to_string()));
    assert!(keys.contains(&storage::COMMIT_ADDRS.to_string()));
    assert!(keys.contains(&heads_key()));
    // The values are those that a store would be given.
    let (_, heads) = batch
        .writes
        .iter()
        .find(|(k, _)| *k == heads_key())
        .expect("heads section written");
    let section = reg.section(&HEADS_ID.to_string()).expect("heads section");
    assert!(matches!(heads, Stored::Section(s) if s.same(section)));

    // `take` hands the buffer over and leaves it empty.
    let taken = batch.take();
    assert!(!taken.is_empty());
    assert!(batch.writes.is_empty());
}

#[test]
fn section_value_forms_round_trip() {
    let mut reg = registry(&[(1, 11)], &[("alpha", 11)]);
    let id = "dsp.buffer".to_string();
    let blob_addr = reg.add_blob(id.clone(), BlobLiveness::SectionReferenced, b"pcm".to_vec());
    reg.set_section_value(
        "dsp.meta".to_string(),
        MergePolicy::KeepExisting,
        Liveness::Pinned,
        SectionKey::Addr(blob_addr),
        Value::Blob(id.clone(), blob_addr),
    );
    reg.set_section_value(
        "test.pin".to_string(),
        MergePolicy::KeepExisting,
        Liveness::Pinned,
        SectionKey::Name(name("alpha")),
        Value::Commit(commit_addr(11)),
    );
    let mut persisted = PersistedRegistry::new();
    let mut store = MockStore::new();
    save_registry_incremental(&mut store, &reg, &mut persisted);
    let loaded: Reg = load_registry(&store);
    assert!(sections_same(&loaded, &reg));
    assert_eq!(loaded.blob(&id, &blob_addr), Some(&b"pcm".to_vec()));
}

#[test]
fn keys_spell_addresses_in_hex() {
    let a = "ab".repeat(32);
    assert_eq!(graph_key(0xab), format!("o/g/{a}"));
    assert_eq!(commit_key(0xab), format!("o/c/{a}"));
    let id = "dsp.buffer".to_string();
    assert_eq!(
        storage::blob(&id, &ContentAddr([0xab; 32])),
        format!("b/dsp.buffer/{a}")
    );
    assert_eq!(heads_key(), "ns/heads");
}

#[test]
fn blobs_are_written_in_base64() {
    for (bytes, text) in [
        (&b"pcm"[..], "cGNt"),
        (&b"p"[..], "cA=="),
        (&b"pc"[..], "cGM="),
        (&[0xfb, 0xff, 0xfe, 0x3e][..], "+//+Pg=="),
        (&b""[..], ""),
    ] {
        let mut reg = registry(&[], &[]);
        let id = "dsp.buffer".to_string();
        let addr = reg.add_blob(id.clone(), BlobLiveness::Pinned, bytes.to_vec());
        let mut batch: BatchWriter<RawGraph> = BatchWriter::new();
        save_registry_incremental(&mut batch, &reg, &mut PersistedRegistry::new());
        let key = storage::blob(&id, &addr);
        let (_, v) = batch.writes.iter().find(|(k, _)| *k == key).unwrap();
        assert!(matches!(v, Stored::Blob(s) if s == text));
    }
}

#[test]
fn damaged_blob_text_is_left_out() {
    let mut reg = registry(&[], &[]);
    let id = "dsp.buffer".to_string();
    let addr = reg.add_blob(id.clone(), BlobLiveness::Pinned, b"pcm".to_vec());
    let mut store = MockStore::new();
    save_registry_incremental(&mut store, &reg, &mut PersistedRegistry::new());
    let key = storage::blob(&id, &addr);
    store.map.insert(key.clone(), Stored::Blob("cGN".to_string()));
    let loaded: Reg = load_registry(&store);
    assert!(loaded.blobs.is_empty());
    // Other bytes land under their own address.
    store.map.insert(key, Stored::Blob("cGM=".to_string()));
    let loaded: Reg = load_registry(&store);
    assert!(loaded.blob(&id, &addr).is_none());
    assert_eq!(loaded.blobs.len(), 1);
}

#[test]
fn open_heads_and_focus_round_trip() {
    let mut store = MockStore::new();
    assert!(storage::load_open_heads::<RawGraph, MockStore>(&store).is_none());
    assert!(storage::load_focused_head::<RawGraph, MockStore>(&store).is_none());
    let heads = vec![Head::Branch(name("alpha")), Head::Commit(commit_addr(3))];
    storage::save_open_heads::<RawGraph, MockStore>(&mut store, &heads);
    storage::save_focused_head::<RawGraph, MockStore>(&mut store, &heads[1]);
    let loaded = storage::load_open_heads::<RawGraph, MockStore>(&store).unwrap();
    assert_eq!(loaded.len(), 2);
    assert!(matches!(&loaded[0], Head::Branch(n) if n.same(&name("alpha"))));
    assert!(matches!(&loaded[1], Head::Commit(c) if *c == commit_addr(3)));
    let focused = storage::load_focused_head::<RawGraph, MockStore>(&store).unwrap();
    assert!(matches!(focused, Head::Commit(c) if c == commit_addr(3)));
}
