use gantz::addr::ContentAddr;
use gantz::commit::{CommitAddr, Timestamp};
use gantz::graph::{GraphAddr, RawGraph};
use gantz::head::Head;
use gantz::live::{export_heads, live_for_heads, prune_unused, root_names};
use gantz::name::Name;
use gantz::order::Key;
use gantz::prune::{export, prune};
use gantz::reach::{closure, LiveSet, OutRefs};
use gantz::registry::{BlobLiveness, Liveness, MergePolicy, Registry, SectionKey, Value};
use gantz::table::Table;

fn graph_addr(n: u8) -> GraphAddr {
    GraphAddr(ContentAddr([n; 32]))
}

fn name(s: &str) -> Name {
    Name::parse(s)
}

fn secs(secs: u64) -> Timestamp {
    Timestamp { secs, nanos: 0 }
}

/// A registry whose graphs list the graphs nested in them, one byte for each.
type TestRegistry = Registry<RawGraph>;

fn out(g: &RawGraph) -> OutRefs {
    OutRefs {
        graphs: g.bytes.iter().map(|&n| graph_addr(n)).collect(),
        blobs: vec![],
    }
}

fn add_test_graph(reg: &mut TestRegistry, n: u8, nested: Vec<u8>) -> GraphAddr {
    let ga = graph_addr(n);
    reg.insert_graph_at(ga, RawGraph::new(ga, nested));
    ga
}

fn live_set(commits: &[CommitAddr], graphs: &[GraphAddr]) -> LiveSet {
    let mut live = LiveSet::new();
    for c in commits {
        live.commits.insert(*c);
    }
    for g in graphs {
        live.graphs.insert(*g);
    }
    live
}

fn insert_datum(reg: &mut TestRegistry, id: &str, liveness: Liveness, key: SectionKey, v: &[u8]) {
    reg.set_section_value(
        id.to_string(),
        MergePolicy::KeepExisting,
        liveness,
        key,
        Value::Datum(v.to_vec()),
    );
}

#[test]
fn closure_walks_heads_parents_and_nested_graphs() {
    let mut reg: TestRegistry = Registry::new();
    let nested = add_test_graph(&mut reg, 1, vec![]);
    let root_ga = add_test_graph(&mut reg, 2, vec![1]);
    let c1 = reg.commit_graph(secs(1), None, root_ga);
    let c2 = reg.commit_graph(secs(2), Some(c1), root_ga);
    reg.set_head(name("alpha"), c2);
    let dead_ga = add_test_graph(&mut reg, 3, vec![99]);
    let _dead = reg.commit_graph(secs(3), None, dead_ga);
    let live = closure(&reg, &vec![], out);
    assert!(live.commits.contains(&c1));
    assert!(live.commits.contains(&c2));
    assert!(live.graphs.contains(&root_ga));
    assert!(live.graphs.contains(&nested));
    assert!(!live.graphs.contains(&dead_ga));
    assert_eq!(live.commits.len(), 2);
}

#[test]
fn closure_takes_further_commits_and_tolerates_missing_ones() {
    let mut reg: TestRegistry = Registry::new();
    let ga = add_test_graph(&mut reg, 1, vec![1, 77]);
    let c = reg.commit_graph(secs(1), None, ga);
    let missing = CommitAddr(ContentAddr([5; 32]));
    let live = closure(&reg, &vec![c, missing], out);
    assert!(live.commits.contains(&c));
    assert!(!live.commits.contains(&missing));
    assert_eq!(live.commits.len(), 1);
    assert_eq!(live.graphs.len(), 1);
}

#[test]
fn graphs_stay_live_through_content_refs_without_commits() {
    let mut reg: TestRegistry = Registry::new();
    let nested = add_test_graph(&mut reg, 1, vec![]);
    let root_ga = add_test_graph(&mut reg, 2, vec![1]);
    let c = reg.commit_graph(secs(1), None, root_ga);
    reg.set_head(name("alpha"), c);
    let live = closure(&reg, &vec![], out);
    prune(&mut reg, &live);
    assert!(reg.graph(&nested).is_some());
}

#[test]
fn prune_drops_dead_content_and_sections_follow() {
    let mut reg: TestRegistry = Registry::new();
    let ga = add_test_graph(&mut reg, 1, vec![]);
    let live_c = reg.commit_graph(secs(1), None, ga);
    let dead_c = reg.commit_graph(secs(2), None, ga);
    reg.set_head(name("alpha"), live_c);
    for ca in [live_c, dead_c] {
        insert_datum(
            &mut reg,
            "test.view",
            Liveness::WithCommit,
            SectionKey::Commit(ca),
            b"view",
        );
    }
    let live = closure(&reg, &vec![], out);
    prune(&mut reg, &live);
    assert!(reg.commits.contains_key(&live_c));
    assert!(!reg.commits.contains_key(&dead_c));
    let section = reg.section(&"test.view".to_string()).unwrap();
    assert!(section.entries.contains_key(&SectionKey::Commit(live_c)));
    assert!(!section.entries.contains_key(&SectionKey::Commit(dead_c)));
}

#[test]
fn prune_detaches_pruned_parents() {
    let mut reg: TestRegistry = Registry::new();
    let ga = add_test_graph(&mut reg, 1, vec![]);
    let old = reg.commit_graph(secs(1), None, ga);
    let tip = reg.commit_graph(secs(2), Some(old), ga);
    reg.set_head(name("alpha"), tip);
    prune(&mut reg, &live_set(&[tip], &[ga]));
    assert!(!reg.commits.contains_key(&old));
    assert_eq!(reg.commit(&tip).unwrap().parent, None);
}

#[test]
fn prune_again_changes_nothing() {
    let mut reg: TestRegistry = Registry::new();
    let ga = add_test_graph(&mut reg, 1, vec![]);
    add_test_graph(&mut reg, 2, vec![]);
    let old = reg.commit_graph(secs(1), None, ga);
    let tip = reg.commit_graph(secs(2), Some(old), ga);
    reg.set_head(name("alpha"), tip);
    let live = live_set(&[tip], &[ga]);
    prune(&mut reg, &live);
    let counts = (reg.graphs.len(), reg.commits.len(), reg.sections.len());
    assert_eq!(counts, (1, 1, 1));
    prune(&mut reg, &live);
    assert_eq!((reg.graphs.len(), reg.commits.len(), reg.sections.len()), counts);
    assert_eq!(reg.head(&name("alpha")), Some(tip));
}

#[test]
fn blob_liveness_follows_content_refs() {
    let mut reg: TestRegistry = Registry::new();
    let store = "dsp.buffer".to_string();
    let used = reg.add_blob(store.clone(), BlobLiveness::ContentReferenced, b"used".to_vec());
    let unused = reg.add_blob(store.clone(), BlobLiveness::ContentReferenced, b"unused".to_vec());
    let ga = add_test_graph(&mut reg, 1, vec![]);
    let c = reg.commit_graph(secs(1), None, ga);
    reg.set_head(name("alpha"), c);
    let graph_out = |_: &RawGraph| OutRefs {
        graphs: vec![],
        blobs: vec![("dsp.buffer".to_string(), used)],
    };
    let live = closure(&reg, &vec![], graph_out);
    assert!(live.blob_live(&store, &used));
    assert!(!live.blob_live(&store, &unused));
    prune(&mut reg, &live);
    assert!(reg.blob(&store, &used).is_some());
    assert!(reg.blob(&store, &unused).is_none());
}

#[test]
fn blobs_are_addressed_by_their_bytes() {
    let mut reg: TestRegistry = Registry::new();
    let a = reg.add_blob("s".to_string(), BlobLiveness::Pinned, b"used".to_vec());
    assert_eq!(a, ContentAddr(*blake3::hash(b"used").as_bytes()));
    assert_eq!(reg.blob(&"s".to_string(), &a), Some(&b"used".to_vec()));
    let live = closure(&reg, &vec![], out);
    assert!(live.blob_live(&"s".to_string(), &a));
}

#[test]
fn blob_liveness_follows_section_values() {
    let mut reg: TestRegistry = Registry::new();
    let store = "ui.assets".to_string();
    let pinned_by_section =
        reg.add_blob(store.clone(), BlobLiveness::SectionReferenced, b"icon".to_vec());
    let orphan = reg.add_blob(store.clone(), BlobLiveness::SectionReferenced, b"old".to_vec());
    let ga = add_test_graph(&mut reg, 1, vec![]);
    let c = reg.commit_graph(secs(1), None, ga);
    reg.set_head(name("alpha"), c);
    reg.set_section_value(
        "test.icons".to_string(),
        MergePolicy::KeepExisting,
        Liveness::WithName,
        SectionKey::Name(name("alpha")),
        Value::Blob(store.clone(), pinned_by_section),
    );
    let live = closure(&reg, &vec![], out);
    assert!(live.blob_live(&store, &pinned_by_section));
    assert!(!live.blob_live(&store, &orphan));
}

#[test]
fn export_filters_heads_to_exported_commits() {
    let mut reg: TestRegistry = Registry::new();
    let ga = add_test_graph(&mut reg, 1, vec![]);
    let ca = reg.commit_graph(secs(1), None, ga);
    let cb = reg.commit_graph(secs(2), None, ga);
    reg.set_head(name("alpha"), ca);
    reg.set_head(name("beta"), cb);
    let exported = export(&reg, &live_set(&[ca], &[ga]));
    assert_eq!(exported.head(&name("alpha")), Some(ca));
    assert_eq!(exported.head(&name("beta")), None);
    assert!(exported.commits.contains_key(&ca));
    assert!(!exported.commits.contains_key(&cb));
    assert_eq!(reg.head(&name("beta")), Some(cb));
}

#[test]
fn export_keeps_with_name_metadata_for_exported_heads_only() {
    let mut reg: TestRegistry = Registry::new();
    let ga = add_test_graph(&mut reg, 1, vec![]);
    let ca = reg.commit_graph(secs(1), None, ga);
    let cb = reg.commit_graph(secs(2), None, ga);
    reg.set_head(name("alpha"), ca);
    reg.set_head(name("beta"), cb);
    for n in ["alpha", "beta"] {
        insert_datum(
            &mut reg,
            "test.description",
            Liveness::WithName,
            SectionKey::Name(name(n)),
            format!("doc for {n}").as_bytes(),
        );
    }
    let exported = export(&reg, &live_set(&[ca], &[ga]));
    let section = exported.section(&"test.description".to_string()).unwrap();
    assert!(section.entries.contains_key(&SectionKey::Name(name("alpha"))));
    assert!(!section.entries.contains_key(&SectionKey::Name(name("beta"))));
}

#[test]
fn unknown_section_survives_export_and_merge() {
    let mut reg: TestRegistry = Registry::new();
    let ga = add_test_graph(&mut reg, 1, vec![]);
    let ca = reg.commit_graph(secs(1), None, ga);
    reg.set_head(name("alpha"), ca);
    insert_datum(
        &mut reg,
        "laser.palette",
        Liveness::Pinned,
        SectionKey::Name(name("show")),
        &[255, 0, 128],
    );
    let live = closure(&reg, &vec![], out);
    let exported = export(&reg, &live);
    assert!(exported.section(&"laser.palette".to_string()).is_some());
    let mut other: TestRegistry = Registry::new();
    other.merge(exported);
    let section = other.section(&"laser.palette".to_string()).unwrap();
    assert_eq!(section.entries.len(), 1);
    assert_eq!(section.liveness, Liveness::Pinned);
}

#[test]
fn export_of_nothing_is_empty() {
    let mut reg: TestRegistry = Registry::new();
    let ga = add_test_graph(&mut reg, 1, vec![]);
    let ca = reg.commit_graph(secs(1), None, ga);
    reg.set_head(name("alpha"), ca);
    let exported = export(&reg, &LiveSet::new());
    assert!(exported.commits.is_empty());
    assert!(exported.graphs.is_empty());
    assert_eq!(exported.head(&name("alpha")), None);
    assert!(exported.sections.is_empty());
}

#[test]
fn merge_keeps_or_takes_by_policy() {
    let key = || SectionKey::Name(name("n"));
    let datum = |r: &TestRegistry, id: &str| match r
        .section(&id.to_string())
        .and_then(|s| s.entries.get(&key()))
    {
        Some(Value::Datum(d)) => d.clone(),
        _ => panic!("no datum"),
    };
    let mut a: TestRegistry = Registry::new();
    let mut b: TestRegistry = Registry::new();
    for (reg, v) in [(&mut a, 1u8), (&mut b, 2u8)] {
        insert_datum(reg, "keep", Liveness::Pinned, key(), &[v]);
        reg.set_section_value(
            "take".to_string(),
            MergePolicy::TakeIncoming,
            Liveness::Pinned,
            key(),
            Value::Datum(vec![v]),
        );
    }
    a.merge(b);
    assert_eq!(datum(&a, "keep"), vec![1]);
    assert_eq!(datum(&a, "take"), vec![2]);
}

#[test]
fn live_for_heads_leaves_other_heads_out() {
    let mut reg: TestRegistry = Registry::new();
    let ga = add_test_graph(&mut reg, 1, vec![]);
    let gb = add_test_graph(&mut reg, 2, vec![]);
    let ca = reg.commit_graph(secs(1), None, ga);
    let cb = reg.commit_graph(secs(2), None, gb);
    reg.set_head(name("alpha"), ca);
    reg.set_head(name("beta"), cb);
    let heads = vec![Head::Branch(name("alpha")), Head::Branch(name("gone"))];
    let live = live_for_heads(&reg, &heads, out);
    assert!(live.commits.contains(&ca));
    assert!(!live.commits.contains(&cb));
    let exported = export_heads(&reg, &heads, out);
    assert_eq!(exported.head(&name("alpha")), Some(ca));
    assert_eq!(exported.head(&name("beta")), None);
    assert!(exported.graph(&gb).is_none());
}

#[test]
fn prune_unused_keeps_open_heads_and_trims_the_cache() {
    let mut reg: TestRegistry = Registry::new();
    let kept = add_test_graph(&mut reg, 1, vec![]);
    let open = add_test_graph(&mut reg, 2, vec![]);
    let gone = add_test_graph(&mut reg, 3, vec![]);
    let c = reg.commit_graph(secs(1), None, kept);
    let d = reg.commit_graph(secs(2), None, open);
    reg.set_head(name("alpha"), c);
    let mut cache: Table<GraphAddr, &str> = Table::new();
    cache.insert(kept, "kept");
    cache.insert(open, "open");
    cache.insert(gone, "gone");
    let cache = prune_unused(&mut reg, cache, &vec![Head::Commit(d)], out);
    assert!(reg.graph(&kept).is_some() && reg.graph(&open).is_some());
    assert!(reg.graph(&gone).is_none());
    assert_eq!(cache.get(&kept), Some(&"kept"));
    assert_eq!(cache.get(&open), Some(&"open"));
    assert_eq!(cache.get(&gone), None);
}

#[test]
fn root_names_are_those_that_no_graph_refers_to() {
    let mut reg: TestRegistry = Registry::new();
    let leaf = add_test_graph(&mut reg, 1, vec![]);
    let top = add_test_graph(&mut reg, 2, vec![1]);
    let c1 = reg.commit_graph(secs(1), None, leaf);
    let c2 = reg.commit_graph(secs(2), None, top);
    reg.set_head(name("leaf"), c1);
    reg.set_head(name("z"), c2);
    reg.set_head(name("a"), c2);
    reg.set_head(name("dangling"), CommitAddr(ContentAddr([9; 32])));
    let roots: Vec<String> = root_names(&reg, out).iter().map(|n| n.to_text()).collect();
    assert_eq!(roots, vec!["a", "dangling", "z"]);
}

#[test]
fn names_order_and_nest() {
    assert!(name("a:b").is_nested());
    assert!(!name("a").is_nested());
    assert!(name("a").before(&name("a:b")));
    assert!(name("a:b").parent().unwrap().same(&name("a")));
    assert_eq!(name("a:b:c").to_text(), "a:b:c");
}
