use gantz::addr::ContentAddr;
use gantz::args;
use gantz::base::{load, partition_names, Base, Loading, Outcome};
use gantz::codec::{
    refresh_cache, BuiltinNodes, EraseNodeError, GraphCache, NodeCodec, NormalizeNodeError,
    ReifyError, ReifyNodeError, UiNodeInstance,
};
use gantz::commit::{CommitAddr, Timestamp};
use gantz::data::{graph_addr, AsNamedRef, DataGraph, NamedRef, NodeData};
use gantz::edge::{Edge, Input, Output};
use gantz::graph::{Graph, GraphAddr};
use gantz::hash::content_addr;
use gantz::head::Head;
use gantz::name::Name;
use gantz::navigate::{navigation_matching, Matching};
use gantz::palette::{head_graph_addr, lookup_node, names, GraphInfo, NodeInfo, RegistryRef};
use gantz::registry::Registry;
use gantz::socket::{SocketDoc, SocketKind};
use gantz::sync::{fork_nested, promote_nested, resync};
use gantz::table::Table;
use gantz::value::{Number, Val};
use gantz::vm::{
    after_eval, commit_working_graph, compile_components, migrate_vm_state, validate_committed,
    sync_head, Compile, CompileFailure, CompiledInputs, Config, Diagnostic, Inputs, Migration, Severity,
};
use steel::gc::Gc;
use steel::steel_vm::engine::Engine;
use steel::SteelVal;

type Reg = Registry<DataGraph>;

fn name(s: &str) -> Name {
    Name::parse(s)
}

fn secs(secs: u64) -> Timestamp {
    Timestamp { secs, nanos: 0 }
}

fn nd(v: i64) -> NodeData {
    NodeData {
        tag: "Num".to_string(),
        data: v.to_be_bytes().to_vec(),
        named: None,
        refs: vec![],
        blobs: vec![],
    }
}

fn named(n: &str, graph: GraphAddr) -> NodeData {
    NodeData {
        tag: "NamedRef".to_string(),
        data: vec![],
        named: Some(NamedRef::new(name(n), graph)),
        refs: vec![],
        blobs: vec![],
    }
}

fn graph_of(nodes: Vec<NodeData>) -> DataGraph {
    let mut g: Graph<NodeData, Edge> = Graph::new();
    for n in nodes {
        g.add_node(n);
    }
    DataGraph::new(g)
}

fn graph(vals: &[i64]) -> DataGraph {
    graph_of(vals.iter().map(|&v| nd(v)).collect())
}

fn commit(reg: &mut Reg, at: u64, parent: Option<CommitAddr>, g: DataGraph) -> CommitAddr {
    let addr = graph_addr(&g);
    reg.insert_graph_at(addr, g);
    reg.commit_graph(secs(at), parent, addr)
}

fn pairs(m: &Matching) -> Vec<(usize, usize)> {
    m.entries().clone()
}

/// Base `[10, 20, 30]`, then a child that deletes index 1: `[10, 30]`.
fn base_and_child() -> (Reg, CommitAddr, CommitAddr) {
    let mut reg: Reg = Registry::new();
    let base = commit(&mut reg, 1, None, graph(&[10, 20, 30]));
    let child = commit(&mut reg, 2, Some(base), graph(&[10, 30]));
    (reg, base, child)
}

#[test]
fn navigation_matching_tracks_redo_along_the_chain() {
    let (reg, base, child) = base_and_child();
    let m = navigation_matching(&reg, base, child).unwrap();
    assert_eq!(pairs(&m), vec![(0, 0), (2, 1)]);
}

#[test]
fn navigation_matching_inverts_for_undo() {
    let (reg, base, child) = base_and_child();
    let m = navigation_matching(&reg, child, base).unwrap();
    assert_eq!(pairs(&m), vec![(0, 0), (1, 2)]);
}

#[test]
fn navigation_matching_falls_back_to_content_for_divergent_commits() {
    let mut reg: Reg = Registry::new();
    let a = commit(&mut reg, 1, None, graph(&[7]));
    let b = commit(&mut reg, 2, None, graph(&[9, 7]));
    let m = navigation_matching(&reg, a, b).unwrap();
    assert_eq!(pairs(&m), vec![(0, 1)]);
}

#[test]
fn navigation_matching_needs_both_graphs_and_stays_put() {
    let (mut reg, base, child) = base_and_child();
    let gone = CommitAddr(ContentAddr([1; 32]));
    assert!(navigation_matching(&reg, base, gone).is_none());
    let m = navigation_matching(&reg, child, child).unwrap();
    assert_eq!(pairs(&m), vec![(0, 0), (1, 1)]);
    // A node that goes and comes back on the way is not the same node.
    let again = commit(&mut reg, 3, Some(child), graph(&[10, 20, 30]));
    let m = navigation_matching(&reg, base, again).unwrap();
    assert_eq!(pairs(&m), vec![(0, 0), (2, 2)]);
}

#[test]
fn partition_names_routes_by_attribution() {
    let mut sources: Table<String, String> = Table::new();
    sources.insert("add".to_string(), "gantz".to_string());
    sources.insert("demo-sine".to_string(), "plyphon".to_string());
    let names = vec![
        "add".to_string(),
        "demo-sine".to_string(),
        "new".to_string(),
    ];
    let partitioned = partition_names(&names, &sources, &"gantz".to_string());
    assert_eq!(
        partitioned.get(&"gantz".to_string()),
        Some(&vec!["add".to_string(), "new".to_string()]),
    );
    assert_eq!(
        partitioned.get(&"plyphon".to_string()),
        Some(&vec!["demo-sine".to_string()])
    );
}

#[test]
fn partition_names_nested_follow_their_parent() {
    let mut sources: Table<String, String> = Table::new();
    sources.insert("demo-sine".to_string(), "plyphon".to_string());
    let names = vec![
        "demo-sine:child".to_string(),
        "demo-sine:child:grandchild".to_string(),
        "orphan:child".to_string(),
    ];
    let partitioned = partition_names(&names, &sources, &"gantz".to_string());
    assert_eq!(
        partitioned.get(&"plyphon".to_string()),
        Some(&vec![
            "demo-sine:child".to_string(),
            "demo-sine:child:grandchild".to_string(),
        ]),
    );
    assert_eq!(
        partitioned.get(&"gantz".to_string()),
        Some(&vec!["orphan:child".to_string()]),
    );
}

#[test]
fn sources_load_in_rounds() {
    let labels = ["late".to_string(), "early".to_string(), "broken".to_string()];
    let mut reg: Reg = Registry::new();
    let mut base = Base::new();
    let mut loading = Loading::new(3);
    let mut asked = vec![];
    while let Some(i) = loading.ask() {
        asked.push(i);
        let outcome = match i {
            0 if base.names.get(&name("dep")).is_none() => Outcome::Missing,
            2 => Outcome::Failed,
            _ => {
                let mut export: Reg = Registry::new();
                let c = commit(&mut export, 1, None, graph(&[i as i64]));
                export.set_head(name(if i == 0 { "user" } else { "dep" }), c);
                Outcome::Loaded(export)
            }
        };
        loading.answer(&labels[i], outcome, &mut base, &mut reg);
    }
    assert_eq!(asked, vec![0, 1, 2, 0]);
    assert!(loading.unresolved().is_empty());
    assert!(reg.head(&name("user")).is_some() && reg.head(&name("dep")).is_some());
    assert_eq!(
        base.sources.get(&"user".to_string()),
        Some(&"late".to_string())
    );
}

#[test]
fn sources_that_never_resolve_are_given_up() {
    let mut reg: Reg = Registry::new();
    let mut base = Base::new();
    let mut loading = Loading::new(2);
    let mut tries = 0;
    while let Some(_) = loading.ask() {
        tries += 1;
        loading.answer(&"s".to_string(), Outcome::Missing, &mut base, &mut reg);
    }
    assert_eq!(tries, 2);
    assert_eq!(loading.unresolved(), vec![0, 1]);
}

/// A root that refers to a graph nested under it.
fn nested() -> (Reg, GraphAddr) {
    let mut reg: Reg = Registry::new();
    let inner = graph(&[1]);
    let inner_addr = graph_addr(&inner);
    reg.commit_graph_to_name(secs(1), inner_addr, inner, &name("a:x"));
    let outer = graph_of(vec![named("a:x", inner_addr)]);
    let outer_addr = graph_addr(&outer);
    reg.commit_graph_to_name(secs(1), outer_addr, outer, &name("a"));
    (reg, inner_addr)
}

fn reference(reg: &Reg, n: &str) -> (String, GraphAddr) {
    let g = head_graph_addr(reg, &name(n)).unwrap();
    let node = reg.graph(&g).unwrap().graph().nodes[0].as_ref().unwrap();
    let r = node.as_named_ref().unwrap();
    (r.name.to_text(), r.graph)
}

#[test]
fn fork_copies_what_is_nested() {
    let (mut reg, inner) = nested();
    let at = reg.head(&name("a")).unwrap();
    reg.set_head(name("b"), at);
    let moves = fork_nested(&mut reg, secs(5), &name("a"), &name("b"));
    assert_eq!(reference(&reg, "b"), ("b:x".to_string(), inner));
    assert_eq!(reference(&reg, "a"), ("a:x".to_string(), inner));
    assert!(reg.head(&name("b:x")).is_some());
    let moved: Vec<String> = moves.iter().map(|m| m.name.to_text()).collect();
    assert_eq!(moved, vec!["b:x", "b"]);
    assert_eq!(moves[1].old_commit, at);
    assert_eq!(reg.head(&name("b")), Some(moves[1].new_commit));
}

fn commit_at(reg: &mut Reg, n: &str, g: DataGraph) -> GraphAddr {
    let addr = graph_addr(&g);
    reg.commit_graph_to_name(secs(1), addr, g, &name(n));
    addr
}

#[test]
fn fork_copies_siblings_that_refer_to_each_other() {
    let mut reg: Reg = Registry::new();
    let q = commit_at(&mut reg, "a:q", graph(&[1]));
    let p = commit_at(&mut reg, "a:p", graph_of(vec![named("a:q", q)]));
    commit_at(&mut reg, "a", graph_of(vec![named("a:p", p)]));
    let at = reg.head(&name("a")).unwrap();
    reg.set_head(name("b"), at);
    let moves = fork_nested(&mut reg, secs(5), &name("a"), &name("b"));
    let moved: Vec<String> = moves.iter().map(|m| m.name.to_text()).collect();
    assert_eq!(moved, vec!["b:q", "b:p", "b"]);
    assert_eq!(reference(&reg, "b:p"), ("b:q".to_string(), q));
    let copy = head_graph_addr(&reg, &name("b:p")).unwrap();
    assert_ne!(copy, p);
    assert_eq!(reference(&reg, "b"), ("b:p".to_string(), copy));
    assert_eq!(reference(&reg, "a:p"), ("a:q".to_string(), q));
    for m in moves {
        assert_eq!(reg.head(&m.name), Some(m.new_commit));
    }
}

#[test]
fn fork_renames_references_that_make_a_circle() {
    let mut reg: Reg = Registry::new();
    let q = commit_at(&mut reg, "a:q", graph(&[1]));
    let p = commit_at(&mut reg, "a:p", graph_of(vec![named("a:q", q)]));
    commit_at(&mut reg, "a:q", graph_of(vec![named("a:p", p)]));
    commit_at(&mut reg, "b", graph(&[3]));
    let moves = fork_nested(&mut reg, secs(5), &name("a"), &name("b"));
    assert_eq!(moves.len(), 2);
    assert_eq!(reference(&reg, "b:p").0, "b:q");
    assert_eq!(reference(&reg, "b:q").0, "b:p");
    assert_eq!(reference(&reg, "b:q").1, head_graph_addr(&reg, &name("b:p")).unwrap());
}

#[test]
fn addresses_tell_content_apart() {
    let at = |n: u8| GraphAddr(ContentAddr([n; 32]));
    let g = |n: &str, a: u8| graph_addr(&graph_of(vec![nd(1), named(n, at(a))]));
    assert_eq!(g("a:x", 1), g("a:x", 1));
    assert_ne!(g("a:x", 1), g("a:y", 1));
    assert_ne!(g("a:x", 1), g("a:x", 2));
    assert_ne!(graph_addr(&graph(&[1, 2])), graph_addr(&graph(&[2, 1])));
    let mut fixed = named("a:x", at(1));
    fixed.named.as_mut().unwrap().sync = false;
    assert_ne!(g("a:x", 1), graph_addr(&graph_of(vec![nd(1), fixed])));
    let mut reg: Reg = Registry::new();
    let first = commit(&mut reg, 1, None, graph(&[1]));
    let later = commit(&mut reg, 2, None, graph(&[1]));
    let child = commit(&mut reg, 2, Some(first), graph(&[1]));
    assert!(first != later && later != child);
    assert_eq!(commit(&mut reg, 1, None, graph(&[1])), first);
}

#[test]
fn resync_settles_references_among_roots() {
    let mut reg: Reg = Registry::new();
    let z = commit_at(&mut reg, "z", graph(&[1]));
    let y = commit_at(&mut reg, "y", graph_of(vec![named("z", z)]));
    let x = commit_at(&mut reg, "x", graph_of(vec![named("y", y)]));
    let edited = commit_at(&mut reg, "z", graph(&[2]));
    let moves = resync(&mut reg, secs(3));
    let moved: Vec<String> = moves.iter().map(|m| m.name.to_text()).collect();
    assert_eq!(moved, vec!["y", "x"]);
    assert_eq!(reference(&reg, "y"), ("z".to_string(), edited));
    let y_now = head_graph_addr(&reg, &name("y")).unwrap();
    assert_eq!(reference(&reg, "x"), ("y".to_string(), y_now));
    assert_ne!(head_graph_addr(&reg, &name("x")).unwrap(), x);
    assert!(resync(&mut reg, secs(4)).is_empty());
}

#[test]
fn resync_brings_references_up_to_their_names() {
    let (mut reg, _) = nested();
    let edited = graph(&[2]);
    let addr = graph_addr(&edited);
    reg.commit_graph_to_name(secs(2), addr, edited, &name("a:x"));
    let moves = resync(&mut reg, secs(3));
    assert_eq!(reference(&reg, "a"), ("a:x".to_string(), addr));
    assert_eq!(moves.len(), 1);
    assert_eq!(moves[0].name.to_text(), "a");
    assert!(resync(&mut reg, secs(4)).is_empty());
}

#[test]
fn resync_settles_a_chain_of_nested_graphs() {
    let mut reg: Reg = Registry::new();
    let leaf = graph(&[1]);
    let leaf_addr = graph_addr(&leaf);
    reg.commit_graph_to_name(secs(1), leaf_addr, leaf, &name("a:x:y"));
    let middle = graph_of(vec![named("a:x:y", leaf_addr)]);
    let middle_addr = graph_addr(&middle);
    reg.commit_graph_to_name(secs(1), middle_addr, middle, &name("a:x"));
    let outer = graph_of(vec![named("a:x", middle_addr)]);
    let outer_addr = graph_addr(&outer);
    reg.commit_graph_to_name(secs(1), outer_addr, outer, &name("a"));
    let edited = graph(&[2]);
    let edited_addr = graph_addr(&edited);
    reg.commit_graph_to_name(secs(2), edited_addr, edited, &name("a:x:y"));
    let moves = resync(&mut reg, secs(3));
    let moved: Vec<String> = moves.iter().map(|m| m.name.to_text()).collect();
    assert_eq!(moved, vec!["a:x", "a"]);
    assert_eq!(reference(&reg, "a:x"), ("a:x:y".to_string(), edited_addr));
    let middle_now = head_graph_addr(&reg, &name("a:x")).unwrap();
    assert_ne!(middle_now, middle_addr);
    assert_eq!(reference(&reg, "a"), ("a:x".to_string(), middle_now));
    assert!(resync(&mut reg, secs(4)).is_empty());
}

#[test]
fn promotion_makes_a_nested_graph_a_root() {
    let (mut reg, inner) = nested();
    let at = reg.head(&name("a:x")).unwrap();
    reg.set_head(name("root"), at);
    let moves = promote_nested(&mut reg, secs(5), &name("a:x"), &name("root"));
    assert_eq!(reference(&reg, "a"), ("root".to_string(), inner));
    assert!(reg.head(&name("a:x")).is_none());
    assert_eq!(moves.len(), 1);
}

fn config(all: bool) -> Config {
    Config {
        emit_all_node_fns: all,
    }
}

#[test]
fn heads_compile_when_their_inputs_change() {
    let (mut reg, base, child) = base_and_child();
    let head = Head::Branch(name("h"));
    assert!(matches!(
        sync_head(&reg, &head, &CompiledInputs(None), config(false), false),
        Compile::Skip
    ));
    reg.set_head(name("h"), base);
    let Compile::Init(inputs) = sync_head(&reg, &head, &CompiledInputs(None), config(false), false) else {
        panic!("expected init");
    };
    let memo = CompiledInputs(Some(inputs));
    assert!(matches!(
        sync_head(&reg, &head, &memo, config(false), true),
        Compile::Skip
    ));
    assert!(matches!(
        sync_head(&reg, &head, &memo, config(true), true),
        Compile::InPlace(Inputs { config, .. }) if config.emit_all_node_fns
    ));
    reg.set_head(name("h"), child);
    assert!(matches!(
        sync_head(&reg, &head, &memo, config(false), true),
        Compile::InPlace(_)
    ));
}

#[test]
fn moving_heads_take_their_state_along() {
    let (reg, base, child) = base_and_child();
    let gone = CommitAddr(ContentAddr([1; 32]));
    assert!(matches!(
        migrate_vm_state(&reg, true, Some(base), Some(child)),
        Migration::Remap(m) if pairs(&m) == vec![(0, 0), (2, 1)]
    ));
    assert!(matches!(
        migrate_vm_state(&reg, false, Some(base), Some(child)),
        Migration::Nothing
    ));
    assert!(matches!(
        migrate_vm_state(&reg, true, Some(base), Some(gone)),
        Migration::Drop
    ));
    assert!(matches!(
        migrate_vm_state(&reg, true, None, Some(child)),
        Migration::Drop
    ));
}

#[test]
fn working_graphs_are_committed_once() {
    let (mut reg, base, _) = base_and_child();
    reg.set_head(name("h"), base);
    let mut head = Head::Branch(name("h"));
    let edited = || graph(&[10, 20]);
    let before = commit_working_graph(&mut reg, secs(9), &mut head, edited());
    assert!(matches!(before, Some(Head::Branch(_))));
    let tip = reg.head(&name("h")).unwrap();
    assert_eq!(reg.commit(&tip).unwrap().parent, Some(base));
    assert!(validate_committed(&reg, &head, graph_addr(&edited())));
    assert!(commit_working_graph(&mut reg, secs(10), &mut head, edited()).is_none());

    let mut detached = Head::Commit(base);
    assert!(commit_working_graph(&mut reg, secs(11), &mut detached, graph(&[1])).is_some());
    assert!(matches!(detached, Head::Commit(c) if c != base));
    assert_eq!(reg.head(&name("h")), Some(tip));

    let mut missing = Head::Branch(name("nobody"));
    assert!(commit_working_graph(&mut reg, secs(12), &mut missing, graph(&[1])).is_none());
    assert!(!validate_committed(&reg, &missing, graph_addr(&graph(&[1]))));
}

#[test]
fn diagnostics_follow_the_latest_evaluation() {
    let d = |severity, message: &str| Diagnostic {
        severity,
        message: message.to_string(),
    };
    let all = vec![d(Severity::Error, "e"), d(Severity::Runtime, "old")];
    let after = after_eval(all, Some(d(Severity::Runtime, "new")));
    let messages: Vec<&str> = after.iter().map(|d| d.message.as_str()).collect();
    assert_eq!(messages, vec!["e", "new"]);
    assert_eq!(after_eval(after, None).len(), 1);

    let (module, diags) = compile_components::<u8>(Ok(7));
    assert_eq!((module.compiled, module.error), (Some(7), None));
    assert!(diags.is_empty());
    let (module, diags) = compile_components(Err(CompileFailure {
        error: "bad".to_string(),
        diagnostics: vec![d(Severity::Warning, "w")],
        module: Some(8u8),
    }));
    assert_eq!((module.compiled, module.error.as_deref()), (Some(8), Some("bad")));
    assert_eq!(diags.len(), 1);
}

fn info(outputs: usize, stateful: bool) -> NodeInfo {
    NodeInfo {
        stateful,
        branches: 0,
        inputs: vec![],
        outputs: (0..outputs).map(|_| None).collect(),
        description: Some("described".to_string()),
        inlet: false,
        outlet: false,
    }
}

#[test]
fn registry_ref_resolves_names() {
    let (mut reg, inner) = nested();
    let at = reg.head(&name("a")).unwrap();
    reg.set_head(name("add"), at);
    let mut builtins: Table<String, NodeData> = Table::new();
    builtins.insert("add".to_string(), nd(1));
    builtins.insert("state".to_string(), nd(2));
    builtins.insert("zero".to_string(), nd(3));
    let mut instances: Table<ContentAddr, NodeInfo> = Table::new();
    instances.insert(content_addr(&nd(2)), info(1, true));
    instances.insert(content_addr(&nd(3)), info(1, false));
    let outer = head_graph_addr(&reg, &name("a")).unwrap();
    let mut reified: Table<GraphAddr, GraphInfo> = Table::new();
    let inlet = NodeInfo {
        inlet: true,
        outputs: vec![Some(SocketDoc::ty("number"))],
        ..info(0, false)
    };
    let mut as_node = info(1, false);
    as_node.inputs = vec![None, None];
    reified.insert(
        outer,
        GraphInfo {
            node: as_node,
            nodes: vec![info(0, false), inlet],
        },
    );
    let r = RegistryRef::new(&reg, &reified, &builtins, &instances);
    assert_eq!(r.name_ca("add"), Some(outer.0), "a head shadows a builtin");
    assert_eq!(r.name_ca("zero"), Some(content_addr(&nd(3))));
    assert_eq!(r.name_ca("nobody"), None);
    assert!(r.node_exists(&outer.0));
    assert!(lookup_node(&reified, &instances, &outer.0).is_some());
    assert!(lookup_node(&reified, &instances, &content_addr(&nd(1))).is_none());
    assert!(!r.node_exists(&inner.0));
    assert_eq!(r.node_types(), vec!["a", "add", "graph", "state", "zero"]);
    assert_eq!(r.fn_node_names(), vec!["a", "add", "add", "zero"]);
    let created = r.create_node("a").unwrap();
    assert_eq!(created.as_named_ref().unwrap().graph, outer);
    assert_eq!(r.create_node("zero").unwrap().data, nd(3).data);
    assert!(r.create_node("nobody").is_none());
    assert_eq!(
        r.socket_doc(&outer.0, SocketKind::Input, 0).unwrap().ty,
        "number"
    );
    let c = r.command_info("a", Some("about a".to_string()));
    assert_eq!(c.description.as_deref(), Some("about a"));
    let types: Vec<&str> = c.inputs.iter().map(|d| d.ty.as_str()).collect();
    assert_eq!(types, vec!["number", "any"]);
    assert_eq!(c.outputs.len(), 1);
    let c = r.command_info("zero", None);
    assert_eq!(c.description.as_deref(), Some("described"));
    assert_eq!(c.outputs[0].ty, "any");
    let c = r.command_info("graph", None);
    assert!(c.description.unwrap().starts_with("Create a new nested graph."));
    assert!(c.inputs.is_empty());
    assert_eq!(names(&reg).len(), 3);
}

#[test]
fn codecs_reify_graphs_and_normalize_nodes() {
    let erase = |n: &i64| {
        if *n < 0 {
            Err(EraseNodeError {
                tag: "Num".to_string(),
                message: "negative".to_string(),
            })
        } else {
            Ok(nd(*n))
        }
    };
    let codec = NodeCodec::new(move |d: &NodeData| {
        if d.tag == "Num" {
            let n = i64::from_be_bytes(d.data.clone().try_into().unwrap());
            Ok(UiNodeInstance::new(n, erase))
        } else {
            Err(ReifyNodeError::unknown(d))
        }
    });
    let mut g: Graph<NodeData, Edge> = Graph::new();
    let a = g.add_node(nd(4));
    let b = g.add_node(nd(5));
    g.add_edge(a, b, Edge::new(Output(0), Input(1)));
    let typed = codec.reify_graph(&DataGraph::new(g)).unwrap();
    assert_eq!(typed.nodes, vec![Some(4), Some(5)]);
    assert_eq!(typed.edges.len(), 1);
    let bad = graph_of(vec![nd(1), named("x", GraphAddr(ContentAddr([0; 32])))]);
    let err = codec.reify_graph(&bad).unwrap_err();
    assert_eq!((err.node_ix, err.source.tag.as_str()), (1, "NamedRef"));
    assert_eq!(codec.normalize(&nd(6)).unwrap().data, nd(6).data);
    assert!(matches!(
        codec.normalize(&nd(-1)),
        Err(NormalizeNodeError::Erase(_))
    ));
    assert!(matches!(
        codec.normalize(&named("x", GraphAddr(ContentAddr([0; 32])))),
        Err(NormalizeNodeError::Reify(e)) if e.tag == "NamedRef"
    ));
}

#[test]
fn builtins_without_an_instance_are_reported() {
    let mut builtins: Table<String, NodeData> = Table::new();
    builtins.insert("one".to_string(), nd(1));
    builtins.insert("two".to_string(), nd(2));
    let (nodes, errs) = BuiltinNodes::reify(builtins, |d: &NodeData| {
        if d.data == nd(1).data {
            Ok("one")
        } else {
            Err(ReifyNodeError::unknown(d))
        }
    });
    assert_eq!(nodes.instances.len(), 1);
    assert_eq!(nodes.instances.get(&content_addr(&nd(1))), Some(&"one"));
    assert_eq!(errs.len(), 1);
}

fn to_steel(v: &Val) -> SteelVal {
    match v {
        Val::Num(Number::Float(bits)) => SteelVal::NumV(f64::from_bits(*bits)),
        Val::Record(m) => {
            let mut map: steel::HashMap<SteelVal, SteelVal> = steel::HashMap::new();
            for (k, v) in m {
                map = map.update(SteelVal::SymbolV(k.as_str().into()), to_steel(v));
            }
            SteelVal::HashMapV(Gc::new(map).into())
        }
        other => panic!("unexpected {other:?}"),
    }
}

#[test]
fn args_time_roundtrips_through_the_vm() {
    let mut vm = Engine::new_base();
    vm.register_value("%args", to_steel(&args::default()));
    let v = vm.run("(hash-ref %args 'time)").unwrap();
    assert_eq!(v.last(), Some(&SteelVal::NumV(0.0)));

    vm.update_value("%args", to_steel(&args::time(Number::Float(1.5f64.to_bits()))));
    let v = vm.run("(hash-ref %args 'time)").unwrap();
    assert_eq!(v.last(), Some(&SteelVal::NumV(1.5)));
}

#[test]
fn the_order_of_sources_does_not_matter() {
    // Each source defines its own letter and needs the next one; `d` is broken.
    let order = |labels: &str| {
        let sources: Vec<char> = labels.chars().collect();
        let names: Vec<String> = sources.iter().map(|c| c.to_string()).collect();
        let mut reg: Reg = Registry::new();
        let mut base = Base::new();
        let parse = |i: usize, base: &Base| {
            let needed = match sources[i] {
                'a' => Some("b"),
                'b' => Some("c"),
                'e' => Some("d"),
                _ => None,
            };
            let known = |n: &str| base.names.get(&name(n)).is_some();
            if sources[i] == 'd' {
                Outcome::Failed
            } else if needed.is_some_and(|n| !known(n)) {
                Outcome::Missing
            } else {
                let mut export: Reg = Registry::new();
                let c = commit(&mut export, 1, None, graph(&[i as i64]));
                export.set_head(name(&names[i]), c);
                Outcome::Loaded(export)
            }
        };
        let unresolved = load(&names, parse, &mut base, &mut reg);
        let loaded: Vec<String> = base.names.entries().iter().map(|(n, _)| n.to_text()).collect();
        (loaded, unresolved.len())
    };
    let expected = (vec!["a".to_string(), "b".to_string(), "c".to_string()], 1);
    assert_eq!(order("abcde"), expected);
    assert_eq!(order("cbaed"), expected);
    assert_eq!(order("edcab"), expected);
}

#[test]
fn caches_grow_by_what_reifies() {
    let (mut reg, base, _) = base_and_child();
    let known = reg.commit(&base).unwrap().graph;
    let bad = graph(&[1]);
    let bad_addr = graph_addr(&bad);
    reg.insert_graph_at(bad_addr, bad);
    let mut cache: GraphCache<usize> = GraphCache(Table::new());
    cache.0.insert(known, 99);
    let count = |g: &DataGraph| match g.graph().nodes.len() {
        1 => Err(ReifyError {
            node_ix: 0,
            source: ReifyNodeError::unknown(&nd(1)),
        }),
        n => Ok(n),
    };
    let errs = refresh_cache(&reg, &mut cache, count);
    assert_eq!(errs.len(), 1);
    assert_eq!(errs[0].0, bad_addr);
    assert_eq!(cache.0.len(), 2);
    assert_eq!(cache.0.get(&known), Some(&99), "what is cached stays");
    assert!(cache.0.get(&bad_addr).is_none());
}
