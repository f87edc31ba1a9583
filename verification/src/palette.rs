//! The nodes to choose from: builtins, and the named graphs of a registry.

use crate::addr::ContentAddr;
use crate::commit::CommitAddr;
use crate::data::{self, DataGraph, NamedRef, NamedView, NodeData, NodeView};
use crate::graph::GraphAddr;
use crate::hash;
use crate::name::{self, Name};
use crate::order::{self, Key, Ranker};
use crate::registry::{Payload, Registry, RegistryView};
use crate::set::KeySet;
use crate::socket::{self, DocView, SocketDoc, SocketKind};
use crate::sync;
use crate::table::{self, Table};
use crate::text;
use vstd::prelude::*;
use vstd::string::*;

verus! {

/// The type under which a new nested graph is offered.
pub const NESTED_GRAPH_TYPE: &'static str = "graph";

/// What is said of [`NESTED_GRAPH_TYPE`].
pub const NESTED_GRAPH_DESCRIPTION: &'static str =
    "Create a new nested graph. Its inlets and outlets become this node's sockets.";

/// The type of a socket that nothing is said of.
pub const ANY: &'static str = "any";

/// The tag of a node that refers to a graph by name.
pub const NAMED_REF_TAG: &'static str = "NamedRef";

/// What there is to know of a node.
#[derive(Debug)]
pub struct NodeInfo {
    pub stateful: bool,
    /// The number of branches that an evaluation of it can take.
    pub branches: usize,
    /// Its inputs, each with what is said of it.
    pub inputs: Vec<Option<SocketDoc>>,
    /// Its outputs, each with what is said of it.
    pub outputs: Vec<Option<SocketDoc>>,
    pub description: Option<String>,
    pub inlet: bool,
    pub outlet: bool,
}

/// What a [`NodeInfo`] denotes.
#[verifier::ext_equal]
pub struct InfoView {
    pub stateful: bool,
    pub branches: usize,
    pub inputs: Seq<Option<DocView>>,
    pub outputs: Seq<Option<DocView>>,
    pub description: Option<Seq<char>>,
    pub inlet: bool,
    pub outlet: bool,
}

impl View for NodeInfo {
    type V = InfoView;

    open spec fn view(&self) -> InfoView {
        InfoView {
            stateful: self.stateful,
            branches: self.branches,
            inputs: socket::optional_doc_views(self.inputs@),
            outputs: socket::optional_doc_views(self.outputs@),
            description: socket::text_view(self.description),
            inlet: self.inlet,
            outlet: self.outlet,
        }
    }
}

impl InfoView {
    /// The sockets on one side.
    pub open spec fn sockets(self, kind: SocketKind) -> Seq<Option<DocView>> {
        match kind {
            SocketKind::Input => self.inputs,
            SocketKind::Output => self.outputs,
        }
    }

    /// What is said of a socket.
    pub open spec fn doc(self, kind: SocketKind, ix: nat) -> Option<DocView> {
        if ix < self.sockets(kind).len() {
            self.sockets(kind)[ix as int]
        } else {
            None
        }
    }

    /// Whether the node marks a socket of the graph it is in.
    pub open spec fn marks(self, kind: SocketKind) -> bool {
        match kind {
            SocketKind::Input => self.inlet,
            SocketKind::Output => self.outlet,
        }
    }

    /// Whether the node can stand for a function: it keeps no state, takes no branch,
    /// and has one output.
    pub open spec fn is_function(self) -> bool {
        !self.stateful && self.branches == 0 && self.outputs.len() == 1
    }
}

impl NodeInfo {
    fn sockets(&self, kind: SocketKind) -> (r: &Vec<Option<SocketDoc>>)
        ensures
            socket::optional_doc_views(r@) == self@.sockets(kind),
    {
        match kind {
            SocketKind::Input => &self.inputs,
            SocketKind::Output => &self.outputs,
        }
    }

    /// What is said of a socket.
    pub fn doc(&self, kind: SocketKind, ix: usize) -> (r: Option<SocketDoc>)
        ensures
            socket::doc_view(r) == self@.doc(kind, ix as nat),
    {
        let all = self.sockets(kind);
        if ix < all.len() {
            match &all[ix] {
                Some(d) => Some(d.dup()),
                None => None,
            }
        } else {
            None
        }
    }
}

/// A graph of the registry as a node, with what there is to know of its own nodes.
#[derive(Debug)]
pub struct GraphInfo {
    pub node: NodeInfo,
    pub nodes: Vec<NodeInfo>,
}

/// What a [`GraphInfo`] denotes.
#[verifier::ext_equal]
pub struct GraphInfoView {
    pub node: InfoView,
    pub nodes: Seq<InfoView>,
}

/// What a list of infos denotes.
pub open spec fn info_views(s: Seq<NodeInfo>) -> Seq<InfoView> {
    s.map_values(|n: NodeInfo| n@)
}

impl View for GraphInfo {
    type V = GraphInfoView;

    open spec fn view(&self) -> GraphInfoView {
        GraphInfoView { node: self.node@, nodes: info_views(self.nodes@) }
    }
}

/// The nodes that mark the sockets of their graph on one side.
pub open spec fn markers(nodes: Seq<InfoView>, kind: SocketKind) -> Seq<InfoView>
    decreases nodes.len(),
{
    if nodes.len() == 0 {
        Seq::empty()
    } else {
        let init = markers(nodes.drop_last(), kind);
        if nodes.last().marks(kind) {
            init.push(nodes.last())
        } else {
            init
        }
    }
}

proof fn lemma_markers_prefix(nodes: Seq<InfoView>, n: int, kind: SocketKind)
    requires
        0 <= n <= nodes.len(),
    ensures
        markers(nodes.take(n), kind).is_prefix_of(markers(nodes, kind)),
    decreases nodes.len(),
{
    if n < nodes.len() {
        lemma_markers_prefix(nodes.drop_last(), n, kind);
        assert(nodes.drop_last().take(n) =~= nodes.take(n));
    } else {
        assert(nodes.take(n) =~= nodes);
    }
}

/// The side of a marker that its graph's socket is described on: an inlet gives inside
/// what the graph takes, an outlet takes what the graph gives.
pub open spec fn inner(kind: SocketKind) -> SocketKind {
    match kind {
        SocketKind::Input => SocketKind::Output,
        SocketKind::Output => SocketKind::Input,
    }
}

impl GraphInfoView {
    /// What is said of a socket of the graph: what is said of the marker it stems from.
    pub open spec fn doc(self, kind: SocketKind, ix: nat) -> Option<DocView> {
        let m = markers(self.nodes, kind);
        if ix < m.len() {
            m[ix as int].doc(inner(kind), 0)
        } else {
            None
        }
    }
}

impl GraphInfo {
    /// What is said of a socket of the graph.
    pub fn doc(&self, kind: SocketKind, ix: usize) -> (r: Option<SocketDoc>)
        ensures
            socket::doc_view(r) == self@.doc(kind, ix as nat),
    {
        let ghost nv = info_views(self.nodes@);
        let mut i: usize = 0;
        let mut seen: usize = 0;
        assert(nv.take(0) =~= Seq::empty());
        while i < self.nodes.len()
            invariant
                nv == info_views(self.nodes@),
                i <= self.nodes@.len(),
                seen == markers(nv.take(i as int), kind).len(),
                seen <= ix,
                seen <= i,
            decreases self.nodes@.len() - i,
        {
            let n = &self.nodes[i];
            let marks = match kind {
                SocketKind::Input => n.inlet,
                SocketKind::Output => n.outlet,
            };
            proof {
                assert(nv.take(i + 1).drop_last() =~= nv.take(i as int));
                assert(nv.take(i + 1).last() == n@);
            }
            if marks {
                if seen == ix {
                    proof {
                        lemma_markers_prefix(nv, i + 1, kind);
                        assert(markers(nv.take(i + 1), kind)[ix as int] == n@);
                    }
                    return n.doc(
                        match kind {
                            SocketKind::Input => SocketKind::Output,
                            SocketKind::Output => SocketKind::Input,
                        },
                        0,
                    );
                }
                seen = seen + 1;
            }
            i = i + 1;
        }
        assert(nv.take(i as int) =~= nv);
        None
    }
}

/// What is listed of a node type that can be created.
#[derive(Debug)]
pub struct CommandInfo {
    pub name: String,
    pub description: Option<String>,
    pub inputs: Vec<SocketDoc>,
    pub outputs: Vec<SocketDoc>,
}

/// What a [`CommandInfo`] denotes.
#[verifier::ext_equal]
pub struct CommandView {
    pub name: Seq<char>,
    pub description: Option<Seq<char>>,
    pub inputs: Seq<DocView>,
    pub outputs: Seq<DocView>,
}

impl View for CommandInfo {
    type V = CommandView;

    open spec fn view(&self) -> CommandView {
        CommandView {
            name: self.name@,
            description: socket::text_view(self.description),
            inputs: socket::doc_views(self.inputs@),
            outputs: socket::doc_views(self.outputs@),
        }
    }
}

/// What a socket that may have no doc is listed as.
pub open spec fn or_any(d: Option<DocView>) -> DocView {
    match d {
        Some(d) => d,
        None => DocView { ty: ANY@, description: None },
    }
}

fn doc_or_any(d: Option<SocketDoc>) -> (r: SocketDoc)
    ensures
        r@ == or_any(socket::doc_view(d)),
{
    match d {
        Some(d) => d,
        None => SocketDoc::ty(ANY),
    }
}

/// The graph at the head of the named line of history.
pub open spec fn head_graph<T>(rv: RegistryView<T>, n: Seq<Seq<char>>) -> Option<GraphAddr> {
    match rv.head(n) {
        Some(c) => if rv.commits.contains_key(c) {
            Some(rv.commits[c].graph)
        } else {
            None
        },
        None => None,
    }
}

/// The address of the graph at the head of the named line of history: what a reference
/// to the name should pin.
pub fn head_graph_addr<G: Payload>(reg: &Registry<G>, name: &Name) -> (r: Option<GraphAddr>)
    ensures
        r == head_graph(reg@, name@),
{
    match reg.head(name) {
        Some(c) => match reg.commit(&c) {
            Some(commit) => Some(commit.graph),
            None => None,
        },
        None => None,
    }
}

/// All heads, in the order of their names.
pub fn names<G: Payload>(reg: &Registry<G>) -> (r: Vec<(Name, CommitAddr)>)
    ensures
        reg@.lists_heads(r@),
{
    reg.heads()
}

/// What there is to know of the node at an address, given what is known of graphs and of
/// builtins: a graph is a node, and comes first.
pub open spec fn looked_up(
    cache: Map<GraphAddr, GraphInfoView>,
    instances: Map<ContentAddr, InfoView>,
    ca: ContentAddr,
) -> Option<InfoView> {
    if cache.contains_key(GraphAddr(ca)) {
        Some(cache[GraphAddr(ca)].node)
    } else if instances.contains_key(ca) {
        Some(instances[ca])
    } else {
        None
    }
}

/// Looks up the node at an address: a graph, or else a builtin.
pub fn lookup_node<'a>(
    cache: &'a Table<GraphAddr, GraphInfo>,
    instances: &'a Table<ContentAddr, NodeInfo>,
    ca: &ContentAddr,
) -> (r: Option<&'a NodeInfo>)
    ensures
        match r {
            Some(n) => looked_up(table::views(cache@), table::views(instances@), *ca) == Some(n@),
            None => looked_up(table::views(cache@), table::views(instances@), *ca) is None,
        },
{
    match cache.get(&GraphAddr(*ca)) {
        Some(g) => Some(&g.node),
        None => instances.get(ca),
    }
}

/// What the lookups read.
pub struct SourceView {
    pub reg: RegistryView<data::GraphView<NodeView>>,
    pub reified: Map<GraphAddr, GraphInfoView>,
    pub builtins: Map<Seq<char>, NodeView>,
    pub instances: Map<ContentAddr, InfoView>,
}

impl SourceView {
    /// What there is to know of the node at an address: a graph of the registry is a
    /// node, and comes first.
    pub open spec fn node(self, ca: ContentAddr) -> Option<InfoView> {
        looked_up(self.reified, self.instances, ca)
    }

    /// The address of a builtin.
    pub open spec fn builtin_addr(self, name: Seq<char>) -> Option<ContentAddr> {
        if self.builtins.contains_key(name) {
            Some(hash::addr_of(data::node_view_bytes(self.builtins[name])))
        } else {
            None
        }
    }

    /// What a builtin is like, where an instance of it is at hand.
    pub open spec fn builtin(self, name: Seq<char>) -> Option<InfoView> {
        match self.builtin_addr(name) {
            Some(a) => if self.instances.contains_key(a) {
                Some(self.instances[a])
            } else {
                None
            },
            None => None,
        }
    }

    /// The address that a name stands for: the graph at the head of that name comes
    /// before the builtin.
    pub open spec fn name_ca(self, name: Seq<char>) -> Option<ContentAddr> {
        match head_graph(self.reg, name::split(name)) {
            Some(g) => Some(g.0),
            None => self.builtin_addr(name),
        }
    }

    /// The node created for a type.
    pub open spec fn created(self, ty: Seq<char>) -> Option<NodeView> {
        match head_graph(self.reg, name::split(ty)) {
            Some(g) => Some(reference(name::split(ty), g)),
            None => if self.builtins.contains_key(ty) {
                Some(self.builtins[ty])
            } else {
                None
            },
        }
    }

    /// Whether a name stands for a node that can stand for a function.
    pub open spec fn names_function(self, name: Seq<char>) -> bool {
        match self.name_ca(name) {
            Some(ca) => match self.node(ca) {
                Some(n) => n.is_function(),
                None => false,
            },
            None => false,
        }
    }

    /// All names: builtins first.
    pub open spec fn all_names(self) -> Seq<Seq<char>> {
        table::keys_of::<String, NodeView>(self.builtins) + sync::head_names(self.reg).map_values(
            |n: Seq<Seq<char>>| name::spelled(n),
        )
    }

    /// Those of the names that stand for functions.
    pub open spec fn functions(self, names: Seq<Seq<char>>) -> Seq<Seq<char>>
        decreases names.len(),
    {
        if names.len() == 0 {
            Seq::empty()
        } else {
            let init = self.functions(names.drop_last());
            if self.names_function(names.last()) {
                init.push(names.last())
            } else {
                init
            }
        }
    }

    /// Whether a type is offered: the nested graph, a builtin, or a head whose name is
    /// not nested.
    pub open spec fn offers(self, ty: Seq<char>) -> bool {
        ||| ty == NESTED_GRAPH_TYPE@
        ||| self.builtins.contains_key(ty)
        ||| self.reg.head(seq![ty]) is Some
    }

    /// What is said of a node type; `described` is what the registry says of a head of
    /// that name.
    pub open spec fn description(self, name: Seq<char>, described: Option<Seq<char>>) -> Option<
        Seq<char>,
    > {
        if name == NESTED_GRAPH_TYPE@ {
            Some(NESTED_GRAPH_DESCRIPTION@)
        } else if self.reg.head(name::split(name)) is Some {
            described
        } else {
            match self.builtin(name) {
                Some(n) => n.description,
                None => None,
            }
        }
    }

    /// The sockets listed for a node type.
    pub open spec fn listed(self, name: Seq<char>, kind: SocketKind) -> Seq<DocView> {
        if name == NESTED_GRAPH_TYPE@ {
            Seq::empty()
        } else {
            match head_graph(self.reg, name::split(name)) {
                Some(g) => if self.reified.contains_key(g) {
                    Seq::new(
                        self.reified[g].node.sockets(kind).len(),
                        |i: int| or_any(self.reified[g].doc(kind, i as nat)),
                    )
                } else {
                    Seq::empty()
                },
                None => match self.builtin(name) {
                    Some(n) => Seq::new(
                        n.sockets(kind).len(),
                        |i: int| or_any(n.doc(kind, i as nat)),
                    ),
                    None => Seq::empty(),
                },
            }
        }
    }

    /// What is listed of a node type.
    pub open spec fn command(self, name: Seq<char>, described: Option<Seq<char>>) -> CommandView {
        CommandView {
            name,
            description: self.description(name, described),
            inputs: self.listed(name, SocketKind::Input),
            outputs: self.listed(name, SocketKind::Output),
        }
    }
}

/// A node that refers to a graph by name.
pub open spec fn reference(name: Seq<Seq<char>>, graph: GraphAddr) -> NodeView {
    NodeView {
        tag: NAMED_REF_TAG@,
        data: Seq::empty(),
        named: Some(NamedView { name, graph, sync: true }),
        refs: Seq::empty(),
        blobs: Seq::empty(),
    }
}

/// A view over a registry, what is known of its graphs, and the builtins with an
/// instance of each.
pub struct RegistryRef<'a> {
    ca_registry: &'a Registry<DataGraph>,
    reified: &'a Table<GraphAddr, GraphInfo>,
    builtins: &'a Table<String, NodeData>,
    instances: &'a Table<ContentAddr, NodeInfo>,
}

impl<'a> View for RegistryRef<'a> {
    type V = SourceView;

    closed spec fn view(&self) -> SourceView {
        SourceView {
            reg: self.ca_registry@,
            reified: table::views(self.reified@),
            builtins: table::views(self.builtins@),
            instances: table::views(self.instances@),
        }
    }
}

/// Orders texts.
struct ByText;

/// The order of two strings.
spec fn string_lt() -> spec_fn(String, String) -> bool {
    |a: String, b: String| name::text_lt()(a@, b@)
}

impl Ranker<String> for ByText {
    open spec fn judges(&self, x: String) -> bool {
        true
    }

    closed spec fn lt(&self) -> spec_fn(String, String) -> bool {
        string_lt()
    }

    fn less(&self, a: &String, b: &String) -> (r: bool) {
        name::str_before(a.as_str(), b.as_str())
    }
}

impl<'a> RegistryRef<'a> {
    /// A view over the given tables.
    pub fn new(
        ca_registry: &'a Registry<DataGraph>,
        reified: &'a Table<GraphAddr, GraphInfo>,
        builtins: &'a Table<String, NodeData>,
        instances: &'a Table<ContentAddr, NodeInfo>,
    ) -> (r: Self)
        ensures
            r@.reg == ca_registry@,
            r@.reified == table::views(reified@),
            r@.builtins == table::views(builtins@),
            r@.instances == table::views(instances@),
    {
        RegistryRef { ca_registry, reified, builtins, instances }
    }

    /// The registry.
    pub fn ca_registry(&self) -> (r: &Registry<DataGraph>)
        ensures
            r@ == self@.reg,
    {
        self.ca_registry
    }

    /// What is known of the registry's graphs.
    pub fn reified(&self) -> (r: &Table<GraphAddr, GraphInfo>)
        ensures
            table::views(r@) == self@.reified,
    {
        self.reified
    }

    /// The builtins.
    pub fn builtins(&self) -> (r: &Table<String, NodeData>)
        ensures
            table::views(r@) == self@.builtins,
    {
        self.builtins
    }

    /// An instance of each builtin.
    pub fn instances(&self) -> (r: &Table<ContentAddr, NodeInfo>)
        ensures
            table::views(r@) == self@.instances,
    {
        self.instances
    }

    /// What there is to know of the node at an address. A graph of the registry is a
    /// node; builtins come second.
    pub fn node(&self, ca: &ContentAddr) -> (r: Option<&NodeInfo>)
        ensures
            match r {
                Some(n) => self@.node(*ca) == Some(n@),
                None => self@.node(*ca) is None,
            },
    {
        lookup_node(self.reified, self.instances, ca)
    }

    /// Whether there is a node at an address.
    pub fn node_exists(&self, ca: &ContentAddr) -> (r: bool)
        ensures
            r == self@.node(*ca) is Some,
    {
        self.node(ca).is_some()
    }

    /// The node created for a type: a reference to the graph at the head of that name,
    /// or else the builtin.
    pub fn create_node(&self, node_type: &str) -> (r: Option<NodeData>)
        ensures
            match r {
                Some(n) => self@.created(node_type@) == Some(n@),
                None => self@.created(node_type@) is None,
            },
    {
        let name = Name::parse(node_type);
        match head_graph_addr(self.ca_registry, &name) {
            Some(g) => {
                let r = NodeData {
                    tag: String::from_str(NAMED_REF_TAG),
                    data: Vec::new(),
                    named: Some(NamedRef::new(name, g)),
                    refs: Vec::new(),
                    blobs: Vec::new(),
                };
                assert(r@ =~= reference(name::split(node_type@), g));
                Some(r)
            },
            None => match self.builtins.get(&String::from_str(node_type)) {
                Some(d) => Some(d.dup()),
                None => None,
            },
        }
    }

    fn builtin_addr(&self, name: &str) -> (r: Option<ContentAddr>)
        ensures
            r == self@.builtin_addr(name@),
    {
        match self.builtins.get(&String::from_str(name)) {
            Some(d) => {
                let a = hash::content_addr(d);
                proof {
                    hash::lemma_addr_of(a, data::node_view_bytes(d@));
                }
                Some(a)
            },
            None => None,
        }
    }

    fn builtin(&self, name: &str) -> (r: Option<&NodeInfo>)
        ensures
            match r {
                Some(n) => self@.builtin(name@) == Some(n@),
                None => self@.builtin(name@) is None,
            },
    {
        match self.builtin_addr(name) {
            Some(a) => self.instances.get(&a),
            None => None,
        }
    }

    /// The address that a name stands for: that of the graph at its head, or else that
    /// of the builtin.
    pub fn name_ca(&self, name: &str) -> (r: Option<ContentAddr>)
        ensures
            r == self@.name_ca(name@),
    {
        match head_graph_addr(self.ca_registry, &Name::parse(name)) {
            Some(g) => Some(g.0),
            None => self.builtin_addr(name),
        }
    }

    fn names_function(&self, name: &str) -> (r: bool)
        ensures
            r == self@.names_function(name@),
    {
        match self.name_ca(name) {
            Some(ca) => match self.node(&ca) {
                Some(n) => !n.stateful && n.branches == 0 && n.outputs.len() == 1,
                None => false,
            },
            None => false,
        }
    }

    fn all_names(&self) -> (r: Vec<String>)
        ensures
            text::texts(r@) == self@.all_names(),
    {
        let ghost rv = self@.reg;
        let list = self.builtins.entries();
        let ghost bk = table::key_views(list@);
        proof {
            assert(self@.builtins.dom() =~= self.builtins@.dom());
            table::lemma_listed_keys::<String, NodeData, NodeView>(
                list@,
                self.builtins@,
                self@.builtins,
            );
        }
        let mut r: Vec<String> = Vec::new();
        let mut i: usize = 0;
        while i < list.len()
            invariant
                bk == table::key_views(list@),
                i <= list@.len(),
                text::texts(r@) =~= bk.take(i as int),
            decreases list@.len() - i,
        {
            r.push(list[i].0.clone());
            proof {
                assert(bk.take(i + 1) =~= bk.take(i as int).push(list@[i as int].0@));
            }
            i = i + 1;
        }
        let heads = sync::registry_names(self.ca_registry);
        let ghost f = |n: Seq<Seq<char>>| name::spelled(n);
        let ghost hk = sync::head_names(rv).map_values(f);
        let mut k: usize = 0;
        proof {
            assert(bk.take(i as int) =~= bk);
            assert(text::texts(r@) =~= bk + hk.take(0));
        }
        while k < heads.len()
            invariant
                f == (|n: Seq<Seq<char>>| name::spelled(n)),
                hk == sync::head_names(rv).map_values(f),
                sync::name_views(heads@) == sync::head_names(rv),
                k <= heads@.len(),
                text::texts(r@) =~= bk + hk.take(k as int),
            decreases heads@.len() - k,
        {
            let ghost before = text::texts(r@);
            let t = heads[k].to_text();
            let ghost tv = t@;
            r.push(t);
            proof {
                assert(text::texts(r@) =~= before.push(tv));
                assert(sync::name_views(heads@)[k as int] == heads@[k as int]@);
                assert(hk.take(k + 1) =~= hk.take(k as int).push(tv));
            }
            k = k + 1;
        }
        proof {
            assert(sync::name_views(heads@).len() == heads@.len());
            assert(hk.take(k as int) =~= hk);
            assert(text::texts(r@) =~= self@.all_names());
        }
        r
    }

    /// The names that stand for nodes that can stand for functions, in order.
    pub fn fn_node_names(&self) -> (r: Vec<String>)
        ensures
            text::texts(r@) == order::sorted(self@.functions(self@.all_names()), name::text_lt()),
    {
        let all = self.all_names();
        let ghost av = text::texts(all@);
        let mut r: Vec<String> = Vec::new();
        let mut i: usize = 0;
        assert(av.take(0) =~= Seq::empty());
        while i < all.len()
            invariant
                av == text::texts(all@),
                i <= all@.len(),
                text::texts(r@) =~= self@.functions(av.take(i as int)),
            decreases all@.len() - i,
        {
            proof {
                assert(av.take(i + 1).drop_last() =~= av.take(i as int));
                assert(av.take(i + 1).last() == all@[i as int]@);
            }
            if self.names_function(all[i].as_str()) {
                r.push(all[i].clone());
            }
            i = i + 1;
        }
        proof {
            assert(av.take(i as int) =~= av);
            let f = |s: String| s@;
            order::lemma_sorted_map(r@, f, string_lt(), name::text_lt());
        }
        let r = order::sort(r, &ByText);
        r
    }

    /// The node types to choose from, in order, each once. Graphs nested under another
    /// are not offered.
    pub fn node_types(&self) -> (r: Vec<String>)
        ensures
            forall|i: int, j: int|
                0 <= i < j < r@.len() ==> String::precedes(
                    (#[trigger] r@[i])@,
                    (#[trigger] r@[j])@,
                ),
            forall|ty: Seq<char>| #[trigger]
                self@.offers(ty) <==> text::texts(r@).contains(ty),
    {
        let ghost sv = self@;
        let mut types: KeySet<String> = KeySet::new();
        let _ = types.insert(String::from_str(NESTED_GRAPH_TYPE));
        let list = self.builtins.entries();
        let ghost m = self.builtins@;
        let mut i: usize = 0;
        while i < list.len()
            invariant
                table::lists(list@, m),
                i <= list@.len(),
                forall|ty: Seq<char>| #[trigger]
                    types@.contains(ty) <==> ty == NESTED_GRAPH_TYPE@ || exists|j: int|
                        0 <= j < i && (#[trigger] list@[j]).0@ == ty,
            decreases list@.len() - i,
        {
            let ghost before = types@;
            let _ = types.insert(list[i].0.clone());
            proof {
                assert forall|ty: Seq<char>| #[trigger]
                    types@.contains(ty) <==> ty == NESTED_GRAPH_TYPE@ || exists|j: int|
                        0 <= j < i + 1 && (#[trigger] list@[j]).0@ == ty by {
                    assert(before.contains(ty) <==> ty == NESTED_GRAPH_TYPE@ || exists|j: int|
                        0 <= j < i && (#[trigger] list@[j]).0@ == ty);
                    assert(list@[i as int].0@ == list@[i as int].0@);
                }
            }
            i = i + 1;
        }
        proof {
            assert forall|ty: Seq<char>| #[trigger]
                types@.contains(ty) <==> ty == NESTED_GRAPH_TYPE@ || sv.builtins.contains_key(
                    ty,
                ) by {
                if m.contains_key(ty) {
                    let j = choose|j: int| 0 <= j < list@.len() && #[trigger] list@[j].0@ == ty;
                    assert(list@[j].0@ == ty);
                }
                if exists|j: int| 0 <= j < list@.len() && (#[trigger] list@[j]).0@ == ty {
                    let j = choose|j: int| 0 <= j < list@.len() && (#[trigger] list@[j]).0@ == ty;
                    table::lemma_entry(list@, j);
                }
            }
        }
        let heads = self.ca_registry.heads();
        let ghost rv = sv.reg;
        let mut k: usize = 0;
        while k < heads.len()
            invariant
                rv == sv.reg,
                rv.lists_heads(heads@),
                k <= heads@.len(),
                forall|ty: Seq<char>| #[trigger]
                    types@.contains(ty) <==> ty == NESTED_GRAPH_TYPE@ || sv.builtins.contains_key(
                        ty,
                    ) || exists|j: int| 0 <= j < k && (#[trigger] heads@[j]).0@ == seq![ty],
            decreases heads@.len() - k,
        {
            let ghost before = types@;
            let n = &heads[k].0;
            if !n.is_nested() {
                let segments = n.segments();
                proof {
                    assert(n@.len() == 1);
                    assert(n@ =~= seq![segments@[0]@]);
                }
                let _ = types.insert(segments[0].clone());
            }
            proof {
                assert forall|ty: Seq<char>| #[trigger]
                    types@.contains(ty) <==> ty == NESTED_GRAPH_TYPE@ || sv.builtins.contains_key(
                        ty,
                    ) || exists|j: int|
                        0 <= j < k + 1 && (#[trigger] heads@[j]).0@ == seq![ty] by {
                    assert(before.contains(ty) <==> ty == NESTED_GRAPH_TYPE@
                        || sv.builtins.contains_key(ty) || exists|j: int|
                        0 <= j < k && (#[trigger] heads@[j]).0@ == seq![ty]);
                    assert(seq![ty].len() == 1);
                    assert(seq![ty][0] == ty);
                    if n@ == seq![ty] {
                        assert(heads@[k as int].0@ == seq![ty]);
                    }
                }
            }
            k = k + 1;
        }
        let items = types.items();
        let mut r: Vec<String> = Vec::new();
        let mut x: usize = 0;
        while x < items.len()
            invariant
                x <= items@.len(),
                r@.len() == x,
                forall|j: int| 0 <= j < x ==> (#[trigger] r@[j])@ == items@[j].0@,
            decreases items@.len() - x,
        {
            r.push(items[x].0.clone());
            x = x + 1;
        }
        proof {
            assert forall|ty: Seq<char>| #[trigger]
                sv.offers(ty) <==> text::texts(r@).contains(ty) by {
                assert(types@.contains(ty) <==> sv.offers(ty)) by {
                    if rv.head(seq![ty]) is Some {
                        let j = choose|j: int|
                            0 <= j < heads@.len() && (#[trigger] heads@[j]).0@ == seq![ty];
                        assert(heads@[j].0@ == seq![ty]);
                    }
                }
                if types@.contains(ty) {
                    let j = choose|j: int| 0 <= j < items@.len() && (#[trigger] items@[j]).0@ == ty;
                    assert(text::texts(r@)[j] == ty);
                }
                if text::texts(r@).contains(ty) {
                    let j = text::texts(r@).index_of(ty);
                    assert(r@[j]@ == ty);
                    table::lemma_entry(items@, j);
                }
            }
        }
        r
    }

    /// What is said of a socket of the graph at an address.
    pub fn socket_doc(&self, ca: &ContentAddr, kind: SocketKind, ix: usize) -> (r: Option<SocketDoc>)
        ensures
            socket::doc_view(r) == (if self@.reified.contains_key(GraphAddr(*ca)) {
                self@.reified[GraphAddr(*ca)].doc(kind, ix as nat)
            } else {
                None
            }),
    {
        match self.reified.get(&GraphAddr(*ca)) {
            Some(g) => g.doc(kind, ix),
            None => None,
        }
    }

    /// What is said of a node type. `described` is what the registry says of a head of
    /// that name.
    pub fn node_description(&self, name: &str, described: Option<String>) -> (r: Option<String>)
        ensures
            socket::text_view(r) == self@.description(name@, socket::text_view(described)),
    {
        if String::from_str(name) == String::from_str(NESTED_GRAPH_TYPE) {
            return Some(String::from_str(NESTED_GRAPH_DESCRIPTION));
        }
        if self.ca_registry.head(&Name::parse(name)).is_some() {
            return described;
        }
        match self.builtin(name) {
            Some(n) => socket::dup_text(&n.description),
            None => None,
        }
    }

    fn graph_docs(&self, g: &GraphInfo, kind: SocketKind) -> (r: Vec<SocketDoc>)
        ensures
            socket::doc_views(r@) == Seq::new(
                g@.node.sockets(kind).len(),
                |i: int| or_any(g@.doc(kind, i as nat)),
            ),
    {
        let n: usize = g.node.sockets(kind).len();
        let mut r: Vec<SocketDoc> = Vec::new();
        let mut i: usize = 0;
        while i < n
            invariant
                i <= n,
                r@.len() == i,
                forall|j: int| 0 <= j < i ==> (#[trigger] r@[j])@ == or_any(g@.doc(kind, j as nat)),
            decreases n - i,
        {
            r.push(doc_or_any(g.doc(kind, i)));
            i = i + 1;
        }
        assert(socket::optional_doc_views(
            if kind == SocketKind::Input {
                g.node.inputs@
            } else {
                g.node.outputs@
            },
        ).len() == n);
        assert(socket::doc_views(r@) =~= Seq::new(
            g@.node.sockets(kind).len(),
            |i: int| or_any(g@.doc(kind, i as nat)),
        ));
        r
    }

    fn node_docs(&self, n: &NodeInfo, kind: SocketKind) -> (r: Vec<SocketDoc>)
        ensures
            socket::doc_views(r@) == Seq::new(
                n@.sockets(kind).len(),
                |i: int| or_any(n@.doc(kind, i as nat)),
            ),
    {
        let k: usize = n.sockets(kind).len();
        let mut r: Vec<SocketDoc> = Vec::new();
        let mut i: usize = 0;
        while i < k
            invariant
                i <= k,
                r@.len() == i,
                forall|j: int| 0 <= j < i ==> (#[trigger] r@[j])@ == or_any(n@.doc(kind, j as nat)),
            decreases k - i,
        {
            r.push(doc_or_any(n.doc(kind, i)));
            i = i + 1;
        }
        assert(n@.sockets(kind).len() == k);
        assert(socket::doc_views(r@) =~= Seq::new(
            n@.sockets(kind).len(),
            |i: int| or_any(n@.doc(kind, i as nat)),
        ));
        r
    }

    /// What is listed of a node type: its sockets are those of the graph at the head of
    /// that name, or else of the builtin. `described` is what the registry says of a
    /// head of that name.
    pub fn command_info(&self, name: &str, described: Option<String>) -> (r: CommandInfo)
        ensures
            r@ == self@.command(name@, socket::text_view(described)),
    {
        let description = self.node_description(name, described);
        let mut info = CommandInfo {
            name: String::from_str(name),
            description,
            inputs: Vec::new(),
            outputs: Vec::new(),
        };
        proof {
            assert(info@.inputs =~= Seq::empty());
            assert(info@.outputs =~= Seq::empty());
        }
        if String::from_str(name) == String::from_str(NESTED_GRAPH_TYPE) {
            return info;
        }
        match head_graph_addr(self.ca_registry, &Name::parse(name)) {
            Some(g) => {
                if let Some(graph) = self.reified.get(&g) {
                    info.inputs = self.graph_docs(graph, SocketKind::Input);
                    info.outputs = self.graph_docs(graph, SocketKind::Output);
                }
            },
            None => {
                if let Some(n) = self.builtin(name) {
                    info.inputs = self.node_docs(n, SocketKind::Input);
                    info.outputs = self.node_docs(n, SocketKind::Output);
                }
            },
        }
        info
    }
}

/// A named graph comes before the builtin of the same name, in every lookup.
pub proof fn law_named_graphs_shadow_builtins(s: SourceView, name: Seq<char>)
    requires
        head_graph(s.reg, name::split(name)) is Some,
    ensures
        ({
            let g = head_graph(s.reg, name::split(name))->0;
            s.name_ca(name) == Some(g.0)
        }),
        s.created(name) == Some(
            reference(name::split(name), head_graph(s.reg, name::split(name))->0),
        ),
{
}

/// What is created for a name refers to the address that the name stands for.
pub proof fn law_created_node_is_what_the_name_stands_for(s: SourceView, name: Seq<char>)
    ensures
        s.created(name) is Some <==> s.name_ca(name) is Some,
        s.created(name) is Some ==> match s.created(name)->0.named {
            Some(r) if head_graph(s.reg, name::split(name)) is Some => s.name_ca(name) == Some(
                r.graph.0,
            ),
            _ => s.name_ca(name) == Some(
                hash::addr_of(data::node_view_bytes(s.created(name)->0)),
            ),
        },
{
}

/// The nodes that make a graph's sockets are its inlets for the inputs and its outlets for
/// the outputs, in their order.
pub proof fn law_sockets_are_the_markers_in_order(a: Seq<InfoView>, b: Seq<InfoView>, n: InfoView)
    ensures
        forall|kind: SocketKind| #[trigger]
            markers(a + b, kind) == markers(a, kind) + markers(b, kind),
        markers(seq![n], SocketKind::Input) == (if n.inlet {
            seq![n]
        } else {
            Seq::empty()
        }),
        markers(seq![n], SocketKind::Output) == (if n.outlet {
            seq![n]
        } else {
            Seq::empty()
        }),
    decreases b.len(),
{
    assert(seq![n].drop_last() =~= Seq::empty());
    assert(markers(Seq::empty(), SocketKind::Input) =~= Seq::empty());
    assert(markers(Seq::empty(), SocketKind::Output) =~= Seq::empty());
    assert(Seq::<InfoView>::empty().push(n) =~= seq![n]);
    assert forall|kind: SocketKind| #[trigger] markers(a + b, kind) == markers(a, kind) + markers(
        b,
        kind,
    ) by {
        if b.len() == 0 {
            assert(a + b =~= a);
            assert(markers(a, kind) + markers(b, kind) =~= markers(a, kind));
        } else {
            law_sockets_are_the_markers_in_order(a, b.drop_last(), n);
            assert((a + b).drop_last() =~= a + b.drop_last());
            assert((a + b).last() == b.last());
            assert(markers(a + b.drop_last(), kind) == markers(a, kind) + markers(
                b.drop_last(),
                kind,
            ));
            assert(markers(a + b, kind) =~= markers(a, kind) + markers(b, kind));
        }
    }
}

/// A graph's input is described by what its inlet gives inside the graph, and its output by
/// what its outlet takes: each by the first socket that faces the inside.
pub proof fn law_sockets_are_described_from_inside(g: GraphInfoView, i: nat)
    ensures
        ({
            let m = markers(g.nodes, SocketKind::Input);
            g.doc(SocketKind::Input, i) == (if i < m.len() && m[i as int].outputs.len() > 0 {
                m[i as int].outputs[0]
            } else {
                None
            })
        }),
        ({
            let m = markers(g.nodes, SocketKind::Output);
            g.doc(SocketKind::Output, i) == (if i < m.len() && m[i as int].inputs.len() > 0 {
                m[i as int].inputs[0]
            } else {
                None
            })
        }),
{
}

/// The functions among names are those that stand for a stateless node that does not
/// branch and has one output, in their order.
pub proof fn law_functions_are_stateless_with_one_output(
    s: SourceView,
    a: Seq<Seq<char>>,
    b: Seq<Seq<char>>,
    n: Seq<char>,
)
    ensures
        s.functions(a + b) == s.functions(a) + s.functions(b),
        ({
            let fits = s.name_ca(n) is Some && s.node(s.name_ca(n)->0) is Some && {
                let i = s.node(s.name_ca(n)->0)->0;
                !i.stateful && i.branches == 0 && i.outputs.len() == 1
            };
            s.functions(seq![n]) == (if fits {
                seq![n]
            } else {
                Seq::empty()
            })
        }),
    decreases b.len(),
{
    assert(seq![n].drop_last() =~= Seq::empty());
    assert(s.functions(Seq::empty()) =~= Seq::empty());
    assert(Seq::<Seq<char>>::empty().push(n) =~= seq![n]);
    if b.len() == 0 {
        assert(a + b =~= a);
        assert(s.functions(a) + s.functions(b) =~= s.functions(a));
    } else {
        law_functions_are_stateless_with_one_output(s, a, b.drop_last(), n);
        assert((a + b).drop_last() =~= a + b.drop_last());
        assert((a + b).last() == b.last());
        assert(s.functions(a + b) =~= s.functions(a) + s.functions(b));
    }
}

/// A command lists a socket for every socket of what its name stands for, each with its
/// description where it has one: those of the named graph where there is one, else those
/// of the builtin.
pub proof fn law_command_lists_every_socket(
    s: SourceView,
    name: Seq<char>,
    described: Option<Seq<char>>,
    i: int,
)
    requires
        name != NESTED_GRAPH_TYPE@,
    ensures
        ({
            let c = s.command(name, described);
            &&& c.name == name
            &&& match head_graph(s.reg, name::split(name)) {
                Some(g) => if s.reified.contains_key(g) {
                    let info = s.reified[g];
                    &&& c.inputs.len() == info.node.inputs.len()
                    &&& c.outputs.len() == info.node.outputs.len()
                    &&& 0 <= i < c.inputs.len() && info.doc(SocketKind::Input, i as nat) is Some
                        ==> c.inputs[i] == info.doc(SocketKind::Input, i as nat)->0
                    &&& 0 <= i < c.outputs.len() && info.doc(SocketKind::Output, i as nat) is Some
                        ==> c.outputs[i] == info.doc(SocketKind::Output, i as nat)->0
                } else {
                    c.inputs.len() == 0 && c.outputs.len() == 0
                },
                None => match s.builtin(name) {
                    Some(n) => {
                        &&& c.inputs.len() == n.inputs.len()
                        &&& c.outputs.len() == n.outputs.len()
                        &&& 0 <= i < c.inputs.len() && n.inputs[i] is Some ==> c.inputs[i]
                            == n.inputs[i]->0
                        &&& 0 <= i < c.outputs.len() && n.outputs[i] is Some ==> c.outputs[i]
                            == n.outputs[i]->0
                        &&& s.reg.head(name::split(name)) is None ==> c.description
                            == n.description
                    },
                    None => c.inputs.len() == 0 && c.outputs.len() == 0,
                },
            }
            &&& s.reg.head(name::split(name)) is Some ==> c.description == described
        }),
{
}

/// A node is looked up by its address: a graph that is known under it comes first, and an
/// instance is given where there is none.
pub proof fn law_graphs_are_looked_up_first(
    cache: Map<GraphAddr, GraphInfoView>,
    instances: Map<ContentAddr, InfoView>,
    a: ContentAddr,
)
    ensures
        cache.contains_key(GraphAddr(a)) ==> looked_up(cache, instances, a) == Some(
            cache[GraphAddr(a)].node,
        ),
        !cache.contains_key(GraphAddr(a)) && instances.contains_key(a) ==> looked_up(
            cache,
            instances,
            a,
        ) == Some(instances[a]),
        looked_up(cache, instances, a) is None <==> !cache.contains_key(GraphAddr(a))
            && !instances.contains_key(a),
{
}

/// The names that are known are those of the builtins and those of the heads, spelled out.
pub proof fn law_known_names_are_builtins_and_heads(s: SourceView, n: Seq<Seq<char>>, b: Seq<char>)
    requires
        s.builtins.dom().finite(),
        sync::heads_map(s.reg).dom().finite(),
    ensures
        s.builtins.contains_key(b) ==> s.all_names().contains(b),
        s.reg.head(n) is Some ==> s.all_names().contains(name::spelled(n)),
        s.all_names().contains(b) ==> s.builtins.contains_key(b) || exists|m: Seq<Seq<char>>|
            #[trigger] s.reg.head(m) is Some && name::spelled(m) == b,
{
    let keys = table::keys_of::<String, NodeView>(s.builtins);
    let heads = sync::head_names(s.reg);
    let spelled = heads.map_values(|n: Seq<Seq<char>>| name::spelled(n));
    let all = s.all_names();
    table::lemma_keys_of::<String, NodeView>(s.builtins);
    table::lemma_keys_of::<Name, CommitAddr>(sync::heads_map(s.reg));
    if s.builtins.contains_key(b) {
        assert(keys.contains(b));
        assert(all[keys.index_of(b)] == b);
    }
    if s.reg.head(n) is Some {
        assert(sync::heads_map(s.reg).contains_key(n));
        assert(heads.contains(n));
        let i = heads.index_of(n);
        assert(spelled[i] == name::spelled(n));
        assert(all[keys.len() + i] == name::spelled(n));
    }
    if all.contains(b) {
        let i = all.index_of(b);
        assert(all[i] == b);
        if i < keys.len() {
            assert(keys[i] == b);
            assert(keys.contains(keys[i]));
        } else {
            let m = heads[i - keys.len()];
            assert(heads.contains(m));
            assert(sync::heads_map(s.reg).contains_key(m));
            assert(s.reg.head(m) is Some && name::spelled(m) == b);
        }
    }
}

} // verus!
