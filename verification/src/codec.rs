//! Between nodes as data and nodes as values.
//!
//! A codec carries a set of node types as values: what turns data into a node, and with
//! every node what turns it back.

use crate::addr::ContentAddr;
use crate::data::{self, DataGraph, NodeData, NodeView};
use crate::edge::Edge;
use crate::graph::{Graph, GraphAddr};
use crate::hash;
use crate::registry::{Payload, Registry};
use crate::table::{self, Table};
use vstd::prelude::*;

verus! {

/// Why a node's data did not become a node.
#[derive(Debug)]
pub struct ReifyNodeError {
    /// The kind of node.
    pub tag: String,
    pub message: String,
}

/// Why a node did not become data.
#[derive(Debug)]
pub struct EraseNodeError {
    /// The kind of node.
    pub tag: String,
    pub message: String,
}

/// Why a graph's data did not become a graph.
#[derive(Debug)]
pub struct ReifyError {
    /// The index of the node that failed.
    pub node_ix: usize,
    pub source: ReifyNodeError,
}

/// Why a node's data could not be brought into its own normal form.
#[derive(Debug)]
pub enum NormalizeNodeError {
    /// It did not become a node.
    Reify(ReifyNodeError),
    /// The node did not become data again.
    Erase(EraseNodeError),
}

impl ReifyNodeError {
    /// No node type of the set has the tag of the data.
    pub fn unknown(node_data: &NodeData) -> (r: Self)
        ensures
            r.tag@ == node_data.tag@,
            r.message@ == "unknown node type tag"@,
    {
        ReifyNodeError {
            tag: node_data.tag.clone(),
            message: String::from_str("unknown node type tag"),
        }
    }
}

/// A node with what turns it back into data.
pub struct UiNodeInstance<N, E> {
    pub node: N,
    pub erase: E,
}

impl<N, E: Fn(&N) -> Result<NodeData, EraseNodeError>> UiNodeInstance<N, E> {
    /// Pairs a node with what turns it back into data.
    pub fn new(node: N, erase: E) -> (r: Self)
        ensures
            r.node == node,
            r.erase == erase,
    {
        UiNodeInstance { node, erase }
    }

    /// The node as data.
    pub fn erase(&self) -> (r: Result<NodeData, EraseNodeError>)
        requires
            call_requires(self.erase, (&self.node,)),
        ensures
            call_ensures(self.erase, (&self.node,), r),
    {
        (self.erase)(&self.node)
    }
}

/// What turns data into nodes.
pub struct NodeCodec<R> {
    pub reify: R,
}

/// Whether `f` takes any data, and any node it gives can be handed to its eraser.
pub open spec fn reifies<
    N,
    E: Fn(&N) -> Result<NodeData, EraseNodeError>,
    R: Fn(&NodeData) -> Result<UiNodeInstance<N, E>, ReifyNodeError>,
>(f: R) -> bool {
    &&& forall|d: &NodeData| call_requires(f, (d,))
    &&& forall|d: &NodeData, i: UiNodeInstance<N, E>|
        #[trigger] call_ensures(f, (d,), Ok(i)) ==> call_requires(i.erase, (&i.node,))
}

/// Whether `f` can make `n` of the data.
pub open spec fn makes<
    N,
    E: Fn(&N) -> Result<NodeData, EraseNodeError>,
    R: Fn(&NodeData) -> Result<UiNodeInstance<N, E>, ReifyNodeError>,
>(f: R, d: NodeData, n: N) -> bool {
    exists|i: UiNodeInstance<N, E>| i.node == n && #[trigger] call_ensures(f, (&d,), Ok(i))
}

impl<R> NodeCodec<R> {
    /// A codec over what turns data into nodes.
    pub fn new(reify: R) -> (r: Self)
        ensures
            r.reify == reify,
    {
        NodeCodec { reify }
    }

    /// The node that some data stands for.
    pub fn reify_ui<N, E: Fn(&N) -> Result<NodeData, EraseNodeError>>(
        &self,
        node_data: &NodeData,
    ) -> (r: Result<UiNodeInstance<N, E>, ReifyNodeError>) where
        R: Fn(&NodeData) -> Result<UiNodeInstance<N, E>, ReifyNodeError>,

        requires
            call_requires(self.reify, (node_data,)),
        ensures
            call_ensures(self.reify, (node_data,), r),
    {
        (self.reify)(node_data)
    }

    /// The graph that some data stands for: every node in its slot, the edges as they
    /// are. It fails with the first node that does.
    pub fn reify_graph<N, E: Fn(&N) -> Result<NodeData, EraseNodeError>>(&self, dg: &DataGraph) -> (r:
        Result<Graph<N, Edge>, ReifyError>) where
        R: Fn(&NodeData) -> Result<UiNodeInstance<N, E>, ReifyNodeError>,

        requires
            reifies::<N, E, R>(self.reify),
        ensures
            match r {
                Ok(g) => {
                    &&& g.wf()
                    &&& g.edges@ == dg.held().edges@
                    &&& g.nodes@.len() == dg.held().nodes@.len()
                    &&& forall|i: int|
                        0 <= i < g.nodes@.len() ==> match (#[trigger] g.nodes@[i]) {
                            Some(n) => dg.held().nodes@[i] matches Some(d) && makes::<N, E, R>(
                                self.reify,
                                d,
                                n,
                            ),
                            None => dg.held().nodes@[i] is None,
                        }
                },
                Err(e) => {
                    &&& dg.held().has(e.node_ix as int)
                    &&& call_ensures(
                        self.reify,
                        (&dg.held().nodes@[e.node_ix as int]->0,),
                        Err::<UiNodeInstance<N, E>, ReifyNodeError>(e.source),
                    )
                    &&& forall|i: int|
                        0 <= i < e.node_ix && dg.held().has(i) ==> exists|n: N|
                            makes::<N, E, R>(self.reify, (#[trigger] dg.held().nodes@[i])->0, n)
                },
            },
    {
        let src = dg.graph();
        let ghost f = self.reify;
        let mut nodes: Vec<Option<N>> = Vec::new();
        let mut i: usize = 0;
        while i < src.nodes.len()
            invariant
                reifies::<N, E, R>(f),
                f == self.reify,
                i <= src.nodes@.len(),
                nodes@.len() == i,
                forall|j: int|
                    0 <= j < i ==> match (#[trigger] nodes@[j]) {
                        Some(n) => src.nodes@[j] matches Some(d) && makes::<N, E, R>(f, d, n),
                        None => src.nodes@[j] is None,
                    },
                *src == dg.held(),
            decreases src.nodes@.len() - i,
        {
            match &src.nodes[i] {
                Some(d) => match self.reify_ui(d) {
                    Ok(inst) => {
                        assert(call_ensures(f, (d,), Ok(inst)));
                        assert(makes::<N, E, R>(f, *d, inst.node));
                        nodes.push(Some(inst.node));
                    },
                    Err(source) => {
                        proof {
                            assert forall|j: int| 0 <= j < i && dg.held().has(j) implies exists|n: N|
                                makes::<N, E, R>(f, (#[trigger] dg.held().nodes@[j])->0, n) by {
                                assert(nodes@[j] is Some);
                                assert(makes::<N, E, R>(f, dg.held().nodes@[j]->0, nodes@[j]->0));
                            }
                        }
                        return Err(ReifyError { node_ix: i, source });
                    },
                },
                None => {
                    nodes.push(None);
                },
            }
            i = i + 1;
        }
        let edges = data::dup_edges(&src.edges);
        let g = Graph { nodes, edges };
        proof {
            assert forall|k: int| 0 <= k < g.edges@.len() implies g.has(
                (#[trigger] g.edges@[k]).source as int,
            ) && g.has(g.edges@[k].target as int) by {
                let e = src.edges@[k];
                assert(src.has(e.source as int) && src.has(e.target as int));
                assert(g.nodes@[e.source as int] is Some);
                assert(g.nodes@[e.target as int] is Some);
            }
        }
        Ok(g)
    }

    /// A node's data in the normal form of its type: made a node, and data again.
    pub fn normalize<N, E: Fn(&N) -> Result<NodeData, EraseNodeError>>(
        &self,
        node_data: &NodeData,
    ) -> (r: Result<NodeData, NormalizeNodeError>) where
        R: Fn(&NodeData) -> Result<UiNodeInstance<N, E>, ReifyNodeError>,

        requires
            reifies::<N, E, R>(self.reify),
        ensures
            match r {
                Ok(d) => exists|i: UiNodeInstance<N, E>| #[trigger]
                    call_ensures(self.reify, (node_data,), Ok(i)) && call_ensures(
                        i.erase,
                        (&i.node,),
                        Ok(d),
                    ),
                Err(NormalizeNodeError::Reify(e)) => call_ensures(
                    self.reify,
                    (node_data,),
                    Err::<UiNodeInstance<N, E>, ReifyNodeError>(e),
                ),
                Err(NormalizeNodeError::Erase(e)) => exists|i: UiNodeInstance<N, E>| #[trigger]
                    call_ensures(self.reify, (node_data,), Ok(i)) && call_ensures(
                        i.erase,
                        (&i.node,),
                        Err::<NodeData, EraseNodeError>(e),
                    ),
            },
    {
        match self.reify_ui(node_data) {
            Ok(inst) => match inst.erase() {
                Ok(d) => Ok(d),
                Err(e) => Err(NormalizeNodeError::Erase(e)),
            },
            Err(e) => Err(NormalizeNodeError::Reify(e)),
        }
    }
}

/// The instances among the outcomes of reifying the listed data, each under the address
/// of its data.
pub open spec fn reified<N>(
    datas: Seq<NodeView>,
    outcomes: Seq<Result<N, ReifyNodeError>>,
) -> Map<ContentAddr, N>
    decreases outcomes.len(),
{
    if outcomes.len() == 0 {
        Map::empty()
    } else {
        let init = reified(datas, outcomes.drop_last());
        match outcomes.last() {
            Ok(n) => init.insert(
                hash::addr_of(data::node_view_bytes(datas[outcomes.len() - 1])),
                n,
            ),
            Err(_) => init,
        }
    }
}

/// The errors among some outcomes.
pub open spec fn failures<N>(outcomes: Seq<Result<N, ReifyNodeError>>) -> Seq<ReifyNodeError>
    decreases outcomes.len(),
{
    if outcomes.len() == 0 {
        Seq::empty()
    } else {
        let init = failures(outcomes.drop_last());
        match outcomes.last() {
            Ok(_) => init,
            Err(e) => init.push(e),
        }
    }
}

/// What the builtins of a listing denote, in order.
pub open spec fn data_views(s: Seq<(String, NodeData)>) -> Seq<NodeView> {
    s.map_values(|e: (String, NodeData)| e.1@)
}

/// Whether `outcomes` are outcomes of `f` on the listed builtins.
pub open spec fn outcomes_of<N, F: Fn(&NodeData) -> Result<N, ReifyNodeError>>(
    f: F,
    list: Seq<(String, NodeData)>,
    outcomes: Seq<Result<N, ReifyNodeError>>,
) -> bool {
    &&& outcomes.len() == list.len()
    &&& forall|i: int|
        0 <= i < list.len() ==> call_ensures(f, (&list[i].1,), #[trigger] outcomes[i])
}

/// The builtins, with an instance of each, by the address of its data.
#[derive(Debug)]
pub struct BuiltinNodes<N> {
    pub builtins: Table<String, NodeData>,
    pub instances: Table<ContentAddr, N>,
}

impl<N> BuiltinNodes<N> {
    /// Makes an instance of every builtin. One that fails is without an instance, and
    /// its error is handed back.
    pub fn reify<F: Fn(&NodeData) -> Result<N, ReifyNodeError>>(
        builtins: Table<String, NodeData>,
        f: F,
    ) -> (r: (Self, Vec<ReifyNodeError>))
        requires
            forall|d: &NodeData| call_requires(f, (d,)),
        ensures
            r.0.builtins == builtins,
            exists|list: Seq<(String, NodeData)>, outcomes: Seq<Result<N, ReifyNodeError>>|
                {
                    &&& table::lists(list, builtins@)
                    &&& #[trigger] outcomes_of(f, list, outcomes)
                    &&& r.0.instances@ == reified(data_views(list), outcomes)
                    &&& r.1@ == failures(outcomes)
                },
    {
        let mut instances: Table<ContentAddr, N> = Table::new();
        let mut errs: Vec<ReifyNodeError> = Vec::new();
        let list = builtins.entries();
        let ghost dv = data_views(list@);
        let ghost mut outcomes: Seq<Result<N, ReifyNodeError>> = Seq::empty();
        let mut i: usize = 0;
        while i < list.len()
            invariant
                forall|d: &NodeData| call_requires(f, (d,)),
                table::lists(list@, builtins@),
                dv == data_views(list@),
                i <= list@.len(),
                outcomes.len() == i,
                forall|j: int|
                    0 <= j < i ==> call_ensures(f, (&list@[j].1,), #[trigger] outcomes[j]),
                instances@ == reified(dv, outcomes),
                errs@ == failures(outcomes),
            decreases list@.len() - i,
        {
            let d = &list[i].1;
            let o = f(d);
            proof {
                assert(outcomes.push(o).drop_last() =~= outcomes);
                outcomes = outcomes.push(o);
                assert(dv[i as int] == d@);
            }
            match o {
                Ok(n) => {
                    let addr = hash::content_addr(d);
                    proof {
                        hash::lemma_addr_of(addr, data::node_view_bytes(d@));
                    }
                    instances.insert(addr, n);
                },
                Err(e) => {
                    errs.push(e);
                },
            }
            i = i + 1;
        }
        assert(outcomes_of(f, list@, outcomes));
        (BuiltinNodes { builtins, instances }, errs)
    }

    /// No builtins.
    pub fn new() -> (r: Self)
        ensures
            r.builtins@ == Map::<Seq<char>, NodeData>::empty(),
            r.instances@ == Map::<ContentAddr, N>::empty(),
    {
        BuiltinNodes { builtins: Table::new(), instances: Table::new() }
    }
}

/// Graphs of a registry as values, by address. What is in it stays as it is.
#[derive(Debug)]
pub struct GraphCache<N>(pub Table<GraphAddr, N>);

/// The cache with what came of making the listed graphs values; none where a graph was
/// cached already.
pub open spec fn filled<N>(
    start: Map<GraphAddr, N>,
    keys: Seq<GraphAddr>,
    outcomes: Seq<Option<Result<N, ReifyError>>>,
) -> Map<GraphAddr, N>
    decreases outcomes.len(),
{
    if outcomes.len() == 0 {
        start
    } else {
        let init = filled(start, keys, outcomes.drop_last());
        match outcomes.last() {
            Some(Ok(n)) => init.insert(keys[outcomes.len() - 1], n),
            _ => init,
        }
    }
}

/// The graphs that failed, each with its error.
pub open spec fn failed<N>(
    keys: Seq<GraphAddr>,
    outcomes: Seq<Option<Result<N, ReifyError>>>,
) -> Seq<(GraphAddr, ReifyError)>
    decreases outcomes.len(),
{
    if outcomes.len() == 0 {
        Seq::empty()
    } else {
        let init = failed(keys, outcomes.drop_last());
        match outcomes.last() {
            Some(Err(e)) => init.push((keys[outcomes.len() - 1], e)),
            _ => init,
        }
    }
}

/// Whether `outcomes` are outcomes of `f` on those of the listed graphs that are not in
/// the cache.
pub open spec fn tried<G: Payload, N, F: Fn(&G) -> Result<N, ReifyError>>(
    f: F,
    start: Map<GraphAddr, N>,
    list: Seq<(GraphAddr, G)>,
    outcomes: Seq<Option<Result<N, ReifyError>>>,
) -> bool {
    &&& outcomes.len() <= list.len()
    &&& forall|i: int|
        0 <= i < outcomes.len() ==> match #[trigger] outcomes[i] {
            Some(o) => !start.contains_key(list[i].0) && call_ensures(f, (&list[i].1,), o),
            None => start.contains_key(list[i].0),
        }
}

proof fn lemma_filled<N>(
    start: Map<GraphAddr, N>,
    keys: Seq<GraphAddr>,
    outcomes: Seq<Option<Result<N, ReifyError>>>,
    a: GraphAddr,
)
    requires
        outcomes.len() <= keys.len(),
        forall|i: int| 0 <= i < outcomes.len() ==> #[trigger] keys[i] != a,
    ensures
        filled(start, keys, outcomes).contains_key(a) == start.contains_key(a),
    decreases outcomes.len(),
{
    if outcomes.len() > 0 {
        lemma_filled(start, keys, outcomes.drop_last(), a);
        assert(keys[outcomes.len() - 1] != a);
    }
}

/// Brings the cache up to the registry: every graph that it lacks is made a value. One
/// that fails stays out, and its error is handed back.
pub fn refresh_cache<G: Payload, N, F: Fn(&G) -> Result<N, ReifyError>>(
    reg: &Registry<G>,
    cache: &mut GraphCache<N>,
    f: F,
) -> (errs: Vec<(GraphAddr, ReifyError)>)
    requires
        forall|g: &G| call_requires(f, (g,)),
    ensures
        exists|list: Seq<(GraphAddr, G)>, outcomes: Seq<Option<Result<N, ReifyError>>>|
            {
                &&& table::lists(list, reg.graphs@)
                &&& #[trigger] tried(f, old(cache).0@, list, outcomes)
                &&& outcomes.len() == list.len()
                &&& final(cache).0@ == filled(old(cache).0@, table::key_views(list), outcomes)
                &&& errs@ == failed(table::key_views(list), outcomes)
            },
{
    let ghost start = cache.0@;
    let list = reg.graphs.entries();
    let ghost keys = table::key_views(list@);
    let ghost mut outcomes: Seq<Option<Result<N, ReifyError>>> = Seq::empty();
    let mut errs: Vec<(GraphAddr, ReifyError)> = Vec::new();
    let mut i: usize = 0;
    while i < list.len()
        invariant
            forall|g: &G| call_requires(f, (g,)),
            table::lists(list@, reg.graphs@),
            keys == table::key_views(list@),
            i <= list@.len(),
            outcomes.len() == i,
            tried(f, start, list@, outcomes),
            cache.0@ == filled(start, keys, outcomes),
            errs@ == failed(keys, outcomes),
        decreases list@.len() - i,
    {
        let a: GraphAddr = list[i].0;
        proof {
            assert(keys[i as int] == a);
            assert forall|j: int| 0 <= j < outcomes.len() implies #[trigger] keys[j] != a by {
                if keys[j] == a {
                    table::lemma_ascending_unique(list@, i as int, j);
                }
            }
            lemma_filled(start, keys, outcomes, a);
        }
        let ghost before = outcomes;
        if cache.0.contains_key(&a) {
            proof {
                outcomes = outcomes.push(None);
            }
        } else {
            let o = f(&list[i].1);
            proof {
                outcomes = outcomes.push(Some(o));
            }
            match o {
                Ok(n) => {
                    cache.0.insert(a, n);
                },
                Err(e) => {
                    errs.push((a, e));
                },
            }
        }
        proof {
            assert(outcomes.drop_last() =~= before);
        }
        i = i + 1;
    }
    errs
}

/// A cache only grows: what is in it stays as it is.
pub proof fn law_cache_only_grows<G: Payload, N, F: Fn(&G) -> Result<N, ReifyError>>(
    f: F,
    start: Map<GraphAddr, N>,
    list: Seq<(GraphAddr, G)>,
    outcomes: Seq<Option<Result<N, ReifyError>>>,
    a: GraphAddr,
)
    requires
        tried(f, start, list, outcomes),
        start.contains_key(a),
    ensures
        filled(start, table::key_views(list), outcomes).contains_key(a),
        filled(start, table::key_views(list), outcomes)[a] == start[a],
    decreases outcomes.len(),
{
    if outcomes.len() > 0 {
        let init = outcomes.drop_last();
        assert forall|i: int| 0 <= i < init.len() implies match #[trigger] init[i] {
            Some(o) => !start.contains_key(list[i].0) && call_ensures(f, (&list[i].1,), o),
            None => start.contains_key(list[i].0),
        } by {
            assert(init[i] == outcomes[i]);
        }
        law_cache_only_grows(f, start, list, init, a);
        let last = outcomes.len() - 1;
        assert(outcomes[last] == outcomes.last());
        assert(table::key_views(list)[last] == list[last].0);
    }
}

/// Every node that could be made is kept under the address of its data, and no other
/// address is; where two data have one address, the later is kept.
pub proof fn law_made_nodes_are_kept_by_address<N>(
    datas: Seq<NodeView>,
    outcomes: Seq<Result<N, ReifyNodeError>>,
    i: int,
    a: ContentAddr,
)
    requires
        datas.len() >= outcomes.len(),
    ensures
        0 <= i < outcomes.len() && outcomes[i] is Ok && hash::addr_of(
            data::node_view_bytes(datas[i]),
        ) == a && (forall|j: int|
            i < j < outcomes.len() && (#[trigger] outcomes[j]) is Ok ==> hash::addr_of(
                data::node_view_bytes(datas[j]),
            ) != a) ==> reified(datas, outcomes).contains_key(a) && reified(datas, outcomes)[a]
            == outcomes[i]->Ok_0,
        reified(datas, outcomes).contains_key(a) ==> exists|j: int|
            0 <= j < outcomes.len() && (#[trigger] outcomes[j]) is Ok && hash::addr_of(
                data::node_view_bytes(datas[j]),
            ) == a,
    decreases outcomes.len(),
{
    if outcomes.len() > 0 {
        let init = outcomes.drop_last();
        law_made_nodes_are_kept_by_address(datas, init, i, a);
        assert(outcomes[outcomes.len() - 1] == outcomes.last());
        if 0 <= i < init.len() && (forall|j: int|
            i < j < outcomes.len() && (#[trigger] outcomes[j]) is Ok ==> hash::addr_of(
                data::node_view_bytes(datas[j]),
            ) != a) {
            assert(init[i] == outcomes[i]);
            assert forall|j: int| i < j < init.len() && (#[trigger] init[j]) is Ok implies hash::addr_of(
                data::node_view_bytes(datas[j]),
            ) != a by {
                assert(init[j] == outcomes[j]);
            }
        }
        if reified(datas, init).contains_key(a) {
            let j = choose|j: int|
                0 <= j < init.len() && (#[trigger] init[j]) is Ok && hash::addr_of(
                    data::node_view_bytes(datas[j]),
                ) == a;
            assert(outcomes[j] is Ok);
        }
    }
}

/// The failures are those of the nodes that could not be made, in their order.
pub proof fn law_failures_are_reported_in_order<N>(
    a: Seq<Result<N, ReifyNodeError>>,
    b: Seq<Result<N, ReifyNodeError>>,
    o: Result<N, ReifyNodeError>,
)
    ensures
        failures(a + b) == failures(a) + failures(b),
        failures(seq![o]) == (match o {
            Ok(_) => Seq::empty(),
            Err(e) => seq![e],
        }),
    decreases b.len(),
{
    assert(seq![o].drop_last() =~= Seq::empty());
    assert(failures(Seq::<Result<N, ReifyNodeError>>::empty()) =~= Seq::empty());
    if let Err(e) = o {
        assert(Seq::<ReifyNodeError>::empty().push(e) =~= seq![e]);
    }
    if b.len() == 0 {
        assert(a + b =~= a);
        assert(failures(a) + failures(b) =~= failures(a));
    } else {
        law_failures_are_reported_in_order(a, b.drop_last(), o);
        assert((a + b).drop_last() =~= a + b.drop_last());
        assert((a + b).last() == b.last());
        assert(failures(a + b) =~= failures(a) + failures(b));
    }
}

/// A graph that was not there is kept where it could be made, and only there, and its
/// error is reported where it could not.
pub proof fn law_tried_graphs_are_kept_or_reported<N>(
    start: Map<GraphAddr, N>,
    keys: Seq<GraphAddr>,
    outcomes: Seq<Option<Result<N, ReifyError>>>,
    i: int,
    e: ReifyError,
)
    requires
        outcomes.len() <= keys.len(),
        forall|x: int, y: int|
            0 <= x < y < keys.len() ==> (#[trigger] keys[x]) != (#[trigger] keys[y]),
        0 <= i < keys.len(),
    ensures
        !start.contains_key(keys[i]) ==> (filled(start, keys, outcomes).contains_key(keys[i])
            <==> i < outcomes.len() && outcomes[i] is Some && outcomes[i]->0 is Ok),
        i < outcomes.len() && outcomes[i] is Some && outcomes[i]->0 is Ok ==> filled(
            start,
            keys,
            outcomes,
        )[keys[i]] == outcomes[i]->0->Ok_0,
        failed(keys, outcomes).contains((keys[i], e)) <==> i < outcomes.len() && outcomes[i]
            == Some(Err::<N, ReifyError>(e)),
    decreases outcomes.len(),
{
    if outcomes.len() > 0 {
        let init = outcomes.drop_last();
        law_tried_graphs_are_kept_or_reported(start, keys, init, i, e);
        let last = outcomes.len() - 1;
        assert(outcomes[last] == outcomes.last());
        if i < last {
            assert(init[i] == outcomes[i]);
            assert(keys[i] != keys[last]);
        } else if last < i {
            assert(keys[last] != keys[i]);
        }
        if let Some(Err(x)) = outcomes.last() {
            let pre = failed(keys, init);
            let p = pre.push((keys[last], x));
            assert(p[p.len() - 1] == (keys[last], x));
            assert(p.contains((keys[i], e)) <==> pre.contains((keys[i], e)) || (keys[last], x) == (
                keys[i],
                e,
            )) by {
                if pre.contains((keys[i], e)) {
                    assert(p[pre.index_of((keys[i], e))] == (keys[i], e));
                }
                if p.contains((keys[i], e)) {
                    let j = p.index_of((keys[i], e));
                    assert(p[j] == (keys[i], e));
                    if j < pre.len() {
                        assert(pre[j] == (keys[i], e));
                    }
                }
            }
        }
    }
}

} // verus!
