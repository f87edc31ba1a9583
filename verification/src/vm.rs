//! When a head's graph is compiled, what becomes of its nodes' state, and what is
//! reported.
//!
//! A head is compiled from its committed graph. The inputs of the last attempt are kept,
//! so that a head is compiled again when they change, and only then.

use crate::commit::{self, CommitAddr, CommitView, Timestamp};
use crate::data::{self, DataGraph, GraphView, NodeView};
use crate::graph::GraphAddr;
use crate::hash;
use crate::head::{Head, HeadView};
use crate::navigate::{self, Matching};
use crate::order::Key;
use crate::registry::{Registry, RegistryView};
use crate::sync::DataView;
use vstd::prelude::*;

verus! {

/// How code is generated.
#[derive(Clone, Copy, Debug, PartialEq, Eq, Structural)]
pub struct Config {
    /// Whether functions are emitted for nodes that no entry point leads to.
    pub emit_all_node_fns: bool,
}

/// What determines a head's compiled module.
#[derive(Clone, Copy, Debug)]
pub struct Inputs {
    /// The committed graph.
    pub graph: GraphAddr,
    pub config: Config,
}

impl Inputs {
    /// Whether both inputs agree.
    pub fn same(&self, other: &Inputs) -> (r: bool)
        ensures
            r == (*self == *other),
    {
        self.graph.same(&other.graph) && self.config == other.config
    }
}

/// The inputs of a head's last attempt, whether it succeeded or not; none where none was
/// made.
#[derive(Clone, Copy, Debug)]
pub struct CompiledInputs(pub Option<Inputs>);

/// What a head's compilation comes to.
#[derive(Clone, Copy, Debug)]
pub enum Compile {
    /// Nothing to do.
    Skip,
    /// Start over: there is no VM to keep state in.
    Init(Inputs),
    /// Compile in place: the VM keeps its nodes' state.
    InPlace(Inputs),
}

/// What a head is to be compiled from, when the inputs of its last attempt were `memo`.
pub open spec fn due<T>(
    rv: RegistryView<T>,
    head: HeadView,
    memo: Option<Inputs>,
    config: Config,
) -> Option<Inputs> {
    match rv.head_commit(head) {
        Some(c) => {
            let inputs = Inputs { graph: c.graph, config };
            if memo == Some(inputs) {
                None
            } else {
                Some(inputs)
            }
        },
        None => None,
    }
}

/// Decides how a head is compiled. A head without a commit is passed over, as is one
/// whose inputs are those of its last attempt.
pub fn sync_head(
    reg: &Registry<DataGraph>,
    head: &Head,
    memo: &CompiledInputs,
    config: Config,
    has_vm: bool,
) -> (r: Compile)
    ensures
        r == (match due(reg@, head@, memo.0, config) {
            Some(inputs) => if has_vm {
                Compile::InPlace(inputs)
            } else {
                Compile::Init(inputs)
            },
            None => Compile::Skip,
        }),
{
    match reg.head_commit(head) {
        Some(c) => {
            let inputs = Inputs { graph: c.graph, config };
            let fresh = match &memo.0 {
                Some(m) => !m.same(&inputs),
                None => true,
            };
            if !fresh {
                Compile::Skip
            } else if has_vm {
                Compile::InPlace(inputs)
            } else {
                Compile::Init(inputs)
            }
        },
        None => Compile::Skip,
    }
}

/// A head is not compiled again from the inputs of its last attempt, whether that
/// succeeded or not.
pub proof fn law_attempt_is_not_repeated<T>(
    rv: RegistryView<T>,
    head: HeadView,
    memo: Option<Inputs>,
    config: Config,
)
    ensures
        due(rv, head, memo, config) matches Some(inputs) ==> due(rv, head, Some(inputs), config)
            is None,
{
}

/// How severe a diagnostic is.
#[derive(Clone, Copy, Debug, PartialEq, Eq, Structural)]
pub enum Severity {
    Warning,
    Error,
    /// It came up in an evaluation.
    Runtime,
}

/// Something to report of a head's graph.
#[derive(Debug)]
pub struct Diagnostic {
    pub severity: Severity,
    pub message: String,
}

/// The module of a head, and the error of the last attempt.
#[derive(Debug)]
pub struct Module<C> {
    pub compiled: Option<C>,
    pub error: Option<String>,
}

/// What came of a failed compilation.
#[derive(Debug)]
pub struct CompileFailure<C> {
    /// The error with its causes.
    pub error: String,
    pub diagnostics: Vec<Diagnostic>,
    /// What was generated before it failed.
    pub module: Option<C>,
}

/// The module and the diagnostics that an attempt leaves with its head.
pub fn compile_components<C>(result: Result<C, CompileFailure<C>>) -> (r: (Module<C>, Vec<Diagnostic>))
    ensures
        match result {
            Ok(c) => r.0.compiled == Some(c) && r.0.error is None && r.1@.len() == 0,
            Err(e) => r.0.compiled == e.module && r.0.error == Some(e.error) && r.1
                == e.diagnostics,
        },
{
    match result {
        Ok(c) => (Module { compiled: Some(c), error: None }, Vec::new()),
        Err(e) => (Module { compiled: e.module, error: Some(e.error) }, e.diagnostics),
    }
}

/// The diagnostics that did not come up in an evaluation.
pub open spec fn standing(s: Seq<Diagnostic>) -> Seq<Diagnostic>
    decreases s.len(),
{
    if s.len() == 0 {
        Seq::empty()
    } else {
        let init = standing(s.drop_last());
        if s.last().severity != Severity::Runtime {
            init.push(s.last())
        } else {
            init
        }
    }
}

/// The diagnostics after an evaluation: those of earlier evaluations are dropped, and
/// `failure` is added where this one failed.
pub fn after_eval(diagnostics: Vec<Diagnostic>, failure: Option<Diagnostic>) -> (r: Vec<Diagnostic>)
    ensures
        r@ == (match failure {
            Some(d) => standing(diagnostics@).push(d),
            None => standing(diagnostics@),
        }),
{
    let ghost all = diagnostics@;
    let mut rest = diagnostics;
    let mut r: Vec<Diagnostic> = Vec::new();
    let mut i: usize = 0;
    let n: usize = rest.len();
    proof {
        assert(all.take(0) =~= Seq::empty());
        assert(all.skip(0) =~= all);
    }
    while i < n
        invariant
            n == all.len(),
            i <= n,
            rest@ == all.skip(i as int),
            r@ == standing(all.take(i as int)),
        decreases n - i,
    {
        let d = rest.remove(0);
        proof {
            assert(d == all[i as int]);
            assert(rest@ =~= all.skip(i + 1));
            assert(all.take(i + 1).drop_last() =~= all.take(i as int));
            assert(all.take(i + 1).last() == d);
        }
        if d.severity != Severity::Runtime {
            r.push(d);
        }
        i = i + 1;
    }
    assert(all.take(i as int) =~= all);
    if let Some(d) = failure {
        r.push(d);
    }
    r
}

proof fn lemma_standing(s: Seq<Diagnostic>)
    ensures
        forall|i: int| 0 <= i < standing(s).len() ==> (#[trigger] standing(s)[i]).severity
            != Severity::Runtime,
    decreases s.len(),
{
    if s.len() > 0 {
        lemma_standing(s.drop_last());
    }
}

/// What is reported of evaluations is what is reported of the latest: whatever the one
/// before left behind, a success leaves nothing of it.
pub proof fn law_diagnostics_reflect_the_latest_evaluation(s: Seq<Diagnostic>, d: Diagnostic)
    requires
        d.severity == Severity::Runtime,
    ensures
        standing(standing(s).push(d)) == standing(s),
{
    lemma_standing(s);
    let t = standing(s);
    assert(t.push(d).drop_last() =~= t);
    lemma_standing_keeps(t);
}

proof fn lemma_standing_keeps(t: Seq<Diagnostic>)
    requires
        forall|i: int| 0 <= i < t.len() ==> (#[trigger] t[i]).severity != Severity::Runtime,
    ensures
        standing(t) == t,
    decreases t.len(),
{
    if t.len() > 0 {
        assert forall|i: int| 0 <= i < t.drop_last().len() implies (#[trigger] t.drop_last()[i]).severity
            != Severity::Runtime by {
            assert(t.drop_last()[i] == t[i]);
        }
        lemma_standing_keeps(t.drop_last());
        assert(t[t.len() - 1].severity != Severity::Runtime);
        assert(t.drop_last().push(t.last()) =~= t);
    }
}

/// What becomes of a VM when its head moves.
#[derive(Debug)]
pub enum Migration {
    /// There is none.
    Nothing,
    /// It is dropped, and its state with it.
    Drop,
    /// It stays, and the state of every matched node goes with the node.
    Remap(Matching),
}

/// Decides what becomes of a head's VM when the head moves from one commit to another.
/// It is dropped only where no matching can be had. A remapping that fails drops it too.
pub fn migrate_vm_state(
    reg: &Registry<DataGraph>,
    has_vm: bool,
    from: Option<CommitAddr>,
    to: Option<CommitAddr>,
) -> (r: Migration)
    ensures
        match (from, to) {
            (Some(a), Some(b)) => if !has_vm {
                r is Nothing
            } else {
                match navigate::navigation(reg@, a, b) {
                    Some(m) => r matches Migration::Remap(n) && n@ == m,
                    None => r is Drop,
                }
            },
            _ => r is Drop,
        },
{
    match (from, to) {
        (Some(a), Some(b)) => {
            if !has_vm {
                return Migration::Nothing;
            }
            match navigate::navigation_matching(reg, a, b) {
                Some(m) => Migration::Remap(m),
                None => Migration::Drop,
            }
        },
        _ => Migration::Drop,
    }
}

/// The commit of a graph on a head.
pub open spec fn commit_on(
    rv: DataView,
    timestamp: Timestamp,
    graph: GraphAddr,
    head: HeadView,
) -> CommitView {
    CommitView { timestamp, parent: rv.head_addr(head), graph, merge_parents: Seq::empty() }
}

/// The address of that commit.
pub open spec fn commit_on_addr(
    rv: DataView,
    timestamp: Timestamp,
    graph: GraphAddr,
    head: HeadView,
) -> CommitAddr {
    CommitAddr(hash::addr_of(commit::commit_bytes(commit_on(rv, timestamp, graph, head))))
}

/// Where a head is once a graph was committed on it: a branch keeps its name.
pub open spec fn moved_head(head: HeadView, c: CommitAddr) -> HeadView {
    match head {
        HeadView::Branch(n) => HeadView::Branch(n),
        HeadView::Commit(_) => HeadView::Commit(c),
    }
}

/// With a graph committed on a head.
pub open spec fn committed_to_head(
    rv: DataView,
    timestamp: Timestamp,
    addr: GraphAddr,
    graph: GraphView<NodeView>,
    head: HeadView,
) -> DataView {
    match head {
        HeadView::Branch(n) => rv.with_graph_on(timestamp, addr, graph, n),
        HeadView::Commit(_) => RegistryView {
            graphs: if rv.graphs.contains_key(addr) {
                rv.graphs
            } else {
                rv.graphs.insert(addr, graph)
            },
            commits: rv.commits.insert(
                commit_on_addr(rv, timestamp, addr, head),
                commit_on(rv, timestamp, addr, head),
            ),
            ..rv
        },
    }
}

/// Commits a head's working graph where it has diverged from the head's commit, moves
/// the head, and returns where the head was. It returns `None`, with nothing changed,
/// for a head without a commit and for a graph that is already committed.
pub fn commit_working_graph(
    reg: &mut Registry<DataGraph>,
    timestamp: Timestamp,
    head: &mut Head,
    graph: DataGraph,
) -> (r: Option<Head>)
    ensures
        match old(reg)@.head_commit(old(head)@) {
            Some(c) if c.graph != data::data_addr(graph@) => {
                &&& r matches Some(before) && before@ == old(head)@
                &&& final(reg)@ == committed_to_head(
                    old(reg)@,
                    timestamp,
                    data::data_addr(graph@),
                    graph@,
                    old(head)@,
                )
                &&& final(head)@ == moved_head(
                    old(head)@,
                    commit_on_addr(old(reg)@, timestamp, data::data_addr(graph@), old(head)@),
                )
            },
            _ => r is None && final(reg)@ == old(reg)@ && final(head)@ == old(head)@,
        },
{
    let ghost rv = reg@;
    let ghost hv = head@;
    let addr = data::graph_addr(&graph);
    match reg.head_commit(head) {
        None => {
            return None;
        },
        Some(c) => {
            if c.graph.same(&addr) {
                return None;
            }
        },
    }
    let before = head.dup();
    let moved = match &before {
        Head::Branch(n) => {
            let _ = reg.commit_graph_to_name(timestamp, addr, graph, n);
            before.dup()
        },
        Head::Commit(c) => {
            let ghost cv = commit_on(rv, timestamp, addr, hv);
            if !reg.graphs.contains_key(&addr) {
                reg.insert_graph_at(addr, graph);
            }
            let new = reg.commit_graph(timestamp, Some(*c), addr);
            proof {
                hash::lemma_addr_of(new.0, commit::commit_bytes(cv));
                assert(reg@ =~= committed_to_head(rv, timestamp, addr, graph@, hv));
            }
            Head::Commit(new)
        },
    };
    *head = moved;
    Some(before)
}

/// After a commit the head's commit records the working graph: nothing is left to
/// commit.
pub proof fn law_committed_graph_is_not_committed_again(
    rv: DataView,
    timestamp: Timestamp,
    graph: GraphView<NodeView>,
    head: HeadView,
)
    requires
        rv.head_commit(head) is Some,
    ensures
        ({
            let addr = data::data_addr(graph);
            let after = committed_to_head(rv, timestamp, addr, graph, head);
            let moved = moved_head(head, commit_on_addr(rv, timestamp, addr, head));
            after.head_commit(moved) == Some(commit_on(rv, timestamp, addr, head))
        }),
{
    let addr = data::data_addr(graph);
    let c = commit_on_addr(rv, timestamp, addr, head);
    match head {
        HeadView::Branch(n) => {
            assert(rv.next_addr(timestamp, addr, n) == c);
            assert(rv.with_graph_on(timestamp, addr, graph, n).head(n) == Some(c));
        },
        HeadView::Commit(_) => {},
    }
}

/// Whether a head's working graph is the one its commit records, as it should be once
/// whatever changed it has returned.
pub fn validate_committed(reg: &Registry<DataGraph>, head: &Head, working: GraphAddr) -> (r: bool)
    ensures
        r == (reg@.head_commit(head@) matches Some(c) && c.graph == working),
{
    match reg.head_commit(head) {
        Some(c) => c.graph.same(&working),
        None => false,
    }
}

/// A graph is due to be evaluated where its head leads to a commit and either its graph
/// or the settings are not those of the last attempt. What is evaluated is the graph of
/// that commit, with the settings given.
pub proof fn law_changed_graph_is_due<T>(
    rv: RegistryView<T>,
    head: HeadView,
    memo: Option<Inputs>,
    config: Config,
)
    ensures
        ({
            let d = due(rv, head, memo, config);
            &&& d is Some <==> rv.head_commit(head) is Some && !(memo is Some && memo->0.graph
                == rv.head_commit(head)->0.graph && memo->0.config == config)
            &&& d is Some ==> d->0.graph == rv.head_commit(head)->0.graph && d->0.config == config
        }),
{
}

/// What a head leads to: a branch to the commit that the name points to, and a commit to
/// itself, as far as the commit is there.
pub proof fn law_head_leads_to_its_commit<T>(rv: RegistryView<T>, n: Seq<Seq<char>>, c: CommitAddr)
    ensures
        rv.commits.contains_key(c) ==> rv.head_commit(HeadView::Commit(c)) == Some(rv.commits[c]),
        !rv.commits.contains_key(c) ==> rv.head_commit(HeadView::Commit(c)) is None,
        rv.head(n) == Some(c) ==> rv.head_commit(HeadView::Branch(n)) == rv.head_commit(
            HeadView::Commit(c),
        ),
        rv.head(n) is None ==> rv.head_commit(HeadView::Branch(n)) is None,
{
}

/// A graph that is committed to a head is what the head then leads to, in a commit that
/// comes after the one it led to before. A branch keeps its name and moves, a commit head
/// becomes the new commit, and no branch but that one moves. Every graph and commit that
/// was there stays.
pub proof fn law_commit_moves_its_head(
    rv: DataView,
    timestamp: Timestamp,
    addr: GraphAddr,
    graph: GraphView<NodeView>,
    head: HeadView,
    n: Seq<Seq<char>>,
    g: GraphAddr,
)
    ensures
        ({
            let c = commit_on_addr(rv, timestamp, addr, head);
            let after = committed_to_head(rv, timestamp, addr, graph, head);
            let moved = moved_head(head, c);
            let commit = after.head_commit(moved)->0;
            &&& after.head_addr(moved) == Some(c)
            &&& after.head_commit(moved) is Some
            &&& commit.graph == addr && commit.timestamp == timestamp
            &&& commit.parent == rv.head_addr(head) && commit.merge_parents.len() == 0
            &&& after.graphs.contains_key(addr)
            &&& !rv.graphs.contains_key(addr) ==> after.graphs[addr] == graph
            &&& rv.graphs.contains_key(g) ==> after.graphs.contains_key(g) && after.graphs[g]
                == rv.graphs[g]
            &&& head is Branch ==> moved == head
            &&& head is Commit ==> moved == HeadView::Commit(c)
            &&& head != HeadView::Branch(n) ==> after.head(n) == rv.head(n)
            &&& after.blobs == rv.blobs
        }),
{
    let c = commit_on_addr(rv, timestamp, addr, head);
    match head {
        HeadView::Branch(b) => {
            assert(rv.next_addr(timestamp, addr, b) == c);
            assert(rv.with_head(b, c).head(b) == Some(c));
            if n != b {
                assert(rv.with_head(b, c).head(n) == rv.head(n));
            }
        },
        HeadView::Commit(_) => {},
    }
}

/// What stands of diagnostics is all but those of running, in their order.
pub proof fn law_what_was_found_beforehand_stands(
    a: Seq<Diagnostic>,
    b: Seq<Diagnostic>,
    d: Diagnostic,
)
    ensures
        standing(a + b) == standing(a) + standing(b),
        standing(seq![d]) == (if d.severity == Severity::Runtime {
            Seq::empty()
        } else {
            seq![d]
        }),
    decreases b.len(),
{
    assert(seq![d].drop_last() =~= Seq::empty());
    assert(standing(Seq::empty()) =~= Seq::empty());
    assert(Seq::<Diagnostic>::empty().push(d) =~= seq![d]);
    if b.len() == 0 {
        assert(a + b =~= a);
        assert(standing(a) + standing(b) =~= standing(a));
    } else {
        law_what_was_found_beforehand_stands(a, b.drop_last(), d);
        assert((a + b).drop_last() =~= a + b.drop_last());
        assert((a + b).last() == b.last());
        assert(standing(a + b) =~= standing(a) + standing(b));
    }
}

} // verus!
