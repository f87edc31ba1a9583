//! The signal flow of a graph: which dsp outputs feed which dsp inputs.

use crate::edge::Edge;
use crate::graph::{EdgeRef, Graph};
use crate::node::{NodeDsp, ToNodeDsp};
use crate::order::{self, Ranker};
use crate::topo;
use vstd::prelude::*;

verus! {

/// The DSP side of the node in slot `i`.
pub open spec fn dsp_at<N: ToNodeDsp>(g: Graph<N, Edge>, i: int) -> Option<N::Dsp> {
    if g.has(i) {
        g.nodes@[i]->0.dsp()
    } else {
        None
    }
}

/// The number of dsp inputs of the node in slot `i`.
pub open spec fn n_in<N: ToNodeDsp>(g: Graph<N, Edge>, i: int) -> nat {
    match dsp_at(g, i) {
        Some(d) => d.dsp_inputs(),
        None => 0,
    }
}

/// Whether slot `i` holds a dsp sink: an audio output or a monitor.
pub open spec fn is_sink<N: ToNodeDsp>(g: Graph<N, Edge>, i: int) -> bool {
    match dsp_at(g, i) {
        Some(d) => d.output_sink() || d.monitor_sink(),
        None => false,
    }
}

/// Whether slot `i` holds a boundary.
pub open spec fn cuts<N: ToNodeDsp>(g: Graph<N, Edge>, i: int) -> bool {
    match dsp_at(g, i) {
        Some(d) => d.boundary(),
        None => false,
    }
}

/// The path of the node in slot `i`.
pub open spec fn path_at<N: ToNodeDsp>(g: Graph<N, Edge>, i: int) -> Seq<usize> {
    if g.has(i) {
        g.nodes@[i]->0.path(i as usize)
    } else {
        Seq::empty()
    }
}

/// The path of every slot.
pub open spec fn node_paths<N: ToNodeDsp>(g: Graph<N, Edge>) -> Seq<Seq<usize>> {
    Seq::new(g.nodes@.len(), |i: int| path_at(g, i))
}

/// The indices below `n` at which `p` holds, ascending.
pub open spec fn indices(n: nat, p: spec_fn(int) -> bool) -> Seq<usize>
    decreases n,
{
    if n == 0 {
        Seq::empty()
    } else if p(n - 1) {
        indices((n - 1) as nat, p).push((n - 1) as usize)
    } else {
        indices((n - 1) as nat, p)
    }
}

/// What [`indices`] holds.
pub proof fn lemma_indices(n: nat, p: spec_fn(int) -> bool)
    requires
        n <= usize::MAX,
    ensures
        forall|i: usize| #[trigger] indices(n, p).contains(i) <==> i < n && p(i as int),
        forall|k: int| 0 <= k < indices(n, p).len() ==> #[trigger] indices(n, p)[k] < n,
        indices(n, p).no_duplicates(),
    decreases n,
{
    if n > 0 {
        let m = (n - 1) as nat;
        lemma_indices(m, p);
        let s = indices(m, p);
        if p(n - 1) {
            let t = indices(n, p);
            assert(t == s.push(m as usize));
            assert forall|i: usize| #[trigger] t.contains(i) <==> i < n && p(i as int) by {
                if s.contains(i) {
                    let k = choose|k: int| 0 <= k < s.len() && s[k] == i;
                    assert(t[k] == i);
                }
                if i == m {
                    assert(t[s.len() as int] == i);
                }
                if t.contains(i) {
                    let k = choose|k: int| 0 <= k < t.len() && t[k] == i;
                    if k < s.len() {
                        assert(s[k] == i);
                    }
                }
            }
            assert(!s.contains(m as usize));
        }
    }
}

/// Every dsp sink of the graph, by index.
pub open spec fn sinks<N: ToNodeDsp>(g: Graph<N, Edge>) -> Seq<usize> {
    indices(g.nodes@.len(), |i: int| is_sink(g, i))
}

/// Whether an edge carries a dsp source into dsp input `i` of node `n`.
pub open spec fn feeds_input<N: ToNodeDsp>(g: Graph<N, Edge>, e: EdgeRef<Edge>, n: int, i: int) -> bool {
    &&& e.target == n
    &&& e.weight.input.0 == i
    &&& i < n_in(g, n)
    &&& dsp_at(g, e.source as int) is Some
}

/// The dsp sources among the first `k` edges that feed input `i` of node `n`:
/// each source's index and output port, in edge order.
pub open spec fn arrivals<N: ToNodeDsp>(g: Graph<N, Edge>, k: nat, n: int, i: int) -> Seq<
    (usize, usize),
>
    decreases k,
{
    if k == 0 {
        Seq::empty()
    } else {
        let e = g.edges@[k - 1];
        let before = arrivals(g, (k - 1) as nat, n, i);
        if feeds_input(g, e, n, i) {
            before.push((e.source, e.weight.output.0 as usize))
        } else {
            before
        }
    }
}

/// The order of two numbers.
pub open spec fn index_lt() -> spec_fn(usize, usize) -> bool {
    |a: usize, b: usize| a < b
}

/// The canonical order of summands: by the source's path, then by output port.
pub open spec fn summand_order(paths: Seq<Seq<usize>>) -> spec_fn((usize, usize), (usize, usize)) -> bool {
    |a: (usize, usize), b: (usize, usize)|
        order::lex_lt(paths[a.0 as int], paths[b.0 as int], index_lt()) || (paths[a.0 as int]
            == paths[b.0 as int] && a.1 < b.1)
}

/// The summands of input `i` of node `n`, in canonical order: the index and
/// output port of every dsp source wired into it.
pub open spec fn summands<N: ToNodeDsp>(g: Graph<N, Edge>, n: int, i: int) -> Seq<(usize, usize)> {
    order::sorted(arrivals(g, g.edges@.len(), n, i), summand_order(node_paths(g)))
}

/// The summands of every dsp input of every node.
pub open spec fn sources<N: ToNodeDsp>(g: Graph<N, Edge>) -> Seq<Seq<Seq<(usize, usize)>>> {
    Seq::new(
        g.nodes@.len(),
        |n: int| Seq::new(n_in(g, n), |i: int| summands(g, n, i)),
    )
}

/// The summands of all inputs, one input after the other.
pub open spec fn flat(ins: Seq<Seq<(usize, usize)>>) -> Seq<(usize, usize)>
    decreases ins.len(),
{
    if ins.len() == 0 {
        Seq::empty()
    } else {
        flat(ins.drop_last()) + ins.last()
    }
}

/// The nodes of a list of summands.
pub open spec fn nodes_of(s: Seq<(usize, usize)>) -> Seq<usize> {
    s.map_values(|p: (usize, usize)| p.0)
}

/// For every node, the nodes that its inputs sum.
pub open spec fn flow_deps<N: ToNodeDsp>(g: Graph<N, Edge>) -> Seq<Seq<usize>> {
    Seq::new(g.nodes@.len(), |n: int| nodes_of(flat(sources(g)[n])))
}

/// Numbers are strictly and totally ordered.
pub proof fn lemma_index_order()
    ensures
        order::strict_total(index_lt()),
{
    assert forall|a: usize| !#[trigger] index_lt()(a, a) by {}
    assert forall|a: usize, b: usize, c: usize| #[trigger] index_lt()(a, b) && #[trigger] index_lt()(b, c)
        implies index_lt()(a, c) by {}
    assert forall|a: usize, b: usize| a == b || #[trigger] index_lt()(a, b) || index_lt()(b, a) by {}
}

/// Whether the first path comes before the second.
pub fn path_before(a: &Vec<usize>, b: &Vec<usize>) -> (r: bool)
    ensures
        r == order::lex_lt(a@, b@, index_lt()),
{
    proof {
        lemma_index_order();
    }
    let mut i: usize = 0;
    while i < a.len() && i < b.len()
        invariant
            i <= a@.len(),
            i <= b@.len(),
            order::strict_total(index_lt()),
            forall|j: int| 0 <= j < i ==> a@[j] == b@[j],
        decreases a@.len() - i,
    {
        if a[i] != b[i] {
            proof {
                order::lemma_lex_at(a@, b@, i as int, index_lt());
            }
            return a[i] < b[i];
        }
        i = i + 1;
    }
    proof {
        order::lemma_lex_at(a@, b@, i as int, index_lt());
    }
    i < b.len()
}

/// Whether the two paths are the same.
pub fn path_same(a: &Vec<usize>, b: &Vec<usize>) -> (r: bool)
    ensures
        r == (a@ == b@),
{
    if a.len() != b.len() {
        return false;
    }
    let mut i: usize = 0;
    while i < a.len()
        invariant
            i <= a@.len(),
            a@.len() == b@.len(),
            forall|j: int| 0 <= j < i ==> a@[j] == b@[j],
        decreases a@.len() - i,
    {
        if a[i] != b[i] {
            return false;
        }
        i = i + 1;
    }
    assert(a@ =~= b@);
    true
}

/// Orders summands by their source's path and output port.
pub struct SummandRanker<'a> {
    pub paths: &'a Vec<Vec<usize>>,
}

impl<'a> Ranker<(usize, usize)> for SummandRanker<'a> {
    open spec fn judges(&self, x: (usize, usize)) -> bool {
        x.0 < self.paths@.len()
    }

    open spec fn lt(&self) -> spec_fn((usize, usize), (usize, usize)) -> bool {
        summand_order(topo::views(self.paths@))
    }

    fn less(&self, a: &(usize, usize), b: &(usize, usize)) -> (r: bool) {
        let pa = &self.paths[a.0];
        let pb = &self.paths[b.0];
        path_before(pa, pb) || (path_same(pa, pb) && a.1 < b.1)
    }
}

/// The path of every slot.
pub fn all_paths<N: ToNodeDsp>(g: &Graph<N, Edge>) -> (r: Vec<Vec<usize>>)
    ensures
        topo::views(r@) == node_paths(*g),
{
    let mut r: Vec<Vec<usize>> = Vec::new();
    let mut i: usize = 0;
    while i < g.nodes.len()
        invariant
            i <= g.nodes@.len(),
            r@.len() == i,
            forall|j: int| 0 <= j < i ==> #[trigger] r@[j]@ == path_at(*g, j),
        decreases g.nodes@.len() - i,
    {
        let p: Vec<usize> = match &g.nodes[i] {
            Some(n) => n.node_path(i),
            None => Vec::new(),
        };
        assert(p@ =~= path_at(*g, i as int));
        r.push(p);
        i = i + 1;
    }
    assert(topo::views(r@) =~= node_paths(*g));
    r
}

/// Every dsp sink of the graph: an audio output or a monitor.
pub fn dsp_sinks<N: ToNodeDsp>(g: &Graph<N, Edge>) -> (r: Vec<usize>)
    ensures
        r@ == sinks(*g),
{
    let mut r: Vec<usize> = Vec::new();
    let ghost p = |i: int| is_sink(*g, i);
    let mut i: usize = 0;
    while i < g.nodes.len()
        invariant
            i <= g.nodes@.len(),
            p == |i: int| is_sink(*g, i),
            r@ == indices(i as nat, p),
        decreases g.nodes@.len() - i,
    {
        let sink = match &g.nodes[i] {
            Some(n) => match n.to_node_dsp() {
                Some(d) => d.is_output() || d.is_monitor(),
                None => false,
            },
            None => false,
        };
        assert(sink == is_sink(*g, i as int));
        if sink {
            r.push(i);
        }
        i = i + 1;
    }
    r
}

/// Whether the node in slot `i` is a DSP node.
pub fn is_dsp<N: ToNodeDsp>(g: &Graph<N, Edge>, i: usize) -> (r: bool)
    ensures
        r == (dsp_at(*g, i as int) is Some),
{
    if i < g.nodes.len() {
        match &g.nodes[i] {
            Some(n) => n.to_node_dsp().is_some(),
            None => false,
        }
    } else {
        false
    }
}

/// The number of dsp inputs of the node in slot `i`.
pub fn dsp_inputs<N: ToNodeDsp>(g: &Graph<N, Edge>, i: usize) -> (r: usize)
    ensures
        r == n_in(*g, i as int),
{
    if i < g.nodes.len() {
        match &g.nodes[i] {
            Some(n) => match n.to_node_dsp() {
                Some(d) => d.n_dsp_inputs(),
                None => 0,
            },
            None => 0,
        }
    } else {
        0
    }
}

/// Whether slot `i` holds a boundary.
pub fn is_boundary<N: ToNodeDsp>(g: &Graph<N, Edge>, i: usize) -> (r: bool)
    ensures
        r == cuts(*g, i as int),
{
    if i < g.nodes.len() {
        match &g.nodes[i] {
            Some(n) => match n.to_node_dsp() {
                Some(d) => d.is_boundary(),
                None => false,
            },
            None => false,
        }
    } else {
        false
    }
}

/// What arrives at an input comes from dsp nodes of the graph.
pub proof fn lemma_arrivals<N: ToNodeDsp>(g: Graph<N, Edge>, k: nat, n: int, i: int)
    requires
        g.wf(),
        k <= g.edges@.len(),
    ensures
        forall|j: int|
            0 <= j < arrivals(g, k, n, i).len() ==> (#[trigger] arrivals(g, k, n, i)[j]).0
                < g.nodes@.len() && dsp_at(g, arrivals(g, k, n, i)[j].0 as int) is Some,
    decreases k,
{
    if k > 0 {
        lemma_arrivals(g, (k - 1) as nat, n, i);
        let e = g.edges@[k - 1];
        assert(g.has(e.source as int));
    }
}

/// Summands are dsp nodes of the graph.
pub proof fn lemma_summands<N: ToNodeDsp>(g: Graph<N, Edge>, n: int, i: int)
    requires
        g.wf(),
    ensures
        forall|j: int|
            0 <= j < summands(g, n, i).len() ==> (#[trigger] summands(g, n, i)[j]).0
                < g.nodes@.len() && dsp_at(g, summands(g, n, i)[j].0 as int) is Some,
{
    let a = arrivals(g, g.edges@.len(), n, i);
    let s = summands(g, n, i);
    lemma_arrivals(g, g.edges@.len(), n, i);
    order::lemma_sorted_multiset(a, summand_order(node_paths(g)));
    assert forall|j: int| 0 <= j < s.len() implies (#[trigger] s[j]).0 < g.nodes@.len() && dsp_at(
        g,
        s[j].0 as int,
    ) is Some by {
        broadcast use vstd::seq_lib::group_to_multiset_ensures;

        assert(s.to_multiset().count(s[j]) > 0);
        assert(a.contains(s[j]));
        let k = choose|k: int| 0 <= k < a.len() && a[k] == s[j];
        assert(a[k].0 < g.nodes@.len());
    }
}

fn input_summands<N: ToNodeDsp>(g: &Graph<N, Edge>, paths: &Vec<Vec<usize>>, n: usize, i: usize) -> (r:
    Vec<(usize, usize)>)
    requires
        g.wf(),
        topo::views(paths@) == node_paths(*g),
        n < g.nodes@.len(),
        i < n_in(*g, n as int),
    ensures
        r@ == summands(*g, n as int, i as int),
{
    let mut r: Vec<(usize, usize)> = Vec::new();
    let mut k: usize = 0;
    while k < g.edges.len()
        invariant
            k <= g.edges@.len(),
            i < n_in(*g, n as int),
            r@ == arrivals(*g, k as nat, n as int, i as int),
        decreases g.edges@.len() - k,
    {
        let e = &g.edges[k];
        if e.target == n && e.weight.input.0 as usize == i && is_dsp(g, e.source) {
            r.push((e.source, e.weight.output.0 as usize));
        }
        k = k + 1;
    }
    proof {
        lemma_arrivals(*g, g.edges@.len(), n as int, i as int);
        assert(topo::views(paths@).len() == paths@.len());
    }
    let ranker = SummandRanker { paths };
    order::sort(r, &ranker)
}

/// What the summand lists of a node denote.
pub open spec fn lists(v: Seq<Vec<(usize, usize)>>) -> Seq<Seq<(usize, usize)>> {
    v.map_values(|x: Vec<(usize, usize)>| x@)
}

/// What the summand lists of all nodes denote.
pub open spec fn all_lists(v: Seq<Vec<Vec<(usize, usize)>>>) -> Seq<Seq<Seq<(usize, usize)>>> {
    v.map_values(|x: Vec<Vec<(usize, usize)>>| lists(x@))
}

/// The summands of every dsp input of every node.
pub fn resolved_sources<N: ToNodeDsp>(g: &Graph<N, Edge>, paths: &Vec<Vec<usize>>) -> (r: Vec<
    Vec<Vec<(usize, usize)>>,
>)
    requires
        g.wf(),
        topo::views(paths@) == node_paths(*g),
    ensures
        all_lists(r@) == sources(*g),
{
    let mut r: Vec<Vec<Vec<(usize, usize)>>> = Vec::new();
    let mut n: usize = 0;
    while n < g.nodes.len()
        invariant
            g.wf(),
            topo::views(paths@) == node_paths(*g),
            n <= g.nodes@.len(),
            r@.len() == n,
            forall|j: int| 0 <= j < n ==> lists(#[trigger] r@[j]@) == sources(*g)[j],
        decreases g.nodes@.len() - n,
    {
        let count: usize = dsp_inputs(g, n);
        let mut ins: Vec<Vec<(usize, usize)>> = Vec::new();
        let mut i: usize = 0;
        while i < count
            invariant
                g.wf(),
                topo::views(paths@) == node_paths(*g),
                n < g.nodes@.len(),
                count == n_in(*g, n as int),
                i <= count,
                ins@.len() == i,
                forall|j: int| 0 <= j < i ==> (#[trigger] ins@[j])@ == summands(*g, n as int, j),
            decreases count - i,
        {
            ins.push(input_summands(g, paths, n, i));
            i = i + 1;
        }
        assert(lists(ins@) =~= sources(*g)[n as int]);
        r.push(ins);
        n = n + 1;
    }
    assert(all_lists(r@) =~= sources(*g));
    r
}

/// The summands of all inputs, one input after the other.
pub fn flatten(ins: &Vec<Vec<(usize, usize)>>) -> (r: Vec<(usize, usize)>)
    ensures
        r@ == flat(lists(ins@)),
{
    let mut r: Vec<(usize, usize)> = Vec::new();
    let ghost all = lists(ins@);
    let mut i: usize = 0;
    assert(all.take(0) =~= Seq::empty());
    while i < ins.len()
        invariant
            i <= ins@.len(),
            all == lists(ins@),
            r@ == flat(all.take(i as int)),
        decreases ins@.len() - i,
    {
        let ghost done = r@;
        let part = &ins[i];
        let mut k: usize = 0;
        assert(part@.take(0) =~= Seq::empty());
        assert(r@ =~= done + part@.take(0));
        while k < part.len()
            invariant
                k <= part@.len(),
                r@ == done + part@.take(k as int),
            decreases part@.len() - k,
        {
            r.push(part[k]);
            assert(part@.take(k + 1) =~= part@.take(k as int).push(part@[k as int]));
            k = k + 1;
        }
        proof {
            assert(part@.take(k as int) =~= part@);
            let t = all.take(i + 1);
            assert(t.drop_last() =~= all.take(i as int));
            assert(t.last() == part@);
        }
        i = i + 1;
    }
    assert(all.take(i as int) =~= all);
    r
}

/// The summands of every input are among those of all inputs.
pub proof fn lemma_flat_contains(ins: Seq<Seq<(usize, usize)>>, i: int, j: int)
    requires
        0 <= i < ins.len(),
        0 <= j < ins[i].len(),
    ensures
        flat(ins).contains(ins[i][j]),
    decreases ins.len(),
{
    if i == ins.len() - 1 {
        let k = flat(ins.drop_last()).len() + j;
        assert(flat(ins)[k] == ins[i][j]);
    } else {
        lemma_flat_contains(ins.drop_last(), i, j);
        let f = flat(ins.drop_last());
        let k = choose|k: int| 0 <= k < f.len() && f[k] == ins[i][j];
        assert(flat(ins)[k] == ins[i][j]);
    }
}

/// The summands of all inputs are those of some input each.
pub proof fn lemma_flat_from(ins: Seq<Seq<(usize, usize)>>, k: int)
    requires
        0 <= k < flat(ins).len(),
    ensures
        exists|i: int, j: int|
            0 <= i < ins.len() && 0 <= j < ins[i].len() && #[trigger] ins[i][j] == flat(ins)[k],
    decreases ins.len(),
{
    if ins.len() > 0 {
        let f = flat(ins.drop_last());
        if k < f.len() {
            lemma_flat_from(ins.drop_last(), k);
            let (i, j) = choose|i: int, j: int|
                0 <= i < ins.drop_last().len() && 0 <= j < ins.drop_last()[i].len()
                    && #[trigger] ins.drop_last()[i][j] == f[k];
            assert(ins[i][j] == flat(ins)[k]);
        } else {
            assert(ins[ins.len() - 1][k - f.len()] == flat(ins)[k]);
        }
    }
}

/// The flow's sources are dsp nodes of the graph.
pub proof fn lemma_flow_sources<N: ToNodeDsp>(g: Graph<N, Edge>, n: int)
    requires
        g.wf(),
        0 <= n < g.nodes@.len(),
    ensures
        forall|k: int|
            0 <= k < flat(sources(g)[n]).len() ==> (#[trigger] flat(sources(g)[n])[k]).0
                < g.nodes@.len() && dsp_at(g, flat(sources(g)[n])[k].0 as int) is Some,
{
    let ins = sources(g)[n];
    assert forall|k: int| 0 <= k < flat(ins).len() implies (#[trigger] flat(ins)[k]).0
        < g.nodes@.len() && dsp_at(g, flat(ins)[k].0 as int) is Some by {
        lemma_flat_from(ins, k);
        let (i, j) = choose|i: int, j: int|
            0 <= i < ins.len() && 0 <= j < ins[i].len() && #[trigger] ins[i][j] == flat(ins)[k];
        lemma_summands(g, n, i);
        assert(ins[i] == summands(g, n, i));
        assert(summands(g, n, i)[j].0 < g.nodes@.len());
    }
}

/// For every node, the nodes that its inputs sum.
pub fn all_deps<N: ToNodeDsp>(g: &Graph<N, Edge>, srcs: &Vec<Vec<Vec<(usize, usize)>>>) -> (r: Vec<
    Vec<usize>,
>)
    requires
        g.wf(),
        all_lists(srcs@) == sources(*g),
    ensures
        topo::views(r@) == flow_deps(*g),
        topo::in_range(topo::views(r@)),
{
    let mut r: Vec<Vec<usize>> = Vec::new();
    let mut n: usize = 0;
    proof {
        assert(all_lists(srcs@).len() == srcs@.len());
    }
    while n < srcs.len()
        invariant
            all_lists(srcs@) == sources(*g),
            srcs@.len() == g.nodes@.len(),
            n <= srcs@.len(),
            r@.len() == n,
            forall|j: int| 0 <= j < n ==> (#[trigger] r@[j])@ == flow_deps(*g)[j],
        decreases srcs@.len() - n,
    {
        let f = flatten(&srcs[n]);
        assert(lists(srcs@[n as int]@) == sources(*g)[n as int]) by {
            assert(all_lists(srcs@)[n as int] == lists(srcs@[n as int]@));
        }
        let mut d: Vec<usize> = Vec::new();
        let mut k: usize = 0;
        while k < f.len()
            invariant
                k <= f@.len(),
                d@ =~= nodes_of(f@).take(k as int),
            decreases f@.len() - k,
        {
            d.push(f[k].0);
            k = k + 1;
        }
        assert(nodes_of(f@).take(k as int) =~= nodes_of(f@));
        r.push(d);
        n = n + 1;
    }
    proof {
        assert(topo::views(r@) =~= flow_deps(*g));
        let v = topo::views(r@);
        assert forall|n: int, i: int| 0 <= n < v.len() && 0 <= i < v[n].len() implies #[trigger] v[n][i]
            < v.len() by {
            lemma_flow_sources(*g, n);
            assert(v[n][i] == flat(sources(*g)[n])[i].0);
        }
    }
    r
}

} // verus!
