//! Wires carry signals: what arrives at an input of a node is the sum of what leaves from
//! the outputs that edges join to it.

use crate::compile::{self, Outputs};
use crate::dsp::{self, BuilderView, InputRef, Rate};
use crate::edge::Edge;
use crate::effect;
use crate::flow;
use crate::graph::Graph;
use crate::meaning::{self, Voice};
use crate::mix;
use crate::node::{NodeDsp, ToNodeDsp};
use crate::order;
use crate::topo;
use crate::walk;
use vstd::prelude::*;

verus! {

/// Whether edge `k` joins an output of a dsp node to dsp input `i` of node `n`.
pub open spec fn joins<N: ToNodeDsp>(g: Graph<N, Edge>, k: int, n: int, i: int) -> bool {
    &&& 0 <= k < g.edges@.len()
    &&& g.edges@[k].target == n
    &&& g.edges@[k].weight.input.0 == i
    &&& i < flow::n_in(g, n)
    &&& flow::dsp_at(g, g.edges@[k].source as int) is Some
}

/// The output that edge `k` comes from.
pub open spec fn source<N: ToNodeDsp>(g: Graph<N, Edge>, k: int) -> (usize, usize) {
    (g.edges@[k].source, g.edges@[k].weight.output.0 as usize)
}

/// What `f` makes of the outputs that edges join to an input, added up edge by edge.
pub open spec fn edge_total<N: ToNodeDsp>(
    g: Graph<N, Edge>,
    n: int,
    i: int,
    f: spec_fn((usize, usize)) -> int,
) -> int {
    meaning::total(
        Seq::new(
            g.edges@.len(),
            |k: int|
                if joins(g, k, n, i) {
                    f(source(g, k))
                } else {
                    0
                },
        ),
    )
}

proof fn lemma_arrivals_total<N: ToNodeDsp>(
    g: Graph<N, Edge>,
    m: nat,
    n: int,
    i: int,
    f: spec_fn((usize, usize)) -> int,
)
    requires
        m <= g.edges@.len(),
    ensures
        meaning::total(flow::arrivals(g, m, n, i).map_values(f)) == meaning::total(
            Seq::new(
                m,
                |k: int|
                    if joins(g, k, n, i) {
                        f(source(g, k))
                    } else {
                        0
                    },
            ),
        ),
        forall|x: (usize, usize)| #[trigger]
            flow::arrivals(g, m, n, i).contains(x) <==> exists|k: int|
                0 <= k < m && #[trigger] joins(g, k, n, i) && source(g, k) == x,
    decreases m,
{
    let h = |k: int|
        if joins(g, k, n, i) {
            f(source(g, k))
        } else {
            0
        };
    let all = Seq::new(m, h);
    let now = flow::arrivals(g, m, n, i);
    if m == 0 {
        assert(now.map_values(f).len() == 0);
    } else {
        let p = (m - 1) as nat;
        lemma_arrivals_total(g, p, n, i, f);
        let before = flow::arrivals(g, p, n, i);
        assert(all.drop_last() =~= Seq::new(p, h));
        let e = g.edges@[m - 1];
        assert(flow::feeds_input(g, e, n, i) == joins(g, m - 1, n, i));
        if joins(g, m - 1, n, i) {
            assert(now == before.push(source(g, m - 1)));
            assert(now.map_values(f).drop_last() =~= before.map_values(f));
            assert(now.map_values(f).last() == f(source(g, m - 1)));
        }
        assert forall|x: (usize, usize)| #[trigger] now.contains(x) <==> exists|k: int|
            0 <= k < m && #[trigger] joins(g, k, n, i) && source(g, k) == x by {
            if now.contains(x) {
                let j = choose|j: int| 0 <= j < now.len() && now[j] == x;
                if j < before.len() {
                    assert(before[j] == x);
                    assert(before.contains(x));
                } else {
                    assert(joins(g, m - 1, n, i));
                }
            }
            if exists|k: int| 0 <= k < m && #[trigger] joins(g, k, n, i) && source(g, k) == x {
                let k = choose|k: int| 0 <= k < m && #[trigger] joins(g, k, n, i) && source(g, k) == x;
                if k < p {
                    assert(before.contains(x));
                    let j = choose|j: int| 0 <= j < before.len() && before[j] == x;
                    assert(now[j] == x);
                } else {
                    assert(now[now.len() - 1] == x);
                }
            }
        }
    }
}

proof fn lemma_insert_total<T>(s: Seq<T>, x: T, lt: spec_fn(T, T) -> bool, f: spec_fn(T) -> int)
    ensures
        meaning::total(order::insert_sorted(s, x, lt).map_values(f)) == meaning::total(
            s.map_values(f),
        ) + f(x),
    decreases s.len(),
{
    let t = order::insert_sorted(s, x, lt);
    if s.len() > 0 && lt(x, s.last()) {
        lemma_insert_total(s.drop_last(), x, lt, f);
        assert(t.map_values(f).drop_last() =~= order::insert_sorted(
            s.drop_last(),
            x,
            lt,
        ).map_values(f));
        assert(s.map_values(f).drop_last() =~= s.drop_last().map_values(f));
    } else {
        assert(t.map_values(f).drop_last() =~= s.map_values(f));
    }
}

proof fn lemma_sorted_total<T>(s: Seq<T>, lt: spec_fn(T, T) -> bool, f: spec_fn(T) -> int)
    ensures
        meaning::total(order::sorted(s, lt).map_values(f)) == meaning::total(s.map_values(f)),
    decreases s.len(),
{
    if s.len() > 0 {
        lemma_sorted_total(s.drop_last(), lt, f);
        lemma_insert_total(order::sorted(s.drop_last(), lt), s.last(), lt, f);
        assert(s.map_values(f).drop_last() =~= s.drop_last().map_values(f));
    } else {
        assert(order::sorted(s, lt).map_values(f) =~= s.map_values(f));
    }
}

/// An input sums just the dsp outputs that edges join to it, each as often as it is
/// joined: whatever is made of them adds up to the same, edge by edge.
pub proof fn law_summands_are_the_joined_outputs<N: ToNodeDsp>(
    g: Graph<N, Edge>,
    n: int,
    i: int,
    f: spec_fn((usize, usize)) -> int,
)
    ensures
        meaning::total(flow::summands(g, n, i).map_values(f)) == meaning::total(
            Seq::new(
                g.edges@.len(),
                |k: int|
                    if joins(g, k, n, i) {
                        f(source(g, k))
                    } else {
                        0
                    },
            ),
        ),
        forall|x: (usize, usize)| #[trigger]
            flow::summands(g, n, i).contains(x) <==> exists|k: int| #[trigger]
                joins(g, k, n, i) && source(g, k) == x,
{
    broadcast use vstd::seq_lib::group_to_multiset_ensures;

    let a = flow::arrivals(g, g.edges@.len(), n, i);
    let lt = flow::summand_order(flow::node_paths(g));
    lemma_arrivals_total(g, g.edges@.len(), n, i, f);
    lemma_sorted_total(a, lt, f);
    order::lemma_sorted_multiset(a, lt);
    let s = flow::summands(g, n, i);
    assert forall|x: (usize, usize)| #[trigger] s.contains(x) <==> exists|k: int| #[trigger]
        joins(g, k, n, i) && source(g, k) == x by {
        assert(s.contains(x) <==> s.to_multiset().count(x) > 0);
        assert(a.contains(x) <==> a.to_multiset().count(x) > 0);
    }
}

/// Whether an output was emitted.
pub open spec fn emitted(outs: Outputs, x: (usize, usize)) -> bool {
    outs.contains_key(x.0) && x.1 < outs[x.0].len()
}

/// What an output is worth on channel `ch` of a mix, if it was emitted.
pub open spec fn output_heard(
    c: BuilderView,
    v: Voice,
    outs: Outputs,
    ch: int,
) -> spec_fn((usize, usize)) -> int {
    |x: (usize, usize)|
        if emitted(outs, x) {
            meaning::heard(c, v, outs[x.0][x.1 as int], ch)
        } else {
            0
        }
}

proof fn lemma_gather_heard(
    b: BuilderView,
    v: Voice,
    outs: Outputs,
    s: Seq<(usize, usize)>,
    ch: int,
)
    ensures
        meaning::heard_together(b, v, compile::gather(outs, s), ch) == meaning::total(
            s.map_values(output_heard(b, v, outs, ch)),
        ),
        forall|k: int|
            0 <= k < compile::gather(outs, s).len() ==> exists|j: int|
                0 <= j < s.len() && #[trigger] emitted(outs, s[j]) && outs[s[j].0][s[j].1 as int]
                    == #[trigger] compile::gather(outs, s)[k],
        forall|j: int|
            0 <= j < s.len() && #[trigger] emitted(outs, s[j]) ==> compile::gather(
                outs,
                s,
            ).contains(outs[s[j].0][s[j].1 as int]),
    decreases s.len(),
{
    let f = output_heard(b, v, outs, ch);
    let gs = compile::gather(outs, s);
    let all = Seq::new(gs.len(), |k: int| meaning::heard(b, v, gs[k], ch));
    if s.len() == 0 {
        assert(all =~= s.map_values(f));
    } else {
        let init = s.drop_last();
        lemma_gather_heard(b, v, outs, init, ch);
        let before = compile::gather(outs, init);
        let x = s[s.len() - 1];
        assert(s.map_values(f).drop_last() =~= init.map_values(f));
        if emitted(outs, x) {
            assert(gs == before.push(outs[x.0][x.1 as int]));
            assert(all.drop_last() =~= Seq::new(
                before.len(),
                |k: int| meaning::heard(b, v, before[k], ch),
            ));
        }
        assert forall|k: int| 0 <= k < gs.len() implies exists|j: int|
            0 <= j < s.len() && #[trigger] emitted(outs, s[j]) && outs[s[j].0][s[j].1 as int]
                == #[trigger] gs[k] by {
            if k < before.len() {
                assert(gs[k] == before[k]);
                let j = choose|j: int|
                    0 <= j < init.len() && #[trigger] emitted(outs, init[j])
                        && outs[init[j].0][init[j].1 as int] == before[k];
                assert(init[j] == s[j]);
                assert(emitted(outs, s[j]));
            } else {
                assert(emitted(outs, s[s.len() - 1]));
            }
        }
        assert forall|j: int| 0 <= j < s.len() && #[trigger] emitted(outs, s[j]) implies gs.contains(
            outs[s[j].0][s[j].1 as int],
        ) by {
            if j < init.len() {
                assert(init[j] == s[j]);
                assert(emitted(outs, init[j]));
                let y = outs[s[j].0][s[j].1 as int];
                let k = choose|k: int| 0 <= k < before.len() && before[k] == y;
                assert(gs[k] == y);
            } else {
                assert(gs[gs.len() - 1] == outs[x.0][x.1 as int]);
            }
        }
    }
}

/// Whether `at` is what arrives of the given summands: nothing where none was emitted, and
/// otherwise a signal as wide as the widest, worth what they are worth together.
pub open spec fn arrives(
    c: BuilderView,
    v: Voice,
    outs: Outputs,
    s: Seq<(usize, usize)>,
    at: Option<Seq<InputRef>>,
) -> bool {
    &&& (at is Some <==> exists|j: int| 0 <= j < s.len() && #[trigger] emitted(outs, s[j]))
    &&& at is Some ==> {
        &&& c.knows_all(at->0)
        &&& forall|j: int|
            0 <= j < s.len() && #[trigger] emitted(outs, s[j]) ==> outs[s[j].0][s[j].1 as int].len()
                <= at->0.len()
        &&& exists|j: int|
            0 <= j < s.len() && #[trigger] emitted(outs, s[j]) && outs[s[j].0][s[j].1 as int].len()
                == at->0.len()
        &&& forall|ch: int|
            0 <= ch < at->0.len() ==> meaning::value(c, v, #[trigger] at->0[ch]) == meaning::total(
                s.map_values(output_heard(c, v, outs, ch)),
            )
    }
}

proof fn lemma_output_heard_grows(
    a: BuilderView,
    c: BuilderView,
    v: Voice,
    outs: Outputs,
    s: Seq<(usize, usize)>,
    ch: int,
)
    requires
        a.sound(),
        a.grows_to(c),
        compile::outputs_known(a, outs),
        0 <= ch,
    ensures
        s.map_values(output_heard(c, v, outs, ch)) == s.map_values(output_heard(a, v, outs, ch)),
{
    let f = output_heard(c, v, outs, ch);
    let h = output_heard(a, v, outs, ch);
    assert forall|x: (usize, usize)| #[trigger] f(x) == h(x) by {
        if emitted(outs, x) {
            assert(a.knows_groups(outs[x.0]));
            assert(a.knows_all(outs[x.0][x.1 as int]));
            meaning::lemma_heard_grows(a, c, v, outs[x.0][x.1 as int], ch);
        }
    }
    assert(s.map_values(f) =~= s.map_values(h));
}

proof fn lemma_arrives_grows(
    a: BuilderView,
    c: BuilderView,
    v: Voice,
    outs: Outputs,
    s: Seq<(usize, usize)>,
    at: Option<Seq<InputRef>>,
)
    requires
        a.sound(),
        a.grows_to(c),
        compile::outputs_known(a, outs),
        arrives(a, v, outs, s, at),
    ensures
        arrives(c, v, outs, s, at),
{
    if at is Some {
        dsp::lemma_grows_knows(a, c, at->0);
        assert forall|ch: int| 0 <= ch < at->0.len() implies meaning::value(
            c,
            v,
            #[trigger] at->0[ch],
        ) == meaning::total(s.map_values(output_heard(c, v, outs, ch))) by {
            assert(a.knows(at->0[ch]));
            meaning::lemma_value_grows(a, c, v, at->0[ch]);
            lemma_output_heard_grows(a, c, v, outs, s, ch);
        }
    }
}

proof fn lemma_one_arrives(b: BuilderView, v: Voice, outs: Outputs, s: Seq<(usize, usize)>)
    requires
        v.plays(),
        b.sound(),
        compile::outputs_known(b, outs),
        compile::mix_or_none(b, compile::gather(outs, s)).0.fits(),
    ensures
        ({
            let (c, at) = compile::mix_or_none(b, compile::gather(outs, s));
            &&& b.grows_to(c)
            &&& c.sound()
            &&& arrives(c, v, outs, s, at)
        }),
{
    let gs = compile::gather(outs, s);
    let (c, at) = compile::mix_or_none(b, gs);
    compile::lemma_gather_known(b, outs, s);
    compile::lemma_mix_or_none(b, gs);
    lemma_gather_heard(b, v, outs, s, 0);
    if gs.len() == 0 {
        assert forall|j: int| 0 <= j < s.len() implies !(#[trigger] emitted(outs, s[j])) by {
            if emitted(outs, s[j]) {
                assert(gs.contains(outs[s[j].0][s[j].1 as int]));
            }
        }
    } else {
        let out = at->0;
        assert(gs[0] == gs[0]);
        meaning::law_mix_adds_channel_by_channel(b, v, gs);
        assert forall|j: int| 0 <= j < s.len() && #[trigger] emitted(outs, s[j]) implies outs[s[j].0][s[j].1 as int].len()
            <= out.len() by {
            let y = outs[s[j].0][s[j].1 as int];
            assert(gs.contains(y));
            let k = choose|k: int| 0 <= k < gs.len() && gs[k] == y;
            assert(gs[k].len() <= out.len());
        }
        let k = choose|k: int| 0 <= k < gs.len() && (#[trigger] gs[k]).len() == out.len();
        let j = choose|j: int|
            0 <= j < s.len() && #[trigger] emitted(outs, s[j]) && outs[s[j].0][s[j].1 as int]
                == gs[k];
        assert(emitted(outs, s[j]));
        assert forall|ch: int| 0 <= ch < out.len() implies meaning::value(
            c,
            v,
            #[trigger] out[ch],
        ) == meaning::total(s.map_values(output_heard(c, v, outs, ch))) by {
            lemma_gather_heard(b, v, outs, s, ch);
            lemma_output_heard_grows(b, c, v, outs, s, ch);
            assert(Seq::new(gs.len(), |k: int| meaning::heard(b, v, gs[k], ch)) =~= Seq::new(
                gs.len(),
                |k: int|
                    if gs[k].len() == 1 {
                        meaning::value(b, v, gs[k][0])
                    } else if ch < gs[k].len() {
                        meaning::value(b, v, gs[k][ch])
                    } else {
                        0
                    },
            ));
        }
    }
}

proof fn lemma_inputs_arrive(
    b: BuilderView,
    v: Voice,
    outs: Outputs,
    ins: Seq<Seq<(usize, usize)>>,
)
    requires
        v.plays(),
        b.sound(),
        compile::outputs_known(b, outs),
        compile::emit_inputs(b, outs, ins).0.fits(),
    ensures
        ({
            let (c, at) = compile::emit_inputs(b, outs, ins);
            &&& b.grows_to(c)
            &&& c.sound()
            &&& at.len() == ins.len()
            &&& forall|i: int| 0 <= i < ins.len() ==> arrives(c, v, outs, ins[i], #[trigger] at[i])
        }),
    decreases ins.len(),
{
    compile::lemma_emit_inputs(b, outs, ins);
    if ins.len() > 0 {
        let init = ins.drop_last();
        let (b1, before) = compile::emit_inputs(b, outs, init);
        let sigs = compile::gather(outs, ins.last());
        let (c, last) = compile::mix_or_none(b1, sigs);
        compile::lemma_emit_inputs(b, outs, init);
        compile::lemma_mix_or_none(b1, sigs);
        dsp::lemma_grows_fits(b1, c);
        lemma_inputs_arrive(b, v, outs, init);
        compile::lemma_outputs_grow(b, b1, outs);
        lemma_one_arrives(b1, v, outs, ins.last());
        let at = before.push(last);
        assert forall|i: int| 0 <= i < ins.len() implies arrives(
            c,
            v,
            outs,
            ins[i],
            #[trigger] at[i],
        ) by {
            if i < init.len() {
                assert(init[i] == ins[i]);
                assert(at[i] == before[i]);
                assert(arrives(b1, v, outs, init[i], before[i]));
                lemma_arrives_grows(b1, c, v, outs, ins[i], at[i]);
            }
        }
    }
}

/// Whether node `n` was emitted from what arrives at its inputs over the graph's edges,
/// into a builder that has grown to `c` since.
pub open spec fn wired_up<N: ToNodeDsp>(
    g: Graph<N, Edge>,
    n: usize,
    c: BuilderView,
    v: Voice,
    outs: Outputs,
    b: BuilderView,
    ins: Seq<Option<Seq<InputRef>>>,
) -> bool {
    let d = flow::dsp_at(g, n as int)->0;
    &&& b.sound()
    &&& b.knows_inputs(ins)
    &&& d.emit(flow::path_at(g, n as int), ins, b).0.grows_to(c)
    &&& outs.contains_key(n)
    &&& outs[n] == d.emit(flow::path_at(g, n as int), ins, b).1
    &&& ins.len() == d.dsp_inputs()
    &&& forall|i: int|
        0 <= i < ins.len() ==> arrives(c, v, outs, flow::summands(g, n as int, i), #[trigger] ins[i])
}

/// Summands of a node are what it depends on.
proof fn lemma_summand_dep<N: ToNodeDsp>(g: Graph<N, Edge>, n: usize, i: int, j: int)
    requires
        n < g.nodes@.len(),
        0 <= i < flow::n_in(g, n as int),
        0 <= j < flow::summands(g, n as int, i).len(),
    ensures
        topo::depends(flow::flow_deps(g))(n, flow::summands(g, n as int, i)[j].0),
{
    let ins = flow::sources(g)[n as int];
    assert(ins[i] == flow::summands(g, n as int, i));
    flow::lemma_flat_contains(ins, i, j);
    let f = flow::flat(ins);
    let k = choose|k: int| 0 <= k < f.len() && f[k] == ins[i][j];
    let d = flow::flow_deps(g)[n as int];
    assert(d[k] == ins[i][j].0);
    assert(d.contains(ins[i][j].0));
}

/// Outputs that a list of summands does not name make no difference to it.
proof fn lemma_arrives_insert(
    c: BuilderView,
    v: Voice,
    outs: Outputs,
    s: Seq<(usize, usize)>,
    at: Option<Seq<InputRef>>,
    n: usize,
    groups: Seq<Seq<InputRef>>,
)
    requires
        arrives(c, v, outs, s, at),
        forall|j: int| 0 <= j < s.len() ==> (#[trigger] s[j]).0 != n,
    ensures
        arrives(c, v, outs.insert(n, groups), s, at),
{
    let more = outs.insert(n, groups);
    assert forall|j: int| 0 <= j < s.len() implies #[trigger] emitted(more, s[j]) == emitted(
        outs,
        s[j],
    ) && (emitted(outs, s[j]) ==> more[s[j].0] == outs[s[j].0]) by {
        assert(s[j].0 != n);
    }
    if at is Some {
        let j = choose|j: int|
            0 <= j < s.len() && #[trigger] emitted(outs, s[j]) && outs[s[j].0][s[j].1 as int].len()
                == at->0.len();
        assert(emitted(more, s[j]));
        assert forall|ch: int| 0 <= ch < at->0.len() implies meaning::value(
            c,
            v,
            #[trigger] at->0[ch],
        ) == meaning::total(s.map_values(output_heard(c, v, more, ch))) by {
            assert(s.map_values(output_heard(c, v, more, ch)) =~= s.map_values(
                output_heard(c, v, outs, ch),
            )) by {
                assert forall|j: int| 0 <= j < s.len() implies output_heard(c, v, more, ch)(s[j])
                    == output_heard(c, v, outs, ch)(s[j]) by {
                    assert(emitted(more, s[j]) == emitted(outs, s[j]));
                }
            }
        }
    } else {
        assert forall|j: int| 0 <= j < s.len() implies !(#[trigger] emitted(more, s[j])) by {
            assert(emitted(more, s[j]) == emitted(outs, s[j]));
        }
    }
}

proof fn lemma_order_wired<N: ToNodeDsp>(
    g: Graph<N, Edge>,
    s: Seq<usize>,
    v: Voice,
    out_channels: nat,
    m: int,
)
    requires
        v.plays(),
        g.wf(),
        s.no_duplicates(),
        topo::topological(flow::flow_deps(g), s),
        forall|k: int| 0 <= k < s.len() ==> #[trigger] s[k] < g.nodes@.len(),
        0 <= m <= s.len(),
        compile::emit_order(g, s.take(m), BuilderView::empty(out_channels)).0.fits(),
    ensures
        ({
            let (c, outs) = compile::emit_order(g, s.take(m), BuilderView::empty(out_channels));
            &&& c.sound()
            &&& compile::outputs_known(c, outs)
            &&& forall|k: int|
                0 <= k < m && flow::dsp_at(g, #[trigger] s[k] as int) is Some ==> exists|
                    b: BuilderView,
                    ins: Seq<Option<Seq<InputRef>>>,
                | #[trigger]
                    wired_up(g, s[k], c, v, outs, b, ins)
            &&& forall|n: usize| #[trigger]
                outs.contains_key(n) ==> s.take(m).contains(n)
        }),
    decreases m,
{
    let b0 = BuilderView::empty(out_channels);
    let (c, outs) = compile::emit_order(g, s.take(m), b0);
    assert(b0.sound());
    compile::lemma_emit_order(g, s.take(m), b0);
    if m > 0 {
        let p = m - 1;
        assert(s.take(m).drop_last() =~= s.take(p));
        assert(s.take(m).last() == s[p]);
        let n = s[p];
        let (b1, before) = compile::emit_order(g, s.take(p), b0);
        compile::lemma_emit_order(g, s.take(p), b0);
        assert forall|x: usize| s.take(p).contains(x) implies s.take(m).contains(x) by {
            let j = choose|j: int| 0 <= j < s.take(p).len() && s.take(p)[j] == x;
            assert(s.take(m)[j] == x);
        }
        assert(s.take(m)[p] == n);
        assert(!s.take(p).contains(n)) by {
            if s.take(p).contains(n) {
                let j = choose|j: int| 0 <= j < s.take(p).len() && s.take(p)[j] == n;
                assert(s[j] == s[p]);
            }
        }
        if flow::dsp_at(g, n as int) is Some {
            let d = flow::dsp_at(g, n as int)->0;
            let src = flow::sources(g)[n as int];
            let (b2, ins) = compile::emit_inputs(b1, before, src);
            compile::lemma_emit_inputs(b1, before, src);
            d.lemma_emit_sound(flow::path_at(g, n as int), ins, b2);
            let (b3, groups) = d.emit(flow::path_at(g, n as int), ins, b2);
            dsp::lemma_grows_fits(b2, b3);
            dsp::lemma_grows_fits(b1, b2);
            lemma_order_wired(g, s, v, out_channels, p);
            lemma_inputs_arrive(b1, v, before, src);
            dsp::lemma_grows_trans(b1, b2, b3);
            compile::lemma_outputs_grow(b1, b2, before);
            assert(outs == before.insert(n, groups) && c == b3);
            assert(!before.contains_key(n));
            // The node itself.
            assert forall|i: int| 0 <= i < ins.len() implies arrives(
                c,
                v,
                outs,
                flow::summands(g, n as int, i),
                #[trigger] ins[i],
            ) by {
                let list = flow::summands(g, n as int, i);
                assert(src[i] == list);
                assert(arrives(b2, v, before, src[i], ins[i]));
                lemma_arrives_grows(b2, c, v, before, list, ins[i]);
                assert forall|j: int| 0 <= j < list.len() implies (#[trigger] list[j]).0 != n by {
                    lemma_summand_dep(g, n, i, j);
                    assert(s.take(p).contains(list[j].0));
                }
                lemma_arrives_insert(c, v, before, list, ins[i], n, groups);
            }
            assert(wired_up(g, n, c, v, outs, b2, ins));
            // Those before it.
            assert forall|k: int|
                0 <= k < m && flow::dsp_at(g, #[trigger] s[k] as int) is Some implies exists|
                b: BuilderView,
                i: Seq<Option<Seq<InputRef>>>,
            | #[trigger] wired_up(g, s[k], c, v, outs, b, i) by {
                if k < p {
                    let (b, at) = choose|b: BuilderView, at: Seq<Option<Seq<InputRef>>>| #[trigger]
                        wired_up(g, s[k], b1, v, before, b, at);
                    let e = flow::dsp_at(g, s[k] as int)->0;
                    let one = e.emit(flow::path_at(g, s[k] as int), at, b).0;
                    dsp::lemma_grows_trans(one, b1, c);
                    assert(s[k] != n);
                    assert forall|i: int| 0 <= i < at.len() implies arrives(
                        c,
                        v,
                        outs,
                        flow::summands(g, s[k] as int, i),
                        #[trigger] at[i],
                    ) by {
                        let list = flow::summands(g, s[k] as int, i);
                        assert(arrives(b1, v, before, list, at[i]));
                        lemma_arrives_grows(b1, c, v, before, list, at[i]);
                        assert forall|j: int| 0 <= j < list.len() implies (#[trigger] list[j]).0
                            != n by {
                            lemma_summand_dep(g, s[k], i, j);
                            assert(s.take(k).contains(list[j].0));
                            let q = choose|q: int|
                                0 <= q < s.take(k).len() && s.take(k)[q] == list[j].0;
                            assert(s[q] == list[j].0);
                        }
                        lemma_arrives_insert(c, v, before, list, at[i], n, groups);
                    }
                    assert(wired_up(g, s[k], c, v, outs, b, at));
                }
            }
        } else {
            lemma_order_wired(g, s, v, out_channels, p);
        }
    } else {
        assert(s.take(0) =~= Seq::empty());
    }
}

/// What a sink needs is a node of the graph.
proof fn lemma_needed_in_range<N: ToNodeDsp>(g: Graph<N, Edge>, n: usize)
    requires
        g.wf(),
        g.nodes@.len() <= usize::MAX,
        topo::needed(flow::flow_deps(g), flow::sinks(g), n),
    ensures
        n < g.nodes@.len(),
{
    let deps = flow::flow_deps(g);
    let seeds = flow::sinks(g);
    let step = topo::depends(deps);
    flow::lemma_indices(g.nodes@.len(), |i: int| flow::is_sink(g, i));
    let k = choose|k: int| 0 <= k < seeds.len() && #[trigger] walk::reaches(step, seeds[k], n);
    let p = |x: usize| x < g.nodes@.len();
    assert forall|x: usize, y: usize| p(x) && #[trigger] step(x, y) implies p(y) by {
        flow::lemma_flow_sources(g, x as int);
        let d = deps[x as int];
        let j = choose|j: int| 0 <= j < d.len() && d[j] == y;
        assert(d[j] == flow::flat(flow::sources(g)[x as int])[j].0);
    }
    walk::lemma_closed(step, p, seeds[k], n);
}

/// Every node that is derived is wired as the graph is. Each node that feeds a sink is
/// emitted, from what arrives at its inputs: nothing where no output that was emitted is
/// joined to one, and otherwise a signal as wide as the widest that is joined, whose every
/// channel is worth what all the outputs that edges join to it are worth there together.
/// That holds where signals do not run in a circle.
pub proof fn law_nodes_hear_what_is_wired_to_them<N: ToNodeDsp>(
    g: Graph<N, Edge>,
    v: Voice,
    out_channels: nat,
    s: Seq<usize>,
    n: usize,
)
    requires
        v.plays(),
        g.wf(),
        g.nodes@.len() <= usize::MAX,
        topo::acyclic(flow::flow_deps(g)),
        topo::pull_order(flow::flow_deps(g), flow::sinks(g), s),
        compile::emit_order(g, s, BuilderView::empty(out_channels)).0.fits(),
        s.contains(n),
        flow::dsp_at(g, n as int) is Some,
    ensures
        ({
            let (c, outs) = compile::emit_order(g, s, BuilderView::empty(out_channels));
            let d = flow::dsp_at(g, n as int)->0;
            let path = flow::path_at(g, n as int);
            exists|b: BuilderView, ins: Seq<Option<Seq<InputRef>>>|
                {
                    &&& b.sound()
                    &&& b.knows_inputs(ins)
                    &&& (#[trigger] d.emit(path, ins, b)).0.grows_to(c)
                    &&& outs.contains_key(n)
                    &&& outs[n] == d.emit(path, ins, b).1
                    &&& ins.len() == d.dsp_inputs()
                    &&& forall|i: int|
                        0 <= i < ins.len() ==> ((#[trigger] ins[i]) is Some <==> exists|k: int|
                            #[trigger] joins(g, k, n as int, i) && emitted(outs, source(g, k)))
                    &&& forall|i: int, k: int|
                        0 <= i < ins.len() && #[trigger] joins(g, k, n as int, i) && emitted(
                            outs,
                            source(g, k),
                        ) ==> outs[source(g, k).0][source(g, k).1 as int].len() <= ins[i]->0.len()
                    &&& forall|i: int|
                        0 <= i < ins.len() && (#[trigger] ins[i]) is Some ==> exists|k: int|
                            #[trigger] joins(g, k, n as int, i) && emitted(outs, source(g, k))
                                && outs[source(g, k).0][source(g, k).1 as int].len()
                                == ins[i]->0.len()
                    &&& forall|i: int, ch: int|
                        0 <= i < ins.len() && ins[i] is Some && 0 <= ch < ins[i]->0.len()
                            ==> meaning::value(c, v, #[trigger] ins[i]->0[ch]) == meaning::total(
                            Seq::new(
                                g.edges@.len(),
                                |k: int|
                                    if joins(g, k, n as int, i) {
                                        output_heard(c, v, outs, ch)(source(g, k))
                                    } else {
                                        0
                                    },
                            ),
                        )
                }
        }),
{
    assert forall|k: int| 0 <= k < s.len() implies #[trigger] s[k] < g.nodes@.len() by {
        assert(s.contains(s[k]));
        lemma_needed_in_range(g, s[k]);
    }
    let (c, outs) = compile::emit_order(g, s, BuilderView::empty(out_channels));
    let d = flow::dsp_at(g, n as int)->0;
    let path = flow::path_at(g, n as int);
    assert(s.take(s.len() as int) =~= s);
    lemma_order_wired(g, s, v, out_channels, s.len() as int);
    let q = choose|q: int| 0 <= q < s.len() && s[q] == n;
    assert(flow::dsp_at(g, s[q] as int) is Some);
    let (b, ins) = choose|b: BuilderView, ins: Seq<Option<Seq<InputRef>>>| #[trigger]
        wired_up(g, s[q], c, v, outs, b, ins);
    assert(d.emit(path, ins, b).0.grows_to(c));
    assert forall|i: int| 0 <= i < ins.len() implies ((#[trigger] ins[i]) is Some <==> exists|k: int|
        #[trigger] joins(g, k, n as int, i) && emitted(outs, source(g, k))) && (ins[i] is Some
        ==> exists|k: int| #[trigger]
        joins(g, k, n as int, i) && emitted(outs, source(g, k))
            && outs[source(g, k).0][source(g, k).1 as int].len() == ins[i]->0.len()) by {
        let list = flow::summands(g, n as int, i);
        assert(arrives(c, v, outs, list, ins[i]));
        law_summands_are_the_joined_outputs(g, n as int, i, |x: (usize, usize)| 0);
        if ins[i] is Some {
            let j = choose|j: int|
                0 <= j < list.len() && #[trigger] emitted(outs, list[j])
                    && outs[list[j].0][list[j].1 as int].len() == ins[i]->0.len();
            assert(list.contains(list[j]));
            let k = choose|k: int| #[trigger] joins(g, k, n as int, i) && source(g, k) == list[j];
            assert(joins(g, k, n as int, i) && emitted(outs, source(g, k)));
        }
        if exists|k: int| #[trigger] joins(g, k, n as int, i) && emitted(outs, source(g, k)) {
            let k = choose|k: int| #[trigger]
                joins(g, k, n as int, i) && emitted(outs, source(g, k));
            assert(list.contains(source(g, k)));
            let j = choose|j: int| 0 <= j < list.len() && list[j] == source(g, k);
            assert(emitted(outs, list[j]));
        }
    }
    assert forall|i: int, k: int|
        0 <= i < ins.len() && #[trigger] joins(g, k, n as int, i) && emitted(
            outs,
            source(g, k),
        ) implies outs[source(g, k).0][source(g, k).1 as int].len() <= ins[i]->0.len() by {
        let list = flow::summands(g, n as int, i);
        assert(arrives(c, v, outs, list, ins[i]));
        law_summands_are_the_joined_outputs(g, n as int, i, |x: (usize, usize)| 0);
        assert(list.contains(source(g, k)));
        let j = choose|j: int| 0 <= j < list.len() && list[j] == source(g, k);
        assert(emitted(outs, list[j]));
    }
    assert forall|i: int, ch: int|
        0 <= i < ins.len() && ins[i] is Some && 0 <= ch < ins[i]->0.len() implies meaning::value(
        c,
        v,
        #[trigger] ins[i]->0[ch],
    ) == meaning::total(
        Seq::new(
            g.edges@.len(),
            |k: int|
                if joins(g, k, n as int, i) {
                    output_heard(c, v, outs, ch)(source(g, k))
                } else {
                    0
                },
        ),
    ) by {
        let list = flow::summands(g, n as int, i);
        assert(arrives(c, v, outs, list, ins[i]));
        law_summands_are_the_joined_outputs(g, n as int, i, output_heard(c, v, outs, ch));
    }
}

/// Whether a signal has something to add on a channel: it has the channel, or is spread
/// to all, and is not a constant zero there.
pub open spec fn sounds(sig: Seq<InputRef>, ch: int) -> bool {
    &&& sig.len() == 1 || 0 <= ch < sig.len()
    &&& {
        let r = if sig.len() == 1 {
            sig[0]
        } else {
            sig[ch]
        };
        r != InputRef::Constant(0) && r != InputRef::Constant(0x8000_0000)
    }
}

/// How many of some signals have something to add on a channel.
pub open spec fn sounding(sigs: Seq<Seq<InputRef>>, ch: int) -> nat
    decreases sigs.len(),
{
    if sigs.len() == 0 {
        0
    } else {
        sounding(sigs.drop_last(), ch) + if sounds(sigs.last(), ch) {
            1nat
        } else {
            0nat
        }
    }
}

/// How many additions it takes to mix the first `n` channels of some signals.
pub open spec fn additions(sigs: Seq<Seq<InputRef>>, n: nat) -> nat
    decreases n,
{
    if n == 0 {
        0
    } else {
        additions(sigs, (n - 1) as nat) + if sounding(sigs, n - 1) > 1 {
            (sounding(sigs, n - 1) - 1) as nat
        } else {
            0nat
        }
    }
}

proof fn lemma_terms_count(sigs: Seq<Seq<InputRef>>, ch: int)
    ensures
        mix::terms(sigs, ch).len() == sounding(sigs, ch),
    decreases sigs.len(),
{
    if sigs.len() > 0 {
        lemma_terms_count(sigs.drop_last(), ch);
    }
}

proof fn lemma_sum_count(b: BuilderView, ts: Seq<InputRef>)
    ensures
        effect::units_only(b, mix::sum_terms(b, ts).0),
        mix::sum_terms(b, ts).0.units.len() == b.units.len() + if ts.len() > 1 {
            (ts.len() - 1) as nat
        } else {
            0nat
        },
    decreases ts.len(),
{
    if ts.len() > 1 {
        lemma_sum_count(b, ts.drop_last());
    }
}

proof fn lemma_channels_count(b: BuilderView, sigs: Seq<Seq<InputRef>>, n: nat)
    ensures
        effect::units_only(b, mix::sum_channels(b, sigs, n).0),
        mix::sum_channels(b, sigs, n).0.units.len() == b.units.len() + additions(sigs, n),
        mix::sum_channels(b, sigs, n).1.len() == n,
    decreases n,
{
    if n > 0 {
        lemma_channels_count(b, sigs, (n - 1) as nat);
        let (b1, _) = mix::sum_channels(b, sigs, (n - 1) as nat);
        lemma_sum_count(b1, mix::terms(sigs, n - 1));
        lemma_terms_count(sigs, n - 1);
    }
}

/// Mixing adds units and nothing else, and no more of them than it takes: one fewer on each
/// channel than there are signals with something to add there. A single signal is passed
/// on as it is.
pub proof fn law_mixing_adds_the_units_it_takes(b: BuilderView, sigs: Seq<Seq<InputRef>>)
    ensures
        ({
            let (c, group) = mix::mixed(b, sigs);
            &&& effect::units_only(b, c)
            &&& sigs.len() == 1 ==> c == b && group == sigs[0]
            &&& sigs.len() == 0 ==> c == b && group == seq![InputRef::Constant(0)]
            &&& sigs.len() > 1 ==> c.units.len() == b.units.len() + additions(sigs, group.len())
        }),
{
    assert(dsp::silence(1) =~= seq![InputRef::Constant(0)]);
    if sigs.len() > 1 {
        lemma_channels_count(b, sigs, mix::widest(sigs));
    }
}

/// Whether a signal has something at audio rate to add on a channel.
pub open spec fn sounds_fast(b: BuilderView, sig: Seq<InputRef>, ch: int) -> bool {
    sounds(sig, ch) && b.rate_of(
        if sig.len() == 1 {
            sig[0]
        } else {
            sig[ch]
        },
    ) == Rate::Audio
}

proof fn lemma_terms_fast(b: BuilderView, sigs: Seq<Seq<InputRef>>, ch: int)
    ensures
        (exists|i: int|
            0 <= i < mix::terms(sigs, ch).len() && b.rate_of(#[trigger] mix::terms(sigs, ch)[i])
                == Rate::Audio) <==> (exists|i: int|
            0 <= i < sigs.len() && sounds_fast(b, #[trigger] sigs[i], ch)),
    decreases sigs.len(),
{
    if sigs.len() > 0 {
        let init = sigs.drop_last();
        lemma_terms_fast(b, init, ch);
        let ts = mix::terms(sigs, ch);
        let before = mix::terms(init, ch);
        assert(forall|i: int| 0 <= i < init.len() ==> #[trigger] init[i] == sigs[i]);
        assert(forall|i: int| 0 <= i < before.len() ==> #[trigger] before[i] == ts[i]);
        assert(sigs[sigs.len() - 1] == sigs.last());
        if sounds(sigs.last(), ch) {
            assert(ts == before.push(mix::term(sigs.last(), ch)->0));
            assert(ts[ts.len() - 1] == mix::term(sigs.last(), ch)->0);
        } else {
            assert(ts == before);
        }
        if exists|i: int| 0 <= i < ts.len() && b.rate_of(#[trigger] ts[i]) == Rate::Audio {
            let i = choose|i: int| 0 <= i < ts.len() && b.rate_of(#[trigger] ts[i]) == Rate::Audio;
            if i < before.len() {
                assert(b.rate_of(before[i]) == Rate::Audio);
                let j = choose|j: int|
                    0 <= j < init.len() && sounds_fast(b, #[trigger] init[j], ch);
                assert(sounds_fast(b, sigs[j], ch));
            } else {
                assert(sounds_fast(b, sigs[sigs.len() - 1], ch));
            }
        }
        if exists|i: int| 0 <= i < sigs.len() && sounds_fast(b, #[trigger] sigs[i], ch) {
            let i = choose|i: int| 0 <= i < sigs.len() && sounds_fast(b, #[trigger] sigs[i], ch);
            if i < init.len() {
                assert(sounds_fast(b, init[i], ch));
                let j = choose|j: int|
                    0 <= j < before.len() && b.rate_of(#[trigger] before[j]) == Rate::Audio;
                assert(b.rate_of(ts[j]) == Rate::Audio);
            } else {
                assert(b.rate_of(ts[ts.len() - 1]) == Rate::Audio);
            }
        }
    }
}

proof fn lemma_sum_rate(b: BuilderView, ts: Seq<InputRef>)
    requires
        b.knows_all(ts),
        mix::sum_terms(b, ts).0.units.len() <= usize::MAX,
        ts.len() > 1,
    ensures
        mix::sum_terms(b, ts).0.rate_of(mix::sum_terms(b, ts).1) == (if exists|i: int|
            0 <= i < ts.len() && b.rate_of(#[trigger] ts[i]) == Rate::Audio {
            Rate::Audio
        } else {
            Rate::Control
        }),
    decreases ts.len(),
{
    let init = ts.drop_last();
    let (b1, acc) = mix::sum_terms(b, init);
    lemma_sum_count(b, init);
    assert(b.knows_all(init)) by {
        assert forall|i: int| 0 <= i < init.len() implies b.knows(#[trigger] init[i]) by {
            assert(b.knows(ts[i]));
        }
    }
    assert(b.knows(ts[ts.len() - 1]));
    assert(b1.rate_of(ts.last()) == b.rate_of(ts.last()));
    if init.len() > 1 {
        lemma_sum_rate(b, init);
    } else {
        assert(acc == ts[0]);
    }
    let fast = exists|i: int| 0 <= i < ts.len() && b.rate_of(#[trigger] ts[i]) == Rate::Audio;
    let before = exists|i: int| 0 <= i < init.len() && b.rate_of(#[trigger] init[i]) == Rate::Audio;
    assert(fast <==> before || b.rate_of(ts.last()) == Rate::Audio) by {
        if before {
            let i = choose|i: int| 0 <= i < init.len() && b.rate_of(#[trigger] init[i]) == Rate::Audio;
            assert(b.rate_of(ts[i]) == Rate::Audio);
        }
        if fast {
            let i = choose|i: int| 0 <= i < ts.len() && b.rate_of(#[trigger] ts[i]) == Rate::Audio;
            if i < init.len() {
                assert(b.rate_of(init[i]) == Rate::Audio);
            }
        }
        assert(ts[ts.len() - 1] == ts.last());
    }
    if init.len() == 1 {
        assert(init[0] == ts[0]);
        assert(before <==> b.rate_of(ts[0]) == Rate::Audio);
    }
}

proof fn lemma_channel_rate(b: BuilderView, sigs: Seq<Seq<InputRef>>, n: nat, ch: int)
    requires
        0 <= ch < n,
        b.knows_groups(sigs),
        mix::sum_channels(b, sigs, n).0.units.len() <= usize::MAX,
        sounding(sigs, ch) > 1,
    ensures
        mix::sum_channels(b, sigs, n).0.knows(mix::sum_channels(b, sigs, n).1[ch]),
        mix::sum_channels(b, sigs, n).0.rate_of(mix::sum_channels(b, sigs, n).1[ch]) == (if exists|
            i: int,
        |
            0 <= i < sigs.len() && sounds_fast(b, #[trigger] sigs[i], ch) {
            Rate::Audio
        } else {
            Rate::Control
        }),
    decreases n,
{
    let m = (n - 1) as nat;
    let (b1, chans) = mix::sum_channels(b, sigs, m);
    let ts = mix::terms(sigs, n - 1);
    lemma_channels_count(b, sigs, m);
    lemma_sum_count(b1, ts);
    if ch < m {
        lemma_channel_rate(b, sigs, m, ch);
    } else {
        mix::lemma_terms_known(b, sigs, ch);
        lemma_terms_count(sigs, ch);
        lemma_terms_fast(b, sigs, ch);
        assert forall|i: int| 0 <= i < ts.len() implies b1.knows(#[trigger] ts[i]) && b1.rate_of(
            ts[i],
        ) == b.rate_of(ts[i]) by {
            assert(b.knows(ts[i]));
        }
        lemma_sum_rate(b1, ts);
        let fast = exists|i: int| 0 <= i < ts.len() && b.rate_of(#[trigger] ts[i]) == Rate::Audio;
        let fast1 = exists|i: int| 0 <= i < ts.len() && b1.rate_of(#[trigger] ts[i]) == Rate::Audio;
        assert(fast <==> fast1) by {
            if fast {
                let i = choose|i: int|
                    0 <= i < ts.len() && b.rate_of(#[trigger] ts[i]) == Rate::Audio;
                assert(b1.rate_of(ts[i]) == Rate::Audio);
            }
            if fast1 {
                let i = choose|i: int|
                    0 <= i < ts.len() && b1.rate_of(#[trigger] ts[i]) == Rate::Audio;
                assert(b.rate_of(ts[i]) == Rate::Audio);
            }
        }
    }
}

/// A channel on which signals are added runs at audio rate where one of them does, and at
/// control rate where none does.
pub proof fn law_mix_runs_at_the_rate_of_its_signals(
    b: BuilderView,
    sigs: Seq<Seq<InputRef>>,
    ch: int,
)
    requires
        sigs.len() > 1,
        b.knows_groups(sigs),
        mix::mixed(b, sigs).0.units.len() <= usize::MAX,
        0 <= ch < mix::mixed(b, sigs).1.len(),
        sounding(sigs, ch) > 1,
    ensures
        ({
            let (c, group) = mix::mixed(b, sigs);
            &&& (exists|i: int| 0 <= i < sigs.len() && sounds_fast(b, #[trigger] sigs[i], ch))
                ==> c.rate_of(group[ch]) == Rate::Audio
            &&& !(exists|i: int| 0 <= i < sigs.len() && sounds_fast(b, #[trigger] sigs[i], ch))
                ==> c.rate_of(group[ch]) == Rate::Control
        }),
{
    let w = mix::widest(sigs);
    lemma_channels_count(b, sigs, w);
    lemma_channel_rate(b, sigs, w, ch);
}

proof fn lemma_inputs_units_only(b: BuilderView, outs: Outputs, ins: Seq<Seq<(usize, usize)>>)
    ensures
        effect::units_only(b, compile::emit_inputs(b, outs, ins).0),
    decreases ins.len(),
{
    if ins.len() > 0 {
        let (b1, _) = compile::emit_inputs(b, outs, ins.drop_last());
        lemma_inputs_units_only(b, outs, ins.drop_last());
        law_mixing_adds_the_units_it_takes(b1, compile::gather(outs, ins.last()));
    }
}

/// Nodes are emitted one after another, each on top of all before it: a dsp node that comes
/// next finds every param, binding, monitor and gain of those before it, and every unit,
/// with nothing added but the units that mix its inputs. A node without dsp adds nothing.
pub proof fn law_nodes_are_emitted_one_after_another<N: ToNodeDsp>(
    g: Graph<N, Edge>,
    order: Seq<usize>,
    n: usize,
    b: BuilderView,
)
    ensures
        ({
            let (before, outs) = compile::emit_order(g, order, b);
            let (after, all) = compile::emit_order(g, order.push(n), b);
            &&& flow::dsp_at(g, n as int) is None ==> after == before && all == outs
            &&& flow::dsp_at(g, n as int) is Some ==> exists|
                found: BuilderView,
                ins: Seq<Option<Seq<InputRef>>>,
            |
                {
                    &&& effect::units_only(before, found)
                    &&& after == (#[trigger] flow::dsp_at(g, n as int)->0.emit(
                        flow::path_at(g, n as int),
                        ins,
                        found,
                    )).0
                    &&& all == outs.insert(
                        n,
                        flow::dsp_at(g, n as int)->0.emit(
                            flow::path_at(g, n as int),
                            ins,
                            found,
                        ).1,
                    )
                }
            &&& compile::emit_order(g, Seq::empty(), b).0 == b
        }),
{
    let (before, outs) = compile::emit_order(g, order, b);
    assert(order.push(n).drop_last() =~= order);
    if let Some(d) = flow::dsp_at(g, n as int) {
        let (found, ins) = compile::emit_inputs(before, outs, flow::sources(g)[n as int]);
        lemma_inputs_units_only(before, outs, flow::sources(g)[n as int]);
        let out = d.emit(flow::path_at(g, n as int), ins, found);
        assert(compile::emit_order(g, order.push(n), b).0 == out.0);
    }
}

/// What is pulled is what is heard or watched: the sinks are the dsp nodes that play out or
/// are monitored, each once and in the order of the graph.
pub proof fn law_sinks_are_what_is_heard_or_watched<N: ToNodeDsp>(g: Graph<N, Edge>, n: usize)
    requires
        g.nodes@.len() <= usize::MAX,
    ensures
        flow::sinks(g).contains(n) <==> n < g.nodes@.len() && g.nodes@[n as int] is Some
            && g.nodes@[n as int]->0.dsp() is Some && (g.nodes@[n as int]->0.dsp()->0.output_sink()
            || g.nodes@[n as int]->0.dsp()->0.monitor_sink()),
        flow::sinks(g).no_duplicates(),
        forall|i: int, j: int|
            0 <= i < j < flow::sinks(g).len() ==> #[trigger] flow::sinks(g)[i]
                < #[trigger] flow::sinks(g)[j],
{
    let p = |i: int| flow::is_sink(g, i);
    flow::lemma_indices(g.nodes@.len(), p);
    lemma_indices_ascend(g.nodes@.len(), p);
}

proof fn lemma_indices_ascend(n: nat, p: spec_fn(int) -> bool)
    requires
        n <= usize::MAX,
    ensures
        forall|i: int, j: int|
            0 <= i < j < flow::indices(n, p).len() ==> #[trigger] flow::indices(n, p)[i]
                < #[trigger] flow::indices(n, p)[j],
    decreases n,
{
    if n > 0 {
        let m = (n - 1) as nat;
        lemma_indices_ascend(m, p);
        flow::lemma_indices(m, p);
        let s = flow::indices(m, p);
        let t = flow::indices(n, p);
        assert forall|i: int, j: int| 0 <= i < j < t.len() implies #[trigger] t[i]
            < #[trigger] t[j] by {
            assert(t[i] == s[i]);
            if j < s.len() {
                assert(t[j] == s[j]);
            }
        }
    }
}

/// A node depends on the nodes whose outputs edges join to its inputs, and on no others.
pub proof fn law_dependencies_are_the_joined_nodes<N: ToNodeDsp>(
    g: Graph<N, Edge>,
    n: usize,
    m: usize,
)
    requires
        n < g.nodes@.len(),
    ensures
        flow::flow_deps(g).len() == g.nodes@.len(),
        flow::flow_deps(g)[n as int].contains(m) <==> exists|k: int, i: int| #[trigger]
            joins(g, k, n as int, i) && g.edges@[k].source == m,
{
    let ins = flow::sources(g)[n as int];
    let f = flow::flat(ins);
    let d = flow::flow_deps(g)[n as int];
    let zero = |x: (usize, usize)| 0int;
    if d.contains(m) {
        let x = choose|x: int| 0 <= x < d.len() && d[x] == m;
        assert(f[x].0 == m);
        flow::lemma_flat_from(ins, x);
        let (i, j) = choose|i: int, j: int|
            0 <= i < ins.len() && 0 <= j < ins[i].len() && #[trigger] ins[i][j] == f[x];
        law_summands_are_the_joined_outputs(g, n as int, i, zero);
        assert(flow::summands(g, n as int, i).contains(f[x]));
        let k = choose|k: int| #[trigger] joins(g, k, n as int, i) && source(g, k) == f[x];
        assert(joins(g, k, n as int, i) && g.edges@[k].source == m);
    }
    if exists|k: int, i: int| #[trigger] joins(g, k, n as int, i) && g.edges@[k].source == m {
        let (k, i) = choose|k: int, i: int| #[trigger]
            joins(g, k, n as int, i) && g.edges@[k].source == m;
        law_summands_are_the_joined_outputs(g, n as int, i, zero);
        let s = flow::summands(g, n as int, i);
        assert(s.contains(source(g, k)));
        let j = choose|j: int| 0 <= j < s.len() && s[j] == source(g, k);
        assert(ins[i] == s);
        flow::lemma_flat_contains(ins, i, j);
        let x = choose|x: int| 0 <= x < f.len() && f[x] == s[j];
        assert(d[x] == m);
    }
}

/// What an input sums is added in the order of the nodes' paths, and of their outputs
/// where it sums several of one node.
pub proof fn law_summands_are_in_the_order_of_paths<N: ToNodeDsp>(
    g: Graph<N, Edge>,
    n: int,
    i: int,
    a: int,
    b: int,
)
    requires
        g.wf(),
        0 <= a < b < flow::summands(g, n, i).len(),
    ensures
        ({
            let (x, y) = (flow::summands(g, n, i)[a], flow::summands(g, n, i)[b]);
            let (p, q) = (flow::path_at(g, x.0 as int), flow::path_at(g, y.0 as int));
            ||| order::lex_lt(p, q, |c: usize, d: usize| c < d)
            ||| p == q && x.1 <= y.1
        }),
{
    let lt = flow::summand_order(flow::node_paths(g));
    let less = flow::index_lt();
    flow::lemma_index_order();
    order::lemma_lex_strict_total(less);
    flow::lemma_summands(g, n, i);
    let paths = flow::node_paths(g);
    assert forall|x: (usize, usize), y: (usize, usize)| #[trigger] lt(x, y) implies !lt(y, x) by {
        let (p, q) = (paths[x.0 as int], paths[y.0 as int]);
        if order::lex_lt(p, q, less) && order::lex_lt(q, p, less) {
            order::lemma_lex_transitive(p, q, p, less);
            order::lemma_lex_irreflexive(p, less);
        }
        order::lemma_lex_irreflexive(p, less);
    }
    assert forall|x: (usize, usize), y: (usize, usize), z: (usize, usize)|
        !#[trigger] lt(y, x) && !#[trigger] lt(z, y) implies !lt(z, x) by {
        let (p, q, r) = (paths[x.0 as int], paths[y.0 as int], paths[z.0 as int]);
        order::lemma_lex_total(p, q, less);
        order::lemma_lex_total(q, r, less);
        order::lemma_lex_irreflexive(p, less);
        if lt(z, x) {
            if order::lex_lt(r, p, less) {
                if order::lex_lt(p, q, less) {
                    order::lemma_lex_transitive(r, p, q, less);
                }
            } else {
                if order::lex_lt(p, q, less) && order::lex_lt(q, r, less) {
                    order::lemma_lex_transitive(p, q, r, less);
                }
            }
        }
    }
    order::lemma_sorted_sorted(flow::arrivals(g, g.edges@.len(), n, i), lt);
    let s = flow::summands(g, n, i);
    let (x, y) = (s[a], s[b]);
    assert(!lt(y, x));
    assert(x.0 < g.nodes@.len() && y.0 < g.nodes@.len());
    order::lemma_lex_total(paths[x.0 as int], paths[y.0 as int], less);
    assert(less =~= |c: usize, d: usize| c < d);
}

} // verus!
