//! Deriving a synth definition from the connected DSP nodes of a graph.

use crate::addr::ContentAddr;
use crate::dsp::{self, BuilderView, Derived, DspBuilder, InputRef, Signal};
use crate::edge::Edge;
use crate::flow;
use crate::graph::Graph;
use crate::mix;
use crate::node::{self, NodeDsp, ToNodeDsp};
use crate::topo;
use vstd::prelude::*;

verus! {

/// An error deriving a synth definition from a graph.
#[derive(Clone, Copy, Debug)]
pub enum DeriveError {
    /// The graph has no dsp sink, so there is nothing to root a synthdef at.
    NoSink,
    /// The boundaries form a cycle between regions, so there is no
    /// writer-before-reader order to derive them in.
    BusCycle,
    /// An instanced reference's target graph could not be resolved.
    Unresolved(ContentAddr),
    /// Instanced references form a cycle.
    RefCycle(ContentAddr),
}

/// The groups at the dsp outputs of the nodes emitted so far.
pub type Outputs = Map<usize, Seq<Seq<InputRef>>>;

/// The groups that a list of summands has materialized, in order.
pub open spec fn gather(outs: Outputs, summands: Seq<(usize, usize)>) -> Seq<Seq<InputRef>>
    decreases summands.len(),
{
    if summands.len() == 0 {
        Seq::empty()
    } else {
        let before = gather(outs, summands.drop_last());
        let (s, port) = summands.last();
        if outs.contains_key(s) && port < outs[s].len() {
            before.push(outs[s][port as int])
        } else {
            before
        }
    }
}

/// What arrives at one input: the mix of what its summands materialized, or
/// nothing where none did.
pub open spec fn mix_or_none(b: BuilderView, sigs: Seq<Seq<InputRef>>) -> (
    BuilderView,
    Option<Seq<InputRef>>,
) {
    if sigs.len() == 0 {
        (b, None)
    } else {
        let (b1, group) = mix::mixed(b, sigs);
        (b1, Some(group))
    }
}

/// What arrives at every input, the inputs' mixes emitted in order.
pub open spec fn emit_inputs(b: BuilderView, outs: Outputs, ins: Seq<Seq<(usize, usize)>>) -> (
    BuilderView,
    Seq<Option<Seq<InputRef>>>,
)
    decreases ins.len(),
{
    if ins.len() == 0 {
        (b, Seq::empty())
    } else {
        let (b1, before) = emit_inputs(b, outs, ins.drop_last());
        let (b2, at) = mix_or_none(b1, gather(outs, ins.last()));
        (b2, before.push(at))
    }
}

/// What the nodes emit in the given order, each once, into `b`.
pub open spec fn emit_order<N: ToNodeDsp>(g: Graph<N, Edge>, order: Seq<usize>, b: BuilderView) -> (
    BuilderView,
    Outputs,
)
    decreases order.len(),
{
    if order.len() == 0 {
        (b, Map::empty())
    } else {
        let (b1, outs) = emit_order(g, order.drop_last(), b);
        let n = order.last();
        match flow::dsp_at(g, n as int) {
            Some(d) => {
                let (b2, ins) = emit_inputs(b1, outs, flow::sources(g)[n as int]);
                let (b3, groups) = d.emit(flow::path_at(g, n as int), ins, b2);
                (b3, outs.insert(n, groups))
            },
            None => (b1, outs),
        }
    }
}

/// The output signals of emitted nodes, by slot.
pub open spec fn outputs(v: Seq<Option<Vec<Signal>>>) -> Outputs {
    Map::new(
        |k: usize| k < v.len() && v[k as int] is Some,
        |k: usize| mix::groups(v[k as int]->0@),
    )
}

fn gather_signals(outs: &Vec<Option<Vec<Signal>>>, summands: &Vec<(usize, usize)>) -> (r: Vec<Signal>)
    ensures
        mix::groups(r@) == gather(outputs(outs@), summands@),
{
    let mut r: Vec<Signal> = Vec::new();
    let ghost o = outputs(outs@);
    let mut i: usize = 0;
    assert(mix::groups(r@) =~= gather(o, summands@.take(0)));
    while i < summands.len()
        invariant
            i <= summands@.len(),
            o == outputs(outs@),
            mix::groups(r@) == gather(o, summands@.take(i as int)),
        decreases summands@.len() - i,
    {
        let s: usize = summands[i].0;
        let port: usize = summands[i].1;
        proof {
            assert(summands@.take(i + 1).drop_last() =~= summands@.take(i as int));
        }
        if s < outs.len() {
            match &outs[s] {
                Some(sigs) => {
                    if port < sigs.len() {
                        let ghost before = mix::groups(r@);
                        let sig = sigs[port].dup();
                        let ghost view = sig@;
                        r.push(sig);
                        assert(mix::groups(r@) =~= before.push(view));
                    }
                },
                None => {},
            }
        }
        i = i + 1;
    }
    assert(summands@.take(i as int) =~= summands@);
    r
}

/// Mixes the signals that arrive at an input; nothing where none does.
pub fn mix_input(b: &mut DspBuilder, sigs: &Vec<Signal>) -> (r: Option<Signal>)
    ensures
        ({
            let (b1, at) = mix_or_none(old(b)@, mix::groups(sigs@));
            &&& final(b)@ == b1
            &&& match r {
                Some(s) => at == Some(s@),
                None => at is None,
            }
        }),
{
    if sigs.len() == 0 {
        None
    } else {
        Some(mix::sum_signals(b, sigs))
    }
}

fn emit_node_inputs(
    b: &mut DspBuilder,
    outs: &Vec<Option<Vec<Signal>>>,
    ins: &Vec<Vec<(usize, usize)>>,
) -> (r: Vec<Option<Signal>>)
    ensures
        (final(b)@, node::arriving(r@)) == emit_inputs(
            old(b)@,
            outputs(outs@),
            flow::lists(ins@),
        ),
{
    let mut r: Vec<Option<Signal>> = Vec::new();
    let ghost all = flow::lists(ins@);
    let mut i: usize = 0;
    assert(all.take(0) =~= Seq::empty());
    assert(node::arriving(r@) =~= Seq::empty());
    while i < ins.len()
        invariant
            i <= ins@.len(),
            all == flow::lists(ins@),
            (b@, node::arriving(r@)) == emit_inputs(
                old(b)@,
                outputs(outs@),
                all.take(i as int),
            ),
        decreases ins@.len() - i,
    {
        let ghost before = node::arriving(r@);
        let sigs = gather_signals(outs, &ins[i]);
        let at = mix_input(b, &sigs);
        let ghost view = if at is Some {
            Some((at->0)@)
        } else {
            None
        };
        r.push(at);
        proof {
            let t = all.take(i + 1);
            assert(t.drop_last() =~= all.take(i as int));
            assert(t.last() == ins@[i as int]@);
            assert(node::arriving(r@) =~= before.push(view));
        }
        i = i + 1;
    }
    assert(all.take(i as int) =~= all);
    r
}

/// An output slot per node, all empty.
pub fn no_outputs(n: usize) -> (r: Vec<Option<Vec<Signal>>>)
    ensures
        r@.len() == n,
        outputs(r@) == Outputs::empty(),
{
    let mut r: Vec<Option<Vec<Signal>>> = Vec::new();
    let mut i: usize = 0;
    while i < n
        invariant
            i <= n,
            r@.len() == i,
            forall|j: int| 0 <= j < i ==> #[trigger] r@[j] is None,
        decreases n - i,
    {
        r.push(None);
        i = i + 1;
    }
    assert(outputs(r@) =~= Outputs::empty());
    r
}

/// Whether the outputs refer to things that were emitted.
pub open spec fn outputs_known(b: BuilderView, outs: Outputs) -> bool {
    forall|n: usize| #[trigger] outs.contains_key(n) ==> b.knows_groups(outs[n])
}

/// What is known stays known as the builder grows.
pub proof fn lemma_outputs_grow(a: BuilderView, b: BuilderView, outs: Outputs)
    requires
        a.grows_to(b),
        outputs_known(a, outs),
    ensures
        outputs_known(b, outs),
{
    assert forall|n: usize| #[trigger] outs.contains_key(n) implies b.knows_groups(outs[n]) by {
        assert forall|i: int| 0 <= i < outs[n].len() implies b.knows_all(
            #[trigger] outs[n][i],
        ) by {
            assert(a.knows_groups(outs[n]));
            dsp::lemma_grows_knows(a, b, outs[n][i]);
        }
    }
}

/// What sources have emitted is known.
pub proof fn lemma_gather_known(b: BuilderView, outs: Outputs, summands: Seq<(usize, usize)>)
    requires
        outputs_known(b, outs),
    ensures
        b.knows_groups(gather(outs, summands)),
    decreases summands.len(),
{
    if summands.len() > 0 {
        lemma_gather_known(b, outs, summands.drop_last());
        let before = gather(outs, summands.drop_last());
        let all = gather(outs, summands);
        let (s, port) = summands.last();
        assert forall|i: int| 0 <= i < all.len() implies b.knows_all(#[trigger] all[i]) by {
            if i < before.len() {
                assert(all[i] == before[i]);
            } else {
                assert(b.knows_groups(outs[s]));
                assert(b.knows_all(outs[s][port as int]));
            }
        }
    }
}

/// A mix of what is known, if there is anything to mix, keeps the builder sound.
pub proof fn lemma_mix_or_none(b: BuilderView, sigs: Seq<Seq<InputRef>>)
    ensures
        b.grows_to(mix_or_none(b, sigs).0),
        b.sound() && b.knows_groups(sigs) && mix_or_none(b, sigs).0.fits() ==> mix_or_none(
            b,
            sigs,
        ).0.sound() && (mix_or_none(b, sigs).1 is Some ==> mix_or_none(b, sigs).0.knows_all(
            mix_or_none(b, sigs).1->0,
        )),
{
    mix::lemma_mixed_sound(b, sigs);
}

/// What arrives at the inputs is known, and only adds to the builder.
pub proof fn lemma_emit_inputs(b: BuilderView, outs: Outputs, ins: Seq<Seq<(usize, usize)>>)
    ensures
        b.grows_to(emit_inputs(b, outs, ins).0),
        b.sound() && outputs_known(b, outs) && emit_inputs(b, outs, ins).0.fits() ==> emit_inputs(
            b,
            outs,
            ins,
        ).0.sound() && emit_inputs(b, outs, ins).0.knows_inputs(emit_inputs(b, outs, ins).1),
    decreases ins.len(),
{
    if ins.len() > 0 {
        let init = ins.drop_last();
        lemma_emit_inputs(b, outs, init);
        let (b1, before) = emit_inputs(b, outs, init);
        let sigs = gather(outs, ins.last());
        lemma_mix_or_none(b1, sigs);
        let (b2, at) = mix_or_none(b1, sigs);
        dsp::lemma_grows_trans(b, b1, b2);
        if b.sound() && outputs_known(b, outs) && b2.fits() {
            dsp::lemma_grows_fits(b1, b2);
            lemma_outputs_grow(b, b1, outs);
            lemma_gather_known(b1, outs, ins.last());
            lemma_push_input(b1, b2, before, at);
        }
    }
}

/// One more known input.
pub proof fn lemma_push_input(
    a: BuilderView,
    b: BuilderView,
    before: Seq<Option<Seq<InputRef>>>,
    at: Option<Seq<InputRef>>,
)
    requires
        a.grows_to(b),
        a.knows_inputs(before),
        at is Some ==> b.knows_all(at->0),
    ensures
        b.knows_inputs(before.push(at)),
{
    let all = before.push(at);
    assert forall|i: int| 0 <= i < all.len() && #[trigger] all[i] is Some implies b.knows_all(
        all[i]->0,
    ) by {
        if i < before.len() {
            assert(all[i] == before[i]);
            assert(before[i] is Some);
            dsp::lemma_grows_knows(a, b, before[i]->0);
        }
    }
}

/// What nodes emit keeps the builder sound.
pub proof fn lemma_emit_order<N: ToNodeDsp>(g: Graph<N, Edge>, order: Seq<usize>, b: BuilderView)
    ensures
        b.grows_to(emit_order(g, order, b).0),
        b.sound() && emit_order(g, order, b).0.fits() ==> emit_order(g, order, b).0.sound()
            && outputs_known(emit_order(g, order, b).0, emit_order(g, order, b).1),
    decreases order.len(),
{
    if order.len() > 0 {
        let init = order.drop_last();
        lemma_emit_order(g, init, b);
        let (b1, outs) = emit_order(g, init, b);
        let n = order.last();
        match flow::dsp_at(g, n as int) {
            Some(d) => {
                let ins = flow::sources(g)[n as int];
                lemma_emit_inputs(b1, outs, ins);
                let (b2, at) = emit_inputs(b1, outs, ins);
                d.lemma_emit_sound(flow::path_at(g, n as int), at, b2);
                let (b3, groups) = d.emit(flow::path_at(g, n as int), at, b2);
                dsp::lemma_grows_trans(b, b1, b2);
                dsp::lemma_grows_trans(b, b2, b3);
                dsp::lemma_grows_trans(b1, b2, b3);
                if b.sound() && b3.fits() {
                    dsp::lemma_grows_fits(b2, b3);
                    dsp::lemma_grows_fits(b1, b2);
                    lemma_outputs_grow(b1, b3, outs);
                    let next = outs.insert(n, groups);
                    assert forall|k: usize| #[trigger] next.contains_key(k) implies b3.knows_groups(
                        next[k],
                    ) by {
                        if k != n {
                            assert(outs.contains_key(k));
                        }
                    }
                }
            },
            None => {},
        }
    }
}

/// What is derived is sound, as long as its units and params can be numbered: every
/// unit refers only to params that are there and to units before it, so the units can
/// be computed in their order; and every binding, gain and monitor is to something in
/// the definition.
pub proof fn law_derived_definition_is_sound<N: ToNodeDsp>(
    g: Graph<N, Edge>,
    out_channels: nat,
    name: Seq<char>,
    d: dsp::DerivedView,
)
    requires
        derives(g, out_channels, name, d),
        d.def.units.len() <= usize::MAX,
        d.def.params.len() <= usize::MAX,
    ensures
        d.sound(),
{
    let order = choose|order: Seq<usize>| #[trigger]
        topo::pull_order(flow::flow_deps(g), flow::sinks(g), order) && d == dsp::finished(
            emit_order(g, order, BuilderView::empty(out_channels)).0,
            name,
        );
    let b = BuilderView::empty(out_channels);
    assert(b.sound());
    lemma_emit_order(g, order, b);
    dsp::lemma_finished_sound(emit_order(g, order, b).0, name);
}

/// What deriving a single definition gives, for some order in which every node
/// that feeds a sink comes once, and its sources before it.
pub open spec fn derives<N: ToNodeDsp>(
    g: Graph<N, Edge>,
    out_channels: nat,
    name: Seq<char>,
    d: dsp::DerivedView,
) -> bool {
    exists|order: Seq<usize>| #[trigger]
        topo::pull_order(flow::flow_deps(g), flow::sinks(g), order) && d == dsp::finished(
            emit_order(g, order, BuilderView::empty(out_channels)).0,
            name,
        )
}

/// The definition that is derived: the nodes emit in the order in which a walk from the
/// sinks along their sources completes them.
pub open spec fn definition<N: ToNodeDsp>(
    g: Graph<N, Edge>,
    out_channels: nat,
    name: Seq<char>,
) -> dsp::DerivedView {
    dsp::finished(
        emit_order(
            g,
            topo::post_order_of(flow::flow_deps(g), flow::sinks(g)),
            BuilderView::empty(out_channels),
        ).0,
        name,
    )
}

/// Derives a synth definition named `name` from a graph's DSP nodes, fanning the
/// output across `out_channels` channels.
///
/// The graph's sinks are its audio outputs and its monitors. Only nodes that feed
/// a sink through dsp inputs contribute, each once, sources before consumers; an
/// input with several edges sums them in canonical order.
pub fn derive_synthdef<N: ToNodeDsp>(g: &Graph<N, Edge>, out_channels: usize, name: String) -> (r:
    Result<Derived, DeriveError>)
    requires
        g.wf(),
    ensures
        match r {
            Ok(d) => flow::sinks(*g).len() > 0 && derives(*g, out_channels as nat, name@, d@)
                && d@ == definition(*g, out_channels as nat, name@) && d@.sound(),
            Err(e) => e == DeriveError::NoSink && flow::sinks(*g).len() == 0,
        },
{
    let sinks = flow::dsp_sinks(g);
    if sinks.len() == 0 {
        return Err(DeriveError::NoSink);
    }
    let paths = flow::all_paths(g);
    let srcs = flow::resolved_sources(g, &paths);
    let deps = flow::all_deps(g, &srcs);
    let n_slots: usize = g.nodes.len();
    proof {
        flow::lemma_indices(g.nodes@.len(), |i: int| flow::is_sink(*g, i));
        assert(flow::flow_deps(*g).len() == g.nodes@.len());
    }
    let order = topo::post_order(&deps, &sinks);
    let mut b = DspBuilder::new(out_channels);
    let ghost b0 = b@;
    let mut outs = no_outputs(g.nodes.len());
    let mut i: usize = 0;
    assert(order@.take(0) =~= Seq::empty());
    proof {
        assert(flow::all_lists(srcs@).len() == srcs@.len());
        assert(topo::views(paths@).len() == paths@.len());
    }
    while i < order.len()
        invariant
            g.wf(),
            i <= order@.len(),
            outs@.len() == g.nodes@.len(),
            srcs@.len() == g.nodes@.len(),
            paths@.len() == g.nodes@.len(),
            flow::all_lists(srcs@) == flow::sources(*g),
            topo::views(paths@) == flow::node_paths(*g),
            (b@, outputs(outs@)) == emit_order(*g, order@.take(i as int), b0),
        decreases order@.len() - i,
    {
        let n: usize = order[i];
        proof {
            assert(order@.take(i + 1).drop_last() =~= order@.take(i as int));
        }
        if n < g.nodes.len() {
            if let Some(weight) = &g.nodes[n] {
                if let Some(d) = weight.to_node_dsp() {
                    proof {
                        assert(flow::all_lists(srcs@)[n as int] == flow::lists(srcs@[n as int]@));
                        assert(topo::views(paths@)[n as int] == paths@[n as int]@);
                    }
                    let ghost before = outputs(outs@);
                    let ins = emit_node_inputs(&mut b, &outs, &srcs[n]);
                    let sigs = d.ugens(&paths[n], &ins, &mut b);
                    let ghost groups = mix::groups(sigs@);
                    outs.set(n, Some(sigs));
                    assert(outputs(outs@) =~= before.insert(n, groups));
                }
            }
        }
        i = i + 1;
    }
    assert(order@.take(i as int) =~= order@);
    let ghost named = name@;
    let d = b.finish(name);
    proof {
        assert(topo::pull_order(flow::flow_deps(*g), flow::sinks(*g), order@));
        assert(derives(*g, out_channels as nat, named, d@));
        dsp::lemma_derived_fits(d);
        law_derived_definition_is_sound(*g, out_channels as nat, named, d@);
    }
    Ok(d)
}

} // verus!
