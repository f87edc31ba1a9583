//! Deriving one synth definition per region of a graph that boundaries cut.

use crate::compile::{self, DeriveError, Outputs};
use crate::dsp::{self, BuilderView, Derived, DerivedView, DspBuilder, InputRef, Rate, Signal, UnitSpec, UnitView};
use crate::edge::Edge;
use crate::flow;
use crate::graph::Graph;
use crate::mix;
use crate::node::{self, NodeDsp, ToNodeDsp};
use crate::order::{self, Key};
use crate::param;
use crate::region::{self, RegionBus};
use crate::schedule::{self, Arrivals};
use crate::sig;
use crate::table::Table;
use crate::text;
use crate::topo;
use vstd::prelude::*;
use vstd::string::*;

verus! {

/// One side of a bus within a region's def: the unit whose input 0, the bus
/// index, is a control param that is set once a bus is allocated.
#[derive(Clone, Debug)]
pub struct BusBinding {
    /// The path that the bus is allocated under: that of the boundary next to the
    /// writer, or of the source itself where the boundary's chain fans out.
    pub node_path: Vec<usize>,
    /// The bus's channel count.
    pub channels: usize,
    /// The index within the def's `units` of the bus `Out` or `In`.
    pub unit: usize,
    /// The control param that holds the bus index.
    pub param: usize,
    /// The source's output port, for the bus of a source.
    pub output: Option<usize>,
}

/// What a [`BusBinding`] denotes.
#[verifier::ext_equal]
pub struct BusView {
    pub node_path: Seq<usize>,
    pub channels: usize,
    pub unit: usize,
    pub param: usize,
    pub output: Option<usize>,
}

impl View for BusBinding {
    type V = BusView;

    open spec fn view(&self) -> BusView {
        BusView {
            node_path: self.node_path@,
            channels: self.channels,
            unit: self.unit,
            param: self.param,
            output: self.output,
        }
    }
}

/// What a list of bus bindings denotes.
pub open spec fn bus_views(v: Seq<BusBinding>) -> Seq<BusView> {
    v.map_values(|b: BusBinding| b@)
}

/// One region of a cut graph: its definition, and the buses it writes and reads.
#[derive(Debug)]
pub struct RegionDerived {
    /// The region's identity across derivations: a hash of the paths and roles of
    /// its sinks and buses.
    pub key: u64,
    /// The region's definition and bindings.
    pub derived: Derived,
    /// The buses the definition writes.
    pub bus_writes: Vec<BusBinding>,
    /// The buses the definition reads.
    pub bus_reads: Vec<BusBinding>,
}

/// What a [`RegionDerived`] denotes.
#[verifier::ext_equal]
pub struct RegionView {
    pub key: u64,
    pub derived: DerivedView,
    pub bus_writes: Seq<BusView>,
    pub bus_reads: Seq<BusView>,
}

impl View for RegionDerived {
    type V = RegionView;

    open spec fn view(&self) -> RegionView {
        RegionView {
            key: self.key,
            derived: self.derived@,
            bus_writes: bus_views(self.bus_writes@),
            bus_reads: bus_views(self.bus_reads@),
        }
    }
}

/// A node path as a key.
#[derive(Debug)]
pub struct PathKey(pub Vec<usize>);

impl View for PathKey {
    type V = Seq<usize>;

    open spec fn view(&self) -> Seq<usize> {
        self.0@
    }
}

impl Key for PathKey {
    open spec fn precedes(a: Seq<usize>, b: Seq<usize>) -> bool {
        order::lex_lt(a, b, flow::index_lt())
    }

    proof fn lemma_irreflexive(a: Seq<usize>) {
        flow::lemma_index_order();
        order::lemma_lex_irreflexive(a, flow::index_lt());
    }

    proof fn lemma_transitive(a: Seq<usize>, b: Seq<usize>, c: Seq<usize>) {
        flow::lemma_index_order();
        order::lemma_lex_transitive(a, b, c, flow::index_lt());
    }

    proof fn lemma_total(a: Seq<usize>, b: Seq<usize>) {
        flow::lemma_index_order();
        order::lemma_lex_total(a, b, flow::index_lt());
    }

    fn before(&self, other: &Self) -> (r: bool) {
        flow::path_before(&self.0, &other.0)
    }

    fn same(&self, other: &Self) -> (r: bool) {
        flow::path_same(&self.0, &other.0)
    }

    fn dup(&self) -> (r: Self) {
        PathKey(dsp::dup_path(&self.0))
    }
}

/// The path, the param label and the output port of a bus.
pub open spec fn bus_at<N: ToNodeDsp>(g: Graph<N, Edge>, bus: RegionBus) -> (
    Seq<usize>,
    Seq<char>,
    Option<usize>,
) {
    match bus {
        RegionBus::Bus(b) => (flow::path_at(g, b as int), "bus"@, None),
        RegionBus::Src(s, port) => (
            flow::path_at(g, s as int),
            "bus"@ + text::dec(port as nat),
            Some(port),
        ),
    }
}

fn bus_param_at<N: ToNodeDsp>(g: &Graph<N, Edge>, paths: &Vec<Vec<usize>>, bus: RegionBus) -> (r: (
    Vec<usize>,
    String,
    Option<usize>,
))
    requires
        topo::views(paths@) == flow::node_paths(*g),
    ensures
        (r.0@, r.1@, r.2) == bus_at(*g, bus),
{
    let ix: usize = match bus {
        RegionBus::Bus(b) => b,
        RegionBus::Src(s, _) => s,
    };
    proof {
        assert(topo::views(paths@).len() == paths@.len());
    }
    let path: Vec<usize> = if ix < paths.len() {
        assert(topo::views(paths@)[ix as int] == paths@[ix as int]@);
        dsp::dup_path(&paths[ix])
    } else {
        Vec::new()
    };
    assert(path@ =~= flow::path_at(*g, ix as int));
    match bus {
        RegionBus::Bus(_) => (path, String::from_str("bus"), None),
        RegionBus::Src(_, port) => {
            let mut label = String::from_str("bus");
            label.append(text::dec_string(port).as_str());
            (path, label, Some(port))
        },
    }
}

/// The state of deriving one region.
#[verifier::ext_equal]
pub struct RegionState {
    pub b: BuilderView,
    /// The outputs of the nodes emitted so far.
    pub outs: Outputs,
    /// The signal of each bus read so far.
    pub ins: Map<RegionBus, Seq<InputRef>>,
    /// The bindings of the buses read so far.
    pub reads: Seq<BusView>,
}

/// The outputs of a unit, one channel each.
pub open spec fn unit_outputs(unit: usize, channels: usize) -> Seq<InputRef> {
    Seq::new(channels as nat, |o: int| InputRef::Unit { unit, output: o as usize })
}

/// Reading a bus: one `In` unit per bus, shared by all readers in the region, as
/// wide as the bus was written, or mono where it was not.
pub open spec fn read_bus<N: ToNodeDsp>(
    g: Graph<N, Edge>,
    widths: Map<RegionBus, usize>,
    st: RegionState,
    bus: RegionBus,
) -> (RegionState, Seq<InputRef>) {
    if st.ins.contains_key(bus) {
        (st, st.ins[bus])
    } else {
        let channels = if widths.contains_key(bus) {
            widths[bus]
        } else {
            1
        };
        let (path, label, output) = bus_at(g, bus);
        let param = st.b.params.len() as usize;
        let unit = st.b.units.len() as usize;
        let b = st.b.with_param(dsp::control_param(param::name_of(path, label))).with_unit(
            dsp::unit("In"@, Rate::Audio, seq![InputRef::Param(param)], channels),
        );
        let group = unit_outputs(unit, channels);
        (
            RegionState {
                b,
                outs: st.outs,
                ins: st.ins.insert(bus, group),
                reads: st.reads.push(BusView { node_path: path, channels, unit, param, output }),
            },
            group,
        )
    }
}

/// The groups that the given origins materialize in region `r`, in order: another
/// region's bus is read, all else is taken from what was emitted.
pub open spec fn gather<N: ToNodeDsp>(
    g: Graph<N, Edge>,
    r: usize,
    widths: Map<RegionBus, usize>,
    st: RegionState,
    items: Seq<(Option<RegionBus>, (usize, usize))>,
) -> (RegionState, Seq<Seq<InputRef>>)
    decreases items.len(),
{
    if items.len() == 0 {
        (st, Seq::empty())
    } else {
        let (st1, before) = gather(g, r, widths, st, items.drop_last());
        let x = items.last();
        if region::foreign(g, r, x) {
            let (st2, group) = read_bus(g, widths, st1, x.0->0);
            (st2, before.push(group))
        } else {
            let (s, port) = x.1;
            if st1.outs.contains_key(s) && port < st1.outs[s].len() {
                (st1, before.push(st1.outs[s][port as int]))
            } else {
                (st1, before)
            }
        }
    }
}

/// What arrives at every input of a node of region `r`.
pub open spec fn region_inputs<N: ToNodeDsp>(
    g: Graph<N, Edge>,
    r: usize,
    widths: Map<RegionBus, usize>,
    st: RegionState,
    ins: Seq<Seq<(usize, usize)>>,
) -> (RegionState, Seq<Option<Seq<InputRef>>>)
    decreases ins.len(),
{
    if ins.len() == 0 {
        (st, Seq::empty())
    } else {
        let (st1, before) = region_inputs(g, r, widths, st, ins.drop_last());
        let (st2, sigs) = gather(g, r, widths, st1, region::lower_all(g, ins.last()));
        let (b, at) = compile::mix_or_none(st2.b, sigs);
        (RegionState { b, ..st2 }, before.push(at))
    }
}

/// What the nodes of region `r` emit in the given order.
pub open spec fn emit_region<N: ToNodeDsp>(
    g: Graph<N, Edge>,
    r: usize,
    widths: Map<RegionBus, usize>,
    order: Seq<usize>,
    out_channels: nat,
) -> RegionState
    decreases order.len(),
{
    if order.len() == 0 {
        RegionState {
            b: BuilderView::empty(out_channels),
            outs: Map::empty(),
            ins: Map::empty(),
            reads: Seq::empty(),
        }
    } else {
        let st = emit_region(g, r, widths, order.drop_last(), out_channels);
        let n = order.last();
        match flow::dsp_at(g, n as int) {
            Some(d) => {
                let (st1, ins) = region_inputs(g, r, widths, st, flow::sources(g)[n as int]);
                let (b, groups) = d.emit(flow::path_at(g, n as int), ins, st1.b);
                RegionState { b, outs: st1.outs.insert(n, groups), ..st1 }
            },
            None => st,
        }
    }
}

/// What the executable state of deriving a region denotes.
pub open spec fn state(
    b: BuilderView,
    outs: Seq<Option<Vec<Signal>>>,
    ins: Map<RegionBus, Signal>,
    reads: Seq<BusBinding>,
) -> RegionState {
    RegionState {
        b,
        outs: compile::outputs(outs),
        ins: ins.map_values(|s: Signal| s@),
        reads: bus_views(reads),
    }
}

fn unit_signal(unit: usize, channels: usize) -> (r: Signal)
    ensures
        r@ == unit_outputs(unit, channels),
{
    let mut refs: Vec<InputRef> = Vec::new();
    let mut o: usize = 0;
    while o < channels
        invariant
            o <= channels,
            refs@ =~= unit_outputs(unit, channels).take(o as int),
        decreases channels - o,
    {
        refs.push(InputRef::Unit { unit, output: o });
        o = o + 1;
    }
    assert(refs@ =~= unit_outputs(unit, channels));
    Signal(refs)
}

fn read_region_bus<N: ToNodeDsp>(
    g: &Graph<N, Edge>,
    paths: &Vec<Vec<usize>>,
    widths: &Table<RegionBus, usize>,
    b: &mut DspBuilder,
    Ghost(outs): Ghost<Seq<Option<Vec<Signal>>>>,
    ins: &mut Table<RegionBus, Signal>,
    reads: &mut Vec<BusBinding>,
    bus: RegionBus,
) -> (r: Signal)
    requires
        topo::views(paths@) == flow::node_paths(*g),
    ensures
        (state(final(b)@, outs, final(ins)@, final(reads)@), r@) == read_bus(
            *g,
            widths@,
            state(old(b)@, outs, old(ins)@, old(reads)@),
            bus,
        ),
{
    let ghost st = state(old(b)@, outs, old(ins)@, old(reads)@);
    if let Some(sig) = ins.get(&bus) {
        return sig.dup();
    }
    let channels: usize = match widths.get(&bus) {
        Some(w) => *w,
        None => 1,
    };
    let (path, label, output) = bus_param_at(g, paths, bus);
    let param: usize = b.push_control_param(&path, label.as_str());
    let refs = vec![InputRef::Param(param)];
    assert(refs@ =~= seq![InputRef::Param(param)]);
    let unit: usize = b.push_unit(UnitSpec::new("In", Rate::Audio, refs, channels));
    let binding = BusBinding { node_path: path, channels, unit, param, output };
    let ghost view = binding@;
    reads.push(binding);
    let sig = unit_signal(unit, channels);
    let r = sig.dup();
    ins.insert(bus, sig);
    proof {
        let (st1, group) = read_bus(*g, widths@, st, bus);
        assert(bus_views(reads@) =~= st.reads.push(view));
        assert(ins@.map_values(|s: Signal| s@) =~= st.ins.insert(bus, group));
        assert(state(b@, outs, ins@, reads@) =~= st1);
    }
    r
}

/// Whether a signal comes from another region than `r`, over a bus.
fn is_foreign<N: ToNodeDsp>(
    g: &Graph<N, Edge>,
    comp: &Vec<Option<usize>>,
    r: usize,
    x: &(Option<RegionBus>, (usize, usize)),
) -> (b: bool)
    requires
        region::labels(*g, comp@),
    ensures
        b == region::foreign(*g, r, *x),
{
    proof {
        region::lemma_labels(*g, comp@, x.1.0);
    }
    if x.0.is_none() {
        return false;
    }
    let c: Option<usize> = if x.1.0 < comp.len() {
        comp[x.1.0]
    } else {
        None
    };
    match c {
        Some(l) => l != r,
        None => true,
    }
}

fn gather_region<N: ToNodeDsp>(
    g: &Graph<N, Edge>,
    paths: &Vec<Vec<usize>>,
    comp: &Vec<Option<usize>>,
    widths: &Table<RegionBus, usize>,
    r: usize,
    b: &mut DspBuilder,
    outs: &Vec<Option<Vec<Signal>>>,
    ins: &mut Table<RegionBus, Signal>,
    reads: &mut Vec<BusBinding>,
    items: &Vec<(Option<RegionBus>, (usize, usize))>,
) -> (sigs: Vec<Signal>)
    requires
        topo::views(paths@) == flow::node_paths(*g),
        region::labels(*g, comp@),
    ensures
        (state(final(b)@, outs@, final(ins)@, final(reads)@), mix::groups(sigs@)) == gather(
            *g,
            r,
            widths@,
            state(old(b)@, outs@, old(ins)@, old(reads)@),
            items@,
        ),
{
    let ghost st = state(old(b)@, outs@, old(ins)@, old(reads)@);
    let mut sigs: Vec<Signal> = Vec::new();
    let mut i: usize = 0;
    assert(items@.take(0) =~= Seq::empty());
    assert(mix::groups(sigs@) =~= Seq::empty());
    while i < items.len()
        invariant
            topo::views(paths@) == flow::node_paths(*g),
            region::labels(*g, comp@),
            i <= items@.len(),
            (state(b@, outs@, ins@, reads@), mix::groups(sigs@)) == gather(
                *g,
                r,
                widths@,
                st,
                items@.take(i as int),
            ),
        decreases items@.len() - i,
    {
        let ghost before = mix::groups(sigs@);
        let x = items[i];
        proof {
            assert(items@.take(i + 1).drop_last() =~= items@.take(i as int));
        }
        if is_foreign(g, comp, r, &x) {
            if let Some(bus) = x.0 {
                let sig = read_region_bus(
                    g,
                    paths,
                    widths,
                    b,
                    Ghost(outs@),
                    ins,
                    reads,
                    bus,
                );
                let ghost view = sig@;
                sigs.push(sig);
                assert(mix::groups(sigs@) =~= before.push(view));
            }
        } else {
            let s: usize = x.1.0;
            let port: usize = x.1.1;
            if s < outs.len() {
                if let Some(out) = &outs[s] {
                    if port < out.len() {
                        let sig = out[port].dup();
                        let ghost view = sig@;
                        sigs.push(sig);
                        assert(mix::groups(sigs@) =~= before.push(view));
                    }
                }
            }
        }
        i = i + 1;
    }
    assert(items@.take(i as int) =~= items@);
    sigs
}

fn emit_region_inputs<N: ToNodeDsp>(
    g: &Graph<N, Edge>,
    paths: &Vec<Vec<usize>>,
    comp: &Vec<Option<usize>>,
    all: &Vec<Vec<(RegionBus, (usize, usize))>>,
    widths: &Table<RegionBus, usize>,
    r: usize,
    b: &mut DspBuilder,
    outs: &Vec<Option<Vec<Signal>>>,
    ins: &mut Table<RegionBus, Signal>,
    reads: &mut Vec<BusBinding>,
    inputs: &Vec<Vec<(usize, usize)>>,
) -> (at: Vec<Option<Signal>>)
    requires
        topo::views(paths@) == flow::node_paths(*g),
        region::labels(*g, comp@),
        region::lists_buses(*g, all@),
    ensures
        (state(final(b)@, outs@, final(ins)@, final(reads)@), node::arriving(at@))
            == region_inputs(
            *g,
            r,
            widths@,
            state(old(b)@, outs@, old(ins)@, old(reads)@),
            flow::lists(inputs@),
        ),
{
    let ghost st = state(old(b)@, outs@, old(ins)@, old(reads)@);
    let ghost lists = flow::lists(inputs@);
    let mut at: Vec<Option<Signal>> = Vec::new();
    let mut i: usize = 0;
    assert(lists.take(0) =~= Seq::empty());
    assert(node::arriving(at@) =~= Seq::empty());
    while i < inputs.len()
        invariant
            topo::views(paths@) == flow::node_paths(*g),
            region::labels(*g, comp@),
            region::lists_buses(*g, all@),
            i <= inputs@.len(),
            lists == flow::lists(inputs@),
            (state(b@, outs@, ins@, reads@), node::arriving(at@)) == region_inputs(
                *g,
                r,
                widths@,
                st,
                lists.take(i as int),
            ),
        decreases inputs@.len() - i,
    {
        let ghost before = node::arriving(at@);
        let items = region::lower_summands(g, all, &inputs[i]);
        let sigs = gather_region(g, paths, comp, widths, r, b, outs, ins, reads, &items);
        let ghost mid = state(b@, outs@, ins@, reads@);
        let x = compile::mix_input(b, &sigs);
        let ghost view = if x is Some {
            Some((x->0)@)
        } else {
            None
        };
        at.push(x);
        proof {
            let t = lists.take(i + 1);
            assert(t.drop_last() =~= lists.take(i as int));
            assert(t.last() == inputs@[i as int]@);
            assert(node::arriving(at@) =~= before.push(view));
            assert(state(b@, outs@, ins@, reads@) =~= RegionState { b: b@, ..mid });
        }
        i = i + 1;
    }
    assert(lists.take(i as int) =~= lists);
    at
}

/// Whether a wanted region reads `bus`, which another region writes.
pub open spec fn read_elsewhere<N: ToNodeDsp>(g: Graph<N, Edge>, bus: RegionBus) -> bool {
    exists|r: usize| region::wanted(g, r) && #[trigger] region::crosses(g, r, bus)
}

/// Whether `bus` is among the writes.
pub open spec fn writes_bus(acc: Seq<(RegionBus, (usize, usize))>, bus: RegionBus) -> bool {
    exists|i: int| 0 <= i < acc.len() && (#[trigger] acc[i]).0 == bus
}

/// The writes so far, and those of a boundary's buses that region `r` writes,
/// that another region reads, and that are not listed yet.
pub open spec fn add_writes<N: ToNodeDsp>(
    g: Graph<N, Edge>,
    r: usize,
    acc: Seq<(RegionBus, (usize, usize))>,
    more: Seq<(RegionBus, (usize, usize))>,
) -> Seq<(RegionBus, (usize, usize))>
    decreases more.len(),
{
    if more.len() == 0 {
        acc
    } else {
        let before = add_writes(g, r, acc, more.drop_last());
        let (bus, src) = more.last();
        if region::region_of(g, src.0) == Some(r) && read_elsewhere(g, bus) && !writes_bus(
            before,
            bus,
        ) {
            before.push((bus, src))
        } else {
            before
        }
    }
}

/// The buses that region `r` writes, by the boundaries among the first `n` nodes.
pub open spec fn writes_upto<N: ToNodeDsp>(g: Graph<N, Edge>, r: usize, n: nat) -> Seq<
    (RegionBus, (usize, usize)),
>
    decreases n,
{
    if n == 0 {
        Seq::empty()
    } else {
        let before = writes_upto(g, r, (n - 1) as nat);
        if region::reached(g, (n - 1) as usize) && flow::cuts(g, n - 1) {
            add_writes(g, r, before, region::buses_at(g, (n - 1) as usize))
        } else {
            before
        }
    }
}

/// The buses that region `r` writes, each with its source, in boundary order.
pub open spec fn region_writes<N: ToNodeDsp>(g: Graph<N, Edge>, r: usize) -> Seq<
    (RegionBus, (usize, usize)),
> {
    writes_upto(g, r, g.nodes@.len())
}

/// Those of the listed nodes that are in region `r`.
pub open spec fn within<N: ToNodeDsp>(g: Graph<N, Edge>, r: usize, s: Seq<usize>) -> Seq<usize>
    decreases s.len(),
{
    if s.len() == 0 {
        Seq::empty()
    } else if region::region_of(g, s.last()) == Some(r) {
        within(g, r, s.drop_last()).push(s.last())
    } else {
        within(g, r, s.drop_last())
    }
}

/// The sources of a list of writes.
pub open spec fn write_sources(w: Seq<(RegionBus, (usize, usize))>) -> Seq<usize> {
    w.map_values(|x: (RegionBus, (usize, usize))| x.1.0)
}

/// The roots of region `r`: its sinks, and the sources of the buses it writes.
pub open spec fn region_seeds<N: ToNodeDsp>(g: Graph<N, Edge>, r: usize) -> Seq<usize> {
    within(g, r, flow::sinks(g)) + write_sources(region_writes(g, r))
}

/// The nodes of region `r` that the given origins stand for.
pub open spec fn local_sources<N: ToNodeDsp>(
    g: Graph<N, Edge>,
    r: usize,
    items: Seq<(Option<RegionBus>, (usize, usize))>,
) -> Seq<usize> {
    within(g, r, items.map_values(|x: (Option<RegionBus>, (usize, usize))| x.1.0))
}

/// For every node, the nodes of its own region that it takes signals from.
pub open spec fn local_deps<N: ToNodeDsp>(g: Graph<N, Edge>) -> Seq<Seq<usize>> {
    Seq::new(
        g.nodes@.len(),
        |n: int|
            match region::region_of(g, n as usize) {
                Some(r) => local_sources(g, r, region::arrives(g, n as usize)),
                None => Seq::empty(),
            },
    )
}

/// The product of an audio-rate channel and a fade gain.
pub open spec fn fade_unit(channel: InputRef, fade: usize) -> UnitView {
    UnitView {
        name: "BinaryOpUGen"@,
        rate: Rate::Audio,
        inputs: seq![channel, InputRef::Param(fade)],
        num_outputs: 1,
        special_index: 2,
    }
}

/// The first `n` channels, each lifted to audio rate and faded.
pub open spec fn faded(b: BuilderView, group: Seq<InputRef>, fade: usize, n: nat) -> (
    BuilderView,
    Seq<InputRef>,
)
    decreases n,
{
    if n == 0 {
        (b, Seq::empty())
    } else {
        let (b1, refs) = faded(b, group, fade, (n - 1) as nat);
        let (b2, ch) = dsp::lifted(b1, group[n - 1]);
        let b3 = b2.with_unit(fade_unit(ch, fade));
        (b3, refs.push(b3.last_unit()))
    }
}

/// The state of writing a region's buses.
#[verifier::ext_equal]
pub struct WriteState {
    pub b: BuilderView,
    /// The fade gain of each path.
    pub fades: Map<Seq<usize>, usize>,
    /// The width of each bus written so far, by any region.
    pub widths: Map<RegionBus, usize>,
    /// The bindings of the buses written so far.
    pub written: Seq<BusView>,
}

/// Writing a bus: the source's group, or mono silence, each channel lifted to
/// audio rate and faded, goes out to a bus whose index is a param.
pub open spec fn write_bus<N: ToNodeDsp>(
    g: Graph<N, Edge>,
    outs: Outputs,
    ws: WriteState,
    w: (RegionBus, (usize, usize)),
) -> WriteState {
    let (bus, (s, port)) = w;
    let group = if outs.contains_key(s) && port < outs[s].len() {
        outs[s][port as int]
    } else {
        dsp::silence(1)
    };
    let (path, label, output) = bus_at(g, bus);
    let fresh = ws.b.params.len() as usize;
    let (b1, fade, fades) = if ws.fades.contains_key(path) {
        (ws.b, ws.fades[path], ws.fades)
    } else {
        (
            ws.b.with_param(dsp::fade_param(path)).with_gain(path, fresh),
            fresh,
            ws.fades.insert(path, fresh),
        )
    };
    let param = b1.params.len() as usize;
    let b2 = b1.with_param(dsp::control_param(param::name_of(path, label)));
    let (b3, refs) = faded(b2, group, fade, group.len());
    let unit = b3.units.len() as usize;
    let b4 = b3.with_unit(dsp::unit("Out"@, Rate::Audio, seq![InputRef::Param(param)] + refs, 0));
    WriteState {
        b: b4,
        fades,
        widths: ws.widths.insert(bus, group.len() as usize),
        written: ws.written.push(
            BusView { node_path: path, channels: group.len() as usize, unit, param, output },
        ),
    }
}

/// Writing buses, one after the other.
pub open spec fn write_buses<N: ToNodeDsp>(
    g: Graph<N, Edge>,
    outs: Outputs,
    ws: WriteState,
    writes: Seq<(RegionBus, (usize, usize))>,
) -> WriteState
    decreases writes.len(),
{
    if writes.len() == 0 {
        ws
    } else {
        write_bus(g, outs, write_buses(g, outs, ws, writes.drop_last()), writes.last())
    }
}

/// The text of a bus binding's identity.
pub open spec fn bus_text(b: BusView) -> Seq<char> {
    sig::path_text(b.node_path) + match b.output {
        Some(o) => seq!['o'] + sig::num(o as nat),
        None => Seq::empty(),
    }
}

/// The text of a region's identity: the roles and paths of its sinks and buses.
pub open spec fn key_text(sinks: Seq<Seq<usize>>, written: Seq<BusView>, reads: Seq<BusView>) -> Seq<
    char,
> {
    sig::cat(sinks, |p: Seq<usize>| seq!['s'] + sig::path_text(p)) + sig::cat(
        written,
        |b: BusView| seq!['w'] + bus_text(b),
    ) + sig::cat(reads, |b: BusView| seq!['r'] + bus_text(b))
}

/// The paths of the listed nodes.
pub open spec fn paths_of<N: ToNodeDsp>(g: Graph<N, Edge>, s: Seq<usize>) -> Seq<Seq<usize>> {
    s.map_values(|n: usize| flow::path_at(g, n as int))
}

/// What deriving region `r` in the given node order gives, and the bus widths
/// known behind it.
pub open spec fn one_region<N: ToNodeDsp>(
    g: Graph<N, Edge>,
    r: usize,
    widths: Map<RegionBus, usize>,
    order: Seq<usize>,
    out_channels: nat,
    prefix: Seq<char>,
) -> (RegionView, Map<RegionBus, usize>) {
    let st = emit_region(g, r, widths, order, out_channels);
    let ws = write_buses(
        g,
        st.outs,
        WriteState { b: st.b, fades: Map::empty(), widths, written: Seq::empty() },
        region_writes(g, r),
    );
    let key = sig::text_hash(
        key_text(paths_of(g, within(g, r, flow::sinks(g))), ws.written, st.reads),
    );
    let name = prefix + "-"@ + text::hex(key as nat, 16);
    (
        RegionView {
            key,
            derived: dsp::finished(ws.b, name),
            bus_writes: ws.written,
            bus_reads: st.reads,
        },
        ws.widths,
    )
}

/// What deriving the regions one after the other gives.
pub open spec fn all_regions<N: ToNodeDsp>(
    g: Graph<N, Edge>,
    schedule: Seq<usize>,
    orders: Seq<Seq<usize>>,
    out_channels: nat,
    prefix: Seq<char>,
) -> (Seq<RegionView>, Map<RegionBus, usize>)
    decreases schedule.len(),
{
    if schedule.len() == 0 {
        (Seq::empty(), Map::empty())
    } else {
        let (before, widths) = all_regions(
            g,
            schedule.drop_last(),
            orders.drop_last(),
            out_channels,
            prefix,
        );
        let (one, after) = one_region(
            g,
            schedule.last(),
            widths,
            orders.last(),
            out_channels,
            prefix,
        );
        (before.push(one), after)
    }
}

/// Whether `orders` holds, for each region of the schedule, the order in which a walk
/// from its roots along their sources completes what they need: each node once, and its
/// sources before it.
pub open spec fn region_orders<N: ToNodeDsp>(
    g: Graph<N, Edge>,
    schedule: Seq<usize>,
    orders: Seq<Seq<usize>>,
) -> bool {
    &&& orders.len() == schedule.len()
    &&& forall|k: int|
        0 <= k < schedule.len() ==> topo::pull_order(
            local_deps(g),
            region_seeds(g, schedule[k]),
            #[trigger] orders[k],
        ) && orders[k] == topo::post_order_of(local_deps(g), region_seeds(g, schedule[k]))
}

/// Whether `schedule` lists the wanted regions, writers before readers.
pub open spec fn region_schedule<N: ToNodeDsp>(g: Graph<N, Edge>, schedule: Seq<usize>) -> bool {
    &&& region::writers_first(g, schedule)
    &&& forall|c: usize| #[trigger] region::wanted(g, c) ==> schedule.contains(c)
}

/// What deriving a cut graph gives, for the schedule of the regions and the order of
/// the nodes within each.
pub open spec fn derives_regions<N: ToNodeDsp>(
    g: Graph<N, Edge>,
    out_channels: nat,
    prefix: Seq<char>,
    regions: Seq<RegionView>,
) -> bool {
    exists|schedule: Seq<usize>, orders: Seq<Seq<usize>>| #[trigger]
        region_schedule(g, schedule) && #[trigger] region_orders(g, schedule, orders) && regions
            == all_regions(g, schedule, orders, out_channels, prefix).0
}

/// Whether a wanted region reads `bus`, which another region writes.
fn is_read_elsewhere<N: ToNodeDsp>(
    g: &Graph<N, Edge>,
    comp: &Vec<Option<usize>>,
    arr: &Arrivals,
    want: &Vec<bool>,
    bus: RegionBus,
) -> (r: bool)
    requires
        region::labels(*g, comp@),
        schedule::lists_arrivals(*g, arr@),
        want@.len() == g.nodes@.len(),
        forall|c: usize| c < want@.len() ==> #[trigger] want@[c as int] == region::wanted(*g, c),
    ensures
        r == read_elsewhere(*g, bus),
{
    let mut n: usize = 0;
    while n < comp.len()
        invariant
            region::labels(*g, comp@),
            schedule::lists_arrivals(*g, arr@),
            want@.len() == g.nodes@.len(),
            forall|c: usize|
                c < want@.len() ==> #[trigger] want@[c as int] == region::wanted(*g, c),
            n <= comp@.len(),
            forall|m: usize, k: int|
                m < n && region::region_of(*g, m) is Some && region::wanted(
                    *g,
                    region::region_of(*g, m)->0,
                ) && 0 <= k < region::arrives(*g, m).len() && region::foreign(
                    *g,
                    region::region_of(*g, m)->0,
                    #[trigger] region::arrives(*g, m)[k],
                ) ==> region::arrives(*g, m)[k].0 != Some(bus),
        decreases comp@.len() - n,
    {
        proof {
            region::lemma_labels(*g, comp@, n);
        }
        if let Some(c) = comp[n] {
            proof {
                schedule::lemma_region_in_range(*g, comp@, n);
            }
            if want[c] {
                let a = &arr[n];
                assert(a@ == region::arrives(*g, n));
                let mut k: usize = 0;
                while k < a.len()
                    invariant
                        region::labels(*g, comp@),
                        a@ == region::arrives(*g, n),
                        region::region_of(*g, n) == Some(c),
                        region::wanted(*g, c),
                        k <= a@.len(),
                        forall|j: int|
                            0 <= j < k && region::foreign(
                                *g,
                                c,
                                #[trigger] region::arrives(*g, n)[j],
                            ) ==> region::arrives(*g, n)[j].0 != Some(bus),
                    decreases a@.len() - k,
                {
                    let x = a[k];
                    assert(region::arrives(*g, n)[k as int] == x);
                    if is_foreign(g, comp, c, &x) {
                        if let Some(other) = x.0 {
                            if other == bus {
                                assert(region::crosses(*g, c, bus)) by {
                                    assert(region::inner(*g, n));
                                }
                                return true;
                            }
                        }
                    }
                    k = k + 1;
                }
            }
        }
        n = n + 1;
    }
    proof {
        if read_elsewhere(*g, bus) {
            let r = choose|r: usize| region::wanted(*g, r) && #[trigger] region::crosses(*g, r, bus);
            let (m, k) = choose|m: usize, k: int|
                region::inner(*g, m) && region::region_of(*g, m) == Some(r) && 0 <= k
                    < region::arrives(*g, m).len() && region::foreign(
                    *g,
                    r,
                    #[trigger] region::arrives(*g, m)[k],
                ) && region::arrives(*g, m)[k].0 == Some(bus);
            assert(m < n);
            assert(region::arrives(*g, m)[k].0 != Some(bus));
        }
    }
    false
}

fn has_write(acc: &Vec<(RegionBus, (usize, usize))>, bus: RegionBus) -> (r: bool)
    ensures
        r == writes_bus(acc@, bus),
{
    let mut i: usize = 0;
    while i < acc.len()
        invariant
            i <= acc@.len(),
            forall|j: int| 0 <= j < i ==> (#[trigger] acc@[j]).0 != bus,
        decreases acc@.len() - i,
    {
        if acc[i].0 == bus {
            assert(acc@[i as int].0 == bus);
            return true;
        }
        i = i + 1;
    }
    false
}

/// The region of node `n`.
fn region_at<N: ToNodeDsp>(g: &Graph<N, Edge>, comp: &Vec<Option<usize>>, n: usize) -> (r: Option<
    usize,
>)
    requires
        region::labels(*g, comp@),
    ensures
        r == region::region_of(*g, n),
{
    proof {
        region::lemma_labels(*g, comp@, n);
    }
    if n < comp.len() {
        comp[n]
    } else {
        None
    }
}

fn writes_of<N: ToNodeDsp>(
    g: &Graph<N, Edge>,
    comp: &Vec<Option<usize>>,
    arr: &Arrivals,
    want: &Vec<bool>,
    reach: &Vec<bool>,
    all: &Vec<Vec<(RegionBus, (usize, usize))>>,
    r: usize,
) -> (acc: Vec<(RegionBus, (usize, usize))>)
    requires
        region::labels(*g, comp@),
        schedule::lists_arrivals(*g, arr@),
        region::lists_buses(*g, all@),
        want@.len() == g.nodes@.len(),
        reach@.len() == g.nodes@.len(),
        forall|c: usize| c < want@.len() ==> #[trigger] want@[c as int] == region::wanted(*g, c),
        forall|i: usize|
            i < g.nodes@.len() ==> #[trigger] reach@[i as int] == region::reached(*g, i),
    ensures
        acc@ == region_writes(*g, r),
{
    let mut acc: Vec<(RegionBus, (usize, usize))> = Vec::new();
    let mut n: usize = 0;
    while n < reach.len()
        invariant
            region::labels(*g, comp@),
            schedule::lists_arrivals(*g, arr@),
            region::lists_buses(*g, all@),
            want@.len() == g.nodes@.len(),
            reach@.len() == g.nodes@.len(),
            forall|c: usize|
                c < want@.len() ==> #[trigger] want@[c as int] == region::wanted(*g, c),
            forall|i: usize|
                i < g.nodes@.len() ==> #[trigger] reach@[i as int] == region::reached(*g, i),
            n <= reach@.len(),
            acc@ == writes_upto(*g, r, n as nat),
        decreases reach@.len() - n,
    {
        if reach[n] && flow::is_boundary(g, n) {
            let more = &all[n];
            let ghost before = acc@;
            assert(more@ == region::buses_at(*g, n));
            let mut k: usize = 0;
            assert(more@.take(0) =~= Seq::empty());
            while k < more.len()
                invariant
                    region::labels(*g, comp@),
                    schedule::lists_arrivals(*g, arr@),
                    want@.len() == g.nodes@.len(),
                    forall|c: usize|
                        c < want@.len() ==> #[trigger] want@[c as int] == region::wanted(*g, c),
                    k <= more@.len(),
                    acc@ == add_writes(*g, r, before, more@.take(k as int)),
                decreases more@.len() - k,
            {
                let (bus, src) = more[k];
                proof {
                    let t = more@.take(k + 1);
                    assert(t.drop_last() =~= more@.take(k as int));
                    assert(t.last() == more@[k as int]);
                }
                let mine = match region_at(g, comp, src.0) {
                    Some(c) => c == r,
                    None => false,
                };
                if mine && is_read_elsewhere(g, comp, arr, want, bus) && !has_write(&acc, bus) {
                    acc.push((bus, src));
                }
                k = k + 1;
            }
            assert(more@.take(k as int) =~= more@);
        }
        n = n + 1;
    }
    acc
}

fn nodes_within<N: ToNodeDsp>(g: &Graph<N, Edge>, comp: &Vec<Option<usize>>, r: usize, s: &Vec<usize>) -> (v: Vec<
    usize,
>)
    requires
        region::labels(*g, comp@),
    ensures
        v@ == within(*g, r, s@),
{
    let mut v: Vec<usize> = Vec::new();
    let mut i: usize = 0;
    assert(s@.take(0) =~= Seq::empty());
    while i < s.len()
        invariant
            region::labels(*g, comp@),
            i <= s@.len(),
            v@ == within(*g, r, s@.take(i as int)),
        decreases s@.len() - i,
    {
        proof {
            assert(s@.take(i + 1).drop_last() =~= s@.take(i as int));
        }
        let mine = match region_at(g, comp, s[i]) {
            Some(c) => c == r,
            None => false,
        };
        if mine {
            v.push(s[i]);
        }
        i = i + 1;
    }
    assert(s@.take(i as int) =~= s@);
    v
}

/// The nodes picked out are in the region.
pub proof fn lemma_within<N: ToNodeDsp>(g: Graph<N, Edge>, r: usize, s: Seq<usize>)
    ensures
        forall|k: int|
            0 <= k < within(g, r, s).len() ==> region::region_of(g, #[trigger] within(g, r, s)[k])
                == Some(r),
    decreases s.len(),
{
    if s.len() > 0 {
        lemma_within(g, r, s.drop_last());
    }
}

proof fn lemma_writes_within<N: ToNodeDsp>(
    g: Graph<N, Edge>,
    r: usize,
    acc: Seq<(RegionBus, (usize, usize))>,
    more: Seq<(RegionBus, (usize, usize))>,
)
    requires
        forall|k: int|
            0 <= k < acc.len() ==> region::region_of(g, (#[trigger] acc[k]).1.0) == Some(r),
    ensures
        forall|k: int|
            0 <= k < add_writes(g, r, acc, more).len() ==> region::region_of(
                g,
                (#[trigger] add_writes(g, r, acc, more)[k]).1.0,
            ) == Some(r),
    decreases more.len(),
{
    if more.len() > 0 {
        lemma_writes_within(g, r, acc, more.drop_last());
    }
}

/// What a region writes stems from nodes in it.
pub proof fn lemma_region_writes<N: ToNodeDsp>(g: Graph<N, Edge>, r: usize, n: nat)
    ensures
        forall|k: int|
            0 <= k < writes_upto(g, r, n).len() ==> region::region_of(
                g,
                (#[trigger] writes_upto(g, r, n)[k]).1.0,
            ) == Some(r),
    decreases n,
{
    if n > 0 {
        lemma_region_writes(g, r, (n - 1) as nat);
        lemma_writes_within(
            g,
            r,
            writes_upto(g, r, (n - 1) as nat),
            region::buses_at(g, (n - 1) as usize),
        );
    }
}

fn all_local_deps<N: ToNodeDsp>(g: &Graph<N, Edge>, comp: &Vec<Option<usize>>, arr: &Arrivals) -> (v: Vec<
    Vec<usize>,
>)
    requires
        region::labels(*g, comp@),
        schedule::lists_arrivals(*g, arr@),
    ensures
        topo::views(v@) == local_deps(*g),
        topo::in_range(topo::views(v@)),
{
    let mut v: Vec<Vec<usize>> = Vec::new();
    let mut n: usize = 0;
    while n < comp.len()
        invariant
            region::labels(*g, comp@),
            schedule::lists_arrivals(*g, arr@),
            n <= comp@.len(),
            v@.len() == n,
            forall|j: int| 0 <= j < n ==> (#[trigger] v@[j])@ == local_deps(*g)[j],
        decreases comp@.len() - n,
    {
        let list: Vec<usize> = match region_at(g, comp, n) {
            Some(r) => {
                let a = &arr[n];
                assert(a@ == region::arrives(*g, n));
                let mut nodes: Vec<usize> = Vec::new();
                let ghost all = a@.map_values(|x: (Option<RegionBus>, (usize, usize))| x.1.0);
                let mut k: usize = 0;
                while k < a.len()
                    invariant
                        k <= a@.len(),
                        all == a@.map_values(|x: (Option<RegionBus>, (usize, usize))| x.1.0),
                        nodes@ =~= all.take(k as int),
                    decreases a@.len() - k,
                {
                    nodes.push(a[k].1.0);
                    k = k + 1;
                }
                assert(all.take(k as int) =~= all);
                nodes_within(g, comp, r, &nodes)
            },
            None => Vec::new(),
        };
        assert(list@ =~= local_deps(*g)[n as int]);
        v.push(list);
        n = n + 1;
    }
    proof {
        assert(topo::views(v@) =~= local_deps(*g));
        let w = topo::views(v@);
        assert forall|n: int, i: int| 0 <= n < w.len() && 0 <= i < w[n].len() implies #[trigger] w[n][i]
            < w.len() by {
            let r = region::region_of(*g, n as usize)->0;
            lemma_within(
                *g,
                r,
                region::arrives(*g, n as usize).map_values(
                    |x: (Option<RegionBus>, (usize, usize))| x.1.0,
                ),
            );
            assert(region::region_of(*g, w[n][i]) == Some(r));
        }
    }
    v
}

fn fade_channels(b: &mut DspBuilder, group: &Signal, fade: usize) -> (refs: Vec<InputRef>)
    ensures
        (final(b)@, refs@) == faded(old(b)@, group@, fade, group@.len()),
{
    let mut refs: Vec<InputRef> = Vec::new();
    let mut i: usize = 0;
    while i < group.width()
        invariant
            i <= group@.len(),
            (b@, refs@) == faded(old(b)@, group@, fade, i as nat),
        decreases group@.len() - i,
    {
        let ch = b.ensure_audio(group.0[i]);
        let spec = UnitSpec {
            name: String::from_str("BinaryOpUGen"),
            rate: Rate::Audio,
            inputs: vec![ch, InputRef::Param(fade)],
            num_outputs: 1,
            special_index: 2,
        };
        assert(spec@ =~= fade_unit(ch, fade));
        let unit: usize = b.push_unit(spec);
        refs.push(InputRef::Unit { unit, output: 0 });
        i = i + 1;
    }
    refs
}

/// What the executable state of writing buses denotes.
pub open spec fn write_state(
    b: BuilderView,
    fades: Map<Seq<usize>, usize>,
    widths: Map<RegionBus, usize>,
    written: Seq<BusBinding>,
) -> WriteState {
    WriteState { b, fades, widths, written: bus_views(written) }
}

fn write_region_bus<N: ToNodeDsp>(
    g: &Graph<N, Edge>,
    paths: &Vec<Vec<usize>>,
    outs: &Vec<Option<Vec<Signal>>>,
    b: &mut DspBuilder,
    fades: &mut Table<PathKey, usize>,
    widths: &mut Table<RegionBus, usize>,
    written: &mut Vec<BusBinding>,
    w: (RegionBus, (usize, usize)),
)
    requires
        topo::views(paths@) == flow::node_paths(*g),
    ensures
        write_state(final(b)@, final(fades)@, final(widths)@, final(written)@) == write_bus(
            *g,
            compile::outputs(outs@),
            write_state(old(b)@, old(fades)@, old(widths)@, old(written)@),
            w,
        ),
{
    let ghost ws = write_state(old(b)@, old(fades)@, old(widths)@, old(written)@);
    let (bus, (s, port)) = w;
    let mut group = Signal::silent(1);
    if s < outs.len() {
        if let Some(out) = &outs[s] {
            if port < out.len() {
                group = out[port].dup();
            }
        }
    }
    let (path, label, output) = bus_param_at(g, paths, bus);
    let key = PathKey(dsp::dup_path(&path));
    let known: Option<usize> = match fades.get(&key) {
        Some(f) => Some(*f),
        None => None,
    };
    let fade: usize = match known {
        Some(f) => f,
        None => {
            let f: usize = b.push_fade_gain(&path);
            fades.insert(key, f);
            f
        },
    };
    let param: usize = b.push_control_param(&path, label.as_str());
    let mut tail = fade_channels(b, &group, fade);
    let ghost tail_view = tail@;
    let mut refs = vec![InputRef::Param(param)];
    refs.append(&mut tail);
    assert(refs@ =~= seq![InputRef::Param(param)] + tail_view);
    let unit: usize = b.push_unit(UnitSpec::new("Out", Rate::Audio, refs, 0));
    let channels: usize = group.width();
    let binding = BusBinding { node_path: path, channels, unit, param, output };
    let ghost view = binding@;
    written.push(binding);
    widths.insert(bus, channels);
    proof {
        assert(bus_views(written@) =~= ws.written.push(view));
        assert(write_state(b@, fades@, widths@, written@) =~= write_bus(
            *g,
            compile::outputs(outs@),
            ws,
            w,
        ));
    }
}

fn put_bus(s: &mut String, b: &BusBinding)
    ensures
        final(s)@ == old(s)@ + bus_text(b@),
{
    sig::put_path(s, &b.node_path);
    if let Some(o) = b.output {
        s.push('o');
        sig::put_num(s, o);
    }
    assert(s@ =~= old(s)@ + bus_text(b@));
}

fn put_buses(s: &mut String, role: char, v: &Vec<BusBinding>)
    ensures
        final(s)@ == old(s)@ + sig::cat(bus_views(v@), |b: BusView| seq![role] + bus_text(b)),
{
    let ghost f = |b: BusView| seq![role] + bus_text(b);
    let ghost all = bus_views(v@);
    let mut i: usize = 0;
    assert(s@ =~= old(s)@ + sig::cat(all.take(0), f));
    while i < v.len()
        invariant
            i <= v@.len(),
            f == |b: BusView| seq![role] + bus_text(b),
            all == bus_views(v@),
            s@ == old(s)@ + sig::cat(all.take(i as int), f),
        decreases v@.len() - i,
    {
        s.push(role);
        put_bus(s, &v[i]);
        proof {
            let t = all.take(i + 1);
            assert(t.drop_last() =~= all.take(i as int));
            assert(t.last() == v@[i as int]@);
            assert(s@ =~= old(s)@ + sig::cat(t, f));
        }
        i = i + 1;
    }
    assert(all.take(i as int) =~= all);
}

/// A region's identity: a hash of the roles and paths of its sinks and buses.
fn region_key<N: ToNodeDsp>(
    g: &Graph<N, Edge>,
    paths: &Vec<Vec<usize>>,
    sinks: &Vec<usize>,
    written: &Vec<BusBinding>,
    reads: &Vec<BusBinding>,
) -> (r: u64)
    requires
        topo::views(paths@) == flow::node_paths(*g),
        forall|k: int| 0 <= k < sinks@.len() ==> #[trigger] sinks@[k] < g.nodes@.len(),
    ensures
        r == sig::text_hash(
            key_text(paths_of(*g, sinks@), bus_views(written@), bus_views(reads@)),
        ),
{
    let ghost f = |p: Seq<usize>| seq!['s'] + sig::path_text(p);
    let ghost all = paths_of(*g, sinks@);
    let mut s = String::new();
    let mut i: usize = 0;
    proof {
        assert(topo::views(paths@).len() == paths@.len());
    }
    assert(s@ =~= sig::cat(all.take(0), f));
    while i < sinks.len()
        invariant
            topo::views(paths@) == flow::node_paths(*g),
            paths@.len() == g.nodes@.len(),
            forall|k: int| 0 <= k < sinks@.len() ==> #[trigger] sinks@[k] < g.nodes@.len(),
            i <= sinks@.len(),
            f == |p: Seq<usize>| seq!['s'] + sig::path_text(p),
            all == paths_of(*g, sinks@),
            s@ == sig::cat(all.take(i as int), f),
        decreases sinks@.len() - i,
    {
        let ghost before = s@;
        s.push('s');
        sig::put_path(&mut s, &paths[sinks[i]]);
        proof {
            let t = all.take(i + 1);
            assert(t.drop_last() =~= all.take(i as int));
            assert(topo::views(paths@)[sinks@[i as int] as int] == paths@[sinks@[i as int] as int]@);
            assert(t.last() == paths@[sinks@[i as int] as int]@);
            assert(s@ =~= sig::cat(t, f));
        }
        i = i + 1;
    }
    assert(all.take(i as int) =~= all);
    put_buses(&mut s, 'w', written);
    put_buses(&mut s, 'r', reads);
    assert(s@ =~= key_text(all, bus_views(written@), bus_views(reads@)));
    sig::hash_text(s.as_str())
}

/// What is known of a graph before its regions are derived.
struct Analysis {
    paths: Vec<Vec<usize>>,
    srcs: Vec<Vec<Vec<(usize, usize)>>>,
    sinks: Vec<usize>,
    reach: Vec<bool>,
    comp: Vec<Option<usize>>,
    buses: Vec<Vec<(RegionBus, (usize, usize))>>,
    arr: Arrivals,
    deps: Vec<Vec<usize>>,
    want: Vec<bool>,
}

spec fn analyses<N: ToNodeDsp>(g: Graph<N, Edge>, a: Analysis) -> bool {
    &&& topo::views(a.paths@) == flow::node_paths(g)
    &&& flow::all_lists(a.srcs@) == flow::sources(g)
    &&& a.sinks@ == flow::sinks(g)
    &&& a.reach@.len() == g.nodes@.len()
    &&& forall|i: usize|
        i < g.nodes@.len() ==> #[trigger] a.reach@[i as int] == region::reached(g, i)
    &&& region::labels(g, a.comp@)
    &&& region::lists_buses(g, a.buses@)
    &&& schedule::lists_arrivals(g, a.arr@)
    &&& topo::views(a.deps@) == local_deps(g)
    &&& topo::in_range(topo::views(a.deps@))
    &&& a.want@.len() == g.nodes@.len()
    &&& forall|c: usize| c < a.want@.len() ==> #[trigger] a.want@[c as int] == region::wanted(g, c)
}

fn derive_region<N: ToNodeDsp>(
    g: &Graph<N, Edge>,
    a: &Analysis,
    widths: &mut Table<RegionBus, usize>,
    r: usize,
    out_channels: usize,
    prefix: &str,
) -> (res: (RegionDerived, Ghost<Seq<usize>>))
    requires
        g.wf(),
        analyses(*g, *a),
    ensures
        topo::pull_order(local_deps(*g), region_seeds(*g, r), res.1@),
        res.1@ == topo::post_order_of(local_deps(*g), region_seeds(*g, r)),
        (res.0@, final(widths)@) == one_region(
            *g,
            r,
            old(widths)@,
            res.1@,
            out_channels as nat,
            prefix@,
        ),
{
    let ghost widths0 = widths@;
    let writes = writes_of(g, &a.comp, &a.arr, &a.want, &a.reach, &a.buses, r);
    let region_sinks = nodes_within(g, &a.comp, r, &a.sinks);
    let mut seeds = dsp::dup_path(&region_sinks);
    let mut k: usize = 0;
    let ghost srcs = write_sources(writes@);
    while k < writes.len()
        invariant
            k <= writes@.len(),
            srcs == write_sources(writes@),
            seeds@ =~= region_sinks@ + srcs.take(k as int),
        decreases writes@.len() - k,
    {
        seeds.push(writes[k].1.0);
        k = k + 1;
    }
    let n_slots: usize = g.nodes.len();
    proof {
        assert(srcs.take(k as int) =~= srcs);
        assert(seeds@ =~= region_seeds(*g, r));
        lemma_within(*g, r, flow::sinks(*g));
        lemma_region_writes(*g, r, g.nodes@.len());
        assert(local_deps(*g).len() == g.nodes@.len());
        assert forall|i: int| 0 <= i < seeds@.len() implies #[trigger] seeds@[i] < topo::views(
            a.deps@,
        ).len() by {
            if i < region_sinks@.len() {
                assert(seeds@[i] == region_sinks@[i]);
                assert(region::region_of(*g, region_sinks@[i]) == Some(r));
            } else {
                let j = i - region_sinks@.len();
                assert(seeds@[i] == writes@[j].1.0);
                assert(region::region_of(*g, writes@[j].1.0) == Some(r));
            }
        }
        assert forall|i: int| 0 <= i < region_sinks@.len() implies #[trigger] region_sinks@[i]
            < g.nodes@.len() by {
            assert(region::region_of(*g, region_sinks@[i]) == Some(r));
        }
    }
    let order = topo::post_order(&a.deps, &seeds);
    let mut b = DspBuilder::new(out_channels);
    let mut outs = compile::no_outputs(g.nodes.len());
    let mut ins: Table<RegionBus, Signal> = Table::new();
    let mut reads: Vec<BusBinding> = Vec::new();
    let mut i: usize = 0;
    proof {
        assert(order@.take(0) =~= Seq::empty());
        assert(flow::all_lists(a.srcs@).len() == a.srcs@.len());
        assert(topo::views(a.paths@).len() == a.paths@.len());
        assert(bus_views(reads@) =~= Seq::empty());
        assert(ins@.map_values(|s: Signal| s@) =~= Map::<RegionBus, Seq<InputRef>>::empty());
        assert(state(b@, outs@, ins@, reads@) =~= emit_region(
            *g,
            r,
            widths0,
            order@.take(0),
            out_channels as nat,
        ));
    }
    while i < order.len()
        invariant
            g.wf(),
            analyses(*g, *a),
            i <= order@.len(),
            widths@ == widths0,
            outs@.len() == g.nodes@.len(),
            a.srcs@.len() == g.nodes@.len(),
            a.paths@.len() == g.nodes@.len(),
            state(b@, outs@, ins@, reads@) == emit_region(
                *g,
                r,
                widths0,
                order@.take(i as int),
                out_channels as nat,
            ),
        decreases order@.len() - i,
    {
        let n: usize = order[i];
        proof {
            assert(order@.take(i + 1).drop_last() =~= order@.take(i as int));
        }
        if n < g.nodes.len() {
            if let Some(weight) = &g.nodes[n] {
                if let Some(d) = weight.to_node_dsp() {
                    proof {
                        assert(flow::all_lists(a.srcs@)[n as int] == flow::lists(
                            a.srcs@[n as int]@,
                        ));
                        assert(topo::views(a.paths@)[n as int] == a.paths@[n as int]@);
                    }
                    let at = emit_region_inputs(
                        g,
                        &a.paths,
                        &a.comp,
                        &a.buses,
                        widths,
                        r,
                        &mut b,
                        &outs,
                        &mut ins,
                        &mut reads,
                        &a.srcs[n],
                    );
                    let ghost mid = state(b@, outs@, ins@, reads@);
                    let sigs = d.ugens(&a.paths[n], &at, &mut b);
                    let ghost groups = mix::groups(sigs@);
                    outs.set(n, Some(sigs));
                    proof {
                        assert(compile::outputs(outs@) =~= mid.outs.insert(n, groups));
                        assert(state(b@, outs@, ins@, reads@) =~= RegionState {
                            b: b@,
                            outs: mid.outs.insert(n, groups),
                            ..mid
                        });
                    }
                }
            }
        }
        i = i + 1;
    }
    assert(order@.take(i as int) =~= order@);
    let ghost st = state(b@, outs@, ins@, reads@);
    let mut fades: Table<PathKey, usize> = Table::new();
    let mut written: Vec<BusBinding> = Vec::new();
    let ghost ws0 = WriteState {
        b: st.b,
        fades: Map::empty(),
        widths: widths0,
        written: Seq::empty(),
    };
    let mut j: usize = 0;
    proof {
        assert(writes@.take(0) =~= Seq::empty());
        assert(bus_views(written@) =~= Seq::empty());
        assert(write_state(b@, fades@, widths@, written@) =~= ws0);
    }
    while j < writes.len()
        invariant
            topo::views(a.paths@) == flow::node_paths(*g),
            j <= writes@.len(),
            st.outs == compile::outputs(outs@),
            write_state(b@, fades@, widths@, written@) == write_buses(
                *g,
                st.outs,
                ws0,
                writes@.take(j as int),
            ),
        decreases writes@.len() - j,
    {
        write_region_bus(
            g,
            &a.paths,
            &outs,
            &mut b,
            &mut fades,
            widths,
            &mut written,
            writes[j],
        );
        proof {
            assert(writes@.take(j + 1).drop_last() =~= writes@.take(j as int));
        }
        j = j + 1;
    }
    assert(writes@.take(j as int) =~= writes@);
    let key = region_key(g, &a.paths, &region_sinks, &written, &reads);
    let mut name = String::from_str(prefix);
    name.append("-");
    name.append(text::hex16(key).as_str());
    let ghost name_view = name@;
    let derived = b.finish(name);
    let res = RegionDerived { key, derived, bus_writes: written, bus_reads: reads };
    proof {
        let (one, after) = one_region(
            *g,
            r,
            widths0,
            order@,
            out_channels as nat,
            prefix@,
        );
        assert(res@ =~= one);
        assert(widths@ == after);
    }
    (res, Ghost(order@))
}

/// Derives one synth definition per region of the graph's DSP nodes, whoever
/// writes a bus before whoever reads it.
///
/// Regions are what is connected without a boundary in between. A boundary
/// between two regions becomes an `Out` to a private bus in the writer's
/// definition and an `In` in each reader's. Definitions are named
/// `<name_prefix>-<region key>`.
pub fn derive_synthdefs<N: ToNodeDsp>(g: &Graph<N, Edge>, out_channels: usize, name_prefix: &str) -> (res:
    Result<Vec<RegionDerived>, DeriveError>)
    requires
        g.wf(),
    ensures
        match res {
            Ok(regions) => flow::sinks(*g).len() > 0 && region::no_bus_cycle(*g)
                && derives_regions(
                *g,
                out_channels as nat,
                name_prefix@,
                regions@.map_values(|x: RegionDerived| x@),
            ),
            Err(DeriveError::NoSink) => flow::sinks(*g).len() == 0,
            Err(DeriveError::BusCycle) => flow::sinks(*g).len() > 0 && !region::no_bus_cycle(*g),
            Err(_) => false,
        },
{
    let sinks = flow::dsp_sinks(g);
    if sinks.len() == 0 {
        return Err(DeriveError::NoSink);
    }
    let paths = flow::all_paths(g);
    let srcs = flow::resolved_sources(g, &paths);
    let flow_deps = flow::all_deps(g, &srcs);
    let n_slots: usize = g.nodes.len();
    proof {
        flow::lemma_indices(g.nodes@.len(), |i: int| flow::is_sink(*g, i));
        assert(flow::flow_deps(*g).len() == g.nodes@.len());
    }
    let reached = topo::post_order(&flow_deps, &sinks);
    let reach = region::flags(n_slots, &reached);
    let comp = region::label(g, &flow_deps, &reach);
    let buses = region::all_buses(g, &paths, &srcs);
    let arr = schedule::all_arrivals(g, &srcs, &buses);
    let cdeps = schedule::region_deps(g, &comp, &arr);
    let want = schedule::wanted_regions(g, &comp, &cdeps, &sinks);
    let plan = match schedule::region_order(g, &cdeps, &want) {
        Some(plan) => plan,
        None => {
            return Err(DeriveError::BusCycle);
        },
    };
    let deps = all_local_deps(g, &comp, &arr);
    let a = Analysis { paths, srcs, sinks, reach, comp, buses, arr, deps, want };
    let mut regions: Vec<RegionDerived> = Vec::new();
    let mut widths: Table<RegionBus, usize> = Table::new();
    let ghost mut orders: Seq<Seq<usize>> = Seq::empty();
    let mut k: usize = 0;
    proof {
        assert(plan@.take(0) =~= Seq::empty());
        assert(regions@.map_values(|x: RegionDerived| x@) =~= Seq::empty());
    }
    while k < plan.len()
        invariant
            g.wf(),
            analyses(*g, a),
            k <= plan@.len(),
            region_orders(*g, plan@.take(k as int), orders),
            (regions@.map_values(|x: RegionDerived| x@), widths@) == all_regions(
                *g,
                plan@.take(k as int),
                orders,
                out_channels as nat,
                name_prefix@,
            ),
        decreases plan@.len() - k,
    {
        let ghost before = regions@.map_values(|x: RegionDerived| x@);
        let ghost orders0 = orders;
        let r: usize = plan[k];
        let (one, Ghost(order)) = derive_region(g, &a, &mut widths, r, out_channels, name_prefix);
        let ghost view = one@;
        regions.push(one);
        proof {
            orders = orders.push(order);
            let t = plan@.take(k + 1);
            assert(t.drop_last() =~= plan@.take(k as int));
            assert(orders.drop_last() =~= orders0);
            assert(regions@.map_values(|x: RegionDerived| x@) =~= before.push(view));
            assert(region_orders(*g, t, orders)) by {
                assert forall|j: int| 0 <= j < t.len() implies topo::pull_order(
                    local_deps(*g),
                    region_seeds(*g, t[j]),
                    #[trigger] orders[j],
                ) && orders[j] == topo::post_order_of(
                    local_deps(*g),
                    region_seeds(*g, t[j]),
                ) by {
                    if j < k {
                        assert(orders[j] == orders0[j]);
                        assert(t[j] == plan@.take(k as int)[j]);
                    }
                }
            }
        }
        k = k + 1;
    }
    proof {
        assert(plan@.take(k as int) =~= plan@);
        assert(region_schedule(*g, plan@));
    }
    Ok(regions)
}

} // verus!
