use gantz::addr::ContentAddr;
use gantz::compile::{derive_synthdef, DeriveError};
use gantz::control::scope_shape;
use gantz::describe::builtins;
use gantz::data::DataGraph;
use gantz::dsp::{InputRef, Rate, SynthDef};
use gantz::dsp_node::{DspNode, PatchNode};
use gantz::edge::{Edge, Input, Output};
use gantz::edge_style::{edge_styling, DspEdgeStyle, EdgeStyle, EdgeStyleCtx, EdgeStyling};
use gantz::graph::{addr, Graph, GraphAddr};
use gantz::hash::content_addr;
use gantz::head::Head;
use gantz::name::Name;
use gantz::node::bus::Bus;
use gantz::node::lag::Lag;
use gantz::node::out::Out;
use gantz::node::pack::Pack;
use gantz::node::scope_out::ScopeOut;
use gantz::node::sine::Sine;
use gantz::node::sum::Sum;
use gantz::node::tap::Tap;
use gantz::node::unpack::Unpack;
use gantz::port_info::{root_port_info, PathPort, Port, PortShape, PortShapes, RootPortInfo};
use gantz::ref_ext::dsp_graphs;
use gantz::regions::{derive_synthdefs, PathKey};
use gantz::registry::Registry;
use gantz::set::KeySet;
use gantz::sig::{content_def_name, structural_sig};
use gantz::socket::SocketKind;
use gantz::table::Table;
use gantz::value::{Number, Val};
use plyphon::{engine, AddAction, Options, World, ROOT_GROUP_ID};

const SR: f32 = 48_000.0;

type G = Graph<PatchNode, Edge>;

fn dsp(n: DspNode) -> PatchNode {
    PatchNode::Dsp(n)
}

fn edge(output: u16, input: u16) -> Edge {
    Edge::new(Output(output), Input(input))
}

fn f(x: u32) -> f32 {
    f32::from_bits(x)
}

/// A `~sine(freq) -> ~out(gain)` graph.
fn sine_to_out(freq: f32, gain: f32) -> G {
    let mut g = G::new();
    let mut sine = Sine::default();
    sine.set_freq(freq.to_bits());
    let mut out = Out::default();
    out.set_gain(gain.to_bits());
    let s = g.add_node(dsp(DspNode::Sine(sine)));
    let o = g.add_node(dsp(DspNode::Out(out)));
    g.add_edge(s, o, edge(0, 0));
    g
}

fn derive(g: &G, channels: usize, name: &str) -> SynthDef {
    derive_synthdef(g, channels, name.to_string()).expect("derive").def
}

#[test]
fn derives_expected_units() {
    let g = sine_to_out(220.0, 0.2);
    let def = derive(&g, 1, "test");

    assert_eq!(def.units.len(), 3, "SinOsc + gain-mul + Out");

    assert_eq!(def.params.len(), 2);
    assert!(def.params[0].name.ends_with("/freq"));
    assert_eq!(f(def.params[0].default), 220.0);
    assert_eq!(def.params[0].lag, None, "freq is unsmoothed by default");
    assert!(def.params[1].name.ends_with("/gain"));
    assert_eq!(f(def.params[1].default), 0.2);
    assert_eq!(
        def.params[1].lag.map(f),
        Some(0.01),
        "gain has a default de-click lag"
    );

    assert_eq!(def.units[0].name, "SinOsc");
    assert!(matches!(def.units[0].inputs[0], InputRef::Param(0)));

    assert_eq!(def.units[1].name, "BinaryOpUGen");
    assert_eq!(def.units[1].special_index, 2, "multiply selector");
    assert!(matches!(
        def.units[1].inputs[0],
        InputRef::Unit { unit: 0, output: 0 }
    ));
    assert!(matches!(def.units[1].inputs[1], InputRef::Param(1)));

    assert_eq!(def.units[2].name, "Out");
    assert_eq!(def.units[2].num_outputs, 0);
    assert!(matches!(def.units[2].inputs[0], InputRef::Constant(b) if f(b) == 0.0));
    assert!(matches!(
        def.units[2].inputs[1],
        InputRef::Unit { unit: 1, output: 0 }
    ));
}

#[test]
fn structural_sig_stable_across_value_changes() {
    let d220 = derive(&sine_to_out(220.0, 0.2), 1, "t");
    let d440 = derive(&sine_to_out(440.0, 0.2), 1, "t");
    assert_eq!(
        structural_sig(&d220),
        structural_sig(&d440),
        "a param value change must not change the structural signature",
    );

    let mut lagged = d220.clone();
    lagged.params[0].lag = Some(0.5f32.to_bits());
    assert_ne!(
        structural_sig(&d220),
        structural_sig(&lagged),
        "a param lag change must change the structural signature",
    );
}

#[test]
fn structural_sig_tells_structures_apart() {
    let mono = derive(&sine_to_out(220.0, 0.2), 1, "t");
    let stereo = derive(&sine_to_out(220.0, 0.2), 2, "t");
    assert_ne!(structural_sig(&mono), structural_sig(&stereo));
    let named = content_def_name(0xab);
    assert!(named.ends_with("00000000000000ab"));
}

#[test]
fn fans_output_across_channels() {
    let def = derive(&sine_to_out(220.0, 0.2), 2, "test");
    assert_eq!(def.units[2].name, "Out");
    assert_eq!(def.units[2].inputs.len(), 1 + 2);
}

#[test]
fn non_dsp_root_is_rejected() {
    let mut g = G::new();
    g.add_node(PatchNode::Other);
    assert!(matches!(
        derive_synthdef(&g, 1, "nope".to_string()),
        Err(DeriveError::NoSink)
    ));
    assert!(matches!(
        derive_synthdefs(&g, 1, "nope"),
        Err(DeriveError::NoSink)
    ));
}

fn plyphon_def(def: &SynthDef) -> plyphon::SynthDef {
    let rate = |r: Rate| match r {
        Rate::Scalar => plyphon::Rate::Scalar,
        Rate::Control => plyphon::Rate::Control,
        Rate::Audio => plyphon::Rate::Audio,
        Rate::Demand => plyphon::Rate::Demand,
    };
    plyphon::SynthDef {
        name: def.name.clone(),
        params: def
            .params
            .iter()
            .map(|p| plyphon::Param {
                name: p.name.clone(),
                default: f(p.default),
                rate: rate(p.rate),
                is_trig: p.is_trig,
                lag: p.lag.map(f),
            })
            .collect(),
        units: def
            .units
            .iter()
            .map(|u| plyphon::UnitSpec {
                name: u.name.clone(),
                rate: rate(u.rate),
                inputs: u
                    .inputs
                    .iter()
                    .map(|i| match *i {
                        InputRef::Constant(c) => plyphon::InputRef::Constant(f(c)),
                        InputRef::Param(p) => plyphon::InputRef::Param(p as u32),
                        InputRef::Unit { unit, output } => plyphon::InputRef::Unit {
                            unit: unit as u32,
                            output: output as u32,
                        },
                    })
                    .collect(),
                num_outputs: u.num_outputs,
                special_index: u.special_index,
            })
            .collect(),
    }
}

/// Goertzel magnitude estimate at `freq` (Hz) over mono `samples` sampled at [`SR`].
fn goertzel(samples: &[f32], freq: f32) -> f32 {
    let n = samples.len();
    let k = (0.5 + n as f32 * freq / SR).floor();
    let w = 2.0 * std::f32::consts::PI * k / n as f32;
    let coeff = 2.0 * w.cos();
    let (mut s1, mut s2) = (0.0f32, 0.0f32);
    for &x in samples {
        let s = x + coeff * s1 - s2;
        s2 = s1;
        s1 = s;
    }
    let power = s1 * s1 + s2 * s2 - coeff * s1 * s2;
    power.max(0.0).sqrt() / n as f32
}

/// Renders `frames` of mono audio, cycling buffer sizes to exercise the reblocker.
fn render(world: &mut World, frames: usize) -> Vec<f32> {
    let sizes = [64usize, 100, 128, 480, 512, 333];
    let mut out = Vec::with_capacity(frames + 512);
    let mut buf = Vec::new();
    let mut i = 0;
    while out.len() < frames {
        let size = sizes[i % sizes.len()];
        i += 1;
        buf.clear();
        buf.resize(size, 0.0);
        world.fill(&mut buf, 1);
        out.extend_from_slice(&buf);
    }
    out.truncate(frames);
    out
}

#[test]
fn derived_synth_plays_expected_tone() {
    let def = derive(&sine_to_out(220.0, 0.2), 1, "test");

    let (mut controller, _nrt, mut world) = engine(Options {
        sample_rate: SR as f64,
        output_channels: 1,
        ..Options::default()
    });
    controller.add_synthdef(plyphon_def(&def));
    controller
        .synth_new("test", ROOT_GROUP_ID, AddAction::Tail)
        .expect("synth_new");

    let a = render(&mut world, SR as usize / 2);
    assert!(
        a.iter().any(|s| s.abs() > 0.1),
        "derived synth produced silence"
    );
    assert!(
        a.iter().all(|s| s.abs() <= 1.001),
        "output exceeded full scale"
    );
    let m220 = goertzel(&a, 220.0);
    let m440 = goertzel(&a, 440.0);
    assert!(
        m220 > 5.0 * m440,
        "expected 220 Hz dominant: m220={m220}, m440={m440}"
    );
}

#[test]
fn summed_edges_mix_and_unconnected_nodes_are_left_out() {
    let mut g = sine_to_out(220.0, 0.2);
    let s = g.add_node(dsp(DspNode::Sine(Sine::default())));
    let idle = g.add_node(dsp(DspNode::Sine(Sine::default())));
    g.add_edge(s, 1, edge(0, 0));
    let def = derive(&g, 1, "mix");
    let names: Vec<&str> = def.units.iter().map(|u| u.name.as_str()).collect();
    assert_eq!(
        names,
        vec!["SinOsc", "SinOsc", "BinaryOpUGen", "BinaryOpUGen", "Out"]
    );
    assert_eq!(def.units[2].special_index, 0, "addition selector");
    assert!(matches!(
        g.remove_node(idle),
        Some(PatchNode::Dsp(DspNode::Sine(_)))
    ));
}

#[test]
fn buses_cut_the_graph_into_regions() {
    let mut g = G::new();
    let s = g.add_node(dsp(DspNode::Sine(Sine::default())));
    let b = g.add_node(dsp(DspNode::Bus(Bus::default())));
    let l = g.add_node(dsp(DspNode::Lag(Lag::default())));
    let o = g.add_node(dsp(DspNode::Out(Out::default())));
    g.add_edge(s, b, edge(0, 0));
    g.add_edge(b, l, edge(0, 0));
    g.add_edge(l, o, edge(0, 0));
    let regions = derive_synthdefs(&g, 1, "r").unwrap();
    assert_eq!(regions.len(), 2);
    assert_eq!(regions[0].bus_writes.len(), 1);
    assert!(regions[0].bus_reads.is_empty());
    assert_eq!(regions[1].bus_reads.len(), 1);
    assert!(regions[1].bus_writes.is_empty());
    assert_ne!(regions[0].key, regions[1].key);
    assert!(regions[0].derived.def.name.starts_with("r-"));
    let whole = derive_synthdef(&g, 1, "w".to_string()).unwrap();
    assert!(whole.def.units.iter().any(|u| u.name == "Lag"));
    assert!(whole.def.units.iter().all(|u| u.name != "In"));
}

#[test]
fn bus_cycles_are_rejected() {
    let mut g = G::new();
    let a = g.add_node(dsp(DspNode::Lag(Lag::default())));
    let x = g.add_node(dsp(DspNode::Bus(Bus::default())));
    let b = g.add_node(dsp(DspNode::Lag(Lag::default())));
    let y = g.add_node(dsp(DspNode::Bus(Bus::default())));
    let o = g.add_node(dsp(DspNode::Out(Out::default())));
    g.add_edge(a, x, edge(0, 0));
    g.add_edge(x, b, edge(0, 0));
    g.add_edge(b, y, edge(0, 0));
    g.add_edge(y, a, edge(0, 0));
    g.add_edge(b, o, edge(0, 0));
    assert!(matches!(
        derive_synthdefs(&g, 1, "r"),
        Err(DeriveError::BusCycle)
    ));
}

#[test]
fn packing_and_unpacking_route_channels() {
    let mut g = G::new();
    let s = g.add_node(dsp(DspNode::Sine(Sine::default())));
    let p = g.add_node(dsp(DspNode::Pack(Pack::default())));
    let sc = g.add_node(dsp(DspNode::ScopeOut(ScopeOut::default())));
    g.add_edge(s, p, edge(0, 1));
    g.add_edge(p, sc, edge(0, 0));
    let d = derive_synthdef(&g, 1, "p".to_string()).unwrap();
    assert_eq!(d.monitors.len(), 1);
    assert_eq!(d.monitors[0].channels, 2);
    assert_eq!(d.monitors[0].size, 256);
    let unit = &d.def.units[d.monitors[0].scope_unit];
    assert_eq!(unit.name, "ScopeOut");
    assert!(matches!(unit.inputs[1], InputRef::Constant(c) if f(c) == 0.0));
    assert!(matches!(unit.inputs[2], InputRef::Unit { unit: 0, output: 0 }));
}

fn commit(graphs: &mut Table<GraphAddr, G>, n: u8, nodes: Vec<PatchNode>) -> GraphAddr {
    let mut g = G::new();
    for node in nodes {
        g.add_node(node);
    }
    let a = GraphAddr(ContentAddr([n; 32]));
    graphs.insert(a, g);
    a
}

#[test]
fn dsp_commits_discovers_direct_and_transitive() {
    let mut graphs: Table<GraphAddr, G> = Table::new();
    let sine = dsp(DspNode::Sine(Sine::default()));
    let dsp_ca = commit(&mut graphs, 1, vec![sine]);
    let wrapper_ca = commit(&mut graphs, 2, vec![PatchNode::Ref(dsp_ca)]);
    let wrapper2_ca = commit(&mut graphs, 3, vec![PatchNode::Ref(wrapper_ca)]);
    let plain_ca = commit(&mut graphs, 4, vec![PatchNode::Other]);
    let missing = GraphAddr(ContentAddr([9u8; 32]));
    let dangling_ca = commit(&mut graphs, 5, vec![PatchNode::Ref(missing)]);

    let pruned_ca = commit(&mut graphs, 6, vec![dsp(DspNode::Sine(Sine::default()))]);
    let mut reg: Registry<DataGraph> = Registry::new();
    for a in [dsp_ca, wrapper_ca, wrapper2_ca, plain_ca, dangling_ca] {
        reg.insert_graph_at(a, DataGraph::new(Graph::new()));
    }

    let set = dsp_graphs(&reg, &graphs);
    assert!(!set.contains(&pruned_ca), "not in the registry");
    assert!(set.contains(&dsp_ca));
    assert!(set.contains(&wrapper_ca), "one hop through a ref");
    assert!(set.contains(&wrapper2_ca), "two hops through refs");
    assert!(!set.contains(&plain_ca));
    assert!(!set.contains(&dangling_ca));
}

#[test]
fn port_info_sees_signals_through_references() {
    let mut graphs: Table<GraphAddr, G> = Table::new();
    let mut inner = G::new();
    let s = inner.add_node(dsp(DspNode::Sine(Sine::default())));
    let o = inner.add_node(PatchNode::Outlet);
    inner.add_edge(s, o, edge(0, 0));
    let at = GraphAddr(ContentAddr([1; 32]));
    graphs.insert(at, inner);
    let mut g = G::new();
    let r = g.add_node(PatchNode::Ref(at));
    let out = g.add_node(dsp(DspNode::Out(Out::default())));
    let other = g.add_node(PatchNode::Other);
    g.add_edge(r, out, edge(0, 0));
    let shapes: PortShapes = Table::new();
    let info = root_port_info(&g, &graphs, &shapes);
    let port = |node, port| Port { node, port };
    assert!(info.signal_outputs.contains_key(&port(r, 0)));
    assert!(info.signal_inputs.contains(&port(out, 0)));
    assert!(!info.signal_outputs.contains_key(&port(other, 0)));
    assert!(!info.signal_inputs.contains(&port(other, 0)));
}

/// Claims edges out of the given source node with the given colour.
struct StubStyle {
    src_node: usize,
    color: [u8; 4],
}

impl EdgeStyle for StubStyle {
    fn edge_styling(&self, ctx: &EdgeStyleCtx) -> Option<EdgeStyling> {
        (ctx.src.0 == self.src_node).then_some(EdgeStyling {
            color: Some(self.color),
            ..Default::default()
        })
    }
}

#[test]
fn first_claiming_styler_wins() {
    let red = [255, 0, 0, 255];
    let blue = [0, 0, 255, 255];
    let a = StubStyle {
        src_node: 0,
        color: red,
    };
    let b = StubStyle {
        src_node: 0,
        color: blue,
    };
    let c = StubStyle {
        src_node: 1,
        color: blue,
    };
    let styles = vec![a, b, c];
    let head = Head::Branch(Name::parse("test"));
    let ctx = |src_node| EdgeStyleCtx::new(&head, (src_node, 0), (2, 0));
    assert_eq!(edge_styling(&styles, &ctx(0)).unwrap().color, Some(red));
    assert_eq!(edge_styling(&styles, &ctx(1)).unwrap().color, Some(blue));
    assert!(edge_styling(&styles, &ctx(2)).is_none());
}

#[test]
fn styles_signal_edges_only() {
    let port = |node, port| Port { node, port };
    let shape = |width| {
        Some(PortShape {
            width,
            rate: Rate::Audio,
        })
    };
    let mut info = RootPortInfo {
        signal_inputs: KeySet::new(),
        signal_outputs: Table::new(),
    };
    info.signal_outputs.insert(port(0, 0), shape(2));
    info.signal_outputs.insert(port(3, 0), shape(8));
    info.signal_outputs.insert(port(4, 0), None);
    info.signal_inputs.insert(port(1, 0));
    let head = Head::Branch(Name::parse("test"));
    let mut heads = Table::new();
    heads.insert(Head::Branch(Name::parse("test")), info);
    let style = DspEdgeStyle { heads };
    let ctx = |src: (usize, usize), dst: (usize, usize)| EdgeStyleCtx::new(&head, src, dst);

    let styling = style.edge_styling(&ctx((0, 0), (1, 0))).unwrap();
    assert!(styling.notch.is_some());
    assert!(f(styling.width_scale) > 1.0);
    assert!(styling.color.is_none());
    assert_eq!(styling.strands, 2);
    assert_eq!(styling.hover_text.as_deref(), Some("2ch ar"));
    let wide = style.edge_styling(&ctx((3, 0), (1, 0))).unwrap();
    assert_eq!(wide.strands, 8);
    assert_eq!(wide.hover_text.as_deref(), Some("8ch ar"));
    let open = style.edge_styling(&ctx((4, 0), (1, 0))).unwrap();
    assert!(open.notch.is_none());
    assert!(open.dash.is_some());
    assert_eq!(open.hover_text.as_deref(), Some("signal"));
    assert!(style.edge_styling(&ctx((0, 0), (1, 1))).is_none());
    assert!(style.edge_styling(&ctx((2, 0), (1, 0))).is_none());
    let other = Head::Branch(Name::parse("other"));
    let ctx = EdgeStyleCtx::new(&other, (0, 0), (1, 0));
    assert!(style.edge_styling(&ctx).is_none());
}

#[test]
fn builtins_are_described_and_named_in_order() {
    let all = builtins();
    let names: Vec<&str> = all.iter().map(|b| b.name).collect();
    assert_eq!(
        names,
        vec!["~bus", "~lag", "~out", "~pack", "~scopeout", "~sinosc", "~sum", "~unpack"]
    );
    for b in &all {
        assert!(!b.node.description().is_empty());
    }
    let doc = DspNode::Pack(Pack::default())
        .socket_doc(SocketKind::Input, 1)
        .unwrap();
    assert_eq!(doc.ty, "signal");
    assert_eq!(
        doc.description.as_deref(),
        Some("signal 1 to pack (any channel width; silence when unconnected)")
    );
    assert!(DspNode::Out(Out::default())
        .socket_doc(SocketKind::Output, 0)
        .is_none());
}

#[test]
fn control_sides_are_placeholders() {
    let unpack = DspNode::Unpack(Unpack::default());
    assert_eq!(unpack.expr(&vec![None]), "(list 0 0)");
    assert_eq!(unpack.n_outputs(), 2);
    let mut one = Unpack::default();
    one.set_count(0);
    assert_eq!(DspNode::Unpack(one).expr(&vec![]), "0");
    assert_eq!(DspNode::Sum(Sum::default()).n_inputs(), 2);
    assert_eq!(DspNode::Tap(Tap::default()).expr(&vec![]), "state");
    let scope = DspNode::ScopeOut(ScopeOut::default());
    assert_eq!(
        scope.expr(&vec![None, Some("x".to_string())]),
        "(list 0 (list state (length state)))"
    );
    assert_eq!(scope.expr(&vec![Some("x".to_string()), None]), "(list 1 '())");
    assert_eq!(scope.branches(), vec![(true, true), (false, false)]);
    assert!(matches!(scope.initial_state(), Some(Val::List(l)) if l.is_empty()));
    assert!(DspNode::Sine(Sine::default()).initial_state().is_none());
    let lag = DspNode::Lag(Lag::default()).initial_state();
    let value = gantz::param::param_value(&lag.unwrap());
    assert!(matches!(value, Some(Number::Float(b)) if f64::from_bits(b) == 0.1f32 as f64));
    let ring = || Val::List(vec![Val::Bool(true), Val::Bool(true)]);
    assert_eq!(scope_shape(&Some(Val::List(vec![ring()]))), (2, 1));
    assert_eq!(scope_shape(&None), (0, 0));
}

#[test]
fn node_addresses_cover_kind_and_setting() {
    let mut tap = Tap::default();
    let a = content_addr(&DspNode::Tap(tap));
    let mut bytes = b"gantz.plyphon.tap".to_vec();
    bytes.extend(256u64.to_le_bytes());
    assert_eq!(a, ContentAddr(*blake3::hash(&bytes).as_bytes()));
    tap.set_size(0);
    assert_eq!(tap.size(), 1);
    assert_ne!(a, content_addr(&DspNode::Tap(tap)));
    let mut bytes = b"gantz.plyphon.sine".to_vec();
    bytes.extend(220.0f32.to_le_bytes());
    assert_eq!(
        content_addr(&DspNode::Sine(Sine::default())),
        ContentAddr(*blake3::hash(&bytes).as_bytes())
    );
    let mut g: Graph<DspNode, Edge> = Graph::new();
    g.add_node(DspNode::Sine(Sine::default()));
    assert_eq!(addr(&g), addr(&g.clone()));
}

/// Two sines into one input, one of them also over a bus into a second output.
fn branching(flip: bool, lag: bool) -> G {
    let mut g = G::new();
    let a = g.add_node(dsp(DspNode::Sine(Sine::default())));
    let b = g.add_node(dsp(DspNode::Sine(Sine::default())));
    let o = g.add_node(dsp(DspNode::Out(Out::default())));
    let bus = g.add_node(dsp(DspNode::Bus(Bus::default())));
    let far = g.add_node(if lag {
        dsp(DspNode::Lag(Lag::default()))
    } else {
        PatchNode::Other
    });
    let out = g.add_node(dsp(DspNode::Out(Out::default())));
    let mut edges = vec![(a, o), (b, o), (b, bus)];
    if lag {
        edges.push((bus, far));
        edges.push((far, out));
    } else {
        edges.push((bus, out));
    }
    if flip {
        edges.reverse();
    }
    for (s, t) in edges {
        g.add_edge(s, t, edge(0, 0));
    }
    g
}

#[test]
fn the_order_of_edges_does_not_matter() {
    let a = derive(&branching(false, true), 2, "d");
    let b = derive(&branching(true, true), 2, "d");
    assert_eq!(structural_sig(&a), structural_sig(&b));
    assert_eq!(format!("{a:?}"), format!("{b:?}"));
    let a = derive_synthdefs(&branching(false, true), 2, "r").unwrap();
    let b = derive_synthdefs(&branching(true, true), 2, "r").unwrap();
    assert_eq!(format!("{a:?}"), format!("{b:?}"));
}

#[test]
fn an_edit_leaves_other_regions_alone() {
    let plain = derive_synthdefs(&branching(false, false), 2, "r").unwrap();
    let edited = derive_synthdefs(&branching(false, true), 2, "r").unwrap();
    assert_eq!((plain.len(), edited.len()), (2, 2));
    assert_eq!(plain[0].key, edited[0].key);
    assert_eq!(
        structural_sig(&plain[0].derived.def),
        structural_sig(&edited[0].derived.def)
    );
    assert_eq!(plain[0].derived.def.name, edited[0].derived.def.name);
    assert_ne!(
        structural_sig(&plain[1].derived.def),
        structural_sig(&edited[1].derived.def)
    );
}

#[test]
fn bus_reads_have_one_writer_as_wide() {
    let mut g = G::new();
    let s = g.add_node(dsp(DspNode::Sine(Sine::default())));
    let p = g.add_node(dsp(DspNode::Pack(Pack::default())));
    let b = g.add_node(dsp(DspNode::Bus(Bus::default())));
    let x = g.add_node(dsp(DspNode::ScopeOut(ScopeOut::default())));
    let y = g.add_node(dsp(DspNode::ScopeOut(ScopeOut::default())));
    g.add_edge(s, p, edge(0, 0));
    g.add_edge(p, b, edge(0, 0));
    g.add_edge(b, x, edge(0, 0));
    g.add_edge(b, y, edge(0, 0));
    let regions = derive_synthdefs(&g, 1, "r").unwrap();
    assert_eq!(regions.len(), 3);
    for (i, region) in regions.iter().enumerate() {
        for read in &region.bus_reads {
            let mut writers = vec![];
            for (j, other) in regions.iter().enumerate() {
                for w in &other.bus_writes {
                    if w.node_path == read.node_path && w.output == read.output {
                        writers.push((j, w.channels));
                    }
                }
            }
            assert_eq!(writers.len(), 1);
            assert!(writers[0].0 < i);
            assert_eq!(writers[0].1, read.channels);
            assert_eq!(read.channels, 2);
        }
    }
    assert_eq!(regions[1].bus_reads.len() + regions[2].bus_reads.len(), 2);
}

#[test]
fn an_uncut_graph_is_one_region() {
    let g = sine_to_out(220.0, 0.5);
    let regions = derive_synthdefs(&g, 2, "r").unwrap();
    assert_eq!(regions.len(), 1);
    assert!(regions[0].bus_writes.is_empty() && regions[0].bus_reads.is_empty());
    let name = format!("r-{:016x}", regions[0].key);
    assert_eq!(regions[0].derived.def.name, name);
    let whole = derive_synthdef(&g, 2, name).unwrap();
    assert_eq!(format!("{:?}", regions[0].derived), format!("{whole:?}"));
}

#[test]
fn control_chains_add_nothing() {
    let mut g = sine_to_out(220.0, 0.5);
    let before = derive_synthdef(&g, 1, "d".to_string()).unwrap();
    let a = g.add_node(dsp(DspNode::Sine(Sine::default())));
    let b = g.add_node(dsp(DspNode::Lag(Lag::default())));
    g.add_edge(a, b, edge(0, 0));
    // The sine's frequency is a control input: it has no dsp inputs.
    g.add_edge(b, 0, edge(0, 0));
    let after = derive_synthdef(&g, 1, "d".to_string()).unwrap();
    assert_eq!(format!("{before:?}"), format!("{after:?}"));
}

#[test]
fn chains_that_come_back_into_a_graph_carry_no_signal() {
    let (a, b) = (GraphAddr(ContentAddr([1; 32])), GraphAddr(ContentAddr([2; 32])));
    let mut ga = G::new();
    let first = ga.add_node(PatchNode::Inlet);
    let second = ga.add_node(PatchNode::Inlet);
    let to_b = ga.add_node(PatchNode::Ref(b));
    let out = ga.add_node(dsp(DspNode::Out(Out::default())));
    ga.add_edge(first, to_b, edge(0, 0));
    ga.add_edge(second, out, edge(0, 0));
    let mut gb = G::new();
    let inlet = gb.add_node(PatchNode::Inlet);
    let to_a = gb.add_node(PatchNode::Ref(a));
    gb.add_edge(inlet, to_a, edge(0, 1));
    let mut graphs: Table<GraphAddr, G> = Table::new();
    graphs.insert(a, ga);
    graphs.insert(b, gb);
    let mut root = G::new();
    let ra = root.add_node(PatchNode::Ref(a));
    let rb = root.add_node(PatchNode::Ref(b));
    let shapes: PortShapes = Table::new();
    let info = root_port_info(&root, &graphs, &shapes);
    let port = |node, port| Port { node, port };
    assert!(!info.signal_inputs.contains(&port(ra, 0)));
    assert!(info.signal_inputs.contains(&port(ra, 1)));
    assert!(info.signal_inputs.contains(&port(rb, 0)));
}

#[test]
fn outlets_sum_their_newest_edge_first() {
    let (a, b) = (GraphAddr(ContentAddr([1; 32])), GraphAddr(ContentAddr([2; 32])));
    let mut inner = G::new();
    let x = inner.add_node(dsp(DspNode::Sine(Sine::default())));
    let y = inner.add_node(dsp(DspNode::Sine(Sine::default())));
    let o = inner.add_node(PatchNode::Outlet);
    inner.add_edge(x, o, edge(0, 0));
    inner.add_edge(y, o, edge(0, 0));
    // One outlet of a graph may go through another of the same graph.
    let mut around = G::new();
    let first = around.add_node(PatchNode::Outlet);
    let second = around.add_node(PatchNode::Outlet);
    let own = around.add_node(PatchNode::Ref(b));
    let s = around.add_node(dsp(DspNode::Sine(Sine::default())));
    around.add_edge(own, first, edge(1, 0));
    around.add_edge(s, second, edge(0, 0));
    let mut graphs: Table<GraphAddr, G> = Table::new();
    graphs.insert(a, inner);
    graphs.insert(b, around);
    let mut root = G::new();
    let ra = root.add_node(PatchNode::Ref(a));
    let rb = root.add_node(PatchNode::Ref(b));
    let at = |node: usize| PathPort { path: PathKey(vec![ra, node]), port: 0 };
    let mut shapes: PortShapes = Table::new();
    shapes.insert(at(x), PortShape { width: 2, rate: Rate::Control });
    shapes.insert(at(y), PortShape { width: 1, rate: Rate::Scalar });
    let info = root_port_info(&root, &graphs, &shapes);
    let port = |node, port| Port { node, port };
    let shape = info.signal_outputs.get(&port(ra, 0)).unwrap().unwrap();
    assert_eq!((shape.width, shape.rate), (2, Rate::Scalar));
    assert!(info.signal_outputs.contains_key(&port(rb, 0)));
    assert!(info.signal_outputs.contains_key(&port(rb, 1)));
}

#[test]
fn no_output_channels_are_taken_as_one() {
    let none = derive(&sine_to_out(220.0, 0.5), 0, "d");
    let one = derive(&sine_to_out(220.0, 0.5), 1, "d");
    assert_eq!(format!("{none:?}"), format!("{one:?}"));
    assert_eq!(none.units.len(), 3);
}
