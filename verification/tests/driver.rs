use gantz::addr::ContentAddr;
use gantz::audio_settings::{audio_settings, status, AudioPanel};
use gantz::backend::{BackendError, DspConfig, DspStatus};
use gantz::compile::{derive_synthdef, DeriveError};
use gantz::driver::{
    sync_param, toggle, Action, Control, Driver, ParamSlot, Respawn, ScopeAlloc, Step,
};
use gantz::dsp::{Derived, InputRef};
use gantz::dsp_node::{DspNode, PatchNode};
use gantz::edge::{Edge, Input, Output};
use gantz::graph::{Graph, GraphAddr};
use gantz::inspect::{Edit, Row};
use gantz::node::lag::Lag;
use gantz::node::pack::Pack;
use gantz::node::scope_out::ScopeOut;
use gantz::node::sine::Sine;
use gantz::node::tap::Tap;
use gantz::param::{
    control_input_expr, drain_param, param_name, param_state, param_value, pending_len, with_value,
};
use gantz::set::KeySet;
use gantz::value::{Number, Val};

fn at(n: u8) -> GraphAddr {
    GraphAddr(ContentAddr([n; 32]))
}

/// A sine that two monitors listen to.
fn derived(freq: f32) -> Derived {
    let mut g: Graph<PatchNode, Edge> = Graph::new();
    let mut sine = Sine::default();
    sine.set_freq(freq.to_bits());
    let s = g.add_node(PatchNode::Dsp(DspNode::Sine(sine)));
    let a = g.add_node(PatchNode::Dsp(DspNode::ScopeOut(ScopeOut::default())));
    let b = g.add_node(PatchNode::Dsp(DspNode::Tap(Tap::default())));
    let edge = || Edge::new(Output(0), Input(0));
    g.add_edge(s, a, edge());
    g.add_edge(s, b, edge());
    derive_synthdef(&g, 1, "d".to_string()).unwrap()
}

fn respawn(driver: &mut Driver, entity: u64, graph: GraphAddr) -> (usize, Respawn) {
    match driver.sync_derived(entity, graph, Ok(derived(220.0)), "d".to_string()) {
        Step::Respawn(actions, job) => (actions.len(), job),
        Step::Done(_) => panic!("expected a respawn"),
    }
}

fn cue_all(driver: &mut Driver, job: &mut Respawn) -> Vec<usize> {
    let mut indices = vec![];
    while let Some(cue) = driver.next_cue(job) {
        indices.push(cue.index);
        driver.cued(job, cue, (cue.index as f32).to_bits(), true);
    }
    indices
}

#[test]
fn scope_indices_are_reused() {
    let mut a = ScopeAlloc::new();
    assert_eq!((a.hand_out(), a.hand_out()), (0, 1));
    a.free(0);
    assert_eq!((a.hand_out(), a.hand_out()), (0, 2));
}

#[test]
fn synths_live_and_die_with_their_heads() {
    let mut driver = Driver::new();
    assert!(driver.sync_needed(7, &at(1)));
    let (actions, mut job) = respawn(&mut driver, 7, at(1));
    assert_eq!(actions, 0);
    assert_eq!(cue_all(&mut driver, &mut job), vec![0, 1]);
    let units = &job.derived.def.units;
    let second = job.derived.monitors[1].scope_unit;
    assert!(matches!(
        units[second].inputs[0],
        InputRef::Constant(c) if f32::from_bits(c) == 1.0
    ));
    driver.spawned(job, 1000);
    assert!(!driver.sync_needed(7, &at(1)));

    // A change of value keeps the synth.
    let step = driver.sync_derived(7, at(2), Ok(derived(440.0)), "e".to_string());
    assert!(matches!(step, Step::Done(actions) if actions.is_empty()));
    assert!(!driver.sync_needed(7, &at(2)));

    let mut live: KeySet<u64> = KeySet::new();
    assert_eq!(driver.stale(&live), vec![7]);
    live.insert(7);
    assert!(driver.stale(&live).is_empty());

    let torn = driver.teardown(7);
    assert_eq!(torn.len(), 4);
    assert!(matches!(torn[0], Action::FreeNode(1000)));
    assert!(matches!(&torn[1], Action::FreeSynthdef(n) if n == "d"));
    assert!(matches!(torn[2], Action::CloseScope(0)));
    assert!(driver.teardown(7).is_empty());
}

#[test]
fn failures_return_their_streams() {
    let mut driver = Driver::new();
    let (_, mut job) = respawn(&mut driver, 1, at(1));
    let cue = driver.next_cue(&job).unwrap();
    driver.cued(&mut job, cue, 0, false);
    assert!(job.scopes.is_empty());
    let cue = driver.next_cue(&job).unwrap();
    assert_eq!(cue.index, 0, "a stream that was refused gives its index back");
    driver.cued(&mut job, cue, 0, true);
    let actions = driver.abandoned(job, true);
    assert_eq!(actions.len(), 2);
    assert!(matches!(&actions[0], Action::FreeSynthdef(n) if n == "d"));
    assert!(driver.sync_needed(1, &at(1)));

    let (_, mut job) = respawn(&mut driver, 2, at(1));
    cue_all(&mut driver, &mut job);
    driver.spawned(job, 5);
    let step = driver.sync_derived(2, at(9), Err(DeriveError::NoSink), String::new());
    assert!(matches!(step, Step::Done(actions) if actions.len() == 4));
}

#[test]
fn params_are_sent_on_change_or_scheduled() {
    let mut slot = ParamSlot {
        node_path: vec![0],
        index: 3,
        last: None,
    };
    let v = 0.5f32.to_bits();
    assert_eq!(
        sync_param(&mut slot, v, &vec![]),
        vec![Control::Now { index: 3, value: v }]
    );
    assert!(sync_param(&mut slot, v, &vec![]).is_empty());
    let t = 1.25f64.to_bits();
    assert_eq!(
        sync_param(&mut slot, v, &vec![(t, v)]),
        vec![Control::At {
            index: 3,
            value: v,
            time: t
        }]
    );
    assert_eq!(toggle(None, true), Some(true));
    assert_eq!(toggle(Some(true), true), None);
}

fn num(x: f64) -> Number {
    Number::Float(x.to_bits())
}

#[test]
fn params_queue_and_drain_oldest_first() {
    let state = param_state(num(1.0));
    assert!(matches!(param_value(&state), Some(n) if n == num(1.0)));
    assert!(drain_param(&state).unwrap().cleared.is_none());
    let update = |t: f64, v: f64| Val::List(vec![Val::Num(num(t)), Val::Num(num(v))]);
    let queued = Val::Record(vec![
        ("value".to_string(), Val::Num(num(3.0))),
        (
            "pending".to_string(),
            Val::List(vec![update(0.2, 3.0), update(0.1, 2.0)]),
        ),
    ]);
    assert_eq!(pending_len(&queued), 2);
    let d = drain_param(&queued).unwrap();
    assert_eq!(d.value, num(3.0));
    assert_eq!(d.pending, vec![(num(0.1), num(2.0)), (num(0.2), num(3.0))]);
    assert_eq!(pending_len(&d.cleared.unwrap()), 0);
    let edited = with_value(&queued, num(9.0));
    assert_eq!(pending_len(&edited), 2);
    assert!(matches!(param_value(&edited), Some(n) if n == num(9.0)));
    assert!(drain_param(&Val::Bool(true)).is_none());
}

#[test]
fn control_inputs_queue_with_the_firing_time() {
    let idle = control_input_expr(&vec![None], "%args", 0, "'()");
    assert_eq!(idle, "(begin '())");
    let fed = control_input_expr(&vec![Some("x".to_string())], "%args", 0, "state");
    assert_eq!(
        fed,
        "(begin (if (number? x) (set! state (hash-insert (hash-insert state 'value x) \
         'pending (cons (list (hash-ref %args 'time) x) (hash-ref state 'pending)))) void) state)"
    );
    assert_ne!(param_name(&vec![1, 2], "freq"), param_name(&vec![12], "freq"));
}

#[test]
fn settings_start_out_and_show() {
    let c = DspConfig::default();
    assert_eq!((c.sched_lead_ms, c.enabled), (50, true));
    assert!(!DspStatus::default().present);
    let mut panel = AudioPanel {
        present: false,
        device: None,
        sample_rate: 48_000,
        channels: 2,
        sched_lead_ms: 50.0f32.to_bits(),
        enabled: true,
    };
    assert!(status(&panel).is_empty());
    panel.present = true;
    let lines = status(&panel);
    assert_eq!(lines[0], ("Device", "-".to_string()));
    assert_eq!(lines[1], ("Sample rate", "48000 Hz".to_string()));
    let r = audio_settings(&panel, None, Some(false));
    assert_eq!((r.sched_lead_ms, r.enabled), (None, Some(false)));
    assert!(matches!(BackendError::Spawn(String::new()), BackendError::Spawn(_)));
}

#[test]
fn inspector_rows_edit_their_nodes() {
    let mut pack = DspNode::Pack(Pack::default());
    assert!(matches!(
        pack.inspector_rows(&None).as_slice(),
        [Row::Count { label: "count", value: 2, max: 64, suffix: "" }]
    ));
    assert!(matches!(pack.edit(Edit::Count(0), &None), (true, None)));
    assert_eq!(pack.n_inputs(), 1);
    assert!(matches!(pack.edit(Edit::Setting(0), &None), (false, None)));

    let mut sine = DspNode::Sine(Sine::default());
    assert!(matches!(
        sine.inspector_rows(&None).as_slice(),
        [Row::Setting { label: "freq", value, max, suffix: " Hz" }]
            if f32::from_bits(*value) == 220.0 && f32::from_bits(*max) == 20_000.0
    ));
    assert!(matches!(sine.edit(Edit::Setting(440.0f32.to_bits()), &None), (true, None)));

    let mut lag = DspNode::Lag(Lag::default());
    let state = lag.initial_state();
    let rows = lag.inspector_rows(&state);
    assert!(matches!(&rows[0], Row::State { text, .. } if text == "0 queued"));
    let (changed, next) = lag.edit(Edit::Value(num(0.5)), &state);
    assert!(!changed);
    assert!(matches!(param_value(&next.unwrap()), Some(n) if n == num(0.5)));

    let scope = DspNode::ScopeOut(ScopeOut::default());
    let rings = Val::List(vec![
        Val::List(vec![Val::Num(num(1.0))]),
        Val::List(vec![Val::Num(num(2.0))]),
    ]);
    let rows = scope.inspector_rows(&Some(rings));
    assert!(matches!(&rows[0], Row::State { text, .. } if text == "1 frames \u{d7} 2 channels"));
    assert!(matches!(rows[1], Row::Count { value: 256, max: 16384, .. }));
}

#[test]
fn a_head_runs_what_its_graph_derives() {
    let mut g: Graph<PatchNode, Edge> = Graph::new();
    let s = g.add_node(PatchNode::Dsp(DspNode::Sine(Sine::default())));
    let t = g.add_node(PatchNode::Dsp(DspNode::Tap(Tap::default())));
    g.add_edge(s, t, Edge::new(Output(0), Input(0)));
    let mut driver = Driver::new();
    let Step::Respawn(actions, job) = driver.structural_sync(5, 3, at(1), &g, 1) else {
        panic!("expected a respawn");
    };
    assert!(actions.is_empty());
    assert_eq!(job.def_name, "gantz-head-3");
    assert_eq!(job.derived.def.name, "gantz-head-3");
    assert_eq!(job.derived.monitors.len(), 1);
    driver.spawned(job, 40);
    assert!(matches!(driver.structural_sync(5, 3, at(2), &g, 1), Step::Done(a) if a.is_empty()));
    assert!(!driver.sync_needed(5, &at(2)));
    let none: Graph<PatchNode, Edge> = Graph::new();
    assert!(matches!(driver.structural_sync(5, 3, at(4), &none, 1), Step::Done(a) if !a.is_empty()));
    assert!(driver.sync_needed(5, &at(4)));
}
