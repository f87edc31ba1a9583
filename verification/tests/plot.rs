use gantz::monitor::{push_ring, push_rings};
use gantz::plot::{
    plot_push, split_channels, summary, Edit, End, Plot, PlotMode, Widget, MAX_CAPACITY,
};
use gantz::socket::SocketKind;
use gantz::size_sync::{fitted_size, size_sync_frame, size_sync_next, SizeSync};
use gantz::value::{Number, Val};
use steel::gc::Gc;
use steel::steel_vm::engine::Engine;
use steel::steel_vm::register_fn::RegisterFn;
use steel::SteelVal;

fn num(n: f64) -> Val {
    Val::Num(Number::Float(n.to_bits()))
}

fn list(vals: Vec<Val>) -> Val {
    Val::List(vals)
}

fn vector(vals: Vec<Val>) -> Val {
    Val::Vector(vals)
}

fn float(n: &Number) -> f64 {
    match n {
        Number::Float(bits) => f64::from_bits(*bits),
        Number::Int(i) => *i as f64,
    }
}

fn floats(v: &[Val]) -> Vec<f64> {
    v.iter()
        .filter_map(|v| match v {
            Val::Num(n) => Some(float(n)),
            _ => None,
        })
        .collect()
}

fn channels(v: &Val) -> Vec<Vec<f64>> {
    split_channels(v)
        .iter()
        .map(|c| c.iter().map(float).collect())
        .collect()
}

fn from_steel(v: &SteelVal) -> Val {
    match v {
        SteelVal::NumV(n) => num(*n),
        SteelVal::IntV(i) => Val::Num(Number::Int(*i as i64)),
        SteelVal::BoolV(b) => Val::Bool(*b),
        SteelVal::ListV(l) => list(l.iter().map(from_steel).collect()),
        SteelVal::VectorV(l) => vector(l.iter().map(from_steel).collect()),
        _ => Val::Text(String::new()),
    }
}

fn to_steel(v: &Val) -> SteelVal {
    match v {
        Val::Num(Number::Float(bits)) => SteelVal::NumV(f64::from_bits(*bits)),
        Val::Num(Number::Int(i)) => SteelVal::IntV(*i as isize),
        Val::Bool(b) => SteelVal::BoolV(*b),
        Val::List(l) => SteelVal::ListV(l.iter().map(to_steel).collect()),
        Val::Vector(l) => {
            let v: steel::Vector<SteelVal> = l.iter().map(to_steel).collect();
            SteelVal::VectorV(Gc::new(v).into())
        }
        _ => SteelVal::Void,
    }
}

fn register_plot_push(vm: &mut Engine) {
    vm.register_fn("plot-push", |state: SteelVal, v: SteelVal, cap: isize| {
        to_steel(&plot_push(&from_steel(&state), &from_steel(&v), cap as i64))
    });
}

/// A VM with the plot's state.
fn plot_vm() -> Engine {
    let mut vm = Engine::new_base();
    register_plot_push(&mut vm);
    vm.register_value("state", to_steel(&vector(vec![])));
    vm
}

/// Evaluates the plot's expression on `src` for `n` times.
fn fire(vm: &mut Engine, plot: &Plot, src: &str, n: usize) {
    let expr = plot.expr(Some(src));
    for _ in 0..n {
        vm.run(expr.clone()).unwrap();
    }
}

fn samples(vm: &Engine) -> Vec<f64> {
    match from_steel(&vm.extract_value("state").unwrap()) {
        Val::List(v) | Val::Vector(v) => floats(&v),
        other => panic!("expected list/vector state, got {other:?}"),
    }
}

fn scope(capacity: u32) -> Plot {
    Plot {
        mode: PlotMode::Scope,
        capacity,
        ..Default::default()
    }
}

#[test]
fn scope_accumulates_bounded_history() {
    let mut vm = plot_vm();
    fire(&mut vm, &scope(3), "5", 5);
    assert_eq!(samples(&vm), vec![5.0, 5.0, 5.0]);
}

#[test]
fn scope_extends_with_list() {
    let mut vm = plot_vm();
    fire(&mut vm, &scope(10), "(list 1 2 3)", 2);
    assert_eq!(samples(&vm), vec![1.0, 2.0, 3.0, 1.0, 2.0, 3.0]);
}

#[test]
fn scope_list_over_capacity_keeps_tail() {
    let mut vm = plot_vm();
    fire(&mut vm, &scope(3), "(list 1 2 3 4 5)", 1);
    assert_eq!(samples(&vm), vec![3.0, 4.0, 5.0]);
    fire(&mut vm, &scope(3), "(list 1 2 3 4 5)", 1);
    assert_eq!(samples(&vm), vec![3.0, 4.0, 5.0]);
}

#[test]
fn scope_accumulates_per_channel_histories() {
    let mut vm = plot_vm();
    fire(&mut vm, &scope(3), "(list (list 1 2) (list -1 -2))", 2);
    let state = from_steel(&vm.extract_value("state").unwrap());
    assert_eq!(
        channels(&state),
        vec![vec![2.0, 1.0, 2.0], vec![-2.0, -1.0, -2.0]],
    );
}

#[test]
fn scope_shape_switch_discards_prior_history() {
    let void = Val::Text(String::new());
    let flat = plot_push(&void, &num(1.0), 8);
    let chans = plot_push(&flat, &list(vec![list(vec![num(2.0)])]), 8);
    assert_eq!(channels(&chans), vec![vec![2.0]]);
    let flat_again = plot_push(&chans, &num(3.0), 8);
    assert_eq!(channels(&flat_again), vec![vec![3.0]]);
}

#[test]
fn scope_list_trims_oldest_to_cap() {
    let mut vm = plot_vm();
    fire(&mut vm, &scope(4), "(list 1 2 3)", 2);
    assert_eq!(samples(&vm), vec![3.0, 1.0, 2.0, 3.0]);
}

#[test]
fn split_channels_by_shape() {
    assert_eq!(
        channels(&list(vec![num(1.0), num(2.0), num(3.0)])),
        vec![vec![1.0, 2.0, 3.0]],
    );
    assert_eq!(
        channels(&vector(vec![num(1.0), num(2.0), num(3.0)])),
        vec![vec![1.0, 2.0, 3.0]],
    );
    assert_eq!(channels(&num(7.0)), vec![vec![7.0]]);
    let expected = vec![vec![1.0, 3.0], vec![2.0, 4.0]];
    assert_eq!(
        channels(&list(vec![
            list(vec![num(1.0), num(3.0)]),
            list(vec![num(2.0), num(4.0)]),
        ])),
        expected,
    );
    assert_eq!(
        channels(&vector(vec![
            vector(vec![num(1.0), num(3.0)]),
            vector(vec![num(2.0), num(4.0)]),
        ])),
        expected,
    );
    assert_eq!(
        channels(&list(vec![
            vector(vec![num(1.0), num(3.0)]),
            vector(vec![num(2.0), num(4.0)]),
        ])),
        expected,
    );
}

#[test]
fn plot_push_accepts_vector() {
    let s1 = plot_push(&vector(vec![]), &vector(vec![num(1.0), num(2.0), num(3.0)]), 4);
    let s2 = plot_push(&s1, &vector(vec![num(4.0), num(5.0)]), 4);
    let got = match &s2 {
        Val::Vector(v) => floats(v),
        other => panic!("expected vector state, got {other:?}"),
    };
    assert_eq!(got, vec![2.0, 3.0, 4.0, 5.0]);
}

#[test]
fn signal_stores_list() {
    let mut vm = plot_vm();
    let plot = Plot {
        mode: PlotMode::Signal,
        ..Default::default()
    };
    fire(&mut vm, &plot, "(list 1 2 3)", 1);
    assert_eq!(samples(&vm), vec![1.0, 2.0, 3.0]);
}

#[test]
fn signal_stores_scalar() {
    let mut vm = plot_vm();
    let plot = Plot {
        mode: PlotMode::Signal,
        ..Default::default()
    };
    fire(&mut vm, &plot, "7", 1);
    assert!(matches!(vm.extract_value("state").unwrap(), SteelVal::IntV(7)));
}

#[test]
fn re_registration_keeps_plot_push_working() {
    let mut vm = plot_vm();
    register_plot_push(&mut vm);
    fire(&mut vm, &scope(3), "5", 5);
    assert_eq!(samples(&vm), vec![5.0, 5.0, 5.0]);
}

#[test]
fn plot_passes_its_input_on() {
    let mut vm = plot_vm();
    let out = vm.run(scope(3).expr(Some("9"))).unwrap();
    assert_eq!(out.last(), Some(&SteelVal::IntV(9)));
    let out = vm.run(scope(3).expr(None)).unwrap();
    assert_eq!(from_steel(out.last().unwrap()).len_of(), 1);
}

trait LenOf {
    fn len_of(&self) -> usize;
}

impl LenOf for Val {
    fn len_of(&self) -> usize {
        match self {
            Val::List(v) | Val::Vector(v) => v.len(),
            _ => 0,
        }
    }
}

#[test]
fn capacity_edits_are_bounded() {
    let mut p = Plot::default();
    p.apply(Edit::Capacity(-3));
    assert_eq!(p.capacity, 1);
    p.apply(Edit::Capacity(i32::MAX));
    assert_eq!(p.capacity, MAX_CAPACITY);
}

#[test]
fn summaries_count_samples_and_channels() {
    assert_eq!(summary(&vec![3]), "3 samples");
    assert_eq!(summary(&vec![3, 4]), "7 samples \u{b7} 2 channels");
}

#[test]
fn size_sync_frame_decisions() {
    let sync = |last_seen, was_resizing| {
        Some(SizeSync {
            last_seen,
            was_resizing,
        })
    };
    assert_eq!(size_sync_frame(None, [100, 40], false), (true, false));
    assert_eq!(
        size_sync_frame(sync([100, 40], false), [100, 40], false),
        (false, false)
    );
    assert_eq!(
        size_sync_frame(sync([100, 40], true), [120, 40], true),
        (true, false)
    );
    assert_eq!(
        size_sync_frame(sync([100, 40], false), [100, 40], true),
        (false, false)
    );
    assert_eq!(
        size_sync_frame(sync([100, 40], true), [100, 40], true),
        (false, false)
    );
    assert_eq!(
        size_sync_frame(sync([100, 40], true), [100, 40], false),
        (false, true)
    );
}

#[test]
fn a_push_cuts_a_drag_short() {
    let next = size_sync_next([120, 40], true, true);
    assert_eq!(size_sync_frame(Some(next), [120, 40], false), (false, false));
}

#[test]
fn fitted_size_rounds() {
    let fitted = |w: f32, h: f32| fitted_size(w.to_bits(), h.to_bits());
    assert_eq!(fitted(100.6, 40.4), [101, 40]);
    assert_eq!(fitted(100.4, 40.5), [100, 41]);
}

#[test]
fn fitted_size_is_rounding_and_saturation() {
    for x in [
        0.0f32,
        -0.0,
        0.49,
        0.5,
        0.75,
        1.5,
        2.5,
        -3.0,
        65534.5,
        65535.5,
        1e-40,
        8388607.5,
        8388608.0,
        1e20,
        f32::INFINITY,
        f32::NEG_INFINITY,
        f32::NAN,
    ] {
        assert_eq!(fitted_size(x.to_bits(), 0)[0], x.round() as u16, "{x}");
    }
}

fn ring(v: &Val) -> Vec<f64> {
    match v {
        Val::List(v) => floats(v),
        _ => vec![],
    }
}

fn numbers(v: &[f64]) -> Vec<Number> {
    v.iter().map(|f| Number::Float(f.to_bits())).collect()
}

#[test]
fn push_ring_caps_and_drops_oldest() {
    let a = push_ring(Some(&list(vec![])), &numbers(&[1.0, 2.0, 3.0]), 4);
    let b = push_ring(Some(&a), &numbers(&[4.0, 5.0]), 4);
    assert_eq!(
        ring(&b),
        vec![2.0, 3.0, 4.0, 5.0],
        "ring keeps the newest `size`"
    );
}

#[test]
fn push_ring_full_frame_replaces() {
    let a = push_ring(Some(&list(vec![])), &numbers(&[1.0, 2.0]), 2);
    let b = push_ring(Some(&a), &numbers(&[3.0, 4.0, 5.0]), 2);
    assert_eq!(ring(&b), vec![4.0, 5.0]);
}

#[test]
fn push_ring_size_zero_keeps_latest() {
    let a = push_ring(Some(&list(vec![])), &numbers(&[1.0, 2.0, 3.0]), 0);
    assert_eq!(ring(&a), vec![3.0]);
}

#[test]
fn push_rings_deals_samples_to_channels() {
    let a = push_rings(None, &numbers(&[1.0, -1.0, 2.0, -2.0, 3.0]), 8, 2);
    let b = push_rings(Some(&a), &numbers(&[4.0, -4.0]), 2, 2);
    let rings: Vec<Vec<f64>> = match &b {
        Val::List(rings) => rings.iter().map(ring).collect(),
        _ => vec![],
    };
    assert_eq!(rings.len(), 2);
    assert_eq!(rings[1], vec![-2.0, -4.0]);
    assert_eq!(*rings[0].last().unwrap(), 4.0);
}

#[test]
fn plots_describe_themselves() {
    let p = Plot::default();
    assert_eq!(p.name(), "plot");
    assert!(p.description().starts_with("Plot incoming values"));
    assert_eq!(p.socket_doc(SocketKind::Input).ty, "number or list");
    assert_eq!(p.socket_doc(SocketKind::Output).ty, "any");
    assert!(matches!(p.cleared(), Val::Vector(v) if v.is_empty()));
}

#[test]
fn bounds_carry_their_change() {
    let plot = Plot::default();
    let ends: Vec<End> = plot
        .inspector_rows(&vec![3])
        .into_iter()
        .flat_map(|r| r.widgets)
        .filter_map(|w| match w {
            Widget::Bound { end, .. } => Some(end),
            _ => None,
        })
        .collect();
    assert_eq!(ends, vec![End::Min, End::Max]);
    let bits = 2.5f32.to_bits();
    assert!(matches!(End::Min.edit(Some(bits)), Edit::YMin(Some(b)) if b == bits));
    assert!(matches!(End::Max.edit(None), Edit::YMax(None)));
}
