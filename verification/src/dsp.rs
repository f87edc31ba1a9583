//! The synth definition under construction: units, params, channel groups and
//! the builder that nodes emit them into.

use crate::param;
use vstd::prelude::*;
use vstd::string::*;

verus! {

/// A single-precision number, kept by its IEEE bits.
pub type Float = u32;

/// Whether the number is a zero of either sign.
pub open spec fn float_zero(f: Float) -> bool {
    f == 0 || f == 0x8000_0000
}

/// Whether the number is greater than zero (a NaN is not).
pub open spec fn float_positive(f: Float) -> bool {
    0 < f <= 0x7f80_0000
}

/// Whether the number is a zero of either sign.
pub fn is_zero(f: Float) -> (r: bool)
    ensures
        r == float_zero(f),
{
    f == 0 || f == 0x8000_0000
}

/// Whether the number is greater than zero (a NaN is not).
pub fn is_positive(f: Float) -> (r: bool)
    ensures
        r == float_positive(f),
{
    0 < f && f <= 0x7f80_0000
}

/// `0.0`.
pub const ZERO: Float = 0;

/// `1.0`.
pub const ONE: Float = 0x3f80_0000;

/// The smoothing time of a fade gain: `0.01` seconds.
pub const FADE_LAG: Float = 0x3c23_d70a;

/// The rate at which a unit computes.
#[derive(Clone, Copy, Debug, PartialEq, Eq, Hash, Structural)]
pub enum Rate {
    /// Once, at construction.
    Scalar,
    /// One value per control block.
    Control,
    /// One value per sample.
    Audio,
    /// Only when a consumer asks.
    Demand,
}

/// The source of a unit's input.
#[derive(Clone, Copy, Debug, PartialEq, Eq, Hash, Structural)]
pub enum InputRef {
    /// A constant baked into the def.
    Constant(Float),
    /// The value of a control param.
    Param(usize),
    /// An output of an earlier unit of the def.
    Unit { unit: usize, output: usize },
}

/// One unit of a synth definition.
#[derive(Clone, Debug)]
pub struct UnitSpec {
    pub name: String,
    pub rate: Rate,
    pub inputs: Vec<InputRef>,
    pub num_outputs: usize,
    /// The operator selector of an operator unit.
    pub special_index: i16,
}

/// What a [`UnitSpec`] denotes.
#[verifier::ext_equal]
pub struct UnitView {
    pub name: Seq<char>,
    pub rate: Rate,
    pub inputs: Seq<InputRef>,
    pub num_outputs: usize,
    pub special_index: i16,
}

impl View for UnitSpec {
    type V = UnitView;

    open spec fn view(&self) -> UnitView {
        UnitView {
            name: self.name@,
            rate: self.rate,
            inputs: self.inputs@,
            num_outputs: self.num_outputs,
            special_index: self.special_index,
        }
    }
}

/// A unit without a selector.
pub open spec fn unit(name: Seq<char>, rate: Rate, inputs: Seq<InputRef>, num_outputs: usize) -> UnitView {
    UnitView { name, rate, inputs, num_outputs, special_index: 0 }
}

impl UnitSpec {
    /// A unit without a selector.
    pub fn new(name: &str, rate: Rate, inputs: Vec<InputRef>, num_outputs: usize) -> (r: Self)
        ensures
            r@ == unit(name@, rate, inputs@, num_outputs),
    {
        UnitSpec { name: String::from_str(name), rate, inputs, num_outputs, special_index: 0 }
    }
}

/// A control parameter of a synth definition.
#[derive(Clone, Debug)]
pub struct Param {
    pub name: String,
    /// The value it starts at.
    pub default: Float,
    pub rate: Rate,
    pub is_trig: bool,
    /// The smoothing time in seconds, if it is smoothed.
    pub lag: Option<Float>,
}

/// What a [`Param`] denotes.
#[verifier::ext_equal]
pub struct ParamView {
    pub name: Seq<char>,
    pub default: Float,
    pub rate: Rate,
    pub is_trig: bool,
    pub lag: Option<Float>,
}

impl View for Param {
    type V = ParamView;

    open spec fn view(&self) -> ParamView {
        ParamView {
            name: self.name@,
            default: self.default,
            rate: self.rate,
            is_trig: self.is_trig,
            lag: self.lag,
        }
    }
}

/// A compiled synth definition.
#[derive(Clone, Debug)]
pub struct SynthDef {
    pub name: String,
    pub params: Vec<Param>,
    /// The units, in calculation order.
    pub units: Vec<UnitSpec>,
}

/// What a [`SynthDef`] denotes.
#[verifier::ext_equal]
pub struct DefView {
    pub name: Seq<char>,
    pub params: Seq<ParamView>,
    pub units: Seq<UnitView>,
}

impl View for SynthDef {
    type V = DefView;

    open spec fn view(&self) -> DefView {
        DefView {
            name: self.name@,
            params: self.params@.map_values(|p: Param| p@),
            units: self.units@.map_values(|u: UnitSpec| u@),
        }
    }
}

/// Records which dsp node a synthdef [`Param`] came from, so that the node's
/// live state value reaches the right param.
#[derive(Clone, Debug)]
pub struct ParamBinding {
    /// The dsp node's path within the graph.
    pub node_path: Vec<usize>,
    /// The param's index within the def's `params`.
    pub index: usize,
}

impl View for ParamBinding {
    type V = (Seq<usize>, usize);

    open spec fn view(&self) -> (Seq<usize>, usize) {
        (self.node_path@, self.index)
    }
}

/// Records a monitor node's `ScopeOut` unit, so that a live scope stream can be
/// cued for it and its samples routed into the node's ring-buffer state.
#[derive(Clone, Debug)]
pub struct ScopeOutBinding {
    /// The monitor node's path within the graph.
    pub node_path: Vec<usize>,
    /// The ring-buffer length in frames.
    pub size: usize,
    /// The number of interleaved channels the unit streams.
    pub channels: usize,
    /// The index within the def's `units` of the `ScopeOut`, whose input 0 is
    /// the placeholder of the cued stream index.
    pub scope_unit: usize,
}

/// What a [`ScopeOutBinding`] denotes.
#[verifier::ext_equal]
pub struct MonitorView {
    pub node_path: Seq<usize>,
    pub size: usize,
    pub channels: usize,
    pub scope_unit: usize,
}

impl View for ScopeOutBinding {
    type V = MonitorView;

    open spec fn view(&self) -> MonitorView {
        MonitorView {
            node_path: self.node_path@,
            size: self.size,
            channels: self.channels,
            scope_unit: self.scope_unit,
        }
    }
}

/// A param that gates a def's whole output, through which a crossfaded
/// replacement fades.
#[derive(Clone, Debug)]
pub struct GainRef {
    /// The path of the node the gain belongs to.
    pub node_path: Vec<usize>,
    /// The param's index within the def's `params`.
    pub param: usize,
}

impl View for GainRef {
    type V = (Seq<usize>, usize);

    open spec fn view(&self) -> (Seq<usize>, usize) {
        (self.node_path@, self.param)
    }
}

/// A channel group: what one dsp port carries.
#[derive(Debug)]
pub struct Signal(pub Vec<InputRef>);

impl View for Signal {
    type V = Seq<InputRef>;

    open spec fn view(&self) -> Seq<InputRef> {
        self.0@
    }
}

/// The channel group of `n` silent channels.
pub open spec fn silence(n: nat) -> Seq<InputRef> {
    Seq::new(n, |i: int| InputRef::Constant(ZERO))
}

/// The channels of every group, one group after the other.
pub open spec fn concat(groups: Seq<Seq<InputRef>>) -> Seq<InputRef>
    decreases groups.len(),
{
    if groups.len() == 0 {
        Seq::empty()
    } else {
        concat(groups.drop_last()) + groups.last()
    }
}

impl Signal {
    /// A group of one channel.
    pub fn mono(channel: InputRef) -> (r: Self)
        ensures
            r@ == seq![channel],
    {
        let r = Signal(vec![channel]);
        assert(r@ =~= seq![channel]);
        r
    }

    /// `n` channels of silence.
    pub fn silent(n: usize) -> (r: Self)
        ensures
            r@ == silence(n as nat),
    {
        let mut v: Vec<InputRef> = Vec::new();
        let mut i: usize = 0;
        while i < n
            invariant
                i <= n,
                v@ =~= silence(i as nat),
            decreases n - i,
        {
            v.push(InputRef::Constant(ZERO));
            i = i + 1;
        }
        Signal(v)
    }

    /// The number of channels.
    pub fn width(&self) -> (r: usize)
        ensures
            r == self@.len(),
    {
        self.0.len()
    }

    /// Channel `i`, if the group is that wide.
    pub fn channel(&self, i: usize) -> (r: Option<InputRef>)
        ensures
            r == (if i < self@.len() {
                Some(self@[i as int])
            } else {
                None
            }),
    {
        if i < self.0.len() {
            Some(self.0[i])
        } else {
            None
        }
    }

    /// A group of the same channels.
    pub fn dup(&self) -> (r: Self)
        ensures
            r@ == self@,
    {
        Signal(dup_refs(&self.0))
    }
}

/// A copy of a list of references.
pub fn dup_refs(v: &Vec<InputRef>) -> (r: Vec<InputRef>)
    ensures
        r@ == v@,
{
    let mut r: Vec<InputRef> = Vec::new();
    let mut i: usize = 0;
    while i < v.len()
        invariant
            i <= v@.len(),
            r@ =~= v@.take(i as int),
        decreases v@.len() - i,
    {
        r.push(v[i]);
        i = i + 1;
    }
    assert(v@.take(i as int) =~= v@);
    r
}

/// A copy of a path.
pub fn dup_path(v: &Vec<usize>) -> (r: Vec<usize>)
    ensures
        r@ == v@,
{
    let mut r: Vec<usize> = Vec::new();
    let mut i: usize = 0;
    while i < v.len()
        invariant
            i <= v@.len(),
            r@ =~= v@.take(i as int),
        decreases v@.len() - i,
    {
        r.push(v[i]);
        i = i + 1;
    }
    assert(v@.take(i as int) =~= v@);
    r
}

/// What a [`DspBuilder`] has accumulated.
#[verifier::ext_equal]
pub struct BuilderView {
    pub units: Seq<UnitView>,
    pub params: Seq<ParamView>,
    pub bindings: Seq<(Seq<usize>, usize)>,
    pub monitors: Seq<MonitorView>,
    pub gains: Seq<(Seq<usize>, usize)>,
    pub out_channels: nat,
}

impl BuilderView {
    /// The builder before anything was emitted.
    pub open spec fn empty(out_channels: nat) -> BuilderView {
        BuilderView {
            units: Seq::empty(),
            params: Seq::empty(),
            bindings: Seq::empty(),
            monitors: Seq::empty(),
            gains: Seq::empty(),
            out_channels: if out_channels == 0 {
                1
            } else {
                out_channels
            },
        }
    }

    /// With one more unit.
    pub open spec fn with_unit(self, u: UnitView) -> BuilderView {
        BuilderView { units: self.units.push(u), ..self }
    }

    /// With one more param.
    pub open spec fn with_param(self, p: ParamView) -> BuilderView {
        BuilderView { params: self.params.push(p), ..self }
    }

    /// With one more param, bound to the state of the node at `path`.
    pub open spec fn with_bound_param(self, path: Seq<usize>, p: ParamView) -> BuilderView {
        BuilderView {
            params: self.params.push(p),
            bindings: self.bindings.push((path, self.params.len() as usize)),
            ..self
        }
    }

    /// With one more monitor.
    pub open spec fn with_monitor(self, m: MonitorView) -> BuilderView {
        BuilderView { monitors: self.monitors.push(m), ..self }
    }

    /// With `param` recorded as a gain of the node at `path`.
    pub open spec fn with_gain(self, path: Seq<usize>, param: usize) -> BuilderView {
        BuilderView { gains: self.gains.push((path, param)), ..self }
    }

    /// The rate of what `r` refers to.
    pub open spec fn rate_of(self, r: InputRef) -> Rate {
        match r {
            InputRef::Constant(_) => Rate::Scalar,
            InputRef::Param(p) => if p < self.params.len() {
                self.params[p as int].rate
            } else {
                Rate::Control
            },
            InputRef::Unit { unit, output: _ } => if unit < self.units.len() {
                self.units[unit as int].rate
            } else {
                Rate::Control
            },
        }
    }

    /// A reference to output 0 of the last unit.
    pub open spec fn last_unit(self) -> InputRef {
        InputRef::Unit { unit: (self.units.len() - 1) as usize, output: 0 }
    }
}

/// Accumulates the units and params of a synth definition as nodes emit them.
#[derive(Debug)]
pub struct DspBuilder {
    units: Vec<UnitSpec>,
    params: Vec<Param>,
    bindings: Vec<ParamBinding>,
    monitors: Vec<ScopeOutBinding>,
    gains: Vec<GainRef>,
    out_channels: usize,
}

impl View for DspBuilder {
    type V = BuilderView;

    closed spec fn view(&self) -> BuilderView {
        BuilderView {
            units: self.units@.map_values(|u: UnitSpec| u@),
            params: self.params@.map_values(|p: Param| p@),
            bindings: self.bindings@.map_values(|b: ParamBinding| b@),
            monitors: self.monitors@.map_values(|m: ScopeOutBinding| m@),
            gains: self.gains@.map_values(|g: GainRef| g@),
            out_channels: self.out_channels as nat,
        }
    }
}

/// The parts of a finished builder: the def and its bindings.
#[derive(Debug)]
pub struct Derived {
    /// The compiled synth definition.
    pub def: SynthDef,
    /// One binding per control param that follows a node's state.
    pub params: Vec<ParamBinding>,
    /// One binding per monitor, in the order they were emitted.
    pub monitors: Vec<ScopeOutBinding>,
    /// The params that gate the def's whole output.
    pub gains: Vec<GainRef>,
}

/// What a [`Derived`] denotes.
#[verifier::ext_equal]
pub struct DerivedView {
    pub def: DefView,
    pub params: Seq<(Seq<usize>, usize)>,
    pub monitors: Seq<MonitorView>,
    pub gains: Seq<(Seq<usize>, usize)>,
}

impl View for Derived {
    type V = DerivedView;

    open spec fn view(&self) -> DerivedView {
        DerivedView {
            def: self.def@,
            params: self.params@.map_values(|b: ParamBinding| b@),
            monitors: self.monitors@.map_values(|m: ScopeOutBinding| m@),
            gains: self.gains@.map_values(|g: GainRef| g@),
        }
    }
}

/// What finishing a builder under a name gives.
pub open spec fn finished(b: BuilderView, name: Seq<char>) -> DerivedView {
    DerivedView {
        def: DefView { name, params: b.params, units: b.units },
        params: b.bindings,
        monitors: b.monitors,
        gains: b.gains,
    }
}

impl DerivedView {
    /// Whether every unit can be computed from the units before it and the params, and
    /// every binding is to something in the definition.
    pub open spec fn sound(self) -> bool {
        (BuilderView {
            units: self.def.units,
            params: self.def.params,
            bindings: self.params,
            monitors: self.monitors,
            gains: self.gains,
            out_channels: 1,
        }).sound()
    }
}

/// A no-lag control param at `0.0`.
pub open spec fn control_param(name: Seq<char>) -> ParamView {
    ParamView { name, default: ZERO, rate: Rate::Control, is_trig: false, lag: None }
}

/// The fade gain of the node at `path`: a smoothed control param at `1.0`.
pub open spec fn fade_param(path: Seq<usize>) -> ParamView {
    ParamView {
        name: param::name_of(path, "fade"@),
        default: ONE,
        rate: Rate::Control,
        is_trig: false,
        lag: Some(FADE_LAG),
    }
}

/// Lifting `r` to audio rate: what has that rate stays, all else goes through a
/// `K2A` unit.
pub open spec fn lifted(b: BuilderView, r: InputRef) -> (BuilderView, InputRef) {
    if b.rate_of(r) == Rate::Audio {
        (b, r)
    } else {
        let b1 = b.with_unit(unit("K2A"@, Rate::Audio, seq![r], 1));
        (b1, b1.last_unit())
    }
}

impl DspBuilder {
    /// A new, empty builder for `out_channels` output-bus channels, at least one.
    pub fn new(out_channels: usize) -> (r: Self)
        ensures
            r@ == BuilderView::empty(out_channels as nat),
    {
        let r = DspBuilder {
            units: Vec::new(),
            params: Vec::new(),
            bindings: Vec::new(),
            monitors: Vec::new(),
            gains: Vec::new(),
            out_channels: if out_channels == 0 {
                1
            } else {
                out_channels
            },
        };
        assert(r@ =~= BuilderView::empty(out_channels as nat));
        r
    }

    /// Pushes a unit, returning its index for [`InputRef::Unit`].
    pub fn push_unit(&mut self, spec: UnitSpec) -> (ix: usize)
        ensures
            final(self)@ == old(self)@.with_unit(spec@),
            ix == old(self)@.units.len(),
    {
        let ix: usize = self.units.len();
        self.units.push(spec);
        assert(self@ =~= old(self)@.with_unit(spec@));
        ix
    }

    /// Declares a control param of the dsp node at `path`, returning its index
    /// for [`InputRef::Param`] and recording its [`ParamBinding`].
    pub fn push_param(&mut self, path: &Vec<usize>, param: Param) -> (ix: usize)
        ensures
            final(self)@ == old(self)@.with_bound_param(path@, param@),
            ix == old(self)@.params.len(),
    {
        let index: usize = self.params.len();
        self.params.push(param);
        self.bindings.push(ParamBinding { node_path: dup_path(path), index });
        assert(self@ =~= old(self)@.with_bound_param(path@, param@));
        index
    }

    /// Declares a no-lag control param that no node's state drives, named
    /// `label` under the node at `path`.
    pub fn push_control_param(&mut self, path: &Vec<usize>, label: &str) -> (ix: usize)
        ensures
            final(self)@ == old(self)@.with_param(control_param(param::name_of(path@, label@))),
            ix == old(self)@.params.len(),
    {
        let index: usize = self.params.len();
        let name = param::param_name(path, label);
        let ghost view = control_param(name@);
        self.params.push(
            Param { name, default: ZERO, rate: Rate::Control, is_trig: false, lag: None },
        );
        assert(self@ =~= old(self)@.with_param(view));
        index
    }

    /// Declares the fade gain of the node at `path` and records it as a gain.
    pub fn push_fade_gain(&mut self, path: &Vec<usize>) -> (ix: usize)
        ensures
            final(self)@ == old(self)@.with_param(fade_param(path@)).with_gain(path@, ix),
            ix == old(self)@.params.len(),
    {
        let index: usize = self.params.len();
        let name = param::param_name(path, "fade");
        self.params.push(
            Param { name, default: ONE, rate: Rate::Control, is_trig: false, lag: Some(FADE_LAG) },
        );
        self.gains.push(GainRef { node_path: dup_path(path), param: index });
        assert(self@ =~= old(self)@.with_param(fade_param(path@)).with_gain(path@, index));
        index
    }

    /// Records `param` as a gain of the node at `path`.
    pub fn push_gain(&mut self, path: &Vec<usize>, param: usize)
        ensures
            final(self)@ == old(self)@.with_gain(path@, param),
    {
        self.gains.push(GainRef { node_path: dup_path(path), param });
        assert(self@ =~= old(self)@.with_gain(path@, param));
    }

    /// Declares a monitor of the dsp node at `path`.
    pub fn push_monitor(&mut self, path: &Vec<usize>, size: usize, channels: usize, scope_unit: usize)
        ensures
            final(self)@ == old(self)@.with_monitor(
                (MonitorView { node_path: path@, size, channels, scope_unit }),
            ),
    {
        self.monitors.push(
            ScopeOutBinding { node_path: dup_path(path), size, channels, scope_unit },
        );
        assert(self@ =~= old(self)@.with_monitor(
            MonitorView { node_path: path@, size, channels, scope_unit },
        ));
    }

    /// The number of output-bus channels that a sink fans its signal across.
    pub fn out_channels(&self) -> (r: usize)
        ensures
            r == self@.out_channels,
    {
        self.out_channels
    }

    /// The rate of what `r` refers to.
    pub fn rate_of(&self, r: InputRef) -> (rate: Rate)
        ensures
            rate == self@.rate_of(r),
    {
        match r {
            InputRef::Constant(_) => Rate::Scalar,
            InputRef::Param(p) => if p < self.params.len() {
                self.params[p].rate
            } else {
                Rate::Control
            },
            InputRef::Unit { unit, output: _ } => if unit < self.units.len() {
                self.units[unit].rate
            } else {
                Rate::Control
            },
        }
    }

    /// Lifts `r` to audio rate.
    pub fn ensure_audio(&mut self, r: InputRef) -> (out: InputRef)
        ensures
            (final(self)@, out) == lifted(old(self)@, r),
    {
        if self.rate_of(r) == Rate::Audio {
            r
        } else {
            let spec = UnitSpec::new("K2A", Rate::Audio, vec![r], 1);
            assert(spec@.inputs =~= seq![r]);
            let unit: usize = self.push_unit(spec);
            InputRef::Unit { unit, output: 0 }
        }
    }

    /// Consumes the builder into a finished def named `name` and its bindings.
    pub fn finish(self, name: String) -> (r: Derived)
        ensures
            r@ == finished(self@, name@),
    {
        let r = Derived {
            def: SynthDef { name, params: self.params, units: self.units },
            params: self.bindings,
            monitors: self.monitors,
            gains: self.gains,
        };
        assert(r@ =~= finished(self@, name@));
        r
    }
}

impl BuilderView {
    /// Whether `r` refers to something that was emitted.
    pub open spec fn knows(self, r: InputRef) -> bool {
        match r {
            InputRef::Constant(_) => true,
            InputRef::Param(p) => p < self.params.len(),
            InputRef::Unit { unit, output } => unit < self.units.len() && output
                < self.units[unit as int].num_outputs,
        }
    }

    /// Whether every channel of a group refers to something that was emitted.
    pub open spec fn knows_all(self, group: Seq<InputRef>) -> bool {
        forall|i: int| 0 <= i < group.len() ==> self.knows(#[trigger] group[i])
    }

    /// Whether every channel of every group refers to something that was emitted.
    pub open spec fn knows_groups(self, groups: Seq<Seq<InputRef>>) -> bool {
        forall|i: int| 0 <= i < groups.len() ==> self.knows_all(#[trigger] groups[i])
    }

    /// Whether what arrives at every input refers to something that was emitted.
    pub open spec fn knows_inputs(self, inputs: Seq<Option<Seq<InputRef>>>) -> bool {
        forall|i: int|
            0 <= i < inputs.len() && #[trigger] inputs[i] is Some ==> self.knows_all(inputs[i]->0)
    }

    /// Whether the units and params can be numbered.
    pub open spec fn fits(self) -> bool {
        self.units.len() <= usize::MAX && self.params.len() <= usize::MAX
    }

    /// Whether input `j` of unit `i` refers to a param that is there or to an output of
    /// an earlier unit.
    pub open spec fn wired(self, i: int, j: int) -> bool {
        match self.units[i].inputs[j] {
            InputRef::Constant(_) => true,
            InputRef::Param(p) => p < self.params.len(),
            InputRef::Unit { unit, output } => unit < i && output
                < self.units[unit as int].num_outputs,
        }
    }

    /// Whether every unit can be computed from the units before it and the params, and
    /// everything that is recorded of the definition is in it.
    pub open spec fn sound(self) -> bool {
        &&& forall|i: int, j: int|
            0 <= i < self.units.len() && 0 <= j < self.units[i].inputs.len() ==> #[trigger]
                self.wired(i, j)
        &&& forall|i: int|
            0 <= i < self.bindings.len() ==> (#[trigger] self.bindings[i]).1 < self.params.len()
        &&& forall|i: int|
            0 <= i < self.gains.len() ==> (#[trigger] self.gains[i]).1 < self.params.len()
        &&& forall|i: int|
            0 <= i < self.monitors.len() ==> self.scoped(#[trigger] self.monitors[i])
    }

    /// Whether a monitor's unit is there, with a first input for the stream's index.
    pub open spec fn scoped(self, m: MonitorView) -> bool {
        m.scope_unit < self.units.len() && self.units[m.scope_unit as int].name == "ScopeOut"@
            && self.units[m.scope_unit as int].inputs.len() > 0
    }

    /// Whether `other` is this builder with more emitted into it.
    pub open spec fn grows_to(self, other: BuilderView) -> bool {
        &&& self.units.is_prefix_of(other.units)
        &&& self.params.is_prefix_of(other.params)
        &&& self.out_channels == other.out_channels
    }
}

/// Growing keeps what is known.
pub proof fn lemma_grows_knows(a: BuilderView, b: BuilderView, group: Seq<InputRef>)
    requires
        a.grows_to(b),
        a.knows_all(group),
    ensures
        b.knows_all(group),
{
    assert forall|i: int| 0 <= i < group.len() implies b.knows(#[trigger] group[i]) by {
        assert(a.knows(group[i]));
    }
}

/// Growing in steps is growing.
pub proof fn lemma_grows_trans(a: BuilderView, b: BuilderView, c: BuilderView)
    requires
        a.grows_to(b),
        b.grows_to(c),
    ensures
        a.grows_to(c),
{
    assert forall|i: int| 0 <= i < a.units.len() implies a.units[i] == c.units[i] by {
        assert(a.units[i] == b.units[i]);
        assert(b.units[i] == c.units[i]);
    }
    assert forall|i: int| 0 <= i < a.params.len() implies a.params[i] == c.params[i] by {
        assert(a.params[i] == b.params[i]);
        assert(b.params[i] == c.params[i]);
    }
}

/// What grows into something that can be numbered can be numbered.
pub proof fn lemma_grows_fits(a: BuilderView, b: BuilderView)
    requires
        a.grows_to(b),
        b.fits(),
    ensures
        a.fits(),
{
}

/// A unit whose inputs are known keeps the builder sound, and its outputs are known.
pub proof fn lemma_with_unit(b: BuilderView, u: UnitView)
    ensures
        b.grows_to(b.with_unit(u)),
        b.with_unit(u).units.len() == b.units.len() + 1,
        b.sound() && b.knows_all(u.inputs) ==> b.with_unit(u).sound(),
        b.with_unit(u).fits() && u.num_outputs > 0 ==> b.with_unit(u).knows(
            b.with_unit(u).last_unit(),
        ),
{
    let c = b.with_unit(u);
    if b.sound() && b.knows_all(u.inputs) {
        assert forall|i: int, j: int|
            0 <= i < c.units.len() && 0 <= j < c.units[i].inputs.len() implies #[trigger]
            c.wired(i, j) by {
            if i < b.units.len() {
                assert(c.units[i] == b.units[i]);
                assert(b.wired(i, j));
            } else {
                assert(b.knows(u.inputs[j]));
            }
        }
        assert forall|i: int| 0 <= i < c.monitors.len() implies c.scoped(
            #[trigger] c.monitors[i],
        ) by {
            assert(b.scoped(b.monitors[i]));
        }
    }
}

/// One more param keeps the builder sound.
pub proof fn lemma_with_param(b: BuilderView, p: ParamView)
    ensures
        b.grows_to(b.with_param(p)),
        b.sound() ==> b.with_param(p).sound(),
        b.with_param(p).fits() ==> b.with_param(p).knows(InputRef::Param(b.params.len() as usize)),
{
    let c = b.with_param(p);
    if b.sound() {
        assert forall|i: int, j: int|
            0 <= i < c.units.len() && 0 <= j < c.units[i].inputs.len() implies #[trigger]
            c.wired(i, j) by {
            assert(b.wired(i, j));
        }
        assert forall|i: int| 0 <= i < c.bindings.len() implies (#[trigger] c.bindings[i]).1
            < c.params.len() by {
            assert(b.bindings[i].1 < b.params.len());
        }
        assert forall|i: int| 0 <= i < c.gains.len() implies (#[trigger] c.gains[i]).1
            < c.params.len() by {
            assert(b.gains[i].1 < b.params.len());
        }
        assert forall|i: int| 0 <= i < c.monitors.len() implies c.scoped(
            #[trigger] c.monitors[i],
        ) by {
            assert(b.scoped(b.monitors[i]));
        }
    }
}

/// One more bound param keeps the builder sound.
pub proof fn lemma_with_bound_param(b: BuilderView, path: Seq<usize>, p: ParamView)
    ensures
        b.grows_to(b.with_bound_param(path, p)),
        b.sound() && b.with_bound_param(path, p).fits() ==> b.with_bound_param(path, p).sound(),
        b.with_bound_param(path, p).fits() ==> b.with_bound_param(path, p).knows(
            InputRef::Param(b.params.len() as usize),
        ),
{
    let c = b.with_bound_param(path, p);
    lemma_with_param(b, p);
    if b.sound() && c.fits() {
        let m = b.with_param(p);
        assert forall|i: int, j: int|
            0 <= i < c.units.len() && 0 <= j < c.units[i].inputs.len() implies #[trigger]
            c.wired(i, j) by {
            assert(m.wired(i, j));
        }
        assert forall|i: int| 0 <= i < c.bindings.len() implies (#[trigger] c.bindings[i]).1
            < c.params.len() by {
            if i < b.bindings.len() {
                assert(c.bindings[i] == b.bindings[i]);
            }
        }
        assert forall|i: int| 0 <= i < c.gains.len() implies (#[trigger] c.gains[i]).1
            < c.params.len() by {
            assert(m.gains[i].1 < m.params.len());
        }
        assert forall|i: int| 0 <= i < c.monitors.len() implies c.scoped(
            #[trigger] c.monitors[i],
        ) by {
            assert(m.scoped(m.monitors[i]));
        }
    }
}

/// A gain that is there keeps the builder sound.
pub proof fn lemma_with_gain(b: BuilderView, path: Seq<usize>, param: usize)
    ensures
        b.grows_to(b.with_gain(path, param)),
        b.sound() && param < b.params.len() ==> b.with_gain(path, param).sound(),
{
    let c = b.with_gain(path, param);
    if b.sound() && param < b.params.len() {
        assert forall|i: int, j: int|
            0 <= i < c.units.len() && 0 <= j < c.units[i].inputs.len() implies #[trigger]
            c.wired(i, j) by {
            assert(b.wired(i, j));
        }
        assert forall|i: int| 0 <= i < c.bindings.len() implies (#[trigger] c.bindings[i]).1
            < c.params.len() by {
            assert(b.bindings[i].1 < b.params.len());
        }
        assert forall|i: int| 0 <= i < c.gains.len() implies (#[trigger] c.gains[i]).1
            < c.params.len() by {
            if i < b.gains.len() {
                assert(c.gains[i] == b.gains[i]);
            }
        }
        assert forall|i: int| 0 <= i < c.monitors.len() implies c.scoped(
            #[trigger] c.monitors[i],
        ) by {
            assert(b.scoped(b.monitors[i]));
        }
    }
}

/// A monitor whose unit is there keeps the builder sound.
pub proof fn lemma_with_monitor(b: BuilderView, m: MonitorView)
    ensures
        b.grows_to(b.with_monitor(m)),
        b.sound() && b.scoped(m) ==> b.with_monitor(m).sound(),
{
    let c = b.with_monitor(m);
    if b.sound() && b.scoped(m) {
        assert forall|i: int, j: int|
            0 <= i < c.units.len() && 0 <= j < c.units[i].inputs.len() implies #[trigger]
            c.wired(i, j) by {
            assert(b.wired(i, j));
        }
        assert forall|i: int| 0 <= i < c.bindings.len() implies (#[trigger] c.bindings[i]).1
            < c.params.len() by {
            assert(b.bindings[i].1 < b.params.len());
        }
        assert forall|i: int| 0 <= i < c.gains.len() implies (#[trigger] c.gains[i]).1
            < c.params.len() by {
            assert(b.gains[i].1 < b.params.len());
        }
        assert forall|i: int| 0 <= i < c.monitors.len() implies c.scoped(
            #[trigger] c.monitors[i],
        ) by {
            if i < b.monitors.len() {
                assert(c.monitors[i] == b.monitors[i]);
                assert(b.scoped(b.monitors[i]));
            }
        }
    }
}

/// Known groups are known one after the other.
pub proof fn lemma_concat_known(b: BuilderView, groups: Seq<Seq<InputRef>>)
    requires
        b.knows_groups(groups),
    ensures
        b.knows_all(concat(groups)),
    decreases groups.len(),
{
    if groups.len() > 0 {
        let init = groups.drop_last();
        assert forall|i: int| 0 <= i < init.len() implies b.knows_all(#[trigger] init[i]) by {
            assert(b.knows_all(groups[i]));
        }
        lemma_concat_known(b, init);
        let c = concat(init);
        let last = groups.last();
        assert(b.knows_all(groups[groups.len() - 1]));
        let all = concat(groups);
        assert forall|i: int| 0 <= i < all.len() implies b.knows(#[trigger] all[i]) by {
            if i < c.len() {
                assert(all[i] == c[i]);
            } else {
                assert(all[i] == last[i - c.len()]);
            }
        }
    }
}

/// What is finished is as sound as the builder was.
pub proof fn lemma_finished_sound(b: BuilderView, name: Seq<char>)
    requires
        b.sound(),
    ensures
        finished(b, name).sound(),
{
    let c = BuilderView { out_channels: 1, ..b };
    assert forall|i: int, j: int|
        0 <= i < c.units.len() && 0 <= j < c.units[i].inputs.len() implies #[trigger]
        c.wired(i, j) by {
        assert(b.wired(i, j));
    }
    assert forall|i: int| 0 <= i < c.monitors.len() implies c.scoped(#[trigger] c.monitors[i]) by {
        assert(b.scoped(b.monitors[i]));
    }
    assert(c.sound());
}

/// A finished definition is held in memory, so its builder could be numbered.
pub proof fn lemma_derived_fits(d: Derived)
    ensures
        d@.def.units.len() <= usize::MAX,
        d@.def.params.len() <= usize::MAX,
{
    assert(d.def.units.len() <= usize::MAX);
    assert(d.def.params.len() <= usize::MAX);
}

/// A finished definition is what was built: all of its units and params in their order,
/// and every binding, monitor and gain.
pub proof fn law_definition_is_what_was_built(b: BuilderView, name: Seq<char>)
    ensures
        ({
            let d = finished(b, name);
            &&& d.def.name == name
            &&& d.def.units == b.units
            &&& d.def.params == b.params
            &&& d.params == b.bindings
            &&& d.monitors == b.monitors
            &&& d.gains == b.gains
        }),
{
}

/// What is added to a builder comes after all that was there, and nothing else changes.
pub proof fn law_builder_adds_at_the_end(
    b: BuilderView,
    u: UnitView,
    p: ParamView,
    path: Seq<usize>,
    m: MonitorView,
    param: usize,
)
    ensures
        b.with_unit(u) == (BuilderView { units: b.units + seq![u], ..b }),
        b.with_param(p) == (BuilderView { params: b.params + seq![p], ..b }),
        b.with_bound_param(path, p) == (BuilderView {
            params: b.params + seq![p],
            bindings: b.bindings + seq![(path, b.params.len() as usize)],
            ..b
        }),
        b.with_monitor(m) == (BuilderView { monitors: b.monitors + seq![m], ..b }),
        b.with_gain(path, param) == (BuilderView { gains: b.gains + seq![(path, param)], ..b }),
{
    assert(b.units.push(u) =~= b.units + seq![u]);
    assert(b.params.push(p) =~= b.params + seq![p]);
    assert(b.bindings.push((path, b.params.len() as usize)) =~= b.bindings + seq![
        (path, b.params.len() as usize),
    ]);
    assert(b.monitors.push(m) =~= b.monitors + seq![m]);
    assert(b.gains.push((path, param)) =~= b.gains + seq![(path, param)]);
}

/// A fade starts at full level and moves smoothly, at control rate, under its own node's
/// name.
pub proof fn law_fade_starts_at_full_level(path: Seq<usize>)
    ensures
        fade_param(path).default == ONE,
        fade_param(path).rate is Control,
        !fade_param(path).is_trig,
        fade_param(path).lag is Some && float_positive(fade_param(path).lag->0),
        fade_param(path).name == param::name_of(path, "fade"@),
{
}

/// What is lifted runs at audio rate: a signal that does already is passed on as it is, and
/// any other goes through one unit more, which takes it alone.
pub proof fn law_lifted_signals_run_at_audio_rate(b: BuilderView, r: InputRef)
    requires
        b.units.len() < usize::MAX,
    ensures
        ({
            let (c, x) = lifted(b, r);
            &&& c.rate_of(x) is Audio
            &&& b.rate_of(r) is Audio ==> c == b && x == r
            &&& !(b.rate_of(r) is Audio) ==> {
                &&& c.units.len() == b.units.len() + 1
                &&& c.units.drop_last() == b.units
                &&& c.units.last().inputs == seq![r]
                &&& x == InputRef::Unit { unit: b.units.len() as usize, output: 0 }
            }
        }),
{
    let (c, x) = lifted(b, r);
    if !(b.rate_of(r) is Audio) {
        assert(c.units.drop_last() =~= b.units);
    }
}

} // verus!
