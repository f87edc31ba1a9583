//! The audio driver's decisions: which synths run for the open heads, which scope
//! streams are cued for their monitors, and which control values are sent to them.
//!
//! The engine itself is driven from outside. What is to be done to it comes out as
//! actions, and what came of them goes back in.

use crate::compile::{self, DeriveError};
use crate::dsp::{self, Derived, DerivedView, Float, InputRef, MonitorView, ScopeOutBinding};
use crate::edge::Edge;
use crate::flow;
use crate::graph::{Graph, GraphAddr};
use crate::node::ToNodeDsp;
use crate::order::Key;
use crate::set::KeySet;
use crate::sig;
use crate::table::{self, Table};
use crate::text;
use vstd::prelude::*;
use vstd::string::*;

verus! {

impl Key for u64 {
    open spec fn precedes(a: u64, b: u64) -> bool {
        a < b
    }

    proof fn lemma_irreflexive(a: u64) {
    }

    proof fn lemma_transitive(a: u64, b: u64, c: u64) {
    }

    proof fn lemma_total(a: u64, b: u64) {
    }

    fn before(&self, other: &Self) -> (r: bool) {
        *self < *other
    }

    fn same(&self, other: &Self) -> (r: bool) {
        *self == *other
    }

    fn dup(&self) -> (r: Self) {
        *self
    }
}

/// Hands out indices of scope streams, those that were returned first.
#[derive(Debug)]
pub struct ScopeAlloc {
    free: Vec<usize>,
    next: usize,
}

/// What a [`ScopeAlloc`] denotes.
#[verifier::ext_equal]
pub struct AllocView {
    /// The indices that were returned, the latest last.
    pub free: Seq<usize>,
    /// The lowest index that was never handed out.
    pub next: usize,
}

impl AllocView {
    /// Whether an index is handed out.
    pub open spec fn in_use(self, ix: usize) -> bool {
        ix < self.next && !self.free.contains(ix)
    }

    /// Whether the indices that were returned had been handed out, each once.
    pub open spec fn wf(self) -> bool {
        &&& self.free.no_duplicates()
        &&& forall|i: int| 0 <= i < self.free.len() ==> #[trigger] self.free[i] < self.next
    }

    /// Whether there is an index to hand out.
    pub open spec fn has_room(self) -> bool {
        self.free.len() > 0 || self.next < usize::MAX
    }

    /// The index handed out next.
    pub open spec fn offered(self) -> usize {
        if self.free.len() > 0 {
            self.free.last()
        } else {
            self.next
        }
    }

    /// With an index handed out.
    pub open spec fn allocated(self) -> AllocView {
        if self.free.len() > 0 {
            AllocView { free: self.free.drop_last(), ..self }
        } else {
            AllocView { next: (self.next + 1) as usize, ..self }
        }
    }

    /// With an index returned.
    pub open spec fn freed(self, ix: usize) -> AllocView {
        AllocView { free: self.free.push(ix), ..self }
    }
}

impl View for ScopeAlloc {
    type V = AllocView;

    closed spec fn view(&self) -> AllocView {
        AllocView { free: self.free@, next: self.next }
    }
}

/// An index that is handed out was not in use, and is in use from then on; one that is
/// returned is the next to be handed out. No other index changes.
pub proof fn law_indices_are_handed_out_once(a: AllocView, ix: usize)
    requires
        a.wf(),
        a.has_room(),
    ensures
        !a.in_use(a.offered()),
        a.allocated().wf(),
        forall|j: usize| #[trigger]
            a.allocated().in_use(j) <==> a.in_use(j) || j == a.offered(),
        a.in_use(ix) ==> a.freed(ix).wf() && a.freed(ix).offered() == ix && forall|j: usize|
         #[trigger] a.freed(ix).in_use(j) <==> a.in_use(j) && j != ix,
{
    let b = a.allocated();
    if a.free.len() > 0 {
        let last = a.free.last();
        assert(a.free[a.free.len() - 1] == last);
        assert(a.free.contains(last));
        assert forall|i: int| 0 <= i < b.free.len() implies #[trigger] b.free[i] < b.next by {
            assert(b.free[i] == a.free[i]);
        }
        assert(b.free.no_duplicates()) by {
            assert forall|i: int, j: int|
                0 <= i < b.free.len() && 0 <= j < b.free.len() && i != j implies b.free[i]
                != b.free[j] by {
                assert(b.free[i] == a.free[i] && b.free[j] == a.free[j]);
            }
        }
        assert forall|j: usize| b.free.contains(j) == (a.free.contains(j) && j != last) by {
            if b.free.contains(j) {
                let k = choose|k: int| 0 <= k < b.free.len() && b.free[k] == j;
                assert(a.free[k] == j);
            }
            if a.free.contains(j) && j != last {
                let k = choose|k: int| 0 <= k < a.free.len() && a.free[k] == j;
                assert(b.free[k] == j);
            }
        }
    } else {
        assert forall|i: int| 0 <= i < b.free.len() implies #[trigger] b.free[i] < b.next by {}
    }
    if a.in_use(ix) {
        let c = a.freed(ix);
        assert forall|i: int| 0 <= i < c.free.len() implies #[trigger] c.free[i] < c.next by {
            if i < a.free.len() {
                assert(c.free[i] == a.free[i]);
            }
        }
        assert(c.free.no_duplicates()) by {
            assert forall|i: int, j: int|
                0 <= i < c.free.len() && 0 <= j < c.free.len() && i != j implies c.free[i]
                != c.free[j] by {
                if i < a.free.len() {
                    assert(a.free.contains(a.free[i]));
                }
                if j < a.free.len() {
                    assert(a.free.contains(a.free[j]));
                }
            }
        }
        assert forall|j: usize| c.free.contains(j) == (a.free.contains(j) || j == ix) by {
            if c.free.contains(j) {
                let k = choose|k: int| 0 <= k < c.free.len() && c.free[k] == j;
                if k < a.free.len() {
                    assert(a.free[k] == j);
                }
            }
            if a.free.contains(j) {
                let k = choose|k: int| 0 <= k < a.free.len() && a.free[k] == j;
                assert(c.free[k] == j);
            }
            assert(c.free[a.free.len() as int] == ix);
        }
    }
}

impl ScopeAlloc {
    /// No index handed out.
    pub fn new() -> (r: Self)
        ensures
            r@ == (AllocView { free: Seq::empty(), next: 0 }),
            r@.wf(),
    {
        ScopeAlloc { free: Vec::new(), next: 0 }
    }

    /// Whether an index is left to hand out.
    pub fn is_room(&self) -> (r: bool)
        ensures
            r == self@.has_room(),
    {
        self.free.len() > 0 || self.next < usize::MAX
    }

    /// A free index: the one returned last, or else a fresh one.
    pub fn hand_out(&mut self) -> (ix: usize)
        requires
            old(self)@.has_room(),
        ensures
            ix == old(self)@.offered(),
            final(self)@ == old(self)@.allocated(),
    {
        match self.free.pop() {
            Some(ix) => {
                assert(self@ =~= old(self)@.allocated());
                ix
            },
            None => {
                let ix: usize = self.next;
                self.next = self.next + 1;
                assert(self@ =~= old(self)@.allocated());
                ix
            },
        }
    }

    /// Returns an index for reuse.
    pub fn free(&mut self, ix: usize)
        ensures
            final(self)@ == old(self)@.freed(ix),
    {
        self.free.push(ix);
        assert(self@ =~= old(self)@.freed(ix));
    }
}

/// A control param of a running synth, and the node whose state drives it.
#[derive(Debug)]
pub struct ParamSlot {
    /// The node's path in the graph.
    pub node_path: Vec<usize>,
    /// The param's index within the synth.
    pub index: usize,
    /// The value last sent.
    pub last: Option<Float>,
}

/// What a [`ParamSlot`] denotes.
#[verifier::ext_equal]
pub struct SlotView {
    pub node_path: Seq<usize>,
    pub index: usize,
    pub last: Option<Float>,
}

impl View for ParamSlot {
    type V = SlotView;

    open spec fn view(&self) -> SlotView {
        SlotView { node_path: self.node_path@, index: self.index, last: self.last }
    }
}

/// The scope stream that is cued for a monitor.
#[derive(Debug)]
pub struct ScopeSlot {
    /// The monitor's path in the graph.
    pub node_path: Vec<usize>,
    /// The length of each of its rings, in frames.
    pub size: usize,
    /// The number of interleaved channels.
    pub channels: usize,
    /// The index of the stream.
    pub index: usize,
}

/// What a [`ScopeSlot`] denotes.
#[verifier::ext_equal]
pub struct ScopeView {
    pub node_path: Seq<usize>,
    pub size: usize,
    pub channels: usize,
    pub index: usize,
}

impl View for ScopeSlot {
    type V = ScopeView;

    open spec fn view(&self) -> ScopeView {
        ScopeView {
            node_path: self.node_path@,
            size: self.size,
            channels: self.channels,
            index: self.index,
        }
    }
}

/// What a list of scope streams denotes.
pub open spec fn scope_views(s: Seq<ScopeSlot>) -> Seq<ScopeView> {
    s.map_values(|x: ScopeSlot| x@)
}

/// What a list of params denotes.
pub open spec fn slot_views(s: Seq<ParamSlot>) -> Seq<SlotView> {
    s.map_values(|x: ParamSlot| x@)
}

/// The synth that runs for an open head.
#[derive(Debug)]
pub struct HeadSynth {
    /// The graph that it was derived from.
    pub graph: GraphAddr,
    pub def_name: String,
    pub node_id: i32,
    /// The signature of its definition.
    pub sig: u64,
    pub params: Vec<ParamSlot>,
    pub scopes: Vec<ScopeSlot>,
}

/// What a [`HeadSynth`] denotes.
#[verifier::ext_equal]
pub struct SynthView {
    pub graph: GraphAddr,
    pub def_name: Seq<char>,
    pub node_id: i32,
    pub sig: u64,
    pub params: Seq<SlotView>,
    pub scopes: Seq<ScopeView>,
}

impl View for HeadSynth {
    type V = SynthView;

    open spec fn view(&self) -> SynthView {
        SynthView {
            graph: self.graph,
            def_name: self.def_name@,
            node_id: self.node_id,
            sig: self.sig,
            params: slot_views(self.params@),
            scopes: scope_views(self.scopes@),
        }
    }
}

/// Something to be done to the engine.
#[derive(Debug)]
pub enum Action {
    FreeNode(i32),
    FreeSynthdef(String),
    /// Closes a scope stream.
    CloseScope(usize),
}

/// What an [`Action`] denotes.
pub enum ActionView {
    FreeNode(i32),
    FreeSynthdef(Seq<char>),
    CloseScope(usize),
}

impl View for Action {
    type V = ActionView;

    open spec fn view(&self) -> ActionView {
        match self {
            Action::FreeNode(id) => ActionView::FreeNode(*id),
            Action::FreeSynthdef(name) => ActionView::FreeSynthdef(name@),
            Action::CloseScope(ix) => ActionView::CloseScope(*ix),
        }
    }
}

/// What a list of actions denotes.
pub open spec fn action_views(s: Seq<Action>) -> Seq<ActionView> {
    s.map_values(|a: Action| a@)
}

/// Closing scope streams.
pub open spec fn closing(scopes: Seq<ScopeView>) -> Seq<ActionView> {
    scopes.map_values(|s: ScopeView| ActionView::CloseScope(s.index))
}

/// Freeing a synth, its definition and its scope streams.
pub open spec fn torn_down(s: SynthView) -> Seq<ActionView> {
    seq![ActionView::FreeNode(s.node_id), ActionView::FreeSynthdef(s.def_name)] + closing(s.scopes)
}

/// With the indices of scope streams returned.
pub open spec fn all_freed(a: AllocView, scopes: Seq<ScopeView>) -> AllocView
    decreases scopes.len(),
{
    if scopes.len() == 0 {
        a
    } else {
        all_freed(a, scopes.drop_last()).freed(scopes.last().index)
    }
}

/// The synths by head, and the indices of their scope streams.
#[derive(Debug)]
pub struct Driver {
    pub synths: Table<u64, HeadSynth>,
    pub alloc: ScopeAlloc,
}

/// What a [`Driver`] denotes.
#[verifier::ext_equal]
pub struct DriverView {
    pub synths: Map<u64, SynthView>,
    pub alloc: AllocView,
}

impl View for Driver {
    type V = DriverView;

    open spec fn view(&self) -> DriverView {
        DriverView { synths: table::views(self.synths@), alloc: self.alloc@ }
    }
}

impl DriverView {
    /// Whether stream `i` of the synth of `e` has the index `ix`.
    pub open spec fn streams(self, e: u64, i: int, ix: usize) -> bool {
        self.synths.contains_key(e) && 0 <= i < self.synths[e].scopes.len()
            && self.synths[e].scopes[i].index == ix
    }

    /// Whether the indices in use are those of the cued streams, each for one of them:
    /// those of the synths, and those of a synth still to be spawned.
    pub open spec fn wf(self, cued: Seq<ScopeView>) -> bool {
        &&& self.alloc.wf()
        &&& forall|e: u64, i: int, ix: usize| #[trigger]
            self.streams(e, i, ix) ==> self.alloc.in_use(ix)
        &&& forall|i: int|
            0 <= i < cued.len() ==> self.alloc.in_use((#[trigger] cued[i]).index)
        &&& forall|e: u64, i: int, f: u64, j: int, ix: usize| #[trigger]
            self.streams(e, i, ix) && #[trigger] self.streams(f, j, ix) ==> e == f && i == j
        &&& forall|e: u64, i: int, j: int, ix: usize|
            #![trigger self.streams(e, i, ix), cued[j]]
            self.streams(e, i, ix) && 0 <= j < cued.len() ==> cued[j].index != ix
        &&& forall|i: int, j: int|
            0 <= i < j < cued.len() ==> (#[trigger] cued[i]).index != (#[trigger] cued[j]).index
    }
}

impl DriverView {
    /// No synth running.
    pub open spec fn empty() -> DriverView {
        DriverView {
            synths: Map::empty(),
            alloc: AllocView { free: Seq::empty(), next: 0 },
        }
    }

    /// With the synth of a head gone, if there is one.
    pub open spec fn torn(self, e: u64) -> DriverView {
        if self.synths.contains_key(e) {
            DriverView {
                synths: self.synths.remove(e),
                alloc: all_freed(self.alloc, self.synths[e].scopes),
            }
        } else {
            self
        }
    }

    /// What is to be done for the synth of a head to be gone.
    pub open spec fn tearing(self, e: u64) -> Seq<ActionView> {
        if self.synths.contains_key(e) {
            torn_down(self.synths[e])
        } else {
            Seq::empty()
        }
    }

    /// With the synth of a head kept for another graph of the same structure.
    pub open spec fn kept(self, e: u64, graph: GraphAddr, monitors: Seq<MonitorView>) -> DriverView {
        let s = self.synths[e];
        DriverView {
            synths: self.synths.insert(
                e,
                SynthView { graph, scopes: resized(s.scopes, monitors), ..s },
            ),
            ..self
        }
    }
}

/// The streams with another ring size for the first that belongs to a node.
pub open spec fn resize_first(scopes: Seq<ScopeView>, path: Seq<usize>, size: usize) -> Seq<ScopeView>
    decreases scopes.len(),
{
    if scopes.len() == 0 {
        scopes
    } else if scopes[0].node_path == path {
        scopes.update(0, ScopeView { size, ..scopes[0] })
    } else {
        seq![scopes[0]] + resize_first(scopes.skip(1), path, size)
    }
}

/// The streams with the ring sizes of the monitors.
pub open spec fn resized(scopes: Seq<ScopeView>, monitors: Seq<MonitorView>) -> Seq<ScopeView>
    decreases monitors.len(),
{
    if monitors.len() == 0 {
        scopes
    } else {
        let m = monitors.last();
        resize_first(resized(scopes, monitors.drop_last()), m.node_path, m.size)
    }
}

proof fn lemma_resize_at(scopes: Seq<ScopeView>, path: Seq<usize>, size: usize, i: int)
    requires
        0 <= i < scopes.len(),
        scopes[i].node_path == path,
        forall|j: int| 0 <= j < i ==> (#[trigger] scopes[j]).node_path != path,
    ensures
        resize_first(scopes, path, size) == scopes.update(i, ScopeView { size, ..scopes[i] }),
    decreases i,
{
    if i > 0 {
        let t = scopes.skip(1);
        assert(scopes[0].node_path != path);
        assert forall|j: int| 0 <= j < i - 1 implies (#[trigger] t[j]).node_path != path by {
            assert(t[j] == scopes[j + 1]);
        }
        lemma_resize_at(t, path, size, i - 1);
        assert(resize_first(scopes, path, size) =~= scopes.update(
            i,
            ScopeView { size, ..scopes[i] },
        ));
    }
}

proof fn lemma_resize_none(scopes: Seq<ScopeView>, path: Seq<usize>, size: usize)
    requires
        forall|j: int| 0 <= j < scopes.len() ==> (#[trigger] scopes[j]).node_path != path,
    ensures
        resize_first(scopes, path, size) == scopes,
    decreases scopes.len(),
{
    if scopes.len() > 0 {
        let t = scopes.skip(1);
        assert(scopes[0].node_path != path);
        assert forall|j: int| 0 <= j < t.len() implies (#[trigger] t[j]).node_path != path by {
            assert(t[j] == scopes[j + 1]);
        }
        lemma_resize_none(t, path, size);
        assert(resize_first(scopes, path, size) =~= scopes);
    }
}

/// Whether two paths are the same.
fn same_path(a: &Vec<usize>, b: &Vec<usize>) -> (r: bool)
    ensures
        r == (a@ == b@),
{
    if a.len() != b.len() {
        return false;
    }
    let mut i: usize = 0;
    while i < a.len()
        invariant
            i <= a@.len() == b@.len(),
            forall|j: int| 0 <= j < i ==> a@[j] == b@[j],
        decreases a@.len() - i,
    {
        if a[i] != b[i] {
            return false;
        }
        i = i + 1;
    }
    assert(a@ =~= b@);
    true
}

fn resize(scopes: &mut Vec<ScopeSlot>, m: &ScopeOutBinding)
    ensures
        scope_views(final(scopes)@) == resize_first(
            scope_views(old(scopes)@),
            m@.node_path,
            m@.size,
        ),
{
    let ghost before = scope_views(scopes@);
    let mut i: usize = 0;
    while i < scopes.len()
        invariant
            scopes@ == old(scopes)@,
            before == scope_views(scopes@),
            i <= scopes@.len(),
            forall|j: int| 0 <= j < i ==> (#[trigger] before[j]).node_path != m@.node_path,
        decreases scopes@.len() - i,
    {
        if same_path(&scopes[i].node_path, &m.node_path) {
            let s = &scopes[i];
            let next = ScopeSlot {
                node_path: dsp::dup_path(&s.node_path),
                size: m.size,
                channels: s.channels,
                index: s.index,
            };
            let ghost v = next@;
            proof {
                assert(before[i as int].node_path == m@.node_path);
                lemma_resize_at(before, m@.node_path, m@.size, i as int);
            }
            scopes.set(i, next);
            assert(scope_views(scopes@) =~= before.update(i as int, v));
            return;
        }
        assert(before[i as int].node_path != m@.node_path);
        i = i + 1;
    }
    proof {
        lemma_resize_none(before, m@.node_path, m@.size);
    }
}

/// Returns the indices of scope streams and says that the streams are to be closed.
fn free_scopes(alloc: &mut ScopeAlloc, scopes: &Vec<ScopeSlot>, actions: &mut Vec<Action>)
    ensures
        final(alloc)@ == all_freed(old(alloc)@, scope_views(scopes@)),
        action_views(final(actions)@) == action_views(old(actions)@) + closing(
            scope_views(scopes@),
        ),
{
    let ghost a0 = alloc@;
    let ghost before = action_views(actions@);
    let ghost all = scope_views(scopes@);
    let mut i: usize = 0;
    assert(all.take(0) =~= Seq::empty());
    assert(before =~= before + closing(all.take(0)));
    while i < scopes.len()
        invariant
            all == scope_views(scopes@),
            i <= scopes@.len(),
            alloc@ == all_freed(a0, all.take(i as int)),
            action_views(actions@) == before + closing(all.take(i as int)),
        decreases scopes@.len() - i,
    {
        let ix: usize = scopes[i].index;
        let ghost here = action_views(actions@);
        actions.push(Action::CloseScope(ix));
        alloc.free(ix);
        proof {
            assert(all.take(i + 1).drop_last() =~= all.take(i as int));
            assert(all.take(i + 1).last() == all[i as int]);
            assert(action_views(actions@) =~= here.push(ActionView::CloseScope(ix)));
            assert(closing(all.take(i + 1)) =~= closing(all.take(i as int)).push(
                ActionView::CloseScope(ix),
            ));
            assert(action_views(actions@) =~= before + closing(all.take(i + 1)));
        }
        i = i + 1;
    }
    assert(all.take(i as int) =~= all);
}

/// A synth that is still to be spawned for a head.
#[derive(Debug)]
pub struct Respawn {
    pub entity: u64,
    pub graph: GraphAddr,
    pub def_name: String,
    pub sig: u64,
    pub derived: Derived,
    /// The streams cued so far.
    pub scopes: Vec<ScopeSlot>,
    /// The monitor whose stream is to be cued next.
    pub next: usize,
}

/// What a [`Respawn`] denotes.
#[verifier::ext_equal]
pub struct RespawnView {
    pub entity: u64,
    pub graph: GraphAddr,
    pub def_name: Seq<char>,
    pub sig: u64,
    pub derived: DerivedView,
    pub scopes: Seq<ScopeView>,
    pub next: usize,
}

impl View for Respawn {
    type V = RespawnView;

    open spec fn view(&self) -> RespawnView {
        RespawnView {
            entity: self.entity,
            graph: self.graph,
            def_name: self.def_name@,
            sig: self.sig,
            derived: self.derived@,
            scopes: scope_views(self.scopes@),
            next: self.next,
        }
    }
}

/// The stream to cue next: its index, and how many channels it carries.
#[derive(Clone, Copy, Debug, PartialEq, Eq, Structural)]
pub struct Cue {
    pub index: usize,
    pub channels: usize,
}

/// How many channels a monitor's stream carries.
pub open spec fn stream_channels(m: MonitorView) -> usize {
    if m.channels == 0 {
        1
    } else {
        m.channels
    }
}

/// A definition with a monitor's unit given the index of its stream.
pub open spec fn patched(d: DerivedView, m: MonitorView, bits: Float) -> DerivedView {
    let u = d.def.units[m.scope_unit as int];
    DerivedView {
        def: dsp::DefView {
            units: d.def.units.update(
                m.scope_unit as int,
                dsp::UnitView { inputs: u.inputs.update(0, InputRef::Constant(bits)), ..u },
            ),
            ..d.def
        },
        ..d
    }
}

/// The index of a stream in a definition leaves it sound.
pub proof fn lemma_patched_sound(d: DerivedView, i: int, bits: Float)
    requires
        d.sound(),
        0 <= i < d.monitors.len(),
    ensures
        patched(d, d.monitors[i], bits).sound(),
{
    let m = d.monitors[i];
    let p = patched(d, m, bits);
    let b = dsp::BuilderView {
        units: d.def.units,
        params: d.def.params,
        bindings: d.params,
        monitors: d.monitors,
        gains: d.gains,
        out_channels: 1,
    };
    let c = dsp::BuilderView { units: p.def.units, ..b };
    assert(b.scoped(b.monitors[i]));
    assert forall|j: int, k: int|
        0 <= j < c.units.len() && 0 <= k < c.units[j].inputs.len() implies #[trigger]
        c.wired(j, k) by {
        assert(b.wired(j, k));
    }
    assert forall|j: int| 0 <= j < c.monitors.len() implies c.scoped(#[trigger] c.monitors[j]) by {
        assert(b.scoped(b.monitors[j]));
    }
    assert(c.sound());
}

/// What came of looking at a head's graph.
#[derive(Debug)]
pub enum Step {
    /// Nothing is left but these actions.
    Done(Vec<Action>),
    /// A synth is to be spawned once these actions are done.
    Respawn(Vec<Action>, Respawn),
}

/// The name of the definition of a head.
pub open spec fn head_name(index: u32) -> Seq<char> {
    "gantz-head-"@ + text::dec(index as nat)
}

/// The name of the definition of a head.
pub fn head_def_name(index: u32) -> (r: String)
    ensures
        r@ == head_name(index),
{
    let mut r = String::from_str("gantz-head-");
    r.append(text::dec_text(index as u64).as_str());
    r
}

impl Driver {
    /// No synth running.
    pub fn new() -> (r: Self)
        ensures
            r@ == DriverView::empty(),
    {
        let r = Driver { synths: Table::new(), alloc: ScopeAlloc::new() };
        assert(r@ =~= DriverView::empty());
        r
    }

    /// Whether a head's synth is not that of the given graph.
    pub fn sync_needed(&self, entity: u64, graph: &GraphAddr) -> (r: bool)
        ensures
            r == !(self@.synths.contains_key(entity) && self@.synths[entity].graph == *graph),
    {
        match self.synths.get(&entity) {
            Some(s) => !s.graph.same(graph),
            None => true,
        }
    }

    /// Takes a head's synth out, if there is one, and says how the engine frees it.
    pub fn teardown(&mut self, entity: u64) -> (actions: Vec<Action>)
        ensures
            final(self)@ == old(self)@.torn(entity),
            action_views(actions@) == old(self)@.tearing(entity),
    {
        let ghost before = self@;
        let mut actions: Vec<Action> = Vec::new();
        match self.synths.take(&entity) {
            Some(s) => {
                let ghost v = s@;
                actions.push(Action::FreeNode(s.node_id));
                actions.push(Action::FreeSynthdef(s.def_name));
                free_scopes(&mut self.alloc, &s.scopes, &mut actions);
                proof {
                    assert(before.synths.contains_key(entity) && before.synths[entity] == v);
                    assert(self@.synths =~= before.synths.remove(entity));
                    assert(action_views(actions@) =~= torn_down(v));
                }
            },
            None => {
                proof {
                    assert(!before.synths.contains_key(entity));
                    assert(self@.synths =~= before.synths);
                    assert(action_views(actions@) =~= Seq::<ActionView>::empty());
                }
            },
        }
        assert(self@ =~= before.torn(entity));
        actions
    }

    /// Looks at a head's graph, and at what was derived from it. Without a sink, the
    /// synth goes. With the structure that the running synth has, that synth stays, for
    /// the new graph and with the monitors' ring sizes. Otherwise the synth goes and
    /// another is to be spawned.
    pub fn sync_derived(
        &mut self,
        entity: u64,
        graph: GraphAddr,
        derived: Result<Derived, DeriveError>,
        def_name: String,
    ) -> (r: Step)
        ensures
            match derived {
                Err(_) => final(self)@ == old(self)@.torn(entity) && match r {
                    Step::Done(actions) => action_views(actions@) == old(self)@.tearing(entity),
                    Step::Respawn(..) => false,
                },
                Ok(d) => {
                    let sig = sig::text_hash(sig::def_text(d@.def));
                    if old(self)@.synths.contains_key(entity) && old(self)@.synths[entity].sig
                        == sig {
                        final(self)@ == old(self)@.kept(entity, graph, d@.monitors) && match r {
                            Step::Done(actions) => actions@.len() == 0,
                            Step::Respawn(..) => false,
                        }
                    } else {
                        final(self)@ == old(self)@.torn(entity) && match r {
                            Step::Done(_) => false,
                            Step::Respawn(actions, job) => action_views(actions@) == old(
                                self,
                            )@.tearing(entity) && job@ == (RespawnView {
                                entity,
                                graph,
                                def_name: def_name@,
                                sig,
                                derived: d@,
                                scopes: Seq::empty(),
                                next: 0,
                            }),
                        }
                    }
                },
            },
    {
        let derived = match derived {
            Ok(d) => d,
            Err(_) => {
                return Step::Done(self.teardown(entity));
            },
        };
        let ghost before = self@;
        let sig = sig::structural_sig(&derived.def);
        let same = match self.synths.get(&entity) {
            Some(s) => s.sig == sig,
            None => false,
        };
        if same {
            if let Some(mut s) = self.synths.take(&entity) {
                let ghost v = s@;
                s.graph = graph;
                let ghost all = derived@.monitors;
                let mut i: usize = 0;
                assert(all.take(0) =~= Seq::empty());
                while i < derived.monitors.len()
                    invariant
                        all == derived@.monitors,
                        all.len() == derived.monitors@.len(),
                        i <= all.len(),
                        s@ == (SynthView {
                            graph,
                            scopes: resized(v.scopes, all.take(i as int)),
                            ..v
                        }),
                    decreases all.len() - i,
                {
                    let ghost here = s@;
                    resize(&mut s.scopes, &derived.monitors[i]);
                    proof {
                        assert(all.take(i + 1).drop_last() =~= all.take(i as int));
                        assert(all.take(i + 1).last() == derived.monitors@[i as int]@);
                        assert(s@ =~= SynthView {
                            graph,
                            scopes: resized(v.scopes, all.take(i + 1)),
                            ..v
                        });
                    }
                    i = i + 1;
                }
                assert(all.take(i as int) =~= all);
                let ghost w = s@;
                self.synths.insert(entity, s);
                assert(self@.synths =~= before.synths.insert(entity, w));
                assert(self@ =~= before.kept(entity, graph, all));
            }
            return Step::Done(Vec::new());
        }
        let actions = self.teardown(entity);
        let job = Respawn {
            entity,
            graph,
            def_name,
            sig,
            derived,
            scopes: Vec::new(),
            next: 0,
        };
        assert(job@.scopes =~= Seq::<ScopeView>::empty());
        Step::Respawn(actions, job)
    }

    /// Looks at a head's graph: derives its definition, named by the head's index, and goes
    /// by that. Without a sink, the synth goes. With the structure that the running synth
    /// has, that synth stays, for the new graph and with the monitors' ring sizes.
    /// Otherwise the synth goes and another is to be spawned.
    pub fn structural_sync<N: ToNodeDsp>(
        &mut self,
        entity: u64,
        index: u32,
        addr: GraphAddr,
        graph: &Graph<N, Edge>,
        out_channels: usize,
    ) -> (r: Step)
        requires
            graph.wf(),
        ensures
            if flow::sinks(*graph).len() == 0 {
                final(self)@ == old(self)@.torn(entity) && match r {
                    Step::Done(actions) => action_views(actions@) == old(self)@.tearing(entity),
                    Step::Respawn(..) => false,
                }
            } else {
                let d = compile::definition(*graph, out_channels as nat, head_name(index));
                let sig = sig::text_hash(sig::def_text(d.def));
                if old(self)@.synths.contains_key(entity) && old(self)@.synths[entity].sig == sig {
                    final(self)@ == old(self)@.kept(entity, addr, d.monitors) && match r {
                        Step::Done(actions) => actions@.len() == 0,
                        Step::Respawn(..) => false,
                    }
                } else {
                    final(self)@ == old(self)@.torn(entity) && match r {
                        Step::Done(_) => false,
                        Step::Respawn(actions, job) => action_views(actions@) == old(
                            self,
                        )@.tearing(entity) && job@ == (RespawnView {
                            entity,
                            graph: addr,
                            def_name: head_name(index),
                            sig,
                            derived: d,
                            scopes: Seq::empty(),
                            next: 0,
                        }),
                    }
                }
            },
    {
        let derived = compile::derive_synthdef(graph, out_channels, head_def_name(index));
        self.sync_derived(entity, addr, derived, head_def_name(index))
    }

    /// The stream to cue next for a synth that is to be spawned, if one is left.
    pub fn next_cue(&mut self, job: &Respawn) -> (r: Option<Cue>)
        requires
            old(self)@.alloc.has_room(),
        ensures
            match r {
                Some(c) => job.next < job@.derived.monitors.len() && c == (Cue {
                    index: old(self)@.alloc.offered(),
                    channels: stream_channels(job@.derived.monitors[job.next as int]),
                }) && final(self)@ == (DriverView {
                    alloc: old(self)@.alloc.allocated(),
                    ..old(self)@
                }),
                None => job.next >= job@.derived.monitors.len() && final(self)@ == old(self)@,
            },
    {
        if job.next < job.derived.monitors.len() {
            let m = &job.derived.monitors[job.next];
            let channels: usize = if m.channels == 0 {
                1
            } else {
                m.channels
            };
            let index: usize = self.alloc.hand_out();
            Some(Cue { index, channels })
        } else {
            None
        }
    }

    /// Takes in whether a stream could be cued. Its index, as a float, goes into the
    /// monitor's unit either way; the index of one that could not be cued is returned.
    pub fn cued(&mut self, job: &mut Respawn, cue: Cue, bits: Float, ok: bool)
        requires
            old(job)@.derived.sound(),
            old(job).next < old(job)@.derived.monitors.len(),
        ensures
            final(job)@.derived.sound(),
            ({
                let m = old(job)@.derived.monitors[old(job).next as int];
                &&& final(job)@ == (RespawnView {
                    derived: patched(old(job)@.derived, m, bits),
                    next: (old(job).next + 1) as usize,
                    scopes: if ok {
                        old(job)@.scopes.push(
                            ScopeView {
                                node_path: m.node_path,
                                size: m.size,
                                channels: cue.channels,
                                index: cue.index,
                            },
                        )
                    } else {
                        old(job)@.scopes
                    },
                    ..old(job)@
                })
                &&& final(self)@ == (if ok {
                    old(self)@
                } else {
                    DriverView { alloc: old(self)@.alloc.freed(cue.index), ..old(self)@ }
                })
            }),
    {
        let ghost d0 = job.derived@;
        let ghost units0 = job.derived.def.units@;
        let ghost scopes0 = job.scopes@;
        let at: usize = job.next;
        let n: usize = job.derived.monitors.len();
        assert(d0.monitors.len() == n);
        let ghost m = d0.monitors[at as int];
        proof {
            assert(m == job.derived.monitors@[at as int]@);
            let b = dsp::BuilderView {
                units: d0.def.units,
                params: d0.def.params,
                bindings: d0.params,
                monitors: d0.monitors,
                gains: d0.gains,
                out_channels: 1,
            };
            assert(b.scoped(b.monitors[at as int]));
            lemma_patched_sound(d0, at as int, bits);
        }
        let unit: usize = job.derived.monitors[at].scope_unit;
        let size: usize = job.derived.monitors[at].size;
        let node_path = dsp::dup_path(&job.derived.monitors[at].node_path);
        let old_unit = &job.derived.def.units[unit];
        let mut inputs = dsp::dup_refs(&old_unit.inputs);
        inputs.set(0, InputRef::Constant(bits));
        let next_unit = dsp::UnitSpec {
            name: old_unit.name.clone(),
            rate: old_unit.rate,
            inputs,
            num_outputs: old_unit.num_outputs,
            special_index: old_unit.special_index,
        };
        let ghost uv = next_unit@;
        job.derived.def.units.set(unit, next_unit);
        proof {
            assert(job.derived@.def.units =~= d0.def.units.update(unit as int, uv));
            assert(job.derived@ =~= patched(d0, m, bits));
        }
        if ok {
            let slot = ScopeSlot { node_path, size, channels: cue.channels, index: cue.index };
            let ghost sv = slot@;
            job.scopes.push(slot);
            assert(scope_views(job.scopes@) =~= scope_views(scopes0).push(sv));
        } else {
            self.alloc.free(cue.index);
        }
        job.next = at + 1;
    }

    /// Takes in that the synth was spawned: it runs from now on, with no value sent to
    /// any of its params yet.
    pub fn spawned(&mut self, job: Respawn, node_id: i32)
        ensures
            final(self)@ == (DriverView {
                synths: old(self)@.synths.insert(
                    job.entity,
                    SynthView {
                        graph: job.graph,
                        def_name: job@.def_name,
                        node_id,
                        sig: job.sig,
                        params: fresh_slots(job@.derived.params),
                        scopes: job@.scopes,
                    },
                ),
                ..old(self)@
            }),
    {
        let ghost before = self@;
        let ghost bound = job@.derived.params;
        let mut params: Vec<ParamSlot> = Vec::new();
        let mut i: usize = 0;
        while i < job.derived.params.len()
            invariant
                bound == job@.derived.params,
                bound.len() == job.derived.params@.len(),
                i <= bound.len(),
                slot_views(params@) =~= fresh_slots(bound).take(i as int),
            decreases bound.len() - i,
        {
            let b = &job.derived.params[i];
            let ghost here = params@;
            let slot = ParamSlot {
                node_path: dsp::dup_path(&b.node_path),
                index: b.index,
                last: None,
            };
            let ghost sv = slot@;
            params.push(slot);
            proof {
                assert(bound[i as int] == b@);
                assert(slot_views(params@) =~= slot_views(here).push(sv));
            }
            i = i + 1;
        }
        assert(slot_views(params@) =~= fresh_slots(bound));
        let s = HeadSynth {
            graph: job.graph,
            def_name: job.def_name,
            node_id,
            sig: job.sig,
            params,
            scopes: job.scopes,
        };
        let ghost sv = s@;
        self.synths.insert(job.entity, s);
        assert(self@.synths =~= before.synths.insert(job.entity, sv));
    }

    /// Takes in that the synth could not be spawned, or its definition not installed:
    /// its streams are closed, and the definition is freed where it was installed.
    pub fn abandoned(&mut self, job: Respawn, installed: bool) -> (actions: Vec<Action>)
        ensures
            final(self)@ == (DriverView {
                alloc: all_freed(old(self)@.alloc, job@.scopes),
                ..old(self)@
            }),
            action_views(actions@) == (if installed {
                seq![ActionView::FreeSynthdef(job@.def_name)]
            } else {
                Seq::empty()
            }) + closing(job@.scopes),
    {
        let mut actions: Vec<Action> = Vec::new();
        if installed {
            actions.push(Action::FreeSynthdef(job.def_name));
        }
        let ghost first = action_views(actions@);
        proof {
            if installed {
                assert(first =~= seq![ActionView::FreeSynthdef(job@.def_name)]);
            } else {
                assert(first =~= Seq::<ActionView>::empty());
            }
        }
        free_scopes(&mut self.alloc, &job.scopes, &mut actions);
        actions
    }

    /// The heads with a synth that are no longer open, by number.
    pub fn stale(&self, live: &KeySet<u64>) -> (r: Vec<u64>)
        ensures
            r@ == gone(table::keys_of::<u64, SynthView>(self@.synths), live@),
    {
        let list = self.synths.entries();
        let ghost keys = table::key_views(list@);
        proof {
            assert(self@.synths.dom() =~= self.synths@.dom());
            table::lemma_listed_keys(list@, self.synths@, self@.synths);
        }
        let mut r: Vec<u64> = Vec::new();
        let mut i: usize = 0;
        assert(keys.take(0) =~= Seq::empty());
        while i < list.len()
            invariant
                keys == table::key_views(list@),
                i <= list@.len(),
                r@ == gone(keys.take(i as int), live@),
            decreases list@.len() - i,
        {
            proof {
                assert(keys.take(i + 1).drop_last() =~= keys.take(i as int));
                assert(keys.take(i + 1).last() == list@[i as int].0);
            }
            if !live.contains(&list[i].0) {
                r.push(list[i].0);
            }
            i = i + 1;
        }
        assert(keys.take(i as int) =~= keys);
        r
    }
}

/// The listed heads that are not open.
pub open spec fn gone(keys: Seq<u64>, live: Set<u64>) -> Seq<u64>
    decreases keys.len(),
{
    if keys.len() == 0 {
        Seq::empty()
    } else if live.contains(keys.last()) {
        gone(keys.drop_last(), live)
    } else {
        gone(keys.drop_last(), live).push(keys.last())
    }
}

/// The params of a fresh synth, with no value sent.
pub open spec fn fresh_slots(bound: Seq<(Seq<usize>, usize)>) -> Seq<SlotView> {
    bound.map_values(
        |b: (Seq<usize>, usize)| SlotView { node_path: b.0, index: b.1, last: None },
    )
}

/// A control value to be sent to a running synth.
#[derive(Clone, Copy, Debug, PartialEq, Eq, Structural)]
pub enum Control {
    /// At once.
    Now { index: usize, value: Float },
    /// At a time, as the bits of a double, in seconds.
    At { index: usize, value: Float, time: u64 },
}

/// The updates of a queue, each at its time.
pub open spec fn scheduled(index: usize, pending: Seq<(u64, Float)>) -> Seq<Control> {
    pending.map_values(|p: (u64, Float)| Control::At { index, value: p.1, time: p.0 })
}

/// What is sent for a param: its queue, each update at its time; or, where nothing is
/// queued, its value, if that is not the value last sent.
pub open spec fn sent(slot: SlotView, value: Float, pending: Seq<(u64, Float)>) -> Seq<Control> {
    if pending.len() > 0 {
        scheduled(slot.index, pending)
    } else if slot.last == Some(value) {
        Seq::empty()
    } else {
        seq![Control::Now { index: slot.index, value }]
    }
}

/// Decides what is sent for a param, given its current value and its queue, and
/// remembers the value as the one last sent.
pub fn sync_param(slot: &mut ParamSlot, value: Float, pending: &Vec<(u64, Float)>) -> (r: Vec<
    Control,
>)
    ensures
        r@ == sent(old(slot)@, value, pending@),
        final(slot)@ == (SlotView { last: Some(value), ..old(slot)@ }),
        pending@.len() == 0 && old(slot)@.last != Some(value) ==> r@ == seq![
            Control::Now { index: old(slot)@.index, value },
        ],
        pending@.len() == 0 && old(slot)@.last == Some(value) ==> r@.len() == 0,
        pending@.len() > 0 ==> r@.len() == pending@.len() && forall|i: int|
            0 <= i < pending@.len() ==> #[trigger] r@[i] == (Control::At {
                index: old(slot)@.index,
                value: pending@[i].1,
                time: pending@[i].0,
            }),
        final(slot)@.node_path == old(slot)@.node_path,
        final(slot)@.index == old(slot)@.index,
        final(slot)@.last == Some(value),
{
    let mut r: Vec<Control> = Vec::new();
    let index: usize = slot.index;
    if pending.len() == 0 {
        let changed = match slot.last {
            Some(v) => v != value,
            None => true,
        };
        if changed {
            r.push(Control::Now { index, value });
        }
    } else {
        let mut i: usize = 0;
        while i < pending.len()
            invariant
                i <= pending@.len(),
                r@ =~= scheduled(index, pending@).take(i as int),
            decreases pending@.len() - i,
        {
            r.push(Control::At { index, value: pending[i].1, time: pending[i].0 });
            i = i + 1;
        }
        assert(r@ =~= scheduled(index, pending@));
    }
    slot.last = Some(value);
    assert(r@ =~= sent(old(slot)@, value, pending@));
    r
}

/// What a synth's param is at once some control values have come in that take effect at
/// once.
pub open spec fn applied(at: Option<Float>, index: usize, cs: Seq<Control>) -> Option<Float>
    decreases cs.len(),
{
    if cs.len() == 0 {
        at
    } else {
        match cs.last() {
            Control::Now { index: i, value } => if i == index {
                Some(value)
            } else {
                applied(at, index, cs.drop_last())
            },
            Control::At { .. } => applied(at, index, cs.drop_last()),
        }
    }
}

/// A synth follows its params. Where nothing is queued, and the synth is at the value that
/// was last sent, it is at the current value behind what is sent: whenever the two differ,
/// the current value is sent, once, at once and to the param's own index, and otherwise
/// nothing is. No other param is touched.
pub proof fn law_synth_follows_its_params(slot: SlotView, value: Float, other: usize, at: Option<Float>)
    ensures
        applied(slot.last, slot.index, sent(slot, value, Seq::empty())) == Some(value),
        other != slot.index ==> applied(at, other, sent(slot, value, Seq::empty())) == at,
        slot.last != Some(value) ==> sent(slot, value, Seq::empty()) == seq![
            Control::Now { index: slot.index, value },
        ],
        slot.last == Some(value) ==> sent(slot, value, Seq::empty()) == Seq::<Control>::empty(),
{
    let cs = sent(slot, value, Seq::empty());
    if slot.last != Some(value) {
        assert(cs.drop_last() =~= Seq::empty());
        assert(applied(at, other, cs.drop_last()) == at);
    }
}

/// What is queued for a param is sent whole and in order, each update at its own time and
/// to the param's index, and nothing else is.
pub proof fn law_queue_is_sent_in_order(slot: SlotView, value: Float, pending: Seq<(u64, Float)>)
    requires
        pending.len() > 0,
    ensures
        sent(slot, value, pending).len() == pending.len(),
        forall|i: int|
            0 <= i < pending.len() ==> #[trigger] sent(slot, value, pending)[i] == (Control::At {
                index: slot.index,
                value: pending[i].1,
                time: pending[i].0,
            }),
{
}

/// A value that does not change is sent once.
pub proof fn law_unchanged_value_is_sent_once(slot: SlotView, value: Float)
    ensures
        sent(SlotView { last: Some(value), ..slot }, value, Seq::empty()).len() == 0,
{
}

/// Whether the output stream is to be played or paused, if either: only when the
/// setting is not the one applied last.
pub fn toggle(applied: Option<bool>, enabled: bool) -> (r: Option<bool>)
    ensures
        r == (if applied == Some(enabled) {
            None
        } else {
            Some(enabled)
        }),
{
    match applied {
        Some(a) => if a == enabled {
            None
        } else {
            Some(enabled)
        },
        None => Some(enabled),
    }
}

proof fn lemma_all_freed(a: AllocView, scopes: Seq<ScopeView>)
    requires
        a.wf(),
        forall|i: int| 0 <= i < scopes.len() ==> a.in_use((#[trigger] scopes[i]).index),
        forall|i: int, j: int|
            0 <= i < j < scopes.len() ==> (#[trigger] scopes[i]).index != (
            #[trigger] scopes[j]).index,
    ensures
        all_freed(a, scopes).wf(),
        all_freed(a, scopes).next == a.next,
        forall|ix: usize| #[trigger]
            all_freed(a, scopes).in_use(ix) <==> a.in_use(ix) && forall|i: int|
                0 <= i < scopes.len() ==> (#[trigger] scopes[i]).index != ix,
    decreases scopes.len(),
{
    if scopes.len() > 0 {
        let init = scopes.drop_last();
        let last = scopes.last().index;
        assert forall|i: int| 0 <= i < init.len() implies a.in_use((#[trigger] init[i]).index) by {
            assert(init[i] == scopes[i]);
        }
        assert forall|i: int, j: int| 0 <= i < j < init.len() implies (#[trigger] init[i]).index
            != (#[trigger] init[j]).index by {
            assert(init[i] == scopes[i] && init[j] == scopes[j]);
        }
        lemma_all_freed(a, init);
        let b = all_freed(a, init);
        assert(scopes[scopes.len() - 1].index == last);
        assert(a.in_use(last));
        assert(b.in_use(last)) by {
            assert forall|i: int| 0 <= i < init.len() implies (#[trigger] init[i]).index != last by {
                assert(init[i] == scopes[i]);
                assert(scopes[i].index != scopes[scopes.len() - 1].index);
            }
        }
        lemma_freed(b, last);
        let c = b.freed(last);
        assert forall|ix: usize| #[trigger] c.in_use(ix) <==> a.in_use(ix) && forall|i: int|
            0 <= i < scopes.len() ==> (#[trigger] scopes[i]).index != ix by {
            if c.in_use(ix) {
                assert(b.in_use(ix) && ix != last);
                assert forall|i: int| 0 <= i < scopes.len() implies (#[trigger] scopes[i]).index
                    != ix by {
                    if i < init.len() {
                        assert(init[i] == scopes[i]);
                    }
                }
            }
            if a.in_use(ix) && forall|i: int|
                0 <= i < scopes.len() ==> (#[trigger] scopes[i]).index != ix {
                assert forall|i: int| 0 <= i < init.len() implies (#[trigger] init[i]).index != ix by {
                    assert(init[i] == scopes[i]);
                }
                assert(b.in_use(ix));
                assert(scopes[scopes.len() - 1].index != ix);
            }
        }
    }
}

proof fn lemma_freed(a: AllocView, ix: usize)
    requires
        a.wf(),
        a.in_use(ix),
    ensures
        a.freed(ix).wf(),
        forall|j: usize| #[trigger] a.freed(ix).in_use(j) <==> a.in_use(j) && j != ix,
{
    if a.has_room() {
        law_indices_are_handed_out_once(a, ix);
    } else {
        let c = a.freed(ix);
        assert(a.free =~= Seq::<usize>::empty());
        assert(c.free =~= seq![ix]);
        assert forall|j: usize| c.free.contains(j) == (j == ix) by {
            assert(c.free[0] == ix);
        }
    }
}

/// Tearing a synth down keeps every stream's index its own, and returns the indices of
/// the synth's streams.
pub proof fn law_teardown_returns_indices(d: DriverView, e: u64, cued: Seq<ScopeView>)
    requires
        d.wf(cued),
    ensures
        d.torn(e).wf(cued),
        forall|i: int, ix: usize| #[trigger] d.streams(e, i, ix) ==> !d.torn(e).alloc.in_use(ix),
{
    let t = d.torn(e);
    if d.synths.contains_key(e) {
        let scopes = d.synths[e].scopes;
        assert forall|i: int| 0 <= i < scopes.len() implies d.alloc.in_use(
            (#[trigger] scopes[i]).index,
        ) by {
            assert(d.streams(e, i, scopes[i].index));
        }
        assert forall|i: int, j: int| 0 <= i < j < scopes.len() implies (#[trigger] scopes[i]).index
            != (#[trigger] scopes[j]).index by {
            assert(d.streams(e, i, scopes[i].index));
            assert(d.streams(e, j, scopes[j].index));
        }
        lemma_all_freed(d.alloc, scopes);
        assert forall|f: u64, i: int, ix: usize| #[trigger] t.streams(f, i, ix) implies d.streams(
            f,
            i,
            ix,
        ) && f != e by {}
        assert forall|f: u64, i: int, ix: usize| #[trigger] t.streams(f, i, ix) implies
            t.alloc.in_use(ix) by {
            assert(d.streams(f, i, ix));
            assert forall|j: int| 0 <= j < scopes.len() implies (#[trigger] scopes[j]).index
                != ix by {
                assert(d.streams(e, j, scopes[j].index));
            }
        }
        assert forall|j: int| 0 <= j < cued.len() implies t.alloc.in_use(
            (#[trigger] cued[j]).index,
        ) by {
            assert forall|i: int| 0 <= i < scopes.len() implies (#[trigger] scopes[i]).index
                != cued[j].index by {
                assert(d.streams(e, i, scopes[i].index));
            }
        }
        assert forall|f: u64, i: int, h: u64, j: int, ix: usize| #[trigger]
            t.streams(f, i, ix) && #[trigger] t.streams(h, j, ix) implies f == h && i == j by {
            assert(d.streams(f, i, ix) && d.streams(h, j, ix));
        }
        assert forall|f: u64, i: int, j: int, ix: usize|
            #![trigger t.streams(f, i, ix), cued[j]]
            t.streams(f, i, ix) && 0 <= j < cued.len() implies cued[j].index != ix by {
            assert(d.streams(f, i, ix));
        }
        assert forall|i: int, ix: usize| #[trigger] d.streams(e, i, ix) implies !t.alloc.in_use(
            ix,
        ) by {
            assert(scopes[i].index == ix);
        }
    }
}

/// A stream that is cued for a synth to be spawned gets an index that no other stream
/// has.
pub proof fn law_cued_streams_have_their_own_index(
    d: DriverView,
    cued: Seq<ScopeView>,
    s: ScopeView,
)
    requires
        d.wf(cued),
        d.alloc.has_room(),
        s.index == d.alloc.offered(),
    ensures
        (DriverView { alloc: d.alloc.allocated(), ..d }).wf(cued.push(s)),
        (DriverView { alloc: d.alloc.allocated().freed(s.index), ..d }).wf(cued),
{
    law_indices_are_handed_out_once(d.alloc, s.index);
    let a = d.alloc.allocated();
    let t = DriverView { alloc: a, ..d };
    let more = cued.push(s);
    assert forall|e: u64, i: int, ix: usize| #[trigger] t.streams(e, i, ix) implies d.streams(
        e,
        i,
        ix,
    ) by {}
    assert forall|e: u64, i: int, f: u64, j: int, ix: usize| #[trigger]
        t.streams(e, i, ix) && #[trigger] t.streams(f, j, ix) implies e == f && i == j by {
        assert(d.streams(e, i, ix) && d.streams(f, j, ix));
    }
    assert forall|j: int| 0 <= j < more.len() implies t.alloc.in_use((#[trigger] more[j]).index) by {
        if j < cued.len() {
            assert(more[j] == cued[j]);
        }
    }
    assert forall|e: u64, i: int, j: int, ix: usize|
        #![trigger t.streams(e, i, ix), more[j]]
        t.streams(e, i, ix) && 0 <= j < more.len() implies more[j].index != ix by {
        assert(d.streams(e, i, ix));
        if j < cued.len() {
            assert(more[j] == cued[j]);
        }
    }
    assert forall|i: int, j: int| 0 <= i < j < more.len() implies (#[trigger] more[i]).index != (
    #[trigger] more[j]).index by {
        assert(more[i] == cued[i]);
        if j < cued.len() {
            assert(more[j] == cued[j]);
        } else {
            assert(d.alloc.in_use(cued[i].index));
        }
    }
    lemma_freed(a, s.index);
    let u = DriverView { alloc: a.freed(s.index), ..d };
    assert forall|e: u64, i: int, ix: usize| #[trigger] u.streams(e, i, ix) implies
        u.alloc.in_use(ix) by {
        assert(d.streams(e, i, ix));
    }
    assert forall|e: u64, i: int, f: u64, j: int, ix: usize| #[trigger]
        u.streams(e, i, ix) && #[trigger] u.streams(f, j, ix) implies e == f && i == j by {
        assert(d.streams(e, i, ix) && d.streams(f, j, ix));
    }
    assert forall|e: u64, i: int, j: int, ix: usize|
        #![trigger u.streams(e, i, ix), cued[j]]
        u.streams(e, i, ix) && 0 <= j < cued.len() implies cued[j].index != ix by {
        assert(d.streams(e, i, ix));
    }
    assert forall|j: int| 0 <= j < cued.len() implies u.alloc.in_use((#[trigger] cued[j]).index) by {
        assert(d.alloc.in_use(cued[j].index));
    }
}

/// A synth that is spawned, and had none running before, takes over the streams that
/// were cued for it.
pub proof fn law_spawned_synth_owns_its_streams(d: DriverView, e: u64, s: SynthView)
    requires
        d.wf(s.scopes),
        !d.synths.contains_key(e),
    ensures
        (DriverView { synths: d.synths.insert(e, s), ..d }).wf(Seq::empty()),
{
    let t = DriverView { synths: d.synths.insert(e, s), ..d };
    assert forall|f: u64, i: int, ix: usize| #[trigger] t.streams(f, i, ix) implies
        t.alloc.in_use(ix) by {
        if f != e {
            assert(d.streams(f, i, ix));
        } else {
            assert(s.scopes[i].index == ix);
        }
    }
    assert forall|f: u64, i: int, h: u64, j: int, ix: usize| #[trigger]
        t.streams(f, i, ix) && #[trigger] t.streams(h, j, ix) implies f == h && i == j by {
        if f != e {
            assert(d.streams(f, i, ix));
        } else {
            assert(s.scopes[i].index == ix);
        }
        if h != e {
            assert(d.streams(h, j, ix));
        } else {
            assert(s.scopes[j].index == ix);
        }
        if f == e && h == e && i != j {
            if i < j {
                assert(s.scopes[i].index != s.scopes[j].index);
            } else {
                assert(s.scopes[j].index != s.scopes[i].index);
            }
        }
    }
}

proof fn lemma_resized_indices(scopes: Seq<ScopeView>, monitors: Seq<MonitorView>)
    ensures
        resized(scopes, monitors).len() == scopes.len(),
        forall|i: int|
            0 <= i < scopes.len() ==> (#[trigger] resized(scopes, monitors)[i]).index
                == scopes[i].index,
    decreases monitors.len(),
{
    if monitors.len() > 0 {
        let init = monitors.drop_last();
        lemma_resized_indices(scopes, init);
        let mid = resized(scopes, init);
        let m = monitors.last();
        lemma_resize_indices(mid, m.node_path, m.size);
        assert forall|i: int| 0 <= i < scopes.len() implies (
        #[trigger] resized(scopes, monitors)[i]).index == scopes[i].index by {
            assert(mid[i].index == scopes[i].index);
            assert(resize_first(mid, m.node_path, m.size)[i].index == mid[i].index);
        }
    }
}

proof fn lemma_resize_indices(scopes: Seq<ScopeView>, path: Seq<usize>, size: usize)
    ensures
        resize_first(scopes, path, size).len() == scopes.len(),
        forall|i: int|
            0 <= i < scopes.len() ==> (#[trigger] resize_first(scopes, path, size)[i]).index
                == scopes[i].index,
    decreases scopes.len(),
{
    if scopes.len() > 0 && scopes[0].node_path != path {
        let t = scopes.skip(1);
        lemma_resize_indices(t, path, size);
        let r = resize_first(scopes, path, size);
        assert forall|i: int| 0 <= i < scopes.len() implies (#[trigger] r[i]).index
            == scopes[i].index by {
            if i > 0 {
                assert(r[i] == resize_first(t, path, size)[i - 1]);
                assert(t[i - 1] == scopes[i]);
            }
        }
    }
}

/// Keeping a synth for another graph of the same structure leaves its node, its params
/// and the indices of its streams alone.
pub proof fn law_kept_synth_runs_on(
    d: DriverView,
    e: u64,
    graph: GraphAddr,
    monitors: Seq<MonitorView>,
    cued: Seq<ScopeView>,
)
    requires
        d.wf(cued),
        d.synths.contains_key(e),
    ensures
        d.kept(e, graph, monitors).wf(cued),
        d.kept(e, graph, monitors).synths[e].node_id == d.synths[e].node_id,
        d.kept(e, graph, monitors).synths[e].params == d.synths[e].params,
        d.kept(e, graph, monitors).synths[e].scopes.len() == d.synths[e].scopes.len(),
        forall|i: int|
            0 <= i < d.synths[e].scopes.len() ==> (#[trigger] d.kept(
                e,
                graph,
                monitors,
            ).synths[e].scopes[i]).index == d.synths[e].scopes[i].index,
{
    let t = d.kept(e, graph, monitors);
    lemma_resized_indices(d.synths[e].scopes, monitors);
    assert forall|f: u64, i: int, ix: usize| #[trigger] t.streams(f, i, ix) implies d.streams(
        f,
        i,
        ix,
    ) by {
        if f == e {
            assert(resized(d.synths[e].scopes, monitors)[i].index == d.synths[e].scopes[i].index);
        }
    }
    assert forall|f: u64, i: int, h: u64, j: int, ix: usize| #[trigger]
        t.streams(f, i, ix) && #[trigger] t.streams(h, j, ix) implies f == h && i == j by {
        assert(d.streams(f, i, ix) && d.streams(h, j, ix));
    }
    assert forall|f: u64, i: int, j: int, ix: usize|
        #![trigger t.streams(f, i, ix), cued[j]]
        t.streams(f, i, ix) && 0 <= j < cued.len() implies cued[j].index != ix by {
        assert(d.streams(f, i, ix));
    }
}

/// Tearing a head's synth down frees all that belongs to it: its node, its definition and
/// every one of its streams, and nothing else. The head has no synth from then on, and all
/// other heads keep theirs. Where there is no synth, nothing is done.
pub proof fn law_teardown_frees_all_of_a_synth(d: DriverView, e: u64, f: u64)
    ensures
        !d.torn(e).synths.contains_key(e),
        f != e ==> d.torn(e).synths.contains_key(f) == d.synths.contains_key(f)
            && d.torn(e).synths[f] == d.synths[f],
        !d.synths.contains_key(e) ==> d.tearing(e).len() == 0 && d.torn(e).alloc == d.alloc,
        d.synths.contains_key(e) ==> {
            let s = d.synths[e];
            &&& d.tearing(e).len() == s.scopes.len() + 2
            &&& d.tearing(e)[0] == ActionView::FreeNode(s.node_id)
            &&& d.tearing(e)[1] == ActionView::FreeSynthdef(s.def_name)
            &&& forall|i: int|
                0 <= i < s.scopes.len() ==> #[trigger] d.tearing(e)[i + 2] == ActionView::CloseScope(
                    s.scopes[i].index,
                )
        },
{
    if d.synths.contains_key(e) {
        let s = d.synths[e];
        assert forall|i: int| 0 <= i < s.scopes.len() implies #[trigger] d.tearing(e)[i + 2]
            == ActionView::CloseScope(s.scopes[i].index) by {
            assert(closing(s.scopes)[i] == ActionView::CloseScope(s.scopes[i].index));
        }
    }
}

/// A stream's index goes to its monitor's unit: that unit has it as its first input, and
/// nothing else of the definition changes.
pub proof fn law_stream_index_reaches_its_unit(d: DerivedView, i: int, bits: Float)
    requires
        d.sound(),
        0 <= i < d.monitors.len(),
    ensures
        ({
            let m = d.monitors[i];
            let p = patched(d, m, bits);
            let u = p.def.units[m.scope_unit as int];
            let before = d.def.units[m.scope_unit as int];
            &&& u.name == "ScopeOut"@
            &&& u.inputs.len() == before.inputs.len()
            &&& u.inputs[0] == InputRef::Constant(bits)
            &&& forall|j: int| 0 < j < u.inputs.len() ==> #[trigger] u.inputs[j] == before.inputs[j]
            &&& u.rate == before.rate && u.num_outputs == before.num_outputs && u.special_index
                == before.special_index
            &&& p.def.units.len() == d.def.units.len()
            &&& forall|k: int|
                0 <= k < d.def.units.len() && k != m.scope_unit ==> #[trigger] p.def.units[k]
                    == d.def.units[k]
            &&& p.def.name == d.def.name && p.def.params == d.def.params
            &&& p.params == d.params && p.monitors == d.monitors && p.gains == d.gains
        }),
{
    let b = dsp::BuilderView {
        units: d.def.units,
        params: d.def.params,
        bindings: d.params,
        monitors: d.monitors,
        gains: d.gains,
        out_channels: 1,
    };
    assert(b.scoped(b.monitors[i]));
}

/// A monitor's stream is as wide as the monitor, and never without a channel.
pub proof fn law_streams_are_as_wide_as_their_monitors(m: MonitorView)
    ensures
        stream_channels(m) > 0,
        m.channels > 0 ==> stream_channels(m) == m.channels,
{
}

/// A fresh synth follows every param that is bound to a node's state, each by its own
/// index, and nothing was sent to any of them.
pub proof fn law_fresh_synth_follows_every_bound_param(bound: Seq<(Seq<usize>, usize)>)
    ensures
        fresh_slots(bound).len() == bound.len(),
        forall|i: int|
            0 <= i < bound.len() ==> (#[trigger] fresh_slots(bound)[i]).node_path == bound[i].0
                && fresh_slots(bound)[i].index == bound[i].1 && fresh_slots(bound)[i].last is None,
{
}

/// The heads whose synths are to go are just those with a synth that are not open, each
/// once.
pub proof fn law_stale_heads_are_those_not_open(d: DriverView, live: Set<u64>)
    requires
        d.synths.dom().finite(),
    ensures
        forall|e: u64| #[trigger]
            gone(table::keys_of::<u64, SynthView>(d.synths), live).contains(e)
                <==> d.synths.contains_key(e) && !live.contains(e),
        gone(table::keys_of::<u64, SynthView>(d.synths), live).no_duplicates(),
{
    let keys = table::keys_of::<u64, SynthView>(d.synths);
    table::lemma_keys_of::<u64, SynthView>(d.synths);
    assert(keys.no_duplicates()) by {
        assert forall|i: int, j: int|
            0 <= i < keys.len() && 0 <= j < keys.len() && i != j implies keys[i] != keys[j] by {
            if i < j {
                assert(u64::precedes(keys[i], keys[j]));
            } else {
                assert(u64::precedes(keys[j], keys[i]));
            }
        }
    }
    lemma_gone(keys, live);
    assert forall|e: u64| #[trigger] gone(keys, live).contains(e) <==> d.synths.contains_key(e)
        && !live.contains(e) by {
        assert(d.synths.contains_key(e) <==> keys.contains(e));
    }
}

proof fn lemma_gone(keys: Seq<u64>, live: Set<u64>)
    requires
        keys.no_duplicates(),
    ensures
        forall|e: u64| #[trigger]
            gone(keys, live).contains(e) <==> keys.contains(e) && !live.contains(e),
        gone(keys, live).no_duplicates(),
    decreases keys.len(),
{
    if keys.len() > 0 {
        let init = keys.drop_last();
        let last = keys.last();
        lemma_gone(init, live);
        let before = gone(init, live);
        let all = gone(keys, live);
        assert(!init.contains(last)) by {
            if init.contains(last) {
                let i = choose|i: int| 0 <= i < init.len() && init[i] == last;
                assert(keys[i] == keys[keys.len() - 1]);
            }
        }
        assert forall|e: u64| #[trigger] all.contains(e) <==> keys.contains(e) && !live.contains(e) by {
            assert(before.contains(e) <==> init.contains(e) && !live.contains(e));
            if init.contains(e) {
                let i = choose|i: int| 0 <= i < init.len() && init[i] == e;
                assert(keys[i] == e);
            }
            if keys.contains(e) && e != last {
                let i = choose|i: int| 0 <= i < keys.len() && keys[i] == e;
                assert(init[i] == e);
            }
            assert(keys[keys.len() - 1] == last);
            if all.contains(e) {
                let i = choose|i: int| 0 <= i < all.len() && all[i] == e;
                if i < before.len() {
                    assert(before[i] == e);
                }
            }
            if before.contains(e) {
                let i = choose|i: int| 0 <= i < before.len() && before[i] == e;
                assert(all[i] == e);
            }
            if !live.contains(last) {
                assert(all[all.len() - 1] == last);
            }
        }
        assert forall|i: int, j: int| 0 <= i < all.len() && 0 <= j < all.len() && i != j implies all[i]
            != all[j] by {
            if i < before.len() && j < before.len() {
                assert(all[i] == before[i] && all[j] == before[j]);
            } else if i < before.len() {
                assert(before.contains(before[i]));
                assert(all[i] == before[i]);
            } else if j < before.len() {
                assert(before.contains(before[j]));
                assert(all[j] == before[j]);
            }
        }
    }
}

proof fn lemma_resize_first(scopes: Seq<ScopeView>, path: Seq<usize>, size: usize)
    requires
        forall|i: int, j: int|
            0 <= i < j < scopes.len() ==> (#[trigger] scopes[i]).node_path != (
            #[trigger] scopes[j]).node_path,
    ensures
        resize_first(scopes, path, size).len() == scopes.len(),
        forall|i: int|
            0 <= i < scopes.len() ==> #[trigger] resize_first(scopes, path, size)[i] == (
            if scopes[i].node_path == path {
                ScopeView { size, ..scopes[i] }
            } else {
                scopes[i]
            }),
    decreases scopes.len(),
{
    if scopes.len() > 0 {
        let t = scopes.skip(1);
        assert forall|i: int, j: int| 0 <= i < j < t.len() implies (#[trigger] t[i]).node_path != (
        #[trigger] t[j]).node_path by {
            assert(scopes[i + 1].node_path != scopes[j + 1].node_path);
        }
        lemma_resize_first(t, path, size);
        let r = resize_first(scopes, path, size);
        assert forall|i: int| 0 <= i < scopes.len() implies #[trigger] r[i] == (
        if scopes[i].node_path == path {
            ScopeView { size, ..scopes[i] }
        } else {
            scopes[i]
        }) by {
            if i > 0 {
                assert(scopes[0].node_path != scopes[i].node_path);
                assert(t[i - 1] == scopes[i]);
                if scopes[0].node_path != path {
                    assert(r[i] == resize_first(t, path, size)[i - 1]);
                }
            }
        }
    }
}

/// A synth that is kept for another graph of the same structure is the synth that it was,
/// now for that graph: its definition and signature stay, and every stream is the stream
/// that it was, with the ring size of the monitor that has its path. All other heads keep
/// what they have.
pub proof fn law_kept_synth_takes_the_monitors_sizes(
    d: DriverView,
    e: u64,
    graph: GraphAddr,
    monitors: Seq<MonitorView>,
    f: u64,
)
    requires
        d.synths.contains_key(e),
        forall|i: int, j: int|
            0 <= i < j < d.synths[e].scopes.len() ==> (#[trigger] d.synths[e].scopes[i]).node_path
                != (#[trigger] d.synths[e].scopes[j]).node_path,
        forall|i: int, j: int|
            0 <= i < j < monitors.len() ==> (#[trigger] monitors[i]).node_path != (
            #[trigger] monitors[j]).node_path,
    ensures
        ({
            let t = d.kept(e, graph, monitors).synths[e];
            let s = d.synths[e];
            &&& t.graph == graph
            &&& t.def_name == s.def_name && t.sig == s.sig
            &&& t.scopes.len() == s.scopes.len()
            &&& forall|i: int|
                0 <= i < s.scopes.len() ==> (#[trigger] t.scopes[i]).node_path
                    == s.scopes[i].node_path && t.scopes[i].channels == s.scopes[i].channels
                    && t.scopes[i].index == s.scopes[i].index
            &&& forall|i: int, k: int|
                0 <= i < s.scopes.len() && 0 <= k < monitors.len() && (
                #[trigger] monitors[k]).node_path == s.scopes[i].node_path ==> (
                #[trigger] t.scopes[i]).size == monitors[k].size
            &&& forall|i: int|
                0 <= i < s.scopes.len() && (forall|k: int|
                    0 <= k < monitors.len() ==> (#[trigger] monitors[k]).node_path
                        != s.scopes[i].node_path) ==> (#[trigger] t.scopes[i]).size
                    == s.scopes[i].size
            &&& d.kept(e, graph, monitors).alloc == d.alloc
            &&& f != e ==> d.kept(e, graph, monitors).synths.contains_key(f)
                == d.synths.contains_key(f) && d.kept(e, graph, monitors).synths[f] == d.synths[f]
        }),
{
    lemma_resized(d.synths[e].scopes, monitors);
}

proof fn lemma_resized(scopes: Seq<ScopeView>, monitors: Seq<MonitorView>)
    requires
        forall|i: int, j: int|
            0 <= i < j < scopes.len() ==> (#[trigger] scopes[i]).node_path != (
            #[trigger] scopes[j]).node_path,
        forall|i: int, j: int|
            0 <= i < j < monitors.len() ==> (#[trigger] monitors[i]).node_path != (
            #[trigger] monitors[j]).node_path,
    ensures
        ({
            let t = resized(scopes, monitors);
            &&& t.len() == scopes.len()
            &&& forall|i: int|
                0 <= i < scopes.len() ==> (#[trigger] t[i]).node_path == scopes[i].node_path
                    && t[i].channels == scopes[i].channels && t[i].index == scopes[i].index
            &&& forall|i: int, k: int|
                0 <= i < scopes.len() && 0 <= k < monitors.len() && (
                #[trigger] monitors[k]).node_path == scopes[i].node_path ==> (
                #[trigger] t[i]).size == monitors[k].size
            &&& forall|i: int|
                0 <= i < scopes.len() && (forall|k: int|
                    0 <= k < monitors.len() ==> (#[trigger] monitors[k]).node_path
                        != scopes[i].node_path) ==> (#[trigger] t[i]).size == scopes[i].size
        }),
    decreases monitors.len(),
{
    if monitors.len() > 0 {
        let init = monitors.drop_last();
        let n = monitors.len() - 1;
        let m = monitors[n];
        assert forall|i: int, j: int| 0 <= i < j < init.len() implies (#[trigger] init[i]).node_path
            != (#[trigger] init[j]).node_path by {
            assert(init[i] == monitors[i] && init[j] == monitors[j]);
        }
        lemma_resized(scopes, init);
        let u = resized(scopes, init);
        assert forall|i: int, j: int| 0 <= i < j < u.len() implies (#[trigger] u[i]).node_path != (
        #[trigger] u[j]).node_path by {
            assert(scopes[i].node_path != scopes[j].node_path);
        }
        lemma_resize_first(u, m.node_path, m.size);
        let t = resized(scopes, monitors);
        assert forall|i: int, k: int|
            0 <= i < scopes.len() && 0 <= k < monitors.len() && (#[trigger] monitors[k]).node_path
                == scopes[i].node_path implies (#[trigger] t[i]).size == monitors[k].size by {
            if k < n {
                assert(init[k] == monitors[k]);
                assert(monitors[k].node_path != monitors[n].node_path);
                assert(u[i].size == init[k].size);
            }
        }
        assert forall|i: int|
            0 <= i < scopes.len() && (forall|k: int|
                0 <= k < monitors.len() ==> (#[trigger] monitors[k]).node_path
                    != scopes[i].node_path) implies (#[trigger] t[i]).size == scopes[i].size by {
            assert(monitors[n].node_path != scopes[i].node_path);
            assert forall|k: int| 0 <= k < init.len() implies (#[trigger] init[k]).node_path
                != scopes[i].node_path by {
                assert(monitors[k].node_path != scopes[i].node_path);
            }
            assert(u[i].size == scopes[i].size);
        }
    }
}

/// Heads are told apart by their names.
pub proof fn law_head_names_are_distinct(a: u32, b: u32)
    requires
        head_name(a) == head_name(b),
    ensures
        a == b,
{
    let n = "gantz-head-"@.len() as int;
    assert(head_name(a).skip(n) =~= text::dec(a as nat));
    assert(head_name(b).skip(n) =~= text::dec(b as nat));
    text::lemma_dec_injective(a as nat, b as nat);
}

} // verus!
