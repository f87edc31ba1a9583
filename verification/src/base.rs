//! Base sources: sets of named graphs that ship with the program.
//!
//! Every source is parsed, with the names loaded so far at hand, and merged into the
//! registry. A source whose references do not resolve yet is tried again once others
//! have loaded, so the order of the sources does not matter for their references.

use crate::commit::CommitAddr;
use crate::merge;
use crate::name::{self, Name};
use crate::order::Key;
use crate::registry::{self, Payload, Registry, RegistryView};
use crate::table::{self, Table};
use crate::text;
use vstd::prelude::*;
use vstd::string::*;

verus! {

/// What came of parsing a source.
#[derive(Debug)]
pub enum Outcome<G: Payload> {
    /// Its graphs and names.
    Loaded(Registry<G>),
    /// A reference did not resolve; it may once another source has loaded.
    Missing,
    /// It cannot be parsed.
    Failed,
}

/// How far the sources have loaded.
#[derive(Debug)]
pub struct Loading {
    /// The sources to be tried in this round, by index.
    pub pending: Vec<usize>,
    /// How many of them have been tried.
    pub next: usize,
    /// Those that did not resolve in this round.
    pub deferred: Vec<usize>,
}

/// What a [`Loading`] denotes.
#[verifier::ext_equal]
pub struct LoadingView {
    pub pending: Seq<usize>,
    pub next: usize,
    pub deferred: Seq<usize>,
}

impl View for Loading {
    type V = LoadingView;

    open spec fn view(&self) -> LoadingView {
        LoadingView { pending: self.pending@, next: self.next, deferred: self.deferred@ }
    }
}

impl LoadingView {
    /// Whether no more sources have been put off than were tried.
    pub open spec fn wf(self) -> bool {
        self.next <= self.pending.len() && self.deferred.len() <= self.next
    }

    /// The source to try next.
    pub open spec fn asked(self) -> Option<usize> {
        if self.next < self.pending.len() {
            Some(self.pending[self.next as int])
        } else {
            None
        }
    }

    /// With the source at hand tried, and put off if it did not resolve.
    pub open spec fn tried(self, missing: bool) -> LoadingView {
        LoadingView {
            next: (self.next + 1) as usize,
            deferred: if missing {
                self.deferred.push(self.pending[self.next as int])
            } else {
                self.deferred
            },
            ..self
        }
    }

    /// The next round, where the round at hand is over and some but not all of its
    /// sources were put off.
    pub open spec fn rounded(self) -> LoadingView {
        if self.next == self.pending.len() && 0 < self.deferred.len() < self.pending.len() {
            LoadingView { pending: self.deferred, next: 0, deferred: Seq::empty() }
        } else {
            self
        }
    }

    /// How many times a source can still be tried, at most.
    pub open spec fn tries_left(self) -> nat {
        let n = self.pending.len();
        if n == 0 {
            0
        } else {
            ((n - self.next) + rounds((n - 1) as nat)) as nat
        }
    }
}

/// How often sources are tried in rounds of `n` and fewer.
pub open spec fn rounds(n: nat) -> nat
    decreases n,
{
    if n == 0 {
        0
    } else {
        n + rounds((n - 1) as nat)
    }
}

/// The names that sources have defined, and which source each came from.
#[derive(Debug)]
pub struct Base {
    pub names: Table<Name, CommitAddr>,
    pub sources: Table<String, String>,
}

/// What a [`Base`] denotes.
#[verifier::ext_equal]
pub struct BaseView {
    pub names: Map<Seq<Seq<char>>, CommitAddr>,
    pub sources: Map<Seq<char>, Seq<char>>,
}

impl View for Base {
    type V = BaseView;

    open spec fn view(&self) -> BaseView {
        BaseView { names: self.names@, sources: table::views(self.sources@) }
    }
}

impl BaseView {
    /// With the listed names defined by a source.
    pub open spec fn with_names(
        self,
        source: Seq<char>,
        heads: Seq<(Seq<Seq<char>>, CommitAddr)>,
    ) -> BaseView
        decreases heads.len(),
    {
        if heads.len() == 0 {
            self
        } else {
            let init = self.with_names(source, heads.drop_last());
            BaseView {
                names: init.names.insert(heads.last().0, heads.last().1),
                sources: init.sources.insert(name::spelled(heads.last().0), source),
            }
        }
    }
}

impl Base {
    /// Nothing defined.
    pub fn new() -> (r: Self)
        ensures
            r@ == (BaseView { names: Map::empty(), sources: Map::empty() }),
    {
        let r = Base { names: Table::new(), sources: Table::new() };
        assert(r@ =~= BaseView { names: Map::empty(), sources: Map::empty() });
        r
    }

    fn add(&mut self, source: &String, heads: &Vec<(Name, CommitAddr)>)
        ensures
            final(self)@ == old(self)@.with_names(source@, registry::head_views(heads@)),
    {
        let ghost before = self@;
        let ghost hv = registry::head_views(heads@);
        let mut i: usize = 0;
        assert(hv.take(0) =~= Seq::empty());
        while i < heads.len()
            invariant
                hv == registry::head_views(heads@),
                i <= heads@.len(),
                self@ == before.with_names(source@, hv.take(i as int)),
            decreases heads@.len() - i,
        {
            let ghost here = self@;
            let text = heads[i].0.to_text();
            self.names.insert(heads[i].0.dup(), heads[i].1);
            self.sources.insert(text, source.clone());
            proof {
                assert(hv.take(i + 1).drop_last() =~= hv.take(i as int));
                assert(hv.take(i + 1).last() == (heads@[i as int].0@, heads@[i as int].1));
                assert(self@.names =~= here.names.insert(
                    heads@[i as int].0@,
                    heads@[i as int].1,
                ));
                assert(self@.sources =~= here.sources.insert(
                    name::spelled(heads@[i as int].0@),
                    source@,
                ));
            }
            i = i + 1;
        }
        assert(hv.take(i as int) =~= hv);
    }
}

/// How far loading has come, and what it has made of the names and the registry.
pub struct Turn<T> {
    pub at: LoadingView,
    pub base: BaseView,
    pub reg: RegistryView<T>,
}

/// Whether taking in what came of a source leads from one turn to the next: what loaded
/// is merged, and its names are the source's from then on; what did not resolve is put
/// off.
pub open spec fn took_in<G: Payload>(
    from: Turn<G::V>,
    source: Seq<char>,
    outcome: Outcome<G>,
    to: Turn<G::V>,
) -> bool {
    &&& to.at == from.at.tried(outcome is Missing).rounded()
    &&& match outcome {
        Outcome::Loaded(export) => {
            &&& to.reg == merge::merged(from.reg, export@)
            &&& exists|heads: Seq<(Name, CommitAddr)>| #[trigger]
                export@.lists_heads(heads) && to.base == from.base.with_names(
                    source,
                    registry::head_views(heads),
                )
        },
        _ => to.reg == from.reg && to.base == from.base,
    }
}

/// Whether one turn leads to the next by parsing the source asked for.
pub open spec fn turned<G: Payload, F: Fn(usize, &Base) -> Outcome<G>>(
    parse: F,
    labels: Seq<String>,
    from: Turn<G::V>,
    to: Turn<G::V>,
) -> bool {
    &&& from.at.asked() is Some
    &&& exists|base: Base, outcome: Outcome<G>|
        base@ == from.base && #[trigger] call_ensures(
            parse,
            (from.at.asked()->0, &base),
            outcome,
        ) && took_in(from, labels[from.at.asked()->0 as int]@, outcome, to)
}

/// Whether `turns` is a whole run: every source asked for was parsed, until none is left
/// to try.
pub open spec fn whole_run<G: Payload, F: Fn(usize, &Base) -> Outcome<G>>(
    parse: F,
    labels: Seq<String>,
    turns: Seq<Turn<G::V>>,
) -> bool {
    &&& turns.len() >= 1
    &&& turns[0].at == outset(labels.len()).at
    &&& turns.last().at.asked() is None
    &&& forall|k: int| 0 <= k < turns.len() - 1 ==> turned(
        parse,
        labels,
        #[trigger] turns[k],
        turns[k + 1],
    )
}

/// Loads the labelled sources: each is parsed with the names loaded so far at hand and
/// merged into the registry, and tried again once others have loaded where its
/// references do not resolve. Returns the sources that never did.
pub fn load<G: Payload, F: Fn(usize, &Base) -> Outcome<G>>(
    labels: &Vec<String>,
    parse: F,
    base: &mut Base,
    reg: &mut Registry<G>,
) -> (unresolved: Vec<usize>)
    requires
        forall|i: usize, b: &Base| i < labels@.len() ==> call_requires(parse, (i, b)),
    ensures
        exists|turns: Seq<Turn<G::V>>|
            {
                &&& #[trigger] whole_run::<G, F>(parse, labels@, turns)
                &&& turns[0].base == old(base)@
                &&& turns[0].reg == old(reg)@
                &&& turns.last().base == final(base)@
                &&& turns.last().reg == final(reg)@
                &&& turns.last().at.deferred == unresolved@
            },
{
    let n: usize = labels.len();
    let mut loading = Loading::new(n);
    let ghost mut turns: Seq<Turn<G::V>> = seq![Turn { at: loading@, base: base@, reg: reg@ }];
    let ghost start = turns[0];
    loop
        invariant
            n == labels@.len(),
            forall|i: usize, b: &Base| i < labels@.len() ==> call_requires(parse, (i, b)),
            loading@.wf(),
            forall|k: int| 0 <= k < loading@.pending.len() ==> #[trigger] loading@.pending[k] < n,
            forall|k: int| 0 <= k < loading@.deferred.len() ==> #[trigger] loading@.deferred[k] < n,
            turns.len() >= 1,
            turns[0] == start,
            turns.last() == (Turn { at: loading@, base: base@, reg: reg@ }),
            forall|k: int| 0 <= k < turns.len() - 1 ==> turned(
                parse,
                labels@,
                #[trigger] turns[k],
                turns[k + 1],
            ),
        ensures
            turns.last().at.asked() is None,
        decreases loading@.tries_left(),
    {
        let i: usize = match loading.ask() {
            Some(i) => i,
            None => {
                break;
            },
        };
        let ghost from = turns.last();
        let ghost before = turns;
        let ghost at = *base;
        let outcome = parse(i, base);
        let ghost o = outcome;
        loading.answer(&labels[i], outcome, base, reg);
        proof {
            let to = Turn { at: loading@, base: base@, reg: reg@ };
            assert(at@ == from.base && call_ensures(parse, (from.at.asked()->0, &at), o));
            assert(turned(parse, labels@, from, to));
            turns = turns.push(to);
            assert forall|k: int| 0 <= k < turns.len() - 1 implies turned(
                parse,
                labels@,
                #[trigger] turns[k],
                turns[k + 1],
            ) by {
                assert(turns[k] == before[k]);
                if k < before.len() - 1 {
                    assert(turns[k + 1] == before[k + 1]);
                }
            }
        }
    }
    assert(whole_run::<G, F>(parse, labels@, turns));
    loading.unresolved()
}

impl Loading {
    /// All of `n` sources still to be tried.
    pub fn new(n: usize) -> (r: Self)
        ensures
            r@ == (LoadingView {
                pending: Seq::new(n as nat, |i: int| i as usize),
                next: 0,
                deferred: Seq::empty(),
            }),
            r@.wf(),
    {
        let mut pending: Vec<usize> = Vec::new();
        let mut i: usize = 0;
        while i < n
            invariant
                i <= n,
                pending@ =~= Seq::new(i as nat, |i: int| i as usize),
            decreases n - i,
        {
            pending.push(i);
            i = i + 1;
        }
        Loading { pending, next: 0, deferred: Vec::new() }
    }

    /// The source to be parsed next, by index, if any is left to try.
    pub fn ask(&self) -> (r: Option<usize>)
        ensures
            r == self@.asked(),
    {
        if self.next < self.pending.len() {
            Some(self.pending[self.next])
        } else {
            None
        }
    }

    /// Takes in what came of parsing the source asked for. What loaded is merged into
    /// the registry, and its names are the source's from then on; what did not resolve
    /// is put off to the next round, unless a whole round loaded nothing. Every source
    /// is tried a bounded number of times.
    pub fn answer<G: Payload>(
        &mut self,
        source: &String,
        outcome: Outcome<G>,
        base: &mut Base,
        reg: &mut Registry<G>,
    )
        requires
            old(self)@.wf(),
            old(self)@.asked() is Some,
        ensures
            final(self)@.wf(),
            final(self)@.tries_left() < old(self)@.tries_left(),
            took_in(
                Turn { at: old(self)@, base: old(base)@, reg: old(reg)@ },
                source@,
                outcome,
                Turn { at: final(self)@, base: final(base)@, reg: final(reg)@ },
            ),
    {
        let ghost before = self@;
        let total: usize = self.pending.len();
        let missing = match &outcome {
            Outcome::Missing => true,
            _ => false,
        };
        if let Outcome::Loaded(export) = outcome {
            let heads = export.heads();
            base.add(source, &heads);
            let _ = reg.merge(export);
        }
        if missing {
            let at: usize = self.pending[self.next];
            self.deferred.push(at);
        }
        self.next = self.next + 1;
        let ghost mid = self@;
        assert(mid =~= before.tried(missing));
        if self.next == total && self.deferred.len() > 0 && self.deferred.len() < total {
            let mut none: Vec<usize> = Vec::new();
            std::mem::swap(&mut none, &mut self.deferred);
            self.pending = none;
            self.next = 0;
        }
        proof {
            assert(self@ =~= mid.rounded());
            let n = before.pending.len();
            if self@ != mid {
                let k = mid.deferred.len();
                lemma_rounds(k, (n - 1) as nat);
                assert(self@.tries_left() == k + rounds((k - 1) as nat));
                assert(rounds(k) == k + rounds((k - 1) as nat));
            }
        }
    }

    /// The sources that never resolved, once none is left to try.
    pub fn unresolved(&self) -> (r: Vec<usize>)
        ensures
            r@ == self@.deferred,
    {
        let mut r: Vec<usize> = Vec::new();
        let mut i: usize = 0;
        while i < self.deferred.len()
            invariant
                i <= self.deferred@.len(),
                r@ =~= self.deferred@.take(i as int),
            decreases self.deferred@.len() - i,
        {
            r.push(self.deferred[i]);
            i = i + 1;
        }
        assert(self.deferred@.take(i as int) =~= self.deferred@);
        r
    }
}

proof fn lemma_rounds(a: nat, b: nat)
    requires
        a <= b,
    ensures
        rounds(a) <= rounds(b),
    decreases b,
{
    if a < b {
        lemma_rounds(a, (b - 1) as nat);
    }
}

/// Loading ends with nothing put off, or with a round in which every source was: no
/// source is given up while another still loads.
pub proof fn law_loading_ends_settled(l: LoadingView, missing: bool)
    requires
        l.wf(),
        l.asked() is Some,
        l.tried(missing).rounded().asked() is None,
    ensures
        l.tried(missing).rounded().deferred.len() == 0 || l.tried(missing).rounded().deferred.len()
            == l.tried(missing).rounded().pending.len(),
{
}

/// What matters of sources when they are loaded.
pub struct Sources {
    /// The names that a source defines.
    pub defines: spec_fn(usize) -> Set<Seq<char>>,
    /// The names that a source refers to and does not define itself.
    pub needs: spec_fn(usize) -> Set<Seq<char>>,
    /// Whether a source cannot be parsed, whatever else has loaded.
    pub broken: spec_fn(usize) -> bool,
}

impl Sources {
    /// Whether a loaded source defines the name.
    pub open spec fn known(self, loaded: Set<usize>, name: Seq<char>) -> bool {
        exists|j: usize| loaded.contains(j) && #[trigger] (self.defines)(j).contains(name)
    }

    /// Whether all that a source refers to is defined by what has loaded.
    pub open spec fn resolves(self, loaded: Set<usize>, i: usize) -> bool {
        forall|name: Seq<char>| #[trigger] (self.needs)(i).contains(name) ==> self.known(loaded, name)
    }

    /// Whether every one of `n` sources whose references resolve has loaded.
    pub open spec fn closed(self, n: nat, loaded: Set<usize>) -> bool {
        forall|i: usize| i < n && !(self.broken)(i) && #[trigger] self.resolves(loaded, i)
            ==> loaded.contains(i)
    }

    /// Whether a source loads as soon as all that load without it have: it is in every
    /// set of sources in which nothing that resolves is left out.
    pub open spec fn loadable(self, n: nat, i: usize) -> bool {
        i < n && !(self.broken)(i) && forall|s: Set<usize>| #[trigger] self.closed(n, s) ==> s.contains(
            i,
        )
    }
}

/// How far a run has come, and what has loaded.
pub struct Run {
    pub at: LoadingView,
    pub loaded: Set<usize>,
}

/// A run after one more source was tried.
pub open spec fn ran_one(s: Sources, r: Run) -> Run {
    let i = r.at.asked()->0;
    let missing = !(s.broken)(i) && !s.resolves(r.loaded, i);
    Run {
        at: r.at.tried(missing).rounded(),
        loaded: if !missing && !(s.broken)(i) {
            r.loaded.insert(i)
        } else {
            r.loaded
        },
    }
}

proof fn lemma_tries_left(l: LoadingView, missing: bool)
    requires
        l.wf(),
        l.asked() is Some,
        l.pending.len() <= usize::MAX,
    ensures
        l.tried(missing).rounded().wf(),
        l.tried(missing).rounded().tries_left() < l.tries_left(),
        l.tried(missing).rounded().pending.len() <= usize::MAX,
{
    let t = l.tried(missing);
    let n = l.pending.len();
    if t.rounded() != t {
        let k = t.deferred.len();
        lemma_rounds(k, (n - 1) as nat);
        assert(rounds(k) == k + rounds((k - 1) as nat));
    }
}

/// A run of at most so many tries.
pub open spec fn ran(s: Sources, r: Run, tries: nat) -> Run
    decreases tries,
{
    if tries > 0 && r.at.asked() is Some {
        ran(s, ran_one(s, r), (tries - 1) as nat)
    } else {
        r
    }
}

/// What holds throughout a run: a source has loaded, is broken, was put off in this
/// round or is still to be tried in it; and while nothing has loaded in this round,
/// nothing that was put off resolves.
spec fn running(s: Sources, n: nat, r: Run) -> bool {
    &&& r.at.wf()
    &&& r.at.pending.len() <= usize::MAX
    &&& forall|i: usize| i < n && !(s.broken)(i) ==> #[trigger] r.loaded.contains(i)
        || r.at.deferred.contains(i) || r.at.pending.skip(r.at.next as int).contains(i)
    &&& forall|k: int| 0 <= k < r.at.pending.len() ==> #[trigger] r.at.pending[k] < n
    &&& forall|k: int| 0 <= k < r.at.deferred.len() ==> #[trigger] r.at.deferred[k] < n
    &&& forall|i: usize| #[trigger] r.loaded.contains(i) ==> s.loadable(n, i)
    &&& r.at.deferred.len() == r.at.next ==> forall|k: int|
        0 <= k < r.at.deferred.len() ==> !s.resolves(r.loaded, #[trigger] r.at.deferred[k])
    &&& r.at.next == r.at.pending.len() ==> r.at.deferred.len() == 0 || r.at.deferred.len()
        == r.at.pending.len()
}

proof fn lemma_ran_one(s: Sources, n: nat, r: Run)
    requires
        running(s, n, r),
        r.at.asked() is Some,
    ensures
        running(s, n, ran_one(s, r)),
{
    let i = r.at.asked()->0;
    let missing = !(s.broken)(i) && !s.resolves(r.loaded, i);
    let t = r.at.tried(missing);
    let q = ran_one(s, r);
    lemma_tries_left(r.at, missing);
    assert(i == r.at.pending[r.at.next as int]);
    assert forall|j: usize| i < n && #[trigger] q.loaded.contains(j) implies s.loadable(n, j) by {
        if j == i && !r.loaded.contains(j) {
            assert forall|c: Set<usize>| #[trigger] s.closed(n, c) implies c.contains(i) by {
                assert forall|name: Seq<char>| #[trigger] (s.needs)(i).contains(name) implies s.known(
                    c,
                    name,
                ) by {
                    assert(s.known(r.loaded, name));
                    let d = choose|d: usize|
                        r.loaded.contains(d) && #[trigger] (s.defines)(d).contains(name);
                    assert(s.loadable(n, d));
                    assert(c.contains(d));
                }
                assert(s.resolves(c, i));
            }
        }
    }
    let rest = r.at.pending.skip(r.at.next as int);
    assert(t.pending.skip(t.next as int) =~= rest.skip(1));
    assert forall|j: usize| j < n && !(s.broken)(j) implies #[trigger] q.loaded.contains(j)
        || t.deferred.contains(j) || t.pending.skip(t.next as int).contains(j) by {
        if r.at.deferred.contains(j) {
            let k = r.at.deferred.index_of(j);
            assert(t.deferred[k] == j);
        } else if rest.contains(j) && !r.loaded.contains(j) {
            let k = rest.index_of(j);
            if k == 0 {
                assert(j == i);
                if missing {
                    assert(t.deferred[t.deferred.len() - 1] == i);
                }
            } else {
                assert(rest.skip(1)[k - 1] == j);
            }
        }
    }
    if t.rounded() != t {
        assert forall|j: usize| j < n && !(s.broken)(j) implies #[trigger] q.loaded.contains(j)
            || q.at.deferred.contains(j) || q.at.pending.skip(0).contains(j) by {
            assert(t.pending.skip(t.next as int) =~= Seq::empty());
            assert(q.at.pending.skip(0) =~= t.deferred);
        }
    }
    if missing && t.deferred.len() == t.next {
        assert forall|k: int| 0 <= k < t.deferred.len() implies !s.resolves(
            q.loaded,
            #[trigger] t.deferred[k],
        ) by {
            if k < r.at.deferred.len() {
                assert(t.deferred[k] == r.at.deferred[k]);
            }
        }
    }
    assert forall|k: int| 0 <= k < t.deferred.len() implies #[trigger] t.deferred[k] < n by {
        if k < r.at.deferred.len() {
            assert(t.deferred[k] == r.at.deferred[k]);
        }
    }
}

proof fn lemma_ran(s: Sources, n: nat, r: Run, tries: nat)
    requires
        running(s, n, r),
        tries >= r.at.tries_left(),
    ensures
        running(s, n, ran(s, r, tries)),
        ran(s, r, tries).at.asked() is None,
    decreases tries,
{
    if r.at.asked() is Some {
        let i = r.at.asked()->0;
        lemma_tries_left(r.at, !(s.broken)(i) && !s.resolves(r.loaded, i));
        lemma_ran_one(s, n, r);
        lemma_ran(s, n, ran_one(s, r), (tries - 1) as nat);
    }
}

/// All of `n` sources still to be tried, and none loaded.
pub open spec fn outset(n: nat) -> Run {
    Run {
        at: LoadingView {
            pending: Seq::new(n, |i: int| i as usize),
            next: 0,
            deferred: Seq::empty(),
        },
        loaded: Set::empty(),
    }
}

/// Loading comes to an end, and runs to a fixpoint: what loads is just what can, whatever
/// the order of the sources.
pub proof fn law_loading_reaches_the_fixpoint(s: Sources, n: usize, tries: nat, i: usize)
    requires
        tries >= rounds(n as nat),
    ensures
        ran(s, outset(n as nat), tries).at.asked() is None,
        ran(s, outset(n as nat), tries).loaded.contains(i) <==> s.loadable(n as nat, i),
{
    let first = outset(n as nat);
    assert(running(s, n as nat, first)) by {
        assert forall|j: usize| j < n && !(s.broken)(j) implies #[trigger] first.loaded.contains(j)
            || first.at.deferred.contains(j) || first.at.pending.skip(0).contains(j) by {
            assert(first.at.pending.skip(0)[j as int] == j);
        }
    }
    lemma_ran(s, n as nat, first, tries);
    let last = ran(s, first, tries);
    assert(s.closed(n as nat, last.loaded)) by {
        assert forall|j: usize| j < n && !(s.broken)(j) && #[trigger] s.resolves(
            last.loaded,
            j,
        ) implies last.loaded.contains(j) by {
            assert(last.at.pending.skip(last.at.next as int) =~= Seq::empty());
            if !last.loaded.contains(j) {
                assert(last.at.deferred.contains(j));
                let k = last.at.deferred.index_of(j);
                assert(last.at.deferred[k] == j);
            }
        }
    }
}

/// The source that a name belongs to: its own, or else that of the name it is nested
/// under, or else the default.
pub open spec fn source_of(
    segments: Seq<Seq<char>>,
    sources: Map<Seq<char>, Seq<char>>,
    default: Seq<char>,
) -> Seq<char>
    decreases segments.len(),
{
    if sources.contains_key(name::spelled(segments)) {
        sources[name::spelled(segments)]
    } else if segments.len() > 1 {
        source_of(segments.drop_last(), sources, default)
    } else {
        default
    }
}

/// The listed names that belong to a source.
pub open spec fn belonging(
    names: Seq<Seq<char>>,
    sources: Map<Seq<char>, Seq<char>>,
    default: Seq<char>,
    source: Seq<char>,
) -> Seq<Seq<char>>
    decreases names.len(),
{
    if names.len() == 0 {
        Seq::empty()
    } else {
        let init = belonging(names.drop_last(), sources, default, source);
        if source_of(name::split(names.last()), sources, default) == source {
            init.push(names.last())
        } else {
            init
        }
    }
}

fn find_source(name: Name, sources: &Table<String, String>, default: &String) -> (r: String)
    ensures
        r@ == source_of(name@, table::views(sources@), default@),
    decreases name@.len(),
{
    match sources.get(&name.to_text()) {
        Some(s) => s.clone(),
        None => match name.parent() {
            Some(p) => find_source(p, sources, default),
            None => default.clone(),
        },
    }
}

/// Sorts names by the source that they belong to. A nested name without a source of its
/// own belongs where the name that it is nested under does; all others without one
/// belong to the default.
pub fn partition_names(names: &Vec<String>, sources: &Table<String, String>, default: &String) -> (r:
    Table<String, Vec<String>>)
    ensures
        forall|s: Seq<char>| #[trigger]
            r@.contains_key(s) <==> belonging(
                text::texts(names@),
                table::views(sources@),
                default@,
                s,
            ).len() > 0,
        forall|s: Seq<char>| #[trigger]
            r@.contains_key(s) ==> text::texts(r@[s]@) == belonging(
                text::texts(names@),
                table::views(sources@),
                default@,
                s,
            ),
{
    let ghost all = text::texts(names@);
    let ghost sv = table::views(sources@);
    let mut r: Table<String, Vec<String>> = Table::new();
    let mut i: usize = 0;
    assert(all.take(0) =~= Seq::empty());
    while i < names.len()
        invariant
            all == text::texts(names@),
            sv == table::views(sources@),
            i <= names@.len(),
            forall|s: Seq<char>| #[trigger]
                r@.contains_key(s) <==> belonging(all.take(i as int), sv, default@, s).len() > 0,
            forall|s: Seq<char>| #[trigger]
                r@.contains_key(s) ==> text::texts(r@[s]@) == belonging(
                    all.take(i as int),
                    sv,
                    default@,
                    s,
                ),
        decreases names@.len() - i,
    {
        let n = Name::parse(names[i].as_str());
        let source = find_source(n, sources, default);
        let ghost before = r@;
        let ghost src = source@;
        proof {
            assert(all.take(i + 1).drop_last() =~= all.take(i as int));
            assert(all.take(i + 1).last() == names@[i as int]@);
        }
        let mut list: Vec<String> = match r.take(&source) {
            Some(l) => l,
            None => Vec::new(),
        };
        let ghost l0 = list@;
        assert(text::texts(l0) =~= belonging(all.take(i as int), sv, default@, src)) by {
            if before.contains_key(src) {
            } else {
                assert(belonging(all.take(i as int), sv, default@, src).len() == 0);
            }
        }
        list.push(names[i].clone());
        assert(text::texts(list@) =~= text::texts(l0).push(names@[i as int]@));
        let ghost l1 = list;
        r.insert(source, list);
        proof {
            assert(r@ =~= before.insert(src, l1));
            assert forall|s: Seq<char>| #[trigger]
                r@.contains_key(s) <==> belonging(all.take(i + 1), sv, default@, s).len() > 0 by {
                assert(before.contains_key(s) <==> belonging(
                    all.take(i as int),
                    sv,
                    default@,
                    s,
                ).len() > 0);
            }
            assert forall|s: Seq<char>| #[trigger] r@.contains_key(s) implies text::texts(r@[s]@)
                == belonging(all.take(i + 1), sv, default@, s) by {
                if s != src {
                    assert(before.contains_key(s));
                }
            }
        }
        i = i + 1;
    }
    assert(all.take(i as int) =~= all);
    r
}

} // verus!
