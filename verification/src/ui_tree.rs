//! Interpreting element trees: what a declarative UI tree draws, in which order,
//! with which identities and bindings.
//!
//! A widget's `bind` path is relative to the graph that its tree was defined in: the
//! path it reads is the tree's instance prefix, the enclosing scopes and the bind
//! path, one after the other.
//!
//! An element's identity derives from that of the tree's root, its position beneath
//! its parent or its key where it has one, and the enclosing scopes. Text never
//! contributes, so relabelling never resets a widget.

use crate::dsp::Float;
use vstd::prelude::*;
use vstd::string::*;

verus! {

/// Where children stand across a container's direction.
#[derive(Clone, Copy, Debug, PartialEq, Eq, Hash, Structural)]
pub enum Align {
    Start,
    Center,
    End,
}

/// The path of the state that a widget is bound to.
#[derive(Debug)]
pub struct BindPath(pub Vec<usize>);

/// What an element is told apart from its siblings by, wherever it stands.
#[derive(Debug)]
pub enum ElementKey {
    Str(String),
    Int(i64),
}

/// An element of a tree.
#[derive(Debug)]
#[allow(inconsistent_fields)]
pub enum Element {
    Col { gap: Option<Float>, align: Option<Align>, key: Option<ElementKey>, children: Vec<Element> },
    Row { gap: Option<Float>, align: Option<Align>, key: Option<ElementKey>, children: Vec<Element> },
    Grid { cols: u32, gap: Option<Float>, key: Option<ElementKey>, children: Vec<Element> },
    Frame { title: Option<String>, key: Option<ElementKey>, children: Vec<Element> },
    Sep { key: Option<ElementKey> },
    Space { amount: Option<Float>, key: Option<ElementKey> },
    /// Children whose bindings lie beneath a node.
    Scope { id: usize, key: Option<ElementKey>, children: Vec<Element> },
    Dialer { key: Option<ElementKey> },
    Toggle { key: Option<ElementKey> },
    Button { key: Option<ElementKey> },
    Matrix { key: Option<ElementKey> },
    Label {
        text: String,
        size: Option<Float>,
        color: Option<[u8; 4]>,
        key: Option<ElementKey>,
    },
    Value { bind: Option<BindPath>, wrap: bool, key: Option<ElementKey> },
    Plot { key: Option<ElementKey> },
    /// The GUI of a referenced graph.
    RefGui { id: usize, key: Option<ElementKey> },
    /// What could not be decoded, in place.
    Error { reason: String, path: Vec<usize>, key: Option<ElementKey> },
}

/// What tells an element apart beneath its parent.
#[derive(Debug)]
pub enum Salt {
    Key(String),
    KeyInt(i64),
    Position(usize),
    Scope(usize),
}

/// What a [`Salt`] denotes.
pub enum SaltView {
    Key(Seq<char>),
    KeyInt(i64),
    Position(usize),
    Scope(usize),
}

impl View for Salt {
    type V = SaltView;

    open spec fn view(&self) -> SaltView {
        match self {
            Salt::Key(s) => SaltView::Key(s@),
            Salt::KeyInt(i) => SaltView::KeyInt(*i),
            Salt::Position(n) => SaltView::Position(*n),
            Salt::Scope(n) => SaltView::Scope(*n),
        }
    }
}

/// What a list of salts denotes.
pub open spec fn salts(s: Seq<Salt>) -> Seq<SaltView> {
    s.map_values(|x: Salt| x@)
}

/// One thing to draw, or the start or end of a group of things.
#[derive(Debug)]
#[allow(inconsistent_fields)]
pub enum Op {
    /// Starts a column.
    Col { align: Align, gap: Option<Float> },
    /// Starts a row.
    Row { align: Align, gap: Option<Float> },
    /// Starts a grid of so many columns, identified by a path from the root.
    Grid { id: Vec<Salt>, cols: usize, gap: Option<Float> },
    /// Ends a row of a grid.
    EndRow,
    /// Starts a frame.
    Frame { title: Option<String> },
    /// Ends what was started last.
    Close,
    Sep,
    /// Space along the layout, of the usual size if none is given.
    Space { amount: Option<Float> },
    /// A chip in place of a widget that cannot be drawn yet.
    Chip { tag: &'static str },
    Label { text: String, size: Option<Float>, color: Option<[u8; 4]> },
    /// The value at a path, or nothing.
    Value { path: Option<Vec<usize>>, wrap: bool },
    RefGui { id: usize },
    Error { reason: String, path: Vec<usize> },
}

/// What an [`Op`] denotes.
#[allow(inconsistent_fields)]
pub enum OpView {
    Col { align: Align, gap: Option<Float> },
    Row { align: Align, gap: Option<Float> },
    Grid { id: Seq<SaltView>, cols: int, gap: Option<Float> },
    EndRow,
    Frame { title: Option<Seq<char>> },
    Close,
    Sep,
    Space { amount: Option<Float> },
    Chip { tag: Seq<char> },
    Label { text: Seq<char>, size: Option<Float>, color: Option<[u8; 4]> },
    Value { path: Option<Seq<usize>>, wrap: bool },
    RefGui { id: usize },
    Error { reason: Seq<char>, path: Seq<usize> },
}

/// What an optional text denotes.
pub open spec fn text_view(s: Option<String>) -> Option<Seq<char>> {
    match s {
        Some(t) => Some(t@),
        None => None,
    }
}

impl View for Op {
    type V = OpView;

    open spec fn view(&self) -> OpView {
        match self {
            Op::Col { align, gap } => OpView::Col { align: *align, gap: *gap },
            Op::Row { align, gap } => OpView::Row { align: *align, gap: *gap },
            Op::Grid { id, cols, gap } => OpView::Grid {
                id: salts(id@),
                cols: *cols as int,
                gap: *gap,
            },
            Op::EndRow => OpView::EndRow,
            Op::Frame { title } => OpView::Frame { title: text_view(*title) },
            Op::Close => OpView::Close,
            Op::Sep => OpView::Sep,
            Op::Space { amount } => OpView::Space { amount: *amount },
            Op::Chip { tag } => OpView::Chip { tag: tag@ },
            Op::Label { text, size, color } => OpView::Label {
                text: text@,
                size: *size,
                color: *color,
            },
            Op::Value { path, wrap } => OpView::Value {
                path: match path {
                    Some(p) => Some(p@),
                    None => None,
                },
                wrap: *wrap,
            },
            Op::RefGui { id } => OpView::RefGui { id: *id },
            Op::Error { reason, path } => OpView::Error { reason: reason@, path: path@ },
        }
    }
}

/// What a list of things to draw denotes.
pub open spec fn op_views(s: Seq<Op>) -> Seq<OpView> {
    s.map_values(|o: Op| o@)
}

impl Element {
    /// The element's key.
    pub open spec fn key_of(&self) -> Option<ElementKey> {
        match self {
            Element::Col { key, .. } => *key,
            Element::Row { key, .. } => *key,
            Element::Grid { key, .. } => *key,
            Element::Frame { key, .. } => *key,
            Element::Sep { key } => *key,
            Element::Space { key, .. } => *key,
            Element::Scope { key, .. } => *key,
            Element::Dialer { key } => *key,
            Element::Toggle { key } => *key,
            Element::Button { key } => *key,
            Element::Matrix { key } => *key,
            Element::Label { key, .. } => *key,
            Element::Value { key, .. } => *key,
            Element::Plot { key } => *key,
            Element::RefGui { key, .. } => *key,
            Element::Error { key, .. } => *key,
        }
    }

    /// The element's key.
    pub fn key(&self) -> (r: &Option<ElementKey>)
        ensures
            *r == self.key_of(),
    {
        match self {
            Element::Col { key, .. } => key,
            Element::Row { key, .. } => key,
            Element::Grid { key, .. } => key,
            Element::Frame { key, .. } => key,
            Element::Sep { key } => key,
            Element::Space { key, .. } => key,
            Element::Scope { key, .. } => key,
            Element::Dialer { key } => key,
            Element::Toggle { key } => key,
            Element::Button { key } => key,
            Element::Matrix { key } => key,
            Element::Label { key, .. } => key,
            Element::Value { key, .. } => key,
            Element::Plot { key } => key,
            Element::RefGui { key, .. } => key,
            Element::Error { key, .. } => key,
        }
    }
}

/// What tells a child apart beneath its parent: its position, or its key where it has
/// one.
pub open spec fn salt_of(position: usize, key: Option<ElementKey>) -> SaltView {
    match key {
        Some(ElementKey::Str(s)) => SaltView::Key(s@),
        Some(ElementKey::Int(i)) => SaltView::KeyInt(i),
        None => SaltView::Position(position),
    }
}

/// What tells a child apart beneath its parent: its position, or its key where it has
/// one.
pub fn child_salt(position: usize, key: &Option<ElementKey>) -> (r: Salt)
    ensures
        r@ == salt_of(position, *key),
{
    match key {
        Some(ElementKey::Str(s)) => Salt::Key(s.clone()),
        Some(ElementKey::Int(i)) => Salt::KeyInt(*i),
        None => Salt::Position(position),
    }
}

/// The full path of a binding: the tree's instance prefix, then the enclosing scopes,
/// then the bind path itself.
pub fn resolve_path(prefix: &[usize], scopes: &[usize], bind: &BindPath) -> (r: Vec<usize>)
    ensures
        r@ == prefix@ + scopes@ + bind.0@,
{
    let mut r: Vec<usize> = Vec::new();
    extend(&mut r, prefix);
    extend(&mut r, scopes);
    extend(&mut r, bind.0.as_slice());
    assert(r@ =~= prefix@ + scopes@ + bind.0@);
    r
}

fn extend(v: &mut Vec<usize>, s: &[usize])
    ensures
        final(v)@ == old(v)@ + s@,
{
    let mut i: usize = 0;
    assert(v@ =~= old(v)@ + s@.take(0));
    while i < s.len()
        invariant
            i <= s@.len(),
            v@ == old(v)@ + s@.take(i as int),
        decreases s@.len() - i,
    {
        v.push(s[i]);
        assert(s@.take(i + 1) =~= s@.take(i as int).push(s@[i as int]));
        i = i + 1;
    }
    assert(s@.take(i as int) =~= s@);
}

/// Where in a tree the walk stands.
pub ghost struct Place {
    /// The path of the instance that the tree is drawn for.
    pub prefix: Seq<usize>,
    /// The enclosing scopes.
    pub scopes: Seq<usize>,
    /// The identity, as a path from the root's.
    pub id: Seq<SaltView>,
}

impl Place {
    /// The place of a child.
    pub open spec fn child(self, position: usize, key: Option<ElementKey>) -> Place {
        Place { id: self.id.push(salt_of(position, key)), ..self }
    }

    /// The place inside a scope.
    pub open spec fn scoped(self, id: usize) -> Place {
        Place { scopes: self.scopes.push(id), id: self.id.push(SaltView::Scope(id)), ..self }
    }
}

/// The number of columns of a grid.
pub open spec fn grid_cols(cols: u32) -> int {
    if cols == 0 {
        1
    } else {
        cols as int
    }
}

/// What an element draws.
pub open spec fn drawn(e: Element, at: Place) -> Seq<OpView>
    decreases e, 0nat,
{
    match e {
        Element::Col { gap, align, key, children } => seq![
            OpView::Col {
                align: match align {
                    Some(a) => a,
                    None => Align::Start,
                },
                gap,
            },
        ] + drawn_children(children, children@.len(), at) + seq![OpView::Close],
        Element::Row { gap, align, key, children } => seq![
            OpView::Row {
                align: match align {
                    Some(a) => a,
                    None => Align::Center,
                },
                gap,
            },
        ] + drawn_children(children, children@.len(), at) + seq![OpView::Close],
        Element::Grid { cols, gap, key, children } => seq![
            OpView::Grid { id: at.id, cols: grid_cols(cols), gap },
        ] + drawn_cells(children, children@.len(), grid_cols(cols), at) + seq![OpView::Close],
        Element::Frame { title, key, children } => seq![
            OpView::Frame { title: text_view(title) },
        ] + drawn_children(children, children@.len(), at) + seq![OpView::Close],
        Element::Sep { key } => seq![OpView::Sep],
        Element::Space { amount, key } => seq![OpView::Space { amount }],
        Element::Scope { id, key, children } => drawn_children(
            children,
            children@.len(),
            at.scoped(id),
        ),
        Element::Dialer { key } => seq![OpView::Chip { tag: "dialer"@ }],
        Element::Toggle { key } => seq![OpView::Chip { tag: "toggle"@ }],
        Element::Button { key } => seq![OpView::Chip { tag: "button"@ }],
        Element::Matrix { key } => seq![OpView::Chip { tag: "matrix"@ }],
        Element::Label { text, size, color, key } => seq![
            OpView::Label { text: text@, size, color },
        ],
        Element::Value { bind, wrap, key } => seq![
            OpView::Value {
                path: match bind {
                    Some(b) => Some(at.prefix + at.scopes + b.0@),
                    None => None,
                },
                wrap,
            },
        ],
        Element::Plot { key } => seq![OpView::Chip { tag: "plot"@ }],
        Element::RefGui { id, key } => seq![OpView::RefGui { id }],
        Element::Error { reason, path, key } => seq![
            OpView::Error { reason: reason@, path: path@ },
        ],
    }
}

/// What the first `n` children draw.
pub open spec fn drawn_children(children: Vec<Element>, n: nat, at: Place) -> Seq<OpView>
    decreases children, n,
{
    if n == 0 || n > children@.len() {
        Seq::empty()
    } else {
        let e = children@[n - 1];
        drawn_children(children, (n - 1) as nat, at) + drawn(
            e,
            at.child((n - 1) as usize, e.key_of()),
        )
    }
}

/// What the first `n` cells of a grid draw: a row ends behind every `cols` cells.
pub open spec fn drawn_cells(children: Vec<Element>, n: nat, cols: int, at: Place) -> Seq<OpView>
    decreases children, n,
{
    if n == 0 || n > children@.len() {
        Seq::empty()
    } else {
        let e = children@[n - 1];
        let init = drawn_cells(children, (n - 1) as nat, cols, at) + drawn(
            e,
            at.child((n - 1) as usize, e.key_of()),
        );
        if n as int % cols == 0 {
            init.push(OpView::EndRow)
        } else {
            init
        }
    }
}

fn dup_salts(v: &Vec<Salt>) -> (r: Vec<Salt>)
    ensures
        salts(r@) == salts(v@),
{
    let mut r: Vec<Salt> = Vec::new();
    let mut i: usize = 0;
    while i < v.len()
        invariant
            i <= v@.len(),
            r@.len() == i,
            forall|j: int| 0 <= j < i ==> (#[trigger] r@[j])@ == v@[j]@,
        decreases v@.len() - i,
    {
        let x = match &v[i] {
            Salt::Key(s) => Salt::Key(s.clone()),
            Salt::KeyInt(n) => Salt::KeyInt(*n),
            Salt::Position(n) => Salt::Position(*n),
            Salt::Scope(n) => Salt::Scope(*n),
        };
        r.push(x);
        i = i + 1;
    }
    assert(salts(r@) =~= salts(v@));
    r
}

fn dup_text(s: &Option<String>) -> (r: Option<String>)
    ensures
        text_view(r) == text_view(*s),
{
    match s {
        Some(t) => Some(t.clone()),
        None => None,
    }
}

fn dup_indices(v: &Vec<usize>) -> (r: Vec<usize>)
    ensures
        r@ == v@,
{
    let mut r: Vec<usize> = Vec::new();
    extend(&mut r, v.as_slice());
    assert(r@ =~= v@);
    r
}

/// The state of a walk through one tree.
struct Walk {
    prefix: Vec<usize>,
    scopes: Vec<usize>,
    id: Vec<Salt>,
    ops: Vec<Op>,
}

impl Walk {
    spec fn place(&self) -> Place {
        Place { prefix: self.prefix@, scopes: self.scopes@, id: salts(self.id@) }
    }

    fn push(&mut self, op: Op)
        ensures
            final(self).place() == old(self).place(),
            op_views(final(self).ops@) == op_views(old(self).ops@).push(op@),
    {
        let ghost v = op@;
        self.ops.push(op);
        assert(op_views(self.ops@) =~= op_views(old(self).ops@).push(v));
    }

    /// Walks one element.
    fn element(&mut self, e: &Element)
        ensures
            final(self).place() == old(self).place(),
            op_views(final(self).ops@) == op_views(old(self).ops@) + drawn(*e, old(self).place()),
        decreases *e, 0nat, 1nat,
    {
        let ghost before = op_views(self.ops@);
        let ghost at = self.place();
        match e {
            Element::Col { gap, align, children, .. } => {
                let a = match align {
                    Some(a) => *a,
                    None => Align::Start,
                };
                self.push(Op::Col { align: a, gap: *gap });
                self.children(children);
                self.push(Op::Close);
            },
            Element::Row { gap, align, children, .. } => {
                let a = match align {
                    Some(a) => *a,
                    None => Align::Center,
                };
                self.push(Op::Row { align: a, gap: *gap });
                self.children(children);
                self.push(Op::Close);
            },
            Element::Grid { cols, gap, children, .. } => {
                let n: usize = if *cols == 0 {
                    1
                } else {
                    *cols as usize
                };
                let id = dup_salts(&self.id);
                self.push(Op::Grid { id, cols: n, gap: *gap });
                self.cells(children, n);
                self.push(Op::Close);
            },
            Element::Frame { title, children, .. } => {
                self.push(Op::Frame { title: dup_text(title) });
                self.children(children);
                self.push(Op::Close);
            },
            Element::Sep { .. } => {
                self.push(Op::Sep);
            },
            Element::Space { amount, .. } => {
                self.push(Op::Space { amount: *amount });
            },
            Element::Scope { id, children, .. } => {
                let ghost scopes = self.scopes@;
                let ghost ids = self.id@;
                self.scopes.push(*id);
                self.id.push(Salt::Scope(*id));
                proof {
                    assert(self.place() =~= at.scoped(*id)) by {
                        assert(salts(self.id@) =~= salts(ids).push(SaltView::Scope(*id)));
                    }
                }
                self.children(children);
                let ghost inner = self.id@;
                let _ = self.scopes.pop();
                let _ = self.id.pop();
                proof {
                    assert(self.scopes@ =~= scopes);
                    assert(salts(self.id@) =~= salts(inner).drop_last());
                    assert(salts(inner).drop_last() =~= salts(ids));
                }
            },
            Element::Dialer { .. } => {
                self.push(Op::Chip { tag: "dialer" });
            },
            Element::Toggle { .. } => {
                self.push(Op::Chip { tag: "toggle" });
            },
            Element::Button { .. } => {
                self.push(Op::Chip { tag: "button" });
            },
            Element::Matrix { .. } => {
                self.push(Op::Chip { tag: "matrix" });
            },
            Element::Label { text, size, color, .. } => {
                self.push(Op::Label { text: text.clone(), size: *size, color: *color });
            },
            Element::Value { bind, wrap, .. } => {
                let path = match bind {
                    Some(b) => Some(
                        resolve_path(self.prefix.as_slice(), self.scopes.as_slice(), b),
                    ),
                    None => None,
                };
                self.push(Op::Value { path, wrap: *wrap });
            },
            Element::Plot { .. } => {
                self.push(Op::Chip { tag: "plot" });
            },
            Element::RefGui { id, .. } => {
                self.push(Op::RefGui { id: *id });
            },
            Element::Error { reason, path, .. } => {
                self.push(Op::Error { reason: reason.clone(), path: dup_indices(path) });
            },
        }
        proof {
            assert(op_views(self.ops@) =~= before + drawn(*e, at));
        }
    }

    /// Walks one child.
    fn child(&mut self, children: &Vec<Element>, i: usize)
        requires
            i < children@.len(),
        ensures
            final(self).place() == old(self).place(),
            op_views(final(self).ops@) == op_views(old(self).ops@) + drawn(
                children@[i as int],
                old(self).place().child(i, children@[i as int].key_of()),
            ),
        decreases *children, 0nat, 0nat,
    {
        let e = &children[i];
        let ghost at = self.place();
        let ghost ids = self.id@;
        let salt = child_salt(i, e.key());
        let ghost sv = salt@;
        self.id.push(salt);
        proof {
            assert(salts(self.id@) =~= salts(ids).push(sv));
        }
        self.element(e);
        let ghost inner = self.id@;
        let _ = self.id.pop();
        proof {
            assert(salts(self.id@) =~= salts(inner).drop_last());
            assert(salts(inner).drop_last() =~= salts(ids));
        }
    }

    /// Walks the children of a container.
    fn children(&mut self, children: &Vec<Element>)
        ensures
            final(self).place() == old(self).place(),
            op_views(final(self).ops@) == op_views(old(self).ops@) + drawn_children(
                *children,
                children@.len(),
                old(self).place(),
            ),
        decreases *children, 1nat, 0nat,
    {
        let ghost before = op_views(self.ops@);
        let ghost at = self.place();
        let mut i: usize = 0;
        assert(before =~= before + drawn_children(*children, 0, at));
        while i < children.len()
            invariant
                i <= children@.len(),
                self.place() == at,
                op_views(self.ops@) == before + drawn_children(*children, i as nat, at),
            decreases children@.len() - i,
        {
            self.child(children, i);
            assert(op_views(self.ops@) =~= before + drawn_children(*children, (i + 1) as nat, at));
            i = i + 1;
        }
    }

    /// Walks the cells of a grid.
    fn cells(&mut self, children: &Vec<Element>, cols: usize)
        requires
            cols > 0,
        ensures
            final(self).place() == old(self).place(),
            op_views(final(self).ops@) == op_views(old(self).ops@) + drawn_cells(
                *children,
                children@.len(),
                cols as int,
                old(self).place(),
            ),
        decreases *children, 1nat, 0nat,
    {
        let ghost before = op_views(self.ops@);
        let ghost at = self.place();
        let mut i: usize = 0;
        assert(before =~= before + drawn_cells(*children, 0, cols as int, at));
        while i < children.len()
            invariant
                cols > 0,
                i <= children@.len(),
                self.place() == at,
                op_views(self.ops@) == before + drawn_cells(
                    *children,
                    i as nat,
                    cols as int,
                    at,
                ),
            decreases children@.len() - i,
        {
            self.child(children, i);
            if (i + 1) % cols == 0 {
                self.push(Op::EndRow);
            }
            assert(op_views(self.ops@) =~= before + drawn_cells(
                *children,
                (i + 1) as nat,
                cols as int,
                at,
            ));
            i = i + 1;
        }
    }
}

/// The identity of a widget in `egui`.
#[verifier::external_type_specification]
#[verifier::external_body]
pub struct ExId(egui::Id);

/// Calls `egui::Id::with`, which hashes a salt into an identity. Nothing is claimed of
/// the value that comes out: the hash differs between machines.
#[verifier::external_body]
fn with_salt<S: std::hash::Hash + std::fmt::Debug>(parent: egui::Id, salt: S) -> egui::Id {
    parent.with(salt)
}

/// Salts an identity through `with`, and says that what came back is an outcome of it.
fn salted_by<S, F: Fn(egui::Id, S) -> egui::Id>(with: F, parent: egui::Id, salt: S) -> (r: egui::Id)
    requires
        call_requires(with, (parent, salt)),
    ensures
        call_ensures(with, (parent, salt), r),
{
    with(parent, salt)
}

/// Whether `id` is what `egui::Id::with` gives beneath `parent` for what a salt is
/// hashed as: a key beside the text `k`, a scope beside the text `scope`, a position
/// alone.
pub closed spec fn salts_to(parent: egui::Id, salt: SaltView, id: egui::Id) -> bool {
    match salt {
        SaltView::Key(k) => exists|s: &str|
            s@ == k && #[trigger] call_ensures(with_salt::<(&str, &str)>, (parent, ("k", s)), id),
        SaltView::KeyInt(i) => call_ensures(with_salt::<(&str, i64)>, (parent, ("k", i)), id),
        SaltView::Position(n) => call_ensures(with_salt::<usize>, (parent, n), id),
        SaltView::Scope(n) => call_ensures(
            with_salt::<(&str, usize)>,
            (parent, ("scope", n)),
            id,
        ),
    }
}

/// The identity that a salt gives beneath a parent. Keys and positions are hashed
/// apart.
pub fn salted_id(parent: egui::Id, salt: &Salt) -> (r: egui::Id)
    ensures
        salts_to(parent, salt@, r),
{
    match salt {
        Salt::Key(s) => salted_by(with_salt::<(&str, &str)>, parent, ("k", s.as_str())),
        Salt::KeyInt(i) => salted_by(with_salt::<(&str, i64)>, parent, ("k", *i)),
        Salt::Position(n) => salted_by(with_salt::<usize>, parent, *n),
        Salt::Scope(n) => salted_by(with_salt::<(&str, usize)>, parent, ("scope", *n)),
    }
}

/// A child's identity: its position beneath `parent`, overridden by its key.
pub fn child_id(parent: egui::Id, position: usize, key: &Option<ElementKey>) -> (r: egui::Id)
    ensures
        salts_to(parent, salt_of(position, *key), r),
{
    salted_id(parent, &child_salt(position, key))
}

/// The outcome of interpreting a tree for one frame.
#[derive(Debug)]
pub struct UiTreeResponse {
    /// The identity that all others derive from.
    pub root_id: egui::Id,
    /// What is to be drawn, in order.
    pub ops: Vec<Op>,
    /// Whether anything is rendered that gives a response.
    pub rendered: bool,
}

/// Whether an operation renders something that gives a response: groups and space do
/// not.
pub open spec fn responds(o: OpView) -> bool {
    match o {
        OpView::Col { .. } => false,
        OpView::Row { .. } => false,
        OpView::Grid { .. } => false,
        OpView::EndRow => false,
        OpView::Frame { .. } => false,
        OpView::Close => false,
        OpView::Space { .. } => false,
        _ => true,
    }
}

/// Whether any of some operations renders something that gives a response.
pub open spec fn any_responds(s: Seq<OpView>) -> bool {
    exists|i: int| 0 <= i < s.len() && responds(#[trigger] s[i])
}

/// Whether any of some operations renders something that gives a response.
pub fn renders(ops: &Vec<Op>) -> (r: bool)
    ensures
        r == any_responds(op_views(ops@)),
{
    let ghost s = op_views(ops@);
    let mut i: usize = 0;
    while i < ops.len()
        invariant
            s == op_views(ops@),
            i <= ops@.len(),
            forall|j: int| 0 <= j < i ==> !responds(#[trigger] s[j]),
        decreases ops@.len() - i,
    {
        assert(s[i as int] == ops@[i as int]@);
        let yes = match &ops[i] {
            Op::Col { .. } => false,
            Op::Row { .. } => false,
            Op::Grid { .. } => false,
            Op::EndRow => false,
            Op::Frame { .. } => false,
            Op::Close => false,
            Op::Space { .. } => false,
            _ => true,
        };
        if yes {
            assert(responds(s[i as int]));
            return true;
        }
        i = i + 1;
    }
    false
}

/// Whether an element is or holds something besides groups, scopes and space.
pub open spec fn has_widget(e: Element) -> bool
    decreases e, 0nat,
{
    match e {
        Element::Col { children, .. } => any_widget(children, children@.len()),
        Element::Row { children, .. } => any_widget(children, children@.len()),
        Element::Grid { children, .. } => any_widget(children, children@.len()),
        Element::Frame { children, .. } => any_widget(children, children@.len()),
        Element::Scope { children, .. } => any_widget(children, children@.len()),
        Element::Space { .. } => false,
        _ => true,
    }
}

/// Whether any of the first `n` elements is or holds something besides groups, scopes and
/// space.
pub open spec fn any_widget(children: Vec<Element>, n: nat) -> bool
    decreases children, n,
{
    if n == 0 || n > children@.len() {
        false
    } else {
        any_widget(children, (n - 1) as nat) || has_widget(children@[n - 1])
    }
}

proof fn lemma_responds_join(s: Seq<OpView>, t: Seq<OpView>)
    ensures
        any_responds(s + t) == (any_responds(s) || any_responds(t)),
{
    let u = s + t;
    if any_responds(s) {
        let i = choose|i: int| 0 <= i < s.len() && responds(#[trigger] s[i]);
        assert(responds(u[i]));
    }
    if any_responds(t) {
        let i = choose|i: int| 0 <= i < t.len() && responds(#[trigger] t[i]);
        assert(responds(u[s.len() + i]));
    }
    if any_responds(u) {
        let i = choose|i: int| 0 <= i < u.len() && responds(#[trigger] u[i]);
        if i < s.len() {
            assert(responds(s[i]));
        } else {
            assert(responds(t[i - s.len()]));
        }
    }
}

proof fn lemma_responds_one(o: OpView)
    ensures
        any_responds(seq![o]) == responds(o),
{
    if responds(o) {
        assert(responds(seq![o][0]));
    }
}

proof fn lemma_children_respond(children: Vec<Element>, n: nat, cols: int, at: Place)
    ensures
        any_responds(drawn_children(children, n, at)) == any_widget(children, n),
        any_responds(drawn_cells(children, n, cols, at)) == any_widget(children, n),
    decreases children, n,
{
    if n == 0 || n > children@.len() {
    } else {
        let e = children@[n - 1];
        let place = at.child((n - 1) as usize, e.key_of());
        lemma_children_respond(children, (n - 1) as nat, cols, at);
        law_rendered_is_what_the_tree_holds(e, place);
        lemma_responds_join(drawn_children(children, (n - 1) as nat, at), drawn(e, place));
        let init = drawn_cells(children, (n - 1) as nat, cols, at) + drawn(e, place);
        lemma_responds_join(drawn_cells(children, (n - 1) as nat, cols, at), drawn(e, place));
        lemma_responds_one(OpView::EndRow);
        lemma_responds_join(init, seq![OpView::EndRow]);
        assert(init.push(OpView::EndRow) =~= init + seq![OpView::EndRow]);
    }
}

proof fn lemma_group_responds(o: OpView, inner: Seq<OpView>)
    requires
        !responds(o),
    ensures
        any_responds(seq![o] + inner + seq![OpView::Close]) == any_responds(inner),
{
    lemma_responds_one(o);
    lemma_responds_one(OpView::Close);
    lemma_responds_join(seq![o], inner);
    lemma_responds_join(seq![o] + inner, seq![OpView::Close]);
}

/// Something is rendered just where the tree has an element besides groups, scopes and
/// space.
pub proof fn law_rendered_is_what_the_tree_holds(e: Element, at: Place)
    ensures
        any_responds(drawn(e, at)) == has_widget(e),
    decreases e, 0nat,
{
    match e {
        Element::Col { gap, align, key, children } => {
            lemma_children_respond(children, children@.len(), 1, at);
            lemma_group_responds(drawn(e, at)[0], drawn_children(children, children@.len(), at));
        },
        Element::Row { gap, align, key, children } => {
            lemma_children_respond(children, children@.len(), 1, at);
            lemma_group_responds(drawn(e, at)[0], drawn_children(children, children@.len(), at));
        },
        Element::Grid { cols, gap, key, children } => {
            lemma_children_respond(children, children@.len(), grid_cols(cols), at);
            lemma_group_responds(
                drawn(e, at)[0],
                drawn_cells(children, children@.len(), grid_cols(cols), at),
            );
        },
        Element::Frame { title, key, children } => {
            lemma_children_respond(children, children@.len(), 1, at);
            lemma_group_responds(drawn(e, at)[0], drawn_children(children, children@.len(), at));
        },
        Element::Scope { id, key, children } => {
            lemma_children_respond(children, children@.len(), 1, at.scoped(id));
        },
        _ => {
            lemma_responds_one(drawn(e, at)[0]);
            assert(drawn(e, at) =~= seq![drawn(e, at)[0]]);
        },
    }
}

/// Interprets an element tree.
#[derive(Debug)]
pub struct UiTree {
    root_id: egui::Id,
    instance_prefix: Vec<usize>,
}

impl UiTree {
    /// The identity that the tree's identities derive from.
    pub closed spec fn root(&self) -> egui::Id {
        self.root_id
    }

    /// The path prepended to every binding.
    pub closed spec fn prefix(&self) -> Seq<usize> {
        self.instance_prefix@
    }

    /// Interprets a tree whose identities derive from `root_id`.
    pub fn new(root_id: egui::Id) -> (r: Self)
        ensures
            r.root() == root_id,
            r.prefix() == Seq::<usize>::empty(),
    {
        UiTree { root_id, instance_prefix: Vec::new() }
    }

    /// The path prepended to every binding: where the tree's graph is instanced.
    pub fn instance_prefix(self, prefix: Vec<usize>) -> (r: Self)
        ensures
            r.root() == self.root(),
            r.prefix() == prefix@,
    {
        UiTree { root_id: self.root_id, instance_prefix: prefix }
    }

    /// What the tree draws.
    pub fn show(self, tree: &Element) -> (r: UiTreeResponse)
        ensures
            r.root_id == self.root(),
            op_views(r.ops@) == drawn(
                *tree,
                (Place { prefix: self.prefix(), scopes: Seq::empty(), id: Seq::empty() }),
            ),
            r.rendered == has_widget(*tree),
    {
        let mut walk = Walk {
            prefix: self.instance_prefix,
            scopes: Vec::new(),
            id: Vec::new(),
            ops: Vec::new(),
        };
        proof {
            assert(salts(walk.id@) =~= Seq::<SaltView>::empty());
            assert(op_views(walk.ops@) =~= Seq::<OpView>::empty());
        }
        walk.element(tree);
        assert(op_views(walk.ops@) =~= drawn(
            *tree,
            (Place { prefix: self.prefix(), scopes: Seq::empty(), id: Seq::empty() }),
        ));
        proof {
            law_rendered_is_what_the_tree_holds(
                *tree,
                (Place { prefix: self.prefix(), scopes: Seq::empty(), id: Seq::empty() }),
            );
        }
        let rendered = renders(&walk.ops);
        UiTreeResponse { root_id: self.root_id, ops: walk.ops, rendered }
    }
}

/// What reading a bound value gave.
#[derive(Debug)]
pub enum Reading {
    /// A value, printed.
    Value(String),
    Nothing,
    Failed,
}

/// The text a value is drawn as.
pub open spec fn value_text_of(r: Reading) -> Seq<char> {
    match r {
        Reading::Value(s) => s@,
        Reading::Nothing => "\u{2205}"@,
        Reading::Failed => "ERR"@,
    }
}

/// The text a value is drawn as.
pub fn value_text(r: &Reading) -> (s: String)
    ensures
        s@ == value_text_of(*r),
{
    match r {
        Reading::Value(s) => s.clone(),
        Reading::Nothing => String::from_str("\u{2205}"),
        Reading::Failed => String::from_str("ERR"),
    }
}

/// A child with a key is told apart by the key alone: it keeps its identity wherever
/// it stands.
pub proof fn law_keyed_children_ignore_position(a: usize, b: usize, key: Option<ElementKey>)
    requires
        key is Some,
    ensures
        salt_of(a, key) == salt_of(b, key),
{
}

/// Siblings are told apart: two have the same salt only if both have the same key, or
/// neither has a key and they stand in the same position.
pub proof fn law_siblings_are_told_apart(
    a: usize,
    k: Option<ElementKey>,
    b: usize,
    l: Option<ElementKey>,
)
    requires
        salt_of(a, k) == salt_of(b, l),
    ensures
        match (k, l) {
            (Some(ElementKey::Str(s)), Some(ElementKey::Str(t))) => s@ == t@,
            (Some(ElementKey::Int(i)), Some(ElementKey::Int(j))) => i == j,
            (None, None) => a == b,
            _ => false,
        },
{
}

/// How deep the groups are nested behind the first `n` things: what is started less
/// what is ended.
pub open spec fn depth(s: Seq<OpView>, n: nat) -> int
    decreases n,
{
    if n == 0 || n > s.len() {
        0
    } else {
        depth(s, (n - 1) as nat) + match s[n - 1] {
            OpView::Col { .. } | OpView::Row { .. } | OpView::Grid { .. } | OpView::Frame { .. } => 1int,
            OpView::Close => -1int,
            _ => 0int,
        }
    }
}

/// Whether every group that is started is ended, and none is ended that was not
/// started.
pub open spec fn balanced(s: Seq<OpView>) -> bool {
    &&& forall|n: nat| n <= s.len() ==> #[trigger] depth(s, n) >= 0
    &&& depth(s, s.len()) == 0
}

proof fn lemma_depth_front(a: Seq<OpView>, b: Seq<OpView>, n: nat)
    requires
        n <= a.len(),
    ensures
        depth(a + b, n) == depth(a, n),
    decreases n,
{
    if n > 0 {
        lemma_depth_front(a, b, (n - 1) as nat);
    }
}

proof fn lemma_depth_back(a: Seq<OpView>, b: Seq<OpView>, n: nat)
    requires
        n <= b.len(),
    ensures
        depth(a + b, a.len() + n) == depth(a, a.len()) + depth(b, n),
    decreases n,
{
    if n == 0 {
        lemma_depth_front(a, b, a.len());
    } else {
        lemma_depth_back(a, b, (n - 1) as nat);
        assert((a + b)[a.len() + n - 1] == b[n - 1]);
    }
}

proof fn lemma_balanced_join(a: Seq<OpView>, b: Seq<OpView>)
    requires
        balanced(a),
        balanced(b),
    ensures
        balanced(a + b),
{
    let s = a + b;
    assert forall|n: nat| n <= s.len() implies #[trigger] depth(s, n) >= 0 by {
        if n <= a.len() {
            lemma_depth_front(a, b, n);
        } else {
            lemma_depth_back(a, b, (n - a.len()) as nat);
        }
    }
    lemma_depth_back(a, b, b.len());
}

proof fn lemma_balanced_one(op: OpView)
    requires
        !(op is Col || op is Row || op is Grid || op is Frame || op is Close),
    ensures
        balanced(seq![op]),
{
    let s = seq![op];
    assert(depth(s, 0) == 0);
    assert(depth(s, 1) == 0);
    assert forall|n: nat| n <= s.len() implies #[trigger] depth(s, n) >= 0 by {
        assert(n == 0 || n == 1);
    }
}

proof fn lemma_balanced_group(open: OpView, s: Seq<OpView>)
    requires
        open is Col || open is Row || open is Grid || open is Frame,
        balanced(s),
    ensures
        balanced(seq![open] + s + seq![OpView::Close]),
{
    let a = seq![open];
    let z = seq![OpView::Close];
    let t = a + s + z;
    assert(depth(a, 0) == 0);
    assert(depth(a, 1) == 1);
    lemma_depth_back(a, s, s.len());
    assert(depth(z, 0) == 0);
    assert(depth(z, 1) == -1);
    assert forall|n: nat| n <= t.len() implies #[trigger] depth(t, n) >= 0 by {
        if n <= (a + s).len() {
            lemma_depth_front(a + s, z, n);
            if n == 0 {
            } else {
                lemma_depth_back(a, s, (n - 1) as nat);
            }
        } else {
            lemma_depth_back(a + s, z, 1);
            assert(n == (a + s).len() + 1);
        }
    }
    lemma_depth_back(a + s, z, 1);
}

proof fn lemma_children_balanced(children: Vec<Element>, n: nat, at: Place)
    ensures
        balanced(drawn_children(children, n, at)),
    decreases children, n,
{
    if n == 0 || n > children@.len() {
    } else {
        let e = children@[n - 1];
        lemma_children_balanced(children, (n - 1) as nat, at);
        law_groups_are_closed(e, at.child((n - 1) as usize, e.key_of()));
        lemma_balanced_join(
            drawn_children(children, (n - 1) as nat, at),
            drawn(e, at.child((n - 1) as usize, e.key_of())),
        );
    }
}

proof fn lemma_cells_balanced(children: Vec<Element>, n: nat, cols: int, at: Place)
    ensures
        balanced(drawn_cells(children, n, cols, at)),
    decreases children, n,
{
    if n == 0 || n > children@.len() {
    } else {
        let e = children@[n - 1];
        lemma_cells_balanced(children, (n - 1) as nat, cols, at);
        law_groups_are_closed(e, at.child((n - 1) as usize, e.key_of()));
        let init = drawn_cells(children, (n - 1) as nat, cols, at) + drawn(
            e,
            at.child((n - 1) as usize, e.key_of()),
        );
        lemma_balanced_join(
            drawn_cells(children, (n - 1) as nat, cols, at),
            drawn(e, at.child((n - 1) as usize, e.key_of())),
        );
        lemma_balanced_one(OpView::EndRow);
        lemma_balanced_join(init, seq![OpView::EndRow]);
        assert(init.push(OpView::EndRow) =~= init + seq![OpView::EndRow]);
    }
}

/// Whatever the tree, every group that is started is ended, and none is ended that was
/// not started.
pub proof fn law_groups_are_closed(e: Element, at: Place)
    ensures
        balanced(drawn(e, at)),
    decreases e, 0nat,
{
    match e {
        Element::Col { gap, align, key, children } => {
            lemma_children_balanced(children, children@.len(), at);
            lemma_balanced_group(drawn(e, at)[0], drawn_children(children, children@.len(), at));
        },
        Element::Row { gap, align, key, children } => {
            lemma_children_balanced(children, children@.len(), at);
            lemma_balanced_group(drawn(e, at)[0], drawn_children(children, children@.len(), at));
        },
        Element::Grid { cols, gap, key, children } => {
            lemma_cells_balanced(children, children@.len(), grid_cols(cols), at);
            lemma_balanced_group(
                drawn(e, at)[0],
                drawn_cells(children, children@.len(), grid_cols(cols), at),
            );
        },
        Element::Frame { title, key, children } => {
            lemma_children_balanced(children, children@.len(), at);
            lemma_balanced_group(drawn(e, at)[0], drawn_children(children, children@.len(), at));
        },
        Element::Scope { id, key, children } => {
            lemma_children_balanced(children, children@.len(), at.scoped(id));
        },
        _ => {
            lemma_balanced_one(drawn(e, at)[0]);
            assert(drawn(e, at) =~= seq![drawn(e, at)[0]]);
        },
    }
}

/// Whether two elements are the same but for the texts of labels and the titles of
/// frames.
pub open spec fn relabelled(e: Element, f: Element) -> bool
    decreases e, 0nat,
{
    match (e, f) {
        (
            Element::Col { gap: g, align: a, key: k, children: c },
            Element::Col { gap: h, align: b, key: l, children: d },
        ) => g == h && a == b && k == l && relabelled_all(c, d, c@.len()) && c@.len() == d@.len(),
        (
            Element::Row { gap: g, align: a, key: k, children: c },
            Element::Row { gap: h, align: b, key: l, children: d },
        ) => g == h && a == b && k == l && relabelled_all(c, d, c@.len()) && c@.len() == d@.len(),
        (
            Element::Grid { cols: m, gap: g, key: k, children: c },
            Element::Grid { cols: n, gap: h, key: l, children: d },
        ) => m == n && g == h && k == l && relabelled_all(c, d, c@.len()) && c@.len() == d@.len(),
        (
            Element::Frame { title: _, key: k, children: c },
            Element::Frame { title: _, key: l, children: d },
        ) => k == l && relabelled_all(c, d, c@.len()) && c@.len() == d@.len(),
        (
            Element::Scope { id: i, key: k, children: c },
            Element::Scope { id: j, key: l, children: d },
        ) => i == j && k == l && relabelled_all(c, d, c@.len()) && c@.len() == d@.len(),
        (
            Element::Label { text: _, size: m, color: a, key: k },
            Element::Label { text: _, size: n, color: b, key: l },
        ) => m == n && a == b && k == l,
        _ => e == f,
    }
}

/// Whether the first `n` of some elements are the same but for texts.
pub open spec fn relabelled_all(c: Vec<Element>, d: Vec<Element>, n: nat) -> bool
    decreases c, n,
{
    if n == 0 || n > c@.len() {
        true
    } else {
        relabelled_all(c, d, (n - 1) as nat) && relabelled(c@[n - 1], d@[n - 1])
    }
}

/// Whether two operations are the same but for their text.
pub open spec fn same_but_text(a: OpView, b: OpView) -> bool {
    match (a, b) {
        (
            OpView::Label { text: _, size: m, color: c },
            OpView::Label { text: _, size: n, color: d },
        ) => m == n && c == d,
        (OpView::Frame { title: _ }, OpView::Frame { title: _ }) => true,
        _ => a == b,
    }
}

/// Whether two drawings are the same but for their texts.
pub open spec fn drawn_alike(s: Seq<OpView>, t: Seq<OpView>) -> bool {
    &&& s.len() == t.len()
    &&& forall|i: int| 0 <= i < s.len() ==> same_but_text(#[trigger] s[i], t[i])
}

proof fn lemma_children_alike(c: Vec<Element>, d: Vec<Element>, n: nat, cols: int, at: Place)
    requires
        n <= c@.len(),
        c@.len() == d@.len(),
        relabelled_all(c, d, n),
    ensures
        drawn_alike(drawn_children(c, n, at), drawn_children(d, n, at)),
        drawn_alike(drawn_cells(c, n, cols, at), drawn_cells(d, n, cols, at)),
    decreases c, n,
{
    if n > 0 {
        lemma_children_alike(c, d, (n - 1) as nat, cols, at);
        let (e, f) = (c@[n - 1], d@[n - 1]);
        assert(relabelled(e, f));
        assert(e.key_of() == f.key_of());
        law_relabelling_keeps_identity(e, f, at.child((n - 1) as usize, e.key_of()));
    }
}

/// Relabelling changes texts and nothing else: what is drawn, and what it is identified
/// by and bound to, stays as it was.
pub proof fn law_relabelling_keeps_identity(e: Element, f: Element, at: Place)
    requires
        relabelled(e, f),
    ensures
        drawn_alike(drawn(e, at), drawn(f, at)),
    decreases e, 0nat,
{
    match (e, f) {
        (Element::Col { children: c, .. }, Element::Col { children: d, .. }) => {
            lemma_children_alike(c, d, c@.len(), 1, at);
        },
        (Element::Row { children: c, .. }, Element::Row { children: d, .. }) => {
            lemma_children_alike(c, d, c@.len(), 1, at);
        },
        (Element::Grid { cols, children: c, .. }, Element::Grid { children: d, .. }) => {
            lemma_children_alike(c, d, c@.len(), grid_cols(cols), at);
        },
        (Element::Frame { children: c, .. }, Element::Frame { children: d, .. }) => {
            lemma_children_alike(c, d, c@.len(), 1, at);
        },
        (Element::Scope { id, children: c, .. }, Element::Scope { children: d, .. }) => {
            lemma_children_alike(c, d, c@.len(), 1, at.scoped(id));
        },
        _ => {},
    }
}

/// Children are drawn in their order, each after all before it and at a place of its own:
/// the parent's, with the child's key added, or its position where it has none. In a grid
/// a row ends after as many cells as there are columns.
pub proof fn law_children_are_drawn_in_order(c: Vec<Element>, n: int, cols: int, at: Place)
    requires
        0 <= n < c@.len() <= usize::MAX,
        cols > 0,
    ensures
        ({
            let salt = match c@[n].key_of() {
                Some(ElementKey::Str(s)) => SaltView::Key(s@),
                Some(ElementKey::Int(i)) => SaltView::KeyInt(i),
                None => SaltView::Position(n as usize),
            };
            let place = Place { prefix: at.prefix, scopes: at.scopes, id: at.id.push(salt) };
            let end = if (n + 1) % cols == 0 {
                seq![OpView::EndRow]
            } else {
                Seq::empty()
            };
            &&& drawn_children(c, (n + 1) as nat, at) == drawn_children(c, n as nat, at) + drawn(
                c@[n],
                place,
            )
            &&& drawn_cells(c, (n + 1) as nat, cols, at) == drawn_cells(c, n as nat, cols, at)
                + drawn(c@[n], place) + end
        }),
        drawn_children(c, 0, at).len() == 0,
        drawn_cells(c, 0, cols, at).len() == 0,
{
    let e = c@[n];
    let init = drawn_cells(c, n as nat, cols, at) + drawn(e, at.child(n as usize, e.key_of()));
    assert(init + seq![OpView::EndRow] =~= init.push(OpView::EndRow));
    assert(init + Seq::<OpView>::empty() =~= init);
}

/// A group is drawn around all of its children, with its own settings: those in a row are
/// centred and those in a column start at its edge where nothing else is asked for. A
/// grid has a column at least, and a scope draws its children alone.
pub proof fn law_groups_are_drawn_around_their_children(e: Element, at: Place)
    ensures
        ({
            let d = drawn(e, at);
            let inside = d.subrange(1, d.len() - 1);
            match e {
                Element::Col { gap, align, children, .. } => {
                    &&& d[0] == (OpView::Col { align: d[0]->Col_align, gap })
                    &&& align is Some ==> d[0]->Col_align == align->0
                    &&& align is None ==> d[0]->Col_align is Start
                    &&& inside == drawn_children(children, children@.len(), at)
                    &&& d.last() is Close
                },
                Element::Row { gap, align, children, .. } => {
                    &&& d[0] == (OpView::Row { align: d[0]->Row_align, gap })
                    &&& align is Some ==> d[0]->Row_align == align->0
                    &&& align is None ==> d[0]->Row_align is Center
                    &&& inside == drawn_children(children, children@.len(), at)
                    &&& d.last() is Close
                },
                Element::Grid { cols, gap, children, .. } => {
                    let n: int = if cols == 0 {
                        1
                    } else {
                        cols as int
                    };
                    &&& d[0] == (OpView::Grid { id: at.id, cols: n, gap })
                    &&& inside == drawn_cells(children, children@.len(), n, at)
                    &&& d.last() is Close
                },
                Element::Frame { title, children, .. } => {
                    &&& d[0] is Frame
                    &&& title is Some ==> d[0]->title == Some(title->0@)
                    &&& title is None ==> d[0]->title is None
                    &&& inside == drawn_children(children, children@.len(), at)
                    &&& d.last() is Close
                },
                Element::Scope { id, children, .. } => d == drawn_children(
                    children,
                    children@.len(),
                    Place {
                        prefix: at.prefix,
                        scopes: at.scopes.push(id),
                        id: at.id.push(SaltView::Scope(id)),
                    },
                ),
                _ => d.len() == 1,
            }
        }),
{
    let d = drawn(e, at);
    match e {
        Element::Col { children, .. } => {
            assert(d.subrange(1, d.len() - 1) =~= drawn_children(children, children@.len(), at));
        },
        Element::Row { children, .. } => {
            assert(d.subrange(1, d.len() - 1) =~= drawn_children(children, children@.len(), at));
        },
        Element::Grid { cols, children, .. } => {
            assert(d.subrange(1, d.len() - 1) =~= drawn_cells(
                children,
                children@.len(),
                grid_cols(cols),
                at,
            ));
        },
        Element::Frame { children, .. } => {
            assert(d.subrange(1, d.len() - 1) =~= drawn_children(children, children@.len(), at));
        },
        _ => {},
    }
}

/// A leaf is drawn with what it holds. A value that is bound reads from its own path,
/// below the scopes that it stands in and the instance that the tree belongs to.
pub proof fn law_leaves_are_drawn_with_what_they_hold(e: Element, at: Place)
    ensures
        match e {
            Element::Label { text, size, color, .. } => drawn(e, at) == seq![
                OpView::Label { text: text@, size, color },
            ],
            Element::Value { bind, wrap, .. } => {
                &&& drawn(e, at).len() == 1
                &&& drawn(e, at)[0] is Value
                &&& drawn(e, at)[0]->wrap == wrap
                &&& bind is None ==> drawn(e, at)[0]->Value_path is None
                &&& bind is Some ==> drawn(e, at)[0]->Value_path == Some(
                    at.prefix + at.scopes + (bind->0).0@,
                )
            },
            Element::Space { amount, .. } => drawn(e, at) == seq![OpView::Space { amount }],
            Element::Sep { .. } => drawn(e, at) == seq![OpView::Sep],
            Element::RefGui { id, .. } => drawn(e, at) == seq![OpView::RefGui { id }],
            Element::Error { reason, path, .. } => drawn(e, at) == seq![
                OpView::Error { reason: reason@, path: path@ },
            ],
            _ => true,
        },
{
}

} // verus!
