//! The registry: graphs, commits and blobs by address, and sections of metadata.

use crate::addr::ContentAddr;
use crate::commit::{self, Commit, CommitAddr, CommitView, Timestamp};
use crate::graph::GraphAddr;
use crate::hash::{self, Hasher};
use crate::name::Name;
use crate::order::Key;
use crate::table::{self, Select, Table};
use vstd::prelude::*;
use vstd::string::*;

verus! {

/// A graph as a registry stores it.
pub trait Payload: View + Sized {
    /// The same graph.
    fn dup(&self) -> (r: Self)
        ensures
            r@ == self@,
    ;
}

/// How a section's entries meet those of a registry merged in.
#[derive(Clone, Copy, Debug, PartialEq, Eq, Hash, Structural)]
pub enum MergePolicy {
    /// The entry that is there stays.
    KeepExisting,
    /// The incoming entry takes its place.
    TakeIncoming,
}

/// How long a section's entries live.
#[derive(Clone, Copy, Debug, PartialEq, Eq, Hash, Structural)]
pub enum Liveness {
    /// The entries' commits are the roots of what is live.
    Root,
    /// Always.
    Pinned,
    /// As long as the name they are keyed by has a live head.
    WithName,
    /// As long as the commit they are keyed by is live.
    WithCommit,
    /// As long as the graph they are keyed by is live.
    WithGraph,
}

/// How long a store's blobs live.
#[derive(Clone, Copy, Debug, PartialEq, Eq, Hash, Structural)]
pub enum BlobLiveness {
    /// Always.
    Pinned,
    /// As long as a live graph refers to them.
    ContentReferenced,
    /// As long as a live section entry refers to them.
    SectionReferenced,
}

/// What a section's entries are keyed by.
#[derive(Debug)]
pub enum SectionKey {
    Name(Name),
    Commit(CommitAddr),
    Graph(GraphAddr),
    Addr(ContentAddr),
}

/// What a [`SectionKey`] denotes.
pub enum KeyView {
    Name(Seq<Seq<char>>),
    Commit(CommitAddr),
    Graph(GraphAddr),
    Addr(ContentAddr),
}

impl View for SectionKey {
    type V = KeyView;

    open spec fn view(&self) -> KeyView {
        match self {
            SectionKey::Name(n) => KeyView::Name(n@),
            SectionKey::Commit(c) => KeyView::Commit(*c),
            SectionKey::Graph(g) => KeyView::Graph(*g),
            SectionKey::Addr(a) => KeyView::Addr(*a),
        }
    }
}

impl KeyView {
    /// The place of the key's kind.
    pub open spec fn kind(self) -> int {
        match self {
            KeyView::Name(_) => 0,
            KeyView::Commit(_) => 1,
            KeyView::Graph(_) => 2,
            KeyView::Addr(_) => 3,
        }
    }
}

impl SectionKey {
    fn kind(&self) -> (r: u8)
        ensures
            r == self@.kind(),
    {
        match self {
            SectionKey::Name(_) => 0,
            SectionKey::Commit(_) => 1,
            SectionKey::Graph(_) => 2,
            SectionKey::Addr(_) => 3,
        }
    }
}

impl Key for SectionKey {
    open spec fn precedes(a: KeyView, b: KeyView) -> bool {
        a.kind() < b.kind() || match (a, b) {
            (KeyView::Name(x), KeyView::Name(y)) => Name::precedes(x, y),
            (KeyView::Commit(x), KeyView::Commit(y)) => CommitAddr::precedes(x, y),
            (KeyView::Graph(x), KeyView::Graph(y)) => GraphAddr::precedes(x, y),
            (KeyView::Addr(x), KeyView::Addr(y)) => ContentAddr::precedes(x, y),
            _ => false,
        }
    }

    proof fn lemma_irreflexive(a: KeyView) {
        match a {
            KeyView::Name(x) => Name::lemma_irreflexive(x),
            KeyView::Commit(x) => CommitAddr::lemma_irreflexive(x),
            KeyView::Graph(x) => GraphAddr::lemma_irreflexive(x),
            KeyView::Addr(x) => ContentAddr::lemma_irreflexive(x),
        }
    }

    proof fn lemma_transitive(a: KeyView, b: KeyView, c: KeyView) {
        match (a, b, c) {
            (KeyView::Name(x), KeyView::Name(y), KeyView::Name(z)) => Name::lemma_transitive(
                x,
                y,
                z,
            ),
            (KeyView::Commit(x), KeyView::Commit(y), KeyView::Commit(z)) => {
                CommitAddr::lemma_transitive(x, y, z)
            },
            (KeyView::Graph(x), KeyView::Graph(y), KeyView::Graph(z)) => {
                GraphAddr::lemma_transitive(x, y, z)
            },
            (KeyView::Addr(x), KeyView::Addr(y), KeyView::Addr(z)) => {
                ContentAddr::lemma_transitive(x, y, z)
            },
            _ => {},
        }
    }

    proof fn lemma_total(a: KeyView, b: KeyView) {
        match (a, b) {
            (KeyView::Name(x), KeyView::Name(y)) => Name::lemma_total(x, y),
            (KeyView::Commit(x), KeyView::Commit(y)) => CommitAddr::lemma_total(x, y),
            (KeyView::Graph(x), KeyView::Graph(y)) => GraphAddr::lemma_total(x, y),
            (KeyView::Addr(x), KeyView::Addr(y)) => ContentAddr::lemma_total(x, y),
            _ => {},
        }
    }

    fn before(&self, other: &Self) -> (r: bool) {
        self.kind() < other.kind() || match (self, other) {
            (SectionKey::Name(x), SectionKey::Name(y)) => x.before(y),
            (SectionKey::Commit(x), SectionKey::Commit(y)) => x.before(y),
            (SectionKey::Graph(x), SectionKey::Graph(y)) => x.before(y),
            (SectionKey::Addr(x), SectionKey::Addr(y)) => x.before(y),
            _ => false,
        }
    }

    fn same(&self, other: &Self) -> (r: bool) {
        match (self, other) {
            (SectionKey::Name(x), SectionKey::Name(y)) => x.same(y),
            (SectionKey::Commit(x), SectionKey::Commit(y)) => x.same(y),
            (SectionKey::Graph(x), SectionKey::Graph(y)) => x.same(y),
            (SectionKey::Addr(x), SectionKey::Addr(y)) => x.same(y),
            _ => false,
        }
    }

    fn dup(&self) -> (r: Self) {
        match self {
            SectionKey::Name(n) => SectionKey::Name(n.dup()),
            SectionKey::Commit(c) => SectionKey::Commit(*c),
            SectionKey::Graph(g) => SectionKey::Graph(*g),
            SectionKey::Addr(a) => SectionKey::Addr(*a),
        }
    }
}

/// What a section's entries hold.
#[derive(Debug)]
pub enum Value {
    Commit(CommitAddr),
    /// A blob, by its store and address.
    Blob(String, ContentAddr),
    /// A serialized value that the registry does not look into.
    Datum(Vec<u8>),
}

/// What a [`Value`] denotes.
pub enum ValueView {
    Commit(CommitAddr),
    Blob(Seq<char>, ContentAddr),
    Datum(Seq<u8>),
}

impl View for Value {
    type V = ValueView;

    open spec fn view(&self) -> ValueView {
        match self {
            Value::Commit(c) => ValueView::Commit(*c),
            Value::Blob(s, a) => ValueView::Blob(s@, *a),
            Value::Datum(d) => ValueView::Datum(d@),
        }
    }
}

/// A copy of some bytes.
pub fn dup_bytes(v: &Vec<u8>) -> (r: Vec<u8>)
    ensures
        r@ == v@,
{
    let mut r: Vec<u8> = Vec::new();
    let mut i: usize = 0;
    while i < v.len()
        invariant
            i <= v@.len(),
            r@ =~= v@.take(i as int),
        decreases v@.len() - i,
    {
        r.push(v[i]);
        i = i + 1;
    }
    assert(v@.take(i as int) =~= v@);
    r
}

/// Whether the bytes are the same.
pub fn same_bytes(a: &Vec<u8>, b: &Vec<u8>) -> (r: bool)
    ensures
        r == (a@ == b@),
{
    if a.len() != b.len() {
        return false;
    }
    let mut i: usize = 0;
    while i < a.len()
        invariant
            i <= a@.len() == b@.len(),
            forall|j: int| 0 <= j < i ==> a@[j] == b@[j],
        decreases a@.len() - i,
    {
        if a[i] != b[i] {
            return false;
        }
        i = i + 1;
    }
    assert(a@ =~= b@);
    true
}

impl Value {
    /// The same value.
    pub fn dup(&self) -> (r: Self)
        ensures
            r@ == self@,
    {
        match self {
            Value::Commit(c) => Value::Commit(*c),
            Value::Blob(s, a) => Value::Blob(s.clone(), *a),
            Value::Datum(d) => Value::Datum(dup_bytes(d)),
        }
    }

    /// Whether the values are the same.
    pub fn same(&self, other: &Self) -> (r: bool)
        ensures
            r == (self@ == other@),
    {
        match (self, other) {
            (Value::Commit(a), Value::Commit(b)) => a.same(b),
            (Value::Blob(s, a), Value::Blob(t, b)) => *s == *t && a.same(b),
            (Value::Datum(a), Value::Datum(b)) => same_bytes(a, b),
            _ => false,
        }
    }
}

/// A section of metadata: entries under one merge policy and one liveness.
#[derive(Debug)]
pub struct Section {
    pub policy: MergePolicy,
    pub liveness: Liveness,
    pub entries: Table<SectionKey, Value>,
}

/// What a [`Section`] denotes.
#[verifier::ext_equal]
pub struct SectionView {
    pub policy: MergePolicy,
    pub liveness: Liveness,
    pub entries: Map<KeyView, ValueView>,
}

/// What a table of values denotes.
pub open spec fn value_views(m: Map<KeyView, Value>) -> Map<KeyView, ValueView> {
    m.map_values(|v: Value| v@)
}

impl View for Section {
    type V = SectionView;

    open spec fn view(&self) -> SectionView {
        SectionView {
            policy: self.policy,
            liveness: self.liveness,
            entries: value_views(self.entries@),
        }
    }
}

struct ValueCopy {}

impl Select<SectionKey, Value, Value> for ValueCopy {
    closed spec fn image(&self, k: KeyView, v: Value) -> Option<ValueView> {
        Some(v@)
    }

    fn select(&self, k: &SectionKey, v: &Value) -> (w: Option<Value>) {
        Some(v.dup())
    }
}

impl Section {
    /// The same section.
    pub fn dup(&self) -> (r: Self)
        ensures
            r@ == self@,
    {
        let entries = table::select(&self.entries, &(ValueCopy {  }));
        let r = Section { policy: self.policy, liveness: self.liveness, entries };
        assert(r@.entries =~= table::views(entries@));
        assert(r@ =~= self@);
        r
    }

    /// Whether the sections are the same.
    pub fn same(&self, other: &Self) -> (r: bool)
        ensures
            r == (self@ == other@),
    {
        self.policy == other.policy && self.liveness == other.liveness && same_entries(
            &self.entries,
            &other.entries,
        )
    }
}

/// Whether two tables of values hold the same.
fn same_entries(a: &Table<SectionKey, Value>, b: &Table<SectionKey, Value>) -> (r: bool)
    ensures
        r == (value_views(a@) == value_views(b@)),
{
    let x = a.entries();
    let y = b.entries();
    let ghost am = a@;
    let ghost bm = b@;
    let ghost av = value_views(am);
    let ghost bv = value_views(bm);
    proof {
        assert(av.dom() =~= am.dom());
        assert(bv.dom() =~= bm.dom());
        table::lemma_listed_keys(x@, am, av);
        table::lemma_listed_keys(y@, bm, bv);
    }
    if x.len() != y.len() {
        assert(table::key_views(x@).len() != table::key_views(y@).len());
        return false;
    }
    let mut i: usize = 0;
    while i < x.len()
        invariant
            table::lists(x@, am),
            table::lists(y@, bm),
            am == a@,
            bm == b@,
            av == value_views(am),
            bv == value_views(bm),
            table::keys_of::<SectionKey, ValueView>(av) == table::key_views(x@),
            table::keys_of::<SectionKey, ValueView>(bv) == table::key_views(y@),
            i <= x@.len() == y@.len(),
            forall|j: int|
                0 <= j < i ==> (#[trigger] x@[j]).0@ == y@[j].0@ && x@[j].1@ == y@[j].1@,
        decreases x@.len() - i,
    {
        proof {
            table::lemma_entry(x@, i as int);
            table::lemma_entry(y@, i as int);
        }
        if !x[i].0.same(&y[i].0) {
            assert(table::key_views(x@)[i as int] != table::key_views(y@)[i as int]);
            return false;
        }
        if !x[i].1.same(&y[i].1) {
            assert(av[x@[i as int].0@] != bv[x@[i as int].0@]);
            return false;
        }
        i = i + 1;
    }
    proof {
        assert(table::key_views(x@) =~= table::key_views(y@));
        assert forall|k: KeyView| av.contains_key(k) == bv.contains_key(k) by {
            assert(av.contains_key(k) <==> table::key_views(x@).contains(k));
            assert(bv.contains_key(k) <==> table::key_views(y@).contains(k));
        }
        assert forall|k: KeyView| av.contains_key(k) implies av[k] == bv[k] by {
            let j = choose|j: int| 0 <= j < x@.len() && #[trigger] x@[j].0@ == k;
            table::lemma_entry(x@, j);
            table::lemma_entry(y@, j);
        }
        assert(av =~= bv);
    }
    true
}

/// A store of blobs under one liveness.
#[derive(Debug)]
pub struct BlobStore {
    pub liveness: BlobLiveness,
    pub entries: Table<ContentAddr, Vec<u8>>,
}

/// What a [`BlobStore`] denotes.
#[verifier::ext_equal]
pub struct BlobView {
    pub liveness: BlobLiveness,
    pub entries: Map<ContentAddr, Seq<u8>>,
}

/// What a table of byte strings denotes.
pub open spec fn byte_views(m: Map<ContentAddr, Vec<u8>>) -> Map<ContentAddr, Seq<u8>> {
    m.map_values(|v: Vec<u8>| v@)
}

impl View for BlobStore {
    type V = BlobView;

    open spec fn view(&self) -> BlobView {
        BlobView { liveness: self.liveness, entries: byte_views(self.entries@) }
    }
}

/// Graphs, commits and blobs by address, and sections of metadata by name. The
/// heads are one of the sections.
#[derive(Debug)]
pub struct Registry<G: Payload> {
    pub graphs: Table<GraphAddr, G>,
    pub commits: Table<CommitAddr, Commit>,
    pub sections: Table<String, Section>,
    pub blobs: Table<String, BlobStore>,
}

/// What a [`Registry`] denotes, over what its graphs denote.
#[verifier::ext_equal]
pub struct RegistryView<T> {
    pub graphs: Map<GraphAddr, T>,
    pub commits: Map<CommitAddr, CommitView>,
    pub sections: Map<Seq<char>, SectionView>,
    pub blobs: Map<Seq<char>, BlobView>,
}

/// What a table of graphs denotes.
pub open spec fn graph_views<G: Payload>(m: Map<GraphAddr, G>) -> Map<GraphAddr, G::V> {
    m.map_values(|g: G| g@)
}

/// What a table of commits denotes.
pub open spec fn commit_views(m: Map<CommitAddr, Commit>) -> Map<CommitAddr, CommitView> {
    m.map_values(|c: Commit| c@)
}

/// What a table of sections denotes.
pub open spec fn section_views(m: Map<Seq<char>, Section>) -> Map<Seq<char>, SectionView> {
    m.map_values(|s: Section| s@)
}

/// What a table of blob stores denotes.
pub open spec fn blob_views(m: Map<Seq<char>, BlobStore>) -> Map<Seq<char>, BlobView> {
    m.map_values(|s: BlobStore| s@)
}

impl<G: Payload> View for Registry<G> {
    type V = RegistryView<G::V>;

    open spec fn view(&self) -> RegistryView<G::V> {
        RegistryView {
            graphs: graph_views(self.graphs@),
            commits: commit_views(self.commits@),
            sections: section_views(self.sections@),
            blobs: blob_views(self.blobs@),
        }
    }
}

/// The id of the section that holds the heads.
pub const HEADS_ID: &'static str = "heads";

impl<T> RegistryView<T> {
    /// The registry that holds nothing.
    pub open spec fn empty() -> RegistryView<T> {
        RegistryView {
            graphs: Map::empty(),
            commits: Map::empty(),
            sections: Map::empty(),
            blobs: Map::empty(),
        }
    }

    /// The section with the given id, or an empty one.
    pub open spec fn section_or(self, id: Seq<char>, policy: MergePolicy, liveness: Liveness) -> SectionView {
        if self.sections.contains_key(id) {
            self.sections[id]
        } else {
            SectionView { policy, liveness, entries: Map::empty() }
        }
    }

    /// With `v` at `k` in the section `id`. The first write to a section stamps its
    /// policy and liveness.
    pub open spec fn with_value(
        self,
        id: Seq<char>,
        policy: MergePolicy,
        liveness: Liveness,
        k: KeyView,
        v: ValueView,
    ) -> RegistryView<T> {
        let s = self.section_or(id, policy, liveness);
        RegistryView {
            sections: self.sections.insert(
                id,
                SectionView { entries: s.entries.insert(k, v), ..s },
            ),
            ..self
        }
    }

    /// The commit at the head of the named line of history.
    pub open spec fn head(self, name: Seq<Seq<char>>) -> Option<CommitAddr> {
        if self.sections.contains_key(HEADS_ID@) && self.sections[HEADS_ID@].entries.contains_key(
            KeyView::Name(name),
        ) {
            match self.sections[HEADS_ID@].entries[KeyView::Name(name)] {
                ValueView::Commit(c) => Some(c),
                _ => None,
            }
        } else {
            None
        }
    }

    /// With `c` at the head of the named line of history.
    pub open spec fn with_head(self, name: Seq<Seq<char>>, c: CommitAddr) -> RegistryView<T> {
        self.with_value(
            HEADS_ID@,
            MergePolicy::TakeIncoming,
            Liveness::Root,
            KeyView::Name(name),
            ValueView::Commit(c),
        )
    }

    /// Whether `s` lists the heads, by name.
    pub open spec fn lists_heads(self, s: Seq<(Name, CommitAddr)>) -> bool {
        &&& forall|i: int, j: int|
            0 <= i < j < s.len() ==> Name::precedes((#[trigger] s[i]).0@, (#[trigger] s[j]).0@)
        &&& forall|i: int|
            0 <= i < s.len() ==> self.head((#[trigger] s[i]).0@) == Some(s[i].1)
        &&& forall|n: Seq<Seq<char>>| #[trigger] self.head(n) is Some ==> exists|i: int|
            0 <= i < s.len() && (#[trigger] s[i]).0@ == n
    }

    /// With the blob in the store `id`, under the address of its bytes. The first
    /// blob of a store stamps its liveness.
    pub open spec fn with_blob(
        self,
        id: Seq<char>,
        liveness: BlobLiveness,
        addr: ContentAddr,
        bytes: Seq<u8>,
    ) -> RegistryView<T> {
        let s = if self.blobs.contains_key(id) {
            self.blobs[id]
        } else {
            BlobView { liveness, entries: Map::empty() }
        };
        RegistryView {
            blobs: self.blobs.insert(
                id,
                BlobView { entries: s.entries.insert(addr, bytes), ..s },
            ),
            ..self
        }
    }

    /// With the named line of history gone.
    pub open spec fn without_head(self, name: Seq<Seq<char>>) -> RegistryView<T> {
        if self.sections.contains_key(HEADS_ID@) {
            let s = self.sections[HEADS_ID@];
            RegistryView {
                sections: self.sections.insert(
                    HEADS_ID@,
                    SectionView { entries: s.entries.remove(KeyView::Name(name)), ..s },
                ),
                ..self
            }
        } else {
            self
        }
    }

    /// The commit of a graph on the named line of history.
    pub open spec fn next_commit(
        self,
        timestamp: Timestamp,
        graph: GraphAddr,
        name: Seq<Seq<char>>,
    ) -> CommitView {
        CommitView { timestamp, parent: self.head(name), graph, merge_parents: Seq::empty() }
    }

    /// The address of the commit of a graph on the named line of history.
    pub open spec fn next_addr(
        self,
        timestamp: Timestamp,
        graph: GraphAddr,
        name: Seq<Seq<char>>,
    ) -> CommitAddr {
        CommitAddr(
            hash::addr_of(commit::commit_bytes(self.next_commit(timestamp, graph, name))),
        )
    }

    /// With a graph committed on the named line of history: stored if it was not there,
    /// committed on the line's head, and that commit the head.
    pub open spec fn with_graph_on(
        self,
        timestamp: Timestamp,
        addr: GraphAddr,
        graph: T,
        name: Seq<Seq<char>>,
    ) -> RegistryView<T> {
        RegistryView {
            graphs: if self.graphs.contains_key(addr) {
                self.graphs
            } else {
                self.graphs.insert(addr, graph)
            },
            commits: self.commits.insert(
                self.next_addr(timestamp, addr, name),
                self.next_commit(timestamp, addr, name),
            ),
            ..self.with_head(name, self.next_addr(timestamp, addr, name))
        }
    }

    /// With every listed name pointed at its commit, in order.
    pub open spec fn with_heads(self, heads: Seq<(Seq<Seq<char>>, CommitAddr)>) -> RegistryView<T>
        decreases heads.len(),
    {
        if heads.len() == 0 {
            self
        } else {
            self.with_heads(heads.drop_last()).with_head(heads.last().0, heads.last().1)
        }
    }
}

/// What a list of heads denotes.
pub open spec fn head_views(s: Seq<(Name, CommitAddr)>) -> Seq<(Seq<Seq<char>>, CommitAddr)> {
    s.map_values(|h: (Name, CommitAddr)| (h.0@, h.1))
}

impl<G: Payload> Registry<G> {
    /// A registry that holds nothing.
    pub fn new() -> (r: Self)
        ensures
            r@ == RegistryView::<G::V>::empty(),
    {
        let r = Registry {
            graphs: Table::new(),
            commits: Table::new(),
            sections: Table::new(),
            blobs: Table::new(),
        };
        assert(r@ =~= RegistryView::<G::V>::empty());
        r
    }

    /// The graph at an address.
    pub fn graph(&self, addr: &GraphAddr) -> (r: Option<&G>)
        ensures
            match r {
                Some(g) => self@.graphs.contains_key(*addr) && g@ == self@.graphs[*addr],
                None => !self@.graphs.contains_key(*addr),
            },
    {
        self.graphs.get(addr)
    }

    /// The commit at an address.
    pub fn commit(&self, addr: &CommitAddr) -> (r: Option<&Commit>)
        ensures
            match r {
                Some(c) => self@.commits.contains_key(*addr) && c@ == self@.commits[*addr],
                None => !self@.commits.contains_key(*addr),
            },
    {
        self.commits.get(addr)
    }

    /// Stores a graph under a given address.
    pub fn insert_graph_at(&mut self, addr: GraphAddr, graph: G)
        ensures
            final(self)@ == (RegistryView {
                graphs: old(self)@.graphs.insert(addr, graph@),
                ..old(self)@
            }),
    {
        self.graphs.insert(addr, graph);
        assert(self@.graphs =~= old(self)@.graphs.insert(addr, graph@));
    }

    /// Stores a commit under a given address.
    pub fn insert_commit_at(&mut self, addr: CommitAddr, commit: Commit)
        ensures
            final(self)@ == (RegistryView {
                commits: old(self)@.commits.insert(addr, commit@),
                ..old(self)@
            }),
    {
        self.commits.insert(addr, commit);
        assert(self@.commits =~= old(self)@.commits.insert(addr, commit@));
    }

    /// Commits a stored graph, and returns the commit's address.
    pub fn commit_graph(
        &mut self,
        timestamp: Timestamp,
        parent: Option<CommitAddr>,
        graph: GraphAddr,
    ) -> (addr: CommitAddr)
        ensures
            ({
                let c = CommitView { timestamp, parent, graph, merge_parents: Seq::empty() };
                &&& hash::addresses(addr.0, commit::commit_bytes(c))
                &&& final(self)@ == (RegistryView {
                    commits: old(self)@.commits.insert(addr, c),
                    ..old(self)@
                })
            }),
    {
        let c = Commit::new(timestamp, parent, graph);
        let addr = commit::commit_addr(&c);
        self.insert_commit_at(addr, c);
        addr
    }

    /// Commits a graph on the named line of history, and returns the commit's address.
    /// The graph is stored if it was not there.
    pub fn commit_graph_to_name(
        &mut self,
        timestamp: Timestamp,
        addr: GraphAddr,
        graph: G,
        name: &Name,
    ) -> (r: CommitAddr)
        ensures
            r == old(self)@.next_addr(timestamp, addr, name@),
            final(self)@ == old(self)@.with_graph_on(timestamp, addr, graph@, name@),
    {
        let ghost before = self@;
        let parent = self.head(name);
        if !self.graphs.contains_key(&addr) {
            self.insert_graph_at(addr, graph);
        }
        let ghost stored = self@.graphs;
        let c = self.commit_graph(timestamp, parent, addr);
        proof {
            hash::lemma_addr_of(c.0, commit::commit_bytes(before.next_commit(timestamp, addr, name@)));
        }
        self.set_head(name.dup(), c);
        assert(self@ =~= before.with_graph_on(timestamp, addr, graph@, name@));
        c
    }

    /// The section with the given id.
    pub fn section(&self, id: &String) -> (r: Option<&Section>)
        ensures
            match r {
                Some(s) => self@.sections.contains_key(id@) && s@ == self@.sections[id@],
                None => !self@.sections.contains_key(id@),
            },
    {
        self.sections.get(id)
    }

    /// Puts `value` at `key` in the section `id`, in place of what was there. The
    /// first write to a section stamps its policy and liveness.
    pub fn set_section_value(
        &mut self,
        id: String,
        policy: MergePolicy,
        liveness: Liveness,
        key: SectionKey,
        value: Value,
    )
        ensures
            final(self)@ == old(self)@.with_value(id@, policy, liveness, key@, value@),
    {
        let ghost idv = id@;
        let ghost kv = key@;
        let ghost vv = value@;
        let mut s = match self.sections.take(&id) {
            Some(s) => s,
            None => Section { policy, liveness, entries: Table::new() },
        };
        let ghost before = s@;
        proof {
            assert(before =~= old(self)@.section_or(idv, policy, liveness));
        }
        s.entries.insert(key, value);
        assert(s@ =~= SectionView { entries: before.entries.insert(kv, vv), ..before });
        let ghost after = s@;
        self.sections.insert(id, s);
        assert(self@.sections =~= old(self)@.sections.insert(idv, after));
    }

    /// The commit at the head of the named line of history.
    pub fn head(&self, name: &Name) -> (r: Option<CommitAddr>)
        ensures
            r == self@.head(name@),
    {
        let id = String::from_str(HEADS_ID);
        match self.sections.get(&id) {
            Some(s) => match s.entries.get(&SectionKey::Name(name.dup())) {
                Some(Value::Commit(c)) => Some(*c),
                _ => None,
            },
            None => None,
        }
    }

    /// Points the named line of history at a commit.
    pub fn set_head(&mut self, name: Name, c: CommitAddr)
        ensures
            final(self)@ == old(self)@.with_head(name@, c),
    {
        self.set_section_value(
            String::from_str(HEADS_ID),
            MergePolicy::TakeIncoming,
            Liveness::Root,
            SectionKey::Name(name),
            Value::Commit(c),
        );
    }

    /// Stores a blob under the address of its bytes, and returns the address. The
    /// first blob of a store stamps its liveness.
    pub fn add_blob(&mut self, id: String, liveness: BlobLiveness, bytes: Vec<u8>) -> (addr: ContentAddr)
        ensures
            hash::addresses(addr, bytes@),
            final(self)@ == old(self)@.with_blob(id@, liveness, addr, bytes@),
    {
        let ghost idv = id@;
        let ghost bv = bytes@;
        let mut hasher = Hasher::new();
        hasher.update(bytes.as_slice());
        assert(hasher@ =~= bytes@);
        let addr = ContentAddr(hasher.finalize());
        let mut s = match self.blobs.take(&id) {
            Some(s) => s,
            None => BlobStore { liveness, entries: Table::new() },
        };
        let ghost before = s@;
        proof {
            if !old(self)@.blobs.contains_key(idv) {
                assert(before.entries =~= Map::<ContentAddr, Seq<u8>>::empty());
            }
        }
        s.entries.insert(addr, bytes);
        assert(s@ =~= BlobView { entries: before.entries.insert(addr, bv), ..before });
        let ghost after = s@;
        self.blobs.insert(id, s);
        assert(self@.blobs =~= old(self)@.blobs.insert(idv, after));
        addr
    }

    /// The bytes of a blob.
    pub fn blob(&self, id: &String, addr: &ContentAddr) -> (r: Option<&Vec<u8>>)
        ensures
            match r {
                Some(b) => self@.blobs.contains_key(id@) && self@.blobs[id@].entries.contains_key(
                    *addr,
                ) && b@ == self@.blobs[id@].entries[*addr],
                None => !(self@.blobs.contains_key(id@)
                    && self@.blobs[id@].entries.contains_key(*addr)),
            },
    {
        match self.blobs.get(id) {
            Some(s) => s.entries.get(addr),
            None => None,
        }
    }

    /// Ends the named line of history.
    pub fn remove_head(&mut self, name: &Name)
        ensures
            final(self)@ == old(self)@.without_head(name@),
    {
        let id = String::from_str(HEADS_ID);
        if let Some(mut s) = self.sections.take(&id) {
            let ghost before = s@;
            let key = SectionKey::Name(name.dup());
            s.entries.remove(&key);
            assert(s@ =~= SectionView { entries: before.entries.remove(key@), ..before });
            let ghost after = s@;
            self.sections.insert(id, s);
            assert(self@.sections =~= old(self)@.sections.insert(HEADS_ID@, after));
        } else {
            assert(self@.sections =~= old(self)@.sections);
        }
    }

    /// A registry of the given graphs, commits and heads.
    pub fn from_parts(
        graphs: Table<GraphAddr, G>,
        commits: Table<CommitAddr, Commit>,
        heads: Vec<(Name, CommitAddr)>,
    ) -> (r: Self)
        ensures
            r@ == (RegistryView {
                graphs: graph_views(graphs@),
                commits: commit_views(commits@),
                ..RegistryView::<G::V>::empty()
            }).with_heads(head_views(heads@)),
    {
        let ghost start = RegistryView {
            graphs: graph_views(graphs@),
            commits: commit_views(commits@),
            ..RegistryView::<G::V>::empty()
        };
        let mut r = Registry { graphs, commits, sections: Table::new(), blobs: Table::new() };
        assert(r@ =~= start);
        let ghost hs = head_views(heads@);
        let mut i: usize = 0;
        while i < heads.len()
            invariant
                i <= heads@.len(),
                hs == head_views(heads@),
                r@ == start.with_heads(hs.take(i as int)),
            decreases heads@.len() - i,
        {
            r.set_head(heads[i].0.dup(), heads[i].1);
            assert(hs.take(i + 1).drop_last() =~= hs.take(i as int));
            i = i + 1;
        }
        assert(hs.take(i as int) =~= hs);
        r
    }

    /// The heads, by name.
    pub fn heads(&self) -> (r: Vec<(Name, CommitAddr)>)
        ensures
            self@.lists_heads(r@),
    {
        let id = String::from_str(HEADS_ID);
        let mut r: Vec<(Name, CommitAddr)> = Vec::new();
        if let Some(s) = self.sections.get(&id) {
            let list = s.entries.entries();
            let ghost m = s.entries@;
            let mut i: usize = 0;
            assert(self@.sections[HEADS_ID@].entries == value_views(m));
            while i < list.len()
                invariant
                    i <= list@.len(),
                    table::lists(list@, m),
                    self@.sections.contains_key(HEADS_ID@),
                    self@.sections[HEADS_ID@].entries == value_views(m),
                    forall|a: int, b: int|
                        0 <= a < b < r@.len() ==> Name::precedes(
                            (#[trigger] r@[a]).0@,
                            (#[trigger] r@[b]).0@,
                        ),
                    forall|a: int|
                        0 <= a < r@.len() ==> self@.head((#[trigger] r@[a]).0@) == Some(r@[a].1),
                    forall|a: int|
                        0 <= a < r@.len() ==> exists|j: int|
                            0 <= j < i && (#[trigger] list@[j]).0@ == KeyView::Name(
                                (#[trigger] r@[a]).0@,
                            ),
                    forall|j: int|
                        0 <= j < i && (#[trigger] list@[j]).0@ is Name && list@[j].1@ is Commit
                            ==> exists|a: int|
                            0 <= a < r@.len() && list@[j].0@ == KeyView::Name(
                                (#[trigger] r@[a]).0@,
                            ),
                decreases list@.len() - i,
            {
                let e = &list[i];
                let ghost before = r@;
                proof {
                    table::lemma_entry(list@, i as int);
                    assert(m.contains_key(e.0@) && m[e.0@] == e.1);
                }
                if let (SectionKey::Name(n), Value::Commit(c)) = (&e.0, &e.1) {
                    r.push((n.dup(), *c));
                    proof {
                        assert(r@[before.len() as int].0@ == n@);
                        assert forall|a: int, b: int| 0 <= a < b < r@.len() implies Name::precedes(
                            (#[trigger] r@[a]).0@,
                            (#[trigger] r@[b]).0@,
                        ) by {
                            if b < before.len() {
                                assert(r@[a] == before[a] && r@[b] == before[b]);
                            } else {
                                assert(r@[a] == before[a]);
                                let j = choose|j: int|
                                    0 <= j < i && (#[trigger] list@[j]).0@ == KeyView::Name(
                                        before[a].0@,
                                    );
                                assert(SectionKey::precedes(list@[j].0@, list@[i as int].0@));
                            }
                        }
                        assert forall|a: int| 0 <= a < r@.len() implies exists|j: int|
                            0 <= j < i + 1 && (#[trigger] list@[j]).0@ == KeyView::Name(
                                (#[trigger] r@[a]).0@,
                            ) by {
                            if a < before.len() {
                                assert(r@[a] == before[a]);
                                let j = choose|j: int|
                                    0 <= j < i && (#[trigger] list@[j]).0@ == KeyView::Name(
                                        before[a].0@,
                                    );
                                assert(list@[j].0@ == KeyView::Name(r@[a].0@));
                            } else {
                                assert(list@[i as int].0@ == KeyView::Name(r@[a].0@));
                            }
                        }
                        assert forall|j: int|
                            0 <= j < i + 1 && (#[trigger] list@[j]).0@ is Name && list@[j].1@ is Commit
                            implies exists|a: int|
                            0 <= a < r@.len() && list@[j].0@ == KeyView::Name(
                                (#[trigger] r@[a]).0@,
                            ) by {
                            if j < i {
                                let a = choose|a: int|
                                    0 <= a < before.len() && list@[j].0@ == KeyView::Name(
                                        (#[trigger] before[a]).0@,
                                    );
                                assert(r@[a] == before[a]);
                            } else {
                                assert(list@[j].0@ == KeyView::Name(
                                    r@[before.len() as int].0@,
                                ));
                            }
                        }
                        assert forall|a: int| 0 <= a < r@.len() implies self@.head(
                            (#[trigger] r@[a]).0@,
                        ) == Some(r@[a].1) by {
                            if a < before.len() {
                                assert(r@[a] == before[a]);
                            }
                        }
                    }
                }
                i = i + 1;
            }
            proof {
                assert forall|n: Seq<Seq<char>>| #[trigger] self@.head(n) is Some implies exists|a: int|
                    0 <= a < r@.len() && (#[trigger] r@[a]).0@ == n by {
                    assert(m.contains_key(KeyView::Name(n)));
                    let j = choose|j: int|
                        0 <= j < list@.len() && #[trigger] list@[j].0@ == KeyView::Name(n);
                    table::lemma_entry(list@, j);
                    assert(list@[j].0@ is Name && list@[j].1@ is Commit);
                    let a = choose|a: int|
                        0 <= a < r@.len() && list@[j].0@ == KeyView::Name((#[trigger] r@[a]).0@);
                    assert(r@[a].0@ == n);
                }
            }
        }
        r
    }
}

} // verus!
