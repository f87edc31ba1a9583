//! Persisting a registry and the open heads in a key-value store.
//!
//! Content is written once per address. Sections of metadata are small and written
//! whole, so an edit rewrites one of them:
//!
//! - `o/c/<hex>`: one commit.
//! - `o/g/<hex>`: one graph.
//! - `b/<section>/<hex>`: one blob, in base64.
//! - `commit-addrs`, `graph-addrs`: the addresses, rewritten when they change.
//! - `blob-manifest`: every blob store's id, liveness and addresses.
//! - `ns/<section>`: one whole section.
//! - `ns-index`: the ids of the sections.
//! - `open-heads`, `focused-head`: what is open.

use crate::addr::ContentAddr;
use crate::commit::{Commit, CommitAddr, CommitView};
use crate::graph::GraphAddr;
use crate::head::{self, Head, HeadView};
use crate::order::Key;
use crate::registry::{BlobLiveness, Payload, Section, SectionView};
use crate::text;
use vstd::prelude::*;
use vstd::string::*;

verus! {

/// A blob store as the manifest lists it.
#[derive(Debug)]
pub struct Manifest {
    pub section: String,
    pub liveness: BlobLiveness,
    pub addrs: Vec<ContentAddr>,
}

/// What a [`Manifest`] entry denotes.
#[verifier::ext_equal]
pub struct ManifestView {
    pub section: Seq<char>,
    pub liveness: BlobLiveness,
    pub addrs: Seq<ContentAddr>,
}

impl View for Manifest {
    type V = ManifestView;

    open spec fn view(&self) -> ManifestView {
        ManifestView { section: self.section@, liveness: self.liveness, addrs: self.addrs@ }
    }
}

/// What a manifest denotes.
pub open spec fn manifest_views(s: Seq<Manifest>) -> Seq<ManifestView> {
    s.map_values(|m: Manifest| m@)
}

/// A value as it is stored under a key.
#[derive(Debug)]
pub enum Stored<G: Payload> {
    Graph(G),
    Commit(Commit),
    GraphAddrs(Vec<GraphAddr>),
    CommitAddrs(Vec<CommitAddr>),
    Manifest(Vec<Manifest>),
    Section(Section),
    SectionIndex(Vec<String>),
    /// A blob's bytes, as text.
    Blob(String),
    Heads(Vec<Head>),
    Head(Head),
}

/// What a [`Stored`] value denotes.
pub enum StoredView<T> {
    Graph(T),
    Commit(CommitView),
    GraphAddrs(Seq<GraphAddr>),
    CommitAddrs(Seq<CommitAddr>),
    Manifest(Seq<ManifestView>),
    Section(SectionView),
    SectionIndex(Seq<Seq<char>>),
    Blob(Seq<char>),
    Heads(Seq<HeadView>),
    Head(HeadView),
}

impl<G: Payload> View for Stored<G> {
    type V = StoredView<G::V>;

    open spec fn view(&self) -> StoredView<G::V> {
        match self {
            Stored::Graph(g) => StoredView::Graph(g@),
            Stored::Commit(c) => StoredView::Commit(c@),
            Stored::GraphAddrs(s) => StoredView::GraphAddrs(s@),
            Stored::CommitAddrs(s) => StoredView::CommitAddrs(s@),
            Stored::Manifest(s) => StoredView::Manifest(manifest_views(s@)),
            Stored::Section(s) => StoredView::Section(s@),
            Stored::SectionIndex(s) => StoredView::SectionIndex(text::texts(s@)),
            Stored::Blob(s) => StoredView::Blob(s@),
            Stored::Heads(s) => StoredView::Heads(head::head_list(s@)),
            Stored::Head(h) => StoredView::Head(h@),
        }
    }
}

/// Reads values from a key-value store.
pub trait Load<G: Payload> {
    type Err;

    /// What reading a key gives: nothing where nothing is stored under it, and
    /// nothing where what is stored cannot be read.
    open spec fn held(&self, key: Seq<char>) -> Option<StoredView<G::V>> {
        arbitrary()
    }

    fn get_stored(&self, key: &String) -> (r: Result<Option<Stored<G>>, Self::Err>)
        ensures
            match r {
                Ok(Some(v)) => self.held(key@) == Some(v@),
                _ => self.held(key@) is None,
            },
    ;
}

/// Writes values to a key-value store.
pub trait Save<G: Payload> {
    type Err;

    /// The values that were handed over to be written, with their keys, in order.
    open spec fn handed(&self) -> Seq<(Seq<char>, StoredView<G::V>)> {
        arbitrary()
    }

    fn set_stored(&mut self, key: String, value: Stored<G>) -> (r: Result<(), Self::Err>)
        ensures
            final(self).handed() == old(self).handed().push((key@, value@)),
    ;
}

/// A [`Save`] that keeps the writes instead of carrying them out. Never fails.
#[derive(Debug)]
pub struct BatchWriter<G: Payload> {
    pub writes: Vec<(String, Stored<G>)>,
}

/// What a list of writes denotes.
pub open spec fn write_views<G: Payload>(s: Seq<(String, Stored<G>)>) -> Seq<
    (Seq<char>, StoredView<G::V>),
> {
    s.map_values(|w: (String, Stored<G>)| (w.0@, w.1@))
}

impl<G: Payload> BatchWriter<G> {
    /// A writer that has collected nothing.
    pub fn new() -> (r: Self)
        ensures
            r.writes@ == Seq::<(String, Stored<G>)>::empty(),
    {
        BatchWriter { writes: Vec::new() }
    }

    /// Takes the collected writes, leaving the buffer empty.
    pub fn take(&mut self) -> (r: Vec<(String, Stored<G>)>)
        ensures
            r@ == old(self).writes@,
            final(self).writes@ == Seq::<(String, Stored<G>)>::empty(),
    {
        let mut r: Vec<(String, Stored<G>)> = Vec::new();
        std::mem::swap(&mut r, &mut self.writes);
        r
    }
}

impl<G: Payload> Save<G> for BatchWriter<G> {
    type Err = ();

    open spec fn handed(&self) -> Seq<(Seq<char>, StoredView<G::V>)> {
        write_views(self.writes@)
    }

    fn set_stored(&mut self, key: String, value: Stored<G>) -> (r: Result<(), ()>)
        ensures
            r is Ok,
    {
        let ghost w = (key@, value@);
        let ghost before = self.writes@;
        self.writes.push((key, value));
        assert(write_views(self.writes@) =~= write_views(before).push(w));
        Ok(())
    }
}

/// Hands a value over to be written. That a write fails is for the store to say.
pub fn save<G: Payload, S: Save<G>>(storage: &mut S, key: String, value: Stored<G>)
    ensures
        final(storage).handed() == old(storage).handed().push((key@, value@)),
{
    let _ = storage.set_stored(key, value);
}

/// Reads a value. One that cannot be read is as good as none.
pub fn load<G: Payload, L: Load<G>>(storage: &L, key: &String) -> (r: Option<Stored<G>>)
    ensures
        match r {
            Some(v) => storage.held(key@) == Some(v@),
            None => storage.held(key@) is None,
        },
{
    match storage.get_stored(key) {
        Ok(v) => v,
        Err(_) => None,
    }
}

/// The key of all graph addresses.
pub const GRAPH_ADDRS: &'static str = "graph-addrs";

/// The key of all commit addresses.
pub const COMMIT_ADDRS: &'static str = "commit-addrs";

/// The key of every blob store's id, liveness and addresses.
pub const BLOB_MANIFEST: &'static str = "blob-manifest";

/// The key of all section ids.
pub const SECTION_INDEX: &'static str = "ns-index";

/// The key of the open heads.
pub const OPEN_HEADS: &'static str = "open-heads";

/// The key of the focused head.
pub const FOCUSED_HEAD: &'static str = "focused-head";

/// The key of a graph.
pub open spec fn graph_key(a: GraphAddr) -> Seq<char> {
    "o/g/"@ + text::hex_bytes(a.0.bytes())
}

/// The key of a commit.
pub open spec fn commit_key(a: CommitAddr) -> Seq<char> {
    "o/c/"@ + text::hex_bytes(a.0.bytes())
}

/// The key of a blob.
pub open spec fn blob_key(section: Seq<char>, a: ContentAddr) -> Seq<char> {
    "b/"@ + section + "/"@ + text::hex_bytes(a.bytes())
}

/// The key of a section.
pub open spec fn section_key(id: Seq<char>) -> Seq<char> {
    "ns/"@ + id
}

/// The key of a graph.
pub fn graph(a: &GraphAddr) -> (r: String)
    ensures
        r@ == graph_key(*a),
{
    let mut r = String::from_str("o/g/");
    r.append(text::hex_of(&a.0.0).as_str());
    r
}

/// The key of a commit.
pub fn commit(a: &CommitAddr) -> (r: String)
    ensures
        r@ == commit_key(*a),
{
    let mut r = String::from_str("o/c/");
    r.append(text::hex_of(&a.0.0).as_str());
    r
}

/// The key of a blob.
pub fn blob(section: &String, a: &ContentAddr) -> (r: String)
    ensures
        r@ == blob_key(section@, *a),
{
    let mut r = String::from_str("b/");
    r.append(section.as_str());
    r.append("/");
    r.append(text::hex_of(&a.0).as_str());
    r
}

/// The key of a section.
pub fn section(id: &String) -> (r: String)
    ensures
        r@ == section_key(id@),
{
    let mut r = String::from_str("ns/");
    r.append(id.as_str());
    r
}

/// Saves the open heads.
pub fn save_open_heads<G: Payload, S: Save<G>>(storage: &mut S, heads: &Vec<Head>)
    ensures
        final(storage).handed() == old(storage).handed().push(
            (OPEN_HEADS@, StoredView::Heads(head::head_list(heads@))),
        ),
{
    save(storage, String::from_str(OPEN_HEADS), Stored::Heads(head::dup_heads(heads)));
}

/// Loads the open heads.
pub fn load_open_heads<G: Payload, L: Load<G>>(storage: &L) -> (r: Option<Vec<Head>>)
    ensures
        match r {
            Some(heads) => storage.held(OPEN_HEADS@) == Some(
                StoredView::<G::V>::Heads(head::head_list(heads@)),
            ),
            None => !(storage.held(OPEN_HEADS@) is Some
                && storage.held(OPEN_HEADS@)->0 is Heads),
        },
{
    match load(storage, &String::from_str(OPEN_HEADS)) {
        Some(Stored::Heads(heads)) => Some(heads),
        _ => None,
    }
}

/// Saves the focused head.
pub fn save_focused_head<G: Payload, S: Save<G>>(storage: &mut S, head: &Head)
    ensures
        final(storage).handed() == old(storage).handed().push(
            (FOCUSED_HEAD@, StoredView::Head(head@)),
        ),
{
    save(storage, String::from_str(FOCUSED_HEAD), Stored::Head(head.dup()));
}

/// Loads the focused head.
pub fn load_focused_head<G: Payload, L: Load<G>>(storage: &L) -> (r: Option<Head>)
    ensures
        match r {
            Some(head) => storage.held(FOCUSED_HEAD@) == Some(StoredView::<G::V>::Head(head@)),
            None => !(storage.held(FOCUSED_HEAD@) is Some && storage.held(
                FOCUSED_HEAD@,
            )->0 is Head),
        },
{
    match load(storage, &String::from_str(FOCUSED_HEAD)) {
        Some(Stored::Head(head)) => Some(head),
        _ => None,
    }
}

} // verus!
