//! Saving a registry, writing only what is not yet on disk.

use crate::addr::ContentAddr;
use crate::armor;
use crate::commit::{CommitAddr, CommitView};
use crate::graph::GraphAddr;
use crate::order::Key;
use crate::registry::{self, BlobStore, BlobView, Payload, Registry, RegistryView, Section, SectionView};
use crate::set::KeySet;
use crate::storage::{self, Manifest, ManifestView, Save, Stored, StoredView};
use crate::table::{self, Select, Table};
use crate::text;
use vstd::prelude::*;
use vstd::string::*;

verus! {

/// What is already on disk. Content is immutable, so its addresses are all there is
/// to know of it; of each section the form last written.
#[derive(Debug)]
pub struct PersistedRegistry {
    graphs: KeySet<GraphAddr>,
    commits: KeySet<CommitAddr>,
    blobs: Table<String, KeySet<ContentAddr>>,
    sections: Table<String, Section>,
}

/// What a [`PersistedRegistry`] denotes.
#[verifier::ext_equal]
pub struct PersistedView {
    pub graphs: Set<GraphAddr>,
    pub commits: Set<CommitAddr>,
    pub blobs: Map<Seq<char>, Set<ContentAddr>>,
    pub sections: Map<Seq<char>, SectionView>,
}

impl View for PersistedRegistry {
    type V = PersistedView;

    closed spec fn view(&self) -> PersistedView {
        PersistedView {
            graphs: self.graphs@,
            commits: self.commits@,
            blobs: table::views(self.blobs@),
            sections: registry::section_views(self.sections@),
        }
    }
}

impl PersistedView {
    /// Nothing on disk.
    pub open spec fn empty() -> PersistedView {
        PersistedView {
            graphs: Set::empty(),
            commits: Set::empty(),
            blobs: Map::empty(),
            sections: Map::empty(),
        }
    }

    /// All of a registry on disk.
    pub open spec fn of<T>(rv: RegistryView<T>) -> PersistedView {
        PersistedView {
            graphs: rv.graphs.dom(),
            commits: rv.commits.dom(),
            blobs: rv.blobs.map_values(|s: BlobView| s.entries.dom()),
            sections: rv.sections,
        }
    }

    /// The blobs of a store that are on disk.
    pub open spec fn known_blobs(self, id: Seq<char>) -> Set<ContentAddr> {
        if self.blobs.contains_key(id) {
            self.blobs[id]
        } else {
            Set::empty()
        }
    }
}

struct BlobAddrs {}

impl Select<String, BlobStore, KeySet<ContentAddr>> for BlobAddrs {
    closed spec fn image(&self, k: Seq<char>, v: BlobStore) -> Option<Set<ContentAddr>> {
        Some(v@.entries.dom())
    }

    fn select(&self, k: &String, v: &BlobStore) -> (w: Option<KeySet<ContentAddr>>) {
        let r = crate::set::of_keys(&v.entries);
        assert(v@.entries.dom() =~= v.entries@.dom());
        Some(r)
    }
}

struct SectionCopy {}

impl Select<String, Section, Section> for SectionCopy {
    closed spec fn image(&self, k: Seq<char>, v: Section) -> Option<SectionView> {
        Some(v@)
    }

    fn select(&self, k: &String, v: &Section) -> (w: Option<Section>) {
        Some(v.dup())
    }
}

impl PersistedRegistry {
    /// Nothing on disk.
    pub fn new() -> (r: Self)
        ensures
            r@ == PersistedView::empty(),
    {
        let r = PersistedRegistry {
            graphs: KeySet::new(),
            commits: KeySet::new(),
            blobs: Table::new(),
            sections: Table::new(),
        };
        assert(r@ =~= PersistedView::empty());
        r
    }

    /// A registry whose contents are all known to be on disk.
    pub fn from_registry<G: Payload>(registry: &Registry<G>) -> (r: Self)
        ensures
            r@ == PersistedView::of(registry@),
    {
        let r = PersistedRegistry {
            graphs: crate::set::of_keys(&registry.graphs),
            commits: crate::set::of_keys(&registry.commits),
            blobs: table::select(&registry.blobs, &(BlobAddrs {  })),
            sections: table::select(&registry.sections, &(SectionCopy {  })),
        };
        proof {
            let e = PersistedView::of(registry@);
            assert(r@.graphs =~= e.graphs);
            assert(r@.commits =~= e.commits);
            assert(r@.blobs =~= e.blobs);
            assert(r@.sections =~= table::views(r.sections@));
            assert(r@.sections =~= e.sections);
        }
        r
    }

    /// The number of graphs known to be on disk.
    pub fn graphs_len(&self) -> (r: usize)
        ensures
            self@.graphs.finite(),
            r == self@.graphs.len(),
    {
        self.graphs.len()
    }

    /// The number of commits known to be on disk.
    pub fn commits_len(&self) -> (r: usize)
        ensures
            self@.commits.finite(),
            r == self@.commits.len(),
    {
        self.commits.len()
    }
}

/// The listed graphs that are not on disk, each under its key.
pub open spec fn graph_writes<T>(
    keys: Seq<GraphAddr>,
    m: Map<GraphAddr, T>,
    known: Set<GraphAddr>,
) -> Seq<(Seq<char>, StoredView<T>)>
    decreases keys.len(),
{
    if keys.len() == 0 {
        Seq::empty()
    } else {
        let init = graph_writes(keys.drop_last(), m, known);
        if known.contains(keys.last()) {
            init
        } else {
            init.push((storage::graph_key(keys.last()), StoredView::Graph(m[keys.last()])))
        }
    }
}

/// The listed commits that are not on disk, each under its key.
pub open spec fn commit_writes<T>(
    keys: Seq<CommitAddr>,
    m: Map<CommitAddr, CommitView>,
    known: Set<CommitAddr>,
) -> Seq<(Seq<char>, StoredView<T>)>
    decreases keys.len(),
{
    if keys.len() == 0 {
        Seq::empty()
    } else {
        let init = commit_writes(keys.drop_last(), m, known);
        if known.contains(keys.last()) {
            init
        } else {
            init.push((storage::commit_key(keys.last()), StoredView::Commit(m[keys.last()])))
        }
    }
}

/// The listed blobs of a store that are not on disk, each under its key.
pub open spec fn store_writes<T>(
    id: Seq<char>,
    keys: Seq<ContentAddr>,
    m: Map<ContentAddr, Seq<u8>>,
    known: Set<ContentAddr>,
) -> Seq<(Seq<char>, StoredView<T>)>
    decreases keys.len(),
{
    if keys.len() == 0 {
        Seq::empty()
    } else {
        let init = store_writes(id, keys.drop_last(), m, known);
        if known.contains(keys.last()) {
            init
        } else {
            init.push(
                (
                    storage::blob_key(id, keys.last()),
                    StoredView::Blob(armor::text(m[keys.last()])),
                ),
            )
        }
    }
}

/// The blobs of the listed stores that are not on disk.
pub open spec fn blob_writes<T>(
    ids: Seq<Seq<char>>,
    m: Map<Seq<char>, BlobView>,
    p: PersistedView,
) -> Seq<(Seq<char>, StoredView<T>)>
    decreases ids.len(),
{
    if ids.len() == 0 {
        Seq::empty()
    } else {
        let id = ids.last();
        blob_writes(ids.drop_last(), m, p) + store_writes(
            id,
            table::keys_of::<ContentAddr, Seq<u8>>(m[id].entries),
            m[id].entries,
            p.known_blobs(id),
        )
    }
}

/// The manifest of the listed stores.
pub open spec fn manifest(ids: Seq<Seq<char>>, m: Map<Seq<char>, BlobView>) -> Seq<ManifestView> {
    ids.map_values(
        |id: Seq<char>|
            ManifestView {
                section: id,
                liveness: m[id].liveness,
                addrs: table::keys_of::<ContentAddr, Seq<u8>>(m[id].entries),
            },
    )
}

/// Whether the blobs on disk are not just those of the registry.
pub open spec fn blobs_changed(m: Map<Seq<char>, BlobView>, p: PersistedView) -> bool {
    ||| exists|id: Seq<char>| #[trigger]
        m.contains_key(id) && p.known_blobs(id) != m[id].entries.dom()
    ||| exists|id: Seq<char>| #[trigger] p.blobs.contains_key(id) && !m.contains_key(id)
}

/// The listed sections that are not on disk as they are.
pub open spec fn section_writes<T>(
    ids: Seq<Seq<char>>,
    m: Map<Seq<char>, SectionView>,
    known: Map<Seq<char>, SectionView>,
) -> Seq<(Seq<char>, StoredView<T>)>
    decreases ids.len(),
{
    if ids.len() == 0 {
        Seq::empty()
    } else {
        let id = ids.last();
        let init = section_writes(ids.drop_last(), m, known);
        if known.contains_key(id) && known[id] == m[id] {
            init
        } else {
            init.push((storage::section_key(id), StoredView::Section(m[id])))
        }
    }
}

/// The value under the key, if it is to be written.
pub open spec fn when<T>(changed: bool, key: Seq<char>, v: StoredView<T>) -> Seq<
    (Seq<char>, StoredView<T>),
> {
    if changed {
        seq![(key, v)]
    } else {
        Seq::empty()
    }
}

/// The writes that bring the graphs on disk up to date.
pub open spec fn all_graph_writes<T>(rv: RegistryView<T>, p: PersistedView) -> Seq<
    (Seq<char>, StoredView<T>),
> {
    let keys = table::keys_of::<GraphAddr, T>(rv.graphs);
    graph_writes(keys, rv.graphs, p.graphs) + when(
        p.graphs != rv.graphs.dom(),
        storage::GRAPH_ADDRS@,
        StoredView::GraphAddrs(keys),
    )
}

/// The writes that bring the commits on disk up to date.
pub open spec fn all_commit_writes<T>(rv: RegistryView<T>, p: PersistedView) -> Seq<
    (Seq<char>, StoredView<T>),
> {
    let keys = table::keys_of::<CommitAddr, CommitView>(rv.commits);
    commit_writes(keys, rv.commits, p.commits) + when(
        p.commits != rv.commits.dom(),
        storage::COMMIT_ADDRS@,
        StoredView::CommitAddrs(keys),
    )
}

/// The writes that bring the blobs on disk up to date.
pub open spec fn all_blob_writes<T>(rv: RegistryView<T>, p: PersistedView) -> Seq<
    (Seq<char>, StoredView<T>),
> {
    let ids = table::keys_of::<String, BlobView>(rv.blobs);
    blob_writes(ids, rv.blobs, p) + when(
        blobs_changed(rv.blobs, p),
        storage::BLOB_MANIFEST@,
        StoredView::Manifest(manifest(ids, rv.blobs)),
    )
}

/// The writes that bring the sections on disk up to date.
pub open spec fn all_section_writes<T>(rv: RegistryView<T>, p: PersistedView) -> Seq<
    (Seq<char>, StoredView<T>),
> {
    let ids = table::keys_of::<String, SectionView>(rv.sections);
    section_writes(ids, rv.sections, p.sections) + when(
        p.sections.dom() != rv.sections.dom(),
        storage::SECTION_INDEX@,
        StoredView::SectionIndex(ids),
    )
}

/// The writes that bring what is on disk up to the registry.
pub open spec fn registry_writes<T>(rv: RegistryView<T>, p: PersistedView) -> Seq<
    (Seq<char>, StoredView<T>),
> {
    all_graph_writes(rv, p) + all_commit_writes(rv, p) + all_blob_writes(rv, p)
        + all_section_writes(rv, p)
}

/// Whether the texts of all blobs fit in memory.
pub open spec fn blobs_fit<T>(rv: RegistryView<T>) -> bool {
    forall|id: Seq<char>, a: ContentAddr|
        rv.blobs.contains_key(id) && #[trigger] rv.blobs[id].entries.contains_key(a)
            ==> armor::fits(rv.blobs[id].entries[a].len())
}

proof fn lemma_known<A>(known: Set<A>, dom: Set<A>)
    requires
        known.finite(),
        dom.finite(),
        dom.subset_of(known),
    ensures
        (known.len() == dom.len()) == (known == dom),
{
    if known.len() == dom.len() {
        vstd::set_lib::lemma_subset_equality(dom, known);
    }
}

fn save_graphs<G: Payload, S: Save<G>>(
    storage: &mut S,
    registry: &Registry<G>,
    known: &KeySet<GraphAddr>,
    Ghost(p): Ghost<PersistedView>,
)
    requires
        known@ == p.graphs,
    ensures
        final(storage).handed() == old(storage).handed() + all_graph_writes(registry@, p),
{
    let list = registry.graphs.entries();
    let ghost rv = registry@;
    let ghost gm = registry.graphs@;
    let ghost m = rv.graphs;
    let ghost keys = table::key_views(list@);
    let ghost before = storage.handed();
    proof {
        assert(m.dom() =~= gm.dom());
        table::lemma_listed_keys(list@, gm, m);
    }
    let mut changed = false;
    let mut addrs: Vec<GraphAddr> = Vec::new();
    let mut i: usize = 0;
    assert(storage.handed() =~= before + graph_writes(keys.take(0), m, known@));
    while i < list.len()
        invariant
            table::lists(list@, gm),
            gm == registry.graphs@,
            m == registry::graph_views(gm),
            keys == table::key_views(list@),
            i <= list@.len(),
            addrs@ == keys.take(i as int),
            storage.handed() == before + graph_writes(keys.take(i as int), m, known@),
            changed == (exists|j: int| 0 <= j < i && !known@.contains(#[trigger] keys[j])),
        decreases list@.len() - i,
    {
        let a = list[i].0;
        let ghost here = storage.handed();
        proof {
            table::lemma_entry(list@, i as int);
            assert(keys.take(i + 1).drop_last() =~= keys.take(i as int));
            assert(keys[i as int] == a);
        }
        if !known.contains(&a) {
            storage::save(storage, storage::graph(&a), Stored::Graph(list[i].1.dup()));
            proof {
                assert(storage.handed() =~= before + graph_writes(keys.take(i + 1), m, known@));
                assert(!known@.contains(keys[i as int]));
            }
            changed = true;
        }
        addrs.push(a);
        assert(addrs@ =~= keys.take(i + 1));
        i = i + 1;
    }
    assert(keys.take(i as int) =~= keys);
    let n: usize = registry.graphs.len();
    let k: usize = known.len();
    proof {
        if !changed {
            assert forall|x: GraphAddr| #[trigger] m.dom().contains(x) implies known@.contains(x) by {
                assert(m.contains_key(x));
                assert(keys.contains(x));
                let j = choose|j: int| 0 <= j < keys.len() && keys[j] == x;
                assert(known@.contains(keys[j]));
            }
            lemma_known(known@, m.dom());
        } else {
            let j = choose|j: int| 0 <= j < i && !known@.contains(#[trigger] keys[j]);
            assert(keys.contains(keys[j]));
            assert(m.dom().contains(keys[j]));
        }
        assert(known@ != m.dom() <==> changed || k != n);
    }
    if changed || k != n {
        storage::save(storage, String::from_str(storage::GRAPH_ADDRS), Stored::GraphAddrs(addrs));
    }
    assert(storage.handed() =~= before + all_graph_writes(rv, p));
}

fn save_commits<G: Payload, S: Save<G>>(
    storage: &mut S,
    registry: &Registry<G>,
    known: &KeySet<CommitAddr>,
    Ghost(p): Ghost<PersistedView>,
)
    requires
        known@ == p.commits,
    ensures
        final(storage).handed() == old(storage).handed() + all_commit_writes(registry@, p),
{
    let list = registry.commits.entries();
    let ghost rv = registry@;
    let ghost cm = registry.commits@;
    let ghost m = rv.commits;
    let ghost keys = table::key_views(list@);
    let ghost before = storage.handed();
    proof {
        assert(m.dom() =~= cm.dom());
        table::lemma_listed_keys(list@, cm, m);
    }
    let mut changed = false;
    let mut addrs: Vec<CommitAddr> = Vec::new();
    let mut i: usize = 0;
    assert(storage.handed() =~= before + commit_writes::<G::V>(keys.take(0), m, known@));
    while i < list.len()
        invariant
            table::lists(list@, cm),
            cm == registry.commits@,
            m == registry::commit_views(cm),
            keys == table::key_views(list@),
            i <= list@.len(),
            addrs@ == keys.take(i as int),
            storage.handed() == before + commit_writes::<G::V>(keys.take(i as int), m, known@),
            changed == (exists|j: int| 0 <= j < i && !known@.contains(#[trigger] keys[j])),
        decreases list@.len() - i,
    {
        let a = list[i].0;
        let ghost here = storage.handed();
        proof {
            table::lemma_entry(list@, i as int);
            assert(keys.take(i + 1).drop_last() =~= keys.take(i as int));
            assert(keys[i as int] == a);
        }
        if !known.contains(&a) {
            storage::save(storage, storage::commit(&a), Stored::Commit(list[i].1.dup()));
            proof {
                assert(storage.handed() =~= before + commit_writes::<G::V>(keys.take(i + 1), m, known@));
                assert(!known@.contains(keys[i as int]));
            }
            changed = true;
        }
        addrs.push(a);
        assert(addrs@ =~= keys.take(i + 1));
        i = i + 1;
    }
    assert(keys.take(i as int) =~= keys);
    let n: usize = registry.commits.len();
    let k: usize = known.len();
    proof {
        if !changed {
            assert forall|x: CommitAddr| #[trigger] m.dom().contains(x) implies known@.contains(x) by {
                assert(m.contains_key(x));
                assert(keys.contains(x));
                let j = choose|j: int| 0 <= j < keys.len() && keys[j] == x;
                assert(known@.contains(keys[j]));
            }
            lemma_known(known@, m.dom());
        } else {
            let j = choose|j: int| 0 <= j < i && !known@.contains(#[trigger] keys[j]);
            assert(keys.contains(keys[j]));
            assert(m.dom().contains(keys[j]));
        }
        assert(known@ != m.dom() <==> changed || k != n);
    }
    if changed || k != n {
        storage::save(storage, String::from_str(storage::COMMIT_ADDRS), Stored::CommitAddrs(addrs));
    }
    assert(storage.handed() =~= before + all_commit_writes(rv, p));
}

fn save_store<G: Payload, S: Save<G>>(
    storage: &mut S,
    id: &String,
    store: &BlobStore,
    known: &KeySet<ContentAddr>,
) -> (changed: bool)
    requires
        forall|a: ContentAddr| #[trigger]
            store@.entries.contains_key(a) ==> armor::fits(store@.entries[a].len()),
    ensures
        final(storage).handed() == old(storage).handed() + store_writes::<G::V>(
            id@,
            table::keys_of::<ContentAddr, Seq<u8>>(store@.entries),
            store@.entries,
            known@,
        ),
        changed == (known@ != store@.entries.dom()),
{
    let list = store.entries.entries();
    let ghost gm = store.entries@;
    let ghost m = store@.entries;
    let ghost keys = table::key_views(list@);
    let ghost before = storage.handed();
    proof {
        assert(m.dom() =~= gm.dom());
        table::lemma_listed_keys(list@, gm, m);
    }
    let mut changed = false;
    let mut i: usize = 0;
    assert(storage.handed() =~= before + store_writes::<G::V>(id@, keys.take(0), m, known@));
    while i < list.len()
        invariant
            table::lists(list@, gm),
            gm == store.entries@,
            m == registry::byte_views(gm),
            keys == table::key_views(list@),
            forall|a: ContentAddr| #[trigger] m.contains_key(a) ==> armor::fits(m[a].len()),
            i <= list@.len(),
            storage.handed() == before + store_writes::<G::V>(
                id@,
                keys.take(i as int),
                m,
                known@,
            ),
            changed == (exists|j: int| 0 <= j < i && !known@.contains(#[trigger] keys[j])),
        decreases list@.len() - i,
    {
        let a = list[i].0;
        proof {
            table::lemma_entry(list@, i as int);
            assert(keys.take(i + 1).drop_last() =~= keys.take(i as int));
            assert(keys[i as int] == a);
            assert(m.contains_key(a));
        }
        if !known.contains(&a) {
            let encoded = armor::encode(list[i].1.as_slice());
            storage::save(storage, storage::blob(id, &a), Stored::Blob(encoded));
            proof {
                assert(storage.handed() =~= before + store_writes::<G::V>(
                    id@,
                    keys.take(i + 1),
                    m,
                    known@,
                ));
                assert(!known@.contains(keys[i as int]));
            }
            changed = true;
        }
        i = i + 1;
    }
    assert(keys.take(i as int) =~= keys);
    let n: usize = store.entries.len();
    let k: usize = known.len();
    proof {
        if !changed {
            assert forall|x: ContentAddr| #[trigger] m.dom().contains(x) implies known@.contains(
                x,
            ) by {
                assert(m.contains_key(x));
                assert(keys.contains(x));
                let j = choose|j: int| 0 <= j < keys.len() && keys[j] == x;
                assert(known@.contains(keys[j]));
            }
            lemma_known(known@, m.dom());
        } else {
            let j = choose|j: int| 0 <= j < i && !known@.contains(#[trigger] keys[j]);
            assert(keys.contains(keys[j]));
            assert(m.dom().contains(keys[j]));
        }
        assert(known@ != m.dom() <==> changed || k != n);
    }
    changed || k != n
}

fn addresses(store: &BlobStore) -> (r: Vec<ContentAddr>)
    ensures
        r@ == table::keys_of::<ContentAddr, Seq<u8>>(store@.entries),
{
    let list = store.entries.entries();
    let ghost keys = table::key_views(list@);
    proof {
        assert(store@.entries.dom() =~= store.entries@.dom());
        table::lemma_listed_keys(list@, store.entries@, store@.entries);
    }
    let mut r: Vec<ContentAddr> = Vec::new();
    let mut i: usize = 0;
    while i < list.len()
        invariant
            i <= list@.len(),
            keys == table::key_views(list@),
            r@ =~= keys.take(i as int),
        decreases list@.len() - i,
    {
        r.push(list[i].0);
        i = i + 1;
    }
    assert(keys.take(i as int) =~= keys);
    r
}

/// Whether some id on disk is not among those listed.
fn gone<V, W>(known: &Table<String, V>, m: &Table<String, W>) -> (r: bool)
    ensures
        r == (exists|id: Seq<char>| #[trigger] known@.contains_key(id) && !m@.contains_key(id)),
{
    let list = known.entries();
    let ghost km = known@;
    let mut i: usize = 0;
    while i < list.len()
        invariant
            table::lists(list@, km),
            km == known@,
            i <= list@.len(),
            forall|j: int| 0 <= j < i ==> m@.contains_key((#[trigger] list@[j]).0@),
        decreases list@.len() - i,
    {
        if !m.contains_key(&list[i].0) {
            proof {
                table::lemma_entry(list@, i as int);
                assert(km.contains_key(list@[i as int].0@));
            }
            return true;
        }
        i = i + 1;
    }
    proof {
        assert forall|id: Seq<char>| #[trigger] km.contains_key(id) implies m@.contains_key(id) by {
            let j = choose|j: int| 0 <= j < list@.len() && #[trigger] list@[j].0@ == id;
            assert(m@.contains_key(list@[j].0@));
        }
    }
    false
}

fn save_blobs<G: Payload, S: Save<G>>(
    storage: &mut S,
    registry: &Registry<G>,
    known: &Table<String, KeySet<ContentAddr>>,
    Ghost(p): Ghost<PersistedView>,
)
    requires
        table::views(known@) == p.blobs,
        blobs_fit(registry@),
    ensures
        final(storage).handed() == old(storage).handed() + all_blob_writes(registry@, p),
{
    let list = registry.blobs.entries();
    let ghost rv = registry@;
    let ghost bm = registry.blobs@;
    let ghost m = rv.blobs;
    let ghost ids = table::key_views(list@);
    let ghost before = storage.handed();
    proof {
        assert(m.dom() =~= bm.dom());
        table::lemma_listed_keys(list@, bm, m);
    }
    let none: KeySet<ContentAddr> = KeySet::new();
    let mut changed = false;
    let mut lines: Vec<Manifest> = Vec::new();
    let mut i: usize = 0;
    assert(storage.handed() =~= before + blob_writes::<G::V>(ids.take(0), m, p));
    assert(storage::manifest_views(lines@) =~= manifest(ids.take(0), m));
    while i < list.len()
        invariant
            table::lists(list@, bm),
            bm == registry.blobs@,
            rv == registry@,
            blobs_fit(rv),
            m == rv.blobs,
            m == registry::blob_views(bm),
            ids == table::key_views(list@),
            none@ == Set::<ContentAddr>::empty(),
            table::views(known@) == p.blobs,
            i <= list@.len(),
            storage.handed() == before + blob_writes::<G::V>(ids.take(i as int), m, p),
            storage::manifest_views(lines@) == manifest(ids.take(i as int), m),
            changed == (exists|j: int|
                0 <= j < i && p.known_blobs(#[trigger] ids[j]) != m[ids[j]].entries.dom()),
        decreases list@.len() - i,
    {
        let id = &list[i].0;
        let store = &list[i].1;
        let ghost lines0 = lines@;
        let ghost changed0 = changed;
        proof {
            table::lemma_entry(list@, i as int);
            assert(ids.take(i + 1).drop_last() =~= ids.take(i as int));
            assert(ids[i as int] == id@);
            assert(m.contains_key(id@) && m[id@] == store@);
        }
        let tracks = match known.get(id) {
            Some(t) => t,
            None => &none,
        };
        proof {
            assert(p.blobs.contains_key(id@) == known@.contains_key(id@));
            assert(tracks@ == p.known_blobs(id@));
        }
        let fresh = save_store(storage, id, store, tracks);
        let line = Manifest {
            section: id.clone(),
            liveness: store.liveness,
            addrs: addresses(store),
        };
        let ghost lv = line@;
        lines.push(line);
        if fresh {
            changed = true;
        }
        proof {
            assert(storage.handed() =~= before + blob_writes::<G::V>(ids.take(i + 1), m, p));
            assert(storage::manifest_views(lines@) =~= storage::manifest_views(lines0).push(lv));
            assert(manifest(ids.take(i + 1), m) =~= manifest(ids.take(i as int), m).push(lv));
            if changed0 {
                let j = choose|j: int|
                    0 <= j < i && p.known_blobs(#[trigger] ids[j]) != m[ids[j]].entries.dom();
                assert(p.known_blobs(ids[j]) != m[ids[j]].entries.dom());
            }
            if fresh {
                assert(p.known_blobs(ids[i as int]) != m[ids[i as int]].entries.dom());
            }
        }
        i = i + 1;
    }
    assert(ids.take(i as int) =~= ids);
    let lost = gone(known, &registry.blobs);
    proof {
        assert(lost == exists|id: Seq<char>| #[trigger]
            p.blobs.contains_key(id) && !m.contains_key(id)) by {
            if lost {
                let id = choose|id: Seq<char>| #[trigger]
                    known@.contains_key(id) && !bm.contains_key(id);
                assert(p.blobs.contains_key(id) && !m.contains_key(id));
            }
            if exists|id: Seq<char>| #[trigger] p.blobs.contains_key(id) && !m.contains_key(id) {
                let id = choose|id: Seq<char>| #[trigger]
                    p.blobs.contains_key(id) && !m.contains_key(id);
                assert(known@.contains_key(id) && !bm.contains_key(id));
            }
        }
        assert(changed == exists|id: Seq<char>| #[trigger]
            m.contains_key(id) && p.known_blobs(id) != m[id].entries.dom()) by {
            if changed {
                let j = choose|j: int|
                    0 <= j < i && p.known_blobs(#[trigger] ids[j]) != m[ids[j]].entries.dom();
                assert(ids.contains(ids[j]));
                assert(m.contains_key(ids[j]));
            }
            if exists|id: Seq<char>| #[trigger]
                m.contains_key(id) && p.known_blobs(id) != m[id].entries.dom() {
                let id = choose|id: Seq<char>| #[trigger]
                    m.contains_key(id) && p.known_blobs(id) != m[id].entries.dom();
                assert(ids.contains(id));
                let j = choose|j: int| 0 <= j < ids.len() && ids[j] == id;
                assert(p.known_blobs(ids[j]) != m[ids[j]].entries.dom());
            }
        }
    }
    if changed || lost {
        storage::save(
            storage,
            String::from_str(storage::BLOB_MANIFEST),
            Stored::Manifest(lines),
        );
    }
    assert(storage.handed() =~= before + all_blob_writes(rv, p));
}

fn save_sections<G: Payload, S: Save<G>>(
    storage: &mut S,
    registry: &Registry<G>,
    known: &Table<String, Section>,
    Ghost(p): Ghost<PersistedView>,
)
    requires
        registry::section_views(known@) == p.sections,
    ensures
        final(storage).handed() == old(storage).handed() + all_section_writes(registry@, p),
{
    let list = registry.sections.entries();
    let ghost rv = registry@;
    let ghost sm = registry.sections@;
    let ghost m = rv.sections;
    let ghost ids = table::key_views(list@);
    let ghost before = storage.handed();
    proof {
        assert(m.dom() =~= sm.dom());
        table::lemma_listed_keys(list@, sm, m);
    }
    let mut changed = false;
    let mut names: Vec<String> = Vec::new();
    let mut i: usize = 0;
    assert(storage.handed() =~= before + section_writes::<G::V>(ids.take(0), m, p.sections));
    assert(text::texts(names@) =~= ids.take(0));
    while i < list.len()
        invariant
            table::lists(list@, sm),
            sm == registry.sections@,
            m == registry::section_views(sm),
            ids == table::key_views(list@),
            registry::section_views(known@) == p.sections,
            i <= list@.len(),
            text::texts(names@) == ids.take(i as int),
            storage.handed() == before + section_writes::<G::V>(
                ids.take(i as int),
                m,
                p.sections,
            ),
            changed == (exists|j: int| 0 <= j < i && !p.sections.contains_key(#[trigger] ids[j])),
        decreases list@.len() - i,
    {
        let id = &list[i].0;
        let section = &list[i].1;
        let ghost names0 = names@;
        let ghost changed0 = changed;
        proof {
            table::lemma_entry(list@, i as int);
            assert(ids.take(i + 1).drop_last() =~= ids.take(i as int));
            assert(ids[i as int] == id@);
            assert(m.contains_key(id@) && m[id@] == section@);
            assert(p.sections.contains_key(id@) == known@.contains_key(id@));
        }
        let same = match known.get(id) {
            Some(s) => s.same(section),
            None => {
                changed = true;
                false
            },
        };
        if !same {
            storage::save(storage, storage::section(id), Stored::Section(section.dup()));
        }
        names.push(id.clone());
        proof {
            assert(storage.handed() =~= before + section_writes::<G::V>(
                ids.take(i + 1),
                m,
                p.sections,
            ));
            assert(text::texts(names@) =~= text::texts(names0).push(id@));
            assert(ids.take(i + 1) =~= ids.take(i as int).push(id@));
            if changed0 {
                let j = choose|j: int| 0 <= j < i && !p.sections.contains_key(#[trigger] ids[j]);
                assert(!p.sections.contains_key(ids[j]));
            }
            if !p.sections.contains_key(id@) {
                assert(!p.sections.contains_key(ids[i as int]));
            }
        }
        i = i + 1;
    }
    assert(ids.take(i as int) =~= ids);
    let lost = gone(known, &registry.sections);
    proof {
        assert(p.sections.dom() != m.dom() <==> changed || lost) by {
            if changed {
                let j = choose|j: int| 0 <= j < i && !p.sections.contains_key(#[trigger] ids[j]);
                assert(ids.contains(ids[j]));
                assert(m.contains_key(ids[j]));
                assert(m.dom().contains(ids[j]) && !p.sections.dom().contains(ids[j]));
            }
            if lost {
                let id = choose|id: Seq<char>| #[trigger]
                    known@.contains_key(id) && !sm.contains_key(id);
                assert(p.sections.dom().contains(id) && !m.dom().contains(id));
            }
            if !changed && !lost {
                assert forall|id: Seq<char>| p.sections.dom().contains(id) == m.dom().contains(
                    id,
                ) by {
                    if m.contains_key(id) {
                        assert(ids.contains(id));
                        let j = choose|j: int| 0 <= j < ids.len() && ids[j] == id;
                        assert(p.sections.contains_key(ids[j]));
                    }
                    if p.sections.contains_key(id) {
                        assert(known@.contains_key(id));
                    }
                }
                assert(p.sections.dom() =~= m.dom());
            }
        }
    }
    if changed || lost {
        storage::save(
            storage,
            String::from_str(storage::SECTION_INDEX),
            Stored::SectionIndex(names),
        );
    }
    assert(storage.handed() =~= before + all_section_writes(rv, p));
}

/// Persists the registry, writing only what `persisted` does not have yet. Content
/// is immutable, so what is on disk is never written again; a section is written
/// again where it differs from the form on disk. With nothing known to be on disk
/// this is a full save; a registry that is on disk as it is writes nothing.
pub fn save_registry_incremental<G: Payload, S: Save<G>>(
    storage: &mut S,
    registry: &Registry<G>,
    persisted: &mut PersistedRegistry,
)
    requires
        blobs_fit(registry@),
    ensures
        final(storage).handed() == old(storage).handed() + registry_writes(
            registry@,
            old(persisted)@,
        ),
        final(persisted)@ == PersistedView::of(registry@),
{
    let ghost p = persisted@;
    let ghost before = storage.handed();
    save_graphs(storage, registry, &persisted.graphs, Ghost(p));
    save_commits(storage, registry, &persisted.commits, Ghost(p));
    save_blobs(storage, registry, &persisted.blobs, Ghost(p));
    save_sections(storage, registry, &persisted.sections, Ghost(p));
    *persisted = PersistedRegistry::from_registry(registry);
    assert(storage.handed() =~= before + registry_writes(registry@, p));
}

/// Saving a registry that is on disk as it is writes nothing.
pub proof fn law_resave_writes_nothing<T>(rv: RegistryView<T>)
    requires
        rv.graphs.dom().finite(),
        rv.commits.dom().finite(),
        rv.blobs.dom().finite(),
        rv.sections.dom().finite(),
        forall|id: Seq<char>| #[trigger]
            rv.blobs.contains_key(id) ==> rv.blobs[id].entries.dom().finite(),
    ensures
        registry_writes(rv, PersistedView::of(rv)) == Seq::<(Seq<char>, StoredView<T>)>::empty(),
{
    let p = PersistedView::of(rv);
    let nothing = Seq::<(Seq<char>, StoredView<T>)>::empty();
    let gk = table::keys_of::<GraphAddr, T>(rv.graphs);
    let ck = table::keys_of::<CommitAddr, CommitView>(rv.commits);
    let bk = table::keys_of::<String, BlobView>(rv.blobs);
    let sk = table::keys_of::<String, SectionView>(rv.sections);
    table::lemma_keys_of::<GraphAddr, T>(rv.graphs);
    table::lemma_keys_of::<CommitAddr, CommitView>(rv.commits);
    table::lemma_keys_of::<String, BlobView>(rv.blobs);
    table::lemma_keys_of::<String, SectionView>(rv.sections);
    assert forall|i: int| 0 <= i < gk.len() implies p.graphs.contains(#[trigger] gk[i]) by {
        assert(gk.contains(gk[i]));
        assert(rv.graphs.contains_key(gk[i]));
    }
    lemma_no_graph_writes(gk, rv.graphs, p.graphs);
    assert forall|i: int| 0 <= i < ck.len() implies p.commits.contains(#[trigger] ck[i]) by {
        assert(ck.contains(ck[i]));
        assert(rv.commits.contains_key(ck[i]));
    }
    lemma_no_commit_writes::<T>(ck, rv.commits, p.commits);
    assert forall|i: int| 0 <= i < bk.len() implies rv.blobs[#[trigger] bk[i]].entries.dom().finite()
        && p.known_blobs(bk[i]) == rv.blobs[bk[i]].entries.dom() by {
        assert(bk.contains(bk[i]));
        assert(rv.blobs.contains_key(bk[i]));
    }
    lemma_no_blob_writes::<T>(bk, rv.blobs, p);
    assert(!blobs_changed(rv.blobs, p));
    assert forall|i: int| 0 <= i < sk.len() implies p.sections.contains_key(#[trigger] sk[i]) by {
        assert(sk.contains(sk[i]));
        assert(rv.sections.contains_key(sk[i]));
    }
    lemma_no_section_writes::<T>(sk, rv.sections);
    assert(registry_writes(rv, p) =~= nothing);
}

proof fn lemma_no_graph_writes<T>(keys: Seq<GraphAddr>, m: Map<GraphAddr, T>, known: Set<GraphAddr>)
    requires
        forall|i: int| 0 <= i < keys.len() ==> known.contains(#[trigger] keys[i]),
    ensures
        graph_writes(keys, m, known).len() == 0,
    decreases keys.len(),
{
    if keys.len() > 0 {
        assert(known.contains(keys[keys.len() - 1]));
        assert forall|i: int| 0 <= i < keys.len() - 1 implies known.contains(
            #[trigger] keys.drop_last()[i],
        ) by {
            assert(known.contains(keys[i]));
        }
        lemma_no_graph_writes(keys.drop_last(), m, known);
    }
}

proof fn lemma_no_commit_writes<T>(
    keys: Seq<CommitAddr>,
    m: Map<CommitAddr, CommitView>,
    known: Set<CommitAddr>,
)
    requires
        forall|i: int| 0 <= i < keys.len() ==> known.contains(#[trigger] keys[i]),
    ensures
        commit_writes::<T>(keys, m, known).len() == 0,
    decreases keys.len(),
{
    if keys.len() > 0 {
        assert(known.contains(keys[keys.len() - 1]));
        assert forall|i: int| 0 <= i < keys.len() - 1 implies known.contains(
            #[trigger] keys.drop_last()[i],
        ) by {
            assert(known.contains(keys[i]));
        }
        lemma_no_commit_writes::<T>(keys.drop_last(), m, known);
    }
}

proof fn lemma_no_store_writes<T>(
    id: Seq<char>,
    keys: Seq<ContentAddr>,
    m: Map<ContentAddr, Seq<u8>>,
    known: Set<ContentAddr>,
)
    requires
        forall|i: int| 0 <= i < keys.len() ==> known.contains(#[trigger] keys[i]),
    ensures
        store_writes::<T>(id, keys, m, known).len() == 0,
    decreases keys.len(),
{
    if keys.len() > 0 {
        assert(known.contains(keys[keys.len() - 1]));
        assert forall|i: int| 0 <= i < keys.len() - 1 implies known.contains(
            #[trigger] keys.drop_last()[i],
        ) by {
            assert(known.contains(keys[i]));
        }
        lemma_no_store_writes::<T>(id, keys.drop_last(), m, known);
    }
}

proof fn lemma_no_blob_writes<T>(ids: Seq<Seq<char>>, m: Map<Seq<char>, BlobView>, p: PersistedView)
    requires
        forall|i: int|
            0 <= i < ids.len() ==> m[#[trigger] ids[i]].entries.dom().finite() && p.known_blobs(
                ids[i],
            ) == m[ids[i]].entries.dom(),
    ensures
        blob_writes::<T>(ids, m, p).len() == 0,
    decreases ids.len(),
{
    if ids.len() > 0 {
        let id = ids.last();
        assert(ids[ids.len() - 1] == id);
        let keys = table::keys_of::<ContentAddr, Seq<u8>>(m[id].entries);
        table::lemma_keys_of::<ContentAddr, Seq<u8>>(m[id].entries);
        assert forall|i: int| 0 <= i < keys.len() implies p.known_blobs(id).contains(
            #[trigger] keys[i],
        ) by {
            assert(keys.contains(keys[i]));
            assert(m[id].entries.contains_key(keys[i]));
        }
        lemma_no_store_writes::<T>(id, keys, m[id].entries, p.known_blobs(id));
        assert forall|i: int| 0 <= i < ids.len() - 1 implies m[#[trigger] ids.drop_last()[i]].entries.dom().finite()
            && p.known_blobs(ids.drop_last()[i]) == m[ids.drop_last()[i]].entries.dom() by {
            assert(ids.drop_last()[i] == ids[i]);
        }
        lemma_no_blob_writes::<T>(ids.drop_last(), m, p);
    }
}

proof fn lemma_no_section_writes<T>(ids: Seq<Seq<char>>, m: Map<Seq<char>, SectionView>)
    requires
        forall|i: int| 0 <= i < ids.len() ==> m.contains_key(#[trigger] ids[i]),
    ensures
        section_writes::<T>(ids, m, m).len() == 0,
    decreases ids.len(),
{
    if ids.len() > 0 {
        assert(m.contains_key(ids[ids.len() - 1]));
        assert forall|i: int| 0 <= i < ids.len() - 1 implies m.contains_key(
            #[trigger] ids.drop_last()[i],
        ) by {
            assert(m.contains_key(ids[i]));
        }
        lemma_no_section_writes::<T>(ids.drop_last(), m);
    }
}

proof fn lemma_one_section_write<T>(
    ids: Seq<Seq<char>>,
    m: Map<Seq<char>, SectionView>,
    id: Seq<char>,
    s: SectionView,
)
    requires
        forall|i: int| 0 <= i < ids.len() ==> m.contains_key(#[trigger] ids[i]),
        ids.no_duplicates(),
        m.contains_key(id),
        m[id] != s,
    ensures
        section_writes::<T>(ids, m.insert(id, s), m) == (if ids.contains(id) {
            seq![(storage::section_key(id), StoredView::<T>::Section(s))]
        } else {
            Seq::empty()
        }),
    decreases ids.len(),
{
    if ids.len() > 0 {
        let init = ids.drop_last();
        let last = ids[ids.len() - 1];
        assert(m.contains_key(last));
        assert forall|i: int| 0 <= i < init.len() implies m.contains_key(#[trigger] init[i]) by {
            assert(init[i] == ids[i]);
        }
        lemma_one_section_write::<T>(init, m, id, s);
        if last == id {
            assert(!init.contains(id)) by {
                if init.contains(id) {
                    let i = init.index_of(id);
                    assert(ids[i] == ids[ids.len() - 1]);
                }
            }
            assert(ids.contains(id));
            assert(section_writes::<T>(ids, m.insert(id, s), m) =~= seq![
                (storage::section_key(id), StoredView::Section(s)),
            ]);
        } else {
            if init.contains(id) {
                let i = init.index_of(id);
                assert(ids[i] == id);
            }
            if ids.contains(id) {
                let i = ids.index_of(id);
                assert(init[i] == id);
            }
        }
    }
}

/// An edit of a section rewrites that section and nothing else.
pub proof fn law_edit_rewrites_one_section<T>(rv: RegistryView<T>, id: Seq<char>, s: SectionView)
    requires
        rv.graphs.dom().finite(),
        rv.commits.dom().finite(),
        rv.blobs.dom().finite(),
        rv.sections.dom().finite(),
        forall|id: Seq<char>| #[trigger]
            rv.blobs.contains_key(id) ==> rv.blobs[id].entries.dom().finite(),
        rv.sections.contains_key(id),
        rv.sections[id] != s,
    ensures
        registry_writes(
            RegistryView { sections: rv.sections.insert(id, s), ..rv },
            PersistedView::of(rv),
        ) == seq![(storage::section_key(id), StoredView::<T>::Section(s))],
{
    let after = RegistryView { sections: rv.sections.insert(id, s), ..rv };
    let p = PersistedView::of(rv);
    law_resave_writes_nothing(rv);
    let quiet = all_graph_writes(rv, p) + all_commit_writes(rv, p) + all_blob_writes(rv, p);
    assert(registry_writes(rv, p).len() >= quiet.len());
    assert(quiet =~= Seq::empty());
    let ids = table::keys_of::<String, SectionView>(rv.sections);
    table::lemma_keys_of::<String, SectionView>(rv.sections);
    assert(after.sections.dom() =~= rv.sections.dom());
    assert forall|k: Seq<char>| #[trigger] after.sections.contains_key(k) <==> ids.contains(k) by {
        assert(rv.sections.contains_key(k) <==> ids.contains(k));
    }
    table::lemma_keys::<String, SectionView>(ids, after.sections);
    assert(ids.no_duplicates()) by {
        assert forall|i: int, j: int| 0 <= i < ids.len() && 0 <= j < ids.len() && i != j implies ids[i]
            != ids[j] by {
            if i < j {
                assert(String::precedes(ids[i], ids[j]));
            } else {
                assert(String::precedes(ids[j], ids[i]));
            }
            String::lemma_irreflexive(ids[i]);
        }
    }
    assert forall|i: int| 0 <= i < ids.len() implies rv.sections.contains_key(#[trigger] ids[i]) by {
        assert(ids.contains(ids[i]));
    }
    lemma_one_section_write::<T>(ids, rv.sections, id, s);
    assert(ids.contains(id));
    assert(all_graph_writes(after, p) =~= Seq::empty());
    assert(all_commit_writes(after, p) =~= Seq::empty());
    assert(all_blob_writes(after, p) =~= Seq::empty());
    assert(registry_writes(after, p) =~= seq![
        (storage::section_key(id), StoredView::<T>::Section(s)),
    ]);
}

} // verus!
