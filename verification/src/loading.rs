//! Loading a registry from a key-value store.

use crate::addr::ContentAddr;
use crate::armor;
use crate::commit::{Commit, CommitAddr, CommitView};
use crate::graph::GraphAddr;
use crate::hash;
use crate::order::Key;
use crate::registry::{
    self, BlobLiveness, KeyView, Payload, Registry, RegistryView, Section, SectionView, ValueView,
};
use crate::storage::{self, Load, Manifest, ManifestView, Stored, StoredView};
use crate::table::{self, Table};
use crate::text;
use vstd::prelude::*;
use vstd::string::*;

verus! {

/// What reading the keys of a store gives.
pub type Held<T> = spec_fn(Seq<char>) -> Option<StoredView<T>>;

/// What reading the keys of a store gives.
pub open spec fn held_by<G: Payload, L: Load<G>>(storage: L) -> Held<G::V> {
    |key: Seq<char>| storage.held(key)
}

/// The graph addresses that are listed.
pub open spec fn graph_addrs<T>(f: Held<T>) -> Seq<GraphAddr> {
    match f(storage::GRAPH_ADDRS@) {
        Some(StoredView::GraphAddrs(s)) => s,
        _ => Seq::empty(),
    }
}

/// The commit addresses that are listed.
pub open spec fn commit_addrs<T>(f: Held<T>) -> Seq<CommitAddr> {
    match f(storage::COMMIT_ADDRS@) {
        Some(StoredView::CommitAddrs(s)) => s,
        _ => Seq::empty(),
    }
}

/// The section ids that are listed.
pub open spec fn section_ids<T>(f: Held<T>) -> Seq<Seq<char>> {
    match f(storage::SECTION_INDEX@) {
        Some(StoredView::SectionIndex(s)) => s,
        _ => Seq::empty(),
    }
}

/// The blob stores that are listed.
pub open spec fn blob_manifest<T>(f: Held<T>) -> Seq<ManifestView> {
    match f(storage::BLOB_MANIFEST@) {
        Some(StoredView::Manifest(s)) => s,
        _ => Seq::empty(),
    }
}

/// The graph stored for an address.
pub open spec fn graph_at<T>(f: Held<T>, a: GraphAddr) -> Option<T> {
    match f(storage::graph_key(a)) {
        Some(StoredView::Graph(g)) => Some(g),
        _ => None,
    }
}

/// The commit stored for an address.
pub open spec fn commit_at<T>(f: Held<T>, a: CommitAddr) -> Option<CommitView> {
    match f(storage::commit_key(a)) {
        Some(StoredView::Commit(c)) => Some(c),
        _ => None,
    }
}

/// The section stored for an id.
pub open spec fn section_at<T>(f: Held<T>, id: Seq<char>) -> Option<SectionView> {
    match f(storage::section_key(id)) {
        Some(StoredView::Section(s)) => Some(s),
        _ => None,
    }
}

/// The bytes stored for a blob.
pub open spec fn blob_at<T>(f: Held<T>, id: Seq<char>, a: ContentAddr) -> Option<Seq<u8>> {
    match f(storage::blob_key(id, a)) {
        Some(StoredView::Blob(s)) => armor::bytes(s),
        _ => None,
    }
}

/// The listed graphs that are stored.
pub open spec fn loaded_graphs<T>(f: Held<T>, addrs: Seq<GraphAddr>) -> Map<GraphAddr, T> {
    Map::new(
        |a: GraphAddr| addrs.contains(a) && graph_at(f, a) is Some,
        |a: GraphAddr| graph_at(f, a)->0,
    )
}

/// The listed commits that are stored.
pub open spec fn loaded_commits<T>(f: Held<T>, addrs: Seq<CommitAddr>) -> Map<
    CommitAddr,
    CommitView,
> {
    Map::new(
        |a: CommitAddr| addrs.contains(a) && commit_at(f, a) is Some,
        |a: CommitAddr| commit_at(f, a)->0,
    )
}

/// The registry with a section's entries put in. The first entry of a section stamps
/// its policy and liveness.
pub open spec fn with_section<T>(rv: RegistryView<T>, id: Seq<char>, s: SectionView) -> RegistryView<
    T,
> {
    if s.entries == Map::<KeyView, ValueView>::empty() {
        rv
    } else {
        let old = rv.section_or(id, s.policy, s.liveness);
        RegistryView {
            sections: rv.sections.insert(
                id,
                SectionView { entries: old.entries.union_prefer_right(s.entries), ..old },
            ),
            ..rv
        }
    }
}

/// The registry with the listed sections put in, where they are stored.
pub open spec fn with_sections<T>(rv: RegistryView<T>, ids: Seq<Seq<char>>, f: Held<T>) -> RegistryView<
    T,
>
    decreases ids.len(),
{
    if ids.len() == 0 {
        rv
    } else {
        let init = with_sections(rv, ids.drop_last(), f);
        match section_at(f, ids.last()) {
            Some(s) => with_section(init, ids.last(), s),
            None => init,
        }
    }
}

/// The registry with the listed blobs of a store added, where they are stored. Each
/// goes under the address of its bytes.
pub open spec fn with_store<T>(
    rv: RegistryView<T>,
    id: Seq<char>,
    liveness: BlobLiveness,
    addrs: Seq<ContentAddr>,
    f: Held<T>,
) -> RegistryView<T>
    decreases addrs.len(),
{
    if addrs.len() == 0 {
        rv
    } else {
        let init = with_store(rv, id, liveness, addrs.drop_last(), f);
        match blob_at(f, id, addrs.last()) {
            Some(b) => init.with_blob(id, liveness, hash::addr_of(b), b),
            None => init,
        }
    }
}

/// The registry with the listed blob stores added.
pub open spec fn with_stores<T>(rv: RegistryView<T>, m: Seq<ManifestView>, f: Held<T>) -> RegistryView<
    T,
>
    decreases m.len(),
{
    if m.len() == 0 {
        rv
    } else {
        with_store(
            with_stores(rv, m.drop_last(), f),
            m.last().section,
            m.last().liveness,
            m.last().addrs,
            f,
        )
    }
}

/// The registry that a store holds.
pub open spec fn loaded<T>(f: Held<T>) -> RegistryView<T> {
    let content = RegistryView {
        graphs: loaded_graphs(f, graph_addrs(f)),
        commits: loaded_commits(f, commit_addrs(f)),
        ..RegistryView::<T>::empty()
    };
    with_stores(with_sections(content, section_ids(f), f), blob_manifest(f), f)
}

fn load_graphs<G: Payload, L: Load<G>>(storage: &L) -> (r: Table<GraphAddr, G>)
    ensures
        registry::graph_views(r@) == loaded_graphs(
            held_by::<G, L>(*storage),
            graph_addrs(held_by::<G, L>(*storage)),
        ),
{
    let ghost f = held_by::<G, L>(*storage);
    let addrs: Vec<GraphAddr> = match storage::load(
        storage,
        &String::from_str(storage::GRAPH_ADDRS),
    ) {
        Some(Stored::GraphAddrs(addrs)) => addrs,
        _ => Vec::new(),
    };
    assert(addrs@ =~= graph_addrs(f));
    let mut r: Table<GraphAddr, G> = Table::new();
    let mut i: usize = 0;
    assert(registry::graph_views(r@) =~= loaded_graphs(f, addrs@.take(0)));
    while i < addrs.len()
        invariant
            f == held_by::<G, L>(*storage),
            i <= addrs@.len(),
            registry::graph_views(r@) == loaded_graphs(f, addrs@.take(i as int)),
        decreases addrs@.len() - i,
    {
        let a = addrs[i];
        let ghost before = registry::graph_views(r@);
        let ghost next = loaded_graphs(f, addrs@.take(i + 1));
        proof {
            lemma_contains_next(addrs@, i as int);
        }
        match storage::load(storage, &storage::graph(&a)) {
            Some(Stored::Graph(g)) => {
                let ghost v = g@;
                r.insert(a, g);
                assert(registry::graph_views(r@) =~= before.insert(a, v));
                assert(graph_at(f, a) == Some(v));
                assert(next =~= before.insert(a, v));
            },
            _ => {
                assert(graph_at(f, a) is None);
                assert(next =~= before);
            },
        }
        i = i + 1;
    }
    assert(addrs@.take(i as int) =~= addrs@);
    r
}

proof fn lemma_contains_next<A>(s: Seq<A>, i: int)
    requires
        0 <= i < s.len(),
    ensures
        forall|a: A| #[trigger] s.take(i + 1).contains(a) <==> s.take(i).contains(a) || a == s[i],
{
    let t = s.take(i + 1);
    let u = s.take(i);
    assert forall|a: A| #[trigger] t.contains(a) <==> u.contains(a) || a == s[i] by {
        if t.contains(a) {
            let j = choose|j: int| 0 <= j < t.len() && t[j] == a;
            if j < i {
                assert(u[j] == a);
            }
        }
        if u.contains(a) {
            let j = choose|j: int| 0 <= j < u.len() && u[j] == a;
            assert(t[j] == a);
        }
        assert(t[i] == s[i]);
    }
}

fn load_commits<G: Payload, L: Load<G>>(storage: &L) -> (r: Table<CommitAddr, Commit>)
    ensures
        registry::commit_views(r@) == loaded_commits(
            held_by::<G, L>(*storage),
            commit_addrs(held_by::<G, L>(*storage)),
        ),
{
    let ghost f = held_by::<G, L>(*storage);
    let addrs: Vec<CommitAddr> = match storage::load(
        storage,
        &String::from_str(storage::COMMIT_ADDRS),
    ) {
        Some(Stored::CommitAddrs(addrs)) => addrs,
        _ => Vec::new(),
    };
    assert(addrs@ =~= commit_addrs(f));
    let mut r: Table<CommitAddr, Commit> = Table::new();
    let mut i: usize = 0;
    assert(registry::commit_views(r@) =~= loaded_commits(f, addrs@.take(0)));
    while i < addrs.len()
        invariant
            f == held_by::<G, L>(*storage),
            i <= addrs@.len(),
            registry::commit_views(r@) == loaded_commits(f, addrs@.take(i as int)),
        decreases addrs@.len() - i,
    {
        let a = addrs[i];
        let ghost before = registry::commit_views(r@);
        let ghost next = loaded_commits(f, addrs@.take(i + 1));
        proof {
            lemma_contains_next(addrs@, i as int);
        }
        match storage::load(storage, &storage::commit(&a)) {
            Some(Stored::Commit(c)) => {
                let ghost v = c@;
                r.insert(a, c);
                assert(registry::commit_views(r@) =~= before.insert(a, v));
                assert(commit_at(f, a) == Some(v));
                assert(next =~= before.insert(a, v));
            },
            _ => {
                assert(commit_at(f, a) is None);
                assert(next =~= before);
            },
        }
        i = i + 1;
    }
    assert(addrs@.take(i as int) =~= addrs@);
    r
}

fn put_section<G: Payload>(reg: &mut Registry<G>, id: &String, section: &Section)
    ensures
        final(reg)@ == with_section(old(reg)@, id@, section@),
{
    let list = section.entries.entries();
    let ghost sm = section.entries@;
    let ghost before = reg@;
    let ghost s = section@;
    let ghost start = before.section_or(id@, s.policy, s.liveness);
    let mut i: usize = 0;
    while i < list.len()
        invariant
            table::lists(list@, sm),
            s == section@,
            start == before.section_or(id@, s.policy, s.liveness),
            i <= list@.len(),
            i == 0 ==> reg@ == before,
            i > 0 ==> reg@ == (RegistryView {
                sections: before.sections.insert(
                    id@,
                    SectionView {
                        entries: start.entries.union_prefer_right(
                            registry::value_views(table::entries_map(list@.take(i as int))),
                        ),
                        ..start
                    },
                ),
                ..before
            }),
        decreases list@.len() - i,
    {
        let ghost here = registry::value_views(table::entries_map(list@.take(i as int)));
        let ghost kv = list@[i as int].0@;
        let ghost vv = list@[i as int].1@;
        let ghost mid = reg@;
        reg.set_section_value(
            id.clone(),
            section.policy,
            section.liveness,
            list[i].0.dup(),
            list[i].1.dup(),
        );
        proof {
            let t = list@.take(i as int);
            assert(list@.take(i + 1) =~= t.push(list@[i as int]));
            assert(table::ascending(t.push(list@[i as int]))) by {
                let u = t.push(list@[i as int]);
                assert forall|a: int, b: int| 0 <= a < b < u.len() implies crate::registry::SectionKey::precedes(
                    #[trigger] u[a].0@,
                    #[trigger] u[b].0@,
                ) by {
                    assert(u[a] == list@[a] && u[b] == list@[b]);
                }
            }
            table::lemma_table_push(t, list@[i as int]);
            let next = registry::value_views(table::entries_map(list@.take(i + 1)));
            assert(next =~= here.insert(kv, vv));
            if i == 0 {
                assert(here =~= Map::<KeyView, ValueView>::empty());
                assert(start.entries.union_prefer_right(next) =~= start.entries.insert(kv, vv));
            } else {
                assert(start.entries.union_prefer_right(next)
                    =~= start.entries.union_prefer_right(here).insert(kv, vv));
            }
            assert(reg@.sections =~= before.sections.insert(
                id@,
                SectionView { entries: start.entries.union_prefer_right(next), ..start },
            ));
        }
        i = i + 1;
    }
    proof {
        assert(list@.take(i as int) =~= list@);
        if list@.len() == 0 {
            assert(s.entries =~= Map::<KeyView, ValueView>::empty());
        } else {
            table::lemma_entry(list@, 0);
            assert(s.entries.contains_key(list@[0].0@));
            assert(!Map::<KeyView, ValueView>::empty().contains_key(list@[0].0@));
        }
    }
}

fn load_sections<G: Payload, L: Load<G>>(storage: &L, reg: &mut Registry<G>)
    ensures
        final(reg)@ == with_sections(
            old(reg)@,
            section_ids(held_by::<G, L>(*storage)),
            held_by::<G, L>(*storage),
        ),
{
    let ghost f = held_by::<G, L>(*storage);
    let ghost before = reg@;
    let ids: Vec<String> = match storage::load(
        storage,
        &String::from_str(storage::SECTION_INDEX),
    ) {
        Some(Stored::SectionIndex(ids)) => ids,
        _ => Vec::new(),
    };
    let ghost names = text::texts(ids@);
    assert(names =~= section_ids(f));
    let mut i: usize = 0;
    assert(names.take(0) =~= Seq::empty());
    while i < ids.len()
        invariant
            f == held_by::<G, L>(*storage),
            names == text::texts(ids@),
            i <= ids@.len(),
            reg@ == with_sections(before, names.take(i as int), f),
        decreases ids@.len() - i,
    {
        let id = &ids[i];
        proof {
            assert(names.take(i + 1).drop_last() =~= names.take(i as int));
            assert(names.take(i + 1).last() == id@);
        }
        match storage::load(storage, &storage::section(id)) {
            Some(Stored::Section(s)) => {
                assert(section_at(f, id@) == Some(s@));
                put_section(reg, id, &s);
            },
            _ => {
                assert(section_at(f, id@) is None);
            },
        }
        i = i + 1;
    }
    assert(names.take(i as int) =~= names);
}

/// Loads the bytes of a blob.
fn load_blob<G: Payload, L: Load<G>>(storage: &L, id: &String, addr: &ContentAddr) -> (r: Option<
    Vec<u8>,
>)
    ensures
        match r {
            Some(b) => blob_at(held_by::<G, L>(*storage), id@, *addr) == Some(b@),
            None => blob_at(held_by::<G, L>(*storage), id@, *addr) is None,
        },
{
    match storage::load(storage, &storage::blob(id, addr)) {
        Some(Stored::Blob(encoded)) => match armor::decode(encoded.as_str()) {
            Ok(bytes) => {
                proof {
                    armor::law_base64_round_trips(bytes@);
                }
                Some(bytes)
            },
            Err(_) => None,
        },
        _ => None,
    }
}

fn load_store<G: Payload, L: Load<G>>(storage: &L, reg: &mut Registry<G>, line: &Manifest)
    ensures
        final(reg)@ == with_store(
            old(reg)@,
            line@.section,
            line@.liveness,
            line@.addrs,
            held_by::<G, L>(*storage),
        ),
{
    let ghost f = held_by::<G, L>(*storage);
    let ghost before = reg@;
    let ghost addrs = line.addrs@;
    let mut i: usize = 0;
    assert(addrs.take(0) =~= Seq::empty());
    while i < line.addrs.len()
        invariant
            f == held_by::<G, L>(*storage),
            addrs == line.addrs@,
            i <= addrs.len(),
            reg@ == with_store(before, line.section@, line.liveness, addrs.take(i as int), f),
        decreases addrs.len() - i,
    {
        proof {
            assert(addrs.take(i + 1).drop_last() =~= addrs.take(i as int));
            assert(addrs.take(i + 1).last() == addrs[i as int]);
        }
        if let Some(bytes) = load_blob::<G, L>(storage, &line.section, &line.addrs[i]) {
            let ghost b = bytes@;
            let addr = reg.add_blob(line.section.clone(), line.liveness, bytes);
            proof {
                hash::lemma_addr_of(addr, b);
            }
        }
        i = i + 1;
    }
    assert(addrs.take(i as int) =~= addrs);
}

/// Loads the registry from a store. What is listed and not there, or cannot be read,
/// is left out. Blobs go under the address of their bytes, so bytes that were
/// damaged end up where nothing refers to them.
pub fn load_registry<G: Payload, L: Load<G>>(storage: &L) -> (r: Registry<G>)
    ensures
        r@ == loaded(held_by::<G, L>(*storage)),
{
    let ghost f = held_by::<G, L>(*storage);
    let graphs = load_graphs(storage);
    let commits = load_commits(storage);
    let mut reg = Registry::from_parts(graphs, commits, Vec::new());
    proof {
        let content = RegistryView {
            graphs: loaded_graphs(f, graph_addrs(f)),
            commits: loaded_commits(f, commit_addrs(f)),
            ..RegistryView::<G::V>::empty()
        };
        assert(reg@ =~= content);
    }
    load_sections(storage, &mut reg);
    let manifest: Vec<Manifest> = match storage::load(
        storage,
        &String::from_str(storage::BLOB_MANIFEST),
    ) {
        Some(Stored::Manifest(m)) => m,
        _ => Vec::new(),
    };
    let ghost lines = storage::manifest_views(manifest@);
    assert(lines =~= blob_manifest(f));
    let ghost before = reg@;
    let mut i: usize = 0;
    assert(lines.take(0) =~= Seq::empty());
    while i < manifest.len()
        invariant
            f == held_by::<G, L>(*storage),
            lines == storage::manifest_views(manifest@),
            i <= manifest@.len(),
            reg@ == with_stores(before, lines.take(i as int), f),
        decreases manifest@.len() - i,
    {
        proof {
            assert(lines.take(i + 1).drop_last() =~= lines.take(i as int));
            assert(lines.take(i + 1).last() == manifest@[i as int]@);
        }
        load_store(storage, &mut reg, &manifest[i]);
        i = i + 1;
    }
    assert(lines.take(i as int) =~= lines);
    reg
}

} // verus!
