//! The content a session serves.
//!
//! Each session serves a registry of graphs as serialized bytes, under the addresses
//! that the application validated them against.

use crate::addr::ContentAddr;
use crate::commit::{Commit, CommitAddr, CommitView};
use crate::graph::{GraphAddr, GraphHash, RawGraph, RawView};
use crate::merge::{self, MergeReport};
use crate::name::Name;
use crate::order::Key;
use crate::proto::{self, Object, ObjectRef, ObjectView, Objects, Want, WireCommit};
use crate::registry::{self, BlobStore, BlobView, Payload, Registry, RegistryView};
use crate::session::{PeerId, Session};
use crate::table::{self, Table};
use vstd::prelude::*;

verus! {

impl Payload for RawGraph {
    fn dup(&self) -> (r: Self) {
        RawGraph { addr: self.addr, bytes: registry::dup_bytes(&self.bytes) }
    }
}

/// One session's served content.
pub type SessionRegistry = Registry<RawGraph>;

/// A session's configuration and its served content.
#[derive(Debug)]
pub struct SessionEntry {
    pub session: Session,
    pub store: SessionRegistry,
}

impl SessionEntry {
    /// Whether `peer` may read this session's content.
    pub fn allows(&self, peer: PeerId) -> (r: bool)
        ensures
            r == self.session.access.admits(peer),
    {
        self.session.access.lets_in(peer)
    }
}

/// The graphs by the addresses they carry; of two with one address the later.
pub open spec fn graph_map(s: Seq<RawView>) -> Map<GraphAddr, RawView>
    decreases s.len(),
{
    if s.len() == 0 {
        Map::empty()
    } else {
        graph_map(s.drop_last()).insert(s.last().addr, s.last())
    }
}

/// The commits by address; of two with one address the later.
pub open spec fn commit_map(s: Seq<(CommitAddr, CommitView)>) -> Map<CommitAddr, CommitView>
    decreases s.len(),
{
    if s.len() == 0 {
        Map::empty()
    } else {
        commit_map(s.drop_last()).insert(s.last().0, s.last().1)
    }
}

/// What a list of graphs denotes.
pub open spec fn raw_views(s: Seq<RawGraph>) -> Seq<RawView> {
    s.map_values(|g: RawGraph| g@)
}

/// What a list of commits denotes.
pub open spec fn commit_list(s: Seq<(CommitAddr, Commit)>) -> Seq<(CommitAddr, CommitView)> {
    s.map_values(|c: (CommitAddr, Commit)| (c.0, c.1@))
}

/// A registry of just the given heads, commits and graphs.
pub open spec fn parts(
    heads: Seq<(Seq<Seq<char>>, CommitAddr)>,
    commits: Seq<(CommitAddr, CommitView)>,
    graphs: Seq<RawView>,
) -> RegistryView<RawView> {
    (RegistryView {
        graphs: graph_map(graphs),
        commits: commit_map(commits),
        ..RegistryView::<RawView>::empty()
    }).with_heads(heads)
}

/// Merges served content into the store: content goes under its address unless
/// something is there, and an incoming tip takes its name's head, which is reported.
/// The content is trusted under its claimed addresses.
pub fn merge(
    store: &mut SessionRegistry,
    heads: Vec<(Name, CommitAddr)>,
    commits: Vec<(CommitAddr, Commit)>,
    graphs: Vec<RawGraph>,
) -> (r: MergeReport)
    ensures
        final(store)@ == merge::merged(
            old(store)@,
            parts(registry::head_views(heads@), commit_list(commits@), raw_views(graphs@)),
        ),
        merge::reports(r, old(store)@, final(store)@),
{
    let ghost gv = raw_views(graphs@);
    let ghost cv = commit_list(commits@);
    let mut graph_table: Table<GraphAddr, RawGraph> = Table::new();
    let mut i: usize = 0;
    assert(registry::graph_views(graph_table@) =~= graph_map(gv.take(0)));
    while i < graphs.len()
        invariant
            i <= graphs@.len(),
            gv == raw_views(graphs@),
            registry::graph_views(graph_table@) == graph_map(gv.take(i as int)),
        decreases graphs@.len() - i,
    {
        let ghost before = registry::graph_views(graph_table@);
        let g = graphs[i].dup();
        let ghost v = g@;
        let addr = g.graph_addr();
        graph_table.insert(addr, g);
        proof {
            assert(gv.take(i + 1).drop_last() =~= gv.take(i as int));
            assert(gv.take(i + 1).last() == v);
            assert(registry::graph_views(graph_table@) =~= before.insert(addr, v));
        }
        i = i + 1;
    }
    assert(gv.take(i as int) =~= gv);
    let mut commit_table: Table<CommitAddr, Commit> = Table::new();
    let mut k: usize = 0;
    assert(registry::commit_views(commit_table@) =~= commit_map(cv.take(0)));
    while k < commits.len()
        invariant
            k <= commits@.len(),
            cv == commit_list(commits@),
            registry::commit_views(commit_table@) == commit_map(cv.take(k as int)),
        decreases commits@.len() - k,
    {
        let ghost before = registry::commit_views(commit_table@);
        let c = commits[k].1.dup();
        let ghost v = c@;
        let addr = commits[k].0;
        commit_table.insert(addr, c);
        proof {
            assert(cv.take(k + 1).drop_last() =~= cv.take(k as int));
            assert(cv.take(k + 1).last() == (addr, v));
            assert(registry::commit_views(commit_table@) =~= before.insert(addr, v));
        }
        k = k + 1;
    }
    assert(cv.take(k as int) =~= cv);
    store.merge(Registry::from_parts(graph_table, commit_table, heads))
}

/// The object that is asked for, where it is there.
pub open spec fn found(rv: RegistryView<RawView>, r: ObjectRef) -> Option<ObjectView> {
    match r {
        ObjectRef::Commit(ca) => if rv.commits.contains_key(ca) {
            Some(ObjectView::Commit(ca, rv.commits[ca]))
        } else {
            None
        },
        ObjectRef::Graph(ga) => if rv.graphs.contains_key(ga) {
            Some(ObjectView::Graph(ga, rv.graphs[ga].bytes))
        } else {
            None
        },
        ObjectRef::Blob { section, addr } => if rv.blobs.contains_key(section@)
            && rv.blobs[section@].entries.contains_key(addr) {
            Some(
                ObjectView::Blob {
                    section: section@,
                    liveness: rv.blobs[section@].liveness,
                    addr,
                    bytes: rv.blobs[section@].entries[addr],
                },
            )
        } else {
            None
        },
    }
}

/// The objects that are asked for and there, in the order of asking.
pub open spec fn found_all(rv: RegistryView<RawView>, refs: Seq<ObjectRef>) -> Seq<ObjectView>
    decreases refs.len(),
{
    if refs.len() == 0 {
        Seq::empty()
    } else {
        let init = found_all(rv, refs.drop_last());
        match found(rv, refs.last()) {
            Some(o) => init.push(o),
            None => init,
        }
    }
}

fn find(store: &SessionRegistry, r: &ObjectRef) -> (o: Option<Object>)
    ensures
        match o {
            Some(o) => found(store@, *r) == Some(o@),
            None => found(store@, *r) is None,
        },
{
    match r {
        ObjectRef::Commit(ca) => match store.commit(ca) {
            Some(c) => Some(Object::Commit(*ca, WireCommit::from(c.dup()))),
            None => None,
        },
        ObjectRef::Graph(ga) => match store.graph(ga) {
            Some(g) => Some(Object::Graph(*ga, registry::dup_bytes(&g.bytes))),
            None => None,
        },
        ObjectRef::Blob { section, addr } => match store.blobs.get(section) {
            Some(blobs) => match blobs.entries.get(addr) {
                Some(bytes) => Some(
                    Object::Blob {
                        section: section.clone(),
                        liveness: blobs.liveness,
                        addr: *addr,
                        bytes: registry::dup_bytes(bytes),
                    },
                ),
                None => None,
            },
            None => None,
        },
    }
}

/// The requested objects, where present. Absent objects are skipped.
pub fn objects(store: &SessionRegistry, want: &Want) -> (r: Objects)
    ensures
        r@ == found_all(store@, want.refs@),
{
    let mut objects: Vec<Object> = Vec::new();
    let mut i: usize = 0;
    assert(proto::object_views(objects@) =~= found_all(store@, want.refs@.take(0)));
    while i < want.refs.len()
        invariant
            i <= want.refs@.len(),
            proto::object_views(objects@) == found_all(store@, want.refs@.take(i as int)),
        decreases want.refs@.len() - i,
    {
        let ghost before = objects@;
        proof {
            assert(want.refs@.take(i + 1).drop_last() =~= want.refs@.take(i as int));
        }
        if let Some(o) = find(store, &want.refs[i]) {
            let ghost v = o@;
            objects.push(o);
            assert(proto::object_views(objects@) =~= proto::object_views(before).push(v));
        }
        i = i + 1;
    }
    assert(want.refs@.take(i as int) =~= want.refs@);
    Objects { objects }
}

/// The commit objects of the listed commits.
pub open spec fn commit_objects(
    keys: Seq<CommitAddr>,
    m: Map<CommitAddr, CommitView>,
) -> Seq<ObjectView> {
    keys.map_values(|k: CommitAddr| ObjectView::Commit(k, m[k]))
}

/// The graph objects of the listed graphs.
pub open spec fn graph_objects(keys: Seq<GraphAddr>, m: Map<GraphAddr, RawView>) -> Seq<ObjectView> {
    keys.map_values(|k: GraphAddr| ObjectView::Graph(k, m[k].bytes))
}

/// The blob objects of the listed blobs of one store.
pub open spec fn store_objects(id: Seq<char>, keys: Seq<ContentAddr>, s: BlobView) -> Seq<ObjectView> {
    keys.map_values(
        |k: ContentAddr|
            ObjectView::Blob { section: id, liveness: s.liveness, addr: k, bytes: s.entries[k] },
    )
}

/// The blob objects of the listed stores.
pub open spec fn blob_objects(ids: Seq<Seq<char>>, m: Map<Seq<char>, BlobView>) -> Seq<ObjectView>
    decreases ids.len(),
{
    if ids.len() == 0 {
        Seq::empty()
    } else {
        let s = m[ids.last()];
        blob_objects(ids.drop_last(), m) + store_objects(
            ids.last(),
            table::keys_of::<ContentAddr, Seq<u8>>(s.entries),
            s,
        )
    }
}

/// All objects of a registry: every commit, then every graph, then every blob, each
/// by address.
pub open spec fn all_objects(rv: RegistryView<RawView>) -> Seq<ObjectView> {
    commit_objects(table::keys_of::<CommitAddr, CommitView>(rv.commits), rv.commits)
        + graph_objects(table::keys_of::<GraphAddr, RawView>(rv.graphs), rv.graphs) + blob_objects(
        table::keys_of::<String, BlobView>(rv.blobs),
        rv.blobs,
    )
}

fn push_commits(store: &SessionRegistry, objects: &mut Vec<Object>)
    ensures
        proto::object_views(final(objects)@) == proto::object_views(old(objects)@)
            + commit_objects(
            table::keys_of::<CommitAddr, CommitView>(store@.commits),
            store@.commits,
        ),
{
    let list = store.commits.entries();
    let ghost keys = table::key_views(list@);
    let ghost before = proto::object_views(objects@);
    let ghost m = store@.commits;
    proof {
        assert(m.dom() =~= store.commits@.dom());
        table::lemma_listed_keys(list@, store.commits@, m);
    }
    let mut i: usize = 0;
    assert(proto::object_views(objects@) =~= before + commit_objects(keys.take(0), m));
    while i < list.len()
        invariant
            table::lists(list@, store.commits@),
            keys == table::key_views(list@),
            m == registry::commit_views(store.commits@),
            i <= list@.len(),
            proto::object_views(objects@) == before + commit_objects(keys.take(i as int), m),
        decreases list@.len() - i,
    {
        let ghost here = objects@;
        proof {
            table::lemma_entry(list@, i as int);
            assert(keys.take(i + 1) =~= keys.take(i as int).push(keys[i as int]));
        }
        let o = Object::Commit(list[i].0, WireCommit::from(list[i].1.dup()));
        let ghost v = o@;
        objects.push(o);
        proof {
            assert(proto::object_views(objects@) =~= proto::object_views(here).push(v));
            assert(proto::object_views(objects@) =~= before + commit_objects(keys.take(i + 1), m));
        }
        i = i + 1;
    }
    assert(keys.take(i as int) =~= keys);
}

fn push_graphs(store: &SessionRegistry, objects: &mut Vec<Object>)
    ensures
        proto::object_views(final(objects)@) == proto::object_views(old(objects)@) + graph_objects(
            table::keys_of::<GraphAddr, RawView>(store@.graphs),
            store@.graphs,
        ),
{
    let list = store.graphs.entries();
    let ghost keys = table::key_views(list@);
    let ghost before = proto::object_views(objects@);
    let ghost m = store@.graphs;
    proof {
        assert(m.dom() =~= store.graphs@.dom());
        table::lemma_listed_keys(list@, store.graphs@, m);
    }
    let mut i: usize = 0;
    assert(proto::object_views(objects@) =~= before + graph_objects(keys.take(0), m));
    while i < list.len()
        invariant
            table::lists(list@, store.graphs@),
            keys == table::key_views(list@),
            m == registry::graph_views(store.graphs@),
            i <= list@.len(),
            proto::object_views(objects@) == before + graph_objects(keys.take(i as int), m),
        decreases list@.len() - i,
    {
        let ghost here = objects@;
        proof {
            table::lemma_entry(list@, i as int);
            assert(keys.take(i + 1) =~= keys.take(i as int).push(keys[i as int]));
        }
        let o = Object::Graph(list[i].0, registry::dup_bytes(&list[i].1.bytes));
        let ghost v = o@;
        objects.push(o);
        proof {
            assert(proto::object_views(objects@) =~= proto::object_views(here).push(v));
            assert(proto::object_views(objects@) =~= before + graph_objects(keys.take(i + 1), m));
        }
        i = i + 1;
    }
    assert(keys.take(i as int) =~= keys);
}

fn push_store(id: &String, store: &BlobStore, objects: &mut Vec<Object>)
    ensures
        proto::object_views(final(objects)@) == proto::object_views(old(objects)@) + store_objects(
            id@,
            table::keys_of::<ContentAddr, Seq<u8>>(store@.entries),
            store@,
        ),
{
    let list = store.entries.entries();
    let ghost keys = table::key_views(list@);
    let ghost before = proto::object_views(objects@);
    let ghost s = store@;
    proof {
        assert(s.entries.dom() =~= store.entries@.dom());
        table::lemma_listed_keys(list@, store.entries@, s.entries);
    }
    let mut i: usize = 0;
    assert(proto::object_views(objects@) =~= before + store_objects(id@, keys.take(0), s));
    while i < list.len()
        invariant
            table::lists(list@, store.entries@),
            keys == table::key_views(list@),
            s == store@,
            i <= list@.len(),
            proto::object_views(objects@) == before + store_objects(id@, keys.take(i as int), s),
        decreases list@.len() - i,
    {
        let ghost here = objects@;
        proof {
            table::lemma_entry(list@, i as int);
            assert(keys.take(i + 1) =~= keys.take(i as int).push(keys[i as int]));
        }
        let o = Object::Blob {
            section: id.clone(),
            liveness: store.liveness,
            addr: list[i].0,
            bytes: registry::dup_bytes(&list[i].1),
        };
        let ghost v = o@;
        objects.push(o);
        proof {
            assert(proto::object_views(objects@) =~= proto::object_views(here).push(v));
            assert(proto::object_views(objects@) =~= before + store_objects(
                id@,
                keys.take(i + 1),
                s,
            ));
        }
        i = i + 1;
    }
    assert(keys.take(i as int) =~= keys);
}

fn push_blobs(store: &SessionRegistry, objects: &mut Vec<Object>)
    ensures
        proto::object_views(final(objects)@) == proto::object_views(old(objects)@) + blob_objects(
            table::keys_of::<String, BlobView>(store@.blobs),
            store@.blobs,
        ),
{
    let list = store.blobs.entries();
    let ghost ids = table::key_views(list@);
    let ghost before = proto::object_views(objects@);
    let ghost m = store@.blobs;
    proof {
        assert(m.dom() =~= store.blobs@.dom());
        table::lemma_listed_keys(list@, store.blobs@, m);
    }
    let mut i: usize = 0;
    assert(proto::object_views(objects@) =~= before + blob_objects(ids.take(0), m));
    while i < list.len()
        invariant
            table::lists(list@, store.blobs@),
            ids == table::key_views(list@),
            m == registry::blob_views(store.blobs@),
            i <= list@.len(),
            proto::object_views(objects@) == before + blob_objects(ids.take(i as int), m),
        decreases list@.len() - i,
    {
        proof {
            table::lemma_entry(list@, i as int);
            assert(ids.take(i + 1).drop_last() =~= ids.take(i as int));
            assert(ids.take(i + 1).last() == ids[i as int]);
        }
        push_store(&list[i].0, &list[i].1, objects);
        proof {
            assert(proto::object_views(objects@) =~= before + blob_objects(ids.take(i + 1), m));
        }
        i = i + 1;
    }
    assert(ids.take(i as int) =~= ids);
}

/// The whole store as a join snapshot: every head, commit, graph and blob.
pub fn snapshot(store: &SessionRegistry) -> (r: (Vec<(Name, CommitAddr)>, Objects))
    ensures
        store@.lists_heads(r.0@),
        r.1@ == all_objects(store@),
{
    let heads = store.heads();
    let mut objects: Vec<Object> = Vec::new();
    assert(proto::object_views(objects@) =~= Seq::<ObjectView>::empty());
    push_commits(store, &mut objects);
    push_graphs(store, &mut objects);
    push_blobs(store, &mut objects);
    let r = Objects { objects };
    assert(r@ =~= all_objects(store@));
    (heads, r)
}

/// The commits among the objects.
pub open spec fn commits_in(s: Seq<ObjectView>) -> Seq<(CommitAddr, CommitView)>
    decreases s.len(),
{
    if s.len() == 0 {
        Seq::empty()
    } else {
        let init = commits_in(s.drop_last());
        match s.last() {
            ObjectView::Commit(ca, c) => init.push((ca, c)),
            _ => init,
        }
    }
}

/// The graphs among the objects.
pub open spec fn graphs_in(s: Seq<ObjectView>) -> Seq<RawView>
    decreases s.len(),
{
    if s.len() == 0 {
        Seq::empty()
    } else {
        let init = graphs_in(s.drop_last());
        match s.last() {
            ObjectView::Graph(addr, bytes) => init.push(RawView { addr, bytes }),
            _ => init,
        }
    }
}

/// The registry with the blobs among the objects added.
pub open spec fn with_blobs(rv: RegistryView<RawView>, s: Seq<ObjectView>) -> RegistryView<RawView>
    decreases s.len(),
{
    if s.len() == 0 {
        rv
    } else {
        let init = with_blobs(rv, s.drop_last());
        match s.last() {
            ObjectView::Blob { section, liveness, addr, bytes } => init.with_blob(
                section,
                liveness,
                addr,
                bytes,
            ),
            _ => init,
        }
    }
}

/// The registry that a joiner builds from a snapshot: the blobs added to one that
/// holds nothing, and the rest merged in.
pub open spec fn rebuilt(heads: Seq<(Seq<Seq<char>>, CommitAddr)>, s: Seq<ObjectView>) -> RegistryView<
    RawView,
> {
    merge::merged(
        with_blobs(RegistryView::empty(), s),
        parts(heads, commits_in(s), graphs_in(s)),
    )
}

proof fn lemma_objects_split(a: Seq<ObjectView>, b: Seq<ObjectView>, rv: RegistryView<RawView>)
    ensures
        commits_in(a + b) == commits_in(a) + commits_in(b),
        graphs_in(a + b) == graphs_in(a) + graphs_in(b),
        with_blobs(rv, a + b) == with_blobs(with_blobs(rv, a), b),
    decreases b.len(),
{
    if b.len() == 0 {
        assert(a + b =~= a);
        assert(commits_in(a + b) =~= commits_in(a) + commits_in(b));
        assert(graphs_in(a + b) =~= graphs_in(a) + graphs_in(b));
    } else {
        lemma_objects_split(a, b.drop_last(), rv);
        assert((a + b).drop_last() =~= a + b.drop_last());
        assert((a + b).last() == b.last());
        assert(commits_in(a + b) =~= commits_in(a) + commits_in(b));
        assert(graphs_in(a + b) =~= graphs_in(a) + graphs_in(b));
    }
}

proof fn lemma_commit_objects(
    keys: Seq<CommitAddr>,
    m: Map<CommitAddr, CommitView>,
    rv: RegistryView<RawView>,
)
    ensures
        commit_map(commits_in(commit_objects(keys, m))) == Map::new(
            |k: CommitAddr| keys.contains(k),
            |k: CommitAddr| m[k],
        ),
        graphs_in(commit_objects(keys, m)) == Seq::<RawView>::empty(),
        with_blobs(rv, commit_objects(keys, m)) == rv,
    decreases keys.len(),
{
    let s = commit_objects(keys, m);
    let e = Map::new(|k: CommitAddr| keys.contains(k), |k: CommitAddr| m[k]);
    if keys.len() == 0 {
        assert(commit_map(commits_in(s)) =~= e);
    } else {
        let init = keys.drop_last();
        lemma_commit_objects(init, m, rv);
        assert(s.drop_last() =~= commit_objects(init, m));
        let c = commits_in(s);
        assert(c.drop_last() =~= commits_in(s.drop_last()));
        assert(keys =~= init.push(keys.last()));
        assert forall|k: CommitAddr| keys.contains(k) == (init.contains(k) || k == keys.last()) by {
            if keys.contains(k) {
                let i = choose|i: int| 0 <= i < keys.len() && keys[i] == k;
                if i < init.len() {
                    assert(init[i] == k);
                }
            }
            if init.contains(k) {
                let i = choose|i: int| 0 <= i < init.len() && init[i] == k;
                assert(keys[i] == k);
            }
            assert(keys[keys.len() - 1] == keys.last());
        }
        assert(commit_map(c) =~= e);
    }
}

proof fn lemma_graph_objects(
    keys: Seq<GraphAddr>,
    m: Map<GraphAddr, RawView>,
    rv: RegistryView<RawView>,
)
    requires
        forall|i: int| 0 <= i < keys.len() ==> m[#[trigger] keys[i]].addr == keys[i],
    ensures
        graph_map(graphs_in(graph_objects(keys, m))) == Map::new(
            |k: GraphAddr| keys.contains(k),
            |k: GraphAddr| m[k],
        ),
        commits_in(graph_objects(keys, m)) == Seq::<(CommitAddr, CommitView)>::empty(),
        with_blobs(rv, graph_objects(keys, m)) == rv,
    decreases keys.len(),
{
    let s = graph_objects(keys, m);
    let e = Map::new(|k: GraphAddr| keys.contains(k), |k: GraphAddr| m[k]);
    if keys.len() == 0 {
        assert(graph_map(graphs_in(s)) =~= e);
    } else {
        let init = keys.drop_last();
        assert forall|i: int| 0 <= i < init.len() implies m[#[trigger] init[i]].addr == init[i] by {
            assert(init[i] == keys[i]);
        }
        lemma_graph_objects(init, m, rv);
        assert(s.drop_last() =~= graph_objects(init, m));
        let c = graphs_in(s);
        assert(c.drop_last() =~= graphs_in(s.drop_last()));
        assert(keys =~= init.push(keys.last()));
        assert(m[keys[keys.len() - 1]].addr == keys.last());
        assert(c.last() =~= m[keys.last()]);
        assert forall|k: GraphAddr| keys.contains(k) == (init.contains(k) || k == keys.last()) by {
            if keys.contains(k) {
                let i = choose|i: int| 0 <= i < keys.len() && keys[i] == k;
                if i < init.len() {
                    assert(init[i] == k);
                }
            }
            if init.contains(k) {
                let i = choose|i: int| 0 <= i < init.len() && init[i] == k;
                assert(keys[i] == k);
            }
        }
        assert(graph_map(c) =~= e);
    }
}

proof fn lemma_store_objects(
    id: Seq<char>,
    keys: Seq<ContentAddr>,
    s: BlobView,
    rv: RegistryView<RawView>,
)
    requires
        !rv.blobs.contains_key(id),
    ensures
        ({
            let o = store_objects(id, keys, s);
            &&& commits_in(o) == Seq::<(CommitAddr, CommitView)>::empty()
            &&& graphs_in(o) == Seq::<RawView>::empty()
            &&& with_blobs(rv, o) == (if keys.len() == 0 {
                rv
            } else {
                RegistryView {
                    blobs: rv.blobs.insert(
                        id,
                        BlobView {
                            liveness: s.liveness,
                            entries: Map::new(
                                |k: ContentAddr| keys.contains(k),
                                |k: ContentAddr| s.entries[k],
                            ),
                        },
                    ),
                    ..rv
                }
            })
        }),
    decreases keys.len(),
{
    let o = store_objects(id, keys, s);
    if keys.len() > 0 {
        let init = keys.drop_last();
        lemma_store_objects(id, init, s, rv);
        assert(o.drop_last() =~= store_objects(id, init, s));
        let e = Map::new(|k: ContentAddr| keys.contains(k), |k: ContentAddr| s.entries[k]);
        let before = Map::new(|k: ContentAddr| init.contains(k), |k: ContentAddr| s.entries[k]);
        let last = keys.last();
        assert forall|k: ContentAddr| keys.contains(k) == (init.contains(k) || k == last) by {
            if keys.contains(k) {
                let i = choose|i: int| 0 <= i < keys.len() && keys[i] == k;
                if i < init.len() {
                    assert(init[i] == k);
                }
            }
            if init.contains(k) {
                let i = choose|i: int| 0 <= i < init.len() && init[i] == k;
                assert(keys[i] == k);
            }
            assert(keys[keys.len() - 1] == last);
        }
        assert(before.insert(last, s.entries[last]) =~= e);
        if init.len() == 0 {
            assert(before =~= Map::<ContentAddr, Seq<u8>>::empty());
        }
        assert(with_blobs(rv, o).blobs =~= rv.blobs.insert(
            id,
            BlobView { liveness: s.liveness, entries: e },
        ));
    }
}

proof fn lemma_blob_objects(
    ids: Seq<Seq<char>>,
    m: Map<Seq<char>, BlobView>,
    rv: RegistryView<RawView>,
)
    requires
        forall|i: int, j: int| 0 <= i < j < ids.len() ==> ids[i] != ids[j],
        forall|i: int|
            0 <= i < ids.len() ==> {
                &&& m[#[trigger] ids[i]].entries.dom().finite()
                &&& m[ids[i]].entries.dom().len() > 0
                &&& !rv.blobs.contains_key(ids[i])
            },
    ensures
        commits_in(blob_objects(ids, m)) == Seq::<(CommitAddr, CommitView)>::empty(),
        graphs_in(blob_objects(ids, m)) == Seq::<RawView>::empty(),
        with_blobs(rv, blob_objects(ids, m)) == (RegistryView {
            blobs: Map::new(
                |id: Seq<char>| rv.blobs.contains_key(id) || ids.contains(id),
                |id: Seq<char>|
                    if ids.contains(id) {
                        m[id]
                    } else {
                        rv.blobs[id]
                    },
            ),
            ..rv
        }),
    decreases ids.len(),
{
    let expected = Map::new(
        |id: Seq<char>| rv.blobs.contains_key(id) || ids.contains(id),
        |id: Seq<char>|
            if ids.contains(id) {
                m[id]
            } else {
                rv.blobs[id]
            },
    );
    if ids.len() == 0 {
        assert(with_blobs(rv, blob_objects(ids, m)).blobs =~= expected);
    } else {
        let init = ids.drop_last();
        let id = ids.last();
        let s = m[id];
        assert(ids[ids.len() - 1] == id);
        assert forall|i: int| 0 <= i < init.len() implies {
            &&& m[#[trigger] init[i]].entries.dom().finite()
            &&& m[init[i]].entries.dom().len() > 0
            &&& !rv.blobs.contains_key(init[i])
        } by {
            assert(init[i] == ids[i]);
        }
        assert forall|i: int, j: int| 0 <= i < j < init.len() implies init[i] != init[j] by {
            assert(init[i] == ids[i] && init[j] == ids[j]);
        }
        lemma_blob_objects(init, m, rv);
        let keys = table::keys_of::<ContentAddr, Seq<u8>>(s.entries);
        table::lemma_keys_of::<ContentAddr, Seq<u8>>(s.entries);
        let objs = store_objects(id, keys, s);
        let mid = with_blobs(rv, blob_objects(init, m));
        lemma_objects_split(blob_objects(init, m), objs, rv);
        assert(!init.contains(id)) by {
            if init.contains(id) {
                let i = choose|i: int| 0 <= i < init.len() && init[i] == id;
                assert(ids[i] != ids[ids.len() - 1]);
            }
        }
        lemma_store_objects(id, keys, s, mid);
        assert(keys.len() > 0) by {
            let a = s.entries.dom().choose();
            assert(s.entries.contains_key(a));
            assert(keys.contains(a));
        }
        assert(Map::new(|k: ContentAddr| keys.contains(k), |k: ContentAddr| s.entries[k])
            =~= s.entries) by {
            assert forall|k: ContentAddr| keys.contains(k) == s.entries.contains_key(k) by {
                assert(s.entries.contains_key(k) <==> keys.contains(k));
            }
        }
        assert forall|x: Seq<char>| ids.contains(x) == (init.contains(x) || x == id) by {
            if ids.contains(x) {
                let i = choose|i: int| 0 <= i < ids.len() && ids[i] == x;
                if i < init.len() {
                    assert(init[i] == x);
                }
            }
            if init.contains(x) {
                let i = choose|i: int| 0 <= i < init.len() && init[i] == x;
                assert(ids[i] == x);
            }
        }
        assert(commits_in(blob_objects(ids, m)) =~= Seq::<(CommitAddr, CommitView)>::empty());
        assert(graphs_in(blob_objects(ids, m)) =~= Seq::<RawView>::empty());
        assert(with_blobs(rv, blob_objects(ids, m)).blobs =~= expected);
    }
}

/// Whether a store is one that could be served: it is finite, every graph lies under
/// the address it carries, and no store of blobs is empty.
pub open spec fn servable(rv: RegistryView<RawView>) -> bool {
    &&& rv.commits.dom().finite()
    &&& rv.graphs.dom().finite()
    &&& rv.blobs.dom().finite()
    &&& forall|g: GraphAddr| #[trigger] rv.graphs.contains_key(g) ==> rv.graphs[g].addr == g
    &&& forall|id: Seq<char>| #[trigger]
        rv.blobs.contains_key(id) ==> rv.blobs[id].entries.dom().finite()
            && rv.blobs[id].entries.dom().len() > 0
}

/// What is rebuilt from a store's snapshot has the store's commits, graphs, blobs and
/// heads.
pub proof fn law_snapshot_round_trips(rv: RegistryView<RawView>, heads: Seq<(Name, CommitAddr)>)
    requires
        servable(rv),
        rv.lists_heads(heads),
    ensures
        rebuilt(registry::head_views(heads), all_objects(rv)).commits == rv.commits,
        rebuilt(registry::head_views(heads), all_objects(rv)).graphs == rv.graphs,
        rebuilt(registry::head_views(heads), all_objects(rv)).blobs == rv.blobs,
        forall|n: Seq<Seq<char>>| #[trigger]
            rebuilt(registry::head_views(heads), all_objects(rv)).head(n) == rv.head(n),
{
    let nothing = RegistryView::<RawView>::empty();
    let ck = table::keys_of::<CommitAddr, CommitView>(rv.commits);
    let gk = table::keys_of::<GraphAddr, RawView>(rv.graphs);
    let bk = table::keys_of::<String, BlobView>(rv.blobs);
    table::lemma_keys_of::<CommitAddr, CommitView>(rv.commits);
    table::lemma_keys_of::<GraphAddr, RawView>(rv.graphs);
    table::lemma_keys_of::<String, BlobView>(rv.blobs);
    let c = commit_objects(ck, rv.commits);
    let g = graph_objects(gk, rv.graphs);
    let b = blob_objects(bk, rv.blobs);
    lemma_commit_objects(ck, rv.commits, nothing);
    assert forall|i: int| 0 <= i < gk.len() implies rv.graphs[#[trigger] gk[i]].addr == gk[i] by {
        assert(gk.contains(gk[i]));
        assert(rv.graphs.contains_key(gk[i]));
    }
    lemma_graph_objects(gk, rv.graphs, nothing);
    assert forall|i: int, j: int| 0 <= i < j < bk.len() implies bk[i] != bk[j] by {
        assert(String::precedes(bk[i], bk[j]));
        String::lemma_irreflexive(bk[i]);
    }
    assert forall|i: int| 0 <= i < bk.len() implies {
        &&& rv.blobs[#[trigger] bk[i]].entries.dom().finite()
        &&& rv.blobs[bk[i]].entries.dom().len() > 0
        &&& !nothing.blobs.contains_key(bk[i])
    } by {
        assert(bk.contains(bk[i]));
        assert(rv.blobs.contains_key(bk[i]));
    }
    lemma_blob_objects(bk, rv.blobs, nothing);
    lemma_objects_split(c, g, nothing);
    lemma_objects_split(c + g, b, nothing);
    let all = all_objects(rv);
    assert(all =~= (c + g) + b);
    assert(commits_in(all) =~= commits_in(c));
    assert(graphs_in(all) =~= graphs_in(g));
    let hv = registry::head_views(heads);
    let r = rebuilt(hv, all);
    let base = RegistryView {
        graphs: graph_map(graphs_in(all)),
        commits: commit_map(commits_in(all)),
        ..nothing
    };
    lemma_with_heads(base, hv);
    let a = with_blobs(nothing, all);
    assert forall|k: CommitAddr| ck.contains(k) == rv.commits.contains_key(k) by {
        assert(rv.commits.contains_key(k) <==> ck.contains(k));
    }
    assert forall|k: GraphAddr| gk.contains(k) == rv.graphs.contains_key(k) by {
        assert(rv.graphs.contains_key(k) <==> gk.contains(k));
    }
    assert forall|k: Seq<char>| bk.contains(k) == rv.blobs.contains_key(k) by {
        assert(rv.blobs.contains_key(k) <==> bk.contains(k));
    }
    assert(commit_map(commits_in(all)) =~= rv.commits);
    assert(graph_map(graphs_in(all)) =~= rv.graphs);
    assert(a.blobs =~= rv.blobs);
    assert(r.commits =~= rv.commits);
    assert(r.graphs =~= rv.graphs);
    assert(r.blobs =~= rv.blobs);
    assert forall|n: Seq<Seq<char>>| #[trigger] r.head(n) == rv.head(n) by {
        assert(a.sections =~= nothing.sections);
        assert(r.head(n) == base.with_heads(hv).head(n));
        lemma_listed_head(base, hv, n);
        if rv.head(n) is Some {
            let i = choose|i: int| 0 <= i < heads.len() && (#[trigger] heads[i]).0@ == n;
            assert(hv[i] == (n, heads[i].1));
            assert(rv.head(heads[i].0@) == Some(heads[i].1));
        }
        if base.with_heads(hv).head(n) is Some {
            let i = choose|i: int|
                0 <= i < hv.len() && #[trigger] hv[i] == (n, base.with_heads(hv).head(n)->0);
            assert(rv.head(heads[i].0@) == Some(heads[i].1));
        }
    }
}

/// Setting heads touches nothing but the heads.
proof fn lemma_with_heads(rv: RegistryView<RawView>, heads: Seq<(Seq<Seq<char>>, CommitAddr)>)
    ensures
        rv.with_heads(heads).graphs == rv.graphs,
        rv.with_heads(heads).commits == rv.commits,
        rv.with_heads(heads).blobs == rv.blobs,
    decreases heads.len(),
{
    if heads.len() > 0 {
        lemma_with_heads(rv, heads.drop_last());
    }
}

/// A head is there after setting heads just where it was set, if none was there.
proof fn lemma_listed_head(
    rv: RegistryView<RawView>,
    heads: Seq<(Seq<Seq<char>>, CommitAddr)>,
    n: Seq<Seq<char>>,
)
    requires
        rv.sections == Map::<Seq<char>, registry::SectionView>::empty(),
    ensures
        match rv.with_heads(heads).head(n) {
            Some(c) => exists|i: int| 0 <= i < heads.len() && #[trigger] heads[i] == (n, c),
            None => forall|i: int| 0 <= i < heads.len() ==> (#[trigger] heads[i]).0 != n,
        },
    decreases heads.len(),
{
    if heads.len() > 0 {
        let init = heads.drop_last();
        lemma_listed_head(rv, init, n);
        let mid = rv.with_heads(init);
        if heads.last().0 == n {
            assert(heads[heads.len() - 1] == (n, heads.last().1));
            assert(rv.with_heads(heads).head(n) == Some(heads.last().1));
        } else {
            assert(rv.with_heads(heads).head(n) == mid.head(n));
            match mid.head(n) {
                Some(c) => {
                    let i = choose|i: int| 0 <= i < init.len() && #[trigger] init[i] == (n, c);
                    assert(heads[i] == (n, c));
                },
                None => {
                    assert forall|i: int| 0 <= i < heads.len() implies (#[trigger] heads[i]).0
                        != n by {
                        if i < init.len() {
                            assert(init[i] == heads[i]);
                        }
                    }
                },
            }
        }
    }
}

/// An update that is sent again changes nothing.
pub proof fn law_resent_update_changes_nothing(
    rv: RegistryView<RawView>,
    heads: Seq<(Seq<Seq<char>>, CommitAddr)>,
    commits: Seq<(CommitAddr, CommitView)>,
    graphs: Seq<RawView>,
)
    ensures
        merge::merged(
            merge::merged(rv, parts(heads, commits, graphs)),
            parts(heads, commits, graphs),
        ) == merge::merged(rv, parts(heads, commits, graphs)),
{
    merge::lemma_merged_twice(rv, parts(heads, commits, graphs));
}

} // verus!
