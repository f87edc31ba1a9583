//! What is saved is what is loaded.

use crate::addr::{self, ContentAddr};
use crate::armor;
use crate::commit::{CommitAddr, CommitView};
use crate::graph::GraphAddr;
use crate::hash;
use crate::head::HeadView;
use crate::loading::{self, Held};
use crate::order::Key;
use crate::registry::{BlobView, KeyView, RegistryView, SectionView, ValueView};
use crate::saving::{self, PersistedView};
use crate::storage::{self, ManifestView, StoredView};
use crate::table;
use crate::text;
use vstd::prelude::*;
use vstd::string::*;

verus! {

/// A store after some writes: under each key what was written last.
pub open spec fn written<T>(f: Held<T>, ws: Seq<(Seq<char>, StoredView<T>)>) -> Held<T>
    decreases ws.len(),
{
    if ws.len() == 0 {
        f
    } else {
        |k: Seq<char>|
            if k == ws.last().0 {
                Some(ws.last().1)
            } else {
                written(f, ws.drop_last())(k)
            }
    }
}

/// A store that holds nothing.
pub open spec fn nothing<T>() -> Held<T> {
    |k: Seq<char>| None
}

/// Whether a store holds a registry, and lists just that.
pub open spec fn holds<T>(f: Held<T>, rv: RegistryView<T>) -> bool {
    &&& loading::graph_addrs(f) == table::keys_of::<GraphAddr, T>(rv.graphs)
    &&& loading::commit_addrs(f) == table::keys_of::<CommitAddr, CommitView>(rv.commits)
    &&& loading::section_ids(f) == table::keys_of::<String, SectionView>(rv.sections)
    &&& loading::blob_manifest(f) == saving::manifest(
        table::keys_of::<String, BlobView>(rv.blobs),
        rv.blobs,
    )
    &&& forall|a: GraphAddr| #[trigger]
        rv.graphs.contains_key(a) ==> f(storage::graph_key(a)) == Some(
            StoredView::Graph(rv.graphs[a]),
        )
    &&& forall|a: CommitAddr| #[trigger]
        rv.commits.contains_key(a) ==> f(storage::commit_key(a)) == Some(
            StoredView::<T>::Commit(rv.commits[a]),
        )
    &&& forall|id: Seq<char>| #[trigger]
        rv.sections.contains_key(id) ==> f(storage::section_key(id)) == Some(
            StoredView::<T>::Section(rv.sections[id]),
        )
    &&& forall|id: Seq<char>, a: ContentAddr|
        rv.blobs.contains_key(id) && #[trigger] rv.blobs[id].entries.contains_key(a) ==> f(
            storage::blob_key(id, a),
        ) == Some(StoredView::<T>::Blob(armor::text(rv.blobs[id].entries[a])))
}

/// Whether a registry is one that storing leaves as it is: it is finite, its blobs
/// lie under the addresses of their bytes, and no section or blob store is empty.
pub open spec fn storable<T>(rv: RegistryView<T>) -> bool {
    &&& rv.graphs.dom().finite()
    &&& rv.commits.dom().finite()
    &&& rv.sections.dom().finite()
    &&& rv.blobs.dom().finite()
    &&& forall|id: Seq<char>| #[trigger]
        rv.sections.contains_key(id) ==> rv.sections[id].entries != Map::<
            KeyView,
            ValueView,
        >::empty()
    &&& forall|id: Seq<char>| #[trigger]
        rv.blobs.contains_key(id) ==> rv.blobs[id].entries.dom().finite()
            && rv.blobs[id].entries.dom().len() > 0
    &&& forall|id: Seq<char>, a: ContentAddr|
        rv.blobs.contains_key(id) && #[trigger] rv.blobs[id].entries.contains_key(a)
            ==> hash::addresses(a, rv.blobs[id].entries[a])
}

/// Whether two registries have the same content wherever both have an address, and
/// their blob stores the same liveness.
pub open spec fn agree<T>(a: RegistryView<T>, b: RegistryView<T>) -> bool {
    &&& forall|g: GraphAddr| #[trigger]
        a.graphs.contains_key(g) && b.graphs.contains_key(g) ==> a.graphs[g] == b.graphs[g]
    &&& forall|c: CommitAddr| #[trigger]
        a.commits.contains_key(c) && b.commits.contains_key(c) ==> a.commits[c] == b.commits[c]
    &&& forall|id: Seq<char>| #[trigger]
        a.blobs.contains_key(id) && b.blobs.contains_key(id) ==> a.blobs[id].liveness
            == b.blobs[id].liveness
    &&& forall|id: Seq<char>, x: ContentAddr|
        a.blobs.contains_key(id) && b.blobs.contains_key(id)
            && #[trigger] a.blobs[id].entries.contains_key(x) && b.blobs[id].entries.contains_key(
            x,
        ) ==> a.blobs[id].entries[x] == b.blobs[id].entries[x]
}

/// The kind of thing a key stands for, as its first letters tell.
spec fn kind(k: Seq<char>) -> int {
    if k.len() < 3 {
        8
    } else if k[0] == 'o' {
        if k[2] == 'g' {
            0
        } else {
            1
        }
    } else if k[0] == 'b' {
        if k[1] == '/' {
            2
        } else {
            6
        }
    } else if k[0] == 'n' {
        if k[2] == '/' {
            3
        } else {
            7
        }
    } else if k[0] == 'g' {
        4
    } else {
        5
    }
}

proof fn lemma_kinds()
    ensures
        forall|a: GraphAddr| kind(#[trigger] storage::graph_key(a)) == 0,
        forall|a: CommitAddr| kind(#[trigger] storage::commit_key(a)) == 1,
        forall|id: Seq<char>, a: ContentAddr| kind(#[trigger] storage::blob_key(id, a)) == 2,
        forall|id: Seq<char>| kind(#[trigger] storage::section_key(id)) == 3,
        kind(storage::GRAPH_ADDRS@) == 4,
        kind(storage::COMMIT_ADDRS@) == 5,
        kind(storage::BLOB_MANIFEST@) == 6,
        kind(storage::SECTION_INDEX@) == 7,
{
    reveal_strlit("o/g/");
    reveal_strlit("o/c/");
    reveal_strlit("b/");
    reveal_strlit("/");
    reveal_strlit("ns/");
    reveal_strlit("graph-addrs");
    reveal_strlit("commit-addrs");
    reveal_strlit("blob-manifest");
    reveal_strlit("ns-index");
    assert forall|id: Seq<char>, a: ContentAddr| kind(
        #[trigger] storage::blob_key(id, a),
    ) == 2 by {
        let k = storage::blob_key(id, a);
        text::lemma_hex_len(a.bytes());
        assert(k[0] == 'b' && k[1] == '/');
    }
}

proof fn lemma_key_injective()
    ensures
        forall|a: GraphAddr, b: GraphAddr|
            #[trigger] storage::graph_key(a) == #[trigger] storage::graph_key(b) ==> a == b,
        forall|a: CommitAddr, b: CommitAddr|
            #[trigger] storage::commit_key(a) == #[trigger] storage::commit_key(b) ==> a == b,
        forall|i: Seq<char>, a: ContentAddr, j: Seq<char>, b: ContentAddr|
            #[trigger] storage::blob_key(i, a) == #[trigger] storage::blob_key(j, b) ==> i == j && a
                == b,
        forall|i: Seq<char>, j: Seq<char>|
            #[trigger] storage::section_key(i) == #[trigger] storage::section_key(j) ==> i == j,
{
    reveal_strlit("o/g/");
    reveal_strlit("o/c/");
    reveal_strlit("b/");
    reveal_strlit("/");
    reveal_strlit("ns/");
    assert forall|a: GraphAddr, b: GraphAddr|
        #[trigger] storage::graph_key(a) == #[trigger] storage::graph_key(b) implies a == b by {
        assert(storage::graph_key(a).skip(4) =~= text::hex_bytes(a.0.bytes()));
        assert(storage::graph_key(b).skip(4) =~= text::hex_bytes(b.0.bytes()));
        text::lemma_hex_injective(a.0.bytes(), b.0.bytes());
        addr::lemma_addr_ext(a.0, b.0);
    }
    assert forall|a: CommitAddr, b: CommitAddr|
        #[trigger] storage::commit_key(a) == #[trigger] storage::commit_key(b) implies a == b by {
        assert(storage::commit_key(a).skip(4) =~= text::hex_bytes(a.0.bytes()));
        assert(storage::commit_key(b).skip(4) =~= text::hex_bytes(b.0.bytes()));
        text::lemma_hex_injective(a.0.bytes(), b.0.bytes());
        addr::lemma_addr_ext(a.0, b.0);
    }
    assert forall|i: Seq<char>, a: ContentAddr, j: Seq<char>, b: ContentAddr|
        #[trigger] storage::blob_key(i, a) == #[trigger] storage::blob_key(j, b) implies i == j && a
        == b by {
        let k = storage::blob_key(i, a);
        text::lemma_hex_len(a.bytes());
        text::lemma_hex_len(b.bytes());
        let n = k.len() - 64;
        assert(k.skip(n) =~= text::hex_bytes(a.bytes()));
        assert(k.skip(n) =~= text::hex_bytes(b.bytes()));
        text::lemma_hex_injective(a.bytes(), b.bytes());
        addr::lemma_addr_ext(a, b);
        assert(k.subrange(2, n - 1) =~= i);
        assert(k.subrange(2, n - 1) =~= j);
    }
    assert forall|i: Seq<char>, j: Seq<char>|
        #[trigger] storage::section_key(i) == #[trigger] storage::section_key(j) implies i == j by {
        assert(storage::section_key(i).skip(3) =~= i);
        assert(storage::section_key(j).skip(3) =~= j);
    }
}

proof fn lemma_written_split<T>(
    f: Held<T>,
    a: Seq<(Seq<char>, StoredView<T>)>,
    b: Seq<(Seq<char>, StoredView<T>)>,
)
    ensures
        written(f, a + b) == written(written(f, a), b),
    decreases b.len(),
{
    if b.len() == 0 {
        assert(a + b =~= a);
    } else {
        lemma_written_split(f, a, b.drop_last());
        assert((a + b).drop_last() =~= a + b.drop_last());
        assert((a + b).last() == b.last());
        assert(written(f, a + b) =~= written(written(f, a), b));
    }
}

proof fn lemma_when<T>(f: Held<T>, changed: bool, key: Seq<char>, v: StoredView<T>)
    ensures
        forall|k: Seq<char>| #[trigger]
            written(f, saving::when(changed, key, v))(k) == (if changed && k == key {
                Some(v)
            } else {
                f(k)
            }),
{
    let ws = saving::when(changed, key, v);
    if changed {
        assert(ws.drop_last() =~= Seq::empty());
        assert(written(f, ws.drop_last()) == f);
    }
}

proof fn lemma_graph_writes<T>(
    f: Held<T>,
    keys: Seq<GraphAddr>,
    m: Map<GraphAddr, T>,
    known: Set<GraphAddr>,
)
    ensures
        forall|k: Seq<char>|
            kind(k) != 0 ==> #[trigger] written(f, saving::graph_writes(keys, m, known))(k) == f(k),
        forall|a: GraphAddr|
            written(f, saving::graph_writes(keys, m, known))(#[trigger] storage::graph_key(a)) == (
            if keys.contains(a) && !known.contains(a) {
                Some(StoredView::Graph(m[a]))
            } else {
                f(storage::graph_key(a))
            }),
    decreases keys.len(),
{
    lemma_kinds();
    lemma_key_injective();
    if keys.len() > 0 {
        let init = keys.drop_last();
        lemma_graph_writes(f, init, m, known);
        let ws = saving::graph_writes(keys, m, known);
        let last = keys.last();
        if !known.contains(last) {
            assert(ws.drop_last() =~= saving::graph_writes(init, m, known));
        }
        assert forall|a: GraphAddr| written(f, ws)(#[trigger] storage::graph_key(a)) == (
        if keys.contains(a) && !known.contains(a) {
            Some(StoredView::Graph(m[a]))
        } else {
            f(storage::graph_key(a))
        }) by {
            lemma_contains_last(keys, a);
        }
    }
}

proof fn lemma_contains_last<A>(s: Seq<A>, a: A)
    requires
        s.len() > 0,
    ensures
        s.contains(a) == (s.drop_last().contains(a) || a == s.last()),
{
    let t = s.drop_last();
    if s.contains(a) {
        let i = choose|i: int| 0 <= i < s.len() && s[i] == a;
        if i < t.len() {
            assert(t[i] == a);
        }
    }
    if t.contains(a) {
        let i = choose|i: int| 0 <= i < t.len() && t[i] == a;
        assert(s[i] == a);
    }
    assert(s[s.len() - 1] == s.last());
}

proof fn lemma_commit_writes<T>(
    f: Held<T>,
    keys: Seq<CommitAddr>,
    m: Map<CommitAddr, CommitView>,
    known: Set<CommitAddr>,
)
    ensures
        forall|k: Seq<char>|
            kind(k) != 1 ==> #[trigger] written(f, saving::commit_writes(keys, m, known))(k) == f(
                k,
            ),
        forall|a: CommitAddr|
            written(f, saving::commit_writes(keys, m, known))(#[trigger] storage::commit_key(a))
                == (if keys.contains(a) && !known.contains(a) {
                Some(StoredView::<T>::Commit(m[a]))
            } else {
                f(storage::commit_key(a))
            }),
    decreases keys.len(),
{
    lemma_kinds();
    lemma_key_injective();
    if keys.len() > 0 {
        let init = keys.drop_last();
        lemma_commit_writes(f, init, m, known);
        let ws = saving::commit_writes::<T>(keys, m, known);
        let last = keys.last();
        if !known.contains(last) {
            assert(ws.drop_last() =~= saving::commit_writes::<T>(init, m, known));
        }
        assert forall|a: CommitAddr| written(f, ws)(#[trigger] storage::commit_key(a)) == (
        if keys.contains(a) && !known.contains(a) {
            Some(StoredView::<T>::Commit(m[a]))
        } else {
            f(storage::commit_key(a))
        }) by {
            lemma_contains_last(keys, a);
        }
    }
}

proof fn lemma_store_writes<T>(
    f: Held<T>,
    id: Seq<char>,
    keys: Seq<ContentAddr>,
    m: Map<ContentAddr, Seq<u8>>,
    known: Set<ContentAddr>,
)
    ensures
        forall|k: Seq<char>|
            kind(k) != 2 ==> #[trigger] written(f, saving::store_writes(id, keys, m, known))(k)
                == f(k),
        forall|i: Seq<char>, a: ContentAddr|
            written(f, saving::store_writes(id, keys, m, known))(#[trigger] storage::blob_key(i, a))
                == (if i == id && keys.contains(a) && !known.contains(a) {
                Some(StoredView::<T>::Blob(armor::text(m[a])))
            } else {
                f(storage::blob_key(i, a))
            }),
    decreases keys.len(),
{
    lemma_kinds();
    lemma_key_injective();
    if keys.len() > 0 {
        let init = keys.drop_last();
        lemma_store_writes(f, id, init, m, known);
        let ws = saving::store_writes::<T>(id, keys, m, known);
        let last = keys.last();
        if !known.contains(last) {
            assert(ws.drop_last() =~= saving::store_writes::<T>(id, init, m, known));
        }
        assert forall|i: Seq<char>, a: ContentAddr|
            written(f, ws)(#[trigger] storage::blob_key(i, a)) == (if i == id && keys.contains(a)
                && !known.contains(a) {
                Some(StoredView::<T>::Blob(armor::text(m[a])))
            } else {
                f(storage::blob_key(i, a))
            }) by {
            lemma_contains_last(keys, a);
        }
    }
}

proof fn lemma_blob_writes<T>(
    f: Held<T>,
    ids: Seq<Seq<char>>,
    m: Map<Seq<char>, BlobView>,
    p: PersistedView,
)
    requires
        forall|i: int|
            0 <= i < ids.len() ==> (#[trigger] m[ids[i]]).entries.dom().finite(),
    ensures
        forall|k: Seq<char>|
            kind(k) != 2 ==> #[trigger] written(f, saving::blob_writes(ids, m, p))(k) == f(k),
        forall|i: Seq<char>, a: ContentAddr|
            written(f, saving::blob_writes(ids, m, p))(#[trigger] storage::blob_key(i, a)) == (
            if ids.contains(i) && m[i].entries.contains_key(a) && !p.known_blobs(i).contains(a) {
                Some(StoredView::<T>::Blob(armor::text(m[i].entries[a])))
            } else {
                f(storage::blob_key(i, a))
            }),
    decreases ids.len(),
{
    if ids.len() > 0 {
        let init = ids.drop_last();
        let id = ids.last();
        assert forall|i: int| 0 <= i < init.len() implies (#[trigger] m[init[i]]).entries.dom().finite() by {
            assert(init[i] == ids[i]);
            assert(m[ids[i]].entries.dom().finite());
        }
        lemma_blob_writes(f, init, m, p);
        assert(m[ids[ids.len() - 1]].entries.dom().finite());
        let keys = table::keys_of::<ContentAddr, Seq<u8>>(m[id].entries);
        table::lemma_keys_of::<ContentAddr, Seq<u8>>(m[id].entries);
        let g = written(f, saving::blob_writes(init, m, p));
        lemma_store_writes(g, id, keys, m[id].entries, p.known_blobs(id));
        lemma_written_split(
            f,
            saving::blob_writes(init, m, p),
            saving::store_writes(id, keys, m[id].entries, p.known_blobs(id)),
        );
        let ws = saving::blob_writes::<T>(ids, m, p);
        assert forall|i: Seq<char>, a: ContentAddr|
            written(f, ws)(#[trigger] storage::blob_key(i, a)) == (if ids.contains(i)
                && m[i].entries.contains_key(a) && !p.known_blobs(i).contains(a) {
                Some(StoredView::<T>::Blob(armor::text(m[i].entries[a])))
            } else {
                f(storage::blob_key(i, a))
            }) by {
            lemma_contains_last(ids, i);
            assert(m[id].entries.contains_key(a) <==> keys.contains(a));
        }
    }
}

proof fn lemma_section_writes<T>(
    f: Held<T>,
    ids: Seq<Seq<char>>,
    m: Map<Seq<char>, SectionView>,
    known: Map<Seq<char>, SectionView>,
)
    ensures
        forall|k: Seq<char>|
            kind(k) != 3 ==> #[trigger] written(f, saving::section_writes(ids, m, known))(k) == f(
                k,
            ),
        forall|i: Seq<char>|
            written(f, saving::section_writes(ids, m, known))(#[trigger] storage::section_key(i))
                == (if ids.contains(i) && !(known.contains_key(i) && known[i] == m[i]) {
                Some(StoredView::<T>::Section(m[i]))
            } else {
                f(storage::section_key(i))
            }),
    decreases ids.len(),
{
    lemma_kinds();
    lemma_key_injective();
    if ids.len() > 0 {
        let init = ids.drop_last();
        lemma_section_writes(f, init, m, known);
        let ws = saving::section_writes::<T>(ids, m, known);
        let last = ids.last();
        if !(known.contains_key(last) && known[last] == m[last]) {
            assert(ws.drop_last() =~= saving::section_writes::<T>(init, m, known));
        }
        assert forall|i: Seq<char>| written(f, ws)(#[trigger] storage::section_key(i)) == (
        if ids.contains(i) && !(known.contains_key(i) && known[i] == m[i]) {
            Some(StoredView::<T>::Section(m[i]))
        } else {
            f(storage::section_key(i))
        }) by {
            lemma_contains_last(ids, i);
        }
    }
}

/// Keys that are listed alike.
proof fn lemma_same_keys<K: Key, X, Y>(a: Map<K::V, X>, b: Map<K::V, Y>)
    requires
        a.dom().finite(),
        a.dom() == b.dom(),
    ensures
        table::keys_of::<K, X>(a) == table::keys_of::<K, Y>(b),
{
    table::lemma_keys_of::<K, X>(a);
    let s = table::keys_of::<K, X>(a);
    assert forall|k: K::V| #[trigger] b.contains_key(k) <==> s.contains(k) by {
        assert(a.dom().contains(k) == b.dom().contains(k));
        assert(a.contains_key(k) <==> s.contains(k));
    }
    table::lemma_keys::<K, Y>(s, b);
}

/// A store that holds one registry and gets the writes that bring it up to another
/// holds the other.
pub proof fn law_save_brings_store_up_to_date<T>(
    f: Held<T>,
    before: RegistryView<T>,
    rv: RegistryView<T>,
)
    requires
        holds(f, before),
        storable(before),
        storable(rv),
        agree(before, rv),
    ensures
        holds(written(f, saving::registry_writes(rv, PersistedView::of(before))), rv),
{
    let p = PersistedView::of(before);
    let gk = table::keys_of::<GraphAddr, T>(rv.graphs);
    let ck = table::keys_of::<CommitAddr, CommitView>(rv.commits);
    let bk = table::keys_of::<String, BlobView>(rv.blobs);
    let sk = table::keys_of::<String, SectionView>(rv.sections);
    table::lemma_keys_of::<GraphAddr, T>(rv.graphs);
    table::lemma_keys_of::<CommitAddr, CommitView>(rv.commits);
    table::lemma_keys_of::<String, BlobView>(rv.blobs);
    table::lemma_keys_of::<String, SectionView>(rv.sections);
    lemma_kinds();
    let w1 = saving::graph_writes(gk, rv.graphs, p.graphs);
    let b2 = p.graphs != rv.graphs.dom();
    let v2 = StoredView::<T>::GraphAddrs(gk);
    let w2 = saving::when(b2, storage::GRAPH_ADDRS@, v2);
    let w3 = saving::commit_writes::<T>(ck, rv.commits, p.commits);
    let b4 = p.commits != rv.commits.dom();
    let v4 = StoredView::<T>::CommitAddrs(ck);
    let w4 = saving::when(b4, storage::COMMIT_ADDRS@, v4);
    let w5 = saving::blob_writes::<T>(bk, rv.blobs, p);
    let b6 = saving::blobs_changed(rv.blobs, p);
    let v6 = StoredView::<T>::Manifest(saving::manifest(bk, rv.blobs));
    let w6 = saving::when(b6, storage::BLOB_MANIFEST@, v6);
    let w7 = saving::section_writes::<T>(sk, rv.sections, p.sections);
    let b8 = p.sections.dom() != rv.sections.dom();
    let v8 = StoredView::<T>::SectionIndex(sk);
    let w8 = saving::when(b8, storage::SECTION_INDEX@, v8);
    let f1 = written(f, w1);
    let f2 = written(f1, w2);
    let f3 = written(f2, w3);
    let f4 = written(f3, w4);
    let f5 = written(f4, w5);
    let f6 = written(f5, w6);
    let f7 = written(f6, w7);
    let f8 = written(f7, w8);
    let all = saving::registry_writes(rv, p);
    let a12 = w1 + w2;
    let a34 = w3 + w4;
    let a56 = w5 + w6;
    let a78 = w7 + w8;
    assert(all == a12 + a34 + a56 + a78);
    lemma_written_split(f, a12 + a34 + a56, a78);
    lemma_written_split(f, a12 + a34, a56);
    lemma_written_split(f, a12, a34);
    lemma_written_split(f, w1, w2);
    lemma_written_split(f2, w3, w4);
    lemma_written_split(f4, w5, w6);
    lemma_written_split(f6, w7, w8);
    assert(written(f, all) == f8);
    lemma_graph_writes(f, gk, rv.graphs, p.graphs);
    lemma_when(f1, b2, storage::GRAPH_ADDRS@, v2);
    lemma_commit_writes(f2, ck, rv.commits, p.commits);
    lemma_when(f3, b4, storage::COMMIT_ADDRS@, v4);
    assert forall|i: int| 0 <= i < bk.len() implies (#[trigger] rv.blobs[bk[i]]).entries.dom().finite() by {
        assert(bk.contains(bk[i]));
        assert(rv.blobs.contains_key(bk[i]));
    }
    lemma_blob_writes(f4, bk, rv.blobs, p);
    lemma_when(f5, b6, storage::BLOB_MANIFEST@, v6);
    lemma_section_writes(f6, sk, rv.sections, p.sections);
    lemma_when(f7, b8, storage::SECTION_INDEX@, v8);
    // The listings.
    assert(f8(storage::GRAPH_ADDRS@) == f2(storage::GRAPH_ADDRS@));
    if !b2 {
        lemma_same_keys::<GraphAddr, T, T>(before.graphs, rv.graphs);
        assert(f2(storage::GRAPH_ADDRS@) == f(storage::GRAPH_ADDRS@));
    }
    assert(loading::graph_addrs(f8) == gk);
    assert(f8(storage::COMMIT_ADDRS@) == f4(storage::COMMIT_ADDRS@));
    if !b4 {
        lemma_same_keys::<CommitAddr, CommitView, CommitView>(before.commits, rv.commits);
        assert(f4(storage::COMMIT_ADDRS@) == f(storage::COMMIT_ADDRS@));
    }
    assert(loading::commit_addrs(f8) == ck);
    assert(f8(storage::SECTION_INDEX@) == (if b8 {
        Some(v8)
    } else {
        f(storage::SECTION_INDEX@)
    }));
    if !b8 {
        lemma_same_keys::<String, SectionView, SectionView>(before.sections, rv.sections);
    }
    assert(loading::section_ids(f8) == sk);
    assert(f8(storage::BLOB_MANIFEST@) == (if b6 {
        Some(v6)
    } else {
        f(storage::BLOB_MANIFEST@)
    }));
    if !b6 {
        lemma_same_manifest(before, rv);
    }
    assert(loading::blob_manifest(f8) == saving::manifest(bk, rv.blobs));
    // The content.
    assert forall|a: GraphAddr| #[trigger] rv.graphs.contains_key(a) implies f8(
        storage::graph_key(a),
    ) == Some(StoredView::Graph(rv.graphs[a])) by {
        assert(gk.contains(a));
        let k = storage::graph_key(a);
        assert(f8(k) == f1(k));
        if p.graphs.contains(a) {
            assert(before.graphs.contains_key(a));
        }
    }
    assert forall|a: CommitAddr| #[trigger] rv.commits.contains_key(a) implies f8(
        storage::commit_key(a),
    ) == Some(StoredView::<T>::Commit(rv.commits[a])) by {
        assert(ck.contains(a));
        let k = storage::commit_key(a);
        assert(f8(k) == f3(k));
        assert(f2(k) == f(k));
        if p.commits.contains(a) {
            assert(before.commits.contains_key(a));
        }
    }
    assert forall|id: Seq<char>| #[trigger] rv.sections.contains_key(id) implies f8(
        storage::section_key(id),
    ) == Some(StoredView::<T>::Section(rv.sections[id])) by {
        assert(sk.contains(id));
        let k = storage::section_key(id);
        assert(f8(k) == f7(k));
        assert(f6(k) == f(k));
        if p.sections.contains_key(id) {
            assert(before.sections.contains_key(id));
        }
    }
    assert forall|id: Seq<char>, a: ContentAddr|
        rv.blobs.contains_key(id) && #[trigger] rv.blobs[id].entries.contains_key(a) implies f8(
        storage::blob_key(id, a),
    ) == Some(StoredView::<T>::Blob(armor::text(rv.blobs[id].entries[a]))) by {
        assert(bk.contains(id));
        let k = storage::blob_key(id, a);
        assert(f8(k) == f5(k));
        assert(f4(k) == f(k));
        if p.known_blobs(id).contains(a) {
            assert(before.blobs.contains_key(id));
            assert(before.blobs[id].entries.contains_key(a));
        }
    }
}

proof fn lemma_same_manifest<T>(before: RegistryView<T>, rv: RegistryView<T>)
    requires
        storable(before),
        storable(rv),
        agree(before, rv),
        !saving::blobs_changed(rv.blobs, PersistedView::of(before)),
    ensures
        saving::manifest(table::keys_of::<String, BlobView>(before.blobs), before.blobs)
            == saving::manifest(table::keys_of::<String, BlobView>(rv.blobs), rv.blobs),
{
    let p = PersistedView::of(before);
    assert forall|id: Seq<char>| before.blobs.dom().contains(id) == rv.blobs.dom().contains(id) by {
        if before.blobs.contains_key(id) {
            assert(p.blobs.contains_key(id));
            assert(rv.blobs.contains_key(id));
        }
        if rv.blobs.contains_key(id) {
            assert(p.known_blobs(id) == rv.blobs[id].entries.dom());
            if !before.blobs.contains_key(id) {
                assert(rv.blobs[id].entries.dom().len() == 0);
            }
        }
    }
    assert(before.blobs.dom() =~= rv.blobs.dom());
    lemma_same_keys::<String, BlobView, BlobView>(before.blobs, rv.blobs);
    let ids = table::keys_of::<String, BlobView>(rv.blobs);
    table::lemma_keys_of::<String, BlobView>(rv.blobs);
    let x = saving::manifest(ids, before.blobs);
    let y = saving::manifest(ids, rv.blobs);
    assert forall|i: int| 0 <= i < ids.len() implies x[i] == y[i] by {
        let id = ids[i];
        assert(ids.contains(id));
        assert(rv.blobs.contains_key(id));
        assert(before.blobs.dom().contains(id));
        assert(p.known_blobs(id) == rv.blobs[id].entries.dom());
        lemma_same_keys::<ContentAddr, Seq<u8>, Seq<u8>>(
            before.blobs[id].entries,
            rv.blobs[id].entries,
        );
    }
    assert(x =~= y);
}

proof fn lemma_with_sections<T>(rv: RegistryView<T>, ids: Seq<Seq<char>>, f: Held<T>, m: Map<Seq<char>, SectionView>)
    requires
        rv.sections == Map::<Seq<char>, SectionView>::empty(),
        forall|i: int, j: int| 0 <= i < j < ids.len() ==> ids[i] != ids[j],
        forall|i: int|
            0 <= i < ids.len() ==> loading::section_at(f, #[trigger] ids[i]) == Some(m[ids[i]])
                && m[ids[i]].entries != Map::<KeyView, ValueView>::empty(),
    ensures
        loading::with_sections(rv, ids, f) == (RegistryView {
            sections: Map::new(|id: Seq<char>| ids.contains(id), |id: Seq<char>| m[id]),
            ..rv
        }),
    decreases ids.len(),
{
    let e = Map::new(|id: Seq<char>| ids.contains(id), |id: Seq<char>| m[id]);
    if ids.len() == 0 {
        assert(rv.sections =~= e);
    } else {
        let init = ids.drop_last();
        let id = ids.last();
        assert forall|i: int, j: int| 0 <= i < j < init.len() implies init[i] != init[j] by {
            assert(init[i] == ids[i] && init[j] == ids[j]);
        }
        assert forall|i: int| 0 <= i < init.len() implies loading::section_at(
            f,
            #[trigger] init[i],
        ) == Some(m[init[i]]) && m[init[i]].entries != Map::<KeyView, ValueView>::empty() by {
            assert(init[i] == ids[i]);
        }
        lemma_with_sections(rv, init, f, m);
        assert(ids[ids.len() - 1] == id);
        assert(!init.contains(id)) by {
            if init.contains(id) {
                let i = choose|i: int| 0 <= i < init.len() && init[i] == id;
                assert(ids[i] != ids[ids.len() - 1]);
            }
        }
        let mid = loading::with_sections(rv, init, f);
        let r = loading::with_sections(rv, ids, f);
        assert(Map::<KeyView, ValueView>::empty().union_prefer_right(m[id].entries)
            =~= m[id].entries);
        assert(r.sections == mid.sections.insert(id, m[id]));
        assert forall|x: Seq<char>| ids.contains(x) == (init.contains(x) || x == id) by {
            lemma_contains_last(ids, x);
        }
        assert(r.sections =~= e);
    }
}

proof fn lemma_with_store<T>(
    rv: RegistryView<T>,
    id: Seq<char>,
    s: BlobView,
    addrs: Seq<ContentAddr>,
    f: Held<T>,
)
    requires
        !rv.blobs.contains_key(id),
        forall|i: int|
            0 <= i < addrs.len() ==> loading::blob_at(f, id, #[trigger] addrs[i]) == Some(
                s.entries[addrs[i]],
            ) && hash::addresses(addrs[i], s.entries[addrs[i]]),
    ensures
        loading::with_store(rv, id, s.liveness, addrs, f) == (if addrs.len() == 0 {
            rv
        } else {
            RegistryView {
                blobs: rv.blobs.insert(
                    id,
                    BlobView {
                        liveness: s.liveness,
                        entries: Map::new(
                            |a: ContentAddr| addrs.contains(a),
                            |a: ContentAddr| s.entries[a],
                        ),
                    },
                ),
                ..rv
            }
        }),
    decreases addrs.len(),
{
    if addrs.len() > 0 {
        let init = addrs.drop_last();
        let last = addrs.last();
        assert forall|i: int| 0 <= i < init.len() implies loading::blob_at(
            f,
            id,
            #[trigger] init[i],
        ) == Some(s.entries[init[i]]) && hash::addresses(init[i], s.entries[init[i]]) by {
            assert(init[i] == addrs[i]);
        }
        lemma_with_store(rv, id, s, init, f);
        assert(addrs[addrs.len() - 1] == last);
        hash::lemma_addr_of(last, s.entries[last]);
        let e = Map::new(|a: ContentAddr| addrs.contains(a), |a: ContentAddr| s.entries[a]);
        let before = Map::new(|a: ContentAddr| init.contains(a), |a: ContentAddr| s.entries[a]);
        assert forall|x: ContentAddr| addrs.contains(x) == (init.contains(x) || x == last) by {
            lemma_contains_last(addrs, x);
        }
        assert(before.insert(last, s.entries[last]) =~= e);
        if init.len() == 0 {
            assert(before =~= Map::<ContentAddr, Seq<u8>>::empty());
        }
        assert(loading::with_store(rv, id, s.liveness, addrs, f).blobs =~= rv.blobs.insert(
            id,
            BlobView { liveness: s.liveness, entries: e },
        ));
    }
}

proof fn lemma_with_stores<T>(
    rv: RegistryView<T>,
    ids: Seq<Seq<char>>,
    f: Held<T>,
    m: Map<Seq<char>, BlobView>,
)
    requires
        rv.blobs == Map::<Seq<char>, BlobView>::empty(),
        forall|i: int, j: int| 0 <= i < j < ids.len() ==> ids[i] != ids[j],
        forall|i: int|
            0 <= i < ids.len() ==> (#[trigger] m[ids[i]]).entries.dom().finite()
                && m[ids[i]].entries.dom().len() > 0,
        forall|i: int, a: ContentAddr|
            0 <= i < ids.len() && #[trigger] m[ids[i]].entries.contains_key(a)
                ==> loading::blob_at(f, ids[i], a) == Some(m[ids[i]].entries[a])
                && hash::addresses(a, m[ids[i]].entries[a]),
    ensures
        loading::with_stores(rv, saving::manifest(ids, m), f) == (RegistryView {
            blobs: Map::new(|id: Seq<char>| ids.contains(id), |id: Seq<char>| m[id]),
            ..rv
        }),
    decreases ids.len(),
{
    let e = Map::new(|id: Seq<char>| ids.contains(id), |id: Seq<char>| m[id]);
    let lines = saving::manifest(ids, m);
    if ids.len() == 0 {
        assert(rv.blobs =~= e);
    } else {
        let init = ids.drop_last();
        let id = ids.last();
        assert forall|i: int, j: int| 0 <= i < j < init.len() implies init[i] != init[j] by {
            assert(init[i] == ids[i] && init[j] == ids[j]);
        }
        assert forall|i: int| 0 <= i < init.len() implies (#[trigger] m[init[i]]).entries.dom().finite()
            && m[init[i]].entries.dom().len() > 0 by {
            assert(init[i] == ids[i]);
            assert(m[ids[i]].entries.dom().finite());
        }
        assert forall|i: int, a: ContentAddr|
            0 <= i < init.len() && #[trigger] m[init[i]].entries.contains_key(a) implies
            loading::blob_at(f, init[i], a) == Some(m[init[i]].entries[a]) && hash::addresses(
            a,
            m[init[i]].entries[a],
        ) by {
            assert(init[i] == ids[i]);
            assert(m[ids[i]].entries.contains_key(a));
        }
        lemma_with_stores(rv, init, f, m);
        let last = ids.len() - 1;
        assert(ids[last] == id);
        assert(m[ids[last]].entries.dom().finite());
        assert(!init.contains(id)) by {
            if init.contains(id) {
                let i = choose|i: int| 0 <= i < init.len() && init[i] == id;
                assert(ids[i] != ids[last]);
            }
        }
        assert(lines.drop_last() =~= saving::manifest(init, m));
        let mid = loading::with_stores(rv, saving::manifest(init, m), f);
        let addrs = table::keys_of::<ContentAddr, Seq<u8>>(m[id].entries);
        table::lemma_keys_of::<ContentAddr, Seq<u8>>(m[id].entries);
        assert forall|i: int| 0 <= i < addrs.len() implies loading::blob_at(
            f,
            id,
            #[trigger] addrs[i],
        ) == Some(m[id].entries[addrs[i]]) && hash::addresses(
            addrs[i],
            m[id].entries[addrs[i]],
        ) by {
            assert(addrs.contains(addrs[i]));
            assert(m[ids[last]].entries.contains_key(addrs[i]));
        }
        lemma_with_store(mid, id, m[id], addrs, f);
        assert(addrs.len() > 0) by {
            let a = m[id].entries.dom().choose();
            assert(m[id].entries.contains_key(a));
            assert(addrs.contains(a));
        }
        assert(Map::new(|a: ContentAddr| addrs.contains(a), |a: ContentAddr| m[id].entries[a])
            =~= m[id].entries) by {
            assert forall|a: ContentAddr| addrs.contains(a) == m[id].entries.contains_key(a) by {
                assert(m[id].entries.contains_key(a) <==> addrs.contains(a));
            }
        }
        assert forall|x: Seq<char>| ids.contains(x) == (init.contains(x) || x == id) by {
            lemma_contains_last(ids, x);
        }
        let r = loading::with_stores(rv, lines, f);
        assert(r.blobs =~= mid.blobs.insert(id, m[id]));
        assert(r.blobs =~= e);
    }
}

/// What is loaded from a store that holds a registry is that registry.
pub proof fn law_load_gives_back<T>(f: Held<T>, rv: RegistryView<T>)
    requires
        holds(f, rv),
        storable(rv),
    ensures
        loading::loaded(f) == rv,
{
    let gk = table::keys_of::<GraphAddr, T>(rv.graphs);
    let ck = table::keys_of::<CommitAddr, CommitView>(rv.commits);
    let bk = table::keys_of::<String, BlobView>(rv.blobs);
    let sk = table::keys_of::<String, SectionView>(rv.sections);
    table::lemma_keys_of::<GraphAddr, T>(rv.graphs);
    table::lemma_keys_of::<CommitAddr, CommitView>(rv.commits);
    table::lemma_keys_of::<String, BlobView>(rv.blobs);
    table::lemma_keys_of::<String, SectionView>(rv.sections);
    assert forall|a: GraphAddr| gk.contains(a) == rv.graphs.contains_key(a) by {
        assert(rv.graphs.contains_key(a) <==> gk.contains(a));
    }
    assert(loading::loaded_graphs(f, gk) =~= rv.graphs);
    assert forall|a: CommitAddr| ck.contains(a) == rv.commits.contains_key(a) by {
        assert(rv.commits.contains_key(a) <==> ck.contains(a));
    }
    assert(loading::loaded_commits(f, ck) =~= rv.commits);
    let content = RegistryView {
        graphs: rv.graphs,
        commits: rv.commits,
        ..RegistryView::<T>::empty()
    };
    assert forall|i: int, j: int| 0 <= i < j < sk.len() implies sk[i] != sk[j] by {
        assert(String::precedes(sk[i], sk[j]));
        String::lemma_irreflexive(sk[i]);
    }
    assert forall|i: int| 0 <= i < sk.len() implies loading::section_at(f, #[trigger] sk[i])
        == Some(rv.sections[sk[i]]) && rv.sections[sk[i]].entries != Map::<
        KeyView,
        ValueView,
    >::empty() by {
        assert(sk.contains(sk[i]));
        assert(rv.sections.contains_key(sk[i]));
    }
    lemma_with_sections(content, sk, f, rv.sections);
    let with = loading::with_sections(content, sk, f);
    assert(with.sections =~= rv.sections) by {
        assert forall|id: Seq<char>| sk.contains(id) == rv.sections.contains_key(id) by {
            assert(rv.sections.contains_key(id) <==> sk.contains(id));
        }
    }
    assert forall|i: int, j: int| 0 <= i < j < bk.len() implies bk[i] != bk[j] by {
        assert(String::precedes(bk[i], bk[j]));
        String::lemma_irreflexive(bk[i]);
    }
    assert forall|i: int| 0 <= i < bk.len() implies (#[trigger] rv.blobs[bk[i]]).entries.dom().finite()
        && rv.blobs[bk[i]].entries.dom().len() > 0 by {
        assert(bk.contains(bk[i]));
        assert(rv.blobs.contains_key(bk[i]));
    }
    assert forall|i: int, a: ContentAddr|
        0 <= i < bk.len() && #[trigger] rv.blobs[bk[i]].entries.contains_key(a) implies
        loading::blob_at(f, bk[i], a) == Some(rv.blobs[bk[i]].entries[a]) && hash::addresses(
        a,
        rv.blobs[bk[i]].entries[a],
    ) by {
        assert(bk.contains(bk[i]));
        assert(rv.blobs.contains_key(bk[i]));
        armor::law_base64_round_trips(rv.blobs[bk[i]].entries[a]);
    }
    lemma_with_stores(with, bk, f, rv.blobs);
    let r = loading::loaded(f);
    assert(r.blobs =~= rv.blobs) by {
        assert forall|id: Seq<char>| bk.contains(id) == rv.blobs.contains_key(id) by {
            assert(rv.blobs.contains_key(id) <==> bk.contains(id));
        }
    }
    assert(r =~= rv);
}

/// Saving all of a registry to a store that holds nothing, and loading it, gives the
/// registry back.
pub proof fn law_load_round_trips_save<T>(rv: RegistryView<T>)
    requires
        storable(rv),
    ensures
        loading::loaded(
            written(nothing(), saving::registry_writes(rv, PersistedView::empty())),
        ) == rv,
{
    let none = RegistryView::<T>::empty();
    let f = nothing::<T>();
    assert(PersistedView::of(none) =~= PersistedView::empty());
    table::lemma_keys::<GraphAddr, T>(Seq::empty(), none.graphs);
    table::lemma_keys::<CommitAddr, CommitView>(Seq::empty(), none.commits);
    table::lemma_keys::<String, BlobView>(Seq::empty(), none.blobs);
    table::lemma_keys::<String, SectionView>(Seq::empty(), none.sections);
    assert(saving::manifest(Seq::empty(), none.blobs) =~= Seq::<ManifestView>::empty());
    assert(holds(f, none));
    law_save_brings_store_up_to_date(f, none, rv);
    law_load_gives_back(written(f, saving::registry_writes(rv, PersistedView::empty())), rv);
}

/// The writes that saving the open heads and the focused one makes.
pub open spec fn session_writes<T>(open: Seq<HeadView>, focused: HeadView) -> Seq<
    (Seq<char>, StoredView<T>),
> {
    seq![
        (storage::OPEN_HEADS@, StoredView::Heads(open)),
        (storage::FOCUSED_HEAD@, StoredView::Head(focused)),
    ]
}

/// Whether a key is neither that of the open heads nor that of the focused one.
spec fn apart(k: Seq<char>) -> bool {
    k != storage::OPEN_HEADS@ && k != storage::FOCUSED_HEAD@
}

proof fn lemma_session_keys()
    ensures
        storage::OPEN_HEADS@ != storage::FOCUSED_HEAD@,
        forall|a: GraphAddr| apart(#[trigger] storage::graph_key(a)),
        forall|a: CommitAddr| apart(#[trigger] storage::commit_key(a)),
        forall|id: Seq<char>, a: ContentAddr| apart(#[trigger] storage::blob_key(id, a)),
        forall|id: Seq<char>| apart(#[trigger] storage::section_key(id)),
        apart(storage::GRAPH_ADDRS@),
        apart(storage::COMMIT_ADDRS@),
        apart(storage::BLOB_MANIFEST@),
        apart(storage::SECTION_INDEX@),
{
    lemma_kinds();
    reveal_strlit("o/g/");
    reveal_strlit("o/c/");
    reveal_strlit("open-heads");
    reveal_strlit("focused-head");
    reveal_strlit("commit-addrs");
    let o = storage::OPEN_HEADS@;
    let f = storage::FOCUSED_HEAD@;
    assert(o[1] == 'p' && o[2] == 'e' && f[0] == 'f' && storage::COMMIT_ADDRS@[0] == 'c');
    assert forall|a: GraphAddr| apart(#[trigger] storage::graph_key(a)) by {
        assert(storage::graph_key(a)[1] == '/');
    }
    assert forall|a: CommitAddr| apart(#[trigger] storage::commit_key(a)) by {
        assert(storage::commit_key(a)[1] == '/');
        assert(storage::commit_key(a)[0] == 'o');
    }
}

/// The open heads and the focused one are loaded as they were saved, and saving them
/// leaves the registry that the store holds as it is.
pub proof fn law_session_round_trips<T>(
    f: Held<T>,
    rv: RegistryView<T>,
    open: Seq<HeadView>,
    focused: HeadView,
)
    ensures
        ({
            let after = written(f, session_writes(open, focused));
            &&& after(storage::OPEN_HEADS@) == Some(StoredView::<T>::Heads(open))
            &&& after(storage::FOCUSED_HEAD@) == Some(StoredView::<T>::Head(focused))
            &&& holds(f, rv) ==> holds(after, rv)
        }),
{
    let ws = session_writes::<T>(open, focused);
    let after = written(f, ws);
    lemma_session_keys();
    let first = ws.drop_last();
    assert(ws.len() == 2 && first.len() == 1);
    assert(first.drop_last().len() == 0);
    assert(first.last() == ws[0] && ws.last() == ws[1]);
    assert(written(f, first.drop_last()) == f);
    assert(written(f, first)(storage::OPEN_HEADS@) == Some(StoredView::<T>::Heads(open)));
    assert(after(storage::OPEN_HEADS@) == written(f, first)(storage::OPEN_HEADS@));
    assert forall|k: Seq<char>| apart(k) implies #[trigger] after(k) == f(k) by {
        assert(written(f, first)(k) == f(k));
    }
    if holds(f, rv) {
        assert(loading::graph_addrs(after) == loading::graph_addrs(f));
        assert(loading::commit_addrs(after) == loading::commit_addrs(f));
        assert(loading::section_ids(after) == loading::section_ids(f));
        assert(loading::blob_manifest(after) == loading::blob_manifest(f));
    }
}

} // verus!
