//! The wire protocol: gossip messages, requests and responses.

use crate::addr::ContentAddr;
use crate::commit::{Commit, CommitAddr, CommitView, Timestamp};
use crate::graph::GraphAddr;
use crate::hash::{self, Hasher};
use crate::name::Name;
use crate::registry::BlobLiveness;
use crate::session::{PeerId, SessionId};
use crate::table::{self, Table};
use vstd::prelude::*;
use vstd::string::*;
use vstd::utf8::*;

verus! {

/// A message broadcast on a session's gossip topic.
#[derive(Debug)]
pub enum GossipMsg {
    /// Names whose tips changed on the announcing peer, with the tips' graph
    /// addresses.
    Tips {
        origin: PeerId,
        /// Per-origin sequence number, for dropping stale messages only.
        seq: u64,
        changed: Vec<(String, CommitAddr, GraphAddr)>,
    },
    /// A digest of the announcing peer's heads (see [`heads_digest`]).
    Digest { origin: PeerId, seq: u64, n_names: u32, digest: [u8; 32] },
    /// Presence and self-reported username.
    Presence { origin: PeerId, name: Option<String> },
}

/// One object of a session, by its address.
#[derive(Debug)]
pub enum ObjectRef {
    Commit(CommitAddr),
    Graph(GraphAddr),
    Blob { section: String, addr: ContentAddr },
}

/// Objects a peer is missing.
#[derive(Debug)]
pub struct Want {
    pub refs: Vec<ObjectRef>,
}

impl Want {
    /// Whether nothing is wanted.
    pub fn is_empty(&self) -> (r: bool)
        ensures
            r == (self.refs@.len() == 0),
    {
        self.refs.len() == 0
    }
}

/// A commit as it goes over the wire: every field, whether empty or not.
#[derive(Debug)]
pub struct WireCommit {
    pub timestamp: Timestamp,
    pub parent: Option<CommitAddr>,
    pub graph: GraphAddr,
    pub merge_parents: Vec<CommitAddr>,
}

impl View for WireCommit {
    type V = CommitView;

    open spec fn view(&self) -> CommitView {
        CommitView {
            timestamp: self.timestamp,
            parent: self.parent,
            graph: self.graph,
            merge_parents: self.merge_parents@,
        }
    }
}

impl From<Commit> for WireCommit {
    fn from(c: Commit) -> (r: Self) {
        WireCommit {
            timestamp: c.timestamp,
            parent: c.parent,
            graph: c.graph,
            merge_parents: c.merge_parents,
        }
    }
}

impl vstd::std_specs::convert::FromSpecImpl<Commit> for WireCommit {
    open spec fn obeys_from_spec() -> bool {
        true
    }

    open spec fn from_spec(c: Commit) -> Self {
        WireCommit {
            timestamp: c.timestamp,
            parent: c.parent,
            graph: c.graph,
            merge_parents: c.merge_parents,
        }
    }
}

impl From<WireCommit> for Commit {
    fn from(c: WireCommit) -> (r: Self) {
        Commit {
            timestamp: c.timestamp,
            parent: c.parent,
            graph: c.graph,
            merge_parents: c.merge_parents,
        }
    }
}

impl vstd::std_specs::convert::FromSpecImpl<WireCommit> for Commit {
    open spec fn obeys_from_spec() -> bool {
        true
    }

    open spec fn from_spec(c: WireCommit) -> Self {
        Commit {
            timestamp: c.timestamp,
            parent: c.parent,
            graph: c.graph,
            merge_parents: c.merge_parents,
        }
    }
}

/// A commit that goes over the wire comes back as it was.
pub proof fn law_wire_commit_round_trips(c: Commit)
    ensures
        <Commit as vstd::std_specs::convert::FromSpec<WireCommit>>::from_spec(
            <WireCommit as vstd::std_specs::convert::FromSpec<Commit>>::from_spec(c),
        ) == c,
{
}

/// An object of a session.
#[derive(Debug)]
pub enum Object {
    Commit(CommitAddr, WireCommit),
    /// A graph, serialized by the application.
    Graph(GraphAddr, Vec<u8>),
    Blob { section: String, liveness: BlobLiveness, addr: ContentAddr, bytes: Vec<u8> },
}

/// What an [`Object`] denotes.
pub enum ObjectView {
    Commit(CommitAddr, CommitView),
    Graph(GraphAddr, Seq<u8>),
    Blob { section: Seq<char>, liveness: BlobLiveness, addr: ContentAddr, bytes: Seq<u8> },
}

impl View for Object {
    type V = ObjectView;

    open spec fn view(&self) -> ObjectView {
        match self {
            Object::Commit(ca, c) => ObjectView::Commit(*ca, c@),
            Object::Graph(ga, bytes) => ObjectView::Graph(*ga, bytes@),
            Object::Blob { section, liveness, addr, bytes } => ObjectView::Blob {
                section: section@,
                liveness: *liveness,
                addr: *addr,
                bytes: bytes@,
            },
        }
    }
}

/// Fetched session content, in no particular order.
#[derive(Debug)]
pub struct Objects {
    pub objects: Vec<Object>,
}

/// What a list of objects denotes.
pub open spec fn object_views(s: Seq<Object>) -> Seq<ObjectView> {
    s.map_values(|o: Object| o@)
}

impl View for Objects {
    type V = Seq<ObjectView>;

    open spec fn view(&self) -> Seq<ObjectView> {
        object_views(self.objects@)
    }
}

/// A request, one per stream.
#[derive(Debug)]
pub enum SyncRequest {
    /// Protocol negotiation and access check.
    Hello { session: SessionId, proto: u32 },
    /// Everything served: a joiner's first sync.
    Snapshot { session: SessionId },
    /// The tips by name.
    Heads { session: SessionId },
    /// Specific missing objects.
    Want { session: SessionId, want: Want },
}

/// The response to a [`SyncRequest`].
#[derive(Debug)]
pub enum SyncResponse {
    Hello { proto: u32, accepted: bool },
    Snapshot { heads: Vec<(Name, CommitAddr)>, objects: Objects },
    Heads { heads: Vec<(Name, CommitAddr)> },
    Objects(Objects),
    /// Unknown session, failed access check or protocol mismatch.
    Denied { reason: String },
}

/// The bytes one head adds to the digest: the name's length, the name, the tip.
pub open spec fn head_bytes(name: Seq<char>, tip: CommitAddr) -> Seq<u8> {
    hash::be(encode_utf8(name).len(), 8) + encode_utf8(name) + tip.0.bytes()
}

/// The bytes of the named heads, in order.
pub open spec fn heads_bytes(names: Seq<Seq<char>>, tips: Map<Seq<char>, CommitAddr>) -> Seq<u8>
    decreases names.len(),
{
    if names.len() == 0 {
        Seq::empty()
    } else {
        heads_bytes(names.drop_last(), tips) + head_bytes(names.last(), tips[names.last()])
    }
}

/// The bytes a map of heads is digested by: those of each head, by name.
pub open spec fn digest_bytes(tips: Map<Seq<char>, CommitAddr>) -> Seq<u8> {
    heads_bytes(table::keys_of::<String, CommitAddr>(tips), tips)
}

/// The digest of the tips by name, for [`GossipMsg::Digest`].
pub fn heads_digest(heads: &Table<String, CommitAddr>) -> (r: [u8; 32])
    ensures
        r@ == hash::blake3_digest(digest_bytes(heads@)),
{
    let list = heads.entries();
    let ghost m = heads@;
    let ghost names = table::key_views(list@);
    proof {
        table::lemma_listed_keys(list@, m, m);
    }
    let mut hasher = Hasher::new();
    let mut i: usize = 0;
    assert(names.take(0) =~= Seq::empty());
    while i < list.len()
        invariant
            table::lists(list@, m),
            names == table::key_views(list@),
            i <= list@.len(),
            hasher@ == heads_bytes(names.take(i as int), m),
        decreases list@.len() - i,
    {
        let name = list[i].0.as_str();
        let ghost before = hasher@;
        proof {
            table::lemma_entry(list@, i as int);
            assert(names.take(i + 1).drop_last() =~= names.take(i as int));
        }
        let bytes = name.as_bytes();
        hasher.update_be(bytes.len() as u64, 8);
        hasher.update(bytes);
        hasher.update(&list[i].1.0.0);
        proof {
            assert(hasher@ =~= before + head_bytes(name@, list@[i as int].1));
        }
        i = i + 1;
    }
    assert(names.take(i as int) =~= names);
    hasher.finalize()
}

proof fn lemma_heads_bytes_front(name: Seq<char>, rest: Seq<Seq<char>>, tips: Map<Seq<char>, CommitAddr>)
    ensures
        heads_bytes(seq![name] + rest, tips) == head_bytes(name, tips[name]) + heads_bytes(
            rest,
            tips,
        ),
    decreases rest.len(),
{
    let all = seq![name] + rest;
    if rest.len() == 0 {
        assert(all.drop_last() =~= Seq::empty());
        assert(heads_bytes(all.drop_last(), tips) =~= Seq::empty());
        assert(heads_bytes(all, tips) =~= head_bytes(name, tips[name]));
        assert(heads_bytes(rest, tips) =~= Seq::empty());
    } else {
        assert(all.drop_last() =~= seq![name] + rest.drop_last());
        assert(all.last() == rest.last());
        lemma_heads_bytes_front(name, rest.drop_last(), tips);
        assert(heads_bytes(all, tips) =~= head_bytes(name, tips[name]) + heads_bytes(rest, tips));
    }
}

/// Two maps of heads with the same digest bytes are the same map, so their digests
/// differ wherever the hash tells the bytes apart. Names must be short enough for
/// their length to be written in a word.
pub proof fn law_digest_tells_heads_apart(
    a: Map<Seq<char>, CommitAddr>,
    b: Map<Seq<char>, CommitAddr>,
)
    requires
        a.dom().finite(),
        b.dom().finite(),
        forall|n: Seq<char>| #[trigger] a.contains_key(n) ==> encode_utf8(n).len() <= u64::MAX,
        forall|n: Seq<char>| #[trigger] b.contains_key(n) ==> encode_utf8(n).len() <= u64::MAX,
        digest_bytes(a) == digest_bytes(b),
    ensures
        a == b,
{
    let a_names = table::keys_of::<String, CommitAddr>(a);
    let b_names = table::keys_of::<String, CommitAddr>(b);
    table::lemma_keys_of::<String, CommitAddr>(a);
    table::lemma_keys_of::<String, CommitAddr>(b);
    assert forall|i: int| 0 <= i < a_names.len() implies encode_utf8(#[trigger] a_names[i]).len()
        <= u64::MAX by {
        assert(a_names.contains(a_names[i]));
        assert(a.contains_key(a_names[i]));
    }
    assert forall|i: int| 0 <= i < b_names.len() implies encode_utf8(#[trigger] b_names[i]).len()
        <= u64::MAX by {
        assert(b_names.contains(b_names[i]));
        assert(b.contains_key(b_names[i]));
    }
    lemma_heads_bytes_injective(a_names, a, b_names, b);
    assert forall|n: Seq<char>| a.contains_key(n) == b.contains_key(n) by {
        assert(a.contains_key(n) <==> a_names.contains(n));
        assert(b.contains_key(n) <==> b_names.contains(n));
    }
    assert forall|n: Seq<char>| a.contains_key(n) implies a[n] == b[n] by {
        assert(a_names.contains(n));
        let i = choose|i: int| 0 <= i < a_names.len() && a_names[i] == n;
        assert(a[a_names[i]] == b[a_names[i]]);
    }
    assert(a =~= b);
}

proof fn lemma_heads_bytes_injective(
    s: Seq<Seq<char>>,
    a: Map<Seq<char>, CommitAddr>,
    t: Seq<Seq<char>>,
    b: Map<Seq<char>, CommitAddr>,
)
    requires
        forall|i: int| 0 <= i < s.len() ==> encode_utf8(#[trigger] s[i]).len() <= u64::MAX,
        forall|i: int| 0 <= i < t.len() ==> encode_utf8(#[trigger] t[i]).len() <= u64::MAX,
        heads_bytes(s, a) == heads_bytes(t, b),
    ensures
        s == t,
        forall|i: int| 0 <= i < s.len() ==> a[#[trigger] s[i]] == b[s[i]],
    decreases s.len(),
{
    if s.len() > 0 {
        let s1 = s.skip(1);
        assert(s =~= seq![s[0]] + s1);
        lemma_heads_bytes_front(s[0], s1, a);
        hash::lemma_be_len(encode_utf8(s[0]).len(), 8);
        assert(heads_bytes(s, a).len() > 0);
    }
    if t.len() > 0 {
        let t1 = t.skip(1);
        assert(t =~= seq![t[0]] + t1);
        lemma_heads_bytes_front(t[0], t1, b);
        hash::lemma_be_len(encode_utf8(t[0]).len(), 8);
        assert(heads_bytes(t, b).len() > 0);
    }
    if s.len() == 0 || t.len() == 0 {
        assert(s =~= t);
    } else {
        let s1 = s.skip(1);
        let t1 = t.skip(1);
        let x = encode_utf8(s[0]);
        let y = encode_utf8(t[0]);
        let whole = heads_bytes(s, a);
        assert(whole.take(8) =~= hash::be(x.len(), 8));
        assert(whole.take(8) =~= hash::be(y.len(), 8));
        assert(hash::room(8) == 0x1_0000_0000_0000_0000) by {
            reveal_with_fuel(hash::room, 9);
        }
        hash::lemma_be_injective(x.len(), y.len(), 8);
        let n = x.len() as int;
        assert(whole.subrange(8, 8 + n) =~= x);
        assert(whole.subrange(8, 8 + n) =~= y);
        encode_utf8_decode_utf8(s[0]);
        encode_utf8_decode_utf8(t[0]);
        assert(s[0] == t[0]);
        assert(whole.subrange(8 + n, 40 + n) =~= a[s[0]].0.bytes());
        assert(whole.subrange(8 + n, 40 + n) =~= b[t[0]].0.bytes());
        crate::addr::lemma_addr_ext(a[s[0]].0, b[t[0]].0);
        assert(whole.skip(40 + n) =~= heads_bytes(s1, a));
        assert(whole.skip(40 + n) =~= heads_bytes(t1, b));
        assert forall|i: int| 0 <= i < s1.len() implies encode_utf8(#[trigger] s1[i]).len()
            <= u64::MAX by {
            assert(s1[i] == s[i + 1]);
        }
        assert forall|i: int| 0 <= i < t1.len() implies encode_utf8(#[trigger] t1[i]).len()
            <= u64::MAX by {
            assert(t1[i] == t[i + 1]);
        }
        lemma_heads_bytes_injective(s1, a, t1, b);
        assert forall|i: int| 0 <= i < s.len() implies a[#[trigger] s[i]] == b[s[i]] by {
            if i > 0 {
                assert(s1[i - 1] == s[i]);
            }
        }
    }
}

} // verus!
