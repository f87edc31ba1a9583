//! Names: the labels of lines of history, nested by segments.

use crate::order::{self, Key};
use crate::text;
use vstd::prelude::*;
use vstd::string::*;

verus! {

/// The order of two characters.
pub open spec fn char_lt() -> spec_fn(char, char) -> bool {
    |a: char, b: char| a < b
}

/// Characters are strictly and totally ordered.
pub proof fn lemma_char_order()
    ensures
        order::strict_total(char_lt()),
{
    assert forall|a: char| !#[trigger] char_lt()(a, a) by {}
    assert forall|a: char, b: char, c: char| #[trigger] char_lt()(a, b) && #[trigger] char_lt()(b, c)
        implies char_lt()(a, c) by {}
    assert forall|a: char, b: char| a == b || #[trigger] char_lt()(a, b) || char_lt()(b, a) by {}
}

/// The order of two texts.
pub open spec fn text_lt() -> spec_fn(Seq<char>, Seq<char>) -> bool {
    |a: Seq<char>, b: Seq<char>| order::lex_lt(a, b, char_lt())
}

/// Texts are strictly and totally ordered.
pub proof fn lemma_text_order()
    ensures
        order::strict_total(text_lt()),
{
    lemma_char_order();
    order::lemma_lex_strict_total(char_lt());
}

/// Whether the first text comes before the second.
pub fn str_before(a: &str, b: &str) -> (r: bool)
    ensures
        r == order::lex_lt(a@, b@, char_lt()),
{
    proof {
        lemma_char_order();
    }
    let mut ca = a.chars();
    let mut cb = b.chars();
    let ghost mut i: int = 0;
    assert(a@.skip(0) =~= a@);
    assert(b@.skip(0) =~= b@);
    loop
        invariant
            order::strict_total(char_lt()),
            0 <= i <= a@.len(),
            i <= b@.len(),
            vstd::std_specs::iter::IteratorSpec::remaining(&ca) == a@.skip(i),
            vstd::std_specs::iter::IteratorSpec::remaining(&cb) == b@.skip(i),
            forall|j: int| 0 <= j < i ==> a@[j] == b@[j],
        decreases a@.len() - i,
    {
        let x = ca.next();
        let y = cb.next();
        proof {
            order::lemma_lex_at(a@, b@, i, char_lt());
        }
        match (x, y) {
            (_, None) => {
                return false;
            },
            (None, Some(_)) => {
                return true;
            },
            (Some(x), Some(y)) => {
                assert(x == a@[i] && y == b@[i]);
                if x != y {
                    return x < y;
                }
            },
        }
        proof {
            assert(a@.skip(i).drop_first() =~= a@.skip(i + 1));
            assert(b@.skip(i).drop_first() =~= b@.skip(i + 1));
            i = i + 1;
        }
    }
}

impl Key for String {
    open spec fn precedes(a: Seq<char>, b: Seq<char>) -> bool {
        order::lex_lt(a, b, char_lt())
    }

    proof fn lemma_irreflexive(a: Seq<char>) {
        lemma_char_order();
        order::lemma_lex_irreflexive(a, char_lt());
    }

    proof fn lemma_transitive(a: Seq<char>, b: Seq<char>, c: Seq<char>) {
        lemma_char_order();
        order::lemma_lex_transitive(a, b, c, char_lt());
    }

    proof fn lemma_total(a: Seq<char>, b: Seq<char>) {
        lemma_char_order();
        order::lemma_lex_total(a, b, char_lt());
    }

    fn before(&self, other: &Self) -> (r: bool) {
        str_before(self.as_str(), other.as_str())
    }

    fn same(&self, other: &Self) -> (r: bool) {
        *self == *other
    }

    fn dup(&self) -> (r: Self) {
        self.clone()
    }
}

/// The text split at every colon.
pub open spec fn split(s: Seq<char>) -> Seq<Seq<char>>
    decreases s.len(),
{
    if s.len() == 0 {
        seq![Seq::empty()]
    } else {
        let before = split(s.drop_last());
        if s.last() == ':' {
            before.push(Seq::empty())
        } else {
            before.drop_last().push(before.last().push(s.last()))
        }
    }
}

/// The segments joined by colons.
pub open spec fn spelled(segments: Seq<Seq<char>>) -> Seq<char> {
    text::join(segments, seq![':'])
}

/// A text has at least one segment.
pub proof fn lemma_split_nonempty(s: Seq<char>)
    ensures
        split(s).len() >= 1,
    decreases s.len(),
{
    if s.len() > 0 {
        lemma_split_nonempty(s.drop_last());
    }
}

/// A name: one segment for a root name, more for a name nested under others.
#[derive(Debug)]
pub struct Name {
    segments: Vec<String>,
}

impl View for Name {
    type V = Seq<Seq<char>>;

    closed spec fn view(&self) -> Seq<Seq<char>> {
        text::texts(self.segments@)
    }
}

/// A copy of the first `n` strings.
pub fn dup_strings(v: &Vec<String>, n: usize) -> (r: Vec<String>)
    requires
        n <= v@.len(),
    ensures
        text::texts(r@) == text::texts(v@).take(n as int),
{
    let mut r: Vec<String> = Vec::new();
    let mut i: usize = 0;
    while i < n
        invariant
            i <= n <= v@.len(),
            r@.len() == i,
            forall|j: int| 0 <= j < i ==> #[trigger] r@[j]@ == v@[j]@,
        decreases n - i,
    {
        r.push(v[i].clone());
        i = i + 1;
    }
    assert(text::texts(r@) =~= text::texts(v@).take(n as int));
    r
}

impl Name {
    #[verifier::type_invariant]
    spec fn well_formed(self) -> bool {
        self.segments@.len() >= 1
    }

    /// The name with the given segments.
    pub fn from_segments(segments: Vec<String>) -> (r: Self)
        requires
            segments@.len() >= 1,
        ensures
            r@ == text::texts(segments@),
    {
        Name { segments }
    }

    /// Reads a name: its segments are what stands between the colons.
    pub fn parse(s: &str) -> (r: Self)
        ensures
            r@ == split(s@),
    {
        let mut segments: Vec<String> = vec![String::new()];
        let mut chars = s.chars();
        let ghost mut i: int = 0;
        proof {
            assert(s@.skip(0) =~= s@);
            assert(s@.take(0) =~= Seq::empty());
            assert(text::texts(segments@) =~= split(s@.take(0)));
        }
        loop
            invariant
                0 <= i <= s@.len(),
                segments@.len() >= 1,
                vstd::std_specs::iter::IteratorSpec::remaining(&chars) == s@.skip(i),
                text::texts(segments@) == split(s@.take(i)),
            decreases s@.len() - i,
        {
            let c = match chars.next() {
                Some(c) => c,
                None => {
                    assert(s@.take(i) =~= s@);
                    return Name { segments };
                },
            };
            let ghost before = text::texts(segments@);
            proof {
                assert(c == s@[i]);
                assert(s@.take(i + 1).drop_last() =~= s@.take(i));
                assert(s@.take(i + 1).last() == c);
                assert(s@.skip(i).drop_first() =~= s@.skip(i + 1));
            }
            if c == ':' {
                segments.push(String::new());
                assert(text::texts(segments@) =~= before.push(Seq::empty()));
            } else {
                let last: Option<String> = segments.pop();
                if let Some(mut seg) = last {
                    let ghost old_seg = seg@;
                    seg.push(c);
                    segments.push(seg);
                    assert(text::texts(segments@) =~= before.drop_last().push(old_seg.push(c)));
                }
            }
            proof {
                i = i + 1;
            }
        }
    }

    /// The name's text: its segments with colons between them.
    pub fn to_text(&self) -> (r: String)
        ensures
            r@ == spelled(self@),
    {
        proof {
            reveal_strlit(":");
            assert(":"@ =~= seq![':']);
        }
        text::join_strings(&self.segments, ":")
    }

    /// The segments.
    pub fn segments(&self) -> (r: &Vec<String>)
        ensures
            text::texts(r@) == self@,
            r@.len() >= 1,
    {
        proof {
            use_type_invariant(self);
        }
        &self.segments
    }

    /// The number of segments.
    pub fn depth(&self) -> (r: usize)
        ensures
            r == self@.len(),
            r >= 1,
    {
        proof {
            use_type_invariant(self);
        }
        self.segments.len()
    }

    /// Whether the name is nested under another.
    pub fn is_nested(&self) -> (r: bool)
        ensures
            r == (self@.len() > 1),
    {
        self.segments.len() > 1
    }

    /// The name that this one is nested under.
    pub fn parent(&self) -> (r: Option<Name>)
        ensures
            match r {
                Some(p) => self@.len() > 1 && p@ == self@.drop_last(),
                None => self@.len() <= 1,
            },
    {
        let n: usize = self.segments.len();
        if n > 1 {
            let segments = dup_strings(&self.segments, n - 1);
            proof {
                assert(text::texts(segments@).len() == segments@.len());
                assert(self@.take(n - 1) =~= self@.drop_last());
            }
            Some(Name { segments })
        } else {
            None
        }
    }

    /// Whether `other`'s segments are the first of this name's.
    pub fn starts_with(&self, other: &Name) -> (r: bool)
        ensures
            r == other@.is_prefix_of(self@),
    {
        if other.segments.len() > self.segments.len() {
            return false;
        }
        let mut i: usize = 0;
        while i < other.segments.len()
            invariant
                i <= other.segments@.len() <= self.segments@.len(),
                forall|j: int| 0 <= j < i ==> self@[j] == other@[j],
            decreases other.segments@.len() - i,
        {
            if self.segments[i] != other.segments[i] {
                assert(self@[i as int] != other@[i as int]);
                return false;
            }
            i = i + 1;
        }
        assert(other@ =~= self@.subrange(0, other@.len() as int));
        true
    }
}

impl Key for Name {
    open spec fn precedes(a: Seq<Seq<char>>, b: Seq<Seq<char>>) -> bool {
        order::lex_lt(a, b, text_lt())
    }

    proof fn lemma_irreflexive(a: Seq<Seq<char>>) {
        lemma_text_order();
        order::lemma_lex_irreflexive(a, text_lt());
    }

    proof fn lemma_transitive(a: Seq<Seq<char>>, b: Seq<Seq<char>>, c: Seq<Seq<char>>) {
        lemma_text_order();
        order::lemma_lex_transitive(a, b, c, text_lt());
    }

    proof fn lemma_total(a: Seq<Seq<char>>, b: Seq<Seq<char>>) {
        lemma_text_order();
        order::lemma_lex_total(a, b, text_lt());
    }

    fn before(&self, other: &Self) -> (r: bool) {
        proof {
            lemma_text_order();
        }
        let mut i: usize = 0;
        while i < self.segments.len() && i < other.segments.len()
            invariant
                order::strict_total(text_lt()),
                i <= self.segments@.len(),
                i <= other.segments@.len(),
                forall|j: int| 0 <= j < i ==> self@[j] == other@[j],
            decreases self.segments@.len() - i,
        {
            if self.segments[i] != other.segments[i] {
                proof {
                    order::lemma_lex_at(self@, other@, i as int, text_lt());
                }
                return str_before(self.segments[i].as_str(), other.segments[i].as_str());
            }
            i = i + 1;
        }
        proof {
            order::lemma_lex_at(self@, other@, i as int, text_lt());
        }
        i < other.segments.len()
    }

    fn same(&self, other: &Self) -> (r: bool) {
        if self.segments.len() != other.segments.len() {
            assert(self@.len() != other@.len());
            return false;
        }
        let mut i: usize = 0;
        while i < self.segments.len()
            invariant
                i <= self.segments@.len() == other.segments@.len(),
                forall|j: int| 0 <= j < i ==> self@[j] == other@[j],
            decreases self.segments@.len() - i,
        {
            if self.segments[i] != other.segments[i] {
                assert(self@[i as int] != other@[i as int]);
                return false;
            }
            i = i + 1;
        }
        assert(self@ =~= other@);
        true
    }

    fn dup(&self) -> (r: Self) {
        proof {
            use_type_invariant(self);
        }
        let n: usize = self.segments.len();
        let segments = dup_strings(&self.segments, n);
        proof {
            assert(text::texts(segments@).len() == segments@.len());
            assert(self@.take(n as int) =~= self@);
        }
        Name { segments }
    }
}

/// A name's text reads back as the name, if no segment holds a colon.
pub proof fn law_name_reads_back(segments: Seq<Seq<char>>)
    requires
        segments.len() >= 1,
        forall|i: int| 0 <= i < segments.len() ==> !(#[trigger] segments[i]).contains(':'),
    ensures
        split(spelled(segments)) == segments,
    decreases segments.len(),
{
    if segments.len() == 1 {
        lemma_split_plain(Seq::empty(), segments[0]);
        assert(Seq::<char>::empty() + segments[0] =~= segments[0]);
        assert(split(Seq::<char>::empty()) =~= seq![Seq::<char>::empty()]);
        assert(split(segments[0]) =~= segments);
    } else {
        let before = segments.drop_last();
        law_name_reads_back(before);
        let head = spelled(before) + seq![':'];
        assert(head.drop_last() =~= spelled(before));
        assert(split(head) == before.push(Seq::empty()));
        lemma_split_plain(head, segments.last());
        assert(before.push(Seq::<char>::empty()).drop_last() =~= before);
        assert(Seq::<char>::empty() + segments.last() =~= segments.last());
        assert(before.push(segments.last()) =~= segments);
    }
}

proof fn lemma_split_plain(head: Seq<char>, tail: Seq<char>)
    requires
        !tail.contains(':'),
    ensures
        split(head + tail) == split(head).drop_last().push(split(head).last() + tail),
    decreases tail.len(),
{
    lemma_split_nonempty(head);
    let s = split(head);
    if tail.len() == 0 {
        assert(head + tail =~= head);
        assert(s.last() + tail =~= s.last());
        assert(s.drop_last().push(s.last()) =~= s);
    } else {
        let t = tail.drop_last();
        assert forall|i: int| 0 <= i < t.len() implies t[i] != ':' by {
            assert(tail[i] == t[i]);
            assert(tail.contains(tail[i]));
        }
        assert(!t.contains(':'));
        lemma_split_plain(head, t);
        assert((head + tail).drop_last() =~= head + t);
        assert((head + tail).last() == tail.last());
        assert(tail.contains(tail.last())) by {
            assert(tail[tail.len() - 1] == tail.last());
        }
        let u = s.drop_last().push(s.last() + t);
        assert(u.drop_last() =~= s.drop_last());
        assert((s.last() + t).push(tail.last()) =~= s.last() + tail);
    }
}

/// Joining what a text was split into gives the text back.
pub proof fn law_split_joins_back(s: Seq<char>)
    ensures
        spelled(split(s)) == s,
    decreases s.len(),
{
    if s.len() > 0 {
        let t = s.drop_last();
        law_split_joins_back(t);
        lemma_split_nonempty(t);
        let before = split(t);
        if s.last() == ':' {
            let after = before.push(Seq::empty());
            assert(after.drop_last() =~= before);
            assert(spelled(after) =~= spelled(before) + seq![':'] + Seq::empty());
            assert(s =~= t.push(':'));
        } else {
            let after = before.drop_last().push(before.last().push(s.last()));
            assert(after.drop_last() =~= before.drop_last());
            if before.len() == 1 {
                assert(after.len() == 1);
                assert(spelled(after) =~= spelled(before).push(s.last()));
            } else {
                assert(spelled(after) =~= spelled(before).push(s.last()));
            }
            assert(s =~= t.push(s.last()));
        }
    } else {
        assert(spelled(split(s)) =~= s);
    }
}

} // verus!
