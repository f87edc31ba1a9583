//! Values of the control world, as far as the nodes' state needs them.

use vstd::prelude::*;
use vstd::string::*;

verus! {

/// A number: an integer, or the bits of a double.
#[derive(Clone, Copy, Debug, PartialEq, Eq, Hash, Structural)]
pub enum Number {
    Float(u64),
    Int(i64),
}

/// A value.
#[derive(Debug)]
pub enum Val {
    Num(Number),
    Bool(bool),
    Text(String),
    Symbol(String),
    List(Vec<Val>),
    Vector(Vec<Val>),
    /// Values by symbol.
    Record(Vec<(String, Val)>),
    /// A value that only the control world knows, by number.
    Opaque(usize),
}

/// What a [`Val`] denotes.
pub enum ValView {
    Num(Number),
    Bool(bool),
    Text(Seq<char>),
    Symbol(Seq<char>),
    List(Seq<ValView>),
    Vector(Seq<ValView>),
    Record(Seq<(Seq<char>, ValView)>),
    Opaque(usize),
}

/// What the first `n` of a list of values denote.
pub open spec fn val_list(v: Vec<Val>, n: nat) -> Seq<ValView>
    decreases v, n,
{
    if n == 0 || n > v@.len() {
        Seq::empty()
    } else {
        val_list(v, (n - 1) as nat).push(val_view(v@[n - 1]))
    }
}

/// What the first `n` of a list of keyed values denote.
pub open spec fn val_map(v: Vec<(String, Val)>, n: nat) -> Seq<(Seq<char>, ValView)>
    decreases v, n,
{
    if n == 0 || n > v@.len() {
        Seq::empty()
    } else {
        val_map(v, (n - 1) as nat).push((v@[n - 1].0@, val_view(v@[n - 1].1)))
    }
}

/// What a value denotes.
pub open spec fn val_view(v: Val) -> ValView
    decreases v, 0nat,
{
    match v {
        Val::Num(n) => ValView::Num(n),
        Val::Bool(b) => ValView::Bool(b),
        Val::Text(s) => ValView::Text(s@),
        Val::Symbol(s) => ValView::Symbol(s@),
        Val::List(l) => ValView::List(val_list(l, l@.len())),
        Val::Vector(l) => ValView::Vector(val_list(l, l@.len())),
        Val::Record(m) => ValView::Record(val_map(m, m@.len())),
        Val::Opaque(i) => ValView::Opaque(i),
    }
}

impl View for Val {
    type V = ValView;

    open spec fn view(&self) -> ValView {
        val_view(*self)
    }
}

/// The values of a list, each with what it denotes.
pub proof fn lemma_val_list(v: Vec<Val>, n: nat)
    requires
        n <= v@.len(),
    ensures
        val_list(v, n).len() == n,
        forall|i: int| 0 <= i < n ==> #[trigger] val_list(v, n)[i] == val_view(v@[i]),
    decreases n,
{
    if n > 0 {
        lemma_val_list(v, (n - 1) as nat);
    }
}

/// The entries of a map, each with what it denotes.
pub proof fn lemma_val_map(v: Vec<(String, Val)>, n: nat)
    requires
        n <= v@.len(),
    ensures
        val_map(v, n).len() == n,
        forall|i: int|
            0 <= i < n ==> #[trigger] val_map(v, n)[i] == (v@[i].0@, val_view(v@[i].1)),
    decreases n,
{
    if n > 0 {
        lemma_val_map(v, (n - 1) as nat);
    }
}

/// A copy of a value.
pub fn dup_val(v: &Val) -> (r: Val)
    ensures
        r@ == v@,
    decreases *v, 0nat,
{
    match v {
        Val::Num(n) => Val::Num(*n),
        Val::Bool(b) => Val::Bool(*b),
        Val::Text(s) => Val::Text(s.clone()),
        Val::Symbol(s) => Val::Symbol(s.clone()),
        Val::List(l) => Val::List(dup_vals(l)),
        Val::Vector(l) => Val::Vector(dup_vals(l)),
        Val::Record(m) => Val::Record(dup_entries(m)),
        Val::Opaque(i) => Val::Opaque(*i),
    }
}

/// A copy of a list of values.
pub fn dup_vals(v: &Vec<Val>) -> (r: Vec<Val>)
    ensures
        val_list(r, r@.len()) == val_list(*v, v@.len()),
    decreases *v, 1nat,
{
    let mut r: Vec<Val> = Vec::new();
    let mut i: usize = 0;
    while i < v.len()
        invariant
            i <= v@.len(),
            r@.len() == i,
            forall|j: int| 0 <= j < i ==> val_view(#[trigger] r@[j]) == val_view(v@[j]),
        decreases v@.len() - i,
    {
        let x = dup_val(&v[i]);
        r.push(x);
        i = i + 1;
    }
    proof {
        lemma_val_list(r, r@.len());
        lemma_val_list(*v, v@.len());
        assert(val_list(r, r@.len()) =~= val_list(*v, v@.len()));
    }
    r
}

fn dup_entries(v: &Vec<(String, Val)>) -> (r: Vec<(String, Val)>)
    ensures
        val_map(r, r@.len()) == val_map(*v, v@.len()),
    decreases *v, 1nat,
{
    let mut r: Vec<(String, Val)> = Vec::new();
    let mut i: usize = 0;
    while i < v.len()
        invariant
            i <= v@.len(),
            r@.len() == i,
            forall|j: int|
                0 <= j < i ==> (#[trigger] r@[j]).0@ == v@[j].0@ && val_view(r@[j].1) == val_view(
                    v@[j].1,
                ),
        decreases v@.len() - i,
    {
        let x = dup_val(&v[i].1);
        r.push((v[i].0.clone(), x));
        i = i + 1;
    }
    proof {
        lemma_val_map(r, r@.len());
        lemma_val_map(*v, v@.len());
        assert(val_map(r, r@.len()) =~= val_map(*v, v@.len()));
    }
    r
}

/// The value under a symbol, the first if there are several.
pub open spec fn found(m: Seq<(Seq<char>, ValView)>, key: Seq<char>) -> Option<ValView>
    decreases m.len(),
{
    if m.len() == 0 {
        None
    } else if m[0].0 == key {
        Some(m[0].1)
    } else {
        found(m.skip(1), key)
    }
}

/// The entries with `v` under a symbol, in place of what was there.
pub open spec fn updated(m: Seq<(Seq<char>, ValView)>, key: Seq<char>, v: ValView) -> Seq<
    (Seq<char>, ValView),
>
    decreases m.len(),
{
    if m.len() == 0 {
        seq![(key, v)]
    } else if m[0].0 == key {
        seq![(key, v)] + m.skip(1)
    } else {
        seq![m[0]] + updated(m.skip(1), key, v)
    }
}

proof fn lemma_found_at(m: Seq<(Seq<char>, ValView)>, key: Seq<char>, i: int)
    requires
        0 <= i < m.len(),
        m[i].0 == key,
        forall|j: int| 0 <= j < i ==> (#[trigger] m[j]).0 != key,
    ensures
        found(m, key) == Some(m[i].1),
    decreases i,
{
    if i > 0 {
        let t = m.skip(1);
        assert(m[0].0 != key);
        assert forall|j: int| 0 <= j < i - 1 implies (#[trigger] t[j]).0 != key by {
            assert(t[j] == m[j + 1]);
        }
        lemma_found_at(t, key, i - 1);
    }
}

proof fn lemma_not_found(m: Seq<(Seq<char>, ValView)>, key: Seq<char>)
    requires
        forall|j: int| 0 <= j < m.len() ==> (#[trigger] m[j]).0 != key,
    ensures
        found(m, key) is None,
    decreases m.len(),
{
    if m.len() > 0 {
        let t = m.skip(1);
        assert(m[0].0 != key);
        assert forall|j: int| 0 <= j < t.len() implies (#[trigger] t[j]).0 != key by {
            assert(t[j] == m[j + 1]);
        }
        lemma_not_found(t, key);
    }
}

proof fn lemma_updated_at(m: Seq<(Seq<char>, ValView)>, key: Seq<char>, v: ValView, i: int)
    requires
        0 <= i < m.len(),
        m[i].0 == key,
        forall|j: int| 0 <= j < i ==> (#[trigger] m[j]).0 != key,
    ensures
        updated(m, key, v) == m.update(i, (key, v)),
    decreases i,
{
    if i == 0 {
        assert(updated(m, key, v) =~= m.update(0, (key, v)));
    } else {
        let t = m.skip(1);
        assert(m[0].0 != key);
        assert forall|j: int| 0 <= j < i - 1 implies (#[trigger] t[j]).0 != key by {
            assert(t[j] == m[j + 1]);
        }
        lemma_updated_at(t, key, v, i - 1);
        assert(updated(m, key, v) =~= m.update(i, (key, v)));
    }
}

proof fn lemma_updated_new(m: Seq<(Seq<char>, ValView)>, key: Seq<char>, v: ValView)
    requires
        forall|j: int| 0 <= j < m.len() ==> (#[trigger] m[j]).0 != key,
    ensures
        updated(m, key, v) == m.push((key, v)),
    decreases m.len(),
{
    if m.len() > 0 {
        let t = m.skip(1);
        assert(m[0].0 != key);
        assert forall|j: int| 0 <= j < t.len() implies (#[trigger] t[j]).0 != key by {
            assert(t[j] == m[j + 1]);
        }
        lemma_updated_new(t, key, v);
    }
    assert(updated(m, key, v) =~= m.push((key, v)));
}

/// What is put under a symbol is found there, and nothing else changes.
pub proof fn lemma_found_updated(
    m: Seq<(Seq<char>, ValView)>,
    key: Seq<char>,
    v: ValView,
    other: Seq<char>,
)
    ensures
        found(updated(m, key, v), other) == (if other == key {
            Some(v)
        } else {
            found(m, other)
        }),
    decreases m.len(),
{
    let u = updated(m, key, v);
    if m.len() == 0 {
        assert(u.skip(1) =~= Seq::empty());
        assert(found(u.skip(1), other) is None);
    } else if m[0].0 == key {
        assert(u.skip(1) =~= m.skip(1));
    } else {
        lemma_found_updated(m.skip(1), key, v, other);
        assert(u.skip(1) =~= updated(m.skip(1), key, v));
    }
}

/// The index of the first entry under a symbol.
fn position(m: &Vec<(String, Val)>, key: &str) -> (r: Option<usize>)
    ensures
        match r {
            Some(i) => i < m@.len() && m@[i as int].0@ == key@ && forall|j: int|
                0 <= j < i ==> (#[trigger] m@[j]).0@ != key@,
            None => forall|j: int| 0 <= j < m@.len() ==> (#[trigger] m@[j]).0@ != key@,
        },
{
    let k = String::from_str(key);
    let mut i: usize = 0;
    while i < m.len()
        invariant
            k@ == key@,
            i <= m@.len(),
            forall|j: int| 0 <= j < i ==> (#[trigger] m@[j]).0@ != key@,
        decreases m@.len() - i,
    {
        if m[i].0 == k {
            return Some(i);
        }
        i = i + 1;
    }
    None
}

/// The value under a symbol.
pub fn lookup<'a>(m: &'a Vec<(String, Val)>, key: &str) -> (r: Option<&'a Val>)
    ensures
        match r {
            Some(v) => found(val_map(*m, m@.len()), key@) == Some(v@),
            None => found(val_map(*m, m@.len()), key@) is None,
        },
{
    proof {
        lemma_val_map(*m, m@.len());
    }
    let ghost e = val_map(*m, m@.len());
    match position(m, key) {
        Some(i) => {
            proof {
                assert forall|j: int| 0 <= j < i implies (#[trigger] e[j]).0 != key@ by {
                    assert(m@[j].0@ != key@);
                }
                lemma_found_at(e, key@, i as int);
            }
            Some(&m[i].1)
        },
        None => {
            proof {
                assert forall|j: int| 0 <= j < e.len() implies (#[trigger] e[j]).0 != key@ by {
                    assert(m@[j].0@ != key@);
                }
                lemma_not_found(e, key@);
            }
            None
        },
    }
}

/// A copy of the entries with `v` under a symbol.
pub fn with_entry(m: &Vec<(String, Val)>, key: &str, v: Val) -> (r: Vec<(String, Val)>)
    ensures
        val_map(r, r@.len()) == updated(val_map(*m, m@.len()), key@, v@),
{
    let ghost e = val_map(*m, m@.len());
    let ghost vv = v@;
    proof {
        lemma_val_map(*m, m@.len());
    }
    let mut r = dup_entries(m);
    proof {
        lemma_val_map(r, r@.len());
    }
    match position(m, key) {
        Some(i) => {
            proof {
                assert forall|j: int| 0 <= j < i implies (#[trigger] e[j]).0 != key@ by {
                    assert(m@[j].0@ != key@);
                }
                lemma_updated_at(e, key@, vv, i as int);
            }
            let ghost r0 = r@;
            assert forall|j: int| 0 <= j < r0.len() implies e[j] == (
                (#[trigger] r0[j]).0@,
                val_view(r0[j].1),
            ) by {
                assert(val_map(r, r@.len())[j] == e[j]);
            }
            r.set(i, (String::from_str(key), v));
            proof {
                lemma_val_map(r, r@.len());
                assert forall|j: int| 0 <= j < e.len() implies val_map(r, r@.len())[j] == e.update(
                    i as int,
                    (key@, vv),
                )[j] by {
                    if j != i {
                        assert(r@[j] == r0[j]);
                    }
                }
                assert(val_map(r, r@.len()) =~= e.update(i as int, (key@, vv)));
            }
        },
        None => {
            proof {
                assert forall|j: int| 0 <= j < e.len() implies (#[trigger] e[j]).0 != key@ by {
                    assert(m@[j].0@ != key@);
                }
                lemma_updated_new(e, key@, vv);
            }
            let ghost r0 = r@;
            assert forall|j: int| 0 <= j < r0.len() implies e[j] == (
                (#[trigger] r0[j]).0@,
                val_view(r0[j].1),
            ) by {
                assert(val_map(r, r@.len())[j] == e[j]);
            }
            r.push((String::from_str(key), v));
            proof {
                lemma_val_map(r, r@.len());
                assert forall|j: int| 0 <= j < e.len() implies val_map(r, r@.len())[j] == e[j] by {
                    assert(r@[j] == r0[j]);
                }
                assert(val_map(r, r@.len()) =~= e.push((key@, vv)));
            }
        },
    }
    r
}

/// The number that a value is, if it is one.
pub open spec fn number_of(v: ValView) -> Option<Number> {
    match v {
        ValView::Num(n) => Some(n),
        _ => None,
    }
}

/// The number that a value is, if it is one.
pub fn number(v: &Val) -> (r: Option<Number>)
    ensures
        r == number_of(v@),
{
    match v {
        Val::Num(n) => Some(*n),
        _ => None,
    }
}

} // verus!
