//! Signatures: hashes of what a definition or a region is made of.

use crate::dsp::{DefView, InputRef, Param, ParamView, Rate, SynthDef, UnitSpec, UnitView};
use crate::text;
use std::hash::{DefaultHasher, Hasher};
use vstd::prelude::*;
use vstd::std_specs::hash::DefaultHasherAdditionalSpecFns;
use vstd::string::*;
use vstd::utf8::*;

verus! {

/// What the default hasher of std, with its fixed keys, makes of the bytes of a text.
pub open spec fn text_hash(s: Seq<char>) -> u64 {
    DefaultHasher::spec_finish(seq![encode_utf8(s)])
}

/// What the default hasher of std makes of the bytes of a text.
pub fn hash_text(s: &str) -> (r: u64)
    ensures
        r == text_hash(s@),
{
    let mut hasher = DefaultHasher::new();
    hasher.write(s.as_bytes());
    assert(hasher@ =~= seq![encode_utf8(s@)]);
    hasher.finish()
}

/// A number, closed by a semicolon.
pub open spec fn num(n: nat) -> Seq<char> {
    text::dec(n) + seq![';']
}

/// A text behind its length and a colon.
pub open spec fn field(s: Seq<char>) -> Seq<char> {
    text::dec(s.len()) + seq![':'] + s
}

/// The texts of the elements, one after the other.
pub open spec fn cat<T>(s: Seq<T>, f: spec_fn(T) -> Seq<char>) -> Seq<char>
    decreases s.len(),
{
    if s.len() == 0 {
        Seq::empty()
    } else {
        cat(s.drop_last(), f) + f(s.last())
    }
}

/// A list of texts behind its length.
pub open spec fn list<T>(s: Seq<T>, f: spec_fn(T) -> Seq<char>) -> Seq<char> {
    num(s.len()) + cat(s, f)
}

/// The text of a path.
pub open spec fn path_text(path: Seq<usize>) -> Seq<char> {
    list(path, |i: usize| num(i as nat))
}

/// A rate's number.
pub open spec fn rate_number(rate: Rate) -> nat {
    match rate {
        Rate::Scalar => 0,
        Rate::Control => 1,
        Rate::Audio => 2,
        Rate::Demand => 3,
    }
}

/// The text of a unit input.
pub open spec fn input_text(i: InputRef) -> Seq<char> {
    match i {
        InputRef::Constant(c) => seq!['c'] + num(c as nat),
        InputRef::Param(p) => seq!['p'] + num(p as nat),
        InputRef::Unit { unit, output } => seq!['u'] + num(unit as nat) + num(output as nat),
    }
}

/// The text of a unit.
pub open spec fn unit_text(u: UnitView) -> Seq<char> {
    field(u.name) + num(rate_number(u.rate)) + num(u.num_outputs as nat) + num(
        (u.special_index + 32768) as nat,
    ) + list(u.inputs, |i: InputRef| input_text(i))
}

/// The text of a param's structure: all but its default.
pub open spec fn param_text(p: ParamView) -> Seq<char> {
    field(p.name) + num(rate_number(p.rate)) + trig_text(p.is_trig) + lag_text(p.lag)
}

/// The text of a definition's structure.
pub open spec fn def_text(d: DefView) -> Seq<char> {
    list(d.units, |u: UnitView| unit_text(u)) + list(d.params, |p: ParamView| param_text(p))
}

/// Appends a number.
pub fn put_num(s: &mut String, n: usize)
    ensures
        final(s)@ == old(s)@ + num(n as nat),
{
    s.append(text::dec_string(n).as_str());
    s.push(';');
    assert(s@ =~= old(s)@ + num(n as nat));
}

/// Appends a text behind its length.
pub fn put_field(s: &mut String, t: &str)
    ensures
        final(s)@ == old(s)@ + field(t@),
{
    s.append(text::dec_string(t.unicode_len()).as_str());
    s.push(':');
    s.append(t);
    assert(s@ =~= old(s)@ + field(t@));
}

/// Appends a path.
pub fn put_path(s: &mut String, path: &Vec<usize>)
    ensures
        final(s)@ == old(s)@ + path_text(path@),
{
    let ghost f = |i: usize| num(i as nat);
    put_num(s, path.len());
    let ghost start = s@;
    let mut i: usize = 0;
    assert(s@ =~= start + cat(path@.take(0), f));
    while i < path.len()
        invariant
            i <= path@.len(),
            f == |i: usize| num(i as nat),
            s@ == start + cat(path@.take(i as int), f),
        decreases path@.len() - i,
    {
        put_num(s, path[i]);
        proof {
            let t = path@.take(i + 1);
            assert(t.drop_last() =~= path@.take(i as int));
            assert(t.last() == path@[i as int]);
            assert(s@ =~= start + cat(t, f));
        }
        i = i + 1;
    }
    assert(path@.take(i as int) =~= path@);
    assert(s@ =~= old(s)@ + path_text(path@));
}

/// A rate's number.
pub fn rate_tag(rate: Rate) -> (r: u8)
    ensures
        r == rate_number(rate),
{
    match rate {
        Rate::Scalar => 0,
        Rate::Control => 1,
        Rate::Audio => 2,
        Rate::Demand => 3,
    }
}

fn put_input(s: &mut String, i: InputRef)
    ensures
        final(s)@ == old(s)@ + input_text(i),
{
    match i {
        InputRef::Constant(c) => {
            s.push('c');
            put_num(s, c as usize);
        },
        InputRef::Param(p) => {
            s.push('p');
            put_num(s, p);
        },
        InputRef::Unit { unit, output } => {
            s.push('u');
            put_num(s, unit);
            put_num(s, output);
        },
    }
    assert(s@ =~= old(s)@ + input_text(i));
}

fn put_unit(s: &mut String, u: &UnitSpec)
    ensures
        final(s)@ == old(s)@ + unit_text(u@),
{
    let ghost f = |i: InputRef| input_text(i);
    put_field(s, u.name.as_str());
    put_num(s, rate_tag(u.rate) as usize);
    put_num(s, u.num_outputs);
    put_num(s, (u.special_index as i32 + 32768) as usize);
    put_num(s, u.inputs.len());
    let ghost start = s@;
    let mut i: usize = 0;
    assert(s@ =~= start + cat(u.inputs@.take(0), f));
    while i < u.inputs.len()
        invariant
            i <= u.inputs@.len(),
            f == |i: InputRef| input_text(i),
            s@ == start + cat(u.inputs@.take(i as int), f),
        decreases u.inputs@.len() - i,
    {
        put_input(s, u.inputs[i]);
        proof {
            let t = u.inputs@.take(i + 1);
            assert(t.drop_last() =~= u.inputs@.take(i as int));
            assert(t.last() == u.inputs@[i as int]);
            assert(s@ =~= start + cat(t, f));
        }
        i = i + 1;
    }
    assert(u.inputs@.take(i as int) =~= u.inputs@);
    assert(s@ =~= old(s)@ + unit_text(u@));
}

fn put_param(s: &mut String, p: &Param)
    ensures
        final(s)@ == old(s)@ + param_text(p@),
{
    put_field(s, p.name.as_str());
    put_num(s, rate_tag(p.rate) as usize);
    s.push(
        if p.is_trig {
            't'
        } else {
            'f'
        },
    );
    match p.lag {
        Some(l) => {
            s.push('l');
            put_num(s, l as usize);
        },
        None => {
            s.push('-');
        },
    }
    assert(s@ =~= old(s)@ + param_text(p@));
}

fn put_def(s: &mut String, d: &SynthDef)
    ensures
        final(s)@ == old(s)@ + def_text(d@),
{
    let ghost f = |u: UnitView| unit_text(u);
    let ghost h = |p: ParamView| param_text(p);
    put_num(s, d.units.len());
    let ghost start = s@;
    let mut i: usize = 0;
    assert(s@ =~= start + cat(d@.units.take(0), f));
    while i < d.units.len()
        invariant
            i <= d.units@.len(),
            f == |u: UnitView| unit_text(u),
            s@ == start + cat(d@.units.take(i as int), f),
        decreases d.units@.len() - i,
    {
        put_unit(s, &d.units[i]);
        proof {
            let t = d@.units.take(i + 1);
            assert(t.drop_last() =~= d@.units.take(i as int));
            assert(t.last() == d.units@[i as int]@);
            assert(s@ =~= start + cat(t, f));
        }
        i = i + 1;
    }
    assert(d@.units.take(i as int) =~= d@.units);
    put_num(s, d.params.len());
    let ghost mid = s@;
    let mut k: usize = 0;
    assert(s@ =~= mid + cat(d@.params.take(0), h));
    while k < d.params.len()
        invariant
            k <= d.params@.len(),
            h == |p: ParamView| param_text(p),
            s@ == mid + cat(d@.params.take(k as int), h),
        decreases d.params@.len() - k,
    {
        put_param(s, &d.params[k]);
        proof {
            let t = d@.params.take(k + 1);
            assert(t.drop_last() =~= d@.params.take(k as int));
            assert(t.last() == d.params@[k as int]@);
            assert(s@ =~= mid + cat(t, h));
        }
        k = k + 1;
    }
    assert(d@.params.take(k as int) =~= d@.params);
    assert(s@ =~= old(s)@ + def_text(d@));
}

/// A hash of a definition's structure: everything but the params' values, which
/// can be set on a running synth.
pub fn structural_sig(d: &SynthDef) -> (r: u64)
    ensures
        r == text_hash(def_text(d@)),
{
    let mut s = String::new();
    put_def(&mut s, d);
    assert(s@ =~= def_text(d@));
    hash_text(s.as_str())
}

/// The content-addressed name of a definition with the given signature.
pub fn content_def_name(sig: u64) -> (r: String)
    ensures
        r@ == "gantz-def-"@ + text::hex(sig as nat, 16),
{
    let mut s = String::from_str("gantz-def-");
    s.append(text::hex16(sig).as_str());
    s
}

proof fn lemma_split(p: Seq<char>, q: Seq<char>, x: Seq<char>, y: Seq<char>, c: char)
    requires
        p + seq![c] + x == q + seq![c] + y,
        !p.contains(c),
        !q.contains(c),
    ensures
        p == q,
        x == y,
{
    let s = p + seq![c] + x;
    let t = q + seq![c] + y;
    if p.len() < q.len() {
        assert(s[p.len() as int] == c);
        assert(t[p.len() as int] == q[p.len() as int]);
        assert(q.contains(c));
    } else if q.len() < p.len() {
        assert(t[q.len() as int] == c);
        assert(s[q.len() as int] == p[q.len() as int]);
        assert(p.contains(c));
    } else {
        assert(s.len() == p.len() + 1 + x.len() && t.len() == q.len() + 1 + y.len());
        assert forall|i: int| 0 <= i < p.len() implies p[i] == q[i] by {
            assert(s[i] == p[i] && t[i] == q[i]);
        }
        assert(p =~= q);
        assert forall|i: int| 0 <= i < x.len() implies x[i] == y[i] by {
            assert(s[p.len() + 1 + i] == x[i] && t[p.len() + 1 + i] == y[i]);
        }
        assert(x =~= y);
    }
}

/// What follows a number can be told from the number.
pub proof fn lemma_num(a: nat, b: nat, x: Seq<char>, y: Seq<char>)
    requires
        num(a) + x == num(b) + y,
    ensures
        a == b,
        x == y,
{
    text::lemma_dec_digits(a);
    text::lemma_dec_digits(b);
    lemma_split(text::dec(a), text::dec(b), x, y, ';');
    text::lemma_dec_injective(a, b);
}

/// What follows a field can be told from the field.
pub proof fn lemma_field(a: Seq<char>, b: Seq<char>, x: Seq<char>, y: Seq<char>)
    requires
        field(a) + x == field(b) + y,
    ensures
        a == b,
        x == y,
{
    text::lemma_dec_digits(a.len());
    text::lemma_dec_digits(b.len());
    assert(field(a) + x =~= text::dec(a.len()) + seq![':'] + (a + x));
    assert(field(b) + y =~= text::dec(b.len()) + seq![':'] + (b + y));
    lemma_split(text::dec(a.len()), text::dec(b.len()), a + x, b + y, ':');
    text::lemma_dec_injective(a.len(), b.len());
    lemma_halves(a, b, x, y);
}

proof fn lemma_halves(a: Seq<char>, b: Seq<char>, x: Seq<char>, y: Seq<char>)
    requires
        a + x == b + y,
        a.len() == b.len(),
    ensures
        a == b,
        x == y,
{
    let s = a + x;
    let t = b + y;
    assert(s.len() == a.len() + x.len() && t.len() == b.len() + y.len());
    assert forall|i: int| 0 <= i < a.len() implies a[i] == b[i] by {
        assert(s[i] == a[i] && t[i] == b[i]);
    }
    assert forall|i: int| 0 <= i < x.len() implies x[i] == y[i] by {
        assert(s[a.len() + i] == x[i] && t[a.len() + i] == y[i]);
    }
    assert(a =~= b);
    assert(x =~= y);
}

/// Whether the texts that `f` gives to elements that `same` tells apart differ,
/// whatever follows them.
pub open spec fn tells<T>(f: spec_fn(T) -> Seq<char>, same: spec_fn(T, T) -> bool) -> bool {
    forall|a: T, b: T, x: Seq<char>, y: Seq<char>| #[trigger]
        (f(a) + x) == #[trigger] (f(b) + y) ==> same(a, b) && x == y
}

proof fn lemma_cat_first<T>(s: Seq<T>, f: spec_fn(T) -> Seq<char>)
    requires
        s.len() > 0,
    ensures
        cat(s, f) == f(s[0]) + cat(s.drop_first(), f),
    decreases s.len(),
{
    if s.len() == 1 {
        assert(s.drop_last() =~= Seq::empty());
        assert(s.drop_first() =~= Seq::empty());
        assert(cat(s, f) =~= f(s[0]) + cat(s.drop_first(), f));
    } else {
        lemma_cat_first(s.drop_last(), f);
        assert(s.drop_last().drop_first() =~= s.drop_first().drop_last());
        assert(s.drop_last()[0] == s[0]);
        assert(s.drop_first().last() == s.last());
        assert(cat(s, f) =~= f(s[0]) + cat(s.drop_first(), f));
    }
}

proof fn lemma_cat<T>(
    s: Seq<T>,
    t: Seq<T>,
    x: Seq<char>,
    y: Seq<char>,
    f: spec_fn(T) -> Seq<char>,
    same: spec_fn(T, T) -> bool,
)
    requires
        tells(f, same),
        s.len() == t.len(),
        cat(s, f) + x == cat(t, f) + y,
    ensures
        forall|i: int| 0 <= i < s.len() ==> same(#[trigger] s[i], t[i]),
        x == y,
    decreases s.len(),
{
    if s.len() > 0 {
        lemma_cat_first(s, f);
        lemma_cat_first(t, f);
        let s1 = s.drop_first();
        let t1 = t.drop_first();
        assert(cat(s, f) + x =~= f(s[0]) + (cat(s1, f) + x));
        assert(cat(t, f) + y =~= f(t[0]) + (cat(t1, f) + y));
        assert(same(s[0], t[0]) && cat(s1, f) + x == cat(t1, f) + y);
        lemma_cat(s1, t1, x, y, f, same);
        assert forall|i: int| 0 <= i < s.len() implies same(#[trigger] s[i], t[i]) by {
            if i > 0 {
                assert(same(s1[i - 1], t1[i - 1]));
            }
        }
    } else {
        assert(cat(s, f) + x =~= x);
        assert(cat(t, f) + y =~= y);
    }
}

proof fn lemma_list<T>(
    s: Seq<T>,
    t: Seq<T>,
    x: Seq<char>,
    y: Seq<char>,
    f: spec_fn(T) -> Seq<char>,
    same: spec_fn(T, T) -> bool,
)
    requires
        tells(f, same),
        list(s, f) + x == list(t, f) + y,
    ensures
        s.len() == t.len(),
        forall|i: int| 0 <= i < s.len() ==> same(#[trigger] s[i], t[i]),
        x == y,
{
    assert(list(s, f) + x =~= num(s.len()) + (cat(s, f) + x));
    assert(list(t, f) + y =~= num(t.len()) + (cat(t, f) + y));
    lemma_num(s.len(), t.len(), cat(s, f) + x, cat(t, f) + y);
    lemma_cat(s, t, x, y, f, same);
}

proof fn lemma_input(a: InputRef, b: InputRef, x: Seq<char>, y: Seq<char>)
    requires
        input_text(a) + x == input_text(b) + y,
    ensures
        a == b,
        x == y,
{
    let s = input_text(a) + x;
    let t = input_text(b) + y;
    assert(s[0] == t[0]);
    match (a, b) {
        (InputRef::Constant(c), InputRef::Constant(d)) => {
            assert(s =~= seq!['c'] + (num(c as nat) + x));
            assert(t =~= seq!['c'] + (num(d as nat) + y));
            lemma_halves(seq!['c'], seq!['c'], num(c as nat) + x, num(d as nat) + y);
            lemma_num(c as nat, d as nat, x, y);
        },
        (InputRef::Param(p), InputRef::Param(q)) => {
            assert(s =~= seq!['p'] + (num(p as nat) + x));
            assert(t =~= seq!['p'] + (num(q as nat) + y));
            lemma_halves(seq!['p'], seq!['p'], num(p as nat) + x, num(q as nat) + y);
            lemma_num(p as nat, q as nat, x, y);
        },
        (InputRef::Unit { unit: u, output: o }, InputRef::Unit { unit: v, output: w }) => {
            assert(s =~= seq!['u'] + (num(u as nat) + (num(o as nat) + x)));
            assert(t =~= seq!['u'] + (num(v as nat) + (num(w as nat) + y)));
            lemma_halves(
                seq!['u'],
                seq!['u'],
                num(u as nat) + (num(o as nat) + x),
                num(v as nat) + (num(w as nat) + y),
            );
            lemma_num(u as nat, v as nat, num(o as nat) + x, num(w as nat) + y);
            lemma_num(o as nat, w as nat, x, y);
        },
        _ => {},
    }
}

proof fn lemma_assoc(a: Seq<char>, b: Seq<char>, c: Seq<char>)
    ensures
        (a + b) + c == a + (b + c),
{
    assert((a + b) + c =~= a + (b + c));
}

proof fn lemma_inputs_tell()
    ensures
        tells(|i: InputRef| input_text(i), |i: InputRef, j: InputRef| i == j),
{
    let f = |i: InputRef| input_text(i);
    let same = |i: InputRef, j: InputRef| i == j;
    assert forall|i: InputRef, j: InputRef, x: Seq<char>, y: Seq<char>| #[trigger]
        (f(i) + x) == #[trigger] (f(j) + y) implies same(i, j) && x == y by {
        lemma_input(i, j, x, y);
    }
}

/// The text of a unit and what follows it, the parts taken from the right.
proof fn lemma_unit_text(a: UnitView, x: Seq<char>)
    ensures
        unit_text(a) + x == field(a.name) + (num(rate_number(a.rate)) + (num(a.num_outputs as nat)
            + (num((a.special_index + 32768) as nat) + (list(
            a.inputs,
            |i: InputRef| input_text(i),
        ) + x)))),
{
    let f = field(a.name);
    let r = num(rate_number(a.rate));
    let o = num(a.num_outputs as nat);
    let s = num((a.special_index + 32768) as nat);
    let l = list(a.inputs, |i: InputRef| input_text(i));
    lemma_assoc(f + r + o + s, l, x);
    lemma_assoc(f + r + o, s, l + x);
    lemma_assoc(f + r, o, s + (l + x));
    lemma_assoc(f, r, o + (s + (l + x)));
}

proof fn lemma_unit(a: UnitView, b: UnitView, x: Seq<char>, y: Seq<char>)
    requires
        unit_text(a) + x == unit_text(b) + y,
    ensures
        a == b,
        x == y,
{
    let f = |i: InputRef| input_text(i);
    let same = |i: InputRef, j: InputRef| i == j;
    let sa = (a.special_index + 32768) as nat;
    let sb = (b.special_index + 32768) as nat;
    let a4 = list(a.inputs, f) + x;
    let b4 = list(b.inputs, f) + y;
    let a3 = num(sa) + a4;
    let b3 = num(sb) + b4;
    let a2 = num(a.num_outputs as nat) + a3;
    let b2 = num(b.num_outputs as nat) + b3;
    lemma_unit_text(a, x);
    lemma_unit_text(b, y);
    lemma_field(a.name, b.name, num(rate_number(a.rate)) + a2, num(rate_number(b.rate)) + b2);
    lemma_num(rate_number(a.rate), rate_number(b.rate), a2, b2);
    lemma_num(a.num_outputs as nat, b.num_outputs as nat, a3, b3);
    lemma_num(sa, sb, a4, b4);
    lemma_inputs_tell();
    lemma_list(a.inputs, b.inputs, x, y, f, same);
    assert forall|i: int| 0 <= i < a.inputs.len() implies a.inputs[i] == b.inputs[i] by {
        assert(same(a.inputs[i], b.inputs[i]));
    }
    assert(a.inputs =~= b.inputs);
}

/// Whether two params differ at most in their default.
pub open spec fn same_structure(p: ParamView, q: ParamView) -> bool {
    p.name == q.name && p.rate == q.rate && p.is_trig == q.is_trig && p.lag == q.lag
}

/// The text of a param's lag.
pub open spec fn lag_text(lag: Option<u32>) -> Seq<char> {
    match lag {
        Some(l) => seq!['l'] + num(l as nat),
        None => seq!['-'],
    }
}

/// The text of a param's trigger flag.
pub open spec fn trig_text(is_trig: bool) -> Seq<char> {
    seq![
        if is_trig {
            't'
        } else {
            'f'
        },
    ]
}

proof fn lemma_lag(a: Option<u32>, b: Option<u32>, x: Seq<char>, y: Seq<char>)
    requires
        lag_text(a) + x == lag_text(b) + y,
    ensures
        a == b,
        x == y,
{
    assert((lag_text(a) + x)[0] == lag_text(a)[0]);
    assert((lag_text(b) + y)[0] == lag_text(b)[0]);
    assert(lag_text(a)[0] == if a is Some {
        'l'
    } else {
        '-'
    });
    assert(lag_text(b)[0] == if b is Some {
        'l'
    } else {
        '-'
    });
    match (a, b) {
        (Some(l), Some(m)) => {
            lemma_assoc(seq!['l'], num(l as nat), x);
            lemma_assoc(seq!['l'], num(m as nat), y);
            lemma_halves(seq!['l'], seq!['l'], num(l as nat) + x, num(m as nat) + y);
            lemma_num(l as nat, m as nat, x, y);
        },
        (None, None) => {
            lemma_halves(seq!['-'], seq!['-'], x, y);
        },
        _ => {},
    }
}

/// The text of a param and what follows it, the parts taken from the right.
proof fn lemma_param_text(a: ParamView, x: Seq<char>)
    ensures
        param_text(a) + x == field(a.name) + (num(rate_number(a.rate)) + (trig_text(a.is_trig) + (
        lag_text(a.lag) + x))),
{
    let f = field(a.name);
    let r = num(rate_number(a.rate));
    let t = trig_text(a.is_trig);
    let l = lag_text(a.lag);
    lemma_assoc(f + r + t, l, x);
    lemma_assoc(f + r, t, l + x);
    lemma_assoc(f, r, t + (l + x));
}

proof fn lemma_param(a: ParamView, b: ParamView, x: Seq<char>, y: Seq<char>)
    requires
        param_text(a) + x == param_text(b) + y,
    ensures
        same_structure(a, b),
        x == y,
{
    let a3 = lag_text(a.lag) + x;
    let b3 = lag_text(b.lag) + y;
    let a2 = trig_text(a.is_trig) + a3;
    let b2 = trig_text(b.is_trig) + b3;
    lemma_param_text(a, x);
    lemma_param_text(b, y);
    lemma_field(a.name, b.name, num(rate_number(a.rate)) + a2, num(rate_number(b.rate)) + b2);
    lemma_num(rate_number(a.rate), rate_number(b.rate), a2, b2);
    lemma_halves(trig_text(a.is_trig), trig_text(b.is_trig), a3, b3);
    assert(trig_text(a.is_trig)[0] == trig_text(b.is_trig)[0]);
    lemma_lag(a.lag, b.lag, x, y);
}

/// The text that a definition's signature hashes is the same for two
/// definitions exactly where they differ in nothing but their names and the
/// defaults of their params. So a change of a param's value keeps the signature,
/// and a change of the units, their wiring, a constant or a param's name, rate or
/// lag changes the text that is hashed.
pub proof fn law_signature_follows_structure(d: DefView, e: DefView)
    ensures
        def_text(d) == def_text(e) <==> d.units == e.units && d.params.len() == e.params.len()
            && forall|i: int|
            0 <= i < d.params.len() ==> same_structure(#[trigger] d.params[i], e.params[i]),
{
    let f = |u: UnitView| unit_text(u);
    let h = |p: ParamView| param_text(p);
    if def_text(d) == def_text(e) {
        let same_unit = |u: UnitView, v: UnitView| u == v;
        let same_param = |p: ParamView, q: ParamView| same_structure(p, q);
        assert forall|a: UnitView, b: UnitView, x: Seq<char>, y: Seq<char>| #[trigger]
            (f(a) + x) == #[trigger] (f(b) + y) implies same_unit(a, b) && x == y by {
            lemma_unit(a, b, x, y);
        }
        assert forall|a: ParamView, b: ParamView, x: Seq<char>, y: Seq<char>| #[trigger]
            (h(a) + x) == #[trigger] (h(b) + y) implies same_param(a, b) && x == y by {
            lemma_param(a, b, x, y);
        }
        lemma_list(d.units, e.units, list(d.params, h), list(e.params, h), f, same_unit);
        assert forall|i: int| 0 <= i < d.units.len() implies d.units[i] == e.units[i] by {
            assert(same_unit(d.units[i], e.units[i]));
        }
        assert(d.units =~= e.units);
        let none = Seq::<char>::empty();
        assert(list(d.params, h) + none =~= list(d.params, h));
        assert(list(e.params, h) + none =~= list(e.params, h));
        lemma_list(d.params, e.params, none, none, h, same_param);
        assert forall|i: int| 0 <= i < d.params.len() implies same_structure(
            #[trigger] d.params[i],
            e.params[i],
        ) by {
            assert(same_param(d.params[i], e.params[i]));
        }
    }
    if d.units == e.units && d.params.len() == e.params.len() && (forall|i: int|
        0 <= i < d.params.len() ==> same_structure(#[trigger] d.params[i], e.params[i])) {
        lemma_cat_same(d.params, e.params);
    }
}

proof fn lemma_cat_same(s: Seq<ParamView>, t: Seq<ParamView>)
    requires
        s.len() == t.len(),
        forall|i: int| 0 <= i < s.len() ==> same_structure(#[trigger] s[i], t[i]),
    ensures
        cat(s, |p: ParamView| param_text(p)) == cat(t, |p: ParamView| param_text(p)),
    decreases s.len(),
{
    if s.len() > 0 {
        lemma_cat_same(s.drop_last(), t.drop_last());
        assert(same_structure(s[s.len() - 1], t[s.len() - 1]));
    }
}

} // verus!
