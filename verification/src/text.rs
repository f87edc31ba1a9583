//! Text helpers: decimal and hexadecimal digits, and joining of strings.

use vstd::prelude::*;
use vstd::string::*;

verus! {

/// `String::push` appends the character to the string.
pub assume_specification[ String::push ](s: &mut String, c: char)
    ensures
        final(s)@ == old(s)@.push(c),
;

/// The decimal digit of `d`.
pub open spec fn digit(d: int) -> char {
    (('0' as int) + d) as char
}

/// The decimal digits of `n`, without leading zeros.
pub open spec fn dec(n: nat) -> Seq<char>
    decreases n,
{
    if n < 10 {
        seq![digit(n as int)]
    } else {
        dec(n / 10).push(digit((n % 10) as int))
    }
}

/// The lower-case hexadecimal digit of `d`.
pub open spec fn hex_digit(d: int) -> char {
    if d < 10 {
        (('0' as int) + d) as char
    } else {
        (('a' as int) + (d - 10)) as char
    }
}

/// The last `width` hexadecimal digits of `n`, padded with zeros.
pub open spec fn hex(n: nat, width: nat) -> Seq<char>
    decreases width,
{
    if width == 0 {
        Seq::empty()
    } else {
        hex(n / 16, (width - 1) as nat).push(hex_digit((n % 16) as int))
    }
}

/// Two hexadecimal digits per byte.
pub open spec fn hex_bytes(s: Seq<u8>) -> Seq<char>
    decreases s.len(),
{
    if s.len() == 0 {
        Seq::empty()
    } else {
        hex_bytes(s.drop_last()) + seq![
            hex_digit((s.last() / 16) as int),
            hex_digit((s.last() % 16) as int),
        ]
    }
}

/// The strings one after the other, `sep` between each two.
pub open spec fn join(s: Seq<Seq<char>>, sep: Seq<char>) -> Seq<char>
    decreases s.len(),
{
    if s.len() == 0 {
        Seq::empty()
    } else if s.len() == 1 {
        s[0]
    } else {
        join(s.drop_last(), sep) + sep + s.last()
    }
}

/// The decimal digits of `n`.
pub fn dec_string(n: usize) -> (r: String)
    ensures
        r@ == dec(n as nat),
    decreases n,
{
    if n < 10 {
        let mut s = String::new();
        s.push((48 + n as u8) as char);
        assert(s@ =~= dec(n as nat));
        s
    } else {
        let mut s = dec_string(n / 10);
        s.push((48 + (n % 10) as u8) as char);
        s
    }
}

/// The decimal digits of `n`.
pub fn dec_text(n: u64) -> (r: String)
    ensures
        r@ == dec(n as nat),
    decreases n,
{
    if n < 10 {
        let mut s = String::new();
        s.push((48 + n as u8) as char);
        assert(s@ =~= dec(n as nat));
        s
    } else {
        let mut s = dec_text(n / 10);
        s.push((48 + (n % 10) as u8) as char);
        s
    }
}

fn hex_char(d: u8) -> (c: char)
    requires
        d < 16,
    ensures
        c == hex_digit(d as int),
{
    if d < 10 {
        (48 + d) as char
    } else {
        (97 + (d - 10)) as char
    }
}

/// The sixteen hexadecimal digits of `n`.
pub fn hex16(n: u64) -> (r: String)
    ensures
        r@ == hex(n as nat, 16),
{
    hex_string(n, 16)
}

fn hex_string(n: u64, width: usize) -> (r: String)
    ensures
        r@ == hex(n as nat, width as nat),
    decreases width,
{
    if width == 0 {
        let s = String::new();
        assert(s@ =~= hex(n as nat, 0));
        s
    } else {
        let mut s = hex_string(n / 16, width - 1);
        s.push(hex_char((n % 16) as u8));
        s
    }
}

/// Two hexadecimal digits per byte.
pub fn hex_of(bytes: &[u8]) -> (r: String)
    ensures
        r@ == hex_bytes(bytes@),
{
    let mut s = String::new();
    let mut i: usize = 0;
    assert(s@ =~= hex_bytes(bytes@.take(0)));
    while i < bytes.len()
        invariant
            i <= bytes@.len(),
            s@ == hex_bytes(bytes@.take(i as int)),
        decreases bytes@.len() - i,
    {
        let b: u8 = bytes[i];
        let ghost before = s@;
        s.push(hex_char(b / 16));
        s.push(hex_char(b % 16));
        proof {
            let t = bytes@.take(i + 1);
            assert(t.drop_last() =~= bytes@.take(i as int));
            assert(t.last() == b);
            assert(s@ =~= before + seq![hex_digit((b / 16) as int), hex_digit((b % 16) as int)]);
        }
        i = i + 1;
    }
    assert(bytes@.take(i as int) =~= bytes@);
    s
}

/// The views of a list of strings.
pub open spec fn texts(v: Seq<String>) -> Seq<Seq<char>> {
    v.map_values(|s: String| s@)
}

/// The strings one after the other, `sep` between each two.
pub fn join_strings(parts: &Vec<String>, sep: &str) -> (r: String)
    ensures
        r@ == join(texts(parts@), sep@),
{
    let mut s = String::new();
    let mut i: usize = 0;
    assert(s@ =~= join(texts(parts@).take(0), sep@));
    while i < parts.len()
        invariant
            i <= parts@.len(),
            s@ == join(texts(parts@).take(i as int), sep@),
        decreases parts@.len() - i,
    {
        if i > 0 {
            s.append(sep);
        }
        s.append(parts[i].as_str());
        proof {
            let t = texts(parts@).take(i + 1);
            assert(t.drop_last() =~= texts(parts@).take(i as int));
            assert(t.last() == parts@[i as int]@);
            if i == 0 {
                assert(s@ =~= t[0]);
            }
        }
        i = i + 1;
    }
    assert(texts(parts@).take(i as int) =~= texts(parts@));
    s
}

/// Whether a character is a decimal digit.
pub open spec fn is_digit(c: char) -> bool {
    '0' as int <= c as int <= '9' as int
}

/// A number has digits, and nothing but digits.
pub proof fn lemma_dec_digits(n: nat)
    ensures
        dec(n).len() > 0,
        forall|i: int| 0 <= i < dec(n).len() ==> is_digit(#[trigger] dec(n)[i]),
    decreases n,
{
    if n >= 10 {
        lemma_dec_digits(n / 10);
        let init = dec(n / 10);
        assert forall|i: int| 0 <= i < dec(n).len() implies is_digit(#[trigger] dec(n)[i]) by {
            if i < init.len() {
                assert(dec(n)[i] == init[i]);
            }
        }
    }
}

/// Different numbers have different digits.
pub proof fn lemma_dec_injective(a: nat, b: nat)
    requires
        dec(a) == dec(b),
    ensures
        a == b,
    decreases a,
{
    lemma_dec_digits(a / 10);
    lemma_dec_digits(b / 10);
    if a < 10 && b < 10 {
        assert(dec(a)[0] == digit(a as int) && dec(b)[0] == digit(b as int));
        assert(digit(a as int) as int == digit(b as int) as int);
    } else if a < 10 {
        assert(dec(b).len() == dec(b / 10).len() + 1);
    } else if b < 10 {
        assert(dec(a).len() == dec(a / 10).len() + 1);
    } else {
        assert(dec(a).drop_last() =~= dec(a / 10));
        assert(dec(b).drop_last() =~= dec(b / 10));
        lemma_dec_injective(a / 10, b / 10);
        assert(dec(a).last() == digit((a % 10) as int));
        assert(dec(b).last() == digit((b % 10) as int));
        assert(digit((a % 10) as int) as int == digit((b % 10) as int) as int);
    }
}

/// Texts without the separator are told apart by what they are joined to, as long as
/// none of them is empty.
pub proof fn lemma_join_injective(s: Seq<Seq<char>>, t: Seq<Seq<char>>, c: char)
    requires
        join(s, seq![c]) == join(t, seq![c]),
        forall|i: int| 0 <= i < s.len() ==> (#[trigger] s[i]).len() > 0 && !s[i].contains(c),
        forall|i: int| 0 <= i < t.len() ==> (#[trigger] t[i]).len() > 0 && !t[i].contains(c),
    ensures
        s == t,
    decreases s.len(),
{
    let u = join(s, seq![c]);
    if s.len() == 0 {
        if t.len() > 0 {
            assert(t[t.len() - 1].len() > 0);
            lemma_join_end(t, c);
        }
        assert(s =~= t);
    } else if t.len() == 0 {
        assert(s[s.len() - 1].len() > 0);
        lemma_join_end(s, c);
    } else {
        let x = s.last();
        let y = t.last();
        assert(s[s.len() - 1] == x && t[t.len() - 1] == y);
        lemma_join_end(s, c);
        lemma_join_end(t, c);
        let n = u.len() as int;
        if x.len() < y.len() {
            if s.len() > 1 {
                assert(u[n - x.len() - 1] == c);
                assert(y[y.len() - x.len() - 1] == c);
                assert(y.contains(c));
            }
        } else if y.len() < x.len() {
            if t.len() > 1 {
                assert(u[n - y.len() - 1] == c);
                assert(x[x.len() - y.len() - 1] == c);
                assert(x.contains(c));
            }
        }
        assert(x.len() == y.len());
        assert(x =~= y) by {
            assert forall|i: int| 0 <= i < x.len() implies x[i] == y[i] by {
                assert(u[n - x.len() + i] == x[i]);
                assert(u[n - y.len() + i] == y[i]);
            }
        }
        let s0 = s.drop_last();
        let t0 = t.drop_last();
        if s.len() > 1 && t.len() > 1 {
            assert(u.take(n - x.len() - 1) =~= join(s0, seq![c]));
            assert(u.take(n - x.len() - 1) =~= join(t0, seq![c]));
            assert forall|i: int| 0 <= i < s0.len() implies (#[trigger] s0[i]).len() > 0
                && !s0[i].contains(c) by {
                assert(s0[i] == s[i]);
            }
            assert forall|i: int| 0 <= i < t0.len() implies (#[trigger] t0[i]).len() > 0
                && !t0[i].contains(c) by {
                assert(t0[i] == t[i]);
            }
            lemma_join_injective(s0, t0, c);
        } else if s.len() == 1 && t.len() == 1 {
            assert(s0 =~= t0);
        } else if s.len() == 1 {
            assert(u.len() == x.len());
        } else {
            assert(u.len() == y.len());
        }
        assert(s =~= s0.push(x));
        assert(t =~= t0.push(y));
    }
}

proof fn lemma_join_end(s: Seq<Seq<char>>, c: char)
    requires
        s.len() > 0,
    ensures
        ({
            let u = join(s, seq![c]);
            let x = s.last();
            &&& u.len() >= x.len()
            &&& forall|i: int| 0 <= i < x.len() ==> #[trigger] u[u.len() - x.len() + i] == x[i]
            &&& s.len() == 1 ==> u == x
            &&& s.len() > 1 ==> u.len() > x.len() && u[u.len() - x.len() - 1] == c && u.take(
                u.len() - x.len() - 1,
            ) == join(s.drop_last(), seq![c])
        }),
{
    let u = join(s, seq![c]);
    let x = s.last();
    if s.len() == 1 {
        assert(s.drop_last() =~= Seq::empty());
        assert(u =~= x);
    } else {
        assert(u =~= join(s.drop_last(), seq![c]) + seq![c] + x);
        assert(u.take(u.len() - x.len() - 1) =~= join(s.drop_last(), seq![c]));
    }
}

/// Every byte takes two digits.
pub proof fn lemma_hex_len(s: Seq<u8>)
    ensures
        hex_bytes(s).len() == 2 * s.len(),
    decreases s.len(),
{
    if s.len() > 0 {
        lemma_hex_len(s.drop_last());
    }
}

/// Different bytes have different digits.
pub proof fn lemma_hex_injective(s: Seq<u8>, t: Seq<u8>)
    requires
        hex_bytes(s) == hex_bytes(t),
    ensures
        s == t,
    decreases s.len(),
{
    lemma_hex_len(s);
    lemma_hex_len(t);
    if s.len() == 0 {
        assert(s =~= t);
    } else {
        let a = hex_bytes(s.drop_last());
        let b = hex_bytes(t.drop_last());
        lemma_hex_len(s.drop_last());
        lemma_hex_len(t.drop_last());
        let n = a.len() as int;
        assert(hex_bytes(s).take(n) =~= a);
        assert(hex_bytes(t).take(n) =~= b);
        lemma_hex_injective(s.drop_last(), t.drop_last());
        let p = s.last();
        let q = t.last();
        assert(hex_bytes(s)[n] == hex_digit((p / 16) as int));
        assert(hex_bytes(s)[n + 1] == hex_digit((p % 16) as int));
        assert(hex_bytes(t)[n] == hex_digit((q / 16) as int));
        assert(hex_bytes(t)[n + 1] == hex_digit((q % 16) as int));
        lemma_hex_digit((p / 16) as int, (q / 16) as int);
        lemma_hex_digit((p % 16) as int, (q % 16) as int);
        assert(s =~= s.drop_last().push(p));
        assert(t =~= t.drop_last().push(q));
    }
}

proof fn lemma_hex_digit(a: int, b: int)
    requires
        0 <= a < 16,
        0 <= b < 16,
        hex_digit(a) == hex_digit(b),
    ensures
        a == b,
{
    assert(hex_digit(a) as int == hex_digit(b) as int);
}

/// Bytes are spelled by two digits each, the upper half first.
pub proof fn law_bytes_are_spelled_in_order(s: Seq<u8>, i: int)
    requires
        0 <= i < s.len(),
    ensures
        hex_bytes(s).len() == 2 * s.len(),
        hex_bytes(s)[2 * i] == "0123456789abcdef"@[(s[i] / 16) as int],
        hex_bytes(s)[2 * i + 1] == "0123456789abcdef"@[(s[i] % 16) as int],
    decreases s.len(),
{
    reveal_strlit("0123456789abcdef");
    let init = s.drop_last();
    lemma_hex_len(init);
    lemma_hex_len(s);
    if i < init.len() {
        law_bytes_are_spelled_in_order(init, i);
    }
}

} // verus!
