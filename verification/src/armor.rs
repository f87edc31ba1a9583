//! Base64 with the standard alphabet and padding.

use vstd::prelude::*;

verus! {

/// The digit of six bits.
pub open spec fn sextet(d: int) -> char {
    if d < 26 {
        (('A' as int) + d) as char
    } else if d < 52 {
        (('a' as int) + (d - 26)) as char
    } else if d < 62 {
        (('0' as int) + (d - 52)) as char
    } else if d == 62 {
        '+'
    } else {
        '/'
    }
}

/// The bytes, three by three, as four digits; a last group of one or two bytes is
/// filled up with `=`.
pub open spec fn text(s: Seq<u8>) -> Seq<char>
    decreases s.len(),
{
    let a = s[0] as int;
    let b = s[1] as int;
    let c = s[2] as int;
    if s.len() == 0 {
        Seq::empty()
    } else if s.len() == 1 {
        seq![sextet(a / 4), sextet(a % 4 * 16), '=', '=']
    } else if s.len() == 2 {
        seq![sextet(a / 4), sextet(a % 4 * 16 + b / 16), sextet(b % 16 * 4), '=']
    } else {
        seq![
            sextet(a / 4),
            sextet(a % 4 * 16 + b / 16),
            sextet(b % 16 * 4 + c / 64),
            sextet(c % 64),
        ] + text(s.skip(3))
    }
}

/// The bytes that a text encodes, if any do.
pub open spec fn bytes(t: Seq<char>) -> Option<Seq<u8>> {
    if exists|s: Seq<u8>| text(s) == t {
        Some(choose|s: Seq<u8>| text(s) == t)
    } else {
        None
    }
}

/// The error with which `base64` refuses a text.
#[verifier::external_type_specification]
#[verifier::external_body]
pub struct ExDecodeError(base64::DecodeError);

/// Whether the text of so many bytes fits in memory.
pub open spec fn fits(len: nat) -> bool {
    len / 3 * 4 + 4 <= isize::MAX
}

/// Calls `encode` of `base64`'s standard engine. Claimed of it: it gives the bytes'
/// text with the standard alphabet and padding.
#[verifier::external_body]
pub(crate) fn encode(input: &[u8]) -> (r: String)
    requires
        fits(input@.len()),
    ensures
        r@ == text(input@),
{
    base64::Engine::encode(&base64::engine::general_purpose::STANDARD, input)
}

/// Calls `decode` of `base64`'s standard engine. Claimed of it: it gives back the
/// bytes that the text encodes, and an error where the text encodes none: the
/// engine takes neither missing padding nor stray bits.
#[verifier::external_body]
pub(crate) fn decode(input: &str) -> (r: Result<Vec<u8>, base64::DecodeError>)
    ensures
        match r {
            Ok(v) => text(v@) == input@,
            Err(_) => bytes(input@) is None,
        },
{
    base64::Engine::decode(&base64::engine::general_purpose::STANDARD, input)
}

proof fn lemma_sextet(a: int, b: int)
    requires
        0 <= a < 64,
        0 <= b < 64,
        sextet(a) == sextet(b),
    ensures
        a == b,
{
    assert(sextet(a) as int == sextet(b) as int);
}

proof fn lemma_digit(a: int)
    requires
        0 <= a < 64,
    ensures
        sextet(a) != '=',
{
    assert(sextet(a) as int != '=' as int);
}

/// Different bytes have different texts.
pub proof fn lemma_text_injective(s: Seq<u8>, t: Seq<u8>)
    requires
        text(s) == text(t),
    ensures
        s == t,
    decreases s.len(),
{
    lemma_text_len(s);
    lemma_text_len(t);
    if s.len() == 0 || t.len() == 0 {
        assert(s =~= t);
    } else {
        let n = if s.len() < 3 {
            s.len() as int
        } else {
            3
        };
        let m = if t.len() < 3 {
            t.len() as int
        } else {
            3
        };
        lemma_group(s);
        lemma_group(t);
        assert(n == m);
        lemma_sextet((s[0] as int / 4), (t[0] as int / 4));
        if n == 1 {
            lemma_sextet((s[0] as int % 4 * 16), (t[0] as int % 4 * 16));
            assert(s =~= t);
        } else {
            lemma_sextet(s[0] as int % 4 * 16 + s[1] as int / 16, t[0] as int % 4 * 16 + t[1] as int / 16);
            if n == 2 {
                lemma_sextet((s[1] as int % 16 * 4), (t[1] as int % 16 * 4));
                assert(s =~= t);
            } else {
                lemma_sextet(s[1] as int % 16 * 4 + s[2] as int / 64, t[1] as int % 16 * 4 + t[2] as int / 64);
                lemma_sextet((s[2] as int % 64), (t[2] as int % 64));
                lemma_text_injective(s.skip(3), t.skip(3));
                assert(s[0] == t[0] && s[1] == t[1] && s[2] == t[2]);
                assert(s =~= seq![s[0], s[1], s[2]] + s.skip(3));
                assert(t =~= seq![t[0], t[1], t[2]] + t.skip(3));
            }
        }
    }
}

/// The padding tells how many bytes a group holds.
proof fn lemma_group(s: Seq<u8>)
    requires
        s.len() > 0,
    ensures
        text(s).len() >= 4,
        (text(s)[2] == '=') == (s.len() == 1),
        (text(s)[3] == '=') == (s.len() <= 2),
        text(s)[0] == sextet(s[0] as int / 4),
        s.len() == 1 ==> text(s)[1] == sextet(s[0] as int % 4 * 16),
        s.len() > 1 ==> text(s)[1] == sextet(s[0] as int % 4 * 16 + s[1] as int / 16),
        s.len() == 2 ==> text(s)[2] == sextet(s[1] as int % 16 * 4),
        s.len() > 2 ==> text(s)[2] == sextet(s[1] as int % 16 * 4 + s[2] as int / 64),
        s.len() > 2 ==> text(s)[3] == sextet(s[2] as int % 64),
        s.len() > 2 ==> text(s).skip(4) == text(s.skip(3)),
{
    if s.len() == 1 {
    } else if s.len() == 2 {
        lemma_digit((s[1] as int % 16 * 4));
    } else {
        lemma_digit(s[1] as int % 16 * 4 + s[2] as int / 64);
        lemma_digit((s[2] as int % 64));
        assert(text(s).skip(4) =~= text(s.skip(3)));
    }
}

proof fn lemma_text_len(s: Seq<u8>)
    ensures
        s.len() == 0 <==> text(s).len() == 0,
{
}

/// The text of some bytes encodes them.
pub proof fn law_base64_round_trips(s: Seq<u8>)
    ensures
        bytes(text(s)) == Some(s),
{
    assert(text(s) == text(s));
    lemma_text_injective(bytes(text(s))->0, s);
}

} // verus!
