//! Keywords for DSP nodes in the textual graph format.
//!
//! A node is written as a bare keyword, or as a form that carries a setting where that
//! differs from its default: `~sine`, `(~sine #:freq-lag 0.5)`, `(~tap #:size 512)`.

use crate::dsp::{self, Float};
use crate::node::tap::Tap;
use crate::text;
use vstd::prelude::*;
use vstd::string::*;

verus! {

/// The smoothing time of a fresh `~sine`'s frequency: none.
pub const DEFAULT_FREQ_LAG: Float = 0;

/// The smoothing time of a fresh `~out`'s gain.
pub const DEFAULT_GAIN_LAG: Float = 0x3c23_d70a;

/// An argument as it is written.
#[derive(Debug)]
pub enum Token {
    /// A number: in single precision, as its shortest decimal, and as an integer where
    /// it is one.
    Number(Float, String, Option<i64>),
    /// Anything else.
    Text(String),
}

/// What a [`Token`] denotes.
pub enum TokenView {
    Number(Float, Seq<char>, Option<i64>),
    Text(Seq<char>),
}

impl View for Token {
    type V = TokenView;

    open spec fn view(&self) -> TokenView {
        match self {
            Token::Number(f, s, n) => TokenView::Number(*f, s@, *n),
            Token::Text(s) => TokenView::Text(s@),
        }
    }
}

/// A node's setting.
#[derive(Debug)]
pub enum Atom {
    /// A number of single precision, with its shortest decimal.
    Float(Float, String),
    Integer(i64),
}

/// What an [`Atom`] denotes.
pub enum AtomView {
    Float(Float, Seq<char>),
    Integer(i64),
}

impl View for Atom {
    type V = AtomView;

    open spec fn view(&self) -> AtomView {
        match self {
            Atom::Float(f, s) => AtomView::Float(*f, s@),
            Atom::Integer(n) => AtomView::Integer(*n),
        }
    }
}

/// A node as the format has it: its type, and the fields that were given.
#[derive(Debug)]
pub struct Datum {
    pub tag: String,
    pub fields: Vec<(String, Atom)>,
}

/// What a [`Datum`] denotes.
#[verifier::ext_equal]
pub struct DatumView {
    pub tag: Seq<char>,
    pub fields: Seq<(Seq<char>, AtomView)>,
}

/// What named values denote.
pub open spec fn named<T: View>(s: Seq<(String, T)>) -> Seq<(Seq<char>, T::V)> {
    s.map_values(|e: (String, T)| (e.0@, e.1@))
}

impl View for Datum {
    type V = DatumView;

    open spec fn view(&self) -> DatumView {
        DatumView { tag: self.tag@, fields: named(self.fields@) }
    }
}

/// The first value under a name.
pub open spec fn value_of<V>(s: Seq<(Seq<char>, V)>, name: Seq<char>) -> Option<V>
    decreases s.len(),
{
    if s.len() == 0 {
        None
    } else if s[0].0 == name {
        Some(s[0].1)
    } else {
        value_of(s.skip(1), name)
    }
}

fn find<'a, T: View>(s: &'a Vec<(String, T)>, name: &str) -> (r: Option<&'a T>)
    ensures
        match r {
            Some(a) => value_of(named(s@), name@) == Some(a@),
            None => value_of(named(s@), name@) is None,
        },
{
    let ghost all = named(s@);
    let wanted = String::from_str(name);
    let mut i: usize = 0;
    assert(all.skip(0) =~= all);
    while i < s.len()
        invariant
            all == named(s@),
            wanted@ == name@,
            i <= s@.len(),
            value_of(all, name@) == value_of(all.skip(i as int), name@),
        decreases s@.len() - i,
    {
        assert(all.skip(i as int)[0] == all[i as int]);
        if s[i].0 == wanted {
            return Some(&s[i].1);
        }
        assert(all.skip(i as int).skip(1) =~= all.skip(i + 1));
        i = i + 1;
    }
    assert(all.skip(i as int) =~= Seq::empty());
    None
}

impl Datum {
    /// A field.
    pub fn get(&self, field: &str) -> (r: Option<&Atom>)
        ensures
            match r {
                Some(a) => value_of(self@.fields, field@) == Some(a@),
                None => value_of(self@.fields, field@) is None,
            },
    {
        find(&self.fields, field)
    }
}

/// What is wrong with a form.
#[derive(Debug)]
pub enum FormatError {
    /// The named argument is not a number.
    NotANumber(String),
    /// The named argument is not an integer.
    NotAnInteger(String),
}

/// The keyword arguments of a form.
#[derive(Debug)]
pub struct SugarArgs {
    pub keywords: Vec<(String, Token)>,
}

/// The type a keyword stands for.
pub open spec fn tag_of(keyword: Seq<char>) -> Option<Seq<char>> {
    if keyword == "~sine"@ {
        Some("Sine"@)
    } else if keyword == "~out"@ {
        Some("Out"@)
    } else if keyword == "~lag"@ {
        Some("Lag"@)
    } else if keyword == "~tap"@ {
        Some("Tap"@)
    } else {
        None
    }
}

/// The keyword of a type.
pub open spec fn keyword_of(tag: Seq<char>) -> Option<Seq<char>> {
    if tag == "Sine"@ {
        Some("~sine"@)
    } else if tag == "Out"@ {
        Some("~out"@)
    } else if tag == "Lag"@ {
        Some("~lag"@)
    } else if tag == "Tap"@ {
        Some("~tap"@)
    } else {
        None
    }
}

/// Whether two numbers are equal: the zeros are, a NaN is equal to nothing.
pub open spec fn float_same(a: Float, b: Float) -> bool {
    (a == b && a % 0x8000_0000 <= 0x7f80_0000) || (dsp::float_zero(a) && dsp::float_zero(b))
}

fn same_float(a: Float, b: Float) -> (r: bool)
    ensures
        r == float_same(a, b),
{
    (a == b && a % 0x8000_0000 <= 0x7f80_0000) || (dsp::is_zero(a) && dsp::is_zero(b))
}

/// What is read of a keyword argument that takes a number: `Err` where it is something
/// else, and nothing where it is not given.
pub open spec fn lag_read(args: Seq<(Seq<char>, TokenView)>, keyword: Seq<char>) -> Result<
    Option<AtomView>,
    (),
> {
    match value_of(args, keyword) {
        None => Ok(None),
        Some(TokenView::Number(f, s, _)) => Ok(Some(AtomView::Float(f, s))),
        Some(TokenView::Text(_)) => Err(()),
    }
}

/// What is read of a form: its type and fields.
pub open spec fn read(head: Seq<char>, args: Seq<(Seq<char>, TokenView)>) -> Result<
    Option<DatumView>,
    (),
> {
    if head == "~sine"@ {
        lag_form("Sine"@, "freq_lag"@, lag_read(args, "freq-lag"@))
    } else if head == "~out"@ {
        lag_form("Out"@, "gain_lag"@, lag_read(args, "gain-lag"@))
    } else if head == "~lag"@ {
        Ok(Some(DatumView { tag: "Lag"@, fields: Seq::empty() }))
    } else if head == "~tap"@ {
        match value_of(args, "size"@) {
            None => Ok(Some(DatumView { tag: "Tap"@, fields: Seq::empty() })),
            Some(TokenView::Number(_, _, Some(n))) => Ok(
                Some(
                    DatumView {
                        tag: "Tap"@,
                        fields: seq![("size"@, AtomView::Integer(if n < 1 { 1 } else { n }))],
                    },
                ),
            ),
            Some(_) => Err(()),
        }
    } else {
        Ok(None)
    }
}

/// A type with the field that was given.
pub open spec fn lag_form(tag: Seq<char>, field: Seq<char>, lag: Result<Option<AtomView>, ()>) -> Result<
    Option<DatumView>,
    (),
> {
    match lag {
        Ok(Some(a)) => Ok(Some(DatumView { tag, fields: seq![(field, a)] })),
        Ok(None) => Ok(Some(DatumView { tag, fields: Seq::empty() })),
        Err(()) => Err(()),
    }
}

/// The argument that a node is written with, where a setting differs from its default.
pub open spec fn argument(d: DatumView) -> Option<(Seq<char>, AtomView)> {
    if d.tag == "Sine"@ {
        lag_argument(value_of(d.fields, "freq_lag"@), "freq-lag"@, DEFAULT_FREQ_LAG)
    } else if d.tag == "Out"@ {
        lag_argument(value_of(d.fields, "gain_lag"@), "gain-lag"@, DEFAULT_GAIN_LAG)
    } else if d.tag == "Tap"@ {
        match value_of(d.fields, "size"@) {
            Some(AtomView::Integer(n)) if n != Tap::DEFAULT_SIZE => Some(
                ("size"@, AtomView::Integer(n)),
            ),
            _ => None,
        }
    } else {
        None
    }
}

/// The argument for a smoothing time.
pub open spec fn lag_argument(lag: Option<AtomView>, keyword: Seq<char>, default: Float) -> Option<
    (Seq<char>, AtomView),
> {
    match lag {
        Some(AtomView::Float(f, s)) if !float_same(f, default) => Some(
            (keyword, AtomView::Float(f, s)),
        ),
        _ => None,
    }
}

/// How a value is written.
pub open spec fn spelled(a: AtomView) -> Seq<char> {
    match a {
        AtomView::Float(_, s) => s,
        AtomView::Integer(n) => if n < 0 {
            "-"@ + text::dec((-n) as nat)
        } else {
            text::dec(n as nat)
        },
    }
}

/// How a node is written: as its keyword, with the argument if there is one.
pub open spec fn written(d: DatumView) -> Option<Seq<char>> {
    match keyword_of(d.tag) {
        Some(kw) => Some(
            match argument(d) {
                Some((k, a)) => "("@ + kw + " #:"@ + k + " "@ + spelled(a) + ")"@,
                None => kw,
            },
        ),
        None => None,
    }
}

/// The keywords of the DSP nodes.
#[derive(Clone, Copy, Debug)]
pub struct PlyphonSugar;

fn integer_text(n: i64) -> (r: String)
    ensures
        r@ == spelled(AtomView::Integer(n)),
{
    if n < 0 {
        let mut r = String::from_str("-");
        // One less than the magnitude always fits.
        let m: u64 = (-(n + 1)) as u64 + 1;
        r.append(text::dec_text(m).as_str());
        r
    } else {
        text::dec_text(n as u64)
    }
}

fn form(kw: &str, keyword: &str, value: &str) -> (r: String)
    ensures
        r@ == "("@ + kw@ + " #:"@ + keyword@ + " "@ + value@ + ")"@,
{
    let mut r = String::from_str("(");
    r.append(kw);
    r.append(" #:");
    r.append(keyword);
    r.append(" ");
    r.append(value);
    r.append(")");
    r
}

fn write_lag(kw: &str, field: &str, keyword: &str, default: Float, node: &Datum) -> (r: String)
    ensures
        r@ == (match lag_argument(value_of(node@.fields, field@), keyword@, default) {
            Some((k, a)) => "("@ + kw@ + " #:"@ + k + " "@ + spelled(a) + ")"@,
            None => kw@,
        }),
{
    if let Some(a) = node.get(field) {
        if let Atom::Float(f, s) = a {
            if !same_float(*f, default) {
                return form(kw, keyword, s.as_str());
            }
        }
    }
    String::from_str(kw)
}

fn lag_spec(tag: &str, field: &str, keyword: &str, args: &SugarArgs) -> (r: Result<
    Option<Datum>,
    FormatError,
>)
    ensures
        match r {
            Ok(Some(d)) => lag_form(tag@, field@, lag_read(named(args.keywords@), keyword@)) == Ok::<
                Option<DatumView>,
                (),
            >(Some(d@)),
            Ok(None) => false,
            Err(FormatError::NotANumber(k)) => k@ == keyword@ && lag_read(
                named(args.keywords@),
                keyword@,
            ) is Err,
            Err(_) => false,
        },
{
    let mut fields: Vec<(String, Atom)> = Vec::new();
    match find(&args.keywords, keyword) {
        Some(Token::Number(f, s, _)) => {
            fields.push((String::from_str(field), Atom::Float(*f, s.clone())));
        },
        Some(Token::Text(_)) => {
            return Err(FormatError::NotANumber(String::from_str(keyword)));
        },
        None => {},
    }
    let d = Datum { tag: String::from_str(tag), fields };
    proof {
        match lag_read(named(args.keywords@), keyword@) {
            Ok(Some(a)) => {
                assert(d@.fields =~= seq![(field@, a)]);
            },
            _ => {
                assert(d@.fields =~= Seq::empty());
            },
        }
    }
    Ok(Some(d))
}

impl PlyphonSugar {
    /// The keyword of a type, if it has one.
    pub fn keyword_for_tag(&self, tag: &str) -> (r: Option<&'static str>)
        ensures
            match r {
                Some(k) => keyword_of(tag@) == Some(k@),
                None => keyword_of(tag@) is None,
            },
    {
        let t = String::from_str(tag);
        if t == String::from_str("Sine") {
            Some("~sine")
        } else if t == String::from_str("Out") {
            Some("~out")
        } else if t == String::from_str("Lag") {
            Some("~lag")
        } else if t == String::from_str("Tap") {
            Some("~tap")
        } else {
            None
        }
    }

    /// Reads a form by its head and arguments. It gives nothing for a head of another
    /// set's.
    pub fn read_spec(&self, head: &str, args: &SugarArgs) -> (r: Result<Option<Datum>, FormatError>)
        ensures
            match r {
                Ok(Some(d)) => read(head@, named(args.keywords@)) == Ok::<Option<DatumView>, ()>(
                    Some(d@),
                ),
                Ok(None) => read(head@, named(args.keywords@)) == Ok::<Option<DatumView>, ()>(None),
                Err(FormatError::NotANumber(k)) => read(head@, named(args.keywords@)) is Err && k@
                    == (if head@ == "~sine"@ {
                    "freq-lag"@
                } else {
                    "gain-lag"@
                }),
                Err(FormatError::NotAnInteger(k)) => read(head@, named(args.keywords@)) is Err
                    && head@ == "~tap"@ && k@ == "size"@,
            },
    {
        proof {
            lemma_keywords_differ();
        }
        let h = String::from_str(head);
        if h == String::from_str("~sine") {
            lag_spec("Sine", "freq_lag", "freq-lag", args)
        } else if h == String::from_str("~out") {
            lag_spec("Out", "gain_lag", "gain-lag", args)
        } else if h == String::from_str("~lag") {
            let d = Datum { tag: String::from_str("Lag"), fields: Vec::new() };
            assert(d@ =~= DatumView { tag: "Lag"@, fields: Seq::empty() });
            Ok(Some(d))
        } else if h == String::from_str("~tap") {
            let mut fields: Vec<(String, Atom)> = Vec::new();
            match find(&args.keywords, "size") {
                Some(Token::Number(_, _, Some(n))) => {
                    let size: i64 = if *n < 1 {
                        1
                    } else {
                        *n
                    };
                    fields.push((String::from_str("size"), Atom::Integer(size)));
                    assert(named(fields@) =~= seq![("size"@, AtomView::Integer(size))]);
                },
                Some(_) => {
                    return Err(FormatError::NotAnInteger(String::from_str("size")));
                },
                None => {
                    assert(named(fields@) =~= Seq::empty());
                },
            }
            Ok(Some(Datum { tag: String::from_str("Tap"), fields }))
        } else {
            Ok(None)
        }
    }

    /// Reads a bare keyword.
    pub fn read_bare(&self, keyword: &str) -> (r: Option<Datum>)
        ensures
            match r {
                Some(d) => tag_of(keyword@) == Some(d@.tag) && d@.fields.len() == 0,
                None => tag_of(keyword@) is None,
            },
    {
        let k = String::from_str(keyword);
        let tag = if k == String::from_str("~sine") {
            "Sine"
        } else if k == String::from_str("~out") {
            "Out"
        } else if k == String::from_str("~lag") {
            "Lag"
        } else if k == String::from_str("~tap") {
            "Tap"
        } else {
            return None;
        };
        Some(Datum { tag: String::from_str(tag), fields: Vec::new() })
    }

    /// Writes a node. It gives nothing for a type of another set's.
    pub fn write_spec(&self, node: &Datum) -> (r: Option<String>)
        ensures
            match r {
                Some(s) => written(node@) == Some(s@),
                None => written(node@) is None,
            },
    {
        proof {
            lemma_tags_differ();
        }
        let tag = node.tag.clone();
        if tag == String::from_str("Sine") {
            Some(write_lag("~sine", "freq_lag", "freq-lag", DEFAULT_FREQ_LAG, node))
        } else if tag == String::from_str("Out") {
            Some(write_lag("~out", "gain_lag", "gain-lag", DEFAULT_GAIN_LAG, node))
        } else if tag == String::from_str("Tap") {
            if let Some(Atom::Integer(n)) = node.get("size") {
                if *n != Tap::DEFAULT_SIZE as i64 {
                    return Some(form("~tap", "size", integer_text(*n).as_str()));
                }
            }
            Some(String::from_str("~tap"))
        } else {
            match self.keyword_for_tag(tag.as_str()) {
                Some(k) => Some(String::from_str(k)),
                None => None,
            }
        }
    }
}

proof fn lemma_keywords_differ()
    ensures
        "~sine"@ != "~out"@,
        "~sine"@ != "~lag"@,
        "~sine"@ != "~tap"@,
        "~out"@ != "~lag"@,
        "~out"@ != "~tap"@,
        "~lag"@ != "~tap"@,
{
    reveal_strlit("~sine");
    reveal_strlit("~out");
    reveal_strlit("~lag");
    reveal_strlit("~tap");
    assert("~sine"@.len() == 5);
    assert("~out"@[1] == 'o' && "~lag"@[1] == 'l' && "~tap"@[1] == 't');
}

proof fn lemma_tags_differ()
    ensures
        "Sine"@ != "Out"@,
        "Sine"@ != "Lag"@,
        "Sine"@ != "Tap"@,
        "Out"@ != "Lag"@,
        "Out"@ != "Tap"@,
        "Lag"@ != "Tap"@,
{
    reveal_strlit("Sine");
    reveal_strlit("Out");
    reveal_strlit("Lag");
    reveal_strlit("Tap");
    assert("Sine"@.len() == 4);
    assert("Out"@[0] == 'O' && "Lag"@[0] == 'L' && "Tap"@[0] == 'T');
}

/// A keyword stands for the type whose keyword it is.
pub proof fn law_keywords_and_types_correspond(keyword: Seq<char>, tag: Seq<char>)
    ensures
        tag_of(keyword) == Some(tag) <==> keyword_of(tag) == Some(keyword),
{
    lemma_keywords_differ();
    lemma_tags_differ();
}

/// Whether a token is how a setting is written.
pub open spec fn stands_for(t: TokenView, a: AtomView) -> bool {
    match (t, a) {
        (TokenView::Number(f, s, _), AtomView::Float(g, u)) => f == g && s == u,
        (TokenView::Number(_, s, Some(n)), AtomView::Integer(m)) => n == m && s == spelled(a),
        _ => false,
    }
}

/// A node that was read is written with the setting it was read with, unless that is its
/// default; and a node read from what it is written with is written the same again.
pub proof fn law_written_forms_read_back(
    head: Seq<char>,
    args: Seq<(Seq<char>, TokenView)>,
    t: TokenView,
)
    requires
        read(head, args) is Ok,
        read(head, args)->Ok_0 is Some,
        argument(read(head, args)->Ok_0->0) matches Some(a) ==> stands_for(t, a.1),
    ensures
        ({
            let d = read(head, args)->Ok_0->0;
            let again = read(
                head,
                match argument(d) {
                    Some(a) => seq![(a.0, t)],
                    None => Seq::empty(),
                },
            );
            &&& keyword_of(d.tag) == Some(head)
            &&& again is Ok
            &&& again->Ok_0 matches Some(e) && e.tag == d.tag && argument(e) == argument(d)
                && written(e) == written(d)
        }),
{
    lemma_keywords_differ();
    lemma_tags_differ();
    let d = read(head, args)->Ok_0->0;
    if d.fields.len() == 1 {
        assert(value_of(d.fields, d.fields[0].0) == Some(d.fields[0].1));
    }
    let none = Seq::<(Seq<char>, TokenView)>::empty();
    assert(value_of(none, "freq-lag"@) is None);
    match argument(d) {
        Some(a) => {
            let s = seq![(a.0, t)];
            assert(value_of(s, a.0) == Some(t));
            let e = read(head, s)->Ok_0->0;
            assert(e.fields.len() == 1);
            assert(value_of(e.fields, e.fields[0].0) == Some(e.fields[0].1));
        },
        None => {},
    }
}

/// A form that is read is written with what it was given: its keyword, and its argument as
/// it was spelled, unless that is the default, which for a frequency is either zero. A size
/// below one is one.
pub proof fn law_forms_are_written_as_they_were_read(
    args: Seq<(Seq<char>, TokenView)>,
    f: Float,
    s: Seq<char>,
    n: Option<i64>,
    k: i64,
)
    ensures
        value_of(args, "freq-lag"@) == Some(TokenView::Number(f, s, n)) ==> {
            let d = read("~sine"@, args);
            &&& d is Ok && d->Ok_0 is Some
            &&& f == 0 || f == 0x8000_0000 ==> written(d->Ok_0->0) == Some("~sine"@)
            &&& f != 0 && f != 0x8000_0000 ==> written(d->Ok_0->0) == Some(
                "("@ + "~sine"@ + " #:"@ + "freq-lag"@ + " "@ + s + ")"@,
            )
        },
        value_of(args, "gain-lag"@) == Some(TokenView::Number(f, s, n)) ==> {
            let d = read("~out"@, args);
            &&& d is Ok && d->Ok_0 is Some
            &&& f == DEFAULT_GAIN_LAG ==> written(d->Ok_0->0) == Some("~out"@)
            &&& f != DEFAULT_GAIN_LAG ==> written(d->Ok_0->0) == Some(
                "("@ + "~out"@ + " #:"@ + "gain-lag"@ + " "@ + s + ")"@,
            )
        },
        value_of(args, "size"@) == Some(TokenView::Number(f, s, Some(k))) ==> {
            let d = read("~tap"@, args);
            let size = if k < 1 {
                1
            } else {
                k as nat
            };
            &&& d is Ok && d->Ok_0 is Some
            &&& size == Tap::DEFAULT_SIZE ==> written(d->Ok_0->0) == Some("~tap"@)
            &&& size != Tap::DEFAULT_SIZE ==> written(d->Ok_0->0) == Some(
                "("@ + "~tap"@ + " #:"@ + "size"@ + " "@ + text::dec(size) + ")"@,
            )
        },
        value_of(args, "freq-lag"@) is None ==> read("~sine"@, args) is Ok && read(
            "~sine"@,
            args,
        )->Ok_0 is Some && written(read("~sine"@, args)->Ok_0->0) == Some("~sine"@),
        value_of(args, "gain-lag"@) is None ==> read("~out"@, args) is Ok && read(
            "~out"@,
            args,
        )->Ok_0 is Some && written(read("~out"@, args)->Ok_0->0) == Some("~out"@),
        value_of(args, "size"@) is None ==> read("~tap"@, args) is Ok && read(
            "~tap"@,
            args,
        )->Ok_0 is Some && written(read("~tap"@, args)->Ok_0->0) == Some("~tap"@),
        read("~lag"@, args) is Ok && read("~lag"@, args)->Ok_0 is Some && written(
            read("~lag"@, args)->Ok_0->0,
        ) == Some("~lag"@),
{
    lemma_keywords_differ();
    lemma_tags_differ();
    reveal_with_fuel(value_of, 2);
}

} // verus!
