//! The grammar of the notation: atoms, parenthesised lists, forms, and a
//! top-level sequence of forms.
use vstd::prelude::*;
use crate::combinators::{
    has_prefix, lemma_skip_ws_rest, LiteralParser, MapParser, WithSpanParser,
};
use crate::parser::{
    agrees, consumed, is_rest, lemma_is_rest_trans, Error, ErrorKind, Failure, Outcome, Parser,
    Transform,
};
use crate::position::{span_of, utf8_width, SpanView, WithSpan};
use crate::scan::{
    byte_count, is_digit, is_xid_start, lemma_run_len, prefix_bytes, run_len, scan, skip_chars,
    split_chars, starts_with, xid_start, CharClass,
};
use crate::source::{consume, skip_ws, Snapshot, Source};
use crate::text::{byte_len, lemma_byte_len_split, lemma_chars_le_bytes, lemma_encode_single};

verus! {

/// A numeral as read: its digits, point and exponent, for a numeric library
/// to turn into a value.
#[derive(Clone, Debug, PartialEq, Eq)]
pub struct Number {
    pub literal: String,
}

/// An indivisible token.
#[derive(Clone, Debug, PartialEq, Eq)]
pub enum Atom {
    Symbol(String),
    Number(Number),
}

/// An atom as contracts see it: its text.
pub enum AtomView {
    Symbol(Seq<char>),
    Number(Seq<char>),
}

impl DeepView for Number {
    type V = Seq<char>;

    open spec fn deep_view(&self) -> Seq<char> {
        self.literal@
    }
}

impl DeepView for Atom {
    type V = AtomView;

    open spec fn deep_view(&self) -> AtomView {
        match self {
            Atom::Symbol(s) => AtomView::Symbol(s@),
            Atom::Number(n) => AtomView::Number(n.literal@),
        }
    }
}

/// A list of forms, with the span from its `(` through its `)`.
pub type List = WithSpan<Vec<Form>>;

/// One parsed unit: an atom or a list, with its span.
#[derive(Debug)]
pub enum Form {
    Atom(WithSpan<Atom>),
    List(List),
}

/// A form as contracts see it.
pub enum FormView {
    Atom(AtomView, SpanView),
    List(Seq<FormView>, SpanView),
}

impl Form {
    pub open spec fn model(&self) -> FormView
        decreases self,
    {
        match self {
            Form::Atom(a) => FormView::Atom(a.value.deep_view(), a.span@),
            Form::List(l) => FormView::List(forms_model(&l.value), l.span@),
        }
    }
}

/// The models of a vector of forms.
pub open spec fn forms_model(v: &Vec<Form>) -> Seq<FormView>
    decreases v,
{
    Seq::new(v@.len(), |i: int| if 0 <= i < v@.len() { v@[i].model() } else { arbitrary() })
}

/// Length of the exponent `[eE][+-]?[0-9]+` at the start of `t`, 0 if none.
pub open spec fn exp_len(t: Seq<char>) -> nat {
    if t.len() > 0 && (t[0] == 'e' || t[0] == 'E') {
        let sign: nat = if t.len() > 1 && (t[1] == '+' || t[1] == '-') {
            1
        } else {
            0
        };
        let c = run_len(CharClass::Digit, t.skip((1 + sign) as int));
        if c > 0 {
            1 + sign + c
        } else {
            0
        }
    } else {
        0
    }
}

/// Length of the numeral at the start of `t`: digits, then optionally `.`,
/// then optionally digits and an exponent; 0 if `t` does not start with a digit.
pub open spec fn number_len(t: Seq<char>) -> nat {
    let a = run_len(CharClass::Digit, t);
    if a == 0 {
        0
    } else {
        let t1 = t.skip(a as int);
        if t1.len() > 0 && t1[0] == '.' {
            let t2 = t1.skip(1);
            let b = run_len(CharClass::Digit, t2);
            if b == 0 {
                a + 1
            } else {
                a + 1 + b + exp_len(t2.skip(b as int))
            }
        } else {
            a
        }
    }
}

/// Length of the identifier at the start of `t`: an `XID_Start` character and
/// the `XID_Continue` characters after it; 0 if none.
pub open spec fn ident_len(t: Seq<char>) -> nat {
    if t.len() > 0 && is_xid_start(t[0]) {
        1 + run_len(CharClass::IdentContinue, t.skip(1))
    } else {
        0
    }
}

/// Reading a numeral: the longest numeral there, or failure where none starts.
pub open spec fn spec_number(s: Snapshot) -> Outcome<Seq<char>> {
    let n = number_len(s.text);
    if n == 0 {
        Err(Failure { kind: ErrorKind::Expected("a number"), pos: s.pos })
    } else {
        Ok((s.text.take(n as int), consume(s, n as int)))
    }
}

/// Reading an identifier: the longest identifier there, or failure where none starts.
pub open spec fn spec_symbol(s: Snapshot) -> Outcome<Seq<char>> {
    let n = ident_len(s.text);
    if n == 0 {
        Err(Failure { kind: ErrorKind::Expected("an identifier"), pos: s.pos })
    } else {
        Ok((s.text.take(n as int), consume(s, n as int)))
    }
}

/// Reading an atom: a numeral where a decimal digit comes next, an identifier
/// otherwise; the choice is final.
pub open spec fn spec_atom(s: Snapshot) -> Outcome<(AtomView, SpanView)> {
    if s.text.len() > 0 && is_digit(s.text[0]) {
        (WithSpanParser { inner: MapParser { inner: NumberParser, func: NumberAtom } }).spec_parse(s)
    } else {
        (WithSpanParser { inner: MapParser { inner: SymbolParser, func: SymbolAtom } }).spec_parse(s)
    }
}

/// The numeral parser.
#[derive(Clone, Copy, Debug)]
pub struct NumberParser;

/// The identifier parser.
#[derive(Clone, Copy, Debug)]
pub struct SymbolParser;

/// Makes a numeral an atom.
#[derive(Clone, Copy, Debug)]
pub struct NumberAtom;

/// Makes an identifier an atom.
#[derive(Clone, Copy, Debug)]
pub struct SymbolAtom;

impl Transform<Number> for NumberAtom {
    type Output = Atom;

    open spec fn spec_apply(&self, v: Seq<char>) -> AtomView {
        AtomView::Number(v)
    }

    fn apply(&self, v: Number) -> (r: Atom) {
        Atom::Number(v)
    }
}

impl Transform<String> for SymbolAtom {
    type Output = Atom;

    open spec fn spec_apply(&self, v: Seq<char>) -> AtomView {
        AtomView::Symbol(v)
    }

    fn apply(&self, v: String) -> (r: Atom) {
        Atom::Symbol(v)
    }
}

impl<'a> Parser<'a> for NumberParser {
    type Item = Number;

    open spec fn spec_parse(&self, input: Snapshot) -> Outcome<Seq<char>> {
        spec_number(input)
    }

    fn parse(&self, source: &Source<'a>) -> (r: Result<(Number, Source<'a>), Error>) {
        parse_number(source)
    }
}

impl<'a> Parser<'a> for SymbolParser {
    type Item = String;

    open spec fn spec_parse(&self, input: Snapshot) -> Outcome<Seq<char>> {
        spec_symbol(input)
    }

    fn parse(&self, source: &Source<'a>) -> (r: Result<(String, Source<'a>), Error>) {
        parse_symbol(source)
    }
}

proof fn lemma_take_one(s: Seq<char>)
    requires
        s.len() > 0,
    ensures
        byte_len(s.take(1)) == crate::text::char_width(s[0]),
{
    assert(s.take(1) =~= seq![s[0]]);
    lemma_encode_single(s[0]);
}

/// The first character of `t` and the bytes it takes.
fn first_of(t: &str) -> (r: Option<(char, usize)>)
    ensures
        t@.len() == 0 ==> r is None,
        t@.len() > 0 ==> r == Some((t@[0], byte_len(t@.take(1)) as usize)),
{
    let mut it = t.chars();
    match it.next() {
        None => None,
        Some(c) => {
            proof {
                lemma_take_one(t@);
            }
            Some((c, utf8_width(c)))
        },
    }
}

/// Splits off the first character of `t`, known to be `lit`.
fn split_lit<'a>(t: &'a str, lit: &'static str) -> (r: &'a str)
    requires
        lit@.len() == 1,
        has_prefix(t@, lit@),
    ensures
        r@ == t@.skip(1),
{
    split_chars(t, Ghost(1), byte_count(lit)).1
}

/// Length in characters and bytes of the exponent at the start of `t`.
fn exponent(t: &str) -> (r: (usize, usize))
    ensures
        r.0 == exp_len(t@),
        r.1 == byte_len(t@.take(r.0 as int)),
{
    proof {
        reveal_strlit("e");
        reveal_strlit("E");
        reveal_strlit("+");
        reveal_strlit("-");
        assert("e"@ =~= seq!['e']);
        assert("E"@ =~= seq!['E']);
        assert("+"@ =~= seq!['+']);
        assert("-"@ =~= seq!['-']);
    }
    let _bytes = byte_count(t);
    let lower = starts_with(t, "e");
    let upper = starts_with(t, "E");
    if !lower && !upper {
        proof {
            if t@.len() > 0 {
                assert(t@.take(1) =~= seq![t@[0]]);
            }
        }
        return (0, 0);
    }
    proof {
        assert(t@.take(1) =~= seq![t@[0]]);
        lemma_chars_le_bytes(t@);
        assert(seq![t@[0]][0] == t@[0]);
        if lower {
            assert(t@.take(1) == "e"@);
            assert(t@[0] == 'e');
        } else {
            assert(t@.take(1) == "E"@);
            assert(t@[0] == 'E');
        }
    }
    let t1 = split_lit(t, if lower { "e" } else { "E" });
    let plus = starts_with(t1, "+");
    let minus = starts_with(t1, "-");
    let sign: usize = if plus || minus { 1 } else { 0 };
    let t2 = if plus || minus {
        split_lit(t1, if plus { "+" } else { "-" })
    } else {
        t1
    };
    proof {
        if t1@.len() > 0 {
            assert(t1@.take(1) =~= seq![t1@[0]]);
            assert(seq![t1@[0]][0] == t1@[0]);
            assert(t1@[0] == t@[1]);
        }
        assert(t1@.skip(sign as int) =~= t2@);
        assert(t@.skip((1 + sign) as int) =~= t2@);
    }
    let (c, cb) = scan(t2, CharClass::Digit);
    proof {
        lemma_run_len(CharClass::Digit, t2@);
        let ssign: nat = if t@.len() > 1 && (t@[1] == '+' || t@[1] == '-') {
            1
        } else {
            0
        };
        assert(ssign == sign);
        assert(t@.len() > 0 && (t@[0] == 'e' || t@[0] == 'E'));
        assert(exp_len(t@) == (if c > 0 { 1 + sign + c } else { 0 }));
    }
    if c == 0 {
        return (0, 0);
    }
    proof {
        let n = 1 + sign + c;
        lemma_byte_len_split(t@.take(n as int), (1 + sign) as int);
        assert(t@.take(n as int).take((1 + sign) as int) =~= t@.take((1 + sign) as int));
        assert(t@.take(n as int).skip((1 + sign) as int) =~= t2@.take(c as int));
        assert(t@.take((1 + sign) as int) =~= (if sign == 1 { seq![t@[0], t@[1]] } else { seq![t@[0]] }));
        if sign == 1 {
            lemma_byte_len_split(t@.take(2), 1);
            assert(t@.take(2).take(1) =~= seq![t@[0]]);
            assert(t@.take(2).skip(1) =~= seq![t@[1]]);
            lemma_encode_single(t@[0]);
            lemma_encode_single(t@[1]);
        } else {
            lemma_encode_single(t@[0]);
        }
        lemma_byte_len_split(t@, n as int);
    }
    (1 + sign + c, 1 + sign + cb)
}

/// Reads the numeral at the start of `source`.
pub fn parse_number<'a>(source: &Source<'a>) -> (r: Result<(Number, Source<'a>), Error>)
    requires
        source.wf(),
    ensures
        agrees(source@, r, spec_number(source@)),
{
    let t = source.inner;
    let _bytes = byte_count(t);
    proof {
        lemma_chars_le_bytes(t@);
        lemma_run_len(CharClass::Digit, t@);
        reveal_strlit(".");
        assert("."@ =~= seq!['.']);
    }
    let (a, _) = scan(t, CharClass::Digit);
    if a == 0 {
        return Err(Error { kind: ErrorKind::Expected("a number"), position: source.position });
    }
    let t1 = skip_chars(t, a);
    let mut n = a;
    if starts_with(t1, ".") {
        proof {
            assert(t1@.take(1) =~= seq![t1@[0]]);
            assert(seq![t1@[0]][0] == t1@[0]);
            lemma_run_len(CharClass::Digit, t1@.skip(1));
        }
        let t2 = skip_chars(t1, 1);
        let (b, _) = scan(t2, CharClass::Digit);
        n = a + 1;
        if b > 0 {
            let t3 = skip_chars(t2, b);
            let (e, _) = exponent(t3);
            proof {
                lemma_exp_len_bound(t3@);
            }
            n = a + 1 + b + e;
        }
    } else {
        proof {
            if t1@.len() > 0 {
                assert(t1@.take(1) =~= seq![t1@[0]]);
                assert(seq![t1@[0]][0] == t1@[0]);
            }
        }
    }
    assert(n == number_len(t@));
    let nb = prefix_bytes(t, n);
    let (lit, next) = source.consume(Ghost(n as int), nb);
    proof {
        assert(source@.text.skip(n as int) =~= source@.text.skip(source@.text.len() - next@.text.len()));
    }
    Ok((Number { literal: lit.to_owned() }, next))
}

proof fn lemma_exp_len_bound(t: Seq<char>)
    ensures
        exp_len(t) <= t.len(),
{
    if t.len() > 0 && (t[0] == 'e' || t[0] == 'E') {
        let sign: nat = if t.len() > 1 && (t[1] == '+' || t[1] == '-') {
            1
        } else {
            0
        };
        lemma_run_len(CharClass::Digit, t.skip((1 + sign) as int));
    }
}

/// Tokens are prefixes.
proof fn lemma_token_bounds(t: Seq<char>)
    ensures
        number_len(t) <= t.len(),
        ident_len(t) <= t.len(),
{
    lemma_run_len(CharClass::Digit, t);
    let a = run_len(CharClass::Digit, t);
    let t1 = t.skip(a as int);
    if a > 0 && t1.len() > 0 && t1[0] == '.' {
        let t2 = t1.skip(1);
        lemma_run_len(CharClass::Digit, t2);
        let b = run_len(CharClass::Digit, t2);
        lemma_exp_len_bound(t2.skip(b as int));
    }
    if t.len() > 0 {
        lemma_run_len(CharClass::IdentContinue, t.skip(1));
    }
}

/// Reads the identifier at the start of `source`.
pub fn parse_symbol<'a>(source: &Source<'a>) -> (r: Result<(String, Source<'a>), Error>)
    requires
        source.wf(),
    ensures
        agrees(source@, r, spec_symbol(source@)),
{
    let t = source.inner;
    let _bytes = byte_count(t);
    proof {
        lemma_chars_le_bytes(t@);
    }
    let (c, w) = match first_of(t) {
        Some(x) => x,
        None => {
            return Err(Error { kind: ErrorKind::Expected("an identifier"), position: source.position });
        },
    };
    if !xid_start(c) {
        return Err(Error { kind: ErrorKind::Expected("an identifier"), position: source.position });
    }
    let t1 = skip_chars(t, 1);
    let (k, _) = scan(t1, CharClass::IdentContinue);
    proof {
        lemma_run_len(CharClass::IdentContinue, t1@);
    }
    let n = 1 + k;
    let nb = prefix_bytes(t, n);
    let (lit, next) = source.consume(Ghost(n as int), nb);
    proof {
        assert(source@.text.skip(n as int) =~= source@.text.skip(source@.text.len() - next@.text.len()));
    }
    Ok((lit.to_owned(), next))
}

/// Reads an atom: a numeral where a decimal digit comes next, an identifier otherwise.
pub fn parse_atom<'a>(source: &Source<'a>) -> (r: Result<(WithSpan<Atom>, Source<'a>), Error>)
    requires
        source.wf(),
    ensures
        agrees(source@, r, spec_atom(source@)),
{
    let (digits, _) = scan(source.inner, CharClass::Digit);
    if digits > 0 {
        NumberParser.map(NumberAtom).with_span().parse(source)
    } else {
        SymbolParser.map(SymbolAtom).with_span().parse(source)
    }
}

/// Reading a form: an atom, or else a list from the same place; when both
/// fail, the list's failure is reported.
pub open spec fn spec_form(s: Snapshot) -> Outcome<FormView>
    decreases s.text.len(), 2nat,
{
    match spec_atom(s) {
        Ok(((a, sp), next)) => Ok((FormView::Atom(a, sp), next)),
        Err(_) => match spec_list(s) {
            Ok(((fs, sp), next)) => Ok((FormView::List(fs, sp), next)),
            Err(e) => Err(e),
        },
    }
}

/// Reading a list: `(`, white space, one or more forms separated by white
/// space, `)`; the span runs from the `(` through the `)`.
pub open spec fn spec_list(s: Snapshot) -> Outcome<(Seq<FormView>, SpanView)>
    decreases s.text.len(), 1nat,
{
    match (LiteralParser { value: "(" }).spec_parse(s) {
        Err(e) => Err(e),
        Ok((_, s0)) => {
            let s1 = skip_ws(s0);
            if s1.text.len() < s.text.len() {
                match spec_forms(s1) {
                    Err(e) => Err(e),
                    Ok((fs, s2)) => match (LiteralParser { value: ")" }).spec_parse(s2) {
                        Err(e) => Err(e),
                        Ok((_, next)) => Ok(((fs, span_of(s.pos, consumed(s, next))), next)),
                    },
                }
            } else {
                Err(Failure { kind: ErrorKind::Expected("("), pos: s.pos })
            }
        },
    }
}

/// Reading one or more forms separated by white space; the white space after
/// the last is consumed.
pub open spec fn spec_forms(s: Snapshot) -> Outcome<Seq<FormView>>
    decreases s.text.len(), 3nat,
{
    match spec_form(s) {
        Err(e) => Err(e),
        Ok((f, next)) => if next.text.len() < s.text.len() {
            Ok((seq![f] + more_forms(next).0, more_forms(next).1))
        } else {
            Ok((seq![f], next))
        },
    }
}

/// The forms after the first: white space, then a form, as long as one reads.
pub open spec fn more_forms(s: Snapshot) -> (Seq<FormView>, Snapshot)
    decreases s.text.len(), 4nat,
{
    let t = skip_ws(s);
    if t.text.len() <= s.text.len() {
        match spec_form(t) {
            Ok((f, n)) => if n.text.len() < t.text.len() {
                (seq![f] + more_forms(n).0, more_forms(n).1)
            } else {
                (Seq::empty(), t)
            },
            Err(_) => (Seq::empty(), t),
        }
    } else {
        (Seq::empty(), t)
    }
}

/// Reading the forms of a whole text, with their span.
pub open spec fn spec_read(s: Snapshot) -> Outcome<(Seq<FormView>, SpanView)> {
    match spec_forms(s) {
        Ok((fs, next)) => Ok(((fs, span_of(s.pos, consumed(s, next))), next)),
        Err(e) => Err(e),
    }
}

/// Reads a form: an atom, or else a list from the same place.
pub fn parse_form<'a>(source: &Source<'a>) -> (r: Result<(Form, Source<'a>), Error>)
    requires
        source.wf(),
    ensures
        match r {
            Ok((f, next)) => spec_form(source@) == Ok::<(FormView, Snapshot), Failure>(
                (f.model(), next@),
            ) && next.wf() && is_rest(source@, next@) && next@.text.len() < source@.text.len(),
            Err(e) => spec_form(source@) == Err::<(FormView, Snapshot), Failure>(e@),
        },
    decreases source@.text.len(), 2nat,
{
    proof {
        lemma_token_bounds(source@.text);
    }
    match parse_atom(source) {
        Ok((a, next)) => {
            proof {
                lemma_atom_consumes(source@);
            }
            Ok((Form::Atom(a), next))
        },
        Err(_) => match parse_list(source) {
            Ok((l, next)) => Ok((Form::List(l), next)),
            Err(e) => Err(e),
        },
    }
}

/// An atom that reads consumes text.
proof fn lemma_atom_consumes(s: Snapshot)
    requires
        spec_atom(s) is Ok,
    ensures
        spec_atom(s)->Ok_0.1.text.len() < s.text.len(),
{
    lemma_token_bounds(s.text);
}

/// Reads the `(` that opens a list.
pub fn parse_open_paren<'a>(source: &Source<'a>) -> (r: Result<(&'static str, Source<'a>), Error>)
    requires
        source.wf(),
    ensures
        agrees(source@, r, (LiteralParser { value: "(" }).spec_parse(source@)),
{
    LiteralParser { value: "(" }.parse(source)
}

/// Reads the `)` that closes a list.
pub fn parse_close_paren<'a>(source: &Source<'a>) -> (r: Result<(&'static str, Source<'a>), Error>)
    requires
        source.wf(),
    ensures
        agrees(source@, r, (LiteralParser { value: ")" }).spec_parse(source@)),
{
    LiteralParser { value: ")" }.parse(source)
}

/// Reads a list: `(`, white space, one or more forms, `)`.
pub fn parse_list<'a>(source: &Source<'a>) -> (r: Result<(List, Source<'a>), Error>)
    requires
        source.wf(),
    ensures
        match r {
            Ok((l, next)) => spec_list(source@) == Ok::<((Seq<FormView>, SpanView), Snapshot), Failure>(
                ((forms_model(&l.value), l.span@), next@),
            ) && next.wf() && is_rest(source@, next@) && next@.text.len() < source@.text.len(),
            Err(e) => spec_list(source@) == Err::<((Seq<FormView>, SpanView), Snapshot), Failure>(e@),
        },
    decreases source@.text.len(), 1nat,
{
    let s0 = match parse_open_paren(source) {
        Ok((_, s0)) => s0,
        Err(e) => return Err(e),
    };
    proof {
        reveal_strlit("(");
        assert("("@.len() == 1);
    }
    let mut s1 = s0;
    s1.skip_whitespace();
    proof {
        lemma_skip_ws_rest(s0@);
        lemma_is_rest_trans(source@, s0@, s1@);
    }
    let (forms, s2) = match parse_forms(&s1) {
        Ok(x) => x,
        Err(e) => return Err(e),
    };
    let next = match parse_close_paren(&s2) {
        Ok((_, next)) => next,
        Err(e) => return Err(e),
    };
    proof {
        lemma_is_rest_trans(source@, s1@, s2@);
        lemma_is_rest_trans(source@, s2@, next@);
    }
    let span = crate::combinators::span_to(source, &next);
    Ok((WithSpan { value: forms, span }, next))
}

/// Reads one or more forms separated by white space, and the white space after.
pub fn parse_forms<'a>(source: &Source<'a>) -> (r: Result<(Vec<Form>, Source<'a>), Error>)
    requires
        source.wf(),
    ensures
        match r {
            Ok((v, next)) => spec_forms(source@) == Ok::<(Seq<FormView>, Snapshot), Failure>(
                (forms_model(&v), next@),
            ) && next.wf() && is_rest(source@, next@) && next@.text.len() < source@.text.len(),
            Err(e) => spec_forms(source@) == Err::<(Seq<FormView>, Snapshot), Failure>(e@),
        },
    decreases source@.text.len(), 3nat,
{
    let (first, mut next) = match parse_form(source) {
        Ok(x) => x,
        Err(e) => return Err(e),
    };
    let ghost f0 = first.model();
    let ghost goal = more_forms(next@);
    let mut items: Vec<Form> = Vec::new();
    items.push(first);
    proof {
        assert(forms_model(&items) =~= seq![f0]);
    }
    loop
        invariant_except_break
            forms_model(&items) + more_forms(next@).0 == seq![f0] + goal.0,
            more_forms(next@).1 == goal.1,
        invariant
            next.wf(),
            is_rest(source@, next@),
            next@.text.len() < source@.text.len(),
        ensures
            forms_model(&items) == seq![f0] + goal.0,
            next@ == goal.1,
            next.wf(),
            is_rest(source@, next@),
            next@.text.len() < source@.text.len(),
        decreases next@.text.len(),
    {
        let ghost before = next@;
        let ghost dv = forms_model(&items);
        let mut t = next;
        t.skip_whitespace();
        proof {
            lemma_skip_ws_rest(before);
            lemma_is_rest_trans(source@, before, t@);
        }
        match parse_form(&t) {
            Ok((item, n)) => {
                let ghost iv = item.model();
                items.push(item);
                next = n;
                proof {
                    lemma_is_rest_trans(source@, t@, n@);
                    assert(forms_model(&items) =~= dv.push(iv));
                    assert(dv + more_forms(before).0 =~= forms_model(&items) + more_forms(next@).0);
                }
            },
            Err(_) => {
                next = t;
                proof {
                    assert(more_forms(before).0 =~= Seq::<FormView>::empty());
                    assert(dv + more_forms(before).0 =~= dv);
                }
                break;
            },
        }
    }
    Ok((items, next))
}

/// Reads the forms at the start of `source`, with their span; what follows
/// them is left unread.
pub fn parse_list_contents<'a>(source: &Source<'a>) -> (r: Result<(List, Source<'a>), Error>)
    requires
        source.wf(),
    ensures
        match r {
            Ok((l, next)) => spec_read(source@) == Ok::<((Seq<FormView>, SpanView), Snapshot), Failure>(
                ((forms_model(&l.value), l.span@), next@),
            ) && next.wf() && is_rest(source@, next@),
            Err(e) => spec_read(source@) == Err::<((Seq<FormView>, SpanView), Snapshot), Failure>(e@),
        },
{
    match parse_forms(source) {
        Ok((forms, next)) => {
            let span = crate::combinators::span_to(source, &next);
            Ok((WithSpan { value: forms, span }, next))
        },
        Err(e) => Err(e),
    }
}

/// Reads the forms of `text` from line 1, column 0.
pub fn read(text: &str) -> (r: Result<List, Error>)
    requires
        text@.len() < usize::MAX,
    ensures
        match r {
            Ok(l) => spec_read(Snapshot { text: text@, pos: crate::position::Pos { line: 1, col: 0 } }) matches Ok((m, _)) && m == (forms_model(&l.value), l.span@),
            Err(e) => spec_read(Snapshot { text: text@, pos: crate::position::Pos { line: 1, col: 0 } }) == Err::<((Seq<FormView>, SpanView), Snapshot), Failure>(e@),
        },
{
    match parse_list_contents(&Source::new(text)) {
        Ok((l, _)) => Ok(l),
        Err(e) => Err(e),
    }
}

/// An identifier starts exactly where an `XID_Start` character comes next:
/// a non-Latin letter such as `λ` starts one, a `:` does not.
pub proof fn law_identifier_start(s: Snapshot)
    ensures
        spec_symbol(s) is Ok <==> (s.text.len() > 0 && is_xid_start(s.text[0])),
{
}

} // verus!
