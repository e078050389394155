//! The primitive and composite parsers.
use vstd::prelude::*;
use crate::position::{span_of, SpanView, WithSpan};
use crate::parser::{
    consumed, is_rest, lemma_is_rest_trans, Either, Error, ErrorKind, Failure, Outcome,
    Parser, Transform,
};
use crate::scan::{byte_count, starts_with};
use crate::source::{consume, lemma_consume_fits, skip_ws, Snapshot, Source};
use crate::scan::{lemma_run_len, CharClass};
use crate::text::{byte_len, lemma_byte_len_split, lemma_chars_le_bytes};

verus! {

/// Whether `text` begins with `prefix`.
pub open spec fn has_prefix(text: Seq<char>, prefix: Seq<char>) -> bool {
    prefix.len() <= text.len() && text.take(prefix.len() as int) == prefix
}

/// Matches a fixed piece of text.
#[derive(Clone, Copy, Debug, PartialEq, Eq)]
pub struct LiteralParser {
    pub value: &'static str,
}

pub fn literal_parser(value: &'static str) -> (r: LiteralParser)
    ensures
        r.value == value,
{
    LiteralParser { value }
}

impl LiteralParser {
    pub fn new(value: &'static str) -> (r: LiteralParser)
        ensures
            r.value == value,
    {
        LiteralParser { value }
    }
}

impl<'a> Parser<'a> for LiteralParser {
    type Item = &'static str;

    /// Succeeds exactly when the text begins with the literal, consuming it;
    /// else fails where it stands, expecting the literal.
    open spec fn spec_parse(&self, input: Snapshot) -> Outcome<Seq<char>> {
        if has_prefix(input.text, self.value@) {
            Ok((self.value@, consume(input, self.value@.len() as int)))
        } else {
            Err(Failure { kind: ErrorKind::Expected(self.value), pos: input.pos })
        }
    }

    fn parse(&self, source: &Source<'a>) -> (r: Result<(&'static str, Source<'a>), Error>) {
        if starts_with(source.inner, self.value) {
            let n = byte_count(self.value);
            let (_, next) = source.consume(Ghost(self.value@.len() as int), n);
            proof {
                assert(source@.text.skip(source@.text.len() - next@.text.len()) =~= next@.text);
                assert(is_rest(source@, next@));
                assert(self.value.deep_view() == self.value@);
                assert(self.spec_parse(source@) == Outcome::<Seq<char>>::Ok((self.value@, next@)));
            }
            Ok((self.value, next))
        } else {
            let e = Error { kind: ErrorKind::Expected(self.value), position: source.position };
            assert(self.spec_parse(source@) == Outcome::<Seq<char>>::Err(e@));
            Err(e)
        }
    }
}

/// Applies a function to the values of a parser.
#[derive(Clone, Copy, Debug)]
pub struct MapParser<P, F> {
    pub inner: P,
    pub func: F,
}

impl<'a, P: Parser<'a>, F: Transform<P::Item>> Parser<'a> for MapParser<P, F> {
    type Item = F::Output;

    open spec fn spec_parse(&self, input: Snapshot) -> Outcome<
        <F::Output as DeepView>::V,
    > {
        match self.inner.spec_parse(input) {
            Ok((v, next)) => Ok((self.func.spec_apply(v), next)),
            Err(e) => Err(e),
        }
    }

    fn parse(&self, source: &Source<'a>) -> (r: Result<(F::Output, Source<'a>), Error>) {
        match self.inner.parse(source) {
            Ok((v, next)) => Ok((self.func.apply(v), next)),
            Err(e) => Err(e),
        }
    }
}

/// A parser that may be absent: never fails.
#[derive(Clone, Copy, Debug)]
pub struct Optional<P> {
    pub inner: P,
}

/// The name the optional parser also goes by.
pub type MaybeParser<P> = Optional<P>;

impl<P> Optional<P> {
    pub fn new(inner: P) -> (r: Optional<P>)
        ensures
            r.inner == inner,
    {
        Optional { inner }
    }
}

impl<'a, P: Parser<'a>> Parser<'a> for Optional<P> {
    type Item = Option<P::Item>;

    /// On a failure of the inner parser: nothing, with nothing consumed.
    open spec fn spec_parse(&self, input: Snapshot) -> Outcome<Option<<P::Item as DeepView>::V>> {
        match self.inner.spec_parse(input) {
            Ok((v, next)) => Ok((Some(v), next)),
            Err(_) => Ok((None, input)),
        }
    }

    fn parse(&self, source: &Source<'a>) -> (r: Result<(Option<P::Item>, Source<'a>), Error>) {
        match self.inner.parse(source) {
            Ok((v, next)) => Ok((Some(v), next)),
            Err(_) => {
                proof {
                    assert(source@.text.skip(0) =~= source@.text);
                }
                Ok((None, *source))
            },
        }
    }
}

/// One parser, then another from where the first stopped.
#[derive(Clone, Copy, Debug)]
pub struct ChainParser<P, Q> {
    pub left: P,
    pub right: Q,
}

impl<P, Q> ChainParser<P, Q> {
    pub fn new(left: P, right: Q) -> (r: ChainParser<P, Q>)
        ensures
            r.left == left,
            r.right == right,
    {
        ChainParser { left, right }
    }
}

impl<'a, P: Parser<'a>, Q: Parser<'a>> Parser<'a> for ChainParser<P, Q> {
    type Item = (P::Item, Q::Item);

    /// Fails with the first failure; the second parser runs only after the first succeeded.
    open spec fn spec_parse(&self, input: Snapshot) -> Outcome<
        (<P::Item as DeepView>::V, <Q::Item as DeepView>::V),
    > {
        match self.left.spec_parse(input) {
            Err(e) => Err(e),
            Ok((a, mid)) => match self.right.spec_parse(mid) {
                Err(e) => Err(e),
                Ok((b, next)) => Ok(((a, b), next)),
            },
        }
    }

    fn parse(&self, source: &Source<'a>) -> (r: Result<((P::Item, Q::Item), Source<'a>), Error>) {
        match self.left.parse(source) {
            Err(e) => Err(e),
            Ok((a, mid)) => match self.right.parse(&mid) {
                Err(e) => Err(e),
                Ok((b, next)) => {
                    proof {
                        lemma_is_rest_trans(source@, mid@, next@);
                    }
                    Ok(((a, b), next))
                },
            },
        }
    }
}

/// Ordered choice: the left parser, or else the right one from the same place.
#[derive(Clone, Copy, Debug)]
pub struct Or<L, R> {
    pub left: L,
    pub right: R,
}

impl<'a, L: Parser<'a>, R: Parser<'a>> Parser<'a> for Or<L, R> {
    type Item = Either<L::Item, R::Item>;

    /// The right parser runs only when the left one fails, and then its
    /// outcome, failure included, is the outcome.
    open spec fn spec_parse(&self, input: Snapshot) -> Outcome<
        Either<<L::Item as DeepView>::V, <R::Item as DeepView>::V>,
    > {
        match self.left.spec_parse(input) {
            Ok((v, next)) => Ok((Either::Left(v), next)),
            Err(_) => match self.right.spec_parse(input) {
                Ok((v, next)) => Ok((Either::Right(v), next)),
                Err(e) => Err(e),
            },
        }
    }

    fn parse(&self, source: &Source<'a>) -> (r: Result<(Either<L::Item, R::Item>, Source<'a>), Error>) {
        match self.left.parse(source) {
            Ok((v, next)) => Ok((Either::Left(v), next)),
            Err(_) => match self.right.parse(source) {
                Ok((v, next)) => Ok((Either::Right(v), next)),
                Err(e) => Err(e),
            },
        }
    }
}

/// `left`, then the inner parser, then `right`.
#[derive(Clone, Copy, Debug)]
pub struct Surrounded<P, L, R> {
    pub inner: P,
    pub left: L,
    pub right: R,
}

impl<'a, P: Parser<'a>, L: Parser<'a>, R: Parser<'a>> Parser<'a> for Surrounded<P, L, R> {
    type Item = (L::Item, P::Item, R::Item);

    open spec fn spec_parse(&self, input: Snapshot) -> Outcome<
        (<L::Item as DeepView>::V, <P::Item as DeepView>::V, <R::Item as DeepView>::V),
    > {
        match self.left.spec_parse(input) {
            Err(e) => Err(e),
            Ok((l, s1)) => match self.inner.spec_parse(s1) {
                Err(e) => Err(e),
                Ok((v, s2)) => match self.right.spec_parse(s2) {
                    Err(e) => Err(e),
                    Ok((r, next)) => Ok(((l, v, r), next)),
                },
            },
        }
    }

    fn parse(&self, source: &Source<'a>) -> (r: Result<((L::Item, P::Item, R::Item), Source<'a>), Error>) {
        let (l, s1) = match self.left.parse(source) {
            Ok(x) => x,
            Err(e) => return Err(e),
        };
        let (v, s2) = match self.inner.parse(&s1) {
            Ok(x) => x,
            Err(e) => return Err(e),
        };
        let (r, next) = match self.right.parse(&s2) {
            Ok(x) => x,
            Err(e) => return Err(e),
        };
        proof {
            lemma_is_rest_trans(source@, s1@, s2@);
            lemma_is_rest_trans(source@, s2@, next@);
        }
        Ok(((l, v, r), next))
    }
}

/// Pairs a parser's values with the span of the text it consumed.
#[derive(Clone, Copy, Debug, PartialEq, Eq)]
pub struct WithSpanParser<P> {
    pub inner: P,
}

impl<'a, P: Parser<'a>> Parser<'a> for WithSpanParser<P> {
    type Item = WithSpan<P::Item>;

    /// The span runs from the entry position over all the text consumed,
    /// whatever the inner parser did on the way.
    open spec fn spec_parse(&self, input: Snapshot) -> Outcome<(<P::Item as DeepView>::V, SpanView)> {
        match self.inner.spec_parse(input) {
            Ok((v, next)) => Ok(((v, span_of(input.pos, consumed(input, next))), next)),
            Err(e) => Err(e),
        }
    }

    fn parse(&self, source: &Source<'a>) -> (r: Result<(WithSpan<P::Item>, Source<'a>), Error>) {
        match self.inner.parse(source) {
            Err(e) => Err(e),
            Ok((value, next)) => {
                let span = span_to(source, &next);
                Ok((WithSpan { value, span }, next))
            },
        }
    }
}

/// The span of the text consumed from `source` to `next`.
pub fn span_to<'a>(source: &Source<'a>, next: &Source<'a>) -> (r: crate::position::Span)
    requires
        source.wf(),
        is_rest(source@, next@),
    ensures
        r@ == span_of(source@.pos, consumed(source@, next@)),
{
    let ghost k = source@.text.len() - next@.text.len();
    proof {
        lemma_byte_len_split(source@.text, k);
        lemma_consume_fits(source@, k);
    }
    let len = byte_count(source.inner) - byte_count(next.inner);
    let (taken, _) = source.consume(Ghost(k), len);
    source.position.span(taken)
}

/// Of two snapshots one of which is left of the other, the shorter in
/// characters is the shorter in bytes.
pub proof fn lemma_rest_shorter(t: Snapshot, n: Snapshot)
    requires
        is_rest(t, n),
    ensures
        n.text.len() < t.text.len() <==> byte_len(n.text) < byte_len(t.text),
{
    let k = t.text.len() - n.text.len();
    lemma_byte_len_split(t.text, k);
    lemma_chars_le_bytes(t.text.take(k));
    if k == 0 {
        assert(t.text.take(k) =~= Seq::<char>::empty());
        assert(byte_len(Seq::<char>::empty()) == 0);
    }
}

/// White space skipping leaves a rest of the snapshot.
pub proof fn lemma_skip_ws_rest(s: Snapshot)
    ensures
        is_rest(s, skip_ws(s)),
{
    lemma_run_len(CharClass::Whitespace, s.text);
}

/// The items after the first of a white-space-delimited repetition, and the
/// snapshot where it stops. It stops at the first failure, and at the first
/// item that consumes nothing, which would otherwise repeat forever; either
/// way the white space before it stays consumed.
pub open spec fn ws_items<'a, P: Parser<'a>>(p: P, s: Snapshot) -> (
    Seq<<P::Item as DeepView>::V>,
    Snapshot,
)
    decreases s.text.len(),
{
    let t = skip_ws(s);
    match p.spec_parse(t) {
        Ok((v, n)) => if n.text.len() < t.text.len() && t.text.len() <= s.text.len() {
            (seq![v] + ws_items(p, n).0, ws_items(p, n).1)
        } else {
            (Seq::empty(), t)
        },
        Err(_) => (Seq::empty(), t),
    }
}

/// One or more of a parser, with white space skipped after each.
#[derive(Clone, Copy, Debug)]
pub struct WhitespaceDelimited<P> {
    pub inner: P,
}

/// The name the white-space-delimited repetition also goes by.
pub type RepeatParser<P> = WhitespaceDelimited<P>;

impl<P> WhitespaceDelimited<P> {
    pub fn new(inner: P) -> (r: WhitespaceDelimited<P>)
        ensures
            r.inner == inner,
    {
        WhitespaceDelimited { inner }
    }
}

impl<'a, P: Parser<'a>> Parser<'a> for WhitespaceDelimited<P> {
    type Item = Vec<P::Item>;

    /// The first item is required: its failure is the failure.
    open spec fn spec_parse(&self, input: Snapshot) -> Outcome<Seq<<P::Item as DeepView>::V>> {
        match self.inner.spec_parse(input) {
            Err(e) => Err(e),
            Ok((v, next)) => Ok((seq![v] + ws_items(self.inner, next).0, ws_items(self.inner, next).1)),
        }
    }

    fn parse(&self, source: &Source<'a>) -> (r: Result<(Vec<P::Item>, Source<'a>), Error>) {
        let (first, mut next) = match self.inner.parse(source) {
            Ok(x) => x,
            Err(e) => return Err(e),
        };
        let ghost v0 = first.deep_view();
        let ghost goal = ws_items(self.inner, next@);
        let mut items: Vec<P::Item> = Vec::new();
        items.push(first);
        proof {
            assert(items.deep_view() =~= seq![v0]);
            assert(seq![v0] + goal.0 =~= items.deep_view() + ws_items(self.inner, next@).0);
        }
        loop
            invariant_except_break
                items.deep_view() + ws_items(self.inner, next@).0 == seq![v0] + goal.0,
                ws_items(self.inner, next@).1 == goal.1,
            invariant
                next.wf(),
                is_rest(source@, next@),
            ensures
                next.wf(),
                is_rest(source@, next@),
                items.deep_view() == seq![v0] + goal.0,
                next@ == goal.1,
            decreases next@.text.len(),
        {
            let ghost before = next@;
            let ghost dv = items.deep_view();
            let mut t = next;
            t.skip_whitespace();
            proof {
                lemma_skip_ws_rest(before);
                lemma_is_rest_trans(source@, before, t@);
            }
            match self.inner.parse(&t) {
                Ok((item, n)) => {
                    proof {
                        lemma_rest_shorter(t@, n@);
                    }
                    if byte_count(n.inner) < byte_count(t.inner) {
                        let ghost iv = item.deep_view();
                        items.push(item);
                        next = n;
                        proof {
                            lemma_is_rest_trans(source@, t@, n@);
                            assert(items.deep_view() =~= dv.push(iv));
                            assert(dv + ws_items(self.inner, before).0 =~= items.deep_view()
                                + ws_items(self.inner, next@).0);
                        }
                    } else {
                        next = t;
                        proof {
                            assert(ws_items(self.inner, before).0 =~= Seq::<<P::Item as DeepView>::V>::empty());
                            assert(dv + ws_items(self.inner, before).0 =~= dv);
                        }
                        break;
                    }
                },
                Err(_) => {
                    next = t;
                    proof {
                        assert(ws_items(self.inner, before).0 =~= Seq::<<P::Item as DeepView>::V>::empty());
                        assert(dv + ws_items(self.inner, before).0 =~= dv);
                    }
                    break;
                },
            }
        }
        Ok((items, next))
    }
}

/// `o` with `vs0` put before its items.
pub open spec fn prepend<V>(vs0: Seq<V>, o: Outcome<Seq<V>>) -> Outcome<Seq<V>> {
    match o {
        Ok((vs, next)) => Ok((vs0 + vs, next)),
        Err(e) => Err(e),
    }
}

proof fn lemma_prepend_push<V>(vs0: Seq<V>, v: V, o: Outcome<Seq<V>>)
    ensures
        prepend(vs0, prepend(seq![v], o)) == prepend(vs0.push(v), o),
{
    match o {
        Ok((vs, next)) => {
            assert(vs0 + (seq![v] + vs) =~= vs0.push(v) + vs);
        },
        Err(e) => {},
    }
}

/// The items after the first of a delimited repetition, and where it stops:
/// at the first failure of the delimiter; a failure of the item after a
/// delimiter is the failure of the whole. It also stops, before the
/// delimiter, where a delimiter and an item consume nothing together.
pub open spec fn delim_items<'a, P: Parser<'a>, D: Parser<'a>>(p: P, d: D, s: Snapshot) -> Outcome<
    Seq<<P::Item as DeepView>::V>,
>
    decreases s.text.len(),
{
    match d.spec_parse(s) {
        Err(_) => Ok((Seq::empty(), s)),
        Ok((_, ds)) => match p.spec_parse(ds) {
            Err(e) => Err(e),
            Ok((v, n)) => if n.text.len() < s.text.len() {
                prepend(seq![v], delim_items(p, d, n))
            } else {
                Ok((Seq::empty(), s))
            },
        },
    }
}

/// One or more of a parser, with a delimiter parser between each two.
#[derive(Clone, Copy, Debug)]
pub struct Delimited<P, D> {
    pub inner: P,
    pub delim: D,
}

impl<P, D> Delimited<P, D> {
    pub fn new(inner: P, delim: D) -> (r: Delimited<P, D>)
        ensures
            r.inner == inner,
            r.delim == delim,
    {
        Delimited { inner, delim }
    }
}

impl<'a, P: Parser<'a>, D: Parser<'a>> Parser<'a> for Delimited<P, D> {
    type Item = Vec<P::Item>;

    open spec fn spec_parse(&self, input: Snapshot) -> Outcome<Seq<<P::Item as DeepView>::V>> {
        match self.inner.spec_parse(input) {
            Err(e) => Err(e),
            Ok((v, next)) => prepend(seq![v], delim_items(self.inner, self.delim, next)),
        }
    }

    fn parse(&self, source: &Source<'a>) -> (r: Result<(Vec<P::Item>, Source<'a>), Error>) {
        let (first, mut next) = match self.inner.parse(source) {
            Ok(x) => x,
            Err(e) => return Err(e),
        };
        let ghost target = self.spec_parse(source@);
        let mut items: Vec<P::Item> = Vec::new();
        let ghost v0 = first.deep_view();
        items.push(first);
        proof {
            assert(items.deep_view() =~= seq![v0]);
        }
        loop
            invariant
                next.wf(),
                is_rest(source@, next@),
                prepend(items.deep_view(), delim_items(self.inner, self.delim, next@)) == target,
                target == self.spec_parse(source@),
            decreases next@.text.len(),
        {
            let ghost before = next@;
            let ghost dv = items.deep_view();
            let ds = match self.delim.parse(&next) {
                Ok((_, ds)) => ds,
                Err(_) => {
                    proof {
                        assert(dv + Seq::<<P::Item as DeepView>::V>::empty() =~= dv);
                    }
                    return Ok((items, next));
                },
            };
            match self.inner.parse(&ds) {
                Err(e) => {
                    return Err(e);
                },
                Ok((item, n)) => {
                    proof {
                        lemma_is_rest_trans(before, ds@, n@);
                        lemma_rest_shorter(before, n@);
                    }
                    if byte_count(n.inner) < byte_count(next.inner) {
                        let ghost iv = item.deep_view();
                        items.push(item);
                        proof {
                            lemma_is_rest_trans(source@, before, n@);
                            assert(items.deep_view() =~= dv.push(iv));
                            lemma_prepend_push(dv, iv, delim_items(self.inner, self.delim, n@));
                        }
                        next = n;
                    } else {
                        proof {
                            assert(dv + Seq::<<P::Item as DeepView>::V>::empty() =~= dv);
                        }
                        return Ok((items, next));
                    }
                },
            }
        }
    }
}

/// Where running the parsers of `chain` from the `i`-th on, each from where
/// the one before stopped, ends; or the first failure.
pub open spec fn concat_from<'a, P: Parser<'a>>(chain: Seq<P>, i: int, s: Snapshot) -> Result<
    Snapshot,
    Failure,
>
    decreases chain.len() - i,
{
    if i < 0 || i >= chain.len() {
        Ok(s)
    } else {
        match chain[i].spec_parse(s) {
            Err(e) => Err(e),
            Ok((_, n)) => concat_from(chain, i + 1, n),
        }
    }
}

/// A sequence of parsers run one after another; the value is all the text
/// they consumed.
#[derive(Clone, Debug)]
pub struct ConcatParser<P> {
    pub chain: Vec<P>,
}

impl<P> ConcatParser<P> {
    pub fn new(chain: Vec<P>) -> (r: ConcatParser<P>)
        ensures
            r.chain == chain,
    {
        ConcatParser { chain }
    }
}

impl<'a, P: Parser<'a>> Parser<'a> for ConcatParser<P> {
    type Item = &'a str;

    open spec fn spec_parse(&self, input: Snapshot) -> Outcome<Seq<char>> {
        match concat_from(self.chain@, 0, input) {
            Ok(last) => Ok((consumed(input, last), last)),
            Err(e) => Err(e),
        }
    }

    fn parse(&self, source: &Source<'a>) -> (r: Result<(&'a str, Source<'a>), Error>) {
        let mut next = *source;
        let mut i: usize = 0;
        proof {
            assert(source@.text.skip(0) =~= source@.text);
        }
        while i < self.chain.len()
            invariant
                i <= self.chain@.len(),
                next.wf(),
                is_rest(source@, next@),
                concat_from(self.chain@, i as int, next@) == concat_from(self.chain@, 0, source@),
            decreases self.chain@.len() - i,
        {
            match self.chain[i].parse(&next) {
                Err(e) => return Err(e),
                Ok((_, n)) => {
                    proof {
                        lemma_is_rest_trans(source@, next@, n@);
                    }
                    next = n;
                },
            }
            i = i + 1;
        }
        let ghost k = source@.text.len() - next@.text.len();
        proof {
            lemma_byte_len_split(source@.text, k);
        }
        let len = byte_count(source.inner) - byte_count(next.inner);
        let (taken, _) = source.consume(Ghost(k), len);
        Ok((taken, next))
    }
}

/// Ordered choice commits: once the left branch of an `Or` has succeeded,
/// what follows it decides the outcome alone. The right branch is not
/// consulted, even when what follows fails.
pub proof fn law_or_commits<'a, L: Parser<'a>, R: Parser<'a>, Q: Parser<'a>>(
    l: L,
    r: R,
    q: Q,
    input: Snapshot,
)
    requires
        l.spec_parse(input) is Ok,
    ensures
        (ChainParser { left: Or { left: l, right: r }, right: q }).spec_parse(input) == (match q.spec_parse(
            l.spec_parse(input)->Ok_0.1,
        ) {
            Ok((w, next)) => Outcome::<
                (
                    Either<<L::Item as DeepView>::V, <R::Item as DeepView>::V>,
                    <Q::Item as DeepView>::V,
                ),
            >::Ok(((Either::Left(l.spec_parse(input)->Ok_0.0), w), next)),
            Err(e) => Err(e),
        }),
{
}

/// A white-space-delimited repetition needs one item: it fails exactly when
/// its parser fails at the start, and otherwise yields at least one item.
pub proof fn law_repeat_needs_one<'a, P: Parser<'a>>(p: P, input: Snapshot)
    ensures
        (WhitespaceDelimited { inner: p }).spec_parse(input) is Err <==> p.spec_parse(input) is Err,
        (WhitespaceDelimited { inner: p }).spec_parse(input) is Ok ==> (WhitespaceDelimited {
            inner: p,
        }).spec_parse(input)->Ok_0.0.len() >= 1,
{
}

} // verus!
