//! Parse errors and the `Parser` trait: every parser states, as a spec
//! function, what it makes of a snapshot, and its executable `parse` agrees.
use vstd::prelude::*;
use crate::position::{Pos, Position};
use crate::source::{Snapshot, Source};
use crate::combinators::{Delimited, MapParser, Optional, Or, Surrounded, WhitespaceDelimited, WithSpanParser};

verus! {

/// What a parse failure reports.
#[derive(Clone, Copy, Debug, PartialEq, Eq)]
pub enum ErrorKind {
    /// The input did not hold what the description names.
    Expected(&'static str),
    /// The input ended too early.
    Eof,
}

/// A parse failure and the position where it was detected.
#[derive(Clone, Copy, Debug, PartialEq, Eq)]
pub struct Error {
    pub kind: ErrorKind,
    pub position: Position,
}

/// A parse failure as contracts see it.
pub struct Failure {
    pub kind: ErrorKind,
    pub pos: Pos,
}

impl View for Error {
    type V = Failure;

    open spec fn view(&self) -> Failure {
        Failure { kind: self.kind, pos: self.position@ }
    }
}

/// The value of an ordered choice: which branch gave it.
#[derive(Clone, Copy, Debug, PartialEq, Eq)]
pub enum Either<L, R> {
    Left(L),
    Right(R),
}

impl<L: DeepView, R: DeepView> DeepView for Either<L, R> {
    type V = Either<L::V, R::V>;

    open spec fn deep_view(&self) -> Either<L::V, R::V> {
        match self {
            Either::Left(l) => Either::Left(l.deep_view()),
            Either::Right(r) => Either::Right(r.deep_view()),
        }
    }
}

/// What a parser makes of a snapshot: a value and the snapshot left, or a failure.
pub type Outcome<V> = Result<(V, Snapshot), Failure>;

/// Whether `next` is what is left of `input` once a prefix of its text is consumed.
pub open spec fn is_rest(input: Snapshot, next: Snapshot) -> bool {
    &&& next.text.len() <= input.text.len()
    &&& next.text == input.text.skip(input.text.len() - next.text.len())
}

/// The text consumed on the way from `input` to `next`.
pub open spec fn consumed(input: Snapshot, next: Snapshot) -> Seq<char> {
    input.text.take(input.text.len() - next.text.len())
}

/// Whether an executable result `r` on `input` is the outcome `o`.
pub open spec fn agrees<'a, T: DeepView>(
    input: Snapshot,
    r: Result<(T, Source<'a>), Error>,
    o: Outcome<T::V>,
) -> bool {
    match r {
        Ok((v, next)) => o == Ok::<(T::V, Snapshot), Failure>((v.deep_view(), next@)) && next.wf()
            && is_rest(input, next@),
        Err(e) => o == Err::<(T::V, Snapshot), Failure>(e@),
    }
}

/// Being left of what was left of `a` is being left of `a`.
pub proof fn lemma_is_rest_trans(a: Snapshot, b: Snapshot, c: Snapshot)
    requires
        is_rest(a, b),
        is_rest(b, c),
    ensures
        is_rest(a, c),
{
    assert(c.text =~= a.text.skip(a.text.len() - c.text.len()));
}

/// A parser: from a snapshot, a value and the snapshot left, or a failure.
pub trait Parser<'a>: Sized {
    type Item: DeepView;

    /// The outcome of parsing `input`.
    spec fn spec_parse(&self, input: Snapshot) -> Outcome<<Self::Item as DeepView>::V>;

    fn parse(&self, source: &Source<'a>) -> (r: Result<(Self::Item, Source<'a>), Error>)
        requires
            source.wf(),
        ensures
            agrees(source@, r, self.spec_parse(source@)),
    ;

    /// This parser with `func` applied to its values.
    fn map<F: Transform<Self::Item>>(self, func: F) -> (r: MapParser<Self, F>)
        ensures
            r.inner == self,
            r.func == func,
    {
        MapParser { inner: self, func }
    }

    /// This parser, or nothing.
    fn optional(self) -> (r: Optional<Self>)
        ensures
            r.inner == self,
    {
        Optional { inner: self }
    }

    /// One or more of this parser, separated by white space.
    fn whitespace_delimited(self) -> (r: WhitespaceDelimited<Self>)
        ensures
            r.inner == self,
    {
        WhitespaceDelimited { inner: self }
    }

    /// This parser, with the span of the text it consumed.
    fn with_span(self) -> (r: WithSpanParser<Self>)
        ensures
            r.inner == self,
    {
        WithSpanParser { inner: self }
    }

    /// One or more of this parser, with `delim` between each two.
    fn delimited<D>(self, delim: D) -> (r: Delimited<Self, D>)
        ensures
            r.inner == self,
            r.delim == delim,
    {
        Delimited { inner: self, delim }
    }

    /// `left`, then this parser, then `right`.
    fn surrounded<L, R>(self, left: L, right: R) -> (r: Surrounded<Self, L, R>)
        ensures
            r.inner == self,
            r.left == left,
            r.right == right,
    {
        Surrounded { inner: self, left, right }
    }

    /// This parser, or else `right` from the same place.
    fn or<R>(self, right: R) -> (r: Or<Self, R>)
        ensures
            r.left == self,
            r.right == right,
    {
        Or { left: self, right }
    }
}

/// A function on parsed values, stated as a spec function on their models.
pub trait Transform<T: DeepView> {
    type Output: DeepView;

    spec fn spec_apply(&self, v: T::V) -> <Self::Output as DeepView>::V;

    fn apply(&self, v: T) -> (r: Self::Output)
        ensures
            r.deep_view() == self.spec_apply(v.deep_view()),
    ;
}

} // verus!
