//! The parser's input: the text that is left, and where it starts.
use vstd::prelude::*;
use crate::position::{advance, fits, lemma_advance_bounds, Pos, Position};
use crate::scan::{byte_count, run_len, scan, split_chars, CharClass, lemma_run_len};
use crate::text::{byte_len, lemma_byte_len_split};

verus! {

/// A snapshot as contracts see it: the text left and its starting position.
pub struct Snapshot {
    pub text: Seq<char>,
    pub pos: Pos,
}

/// What `skip_whitespace` leaves of `s`: the leading run of white space consumed.
pub open spec fn skip_ws(s: Snapshot) -> Snapshot {
    consume(s, run_len(CharClass::Whitespace, s.text) as int)
}

/// `s` after its first `k` characters.
pub open spec fn consume(s: Snapshot, k: int) -> Snapshot {
    Snapshot { text: s.text.skip(k), pos: advance(s.pos, s.text.take(k)) }
}

/// An immutable view of the input: the text not yet consumed and its position.
#[derive(Clone, Copy, Debug, PartialEq, Eq)]
pub struct Source<'a> {
    pub inner: &'a str,
    pub position: Position,
}

impl<'a> View for Source<'a> {
    type V = Snapshot;

    open spec fn view(&self) -> Snapshot {
        Snapshot { text: self.inner@, pos: self.position@ }
    }
}

/// Consuming part of a snapshot whose positions fit keeps them fitting.
pub proof fn lemma_consume_fits(s: Snapshot, k: int)
    requires
        fits(s.pos, s.text),
        0 <= k <= s.text.len(),
    ensures
        fits(s.pos, s.text.take(k)),
        fits(consume(s, k).pos, consume(s, k).text),
{
    lemma_byte_len_split(s.text, k);
    lemma_advance_bounds(s.pos, s.text.take(k));
}

impl<'a> Source<'a> {
    /// Line and column stay within `usize` whatever is consumed.
    pub open spec fn wf(&self) -> bool {
        fits(self.position@, self.inner@)
    }

    /// The whole of `inner`, starting at line 1, column 0.
    pub fn new(inner: &'a str) -> (r: Source<'a>)
        requires
            inner@.len() < usize::MAX,
        ensures
            r@ == (Snapshot { text: inner@, pos: Pos { line: 1, col: 0 } }),
            r.wf(),
    {
        let _bytes = byte_count(inner);
        Source { inner, position: Position { line: 1, col: 0 } }
    }

    /// Consumes the first `k` characters, which take `bytes` bytes: returns
    /// them and what is left.
    pub fn consume(&self, Ghost(k): Ghost<int>, bytes: usize) -> (r: (&'a str, Source<'a>))
        requires
            self.wf(),
            0 <= k <= self.inner@.len(),
            bytes == byte_len(self.inner@.take(k)),
        ensures
            r.0@ == self.inner@.take(k),
            r.1@ == consume(self@, k),
            r.1.wf(),
    {
        proof {
            lemma_consume_fits(self@, k);
        }
        let (taken, rest) = split_chars(self.inner, Ghost(k), bytes);
        let position = self.position.advance(taken);
        (taken, Source { inner: rest, position })
    }

    /// Consumes the leading run of white space.
    pub fn skip_whitespace(&mut self)
        requires
            old(self).wf(),
        ensures
            final(self)@ == skip_ws(old(self)@),
            final(self).wf(),
    {
        let (n, bytes) = scan(self.inner, CharClass::Whitespace);
        proof {
            lemma_run_len(CharClass::Whitespace, self.inner@);
        }
        let (_, next) = self.consume(Ghost(n as int), bytes);
        *self = next;
    }
}

} // verus!
