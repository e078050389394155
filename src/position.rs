//! Source positions and spans, and how consuming text moves a position.
use vstd::prelude::*;
use vstd::std_specs::iter::IteratorSpec;
use crate::text::{
    byte_len, char_width, lemma_byte_len_concat, lemma_byte_len_push, lemma_byte_len_split,
    lemma_chars_le_bytes, lemma_encode_single,
};

verus! {

/// A position as contracts see it: line and column as mathematical numbers.
pub struct Pos {
    pub line: nat,
    pub col: nat,
}

/// A span as contracts see it.
pub struct SpanView {
    pub start: Pos,
    pub end: Pos,
}

/// A location in source text. Lines count from 1; the column counts the
/// UTF-8 bytes of the characters since the last line break.
#[derive(Clone, Copy, Debug, PartialEq, Eq, Structural, PartialOrd, Ord, Hash)]
pub struct Position {
    pub line: usize,
    pub col: usize,
}

impl View for Position {
    type V = Pos;

    open spec fn view(&self) -> Pos {
        Pos { line: self.line as nat, col: self.col as nat }
    }
}

/// A half-open range of source text.
#[derive(Clone, Copy, Debug, PartialEq, Eq, Structural, PartialOrd, Ord, Hash)]
pub struct Span {
    pub start: Position,
    pub end: Position,
}

impl View for Span {
    type V = SpanView;

    open spec fn view(&self) -> SpanView {
        SpanView { start: self.start@, end: self.end@ }
    }
}

/// A value together with the span of text it was read from.
#[derive(Clone, Debug, PartialEq)]
pub struct WithSpan<T> {
    pub value: T,
    pub span: Span,
}

impl<T: DeepView> DeepView for WithSpan<T> {
    type V = (T::V, SpanView);

    open spec fn deep_view(&self) -> (T::V, SpanView) {
        (self.value.deep_view(), self.span@)
    }
}

/// The characters that end a line: line feed, carriage return, vertical tab,
/// form feed, next line, line separator and paragraph separator.
pub open spec fn is_line_break(c: char) -> bool {
    ||| c == '\n'
    ||| c == '\r'
    ||| c == '\x0b'
    ||| c == '\x0c'
    ||| c == '\u{85}'
    ||| c == '\u{2028}'
    ||| c == '\u{2029}'
}

/// The position after `c`, where `after_cr` says whether `c` directly follows
/// a carriage return: a line feed there belongs to the same line break.
pub open spec fn step(p: Pos, after_cr: bool, c: char) -> Pos {
    if c == '\n' && after_cr {
        p
    } else if is_line_break(c) {
        Pos { line: p.line + 1, col: 0 }
    } else {
        Pos { line: p.line, col: p.col + char_width(c) }
    }
}

/// The position reached from `p` by consuming `s`.
pub open spec fn advance(p: Pos, s: Seq<char>) -> Pos
    decreases s.len(),
{
    if s.len() == 0 {
        p
    } else {
        step(advance(p, s.drop_last()), s.len() >= 2 && s[s.len() - 2] == '\r', s.last())
    }
}

/// The span that `s` covers when it starts at `p`.
pub open spec fn span_of(p: Pos, s: Seq<char>) -> SpanView {
    SpanView { start: p, end: advance(p, s) }
}

/// Whether consuming `s` from `p` keeps line and column within `usize`.
pub open spec fn fits(p: Pos, s: Seq<char>) -> bool {
    p.line + s.len() <= usize::MAX && p.col + byte_len(s) <= usize::MAX
}

/// Whether the boundary between `a` and `b` splits a CR LF pair.
pub open spec fn splits_crlf(a: Seq<char>, b: Seq<char>) -> bool {
    a.len() > 0 && a.last() == '\r' && b.len() > 0 && b[0] == '\n'
}

/// Consuming text moves forward by at most one line per character and one
/// column per byte.
pub proof fn lemma_advance_bounds(p: Pos, s: Seq<char>)
    ensures
        advance(p, s).line <= p.line + s.len(),
        advance(p, s).col <= p.col + byte_len(s),
        p.line <= advance(p, s).line,
    decreases s.len(),
{
    if s.len() > 0 {
        lemma_advance_bounds(p, s.drop_last());
        assert(s =~= s.drop_last().push(s.last()));
        lemma_byte_len_push(s.drop_last(), s.last());
    }
}

/// Consuming no text leaves a position where it is.
pub proof fn law_advance_empty(p: Pos)
    ensures
        advance(p, Seq::<char>::empty()) == p,
{
}

/// Consuming `a` and then `b` reaches the same position as consuming `a + b`,
/// unless the boundary falls between the two characters of a CR LF pair.
pub proof fn law_advance_concat(p: Pos, a: Seq<char>, b: Seq<char>)
    requires
        !splits_crlf(a, b),
    ensures
        advance(advance(p, a), b) == advance(p, a + b),
    decreases b.len(),
{
    if b.len() == 0 {
        assert(a + b =~= a);
    } else {
        let b0 = b.drop_last();
        assert((a + b).drop_last() =~= a + b0);
        law_advance_concat(p, a, b0);
        assert((a + b).last() == b.last());
        if b.len() >= 2 {
            assert((a + b)[(a + b).len() - 2] == b[b.len() - 2]);
        }
    }
}

/// A carriage return followed by a line feed is one line break.
pub proof fn law_crlf_one_break(p: Pos)
    ensures
        advance(p, seq!['\r', '\n']) == (Pos { line: p.line + 1, col: 0 }),
{
    let s = seq!['\r', '\n'];
    assert(s.drop_last() =~= seq!['\r']);
    assert(seq!['\r'].drop_last() =~= Seq::<char>::empty());
    assert(seq!['\r'].last() == '\r');
    assert(advance(p, Seq::<char>::empty()) == p);
    assert(advance(p, seq!['\r']) == (Pos { line: p.line + 1, col: 0 }));
    assert(s[s.len() - 2] == '\r' && s.last() == '\n');
}

/// Consuming one more character takes one more step.
pub proof fn lemma_advance_push(p: Pos, s: Seq<char>, c: char)
    ensures
        advance(p, s.push(c)) == step(advance(p, s), s.len() >= 1 && s.last() == '\r', c),
{
    assert(s.push(c).drop_last() =~= s);
}

impl Position {
    /// The span of `text` when it starts here.
    pub fn span(self, text: &str) -> (r: Span)
        requires
            fits(self@, text@),
        ensures
            r@ == span_of(self@, text@),
    {
        Span { start: self, end: self.advance(text) }
    }

    /// The position reached by consuming `text` from here.
    pub fn advance(self, text: &str) -> (r: Position)
        requires
            fits(self@, text@),
        ensures
            r@ == advance(self@, text@),
    {
        let mut new_position = self;
        let mut after_cr = false;
        let mut it = text.chars();
        let ghost mut i: int = 0;
        let ghost s = text@;
        loop
            invariant
                0 <= i <= s.len(),
                it.remaining() == s.skip(i),
                new_position@ == advance(self@, s.take(i)),
                after_cr == (i >= 1 && s[i - 1] == '\r'),
                fits(self@, s),
            ensures
                new_position@ == advance(self@, s),
            decreases s.len() - i,
        {
            let next = it.next();
            match next {
                None => {
                    assert(s.skip(i).len() == 0);
                    assert(i == s.len());
                    assert(s.take(i) =~= s);
                    break;
                },
                Some(c) => {
                    proof {
                        assert(c == s[i]);
                        assert(s.take(i + 1) =~= s.take(i).push(c));
                        lemma_advance_push(self@, s.take(i), c);
                        lemma_advance_bounds(self@, s.take(i));
                        lemma_byte_len_split(s, i);
                        assert(s.skip(i) =~= seq![c] + s.skip(i + 1));
                        lemma_byte_len_concat(seq![c], s.skip(i + 1));
                        lemma_encode_single(c);
                        lemma_chars_le_bytes(s.skip(i + 1));
                    }
                    if c == '\n' && after_cr {
                    } else if c == '\n' || c == '\r' || c == '\x0b' || c == '\x0c' || c == '\u{85}'
                        || c == '\u{2028}' || c == '\u{2029}' {
                        new_position.advance_line();
                    } else {
                        new_position.advance_bytes(c);
                    }
                    after_cr = c == '\r';
                    proof {
                        i = i + 1;
                        assert(it.remaining() =~= s.skip(i));
                    }
                },
            }
        }
        new_position
    }

    /// Moves to the start of the next line.
    pub fn advance_line(&mut self)
        requires
            old(self).line < usize::MAX,
        ensures
            final(self)@ == (Pos { line: old(self)@.line + 1, col: 0 }),
    {
        self.line = self.line + 1;
        self.col = 0;
    }

    /// Moves past `c` on the current line.
    pub fn advance_bytes(&mut self, c: char)
        requires
            old(self).col + char_width(c) <= usize::MAX,
        ensures
            final(self)@ == (Pos { line: old(self)@.line, col: old(self)@.col + char_width(c) }),
    {
        self.col = self.col + utf8_width(c);
    }
}

/// Number of bytes that the UTF-8 encoding of `c` takes.
pub fn utf8_width(c: char) -> (r: usize)
    ensures
        r == char_width(c),
{
    let v = c as u32;
    if v < 0x80 {
        1
    } else if v < 0x800 {
        2
    } else if v < 0x10000 {
        3
    } else {
        4
    }
}

impl Span {
    pub fn new(start: Position, end: Position) -> (r: Span)
        ensures
            r@ == (SpanView { start: start@, end: end@ }),
    {
        Span { start, end }
    }
}

} // verus!
