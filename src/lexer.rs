//! Tokens for contexts that need discrete parentheses rather than text.
use vstd::prelude::*;
use crate::chars::{chars, chars_step, Chars, CharsView, Error as CharsError};

verus! {

#[derive(Clone, Copy, Debug, PartialEq, Eq, Structural)]
pub enum Token {
    LeftParen,
    RightParen,
}

/// Why a token could not be read.
#[derive(Debug)]
pub enum Error {
    /// A character that starts no token.
    UnexpectedChar(char),
    /// The characters could not be decoded.
    Chars(CharsError),
}

impl From<CharsError> for Error {
    fn from(e: CharsError) -> (r: Error)
        ensures
            r == Error::Chars(e),
    {
        Error::Chars(e)
    }
}

impl vstd::std_specs::convert::FromSpecImpl<CharsError> for Error {
    open spec fn obeys_from_spec() -> bool {
        true
    }

    open spec fn from_spec(e: CharsError) -> Error {
        Error::Chars(e)
    }
}

/// The token that a decoding outcome gives.
pub open spec fn token_of(c: Option<Result<char, CharsError>>) -> Option<Result<Token, Error>> {
    match c {
        None => None,
        Some(Ok(c)) => if c == '(' {
            Some(Ok(Token::LeftParen))
        } else if c == ')' {
            Some(Ok(Token::RightParen))
        } else {
            Some(Err(Error::UnexpectedChar(c)))
        },
        Some(Err(e)) => Some(Err(Error::Chars(e))),
    }
}

impl Token {
    /// Reads one character from `source` and turns it into a token.
    pub fn next(source: &mut Chars) -> (r: Option<Result<Token, Error>>)
        requires
            old(source).wf(),
        ensures
            final(source).wf(),
            r == token_of(chars_step(old(source)@).0),
            final(source)@ == chars_step(old(source)@).1,
    {
        match source.next() {
            None => None,
            Some(Ok(c)) => {
                if c == '(' {
                    Some(Ok(Token::LeftParen))
                } else if c == ')' {
                    Some(Ok(Token::RightParen))
                } else {
                    Some(Err(Error::UnexpectedChar(c)))
                }
            },
            Some(Err(e)) => Some(Err(Error::Chars(e))),
        }
    }
}

/// A token reader over a byte buffer.
pub struct Lexer {
    inner: Chars,
}

impl View for Lexer {
    type V = CharsView;

    closed spec fn view(&self) -> CharsView {
        self.inner@
    }
}

impl Lexer {
    pub closed spec fn wf(&self) -> bool {
        self.inner.wf()
    }

    /// The next token, or `None` at the end.
    pub fn next(&mut self) -> (r: Option<Result<Token, Error>>)
        requires
            old(self).wf(),
        ensures
            final(self).wf(),
            r == token_of(chars_step(old(self)@).0),
            final(self)@ == chars_step(old(self)@).1,
    {
        Token::next(&mut self.inner)
    }
}

/// A token reader at the start of `source`.
pub fn lexer(source: &[u8]) -> (r: Lexer)
    ensures
        r.wf(),
        r@ == (CharsView { bytes: source@, pos: 0, done: false }),
{
    Lexer { inner: chars(source) }
}

} // verus!
