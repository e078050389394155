//! A parser that matches a regular expression at the start of the input.
use vstd::prelude::*;
use vstd::utf8::{encode_scalar, encode_utf8, is_char_boundary, pop_first_scalar};
use crate::parser::{is_rest, Error, ErrorKind, Failure, Outcome, Parser};
use crate::source::{consume, Snapshot, Source};
use crate::text::{byte_len, char_width, lemma_byte_len_concat, lemma_encode_single};

verus! {

/// Where the leftmost-first match of the regular expression `pattern` lies
/// in `text`, as byte offsets of its start and end; none when there is no
/// match or `pattern` is not a valid regular expression.
pub uninterp spec fn regex_match(pattern: Seq<char>, text: Seq<char>) -> Option<(int, int)>;

/// Relies on regex::Regex::new and Regex::find: compiles `pattern` and finds
/// its leftmost-first match in `text`. The offsets of a match lie on
/// character boundaries, the start before the end.
#[verifier::external_body]
fn find_match(pattern: &str, text: &str) -> (r: Option<(usize, usize)>)
    ensures
        r is None ==> regex_match(pattern@, text@) is None,
        r matches Some((s, e)) ==> {
            &&& regex_match(pattern@, text@) == Some((s as int, e as int))
            &&& s <= e
            &&& is_char_boundary(encode_utf8(text@), s as int)
            &&& is_char_boundary(encode_utf8(text@), e as int)
        },
{
    match regex::Regex::new(pattern) {
        Ok(re) => re.find(text).map(|m| (m.start(), m.end())),
        Err(_) => None,
    }
}

/// How many characters of `t` its first `e` bytes hold.
pub open spec fn chars_before(t: Seq<char>, e: int) -> nat
    decreases t.len(),
{
    if e <= 0 || t.len() == 0 {
        0
    } else {
        1 + chars_before(t.drop_first(), e - char_width(t[0]))
    }
}

/// A character boundary of the encoding ends the encoding of a prefix.
proof fn lemma_boundary_prefix(t: Seq<char>, e: int)
    requires
        is_char_boundary(encode_utf8(t), e),
    ensures
        chars_before(t, e) <= t.len(),
        byte_len(t.take(chars_before(t, e) as int)) == e,
    decreases t.len(),
{
    broadcast use vstd::utf8::encode_utf8_valid_utf8;

    let bytes = encode_utf8(t);
    if e == 0 {
        assert(t.take(0) =~= Seq::<char>::empty());
        assert(encode_utf8(Seq::<char>::empty()) =~= Seq::<u8>::empty());
    } else {
        assert(t.len() > 0);
        let w = char_width(t[0]);
        vstd::utf8::encode_utf8_first_scalar(t);
        assert(bytes =~= encode_scalar(t[0] as u32) + encode_utf8(t.drop_first()));
        assert(pop_first_scalar(bytes) =~= encode_utf8(t.drop_first()));
        lemma_boundary_prefix(t.drop_first(), e - w);
        let k = chars_before(t.drop_first(), e - w);
        assert(t.take((k + 1) as int) =~= seq![t[0]] + t.drop_first().take(k as int));
        lemma_byte_len_concat(seq![t[0]], t.drop_first().take(k as int));
        lemma_encode_single(t[0]);
    }
}

/// Matches a regular expression where the input starts; a match anywhere
/// else counts as none.
#[derive(Clone, Copy, Debug, PartialEq, Eq)]
pub struct RegexParser {
    pub pattern: &'static str,
    pub description: &'static str,
}

pub fn regex_parser(pattern: &'static str, description: &'static str) -> (r: RegexParser)
    ensures
        r.pattern == pattern,
        r.description == description,
{
    RegexParser { pattern, description }
}

impl<'a> Parser<'a> for RegexParser {
    type Item = &'a str;

    /// Consumes the match when it starts at the input's start; else fails
    /// where the input stands, expecting the description.
    open spec fn spec_parse(&self, input: Snapshot) -> Outcome<Seq<char>> {
        match regex_match(self.pattern@, input.text) {
            Some((s, e)) if s == 0 => {
                let k = chars_before(input.text, e);
                Ok((input.text.take(k as int), consume(input, k as int)))
            },
            _ => Err(Failure { kind: ErrorKind::Expected(self.description), pos: input.pos }),
        }
    }

    fn parse(&self, source: &Source<'a>) -> (r: Result<(&'a str, Source<'a>), Error>) {
        match find_match(self.pattern, source.inner) {
            Some((s, e)) => {
                if s == 0 {
                    let ghost k = chars_before(source@.text, e as int);
                    proof {
                        lemma_boundary_prefix(source@.text, e as int);
                    }
                    let (taken, next) = source.consume(Ghost(k as int), e);
                    proof {
                        assert(source@.text.skip(source@.text.len() - next@.text.len()) =~= next@.text);
                        assert(is_rest(source@, next@));
                    }
                    Ok((taken, next))
                } else {
                    Err(Error { kind: ErrorKind::Expected(self.description), position: source.position })
                }
            },
            None => Err(Error { kind: ErrorKind::Expected(self.description), position: source.position }),
        }
    }
}

} // verus!
