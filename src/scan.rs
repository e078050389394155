//! Character classes, and scanning and splitting text by characters.
use vstd::prelude::*;
use vstd::std_specs::iter::IteratorSpec;
use vstd::utf8::encode_utf8;
use crate::text::{
    byte_len, lemma_byte_len_push, lemma_byte_len_split, lemma_chars_le_bytes, lemma_encode_concat, lemma_encode_injective,
    lemma_prefix_boundary,
};
use crate::position::utf8_width;

verus! {

/// Whether `c` has the Unicode `XID_Start` property: it may begin an identifier.
pub uninterp spec fn is_xid_start(c: char) -> bool;

/// Whether `c` has the Unicode `XID_Continue` property: it may go on an identifier.
pub uninterp spec fn is_xid_continue(c: char) -> bool;

/// Relies on regex's Unicode class `\p{XID_Start}`: whether `c` belongs to it.
#[verifier::external_body]
pub(crate) fn xid_start(c: char) -> (r: bool)
    ensures
        r == is_xid_start(c),
{
    let mut buf = [0u8; 4];
    let s: &str = c.encode_utf8(&mut buf);
    regex::Regex::new(r"^\p{XID_Start}$").map(|re| re.is_match(s)).unwrap_or(false)
}

/// Relies on regex's Unicode class `\p{XID_Continue}`: whether `c` belongs to it.
#[verifier::external_body]
pub(crate) fn xid_continue(c: char) -> (r: bool)
    ensures
        r == is_xid_continue(c),
{
    let mut buf = [0u8; 4];
    let s: &str = c.encode_utf8(&mut buf);
    regex::Regex::new(r"^\p{XID_Continue}$").map(|re| re.is_match(s)).unwrap_or(false)
}

/// Unicode `White_Space`: the characters that separate forms.
pub open spec fn is_whitespace(c: char) -> bool {
    let v = c as u32;
    ||| 0x09 <= v <= 0x0d
    ||| v == 0x20
    ||| v == 0x85
    ||| v == 0xa0
    ||| v == 0x1680
    ||| 0x2000 <= v <= 0x200a
    ||| v == 0x2028
    ||| v == 0x2029
    ||| v == 0x202f
    ||| v == 0x205f
    ||| v == 0x3000
}

/// An ASCII decimal digit.
pub open spec fn is_digit(c: char) -> bool {
    '0' <= c <= '9'
}

/// The classes of characters that the grammar reads runs of.
#[derive(Clone, Copy, Debug, PartialEq, Eq, Structural)]
pub enum CharClass {
    Whitespace,
    Digit,
    IdentContinue,
}

pub open spec fn in_class(k: CharClass, c: char) -> bool {
    match k {
        CharClass::Whitespace => is_whitespace(c),
        CharClass::Digit => is_digit(c),
        CharClass::IdentContinue => is_xid_continue(c),
    }
}

/// Length of the longest prefix of `s` whose characters are all in class `k`.
pub open spec fn run_len(k: CharClass, s: Seq<char>) -> nat
    decreases s.len(),
{
    if s.len() > 0 && in_class(k, s[0]) {
        1 + run_len(k, s.drop_first())
    } else {
        0
    }
}

/// The run is a prefix, all in the class, and ends at a character outside it.
pub proof fn lemma_run_len(k: CharClass, s: Seq<char>)
    ensures
        run_len(k, s) <= s.len(),
        forall|j: int| 0 <= j < run_len(k, s) ==> in_class(k, #[trigger] s[j]),
        run_len(k, s) < s.len() ==> !in_class(k, s[run_len(k, s) as int]),
    decreases s.len(),
{
    if s.len() > 0 && in_class(k, s[0]) {
        lemma_run_len(k, s.drop_first());
        assert forall|j: int| 0 <= j < run_len(k, s) implies in_class(k, #[trigger] s[j]) by {
            if j > 0 {
                assert(s[j] == s.drop_first()[j - 1]);
            }
        }
    }
}

/// A run can be measured from any point inside it.
proof fn lemma_run_len_from(k: CharClass, s: Seq<char>, i: int)
    requires
        0 <= i <= s.len(),
        forall|j: int| 0 <= j < i ==> in_class(k, #[trigger] s[j]),
    ensures
        run_len(k, s) == i + run_len(k, s.skip(i)),
    decreases i,
{
    if i > 0 {
        assert(in_class(k, s[0]));
        let t = s.drop_first();
        assert forall|j: int| 0 <= j < i - 1 implies in_class(k, #[trigger] t[j]) by {
            assert(t[j] == s[j + 1]);
        }
        lemma_run_len_from(k, t, i - 1);
        assert(t.skip(i - 1) =~= s.skip(i));
    } else {
        assert(s.skip(0) =~= s);
    }
}

pub fn in_class_exec(k: CharClass, c: char) -> (r: bool)
    ensures
        r == in_class(k, c),
{
    match k {
        CharClass::Whitespace => whitespace(c),
        CharClass::Digit => '0' <= c && c <= '9',
        CharClass::IdentContinue => xid_continue(c),
    }
}

/// Whether `c` is Unicode white space.
pub fn whitespace(c: char) -> (r: bool)
    ensures
        r == is_whitespace(c),
{
    let v = c as u32;
    (0x09 <= v && v <= 0x0d) || v == 0x20 || v == 0x85 || v == 0xa0 || v == 0x1680 || (0x2000
        <= v && v <= 0x200a) || v == 0x2028 || v == 0x2029 || v == 0x202f || v == 0x205f || v
        == 0x3000
}

/// The longest prefix of `text` in class `k`: its length in characters and in bytes.
pub fn scan(text: &str, k: CharClass) -> (r: (usize, usize))
    ensures
        r.0 == run_len(k, text@),
        r.1 == byte_len(text@.take(r.0 as int)),
{
    let ghost s = text@;
    let total = byte_count(text);
    let mut it = text.chars();
    let mut n: usize = 0;
    let mut bytes: usize = 0;
    proof {
        lemma_run_len(k, s);
    }
    loop
        invariant_except_break
            it.remaining() == s.skip(n as int),
        invariant
            0 <= n <= s.len(),
            forall|j: int| 0 <= j < n ==> in_class(k, #[trigger] s[j]),
            bytes == byte_len(s.take(n as int)),
            run_len(k, s) <= s.len(),
            byte_len(s) == encode_utf8(s).len(),
            total == byte_len(s),
        ensures
            n == run_len(k, s),
            bytes == byte_len(s.take(n as int)),
        decreases s.len() - n,
    {
        match it.next() {
            None => {
                proof { lemma_run_len_from(k, s, n as int); }
                break;
            },
            Some(c) => {
                assert(c == s[n as int]);
                if !in_class_exec(k, c) {
                    proof { lemma_run_len_from(k, s, n as int); }
                    break;
                }
                proof {
                    assert(s.take(n + 1) =~= s.take(n as int).push(c));
                    lemma_byte_len_push(s.take(n as int), c);
                    assert(s =~= s.take(n + 1) + s.skip(n + 1));
                    lemma_encode_concat(s.take(n + 1), s.skip(n + 1));
                    lemma_chars_le_bytes(s);
                }
                bytes = bytes + utf8_width(c);
                n = n + 1;
                assert(it.remaining() =~= s.skip(n as int));
            },
        }
    }
    (n, bytes)
}

/// Whether `text` begins with `prefix`.
pub fn starts_with(text: &str, prefix: &str) -> (r: bool)
    ensures
        r == (prefix@.len() <= text@.len() && text@.take(prefix@.len() as int) == prefix@),
{
    let ghost s = text@;
    let ghost w = prefix@;
    let mut it = text.chars();
    let mut pi = prefix.chars();
    let ghost mut i: int = 0;
    loop
        invariant_except_break
            it.remaining() == s.skip(i),
            pi.remaining() == w.skip(i),
        invariant
            0 <= i <= w.len(),
            i <= s.len(),
            s == text@,
            w == prefix@,
            s.take(i) == w.take(i),
        ensures
            r_done(s, w, i),
        decreases w.len() - i,
    {
        match pi.next() {
            None => {
                assert(w.take(i) =~= w);
                break;
            },
            Some(c) => {
                match it.next() {
                    None => {
                        proof {
                            assert(c == w[i]);
                            assert(s.skip(i).len() == 0);
                            assert(i < w.len());
                            assert(s.len() < w.len());
                        }
                        return false;
                    },
                    Some(d) => {
                        if c != d {
                            proof {
                                assert(c == w[i]);
                                assert(d == s[i]);
                                if w.len() <= s.len() {
                                    assert(s.take(w.len() as int)[i] == s[i]);
                                    assert(s.take(w.len() as int) != w);
                                }
                            }
                            return false;
                        }
                        proof {
                            assert(s.take(i + 1) =~= s.take(i).push(d));
                            assert(w.take(i + 1) =~= w.take(i).push(c));
                            i = i + 1;
                            assert(it.remaining() =~= s.skip(i));
                            assert(pi.remaining() =~= w.skip(i));
                        }
                    },
                }
            },
        }
    }
    true
}

spec fn r_done(s: Seq<char>, w: Seq<char>, i: int) -> bool {
    i == w.len() && w.len() <= s.len() && s.take(w.len() as int) == w
}

/// Number of bytes that `s` takes.
pub fn byte_count(s: &str) -> (r: usize)
    ensures
        r == byte_len(s@),
{
    s.as_bytes().len()
}

/// Number of bytes that the first `k` characters of `t` take.
pub fn prefix_bytes(t: &str, k: usize) -> (r: usize)
    requires
        k <= t@.len(),
    ensures
        r == byte_len(t@.take(k as int)),
{
    let ghost s = t@;
    let total = byte_count(t);
    let mut it = t.chars();
    let mut n: usize = 0;
    let mut bytes: usize = 0;
    while n < k
        invariant
            n <= k <= s.len(),
            s == t@,
            it.remaining() == s.skip(n as int),
            bytes == byte_len(s.take(n as int)),
            total == byte_len(s),
        decreases k - n,
    {
        let next = it.next();
        let c = next.unwrap();
        proof {
            assert(c == s[n as int]);
            assert(s.take(n + 1) =~= s.take(n as int).push(c));
            lemma_byte_len_push(s.take(n as int), c);
            lemma_byte_len_split(s, n + 1);
        }
        bytes = bytes + utf8_width(c);
        n = n + 1;
        proof {
            assert(it.remaining() =~= s.skip(n as int));
        }
    }
    bytes
}

/// `t` without its first `k` characters.
pub fn skip_chars<'a>(t: &'a str, k: usize) -> (r: &'a str)
    requires
        k <= t@.len(),
    ensures
        r@ == t@.skip(k as int),
{
    let bytes = prefix_bytes(t, k);
    split_chars(t, Ghost(k as int), bytes).1
}

/// Splits `s` after its first `k` characters, which take `bytes` bytes.
pub fn split_chars<'a>(s: &'a str, Ghost(k): Ghost<int>, bytes: usize) -> (r: (&'a str, &'a str))
    requires
        0 <= k <= s@.len(),
        bytes == byte_len(s@.take(k)),
    ensures
        r.0@ == s@.take(k),
        r.1@ == s@.skip(k),
{
    proof {
        assert(s@ =~= s@.take(k) + s@.skip(k));
        lemma_prefix_boundary(s@.take(k), s@.skip(k));
        lemma_encode_concat(s@.take(k), s@.skip(k));
    }
    let r = s.split_at(bytes);
    proof {
        let whole = encode_utf8(s@);
        assert(whole.subrange(0, bytes as int) =~= encode_utf8(s@.take(k)));
        assert(whole.subrange(bytes as int, whole.len() as int) =~= encode_utf8(s@.skip(k)));
        lemma_encode_injective(r.0@, s@.take(k));
        lemma_encode_injective(r.1@, s@.skip(k));
    }
    r
}

} // verus!
