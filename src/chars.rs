//! Decoding a byte source into characters, one character per call.
use vstd::prelude::*;
use vstd::utf8::{encode_scalar, encode_utf8, valid_first_scalar, decode_first_scalar};
use crate::utf8::{lead_width, status, unexpected, Expected, Utf8CharSink, Error as EncodingError};
use crate::text::lemma_encode_single;

verus! {

broadcast use vstd::utf8::char_u32_cast;

#[verifier::external_type_specification]
#[verifier::external_body]
pub struct ExIoError(std::io::Error);

/// Why decoding stopped.
#[derive(Debug)]
pub enum Error {
    /// Reading the byte source failed.
    Io(std::io::Error),
    /// A byte broke the encoding.
    Encoding(EncodingError),
    /// The source ended inside a character.
    Eof,
}

impl From<std::io::Error> for Error {
    fn from(e: std::io::Error) -> (r: Error)
        ensures
            r == Error::Io(e),
    {
        Error::Io(e)
    }
}

impl vstd::std_specs::convert::FromSpecImpl<std::io::Error> for Error {
    open spec fn obeys_from_spec() -> bool {
        true
    }

    open spec fn from_spec(e: std::io::Error) -> Error {
        Error::Io(e)
    }
}

impl From<EncodingError> for Error {
    fn from(e: EncodingError) -> (r: Error)
        ensures
            r == Error::Encoding(e),
    {
        Error::Encoding(e)
    }
}

impl vstd::std_specs::convert::FromSpecImpl<EncodingError> for Error {
    open spec fn obeys_from_spec() -> bool {
        true
    }

    open spec fn from_spec(e: EncodingError) -> Error {
        Error::Encoding(e)
    }
}

/// The first character of `bs`, read from its `n`-th byte on, the bytes before
/// having left the decoder waiting; and how many bytes it took. `None` when
/// `bs` is empty; `Eof` when it ends inside a character.
pub open spec fn first_from(bs: Seq<u8>, n: nat) -> (Option<Result<char, Error>>, nat)
    decreases bs.len() - n,
{
    if n >= bs.len() {
        if n == 0 {
            (None, 0)
        } else {
            (Some(Err(Error::Eof)), n)
        }
    } else {
        match status(bs.take((n + 1) as int)) {
            Some(Ok(c)) => (Some(Ok(c)), n + 1),
            Some(Err(e)) => (Some(Err(Error::Encoding(e))), n + 1),
            None => first_from(bs, n + 1),
        }
    }
}

/// The first character of `bs` and the bytes it took.
pub open spec fn first_char(bs: Seq<u8>) -> (Option<Result<char, Error>>, nat) {
    first_from(bs, 0)
}

/// The characters that `bs` decodes to, or the first error.
pub open spec fn decode_all(bs: Seq<u8>) -> Result<Seq<char>, Error>
    decreases bs.len(),
{
    match first_char(bs).0 {
        None => Ok(Seq::empty()),
        Some(Err(e)) => Err(e),
        Some(Ok(c)) => if 0 < first_char(bs).1 <= bs.len() {
            match decode_all(bs.skip(first_char(bs).1 as int)) {
                Ok(cs) => Ok(seq![c] + cs),
                Err(e) => Err(e),
            }
        } else {
            Ok(Seq::empty())
        },
    }
}

/// A character iterator over a byte buffer; the first error ends it.
pub struct Chars {
    bytes: Vec<u8>,
    pos: usize,
    sink: Utf8CharSink,
    done: bool,
}

/// What a `Chars` is in contracts: its bytes, how many it has read, and
/// whether an error has ended it.
pub struct CharsView {
    pub bytes: Seq<u8>,
    pub pos: nat,
    pub done: bool,
}

impl View for Chars {
    type V = CharsView;

    closed spec fn view(&self) -> CharsView {
        CharsView { bytes: self.bytes@, pos: self.pos as nat, done: self.done }
    }
}

/// What the next call on `c` returns, and the state it leaves.
pub open spec fn chars_step(c: CharsView) -> (Option<Result<char, Error>>, CharsView) {
    if c.done {
        (None, c)
    } else {
        let (r, n) = first_char(c.bytes.skip(c.pos as int));
        (r, CharsView { bytes: c.bytes, pos: c.pos + n, done: r matches Some(Err(_)) })
    }
}

/// What the decoder makes of the next event of a byte source: `Some(b)` for
/// a byte, `None` for its end.
pub open spec fn event_result(held: Seq<u8>, event: Option<u8>) -> Option<Result<char, Error>> {
    match event {
        None => if held.len() > 0 {
            Some(Err(Error::Eof))
        } else {
            None
        },
        Some(b) => match status(held.push(b)) {
            None => None,
            Some(Ok(c)) => Some(Ok(c)),
            Some(Err(e)) => Some(Err(Error::Encoding(e))),
        },
    }
}

/// Feeds one event of a byte source to `sink`: a byte, or the end of the
/// source, where an unfinished character is an `Eof` error. `None` means
/// that more bytes are needed, or, at the end, that the source ended cleanly.
pub fn decode_step(sink: &mut Utf8CharSink, event: Option<u8>) -> (r: Option<Result<char, Error>>)
    requires
        old(sink).wf(),
    ensures
        final(sink).wf(),
        r == event_result(old(sink)@, event),
        final(sink)@ == (if event is Some && r is None {
            old(sink)@.push(event->0)
        } else {
            Seq::<u8>::empty()
        }),
{
    match event {
        None => {
            if sink.pending() {
                *sink = Utf8CharSink::new();
                Some(Err(Error::Eof))
            } else {
                assert(sink@ =~= Seq::<u8>::empty());
                None
            }
        },
        Some(b) => match sink.push(b) {
            None => None,
            Some(Ok(c)) => Some(Ok(c)),
            Some(Err(e)) => Some(Err(Error::Encoding(e))),
        },
    }
}

/// A decoder over `bytes`, at their start.
pub fn chars(bytes: &[u8]) -> (r: Chars)
    ensures
        r.wf(),
        r@ == (CharsView { bytes: bytes@, pos: 0, done: false }),
{
    Chars { bytes: vstd::slice::slice_to_vec(bytes), pos: 0, sink: Utf8CharSink::new(), done: false }
}

/// Reading on from a held prefix follows the spec function one byte further.
proof fn lemma_first_from_step(bs: Seq<u8>, n: nat)
    requires
        n < bs.len(),
    ensures
        first_from(bs, n) == (match status(bs.take((n + 1) as int)) {
            Some(Ok(c)) => (Some(Ok::<char, Error>(c)), n + 1),
            Some(Err(e)) => (Some(Err::<char, Error>(Error::Encoding(e))), n + 1),
            None => first_from(bs, n + 1),
        }),
{
}

impl Chars {
    pub closed spec fn wf(&self) -> bool {
        &&& self.pos <= self.bytes@.len()
        &&& self.sink.wf()
        &&& self.sink@ == Seq::<u8>::empty()
    }

    /// The next character, the error that ends decoding, or `None` at the end.
    pub fn next(&mut self) -> (r: Option<Result<char, Error>>)
        requires
            old(self).wf(),
        ensures
            final(self).wf(),
            (r, final(self)@) == chars_step(old(self)@),
    {
        if self.done {
            return None;
        }
        let ghost start = self.pos as int;
        let ghost bs = self.bytes@.skip(start);
        loop
            invariant_except_break
                self.sink.wf(),
                start <= self.pos <= self.bytes@.len(),
                self.sink@ == self.bytes@.subrange(start, self.pos as int),
                first_from(bs, (self.pos - start) as nat) == first_char(bs),
                bs == self.bytes@.skip(start),
                !self.done,
            invariant
                self.bytes@ == old(self)@.bytes,
                start == old(self)@.pos,
                old(self)@.done == false,
            decreases self.bytes@.len() - self.pos,
        {
            let ghost k = (self.pos - start) as nat;
            if self.pos >= self.bytes.len() {
                if self.sink.pending() {
                    self.done = true;
                    self.sink = Utf8CharSink::new();
                    return Some(Err(Error::Eof));
                } else {
                    assert(self.sink@ =~= Seq::<u8>::empty());
                    return None;
                }
            }
            let b = self.bytes[self.pos];
            proof {
                assert(bs.take((k + 1) as int) =~= self.sink@.push(b));
                lemma_first_from_step(bs, k);
            }
            self.pos = self.pos + 1;
            match self.sink.push(b) {
                Some(Ok(c)) => {
                    return Some(Ok(c));
                },
                Some(Err(e)) => {
                    self.done = true;
                    return Some(Err(Error::Encoding(e)));
                },
                None => {
                    proof {
                        assert(self.sink@ =~= self.bytes@.subrange(start, self.pos as int));
                    }
                },
            }
        }
    }
}

/// `r` with `cs` put before its characters.
pub open spec fn prepend_chars(cs: Seq<char>, r: Result<Seq<char>, Error>) -> Result<Seq<char>, Error> {
    match r {
        Ok(rest) => Ok(cs + rest),
        Err(e) => Err(e),
    }
}

/// What reading from a held prefix can come to.
proof fn lemma_first_from_len(bs: Seq<u8>, n: nat)
    requires
        n <= bs.len(),
    ensures
        first_from(bs, n).0 is None ==> bs.len() == 0,
        first_from(bs, n).0 matches Some(Ok(_)) ==> n < first_from(bs, n).1 <= bs.len(),
    decreases bs.len() - n,
{
    if n < bs.len() {
        lemma_first_from_len(bs, n + 1);
    }
}

/// All the characters of `bytes`, or the first error that decoding meets.
pub fn decode(bytes: &[u8]) -> (r: Result<Vec<char>, Error>)
    ensures
        match r {
            Ok(cs) => decode_all(bytes@) == Ok::<Seq<char>, Error>(cs@),
            Err(e) => decode_all(bytes@) == Err::<Seq<char>, Error>(e),
        },
{
    let mut it = chars(bytes);
    let mut out: Vec<char> = Vec::new();
    proof {
        assert(bytes@.skip(0) =~= bytes@);
        assert(Seq::<char>::empty() + Seq::<char>::empty() =~= Seq::<char>::empty());
        match decode_all(bytes@) {
            Ok(x) => {
                assert(out@ + x =~= x);
            },
            Err(_) => {},
        }
    }
    loop
        invariant
            it.wf(),
            !it@.done,
            it@.bytes == bytes@,
            it@.pos <= bytes@.len(),
            decode_all(bytes@) == prepend_chars(out@, decode_all(bytes@.skip(it@.pos as int))),
        decreases bytes@.len() - it@.pos,
    {
        let ghost rest = bytes@.skip(it@.pos as int);
        proof {
            lemma_first_from_len(rest, 0);
        }
        match it.next() {
            None => {
                proof {
                    assert(out@ + Seq::<char>::empty() =~= out@);
                }
                return Ok(out);
            },
            Some(Ok(c)) => {
                let ghost before = out@;
                out.push(c);
                proof {
                    let m = first_char(rest).1;
                    assert(bytes@.skip(it@.pos as int) =~= rest.skip(m as int));
                    match decode_all(rest.skip(m as int)) {
                        Ok(x) => {
                            assert(before + (seq![c] + x) =~= out@ + x);
                        },
                        Err(_) => {},
                    }
                }
            },
            Some(Err(e)) => {
                return Err(e);
            },
        }
    }
}

/// The bytes that encode `c` leave the decoder waiting until the last, which
/// yields `c`.
proof fn lemma_status_scalar(c: char)
    ensures
        ({
            let es = encode_scalar(c as u32);
            &&& 1 <= es.len() <= 4
            &&& forall|k: int| 1 <= k < es.len() ==> #[trigger] status(es.take(k)) is None
            &&& status(es) == Some(Ok::<char, EncodingError>(c))
        }),
{
    let es = encode_scalar(c as u32);
    vstd::utf8::encode_utf8_first_scalar(seq![c]);
    lemma_encode_single(c);
    assert(seq![c][0] == c);
    assert(lead_width(es[0]) == es.len());
    assert forall|k: int| 1 <= k < es.len() implies #[trigger] status(es.take(k)) is None by {
        let t = es.take(k);
        assert(t[0] == es[0]);
        assert(t[t.len() - 1] == es[k - 1]);
    }
    assert(decode_first_scalar(es) == c as u32);
}

/// Reading on inside the encoding of `c` at the start of `bs` yields `c`.
proof fn lemma_first_from_encoded(bs: Seq<u8>, c: char, n: nat)
    requires
        encode_scalar(c as u32).len() <= bs.len(),
        bs.take(encode_scalar(c as u32).len() as int) == encode_scalar(c as u32),
        n < encode_scalar(c as u32).len(),
    ensures
        first_from(bs, n) == (Some(Ok::<char, Error>(c)), encode_scalar(c as u32).len()),
    decreases encode_scalar(c as u32).len() - n,
{
    let es = encode_scalar(c as u32);
    lemma_status_scalar(c);
    assert(bs.take((n + 1) as int) =~= es.take((n + 1) as int));
    if n + 1 < es.len() {
        assert(status(es.take((n + 1) as int)) is None);
        lemma_first_from_encoded(bs, c, n + 1);
    } else {
        assert(es.take((n + 1) as int) =~= es);
    }
}

/// Decoding text's encoding followed by more bytes gives the text's
/// characters, then what the rest decodes to.
pub proof fn lemma_decode_encoded_prefix(s: Seq<char>, tail: Seq<u8>)
    ensures
        decode_all(encode_utf8(s) + tail) == prepend_chars(s, decode_all(tail)),
    decreases s.len(),
{
    if s.len() == 0 {
        assert(encode_utf8(s) + tail =~= tail);
        match decode_all(tail) {
            Ok(x) => {
                assert(s + x =~= x);
            },
            Err(_) => {},
        }
    } else {
        let c = s[0];
        let es = encode_scalar(c as u32);
        let bs = encode_utf8(s) + tail;
        let after = encode_utf8(s.drop_first()) + tail;
        assert(bs =~= es + after);
        lemma_status_scalar(c);
        assert(bs.take(es.len() as int) =~= es);
        lemma_first_from_encoded(bs, c, 0);
        assert(bs.skip(es.len() as int) =~= after);
        lemma_decode_encoded_prefix(s.drop_first(), tail);
        match decode_all(tail) {
            Ok(x) => {
                assert(seq![c] + (s.drop_first() + x) =~= s + x);
            },
            Err(_) => {},
        }
    }
}

/// Decoding the UTF-8 encoding of any text gives back its characters, in order.
pub proof fn law_decode_round_trip(s: Seq<char>)
    ensures
        decode_all(encode_utf8(s)) == Ok::<Seq<char>, Error>(s),
{
    lemma_decode_encoded_prefix(s, Seq::empty());
    assert(encode_utf8(s) + Seq::<u8>::empty() =~= encode_utf8(s));
    assert(s + Seq::<char>::empty() =~= s);
}

/// A continuation byte where a character should start is rejected, the
/// decoder having expected a start byte.
pub proof fn law_lone_continuation(bs: Seq<u8>)
    requires
        bs.len() > 0,
        0x80 <= bs[0] <= 0xbf,
    ensures
        decode_all(bs) == Err::<Seq<char>, Error>(
            Error::Encoding(unexpected(Expected::StartByte, bs[0])),
        ),
{
    assert(bs.take(1)[0] == bs[0]);
}

/// A start marker with nothing after it, after any well-formed text, ends
/// decoding with `Eof`: no partial character is produced.
pub proof fn law_truncated_start(s: Seq<char>, b: u8)
    requires
        lead_width(b) >= 2,
    ensures
        decode_all(encode_utf8(s) + seq![b]) == Err::<Seq<char>, Error>(Error::Eof),
{
    lemma_decode_encoded_prefix(s, seq![b]);
    let one = seq![b];
    assert(one.take(1) =~= one);
    assert(one[0] == b);
    assert(status(one) is None);
    assert(first_from(one, 1) == (Some(Err::<char, Error>(Error::Eof)), 1nat));
    assert(first_char(one) == (Some(Err::<char, Error>(Error::Eof)), 1nat));
    assert(decode_all(one) == Err::<Seq<char>, Error>(Error::Eof));
}

/// Whether the first `n` bytes of `bs` are an unfinished sequence: the
/// decoder waits after each of them.
pub open spec fn pending_prefix(bs: Seq<u8>, n: nat) -> bool {
    n == 0 || (n <= bs.len() && 2 <= lead_width(bs[0]) && n < lead_width(bs[0]) && forall|
        i: int,
    |
        1 <= i < n ==> vstd::utf8::is_continuation_byte(#[trigger] bs[i]))
}

/// Where the decoder yields a character, the bytes begin with a well-formed
/// encoding of it, and that is what was consumed.
proof fn lemma_first_from_ok(bs: Seq<u8>, n: nat)
    requires
        pending_prefix(bs, n),
    ensures
        first_from(bs, n).0 matches Some(Ok(c)) ==> {
            &&& valid_first_scalar(bs)
            &&& first_from(bs, n).1 == vstd::utf8::length_of_first_scalar(bs)
            &&& c == decode_first_scalar(bs) as char
        },
    decreases bs.len() - n,
{
    if n < bs.len() {
        let t = bs.take((n + 1) as int);
        assert(t[0] == bs[0]);
        assert(t[t.len() - 1] == bs[n as int]);
        match status(t) {
            Some(Ok(c)) => {
                let w = lead_width(bs[0]);
                assert(n + 1 == w);
                assert forall|i: int| 0 <= i < t.len() implies t[i] == bs[i] by {}
                assert(valid_first_scalar(t));
                assert(valid_first_scalar(bs));
            },
            Some(Err(_)) => {},
            None => {
                assert forall|i: int| 1 <= i < n + 1 implies vstd::utf8::is_continuation_byte(
                    #[trigger] bs[i],
                ) by {
                    if i == n {
                        assert(t[t.len() - 1] == bs[i]);
                    }
                }
                lemma_first_from_ok(bs, n + 1);
            },
        }
    }
}

/// Bytes that begin with a well-formed encoding yield its character.
proof fn lemma_first_from_valid(bs: Seq<u8>, n: nat)
    requires
        valid_first_scalar(bs),
        n < vstd::utf8::length_of_first_scalar(bs),
    ensures
        first_from(bs, n) == (
            Some(Ok::<char, Error>(decode_first_scalar(bs) as char)),
            vstd::utf8::length_of_first_scalar(bs) as nat,
        ),
    decreases vstd::utf8::length_of_first_scalar(bs) - n,
{
    let w = vstd::utf8::length_of_first_scalar(bs);
    let t = bs.take((n + 1) as int);
    assert(lead_width(bs[0]) == w);
    assert(t[0] == bs[0]);
    assert(t[t.len() - 1] == bs[n as int]);
    if n + 1 < w {
        assert(status(t) is None);
        lemma_first_from_valid(bs, n + 1);
    } else {
        assert forall|i: int| 0 <= i < t.len() implies t[i] == bs[i] by {}
        assert(valid_first_scalar(t));
        assert(decode_first_scalar(t) == decode_first_scalar(bs));
    }
}

/// Decoding succeeds exactly on well-formed UTF-8, and then gives the
/// characters that the bytes encode.
pub proof fn law_decode_exactly_valid(bs: Seq<u8>)
    ensures
        decode_all(bs) is Ok <==> vstd::utf8::valid_utf8(bs),
        decode_all(bs) is Ok ==> decode_all(bs)->Ok_0 == vstd::utf8::decode_utf8(bs),
    decreases bs.len(),
{
    if bs.len() == 0 {
        assert(first_char(bs).0 is None);
    } else {
        lemma_first_from_len(bs, 0);
        lemma_first_from_ok(bs, 0);
        if valid_first_scalar(bs) {
            lemma_first_from_valid(bs, 0);
            let w = vstd::utf8::length_of_first_scalar(bs);
            assert(vstd::utf8::pop_first_scalar(bs) =~= bs.skip(w));
            law_decode_exactly_valid(bs.skip(w));
        } else {
            assert(!vstd::utf8::valid_utf8(bs));
        }
    }
}

} // verus!
