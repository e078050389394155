//! The byte-at-a-time UTF-8 state machine: it takes one byte and either waits
//! for more, yields a character, or rejects the byte.
use vstd::prelude::*;
use vstd::utf8::{
    continuation_bits, decode_first_scalar, is_continuation_byte, is_scalar, leading_bits_width_2,
    leading_bits_width_3, leading_bits_width_4, valid_first_scalar,
};

verus! {

/// Which kind of byte the decoder wanted.
#[derive(Clone, Copy, Debug, PartialEq, Eq, Structural)]
pub enum Expected {
    StartByte,
    ContByte,
}

/// A byte that cannot stand where it stands.
#[derive(Clone, Copy, Debug, PartialEq, Eq, Structural)]
pub enum Error {
    UnexpectedByte { expected: Expected, actual: u8 },
}

pub open spec fn unexpected(expected: Expected, actual: u8) -> Error {
    Error::UnexpectedByte { expected, actual }
}

/// How many bytes a sequence that starts with `b` takes: 1 for ASCII, 2 to 4
/// for a start marker, 0 for a byte that cannot start one.
pub open spec fn lead_width(b: u8) -> nat {
    if b <= 0x7f {
        1
    } else if 0xc0 <= b <= 0xdf {
        2
    } else if 0xe0 <= b <= 0xef {
        3
    } else if 0xf0 <= b <= 0xf7 {
        4
    } else {
        0
    }
}

/// What the decoder says once it holds `bs`, a sequence whose bytes before
/// the last left it waiting: `None` while it waits for more. A byte that
/// cannot start a sequence, or one where a continuation byte belongs, is
/// rejected; a complete sequence yields its character, unless it encodes no
/// scalar value or takes more bytes than that value needs, which rejects its
/// last byte.
pub open spec fn status(bs: Seq<u8>) -> Option<Result<char, Error>> {
    let b0 = bs[0];
    let last = bs[bs.len() - 1];
    if lead_width(b0) == 0 {
        Some(Err(unexpected(Expected::StartByte, b0)))
    } else if bs.len() > 1 && !is_continuation_byte(last) {
        Some(Err(unexpected(Expected::ContByte, last)))
    } else if bs.len() < lead_width(b0) {
        None
    } else if valid_first_scalar(bs) {
        Some(Ok(decode_first_scalar(bs) as char))
    } else {
        Some(Err(unexpected(Expected::ContByte, last)))
    }
}

/// The payload bits gathered from an unfinished sequence `h`.
pub open spec fn partial(h: Seq<u8>) -> u32 {
    let w = lead_width(h[0]);
    if w == 2 {
        leading_bits_width_2(h[0]) << 6
    } else if w == 3 {
        if h.len() == 1 {
            leading_bits_width_3(h[0]) << 12
        } else {
            (leading_bits_width_3(h[0]) << 12) | (continuation_bits(h[1]) << 6)
        }
    } else {
        if h.len() == 1 {
            leading_bits_width_4(h[0]) << 18
        } else if h.len() == 2 {
            (leading_bits_width_4(h[0]) << 18) | (continuation_bits(h[1]) << 12)
        } else {
            (leading_bits_width_4(h[0]) << 18) | (continuation_bits(h[1]) << 12) | (
            continuation_bits(h[2]) << 6)
        }
    }
}

/// Two- and three-byte sequences carry values below 0x800 and 0x10000.
proof fn lemma_codepoint_bounds(b0: u8, b1: u8, b2: u8, b3: u8)
    ensures
        ((leading_bits_width_2(b0) << 6) | continuation_bits(b1)) <= 0x7ff,
        ((leading_bits_width_3(b0) << 12) | (continuation_bits(b1) << 6) | continuation_bits(b2))
            <= 0xffff,
{
    assert(((((b0 & 0x1f) as u32) << 6) | ((b1 & 0x3f) as u32)) <= 0x7ff) by (bit_vector);
    assert(((((b0 & 0x0f) as u32) << 12) | (((b1 & 0x3f) as u32) << 6) | ((b2 & 0x3f) as u32))
        <= 0xffff) by (bit_vector);
}

/// Relies on char::from_u32: the character of a Unicode scalar value.
#[verifier::external_body]
fn char_of(v: u32) -> (r: Option<char>)
    ensures
        is_scalar(v) ==> r == Some(v as char),
        !is_scalar(v) ==> r is None,
{
    char::from_u32(v)
}

/// The decoder's state: the payload gathered so far, how many continuation
/// bytes are still due, and the bytes held since the last character.
pub struct Utf8CharSink {
    value: u32,
    rem: usize,
    width: usize,
    held: Ghost<Seq<u8>>,
}

impl View for Utf8CharSink {
    type V = Seq<u8>;

    /// The bytes of the unfinished character.
    closed spec fn view(&self) -> Seq<u8> {
        self.held@
    }
}

impl Utf8CharSink {
    /// The state holds an unfinished sequence, or nothing.
    pub closed spec fn wf(&self) -> bool {
        let h = self.held@;
        if h.len() == 0 {
            self.rem == 0
        } else {
            &&& 2 <= lead_width(h[0])
            &&& h.len() < lead_width(h[0])
            &&& self.width == lead_width(h[0])
            &&& self.rem == lead_width(h[0]) - h.len()
            &&& forall|i: int| 1 <= i < h.len() ==> is_continuation_byte(#[trigger] h[i])
            &&& self.value == partial(h)
        }
    }

    pub fn new() -> (r: Utf8CharSink)
        ensures
            r.wf(),
            r@ == Seq::<u8>::empty(),
    {
        Utf8CharSink { value: 0, rem: 0, width: 0, held: Ghost(Seq::empty()) }
    }

    /// Whether a character has been started and not finished.
    pub fn pending(&self) -> (r: bool)
        requires
            self.wf(),
        ensures
            r == (self@.len() > 0),
    {
        self.rem > 0
    }

    /// Takes one more byte: `None` while the character is unfinished, else
    /// the character or the rejection. Either answer empties the state.
    pub fn push(&mut self, b: u8) -> (r: Option<Result<char, Error>>)
        requires
            old(self).wf(),
        ensures
            final(self).wf(),
            r == status(old(self)@.push(b)),
            final(self)@ == (if r is None {
                old(self)@.push(b)
            } else {
                Seq::<u8>::empty()
            }),
    {
        let ghost h = self.held@;
        let ghost bs = h.push(b);
        proof {
            assert(bs[0] == (if h.len() == 0 { b } else { h[0] }));
            assert(bs[bs.len() - 1] == b);
        }
        if self.rem == 0 {
            if b <= 0x7f {
                proof {
                    assert(bs =~= seq![b]);
                    assert(decode_first_scalar(bs) == (b & 0x7f) as u32);
                    assert((b & 0x7f) as u32 == b as u32) by (bit_vector)
                        requires
                            b <= 0x7f,
                    ;
                }
                Some(Ok(b as char))
            } else if 0xc0 <= b && b <= 0xdf {
                self.value = ((b & 0x1f) as u32) << 6;
                self.rem = 1;
                self.width = 2;
                self.held = Ghost(bs);
                None
            } else if 0xe0 <= b && b <= 0xef {
                self.value = ((b & 0x0f) as u32) << 12;
                self.rem = 2;
                self.width = 3;
                self.held = Ghost(bs);
                None
            } else if 0xf0 <= b && b <= 0xf7 {
                self.value = ((b & 0x07) as u32) << 18;
                self.rem = 3;
                self.width = 4;
                self.held = Ghost(bs);
                None
            } else {
                Some(Err(Error::UnexpectedByte { expected: Expected::StartByte, actual: b }))
            }
        } else if !(0x80 <= b && b <= 0xbf) {
            self.value = 0;
            self.rem = 0;
            self.width = 0;
            self.held = Ghost(Seq::empty());
            Some(Err(Error::UnexpectedByte { expected: Expected::ContByte, actual: b }))
        } else if self.rem == 1 {
            let v = self.value | ((b & 0x3f) as u32);
            let width = self.width;
            self.value = 0;
            self.rem = 0;
            self.width = 0;
            self.held = Ghost(Seq::empty());
            proof {
                assert(bs.len() == lead_width(bs[0]));
                assert(forall|i: int| 1 <= i < h.len() ==> bs[i] == h[i]);
                assert(v == vstd::utf8::decode_first_codepoint(bs));
            }
            let ok = if width == 2 {
                0x80 <= v
            } else if width == 3 {
                0x800 <= v
            } else {
                0x10000 <= v && v <= 0x10ffff
            };
            if ok && !(0xd800 <= v && v <= 0xdfff) {
                proof {
                    assert(vstd::utf8::decode_first_codepoint(bs) == v);
                    assert(valid_first_scalar(bs));
                    lemma_codepoint_bounds(bs[0], bs[1], if bs.len() > 2 { bs[2] } else { 0 }, b);
                    assert(is_scalar(v));
                }
                match char_of(v) {
                    Some(c) => Some(Ok(c)),
                    None => Some(Err(Error::UnexpectedByte { expected: Expected::ContByte, actual: b })),
                }
            } else {
                proof {
                    assert(vstd::utf8::length_of_first_codepoint(bs) == width);
                    assert(!valid_first_scalar(bs));
                }
                Some(Err(Error::UnexpectedByte { expected: Expected::ContByte, actual: b }))
            }
        } else {
            if self.rem == 2 {
                self.value = self.value | (((b & 0x3f) as u32) << 6);
            } else {
                self.value = self.value | (((b & 0x3f) as u32) << 12);
            }
            self.rem = self.rem - 1;
            self.held = Ghost(bs);
            proof {
                assert(forall|i: int| 1 <= i < h.len() ==> bs[i] == h[i]);
            }
            None
        }
    }
}

} // verus!
