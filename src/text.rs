//! Facts about the UTF-8 encoding of character sequences, as `str` stores them.
use vstd::prelude::*;
use vstd::utf8::*;

verus! {

broadcast use vstd::utf8::char_is_scalar;

/// Number of bytes that the UTF-8 encoding of `s` takes.
pub open spec fn byte_len(s: Seq<char>) -> nat {
    encode_utf8(s).len()
}

/// Number of bytes that the UTF-8 encoding of `c` takes.
pub open spec fn char_width(c: char) -> nat {
    encode_scalar(c as u32).len()
}

/// The encoding of a concatenation is the concatenation of the encodings.
pub proof fn lemma_encode_concat(a: Seq<char>, b: Seq<char>)
    ensures
        encode_utf8(a + b) == encode_utf8(a) + encode_utf8(b),
    decreases a.len(),
{
    if a.len() == 0 {
        assert(a + b =~= b);
        assert(encode_utf8(a) + encode_utf8(b) =~= encode_utf8(b));
    } else {
        assert((a + b).drop_first() =~= a.drop_first() + b);
        assert((a + b)[0] == a[0]);
        lemma_encode_concat(a.drop_first(), b);
        assert(encode_utf8(a + b) =~= encode_utf8(a) + encode_utf8(b));
    }
}

/// The encoding of one character is its scalar's encoding.
pub proof fn lemma_encode_single(c: char)
    ensures
        encode_utf8(seq![c]) == encode_scalar(c as u32),
{
    assert(seq![c].drop_first() =~= Seq::<char>::empty());
    assert(encode_utf8(Seq::<char>::empty()) =~= Seq::<u8>::empty());
    assert(encode_utf8(seq![c]) =~= encode_scalar(c as u32));
}

/// Byte lengths add up over a concatenation.
pub proof fn lemma_byte_len_concat(a: Seq<char>, b: Seq<char>)
    ensures
        byte_len(a + b) == byte_len(a) + byte_len(b),
{
    lemma_encode_concat(a, b);
}

/// Splitting a sequence anywhere splits its byte length.
pub proof fn lemma_byte_len_split(s: Seq<char>, k: int)
    requires
        0 <= k <= s.len(),
    ensures
        byte_len(s) == byte_len(s.take(k)) + byte_len(s.skip(k)),
{
    assert(s =~= s.take(k) + s.skip(k));
    lemma_byte_len_concat(s.take(k), s.skip(k));
}

/// Appending one character adds its width.
pub proof fn lemma_byte_len_push(s: Seq<char>, c: char)
    ensures
        byte_len(s.push(c)) == byte_len(s) + char_width(c),
{
    assert(s.push(c) =~= s + seq![c]);
    lemma_byte_len_concat(s, seq![c]);
    lemma_encode_single(c);
}

/// Every character takes at least one byte.
pub proof fn lemma_chars_le_bytes(s: Seq<char>)
    ensures
        s.len() <= byte_len(s),
    decreases s.len(),
{
    if s.len() > 0 {
        lemma_chars_le_bytes(s.drop_last());
        assert(s =~= s.drop_last().push(s.last()));
        lemma_byte_len_push(s.drop_last(), s.last());
    }
}

/// The end of the encoding of a prefix is a character boundary of the whole.
pub proof fn lemma_prefix_boundary(a: Seq<char>, b: Seq<char>)
    ensures
        is_char_boundary(encode_utf8(a + b), byte_len(a) as int),
    decreases a.len(),
{
    broadcast use vstd::utf8::encode_utf8_valid_utf8;

    let bytes = encode_utf8(a + b);
    assert(valid_utf8(bytes));
    if a.len() == 0 {
        assert(byte_len(a) == 0);
    } else {
        let first = encode_scalar(a[0] as u32);
        encode_utf8_first_scalar(a + b);
        assert((a + b).drop_first() =~= a.drop_first() + b);
        assert((a + b)[0] == a[0]);
        assert(bytes =~= first + encode_utf8(a.drop_first() + b));
        assert(pop_first_scalar(bytes) =~= encode_utf8(a.drop_first() + b));
        lemma_prefix_boundary(a.drop_first(), b);
        assert(encode_utf8(a) =~= first + encode_utf8(a.drop_first()));
        assert(byte_len(a) == first.len() + byte_len(a.drop_first()));
        lemma_byte_len_concat(a, b);
        assert(byte_len(a) <= bytes.len());
        assert(length_of_first_scalar(bytes) == first.len());
        assert(byte_len(a) as int != 0);
    }
}

/// Two sequences with the same encoding are the same.
pub proof fn lemma_encode_injective(a: Seq<char>, b: Seq<char>)
    requires
        encode_utf8(a) == encode_utf8(b),
    ensures
        a == b,
{
    encode_utf8_decode_utf8(a);
    encode_utf8_decode_utf8(b);
}

} // verus!
