//! Executable UTF-8 encoding and decoding, verified against the character
//! encoding model of `vstd::utf8`.
//!
//! Everything here works on plain bytes: encoding one character to its 1- to
//! 4-byte form, and decoding one character off either end of a valid UTF-8
//! byte slice.

use vstd::prelude::*;
use vstd::utf8::{
    codepoint_width_1, codepoint_width_2, codepoint_width_3, codepoint_width_4,
    decode_first_scalar, decode_utf8, encode_scalar, encode_utf8, is_continuation_byte,
    is_leading_byte_width_1, is_leading_byte_width_2, is_leading_byte_width_3,
    is_leading_byte_width_4, is_scalar, length_of_first_scalar, take_first_scalar, valid_utf8,
};

verus! {

/// Relies on `char::from_u32`: it returns `Some` exactly for Unicode scalar
/// values (at most 0x10FFFF and not a surrogate), and the returned character
/// is that value.
pub assume_specification[ char::from_u32 ](v: u32) -> (c: Option<char>)
    ensures
        c is Some <==> is_scalar(v),
        c matches Some(ch) ==> ch as u32 == v,
;

/// Concatenating two character sequences concatenates their UTF-8 encodings.
pub proof fn lemma_encode_utf8_append(a: Seq<char>, b: Seq<char>)
    ensures
        encode_utf8(a + b) == encode_utf8(a) + encode_utf8(b),
    decreases a.len(),
{
    if a.len() == 0 {
        assert(a + b =~= b);
        assert(encode_utf8(a) + encode_utf8(b) =~= encode_utf8(b));
    } else {
        lemma_encode_utf8_append(a.drop_first(), b);
        assert((a + b).drop_first() =~= a.drop_first() + b);
        assert(encode_utf8(a) + encode_utf8(b) =~= encode_scalar(a[0] as u32) + (encode_utf8(
            a.drop_first(),
        ) + encode_utf8(b)));
    }
}

/// Appending one character to a sequence appends its encoding to the
/// sequence's encoding.
pub proof fn lemma_encode_utf8_push(chars: Seq<char>, c: char)
    ensures
        encode_utf8(chars.push(c)) == encode_utf8(chars) + encode_scalar(c as u32),
{
    lemma_encode_utf8_append(chars, seq![c]);
    assert(chars.push(c) =~= chars + seq![c]);
    assert(seq![c].drop_first() =~= Seq::<char>::empty());
    reveal_with_fuel(encode_utf8, 2);
    assert(encode_utf8(seq![c]) =~= encode_scalar(c as u32));
}

/// A nonempty valid UTF-8 byte sequence decodes to at least one character,
/// and an empty one to none.
pub proof fn lemma_decode_len(bytes: Seq<u8>)
    requires
        valid_utf8(bytes),
    ensures
        decode_utf8(bytes).len() == 0 <==> bytes.len() == 0,
{
}

/// A character boundary of a valid UTF-8 byte sequence lies within it.
pub proof fn lemma_char_boundary_in_range(bytes: Seq<u8>, index: int)
    requires
        valid_utf8(bytes),
        vstd::utf8::is_char_boundary(bytes, index),
    ensures
        0 <= index <= bytes.len(),
    decreases bytes.len(),
{
    if index != 0 {
        lemma_char_boundary_in_range(
            vstd::utf8::pop_first_scalar(bytes),
            index - length_of_first_scalar(bytes),
        );
    }
}

/// Encodes one character into its 1- to 4-byte UTF-8 form.
pub fn encode_char(c: char) -> (v: Vec<u8>)
    ensures
        v@ == encode_scalar(c as u32),
        1 <= v@.len() <= 4,
{
    proof {
        vstd::utf8::char_is_scalar(c);
    }
    let x = c as u32;
    let mut v: Vec<u8> = Vec::new();
    if x < 0x80 {
        assert(x & 0x7F <= 0x7F) by (bit_vector);
        v.push((x & 0x7F) as u8);
        proof {
            assert(v@ =~= encode_scalar(x));
        }
    } else if x < 0x800 {
        assert((x >> 6) & 0x1F <= 0x1F && x & 0x3F <= 0x3F) by (bit_vector);
        v.push(0xC0 | ((x >> 6) & 0x1F) as u8);
        v.push(0x80 | (x & 0x3F) as u8);
        proof {
            assert(v@ =~= encode_scalar(x));
        }
    } else if x < 0x10000 {
        assert((x >> 12) & 0x0F <= 0x0F && (x >> 6) & 0x3F <= 0x3F && x & 0x3F <= 0x3F)
            by (bit_vector);
        v.push(0xE0 | ((x >> 12) & 0x0F) as u8);
        v.push(0x80 | ((x >> 6) & 0x3F) as u8);
        v.push(0x80 | (x & 0x3F) as u8);
        proof {
            assert(v@ =~= encode_scalar(x));
        }
    } else {
        assert((x >> 18) & 0x7 <= 0x7 && (x >> 12) & 0x3F <= 0x3F && (x >> 6) & 0x3F <= 0x3F && x
            & 0x3F <= 0x3F) by (bit_vector);
        v.push(0xF0 | ((x >> 18) & 0x7) as u8);
        v.push(0x80 | ((x >> 12) & 0x3F) as u8);
        v.push(0x80 | ((x >> 6) & 0x3F) as u8);
        v.push(0x80 | (x & 0x3F) as u8);
        proof {
            assert(v@ =~= encode_scalar(x));
        }
    }
    v
}

/// Decodes the character whose encoding starts at byte offset `at` of `s`,
/// given that the bytes from `at` on are valid UTF-8. Returns the character
/// and the width of its encoding.
pub fn decode_first_at(s: &[u8], at: usize) -> (r: (char, usize))
    requires
        valid_utf8(s@.subrange(at as int, s@.len() as int)),
        at < s@.len(),
    ensures
        ({
            let rest = s@.subrange(at as int, s@.len() as int);
            &&& r.1 == length_of_first_scalar(rest)
            &&& 1 <= r.1 <= 4
            &&& at + r.1 <= s@.len()
            &&& r.0 as u32 == decode_first_scalar(rest)
            &&& encode_scalar(r.0 as u32) == take_first_scalar(rest)
            &&& r.0 == decode_utf8(rest)[0]
        }),
{
    let ghost rest = s@.subrange(at as int, s@.len() as int);
    let n = s.len();
    proof {
        assert(vstd::utf8::valid_first_scalar(rest));
        assert(rest[0] == s@[at as int]);
    }
    let b0 = *vstd::slice::slice_index_get(s, at);
    let (cp, width): (u32, usize) = if b0 < 0x80 {
        (((b0 & 0x7F) as u32), 1)
    } else if 0xC0 <= b0 && b0 <= 0xDF {
        proof {
            assert(rest.len() >= 2);
        }
        let b1 = *vstd::slice::slice_index_get(s, at + 1);
        ((((b0 & 0x1F) as u32) << 6) | ((b1 & 0x3F) as u32), 2)
    } else if 0xE0 <= b0 && b0 <= 0xEF {
        proof {
            assert(rest.len() >= 3);
        }
        let b1 = *vstd::slice::slice_index_get(s, at + 1);
        let b2 = *vstd::slice::slice_index_get(s, at + 2);
        (
            ((((b0 & 0x0F) as u32) << 12) | (((b1 & 0x3F) as u32) << 6) | ((b2 & 0x3F) as u32)),
            3,
        )
    } else if 0xF0 <= b0 && b0 <= 0xF7 {
        proof {
            assert(rest.len() >= 4);
        }
        let b1 = *vstd::slice::slice_index_get(s, at + 1);
        let b2 = *vstd::slice::slice_index_get(s, at + 2);
        let b3 = *vstd::slice::slice_index_get(s, at + 3);
        (
            ((((b0 & 0x07) as u32) << 18) | (((b1 & 0x3F) as u32) << 12) | (((b2 & 0x3F) as u32)
                << 6) | ((b3 & 0x3F) as u32)),
            4,
        )
    } else {
        // A valid sequence starts with a leading byte, never with a
        // continuation byte or a byte above 0xF7.
        proof {
            assert(vstd::utf8::valid_first_scalar(rest));
        }
        vstd::pervasive::unreached()
    };
    proof {
        assert(vstd::utf8::valid_first_scalar(rest));
        assert(cp == decode_first_scalar(rest));
        assert(width == length_of_first_scalar(rest));
        lemma_decoded_codepoint_is_scalar(rest);
    }
    let c = if let Some(c) = char::from_u32(cp) {
        c
    } else {
        proof {
            assert(false);
        }
        vstd::pervasive::unreached()
    };
    proof {
        vstd::utf8::decode_utf8_first_scalar(rest);
        vstd::utf8::char_u32_cast(c, cp);
        assert(decode_utf8(rest)[0] == decode_first_scalar(rest) as char);
    }
    (c, width)
}

/// The codepoint at the head of a valid UTF-8 sequence is a Unicode scalar.
proof fn lemma_decoded_codepoint_is_scalar(bytes: Seq<u8>)
    requires
        vstd::utf8::valid_first_scalar(bytes),
    ensures
        is_scalar(decode_first_scalar(bytes)),
{
    let b0 = bytes[0];
    if is_leading_byte_width_1(b0) {
        assert(codepoint_width_1(b0) <= 0x7F) by (bit_vector)
            requires
                is_leading_byte_width_1(b0),
        ;
    } else if is_leading_byte_width_2(b0) {
        let b1 = bytes[1];
        assert(codepoint_width_2(b0, b1) <= 0x7FF) by (bit_vector);
    } else if is_leading_byte_width_3(b0) {
        let b1 = bytes[1];
        let b2 = bytes[2];
        assert(codepoint_width_3(b0, b1, b2) <= 0xFFFF) by (bit_vector);
    } else {
        let b1 = bytes[1];
        let b2 = bytes[2];
        let b3 = bytes[3];
        assert(codepoint_width_4(b0, b1, b2, b3) <= 0x1FFFFF) by (bit_vector);
    }
}

/// Decodes the last character of a nonempty valid UTF-8 slice. Returns the
/// character and the width of its encoding, which forms the slice's tail.
#[verifier::loop_isolation(false)]
pub fn decode_last(s: &[u8]) -> (r: (char, usize))
    requires
        valid_utf8(s@),
        s@.len() > 0,
    ensures
        1 <= r.1 <= 4,
        r.1 <= s@.len(),
        valid_utf8(s@.subrange(0, s@.len() - r.1)),
        decode_utf8(s@) == decode_utf8(s@.subrange(0, s@.len() - r.1)).push(r.0),
        r.0 == decode_utf8(s@).last(),
        encode_scalar(r.0 as u32) == s@.subrange(s@.len() - r.1, s@.len() as int),
{
    let n = s.len();
    let ghost chars = decode_utf8(s@);
    let ghost c = chars.last();
    let ghost head = chars.drop_last();
    let ghost e = encode_scalar(c as u32);
    proof {
        lemma_decode_len(s@);
        vstd::utf8::decode_utf8_encode_utf8(s@);
        lemma_encode_utf8_push(head, c);
        assert(chars =~= head.push(c));
        assert(s@ == encode_utf8(head) + e);
        vstd::utf8::encode_utf8_valid_utf8(head);
        vstd::utf8::encode_utf8_valid_utf8(seq![c]);
        vstd::utf8::encode_utf8_first_scalar(seq![c]);
        assert(seq![c].drop_first() =~= Seq::<char>::empty());
        reveal_with_fuel(encode_utf8, 2);
        assert(encode_utf8(seq![c]) =~= e);
        assert(e.len() == length_of_first_scalar(e));
        lemma_scalar_encoding_shape(c);
        assert(s@.subrange(0, s@.len() - e.len()) =~= encode_utf8(head));
        assert(s@.subrange(s@.len() - e.len(), s@.len() as int) =~= e);
    }
    // Walk left over the continuation bytes to the leading byte.
    let mut j = n - 1;
    let mut b = *vstd::slice::slice_index_get(s, j);
    while 0x80 <= b && b <= 0xBF
        invariant
            n - e.len() <= j <= n - 1,
            b == s@[j as int],
        decreases j,
    {
        proof {
            assert(!is_continuation_byte(e[0]));
            assert(j > n - e.len());
        }
        j = j - 1;
        b = *vstd::slice::slice_index_get(s, j);
    }
    proof {
        assert(forall|t: int| 1 <= t < e.len() ==> is_continuation_byte(e[t]));
        assert(j == n - e.len());
        assert(valid_utf8(s@.subrange(j as int, s@.len() as int)));
    }
    let (ch, width) = decode_first_at(s, j);
    proof {
        let tail = s@.subrange(j as int, s@.len() as int);
        assert(take_first_scalar(tail) =~= tail);
        vstd::utf8::encode_utf8_decode_utf8(seq![c]);
        assert(decode_utf8(e)[0] == c);
        assert(width == e.len());
        vstd::utf8::encode_utf8_decode_utf8(head);
        assert(s@.subrange(0, s@.len() - width) =~= encode_utf8(head));
        assert(decode_utf8(s@.subrange(0, s@.len() - width)).push(ch) =~= decode_utf8(s@));
    }
    (ch, width)
}

/// The characters of `chars` paired with the byte offsets, counted from
/// `base`, at which their UTF-8 encodings start.
pub open spec fn spec_char_indices(chars: Seq<char>, base: int) -> Seq<(usize, char)>
    decreases chars.len(),
{
    if chars.len() == 0 {
        seq![]
    } else {
        seq![(base as usize, chars[0])] + spec_char_indices(
            chars.drop_first(),
            base + encode_scalar(chars[0] as u32).len(),
        )
    }
}

/// Offsets keep counting across a concatenation: the second sequence starts
/// where the first one's encoding ends.
pub proof fn lemma_char_indices_append(a: Seq<char>, b: Seq<char>, base: int)
    ensures
        spec_char_indices(a + b, base) == spec_char_indices(a, base) + spec_char_indices(
            b,
            base + encode_utf8(a).len(),
        ),
    decreases a.len(),
{
    if a.len() == 0 {
        assert(a + b =~= b);
        assert(spec_char_indices(a + b, base) =~= spec_char_indices(a, base) + spec_char_indices(
            b,
            base + encode_utf8(a).len(),
        ));
    } else {
        lemma_char_indices_append(a.drop_first(), b, base + encode_scalar(a[0] as u32).len());
        assert((a + b).drop_first() =~= a.drop_first() + b);
        assert(spec_char_indices(a + b, base) =~= spec_char_indices(a, base) + spec_char_indices(
            b,
            base + encode_utf8(a).len(),
        ));
    }
}

/// Decodes a whole valid UTF-8 slice into its characters.
#[verifier::loop_isolation(false)]
pub fn decode_all(s: &[u8]) -> (out: Vec<char>)
    requires
        valid_utf8(s@),
    ensures
        out@ == decode_utf8(s@),
{
    let mut out: Vec<char> = Vec::new();
    let mut i: usize = 0;
    proof {
        assert(s@.subrange(0, s@.len() as int) =~= s@);
        assert(out@ + decode_utf8(s@) =~= decode_utf8(s@));
    }
    while i < s.len()
        invariant
            i <= s@.len(),
            valid_utf8(s@.subrange(i as int, s@.len() as int)),
            decode_utf8(s@) == out@ + decode_utf8(s@.subrange(i as int, s@.len() as int)),
        decreases s@.len() - i,
    {
        let ghost rest = s@.subrange(i as int, s@.len() as int);
        let (c, w) = decode_first_at(s, i);
        out.push(c);
        i = i + w;
        proof {
            assert(vstd::utf8::pop_first_scalar(rest) =~= s@.subrange(i as int, s@.len() as int));
            assert(out@ + decode_utf8(s@.subrange(i as int, s@.len() as int)) =~= decode_utf8(
                s@,
            ));
        }
    }
    proof {
        assert(s@.subrange(s@.len() as int, s@.len() as int) =~= Seq::<u8>::empty());
        assert(out@ =~= decode_utf8(s@));
    }
    out
}

/// Decodes a whole valid UTF-8 slice into its characters, pairing each with
/// the byte offset, counted from `base`, at which its encoding starts.
#[verifier::loop_isolation(false)]
pub fn decode_indexed(s: &[u8], base: usize) -> (out: Vec<(usize, char)>)
    requires
        valid_utf8(s@),
        base + s@.len() <= usize::MAX,
    ensures
        out@ == spec_char_indices(decode_utf8(s@), base as int),
{
    let mut out: Vec<(usize, char)> = Vec::new();
    let mut i: usize = 0;
    proof {
        assert(s@.subrange(0, s@.len() as int) =~= s@);
        assert(out@ + spec_char_indices(decode_utf8(s@), base as int) =~= spec_char_indices(
            decode_utf8(s@),
            base as int,
        ));
    }
    while i < s.len()
        invariant
            i <= s@.len(),
            valid_utf8(s@.subrange(i as int, s@.len() as int)),
            spec_char_indices(decode_utf8(s@), base as int) == out@ + spec_char_indices(
                decode_utf8(s@.subrange(i as int, s@.len() as int)),
                base + i,
            ),
        decreases s@.len() - i,
    {
        let ghost rest = s@.subrange(i as int, s@.len() as int);
        let (c, w) = decode_first_at(s, i);
        out.push((base + i, c));
        proof {
            assert(decode_utf8(rest) =~= seq![c] + decode_utf8(rest).drop_first());
            lemma_char_indices_append(seq![c], decode_utf8(rest).drop_first(), base + i);
            reveal_with_fuel(encode_utf8, 2);
            assert(seq![c].drop_first() =~= Seq::<char>::empty());
            assert(encode_utf8(seq![c]) =~= encode_scalar(c as u32));
            assert(spec_char_indices(seq![c], base + i) =~= seq![((base + i) as usize, c)]);
        }
        i = i + w;
        proof {
            assert(vstd::utf8::pop_first_scalar(rest) =~= s@.subrange(i as int, s@.len() as int));
            assert(decode_utf8(rest).drop_first() =~= decode_utf8(
                s@.subrange(i as int, s@.len() as int),
            ));
            assert(spec_char_indices(decode_utf8(s@), base as int) =~= out@ + spec_char_indices(
                decode_utf8(s@.subrange(i as int, s@.len() as int)),
                base + i,
            ));
        }
    }
    proof {
        assert(s@.subrange(s@.len() as int, s@.len() as int) =~= Seq::<u8>::empty());
        assert(out@ =~= spec_char_indices(decode_utf8(s@), base as int));
    }
    out
}

/// The encoding of one character starts with a leading byte and continues
/// with continuation bytes only.
pub proof fn lemma_scalar_encoding_shape(c: char)
    ensures
        ({
            let e = encode_scalar(c as u32);
            &&& 1 <= e.len() <= 4
            &&& !is_continuation_byte(e[0])
            &&& forall|t: int| 1 <= t < e.len() ==> is_continuation_byte(#[trigger] e[t])
        }),
{
    vstd::utf8::char_is_scalar(c);
    let x = c as u32;
    let e = encode_scalar(x);
    if vstd::utf8::has_width_1_encoding(x) {
        assert(!is_continuation_byte((x & 0x7F) as u8)) by (bit_vector)
            requires
                x < 0x80,
        ;
    } else if vstd::utf8::has_width_2_encoding(x) {
        assert(!is_continuation_byte(0xC0 | ((x >> 6) & 0x1F) as u8) && is_continuation_byte(
            0x80 | (x & 0x3F) as u8,
        )) by (bit_vector);
    } else if vstd::utf8::has_width_3_encoding(x) {
        assert(!is_continuation_byte(0xE0 | ((x >> 12) & 0x0F) as u8) && is_continuation_byte(
            0x80 | ((x >> 6) & 0x3F) as u8,
        ) && is_continuation_byte(0x80 | (x & 0x3F) as u8)) by (bit_vector);
    } else {
        assert(!is_continuation_byte(0xF0 | ((x >> 18) & 0x7) as u8) && is_continuation_byte(
            0x80 | ((x >> 12) & 0x3F) as u8,
        ) && is_continuation_byte(0x80 | ((x >> 6) & 0x3F) as u8) && is_continuation_byte(
            0x80 | (x & 0x3F) as u8,
        )) by (bit_vector);
    }
}

} // verus!
