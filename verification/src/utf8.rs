//! Facts about the UTF-8 encoding of text that the byte-level scans of the
//! library rely on.

use crate::json::{is_escaped_byte, needs_json_escape};
use vstd::prelude::*;
use vstd::utf8::*;

verus! {

/// In UTF-8, a byte below 0x80 stands for itself, and every byte of the
/// encoding of a larger character is at least 0x80; so a reserved byte occurs
/// in the encoding exactly when a reserved character occurs in the text.
pub proof fn lemma_escaped_byte_iff_char(s: Seq<char>)
    ensures
        (exists|i: int| 0 <= i < encode_utf8(s).len() && #[trigger] is_escaped_byte(encode_utf8(s)[i]))
            <==> (exists|j: int| 0 <= j < s.len() && #[trigger] needs_json_escape(s[j])),
    decreases s.len(),
{
    if s.len() > 0 {
        let rest = s.drop_first();
        lemma_escaped_byte_iff_char(rest);
        char_is_scalar(s[0]);
        let v = s[0] as u32;
        let head = encode_scalar(v);
        let enc = encode_utf8(s);
        assert(enc == head + encode_utf8(rest));
        if has_width_1_encoding(v) {
            assert(head == seq![leading_byte_width_1(v)]);
            assert((v & 0x7F) as u8 == v as u8 && (v as u8 == 0x22 <==> v == 0x22) && (v as u8
                == 0x5c <==> v == 0x5c) && ((v as u8) < 0x20 <==> v < 0x20)) by (bit_vector)
                requires
                    v <= 0x7f,
            ;
            if exists|j: int| 0 <= j < s.len() && #[trigger] needs_json_escape(s[j]) {
                let j = choose|j: int| 0 <= j < s.len() && #[trigger] needs_json_escape(s[j]);
                if j == 0 {
                    assert(is_escaped_byte(enc[0]));
                } else {
                    assert(needs_json_escape(rest[j - 1]));
                    let i = choose|i: int|
                        0 <= i < encode_utf8(rest).len() && #[trigger] is_escaped_byte(
                            encode_utf8(rest)[i],
                        );
                    assert(enc[i + 1] == encode_utf8(rest)[i]);
                }
            }
            if exists|i: int| 0 <= i < enc.len() && #[trigger] is_escaped_byte(enc[i]) {
                let i = choose|i: int| 0 <= i < enc.len() && #[trigger] is_escaped_byte(enc[i]);
                if i == 0 {
                    assert(enc[0] == head[0]);
                    assert(head[0] == v as u8);
                    assert(needs_json_escape(s[0]));
                } else {
                    assert(is_escaped_byte(encode_utf8(rest)[i - 1]));
                    let j = choose|j: int| 0 <= j < rest.len() && #[trigger] needs_json_escape(rest[j]);
                    assert(s[j + 1] == rest[j]);
                }
            }
        } else {
            char_is_scalar(s[0]);
            assert(forall|k: int| 0 <= k < head.len() ==> !is_escaped_byte(#[trigger] head[k])) by {
                assert forall|k: int| 0 <= k < head.len() implies !is_escaped_byte(#[trigger] head[k]) by {
                    lemma_wide_scalar_bytes_high(v);
                }
            }
            assert(!needs_json_escape(s[0]));
            if exists|j: int| 0 <= j < s.len() && #[trigger] needs_json_escape(s[j]) {
                let j = choose|j: int| 0 <= j < s.len() && #[trigger] needs_json_escape(s[j]);
                assert(j != 0);
                assert(needs_json_escape(rest[j - 1]));
                let i = choose|i: int|
                    0 <= i < encode_utf8(rest).len() && #[trigger] is_escaped_byte(
                        encode_utf8(rest)[i],
                    );
                assert(enc[i + head.len()] == encode_utf8(rest)[i]);
            }
            if exists|i: int| 0 <= i < enc.len() && #[trigger] is_escaped_byte(enc[i]) {
                let i = choose|i: int| 0 <= i < enc.len() && #[trigger] is_escaped_byte(enc[i]);
                assert(i >= head.len());
                assert(is_escaped_byte(encode_utf8(rest)[i - head.len()]));
                let j = choose|j: int| 0 <= j < rest.len() && #[trigger] needs_json_escape(rest[j]);
                assert(s[j + 1] == rest[j]);
            }
        }
    }
}

/// Every byte of the UTF-8 encoding of a scalar above 0x7f is at least 0x80.
pub proof fn lemma_wide_scalar_bytes_high(v: u32)
    requires
        is_scalar(v),
        !has_width_1_encoding(v),
    ensures
        forall|k: int| 0 <= k < encode_scalar(v).len() ==> #[trigger] encode_scalar(v)[k] >= 0x80,
{
    assert(leading_byte_width_2(v) >= 0x80 && leading_byte_width_3(v) >= 0x80
        && leading_byte_width_4(v) >= 0x80 && last_continuation_byte(v) >= 0x80
        && second_last_continuation_byte(v) >= 0x80 && third_last_continuation_byte(v) >= 0x80)
        by (bit_vector);
}

/// The first byte of the encoding of non-empty text is its first character
/// when that character is ASCII, and at least 0x80 otherwise.
pub proof fn lemma_first_byte(s: Seq<char>)
    ensures
        s.len() == 0 <==> encode_utf8(s).len() == 0,
        s.len() > 0 && (s[0] as u32) < 0x80 ==> encode_utf8(s)[0] == (s[0] as u32) as u8,
        s.len() > 0 && (s[0] as u32) >= 0x80 ==> encode_utf8(s)[0] >= 0x80,
{
    if s.len() > 0 {
        char_is_scalar(s[0]);
        let v = s[0] as u32;
        let head = encode_scalar(v);
        assert(encode_utf8(s) == head + encode_utf8(s.drop_first()));
        if has_width_1_encoding(v) {
            assert((v & 0x7F) as u8 == v as u8) by (bit_vector)
                requires
                    v <= 0x7f,
            ;
            assert(encode_utf8(s)[0] == head[0]);
        } else {
            lemma_wide_scalar_bytes_high(v);
            assert(encode_utf8(s)[0] == head[0]);
        }
    }
}

/// Characters with the same scalar value are the same character.
pub proof fn lemma_char_eq(a: char, b: char)
    requires
        a as u32 == b as u32,
    ensures
        a == b,
{
    char_u32_cast(a, a as u32);
    char_u32_cast(b, b as u32);
}

} // verus!
