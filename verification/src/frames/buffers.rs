//! Writing JSON string literals into the output buffer.

use crate::bindings::{serde_json_string, string_push};
use crate::json::{
    is_escaped_byte, json_string, lemma_escape_plain, needs_json_escape, quoted, tag_open,
};
use crate::utf8::lemma_escaped_byte_iff_char;
use vstd::utf8::encode_utf8;
use vstd::prelude::*;

verus! {

/// Errors that writing a JSON string literal can raise.
#[derive(Debug)]
pub enum BufferError {
    /// Writing to the output failed.
    OnBufferWrite(std::io::Error),
    /// serde_json failed to write the string.
    OnSerdeJson(serde_json::Error),
}

/// Write a JSON-escaped string to `buffer`, using a fast path when possible.
///
/// Text that holds no character JSON reserves is copied between quotes as it
/// is; other text goes through serde_json.
pub fn write_json_string(s: &str, buffer: &mut String) -> (r: Result<(), BufferError>)
    ensures
        r is Ok,
        final(buffer)@ == old(buffer)@ + json_string(s@),
{
    if needs_escaping_fast(s) {
        match serde_json_string(s) {
            Ok(escaped) => {
                buffer.append(escaped.as_str());
                proof {
                    assert(final(buffer)@ == old(buffer)@ + json_string(s@));
                }
            },
            Err(e) => {
                return Err(BufferError::OnSerdeJson(e));
            },
        }
    } else {
        string_push(buffer, '"');
        buffer.append(s);
        string_push(buffer, '"');
        proof {
            lemma_escape_plain(s@);
            assert(buffer@ =~= old(buffer)@ + quoted(s@));
        }
    }
    Ok(())
}

/// Whether `s` holds a character that a JSON string literal must escape,
/// found by scanning its UTF-8 bytes.
pub fn needs_escaping_fast(s: &str) -> (r: bool)
    ensures
        r == exists|j: int| 0 <= j < s@.len() && #[trigger] needs_json_escape(s@[j]),
{
    let bytes = s.as_bytes();
    let mut i: usize = 0;
    while i < bytes.len()
        invariant
            bytes@ == encode_utf8(s@),
            0 <= i <= bytes@.len(),
            forall|k: int| 0 <= k < i ==> !#[trigger] is_escaped_byte(bytes@[k]),
        decreases bytes@.len() - i,
    {
        let b = bytes[i];
        if b == 0x22 || b == 0x5c || b < 0x20 {
            assert(is_escaped_byte(bytes@[i as int]));
            proof {
                lemma_escaped_byte_iff_char(s@);
            }
            return true;
        }
        // Non-ASCII UTF-8 bytes are valid in JSON strings without escaping
        i = i + 1;
    }
    proof {
        lemma_escaped_byte_iff_char(s@);
    }
    false
}

/// Write `s` between quotes, with nothing escaped.
pub fn write_json_string_unchecked(s: &str, buffer: &mut String)
    ensures
        final(buffer)@ == old(buffer)@ + quoted(s@),
{
    string_push(buffer, '"');
    buffer.append(s);
    string_push(buffer, '"');
    proof {
        assert(buffer@ =~= old(buffer)@ + quoted(s@));
    }
}

/// Write `prefix` followed by `s` between quotes, with nothing escaped.
pub fn write_json_string_with_prefix_unchecked(prefix: &str, s: &str, buffer: &mut String)
    ensures
        final(buffer)@ == old(buffer)@ + quoted(prefix@ + s@),
{
    string_push(buffer, '"');
    buffer.append(prefix);
    buffer.append(s);
    string_push(buffer, '"');
    proof {
        assert(buffer@ =~= old(buffer)@ + quoted(prefix@ + s@));
    }
}

/// Write the start of an element's object: `{"tag":{`.
pub fn write_tag_open(tag: &str, buffer: &mut String)
    ensures
        final(buffer)@ == old(buffer)@ + tag_open(tag@),
{
    string_push(buffer, '{');
    write_json_string_unchecked(tag, buffer);
    string_push(buffer, ':');
    string_push(buffer, '{');
    proof {
        assert(buffer@ =~= old(buffer)@ + tag_open(tag@));
    }
}

} // verus!
