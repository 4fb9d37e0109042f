//! Decoding names and text, and resolving the references in attribute values.

use crate::bindings::{
    char_from_u32, resolve_predefined_entity, string_push, strip_prefix_char, u32_from_str_radix,
};
use crate::errors::XmlToJsonError;
use crate::text::{
    char_ref_spec, find_char, lemma_find_char, lemma_find_char_at, resolve_part, resolve_ref_spec,
    unescape_parts, unescape_spec, unsigned_spec,
};
use crate::utf8::{lemma_char_eq, lemma_first_byte};
use quick_xml::Reader;
use std::borrow::Cow;
use vstd::prelude::*;
use vstd::utf8::{decode_utf8, valid_utf8};

verus! {

/// Decode `bytes` with the reader's decoder: `Reader::decoder` and
/// `Decoder::decode` (quick-xml built without `encoding`, so UTF-8 through
/// `std::str::from_utf8`), its error turned into `quick_xml::Error`. It
/// succeeds exactly when `bytes` is UTF-8, with the text they encode.
#[verifier::external_body]
pub fn decode_bytes<'a, R>(reader: &Reader<R>, bytes: &'a [u8]) -> (r: Result<
    Cow<'a, str>,
    quick_xml::Error,
>)
    ensures
        r is Ok <==> valid_utf8(bytes@),
        r is Ok ==> r->Ok_0@ == decode_utf8(bytes@),
{
    Ok(reader.decoder().decode(bytes)?)
}

/// The text of a `Cow<str>`.
pub fn cow_as_str<'b>(c: &'b Cow<'_, str>) -> (s: &'b str)
    ensures
        s@ == c@,
{
    match c {
        Cow::Borrowed(b) => b,
        Cow::Owned(o) => o.as_str(),
    }
}

/// `e` is the error for the malformed character reference `&name;`.
pub open spec fn is_invalid_char_ref(e: XmlToJsonError, name: Seq<char>) -> bool {
    match e {
        XmlToJsonError::InvalidCharRef(n) => n@ == name,
        _ => false,
    }
}

/// `o` with `r` appended to it when `r` is `Ok`; the error otherwise.
pub open spec fn prepend(o: Seq<char>, r: Result<Seq<char>, Seq<char>>) -> Result<
    Seq<char>,
    Seq<char>,
> {
    match r {
        Ok(v) => Ok(o + v),
        Err(e) => Err(e),
    }
}

/// Resolve XML references in `raw` without failing on entities we cannot know about.
///
/// Predefined entities (`&amp;` etc.) and character references (`&#65;`, `&#x41;`) are
/// resolved. Named entities we cannot resolve (e.g. DTD-defined ones like `&uuml;`) and
/// ampersands that do not form a reference pass through verbatim rather than erroring or
/// being dropped. Malformed character references error, since no DTD can make them valid.
pub fn unescape_lenient(raw: &str) -> (r: Result<Cow<'_, str>, XmlToJsonError>)
    ensures
        match unescape_spec(raw@) {
            Ok(v) => r is Ok && r->Ok_0@ == v,
            Err(name) => r is Err && is_invalid_char_ref(r->Err_0, name),
        },
        !raw@.contains('&') ==> (r matches Ok(Cow::Borrowed(b)) && b@ == raw@),
{
    if !contains_ampersand(raw) {
        proof {
            lemma_find_char(raw@, '&');
            if find_char(raw@, '&') < raw@.len() {
                assert(raw@[find_char(raw@, '&')] == '&');
            }
        }
        return Ok(Cow::Borrowed(raw));
    }
    let chars = chars_of(raw);
    let n = chars.len();
    let mut out = String::new();
    let i = find_from(&chars, 0, n, '&');
    proof {
        assert(chars@.subrange(0, n as int) == raw@);
        lemma_find_char_at(raw@, '&', i as int);
        if i == n {
            let w = choose|w: int| 0 <= w < raw@.len() && raw@[w] == '&';
            assert(chars@[w] == '&');
        }
    }
    push_range(&mut out, &chars, 0, i);
    let mut pos = i + 1;
    proof {
        assert(chars@.subrange(pos as int, n as int) == raw@.skip(i + 1));
        assert(chars@.subrange(0, i as int) == raw@.take(i as int));
    }
    loop
        invariant
            chars@ == raw@,
            raw@.contains('&'),
            n == chars@.len(),
            0 < pos <= n,
            prepend(out@, unescape_parts(chars@.subrange(pos as int, n as int))) == unescape_spec(
                raw@,
            ),
        decreases n - pos,
    {
        let ghost rest = chars@.subrange(pos as int, n as int);
        let j = find_from(&chars, pos, n, '&');
        let k = find_from(&chars, pos, j, ';');
        let ghost part = rest.take(j - pos);
        proof {
            lemma_find_char_at(rest, '&', j - pos);
            assert(part == chars@.subrange(pos as int, j as int));
            lemma_find_char_at(part, ';', k - pos);
        }
        let ghost before = out@;
        let ghost piece: Seq<char>;
        if k < j {
            let name = string_of_range(&chars, pos, k);
            proof {
                assert(name@ == part.take(k - pos));
            }
            match push_resolved_ref(name.as_str(), &mut out) {
                Ok(()) => {},
                Err(e) => return Err(e),
            }
            let ghost resolved = out@.subrange(before.len() as int, out@.len() as int);
            proof {
                assert(resolve_ref_spec(name@) is Ok);
                let v = resolve_ref_spec(name@)->Ok_0;
                assert(out@ == before + v);
                assert(resolved =~= v);
                assert(out@ == before + resolved);
            }
            push_range(&mut out, &chars, k + 1, j);
            proof {
                assert(part.skip(k - pos + 1) == chars@.subrange(k + 1, j as int));
                piece = resolved + part.skip(k - pos + 1);
                assert(out@ == before + piece);
            }
        } else {
            string_push(&mut out, '&');
            push_range(&mut out, &chars, pos, j);
            proof {
                piece = seq!['&'] + part;
                assert(out@ == before + piece);
            }
        }
        proof {
            assert(resolve_part(part) == Ok::<Seq<char>, Seq<char>>(piece));
        }
        if j == n {
            return Ok(Cow::Owned(out));
        }
        proof {
            assert(rest.skip(j - pos + 1) == chars@.subrange(j + 1, n as int));
            let tail = unescape_parts(chars@.subrange(j + 1, n as int));
            assert(prepend(before, prepend(piece, tail)) == prepend(out@, tail)) by {
                match tail {
                    Ok(v) => {
                        assert(before + (piece + v) == out@ + v);
                    },
                    Err(_) => {},
                }
            }
        }
        pos = j + 1;
    }
}

/// Push what the reference `&name;` stands for onto `out`.
fn push_resolved_ref(name: &str, out: &mut String) -> (r: Result<(), XmlToJsonError>)
    ensures
        match resolve_ref_spec(name@) {
            Ok(v) => r is Ok && final(out)@ == old(out)@ + v,
            Err(n) => r is Err && is_invalid_char_ref(r->Err_0, n) && final(out)@ == old(out)@,
        },
{
    if let Some(digits) = strip_prefix_char(name, '#') {
        let ch = match parse_char_ref(digits) {
            Some(ch) => ch,
            None => return Err(XmlToJsonError::InvalidCharRef(name.to_owned())),
        };
        string_push(out, ch);
        proof {
            assert(out@ == old(out)@ + seq![ch]);
        }
    } else if let Some(resolved) = resolve_predefined_entity(name) {
        out.append(resolved);
    } else {
        string_push(out, '&');
        out.append(name);
        string_push(out, ';');
        proof {
            assert(out@ == old(out)@ + (seq!['&'] + name@ + seq![';']));
        }
    }
    Ok(())
}

/// The character that the digits of a character reference denote.
fn parse_char_ref(digits: &str) -> (r: Option<char>)
    ensures
        r == char_ref_spec(digits@),
{
    let code = if let Some(hex) = strip_prefix_char(digits, 'x') {
        match parse_u32(hex, 16) {
            Some(code) => code,
            None => return None,
        }
    } else {
        match parse_u32(digits, 10) {
            Some(code) => code,
            None => return None,
        }
    };

    if code == 0 {
        return None;
    }

    char_from_u32(code)
}

// `u32` parsing accepts a leading `+`, which the XML grammar does not; reject signs
// outright so character references behave identically in attributes and text (where
// quick-xml's parser does the same).
fn parse_u32(src: &str, radix: u32) -> (r: Option<u32>)
    requires
        2 <= radix <= 36,
    ensures
        r == unsigned_spec(src@, radix),
{
    let bytes = src.as_bytes();
    proof {
        lemma_first_byte(src@);
        if src@.len() > 0 {
            let v = src@[0] as u32;
            let b = bytes@[0];
            assert(v < 0x80 ==> (v as u8 == 0x2b <==> v == 0x2b) && (v as u8 == 0x2d <==> v
                == 0x2d)) by (bit_vector);
        }
    }
    if bytes.len() > 0 && (bytes[0] == 0x2b || bytes[0] == 0x2d) {
        proof {
            assert(bytes@ == vstd::utf8::encode_utf8(src@));
            assert(src@.len() > 0);
            assert((src@[0] as u32) < 0x80);
            assert((src@[0] as u32) == 0x2b || (src@[0] as u32) == 0x2d);
            if (src@[0] as u32) == 0x2b {
                lemma_char_eq(src@[0], '+');
            } else {
                lemma_char_eq(src@[0], '-');
            }
        }
        return None;
    }
    u32_from_str_radix(src, radix)
}

/// Whether `raw` holds an `&`.
fn contains_ampersand(raw: &str) -> (r: bool)
    ensures
        r == raw@.contains('&'),
{
    for c in it: raw.chars()
        invariant
            it.seq() == raw@,
            forall|i: int| 0 <= i < it.index() ==> raw@[i] != '&',
    {
        if c == '&' {
            return true;
        }
    }
    false
}

/// The characters of `raw`.
fn chars_of(raw: &str) -> (v: Vec<char>)
    ensures
        v@ == raw@,
{
    let mut v: Vec<char> = Vec::new();
    for c in it: raw.chars()
        invariant
            it.seq() == raw@,
            v@ == raw@.take(it.index() as int),
    {
        v.push(c);
    }
    v
}

/// The first position in `start..end` that holds `c`, or `end`.
fn find_from(chars: &Vec<char>, start: usize, end: usize, c: char) -> (r: usize)
    requires
        start <= end <= chars@.len(),
    ensures
        start <= r <= end,
        forall|i: int| start <= i < r ==> chars@[i] != c,
        r < end ==> chars@[r as int] == c,
{
    let mut i = start;
    while i < end
        invariant
            start <= i <= end <= chars@.len(),
            forall|k: int| start <= k < i ==> chars@[k] != c,
        decreases end - i,
    {
        if chars[i] == c {
            return i;
        }
        i = i + 1;
    }
    i
}

/// Append the characters at `a..b` to `out`.
fn push_range(out: &mut String, chars: &Vec<char>, a: usize, b: usize)
    requires
        a <= b <= chars@.len(),
    ensures
        final(out)@ == old(out)@ + chars@.subrange(a as int, b as int),
{
    let mut i = a;
    while i < b
        invariant
            a <= i <= b <= chars@.len(),
            out@ == old(out)@ + chars@.subrange(a as int, i as int),
        decreases b - i,
    {
        string_push(out, chars[i]);
        proof {
            assert(chars@.subrange(a as int, i + 1) == chars@.subrange(a as int, i as int).push(
                chars@[i as int],
            ));
        }
        i = i + 1;
    }
}

/// The characters at `a..b`, as a `String`.
fn string_of_range(chars: &Vec<char>, a: usize, b: usize) -> (s: String)
    requires
        a <= b <= chars@.len(),
    ensures
        s@ == chars@.subrange(a as int, b as int),
{
    let mut s = String::new();
    push_range(&mut s, chars, a, b);
    proof {
        assert(s@ =~= chars@.subrange(a as int, b as int));
    }
    s
}

} // verus!
