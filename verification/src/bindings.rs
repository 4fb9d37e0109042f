//! Declarations of the outside types the library carries, and the trusted
//! wrappers through which it calls `quick-xml`, `serde_json` and `std`.

use crate::events::{EventV, RawAttr, RawEvent, RawTag};
use crate::json::json_string;
use quick_xml::events::{BytesStart, Event};
use quick_xml::Reader;
use crate::text::{char_ref_spec, from_str_radix_spec, predefined_entity, trim_ws};
use vstd::utf8::is_scalar;
use vstd::prelude::*;

verus! {

#[verifier::external_type_specification]
#[verifier::external_body]
pub struct ExQuickXmlError(quick_xml::Error);

#[verifier::external_type_specification]
#[verifier::external_body]
pub struct ExAttrError(quick_xml::events::attributes::AttrError);

#[verifier::external_type_specification]
#[verifier::external_body]
pub struct ExSerdeJsonError(serde_json::Error);

#[verifier::external_type_specification]
#[verifier::external_body]
pub struct ExIoError(std::io::Error);

#[verifier::external_type_specification]
#[verifier::external_body]
#[verifier::reject_recursive_types(R)]
pub struct ExReader<R>(quick_xml::Reader<R>);

#[verifier::external_type_specification]
#[verifier::external_body]
pub struct ExEvent<'a>(quick_xml::events::Event<'a>);

#[verifier::external_type_specification]
#[verifier::external_body]
pub struct ExBytesStart<'a>(quick_xml::events::BytesStart<'a>);

/// Appends one character to a `String` (`String::push`).
#[verifier::external_body]
pub fn string_push(s: &mut String, c: char)
    ensures
        final(s)@ == old(s)@.push(c),
{
    s.push(c);
}

/// `serde_json::to_string` on a string slice. serde_json writes the string
/// as a JSON string literal: a quote, each character as itself except `"`,
/// `\` and those below U+0020, which take the escapes of its `ESCAPE` table
/// (`\b \t \n \f \r`, else `\u00` and two lowercase hex digits), and a
/// closing quote. The writer is an in-memory buffer, so serialising a string
/// slice cannot fail.
#[verifier::external_body]
pub(crate) fn serde_json_string(s: &str) -> (r: Result<String, serde_json::Error>)
    ensures
        r is Ok,
        r->Ok_0@ == json_string(s@),
{
    serde_json::to_string(s)
}

/// The characters of an optional string slice.
pub open spec fn opt_str_view(o: Option<&str>) -> Option<Seq<char>> {
    match o {
        Some(s) => Some(s@),
        None => None,
    }
}

/// `str::strip_prefix` with a `char` pattern: the rest of `s` after `c` when
/// `s` starts with `c`, else `None`.
#[verifier::external_body]
pub(crate) fn strip_prefix_char(s: &str, c: char) -> (r: Option<&str>)
    ensures
        opt_str_view(r) == (if s@.len() > 0 && s@[0] == c {
            Some(s@.drop_first())
        } else {
            None
        }),
{
    s.strip_prefix(c)
}

/// `u32::from_str_radix`, its error dropped: `Some` of the value that an
/// optional `+` and at least one digit in `radix` denote, when it fits in a
/// `u32`; `None` otherwise. It panics outside radix 2 to 36.
#[verifier::external_body]
pub(crate) fn u32_from_str_radix(src: &str, radix: u32) -> (r: Option<u32>)
    requires
        2 <= radix <= 36,
    ensures
        r == from_str_radix_spec(src@, radix),
{
    u32::from_str_radix(src, radix).ok()
}

/// `char::from_u32`: the character with scalar value `code`, if there is one.
#[verifier::external_body]
pub(crate) fn char_from_u32(code: u32) -> (r: Option<char>)
    ensures
        r == (if is_scalar(code) {
            Some(code as char)
        } else {
            None
        }),
{
    char::from_u32(code)
}

/// `quick_xml::escape::resolve_predefined_entity` (quick-xml built without
/// `escape-html`, so `resolve_xml_entity`): the text of `lt`, `gt`, `amp`,
/// `apos` and `quot`, `None` for any other name.
#[verifier::external_body]
pub(crate) fn resolve_predefined_entity(name: &str) -> (r: Option<&'static str>)
    ensures
        opt_str_view(r) == predefined_entity(name@),
{
    quick_xml::escape::resolve_predefined_entity(name)
}

/// Empties a `String` (`String::clear`).
#[verifier::external_body]
pub(crate) fn string_clear(s: &mut String)
    ensures
        final(s)@ == Seq::<char>::empty(),
{
    s.clear();
}

/// `str::trim_matches` with the four XML whitespace characters as the
/// pattern: `s` with every leading and every trailing space, tab, carriage
/// return and line feed removed.
#[verifier::external_body]
pub(crate) fn trim_xml_whitespace(s: &str) -> (r: &str)
    ensures
        r@ == trim_ws(s@),
{
    s.trim_matches(&[' ', '\t', '\r', '\n'][..])
}

/// A quick-xml reader over a document held in memory, with, as ghost state,
/// the document and how many events have been read from it. Only
/// `slice_reader` makes one and only `read_event` reads from it.
pub struct SliceReader<'a> {
    reader: Reader<&'a [u8]>,
    input: Ghost<Seq<u8>>,
    count: Ghost<nat>,
}

impl<'a> SliceReader<'a> {
    /// The document being read.
    pub closed spec fn input(&self) -> Seq<u8> {
        self.input@
    }

    /// How many events have been read.
    pub closed spec fn count(&self) -> nat {
        self.count@
    }

    /// The quick-xml reader, for its decoder.
    pub fn reader(&self) -> &Reader<&'a [u8]> {
        &self.reader
    }
}

/// The `k`-th event, counting from 0, that `Reader::read_event` yields on a
/// reader made by `Reader::from_reader` over the document `input` with the
/// default configuration, as the plain values `raw_event` makes of it;
/// `None` when that read fails. quick-xml parses a slice deterministically,
/// so this depends on `input` and `k` alone.
pub uninterp spec fn slice_event(input: Seq<u8>, k: nat) -> Option<EventV>;

/// What a read gives, as plain values: the event, or `None` for an error.
pub open spec fn read_view(r: Result<RawEvent, quick_xml::Error>) -> Option<EventV> {
    match r {
        Ok(e) => Some(e@),
        Err(_) => None,
    }
}

/// `Reader::from_reader` over a document held in memory, with quick-xml's
/// default configuration; no event read yet.
#[verifier::external_body]
pub(crate) fn slice_reader<'a>(input: &'a [u8]) -> (r: SliceReader<'a>)
    ensures
        r.input() == input@,
        r.count() == 0,
{
    SliceReader { reader: Reader::from_reader(input), input: Ghost(input@), count: Ghost(0) }
}

/// `Reader::read_event`: the next event of the document, as the plain values
/// `raw_event` makes of it; what the `slice_event` name says of that read.
#[verifier::external_body]
pub(crate) fn read_event<'a>(r: &mut SliceReader<'a>) -> (res: Result<RawEvent, quick_xml::Error>)
    ensures
        final(r).input() == old(r).input(),
        final(r).count() == old(r).count() + 1,
        read_view(res) == slice_event(old(r).input(), old(r).count()),
{
    match r.reader.read_event() {
        Ok(ev) => Ok(raw_event(ev)),
        Err(e) => Err(e),
    }
}

/// A tag's name (`BytesStart::name`) and the attributes that
/// `BytesStart::attributes`, with duplicate checks off, yields before its
/// first error, with that error. Nothing is stated of what they hold.
#[verifier::external_body]
fn raw_tag(e: &BytesStart<'_>) -> RawTag {
    let name = e.name().as_ref().to_vec();
    let mut attrs = Vec::new();
    for attr in e.attributes().with_checks(false) {
        match attr {
            Ok(a) => attrs.push(RawAttr { key: a.key.as_ref().to_vec(), value: a.value.into_owned() }),
            Err(err) => return RawTag { name, attrs, attr_error: Some(err) },
        }
    }
    RawTag { name, attrs, attr_error: None }
}

/// A quick-xml `Event` as the plain values the converter reads: tags through
/// `raw_tag`, the content of text and references (`into_inner`), the other
/// variants by kind. Nothing is stated of it here; `read_event`, its one
/// caller, names the read and this conversion together as `slice_event`.
#[verifier::external_body]
fn raw_event(ev: Event<'_>) -> RawEvent {
    match ev {
        Event::Start(e) => RawEvent::Start(raw_tag(&e)),
        Event::Empty(e) => RawEvent::Empty(raw_tag(&e)),
        Event::Text(t) => RawEvent::Text(t.into_inner().into_owned()),
        Event::GeneralRef(r) => RawEvent::GeneralRef(r.into_inner().into_owned()),
        Event::End(_) => RawEvent::End,
        Event::Eof => RawEvent::Eof,
        _ => RawEvent::Other,
    }
}

/// What a reference in character data resolves to as a character reference:
/// `None` when it is a malformed one, `Some(None)` when it is not one.
pub open spec fn text_char_ref(name: Seq<char>) -> Option<Option<char>> {
    if name.len() > 0 && name[0] == '#' {
        match char_ref_spec(name.drop_first()) {
            Some(c) => Some(Some(c)),
            None => None,
        }
    } else {
        Some(None)
    }
}

/// `BytesRef::resolve_char_ref` on the reference `&name;` (built with
/// `BytesRef::new`, whose content is UTF-8, so decoding it succeeds): for a
/// name that starts with `#`, quick-xml's `parse_number` on the rest (`x` then
/// hex digits, or decimal digits; no sign; not 0; a Unicode scalar), an error
/// when that fails; `Ok(None)` for any other name.
#[verifier::external_body]
pub(crate) fn resolve_char_ref(name: &str) -> (r: Result<Option<char>, quick_xml::Error>)
    ensures
        match text_char_ref(name@) {
            Some(o) => r is Ok && r->Ok_0 == o,
            None => r is Err,
        },
{
    quick_xml::events::BytesRef::new(name).resolve_char_ref()
}

} // verus!
