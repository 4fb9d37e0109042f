//! The events of an XML document, as the plain values the converter reads,
//! and what the converter makes of a tag's name and attributes.

use crate::errors::ErrorKind;
use crate::text::unescape_spec;
use vstd::prelude::*;
use vstd::utf8::{decode_utf8, valid_utf8};

verus! {

/// An attribute as written in a tag: its raw key and raw value bytes.
pub struct RawAttr {
    /// The bytes of the key.
    pub key: Vec<u8>,
    /// The bytes of the value, references not yet resolved.
    pub value: Vec<u8>,
}

/// A start or empty tag: its raw name, the attributes quick-xml parsed, and
/// the error that stopped attribute parsing, if one did.
pub struct RawTag {
    /// The bytes of the tag's name.
    pub name: Vec<u8>,
    /// The attributes, in document order, before the first malformed one.
    pub attrs: Vec<RawAttr>,
    /// Why attribute parsing stopped early, if it did.
    pub attr_error: Option<quick_xml::events::attributes::AttrError>,
}

/// One event of an XML document, as the converter reads it.
pub enum RawEvent {
    /// `<name ...>`.
    Start(RawTag),
    /// `<name .../>`.
    Empty(RawTag),
    /// Character data between markup, its raw bytes.
    Text(Vec<u8>),
    /// A reference `&name;` in character data: the bytes of `name`.
    GeneralRef(Vec<u8>),
    /// `</name>`.
    End,
    /// The end of the input.
    Eof,
    /// Anything else: comments, CDATA, processing instructions, declarations.
    Other,
}

/// The bytes of an attribute.
pub struct AttrV {
    pub key: Seq<u8>,
    pub value: Seq<u8>,
}

/// The plain content of a tag.
pub struct TagV {
    pub name: Seq<u8>,
    pub attrs: Seq<AttrV>,
    pub attr_error: bool,
}

/// The plain content of an event.
pub enum EventV {
    Start(TagV),
    Empty(TagV),
    Text(Seq<u8>),
    GeneralRef(Seq<u8>),
    End,
    Eof,
    Other,
}

impl View for RawAttr {
    type V = AttrV;

    open spec fn view(&self) -> AttrV {
        AttrV { key: self.key@, value: self.value@ }
    }
}

/// The plain contents of a list of attributes.
pub open spec fn attrs_view(attrs: Seq<RawAttr>) -> Seq<AttrV> {
    attrs.map_values(|a: RawAttr| a@)
}

impl View for RawTag {
    type V = TagV;

    open spec fn view(&self) -> TagV {
        TagV { name: self.name@, attrs: attrs_view(self.attrs@), attr_error: self.attr_error is Some }
    }
}

impl View for RawEvent {
    type V = EventV;

    open spec fn view(&self) -> EventV {
        match self {
            RawEvent::Start(t) => EventV::Start(t@),
            RawEvent::Empty(t) => EventV::Empty(t@),
            RawEvent::Text(b) => EventV::Text(b@),
            RawEvent::GeneralRef(b) => EventV::GeneralRef(b@),
            RawEvent::End => EventV::End,
            RawEvent::Eof => EventV::Eof,
            RawEvent::Other => EventV::Other,
        }
    }
}

/// Bytes decoded as UTF-8 text, or a quick-xml error when they are not UTF-8.
pub open spec fn decode_spec(bytes: Seq<u8>) -> Result<Seq<char>, ErrorKind> {
    if valid_utf8(bytes) {
        Ok(decode_utf8(bytes))
    } else {
        Err(ErrorKind::QuickXml)
    }
}

/// An attribute's key and its value with references resolved.
pub open spec fn lower_attr(a: AttrV) -> Result<(Seq<char>, Seq<char>), ErrorKind> {
    match decode_spec(a.key) {
        Err(e) => Err(e),
        Ok(key) => match decode_spec(a.value) {
            Err(e) => Err(e),
            Ok(raw) => match unescape_spec(raw) {
                Err(name) => Err(ErrorKind::InvalidCharRef(name)),
                Ok(value) => Ok((key, value)),
            },
        },
    }
}

/// The attributes lowered in document order; the first failure wins.
pub open spec fn lower_attrs(attrs: Seq<AttrV>) -> Result<Seq<(Seq<char>, Seq<char>)>, ErrorKind>
    decreases attrs.len(),
{
    if attrs.len() == 0 {
        Ok(seq![])
    } else {
        match lower_attrs(attrs.drop_last()) {
            Err(e) => Err(e),
            Ok(pairs) => match lower_attr(attrs.last()) {
                Err(e) => Err(e),
                Ok(p) => Ok(pairs.push(p)),
            },
        }
    }
}

/// A tag's name and attributes: the name decoded first, then the attributes
/// in order, then the error that stopped attribute parsing.
pub open spec fn lower_tag(t: TagV) -> Result<(Seq<char>, Seq<(Seq<char>, Seq<char>)>), ErrorKind> {
    match decode_spec(t.name) {
        Err(e) => Err(e),
        Ok(name) => match lower_attrs(t.attrs) {
            Err(e) => Err(e),
            Ok(pairs) => if t.attr_error {
                Err(ErrorKind::Attribute)
            } else {
                Ok((name, pairs))
            },
        },
    }
}

/// Lowering attributes fails only on their bytes or their references, never
/// with an attribute parsing error.
pub proof fn lemma_lower_attrs_error_kind(attrs: Seq<AttrV>)
    ensures
        lower_attrs(attrs) is Err ==> !(lower_attrs(attrs)->Err_0 is Attribute),
    decreases attrs.len(),
{
    if attrs.len() > 0 {
        lemma_lower_attrs_error_kind(attrs.drop_last());
    }
}

} // verus!
