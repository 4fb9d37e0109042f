//! The errors a conversion can end with.

use vstd::prelude::*;

verus! {

/// Why a conversion failed.
#[non_exhaustive]
#[derive(Debug)]
pub enum XmlToJsonError {
    /// quick-xml failed to read the document, or to decode or resolve part of it.
    QuickXml(quick_xml::Error),
    /// quick-xml failed to parse the attributes of a tag.
    QuickXmlAttribute(quick_xml::events::attributes::AttrError),
    /// Reading the input or writing the output failed.
    Io(std::io::Error),
    /// The document ended before its root element was closed.
    InvalidXML,
    /// A character reference in an attribute value is malformed; it holds the
    /// reference's name (`#xZZ` for `&#xZZ;`).
    InvalidCharRef(String),
}

/// What kind of error a conversion ends with, as contracts state it.
pub enum ErrorKind {
    /// A `QuickXml` error.
    QuickXml,
    /// A `QuickXmlAttribute` error.
    Attribute,
    /// An `Io` error.
    Io,
    /// `InvalidXML`.
    InvalidXml,
    /// `InvalidCharRef` with this name.
    InvalidCharRef(Seq<char>),
}

/// The kind of `e`.
pub open spec fn kind_of(e: XmlToJsonError) -> ErrorKind {
    match e {
        XmlToJsonError::QuickXml(_) => ErrorKind::QuickXml,
        XmlToJsonError::QuickXmlAttribute(_) => ErrorKind::Attribute,
        XmlToJsonError::Io(_) => ErrorKind::Io,
        XmlToJsonError::InvalidXML => ErrorKind::InvalidXml,
        XmlToJsonError::InvalidCharRef(name) => ErrorKind::InvalidCharRef(name@),
    }
}

} // verus!
