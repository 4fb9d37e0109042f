//! Streaming conversion of XML documents into a JSON representation.

pub mod bindings;
pub mod convert;
pub mod decoders;
pub mod errors;
pub mod events;
pub mod frames;
pub mod json;
pub mod laws;
pub mod model;
pub mod replay;
pub mod text;
pub mod utf8;

pub use convert::{xml_to_json_from_slice, Converter, Flow};
pub use decoders::{decode_bytes, unescape_lenient};
pub use errors::XmlToJsonError;

use vstd::prelude::*;

verus! {

/// The key under which an element's text is written.
pub const TEXT_NODE_KEY: &'static str = "#t";

/// The key under which an element's children are written.
pub const CHILDREN_KEY: &'static str = "#c";

} // verus!
