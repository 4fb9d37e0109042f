//! The output frames of the elements being converted.

pub mod attributes_writer;
pub mod buffers;
pub mod element;
pub mod empty_node;

pub use attributes_writer::AttributesWriter;
