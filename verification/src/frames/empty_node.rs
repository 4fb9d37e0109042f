//! The frame of an element written as a single empty tag, `<name .../>`.

use super::buffers::write_tag_open;
use crate::bindings::string_push;
use crate::decoders::{cow_as_str, decode_bytes};
use crate::errors::XmlToJsonError;
use crate::json::tag_open;
use quick_xml::Reader;
use vstd::prelude::*;
use vstd::utf8::{decode_utf8, valid_utf8};

verus! {

pub struct EmptyNode {
    // Are we operating on the first field of this element?
    //
    // This determines whether we need to insert a comma before the next field
    first_field: bool,
}

impl View for EmptyNode {
    type V = bool;

    /// Whether the next field is the object's first.
    closed spec fn view(&self) -> bool {
        self.first_field
    }
}

impl super::AttributesWriter for EmptyNode {
    closed spec fn spec_first_field(&self) -> bool {
        self.first_field
    }

    closed spec fn spec_after_field(&self) -> Self {
        EmptyNode { first_field: false }
    }

    proof fn lemma_after_field(&self) {
    }

    fn first_field(&self) -> (r: bool) {
        self.first_field
    }

    fn process_first_field(&mut self) {
        self.first_field = false;
    }
}

impl EmptyNode {
    /// How the trait's view of a node relates to the node's state.
    pub proof fn lemma_fields(&self)
        ensures
            super::AttributesWriter::spec_first_field(self) == self@,
            !super::AttributesWriter::spec_after_field(self)@,
    {
    }

    /// Create the node and immediately write the opening `{"name":{` from the tag's name.
    pub(crate) fn new_and_open<R>(name: &[u8], xml: &Reader<R>, w: &mut String) -> (r: Result<
        Self,
        XmlToJsonError,
    >)
        ensures
            r is Ok <==> valid_utf8(name@),
            r is Ok ==> r->Ok_0@ && final(w)@ == old(w)@ + tag_open(decode_utf8(name@)),
            r is Err ==> r->Err_0 is QuickXml && final(w)@ == old(w)@,
    {
        let tag = match decode_bytes(xml, name) {
            Ok(tag) => tag,
            Err(e) => return Err(XmlToJsonError::QuickXml(e)),
        };
        write_tag_open(cow_as_str(&tag), w);
        Ok(Self { first_field: true })
    }

    /// Close current element
    pub(crate) fn close(&self, w: &mut String) -> (r: Result<(), std::io::Error>)
        ensures
            r is Ok,
            final(w)@ == old(w)@ + seq!['}', '}'],
    {
        string_push(w, '}');
        string_push(w, '}');
        proof {
            assert(final(w)@ =~= old(w)@ + seq!['}', '}']);
        }
        Ok(())
    }
}

} // verus!
