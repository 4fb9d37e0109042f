//! Writing a tag's attributes as the fields of its object.

use super::buffers::{write_json_string, write_json_string_with_prefix_unchecked};
use crate::bindings::string_push;
use crate::decoders::{cow_as_str, decode_bytes, unescape_lenient};
use crate::errors::{kind_of, XmlToJsonError};
use crate::events::{attrs_view, lower_attr, lower_attrs, RawAttr};
use crate::json::{attr_field, attrs_text, sep};
use quick_xml::Reader;
use vstd::prelude::*;

verus! {

/// An object being written that tracks whether its next field is its first.
pub trait AttributesWriter: Sized {
    /// Whether the next field is the object's first.
    spec fn spec_first_field(&self) -> bool;

    /// The state after one more field has been written.
    spec fn spec_after_field(&self) -> Self;

    /// After a field the next one is not the first, and a second field
    /// changes nothing more.
    proof fn lemma_after_field(&self)
        ensures
            !self.spec_after_field().spec_first_field(),
            self.spec_after_field().spec_after_field() == self.spec_after_field(),
    ;

    fn first_field(&self) -> (r: bool)
        ensures
            r == self.spec_first_field(),
    ;

    fn process_first_field(&mut self)
        ensures
            *final(self) == old(self).spec_after_field(),
    ;

    /// Write the attributes as `"@key":"value"` fields, each value with its
    /// references resolved and escaped for JSON; stop at the first attribute
    /// whose key or value is not UTF-8 or whose value holds a malformed
    /// character reference.
    fn process_element_attributes<R>(
        &mut self,
        attrs: &Vec<RawAttr>,
        xml: &Reader<R>,
        writer: &mut String,
    ) -> (r: Result<(), XmlToJsonError>)
        ensures
            match lower_attrs(attrs_view(attrs@)) {
                Ok(pairs) => {
                    &&& r is Ok
                    &&& final(writer)@ == old(writer)@ + attrs_text(
                        old(self).spec_first_field(),
                        pairs,
                    )
                    &&& *final(self) == if pairs.len() == 0 {
                        *old(self)
                    } else {
                        old(self).spec_after_field()
                    }
                },
                Err(k) => {
                    &&& r is Err
                    &&& kind_of(r->Err_0) == k
                    &&& exists|j: int|
                        #![trigger lower_attr(attrs_view(attrs@)[j])]
                        {
                            &&& 0 <= j < attrs@.len()
                            &&& lower_attrs(attrs_view(attrs@).take(j)) is Ok
                            &&& lower_attr(attrs_view(attrs@)[j]) is Err
                            &&& final(writer)@ == old(writer)@ + attrs_text(
                                old(self).spec_first_field(),
                                lower_attrs(attrs_view(attrs@).take(j))->Ok_0,
                            )
                            &&& *final(self) == if j == 0 {
                                *old(self)
                            } else {
                                old(self).spec_after_field()
                            }
                        }
                },
            },
    {
        let ghost view = attrs_view(attrs@);
        let ghost first = self.spec_first_field();
        let ghost start = *self;
        let mut i: usize = 0;
        while i < attrs.len()
            invariant
                view == attrs_view(attrs@),
                0 <= i <= attrs@.len(),
                lower_attrs(view.take(i as int)) is Ok,
                writer@ == old(writer)@ + attrs_text(
                    first,
                    lower_attrs(view.take(i as int))->Ok_0,
                ),
                first == old(self).spec_first_field(),
                start == *old(self),
                *self == if i == 0 {
                    start
                } else {
                    start.spec_after_field()
                },
                lower_attrs(view.take(i as int))->Ok_0.len() == i,
            decreases attrs@.len() - i,
        {
            let ghost pairs = lower_attrs(view.take(i as int))->Ok_0;
            let attr = &attrs[i];
            proof {
                assert(view.take(i + 1).drop_last() == view.take(i as int));
                assert(view.take(i + 1).last() == attr@);
            }
            let key = match decode_bytes(xml, attr.key.as_slice()) {
                Ok(key) => key,
                Err(e) => {
                    proof {
                        lemma_lower_attrs_fails(view, i as int);
                        assert(lower_attr(view[i as int]) is Err);
                    }
                    return Err(XmlToJsonError::QuickXml(e));
                },
            };
            let raw_value = match decode_bytes(xml, attr.value.as_slice()) {
                Ok(v) => v,
                Err(e) => {
                    proof {
                        lemma_lower_attrs_fails(view, i as int);
                        assert(lower_attr(view[i as int]) is Err);
                    }
                    return Err(XmlToJsonError::QuickXml(e));
                },
            };
            let value = match unescape_lenient(cow_as_str(&raw_value)) {
                Ok(v) => v,
                Err(e) => {
                    proof {
                        lemma_lower_attrs_fails(view, i as int);
                        assert(lower_attr(view[i as int]) is Err);
                    }
                    return Err(e);
                },
            };
            let ghost pair = lower_attr(attr@)->Ok_0;
            proof {
                assert(pair == (key@, value@));
            }
            let ghost before = writer@;
            if !self.first_field() {
                string_push(writer, ',');
            }
            proof {
                reveal_strlit("@");
                if i > 0 {
                    start.lemma_after_field();
                }
                assert(writer@ == before + sep(first && i == 0));
            }
            write_json_string_with_prefix_unchecked("@", cow_as_str(&key), writer);
            string_push(writer, ':');
            let written = write_json_string(cow_as_str(&value), writer);
            proof {
                assert(written is Ok);
                assert(writer@ == before + sep(first && i == 0) + attr_field(pair));
                let next = pairs.push(pair);
                assert(lower_attrs(view.take(i + 1)) == Ok::<_, crate::errors::ErrorKind>(next));
                assert(next.drop_last() == pairs);
                assert(attrs_text(first, next) == attrs_text(first, pairs) + sep(first && i == 0)
                    + attr_field(pair));
                start.lemma_after_field();
            }
            self.process_first_field();
            i = i + 1;
        }
        proof {
            assert(view.take(i as int) == view);
        }
        Ok(())
    }
}

/// When an attribute fails to lower after the first `i` succeeded, the whole
/// list fails the same way.
proof fn lemma_lower_attrs_fails(view: Seq<crate::events::AttrV>, i: int)
    requires
        0 <= i < view.len(),
        lower_attrs(view.take(i)) is Ok,
        lower_attr(view[i]) is Err,
    ensures
        lower_attrs(view) == Err::<Seq<(Seq<char>, Seq<char>)>, _>(lower_attr(view[i])->Err_0),
    decreases view.len() - i,
{
    assert(view.take(i + 1).drop_last() == view.take(i));
    assert(view.take(i + 1).last() == view[i]);
    lemma_lower_attrs_prefix_err(view, i + 1);
}

/// A failure of a prefix of the attributes is the failure of the whole list.
proof fn lemma_lower_attrs_prefix_err(view: Seq<crate::events::AttrV>, n: int)
    requires
        0 <= n <= view.len(),
        lower_attrs(view.take(n)) is Err,
    ensures
        lower_attrs(view) == lower_attrs(view.take(n)),
    decreases view.len() - n,
{
    if n == view.len() {
        assert(view.take(n) == view);
    } else {
        assert(view.take(n + 1).drop_last() == view.take(n));
        lemma_lower_attrs_prefix_err(view, n + 1);
    }
}

} // verus!
