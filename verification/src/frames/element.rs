//! The frame of an element whose start tag has been read and whose end tag
//! has not.

use super::buffers::{self, write_json_string, write_json_string_unchecked, write_tag_open};
use crate::bindings::{string_clear, string_push, trim_xml_whitespace};
use crate::decoders::{cow_as_str, decode_bytes};
use crate::errors::XmlToJsonError;
use crate::json::{json_string, quoted, sep, tag_open};
use crate::text::trim_ws;
use crate::{CHILDREN_KEY, TEXT_NODE_KEY};
use quick_xml::Reader;
use vstd::prelude::*;
use vstd::utf8::{decode_utf8, valid_utf8};

verus! {

pub struct Element {
    // Are we operating on the first field of this element?
    //
    // This determines whether we need to insert a comma before the next field
    first_field: bool,
    // Is the array of children currently open?
    //
    // This is set to true once we begin processing children and is set to false when closing out
    // this element entirely.
    children_open: bool,
    // Are we operating on the first child element?
    //
    // Similar to `first_field`, we need to track state around whether we're writing the first
    // child or not. If we aren't on the first child, we need to insert a comma before the next
    // child gets written.
    first_child: bool,
    // Accumulate the element's character data until it closes
    text_buf: String,
}

/// The state of an element's frame.
pub struct ElementView {
    /// The next field is the object's first.
    pub first_field: bool,
    /// The `"#c"` array is open.
    pub children_open: bool,
    /// The next child is the array's first.
    pub first_child: bool,
    /// The character data read so far.
    pub text: Seq<char>,
}

impl View for Element {
    type V = ElementView;

    closed spec fn view(&self) -> ElementView {
        ElementView {
            first_field: self.first_field,
            children_open: self.children_open,
            first_child: self.first_child,
            text: self.text_buf@,
        }
    }
}

/// The key of the text field: `#t`.
pub open spec fn text_key() -> Seq<char> {
    seq!['#', 't']
}

/// The key of the children array: `#c`.
pub open spec fn children_key() -> Seq<char> {
    seq!['#', 'c']
}

/// What closing a frame with text `text` writes for the text: nothing when
/// the trimmed text is empty, else the field `"#t":"..."`.
pub open spec fn text_field(first_field: bool, text: Seq<char>) -> Seq<char> {
    if trim_ws(text).len() == 0 {
        seq![]
    } else {
        sep(first_field) + quoted(text_key()) + seq![':'] + json_string(trim_ws(text))
    }
}

/// What opening the children array writes.
pub open spec fn children_open_text(first_field: bool) -> Seq<char> {
    sep(first_field) + quoted(children_key()) + seq![':', '[']
}

/// What one call of `begin_child` writes, and the frame after it: the
/// opening of the children array the first time, a comma before each later
/// child.
pub open spec fn begin_child_step(v: ElementView) -> (Seq<char>, ElementView) {
    (
        if v.children_open {
            sep(v.first_child)
        } else {
            children_open_text(v.first_field)
        },
        ElementView {
            first_field: v.children_open && v.first_field,
            children_open: true,
            first_child: false,
            ..v
        },
    )
}

/// What `n` calls of `begin_child` write, one after another, and the frame
/// after them.
pub open spec fn begin_children(v: ElementView, n: nat) -> (Seq<char>, ElementView)
    decreases n,
{
    if n == 0 {
        (seq![], v)
    } else {
        let before = begin_children(v, (n - 1) as nat);
        let next = begin_child_step(before.1);
        (before.0 + next.0, next.1)
    }
}

/// Beginning `n` children of a frame whose array is not open writes the
/// opening of the array once and then one comma before each later child;
/// the array stays open and the text is untouched.
pub proof fn law_begin_children(v: ElementView, n: nat)
    requires
        !v.children_open,
        n >= 1,
    ensures
        begin_children(v, n).0 == children_open_text(v.first_field) + Seq::new(
            (n - 1) as nat,
            |i: int| ',',
        ),
        begin_children(v, n).1 == (ElementView {
            first_field: false,
            children_open: true,
            first_child: false,
            ..v
        }),
    decreases n,
{
    if n == 1 {
        assert(begin_children(v, 0).0 == Seq::<char>::empty());
        assert(Seq::<char>::empty() + children_open_text(v.first_field) =~= children_open_text(
            v.first_field,
        ) + Seq::new(0, |i: int| ','));
    } else {
        law_begin_children(v, (n - 1) as nat);
        let prev = Seq::new((n - 2) as nat, |i: int| ',');
        assert(children_open_text(v.first_field) + prev + seq![','] =~= children_open_text(
            v.first_field,
        ) + Seq::new((n - 1) as nat, |i: int| ','));
    }
}

impl super::AttributesWriter for Element {
    closed spec fn spec_first_field(&self) -> bool {
        self.first_field
    }

    closed spec fn spec_after_field(&self) -> Self {
        Element {
            first_field: false,
            children_open: self.children_open,
            first_child: self.first_child,
            text_buf: self.text_buf,
        }
    }

    proof fn lemma_after_field(&self) {
    }

    fn first_field(&self) -> (r: bool) {
        self.first_field
    }

    fn process_first_field(&mut self) {
        self.first_field = false;
    }
}

impl Element {
    /// How the trait's view of a frame relates to the frame's state.
    pub proof fn lemma_fields(&self)
        ensures
            super::AttributesWriter::spec_first_field(self) == self@.first_field,
            super::AttributesWriter::spec_after_field(self)@ == (ElementView {
                first_field: false,
                ..self@
            }),
    {
    }

    /// Create the element and immediately write the opening `{"name":{` from the tag's name.
    pub(crate) fn new_and_open<R>(
        name: &[u8],
        xml: &Reader<R>,
        w: &mut String,
        text_buf: String,
    ) -> (r: Result<Self, XmlToJsonError>)
        requires
            text_buf@.len() == 0,
        ensures
            r is Ok <==> valid_utf8(name@),
            r is Ok ==> r->Ok_0@ == (ElementView {
                first_field: true,
                children_open: false,
                first_child: true,
                text: seq![],
            }) && final(w)@ == old(w)@ + tag_open(decode_utf8(name@)),
            r is Err ==> r->Err_0 is QuickXml && final(w)@ == old(w)@,
    {
        let tag = match decode_bytes(xml, name) {
            Ok(tag) => tag,
            Err(e) => return Err(XmlToJsonError::QuickXml(e)),
        };
        write_tag_open(cow_as_str(&tag), w);
        proof {
            assert(text_buf@ =~= seq![]);
        }
        Ok(Self { first_field: true, children_open: false, first_child: true, text_buf })
    }

    /// Reclaim the text buffer (cleared but retaining capacity) for reuse.
    pub(crate) fn take_text_buf(&mut self) -> (s: String)
        ensures
            s@ == old(self)@.text,
            final(self)@ == (ElementView { text: seq![], ..old(self)@ }),
    {
        let mut taken = String::new();
        std::mem::swap(&mut taken, &mut self.text_buf);
        taken
    }

    /// Whether some character data has been buffered.
    pub(crate) fn has_text(&self) -> (r: bool)
        ensures
            r == (self@.text.len() > 0),
    {
        !self.text_buf.as_str().is_empty()
    }

    /// Buffer text until the element closes.
    pub(crate) fn push_text(&mut self, s: &str)
        ensures
            final(self)@ == (ElementView { text: old(self)@.text + s@, ..old(self)@ }),
    {
        if s.is_empty() {
            proof {
                assert(old(self)@.text + s@ == old(self)@.text);
            }
            return;
        }
        self.text_buf.append(s);
    }

    /// Buffer one character until the element closes.
    pub(crate) fn push_char(&mut self, c: char)
        ensures
            final(self)@ == (ElementView { text: old(self)@.text.push(c), ..old(self)@ }),
    {
        string_push(&mut self.text_buf, c);
    }

    /// Buffer a reference that cannot be resolved, `&name;`, as written.
    pub(crate) fn push_unresolved_ref(&mut self, name: &str)
        ensures
            final(self)@ == (ElementView {
                text: old(self)@.text + (seq!['&'] + name@ + seq![';']),
                ..old(self)@
            }),
    {
        string_push(&mut self.text_buf, '&');
        self.text_buf.append(name);
        string_push(&mut self.text_buf, ';');
        proof {
            assert(self.text_buf@ =~= old(self)@.text + (seq!['&'] + name@ + seq![';']));
        }
    }

    /// Flush buffered text, trimmed of leading and trailing whitespace, as "#t":"..."
    fn flush_text(&mut self, w: &mut String) -> (r: Result<(), buffers::BufferError>)
        ensures
            r is Ok,
            final(w)@ == old(w)@ + text_field(old(self)@.first_field, old(self)@.text),
            final(self)@ == (ElementView {
                first_field: old(self)@.first_field && trim_ws(old(self)@.text).len() == 0,
                text: seq![],
                ..old(self)@
            }),
    {
        let text = trim_xml_whitespace(self.text_buf.as_str());
        if !text.is_empty() {
            if !self.first_field {
                string_push(w, ',');
            }
            write_json_string_unchecked(TEXT_NODE_KEY, w);
            string_push(w, ':');
            let written = write_json_string(text, w);
            proof {
                reveal_strlit("#t");
                assert(written is Ok);
                assert(w@ == old(w)@ + text_field(old(self)@.first_field, old(self)@.text));
            }
            self.first_field = false;
        }
        string_clear(&mut self.text_buf);
        Ok(())
    }

    /// Ensure "#c":[ is opened
    fn ensure_children_open(&mut self, w: &mut String) -> (r: Result<(), buffers::BufferError>)
        ensures
            r is Ok,
            old(self)@.children_open ==> final(w)@ == old(w)@ && final(self)@ == old(self)@,
            !old(self)@.children_open ==> final(w)@ == old(w)@ + children_open_text(
                old(self)@.first_field,
            ) && final(self)@ == (ElementView {
                first_field: false,
                children_open: true,
                first_child: true,
                ..old(self)@
            }),
    {
        if !self.children_open {
            if !self.first_field {
                string_push(w, ',');
            }
            write_json_string_unchecked(CHILDREN_KEY, w);
            string_push(w, ':');
            string_push(w, '[');
            proof {
                reveal_strlit("#c");
                assert(w@ == old(w)@ + children_open_text(old(self)@.first_field));
            }
            self.children_open = true;
            self.first_field = false;
            self.first_child = true;
        }
        Ok(())
    }

    /// Begin a child entry inside #c: write comma if needed
    pub(crate) fn begin_child(&mut self, w: &mut String) -> (r: Result<(), buffers::BufferError>)
        ensures
            r is Ok,
            final(w)@ == old(w)@ + begin_child_step(old(self)@).0,
            final(self)@ == begin_child_step(old(self)@).1,
            old(self)@.children_open ==> final(w)@ == old(w)@ + sep(old(self)@.first_child),
            !old(self)@.children_open ==> final(w)@ == old(w)@ + children_open_text(
                old(self)@.first_field,
            ),
            final(self)@ == (ElementView {
                first_field: old(self)@.children_open && old(self)@.first_field,
                children_open: true,
                first_child: false,
                ..old(self)@
            }),
    {
        let opened = self.ensure_children_open(w);
        proof {
            assert(opened is Ok);
        }
        if !self.first_child {
            string_push(w, ',');
        }
        self.first_child = false;
        proof {
            assert(final(w)@ =~= old(w)@ + (if old(self)@.children_open {
                sep(old(self)@.first_child)
            } else {
                children_open_text(old(self)@.first_field)
            }));
        }
        Ok(())
    }

    /// Close current element; if #c was opened, close it as well; then write
    /// the element's text, if any, as its last field.
    pub(crate) fn close(&mut self, w: &mut String) -> (r: Result<(), buffers::BufferError>)
        ensures
            r is Ok,
            final(w)@ == old(w)@ + (if old(self)@.children_open {
                seq![']']
            } else {
                seq![]
            }) + text_field(old(self)@.first_field, old(self)@.text) + seq!['}', '}'],
            final(self)@ == (ElementView {
                first_field: old(self)@.first_field && trim_ws(old(self)@.text).len() == 0,
                children_open: false,
                text: seq![],
                ..old(self)@
            }),
    {
        if self.children_open {
            string_push(w, ']');  // close #c
            self.children_open = false;
        }
        let flushed = self.flush_text(w);
        proof {
            assert(flushed is Ok);
        }
        string_push(w, '}');
        string_push(w, '}');
        proof {
            assert(final(w)@ =~= old(w)@ + (if old(self)@.children_open {
                seq![']']
            } else {
                seq![]
            }) + text_field(old(self)@.first_field, old(self)@.text) + seq!['}', '}']);
        }
        Ok(())
    }
}

} // verus!
