//! The conversion itself: a state machine that reads the events of a
//! document one at a time and writes its JSON text as it goes.

use crate::bindings::{
    read_event, resolve_char_ref, resolve_predefined_entity, slice_event, slice_reader,
};
use crate::decoders::{cow_as_str, decode_bytes};
use crate::errors::{kind_of, ErrorKind, XmlToJsonError};
use crate::events::{lemma_lower_attrs_error_kind, lower_attrs, lower_tag, EventV, RawEvent, RawTag};
use crate::frames::element::{Element, ElementView};
use crate::frames::empty_node::EmptyNode;
use crate::frames::AttributesWriter;
use crate::json::{attrs_text, tag_open};
use crate::model::{
    add_child, append_text, begin_child_text, close_text, initial_model, json_node,
    leaf, lemma_append_text, lemma_begin_child, lemma_end, lemma_start, lemma_write_child,
    outer_prefix, ref_text, render, step, Model, NodeModel,
};
use crate::text::{all_ws_bytes, is_xml_ws_byte, resolve_ref_spec, trim_ws};
use quick_xml::Reader;
use vstd::prelude::*;
use vstd::utf8::decode_utf8;

verus! {

/// Whether the conversion goes on after an event.
pub enum Flow {
    /// More events are needed.
    Continue,
    /// The root element has closed: the output is complete.
    Done,
}

/// The converter's state: the frames of the open elements, the output not yet
/// taken, and, as ghost state, the output already taken and the document
/// read so far.
pub struct Converter {
    stack: Vec<Element>,
    spare_text_buf: String,
    out: String,
    emitted: Ghost<Seq<char>>,
    model: Ghost<Model>,
}

/// The frame of an open element agrees with what the model says of it.
pub open spec fn frame_matches(e: ElementView, f: NodeModel, innermost: bool) -> bool {
    &&& e.text == f.text
    &&& e.children_open == (!innermost || f.children.len() > 0)
    &&& e.first_child == (innermost && f.children.len() == 0)
    &&& e.first_field == (f.attrs.len() == 0 && !e.children_open)
}

/// `next` and `r` are what reading `ev` in state `prev` must give: on success
/// the model that `step` gives, rendered as the output, which only grows; on
/// failure the error `step` gives.
pub open spec fn handled(
    prev: Converter,
    next: Converter,
    ev: EventV,
    r: Result<Flow, XmlToJsonError>,
) -> bool {
    match step(prev@, ev) {
        Ok(m) => {
            &&& r is Ok
            &&& next.wf()
            &&& next@ == m
            &&& (r->Ok_0 is Done <==> m.root is Some)
            &&& next.output() == render(m)
            &&& next.taken() == prev.taken()
            &&& prev.output().is_prefix_of(next.output())
        },
        Err(k) => r is Err && kind_of(r->Err_0) == k,
    }
}

/// The error quick-xml reported while parsing the attributes of the tag that
/// `ev` carries, if it carries a tag and quick-xml reported one.
pub open spec fn reported_attr_error(ev: RawEvent) -> Option<
    quick_xml::events::attributes::AttrError,
> {
    match ev {
        RawEvent::Start(t) => t.attr_error,
        RawEvent::Empty(t) => t.attr_error,
        _ => None,
    }
}

impl View for Converter {
    type V = Model;

    closed spec fn view(&self) -> Model {
        self.model@
    }
}

impl Converter {
    /// The frames and buffers agree with the model, and everything written so
    /// far is the model's rendering.
    pub closed spec fn wf(&self) -> bool {
        &&& self.stack@.len() == self.model@.frames.len()
        &&& forall|i: int|
            0 <= i < self.stack@.len() ==> frame_matches(
                #[trigger] self.stack@[i]@,
                self.model@.frames[i],
                i == self.stack@.len() - 1,
            )
        &&& self.spare_text_buf@.len() == 0
        &&& self.model@.root is Some ==> self.model@.frames.len() == 0
        &&& self.emitted@ + self.out@ == render(self.model@)
    }

    /// Everything written so far, taken or not.
    pub open spec fn output(&self) -> Seq<char> {
        self.taken() + self.pending()
    }

    /// The output already taken.
    pub closed spec fn taken(&self) -> Seq<char> {
        self.emitted@
    }

    /// The output not yet taken.
    pub closed spec fn pending(&self) -> Seq<char> {
        self.out@
    }

    /// A converter that has read nothing.
    pub fn new() -> (c: Self)
        ensures
            c.wf(),
            c@ == initial_model(),
            c.taken() == Seq::<char>::empty(),
            c.pending() == Seq::<char>::empty(),
    {
        let c = Converter {
            stack: Vec::new(),
            spare_text_buf: String::new(),
            out: String::new(),
            emitted: Ghost(Seq::empty()),
            model: Ghost(initial_model()),
        };
        proof {
            assert(c.emitted@ + c.out@ =~= Seq::<char>::empty());
        }
        c
    }

    /// Take the output written since it was last taken.
    pub fn take_output(&mut self) -> (s: String)
        ensures
            s@ == old(self).pending(),
            final(self)@ == old(self)@,
            final(self).taken() == old(self).output(),
            final(self).pending() == Seq::<char>::empty(),
            old(self).wf() ==> final(self).wf(),
    {
        let mut taken = String::new();
        std::mem::swap(&mut taken, &mut self.out);
        self.emitted = Ghost(self.emitted@ + taken@);
        proof {
            assert(self.emitted@ + self.out@ =~= old(self).emitted@ + old(self).out@);
        }
        taken
    }

    /// Read one event: write what it adds to the JSON text and update the
    /// document read so far, as `step` says; `Done` once the root element has
    /// closed.
    pub fn feed<R>(&mut self, xml: &Reader<R>, ev: RawEvent) -> (r: Result<Flow, XmlToJsonError>)
        requires
            old(self).wf(),
            old(self)@.root is None,
        ensures
            match step(old(self)@, ev@) {
                Ok(m) => {
                    &&& r is Ok
                    &&& final(self).wf()
                    &&& final(self)@ == m
                    &&& (r->Ok_0 is Done <==> m.root is Some)
                    &&& final(self).output() == render(m)
                    &&& final(self).taken() == old(self).taken()
                    &&& old(self).output().is_prefix_of(final(self).output())
                },
                Err(k) => r is Err && kind_of(r->Err_0) == k,
            },
            step(old(self)@, ev@) == Err::<Model, ErrorKind>(ErrorKind::Attribute) ==> r == Err::<
                Flow,
                XmlToJsonError,
            >(XmlToJsonError::QuickXmlAttribute(reported_attr_error(ev)->Some_0)),
    {
        match ev {
            RawEvent::Start(tag) => self.on_start(xml, tag),
            RawEvent::Empty(tag) => self.on_empty(xml, tag),
            RawEvent::Text(bytes) => self.on_text(xml, bytes),
            RawEvent::GeneralRef(bytes) => self.on_ref(xml, bytes),
            RawEvent::End => self.on_end(),
            RawEvent::Eof => Err(XmlToJsonError::InvalidXML),
            RawEvent::Other => Ok(Flow::Continue),
        }
    }

    /// Take the spare text buffer, leaving an empty one.
    fn take_spare(&mut self) -> (s: String)
        ensures
            s@ == old(self).spare_text_buf@,
            final(self).spare_text_buf@ == Seq::<char>::empty(),
            final(self).stack == old(self).stack,
            final(self).out == old(self).out,
            final(self).emitted == old(self).emitted,
            final(self).model == old(self).model,
    {
        let mut taken = String::new();
        std::mem::swap(&mut taken, &mut self.spare_text_buf);
        taken
    }

    /// Prepare the innermost element, if any, for a child: open its array or
    /// write the comma before the child.
    fn begin_child_of_top(&mut self)
        requires
            old(self).wf(),
            old(self)@.root is None,
        ensures
            final(self).model == old(self).model,
            final(self).emitted == old(self).emitted,
            final(self).spare_text_buf == old(self).spare_text_buf,
            final(self).stack@.len() == old(self).stack@.len(),
            forall|i: int|
                0 <= i < final(self).stack@.len() ==> frame_matches(
                    #[trigger] final(self).stack@[i]@,
                    final(self)@.frames[i],
                    false,
                ),
            final(self).emitted@ + final(self).out@ == outer_prefix(final(self)@.frames),
            old(self).output().is_prefix_of(final(self).output()),
    {
        let n = self.stack.len();
        if n == 0 {
            return;
        }
        let ghost frames = self@.frames;
        let mut parent = match self.stack.pop() {
            Some(p) => p,
            None => return,
        };
        proof {
            assert(old(self).stack@[n - 1] == parent);
            assert(frame_matches(parent@, frames.last(), true));
        }
        let begun = parent.begin_child(&mut self.out);
        self.stack.push(parent);
        proof {
            assert(begun is Ok);
            lemma_begin_child(frames);
            assert(self.out@ == old(self).out@ + begin_child_text(frames.last()));
            assert(self.emitted@ + self.out@ =~= (old(self).emitted@ + old(self).out@)
                + begin_child_text(frames.last()));
            assert forall|i: int| 0 <= i < self.stack@.len() implies frame_matches(
                #[trigger] self.stack@[i]@,
                self@.frames[i],
                false,
            ) by {
                if i < n - 1 {
                    assert(self.stack@[i] == old(self).stack@[i]);
                    assert(frame_matches(old(self).stack@[i]@, frames[i], false));
                }
            }
        }
    }

    /// A start tag: a new open element, the child of the innermost one.
    fn on_start<R>(&mut self, xml: &Reader<R>, tag: RawTag) -> (r: Result<Flow, XmlToJsonError>)
        requires
            old(self).wf(),
            old(self)@.root is None,
        ensures
            handled(*old(self), *final(self), EventV::Start(tag@), r),
            step(old(self)@, EventV::Start(tag@)) == Err::<Model, ErrorKind>(ErrorKind::Attribute)
                ==> r == Err::<Flow, XmlToJsonError>(
                XmlToJsonError::QuickXmlAttribute(tag.attr_error->Some_0),
            ),
    {
        let ghost tv = tag@;
        let RawTag { name, attrs, attr_error } = tag;
        self.begin_child_of_top();
        let ghost begun = self.emitted@ + self.out@;
        let text_buf = self.take_spare();
        let mut frame = match Element::new_and_open(name.as_slice(), xml, &mut self.out, text_buf) {
            Ok(f) => f,
            Err(e) => return Err(e),
        };
        let ghost opened = frame;
        match frame.process_element_attributes(&attrs, xml, &mut self.out) {
            Ok(()) => {},
            Err(e) => {
                proof {
                    lemma_lower_attrs_error_kind(tv.attrs);
                }
                return Err(e);
            },
        }
        if let Some(e) = attr_error {
            return Err(XmlToJsonError::QuickXmlAttribute(e));
        }
        let ghost pairs = lower_attrs(tv.attrs)->Ok_0;
        let ghost new_f = leaf(decode_utf8(tv.name), pairs);
        proof {
            assert(lower_tag(tv) == Ok::<_, ErrorKind>((new_f.name, pairs)));
            opened.lemma_fields();
            frame.lemma_fields();
            lemma_start(old(self)@, new_f);
            assert(self.emitted@ + self.out@ =~= begun + (tag_open(new_f.name) + attrs_text(
                true,
                pairs,
            )));
        }
        self.stack.push(frame);
        self.model = Ghost(Model { frames: self.model@.frames.push(new_f), root: None });
        proof {
            assert forall|i: int| 0 <= i < self.stack@.len() implies frame_matches(
                #[trigger] self.stack@[i]@,
                self.model@.frames[i],
                i == self.stack@.len() - 1,
            ) by {}
        }
        Ok(Flow::Continue)
    }

    /// An empty tag: a complete element, the child of the innermost open
    /// element or the root.
    fn on_empty<R>(&mut self, xml: &Reader<R>, tag: RawTag) -> (r: Result<Flow, XmlToJsonError>)
        requires
            old(self).wf(),
            old(self)@.root is None,
        ensures
            handled(*old(self), *final(self), EventV::Empty(tag@), r),
            step(old(self)@, EventV::Empty(tag@)) == Err::<Model, ErrorKind>(ErrorKind::Attribute)
                ==> r == Err::<Flow, XmlToJsonError>(
                XmlToJsonError::QuickXmlAttribute(tag.attr_error->Some_0),
            ),
    {
        let ghost tv = tag@;
        let RawTag { name, attrs, attr_error } = tag;
        self.begin_child_of_top();
        let ghost begun = self.emitted@ + self.out@;
        let mut node = match EmptyNode::new_and_open(name.as_slice(), xml, &mut self.out) {
            Ok(node) => node,
            Err(e) => return Err(e),
        };
        let ghost opened = node;
        match node.process_element_attributes(&attrs, xml, &mut self.out) {
            Ok(()) => {},
            Err(e) => {
                proof {
                    lemma_lower_attrs_error_kind(tv.attrs);
                }
                return Err(e);
            },
        }
        if let Some(e) = attr_error {
            return Err(XmlToJsonError::QuickXmlAttribute(e));
        }
        let closed = node.close(&mut self.out);
        let ghost pairs = lower_attrs(tv.attrs)->Ok_0;
        let ghost lf = leaf(decode_utf8(tv.name), pairs);
        let ghost next = add_child(old(self)@, lf);
        proof {
            assert(closed is Ok);
            assert(lower_tag(tv) == Ok::<_, ErrorKind>((lf.name, pairs)));
            opened.lemma_fields();
            assert(trim_ws(lf.text) == lf.text);
            assert(json_node(lf) =~= tag_open(lf.name) + attrs_text(true, pairs) + seq!['}', '}']);
            assert(self.emitted@ + self.out@ =~= begun + json_node(lf));
            lemma_write_child(old(self)@, lf);
        }
        self.model = Ghost(next);
        if self.stack.len() == 0 {
            return Ok(Flow::Done);
        }
        proof {
            let n = self.stack@.len();
            assert forall|i: int| 0 <= i < n implies frame_matches(
                #[trigger] self.stack@[i]@,
                self.model@.frames[i],
                i == n - 1,
            ) by {
                assert(frame_matches(self.stack@[i]@, old(self)@.frames[i], false));
            }
        }
        Ok(Flow::Continue)
    }

    /// An end tag: the innermost open element is complete and becomes the
    /// last child of the element around it, or the root.
    fn on_end(&mut self) -> (r: Result<Flow, XmlToJsonError>)
        requires
            old(self).wf(),
            old(self)@.root is None,
        ensures
            handled(*old(self), *final(self), EventV::End, r),
    {
        let n = self.stack.len();
        if n == 0 {
            return Ok(Flow::Continue);
        }
        let ghost frames = self@.frames;
        let ghost f = frames.last();
        let mut frame = match self.stack.pop() {
            Some(frame) => frame,
            None => return Ok(Flow::Continue),
        };
        proof {
            assert(old(self).stack@[n - 1] == frame);
            assert(frame_matches(frame@, f, true));
        }
        let closed = frame.close(&mut self.out);
        self.spare_text_buf = frame.take_text_buf();
        let ghost next = add_child(Model { frames: frames.drop_last(), root: None }, f);
        proof {
            assert(closed is Ok);
            assert(self.out@ == old(self).out@ + close_text(f));
            lemma_end(old(self)@);
            assert(self.emitted@ + self.out@ =~= (old(self).emitted@ + old(self).out@) + close_text(
                f,
            ));
            assert(self.spare_text_buf@ =~= Seq::<char>::empty());
        }
        self.model = Ghost(next);
        if n == 1 {
            return Ok(Flow::Done);
        }
        proof {
            assert forall|i: int| 0 <= i < self.stack@.len() implies frame_matches(
                #[trigger] self.stack@[i]@,
                self.model@.frames[i],
                i == self.stack@.len() - 1,
            ) by {
                assert(self.stack@[i] == old(self).stack@[i]);
                assert(frame_matches(old(self).stack@[i]@, frames[i], false));
            }
        }
        Ok(Flow::Continue)
    }

    /// Character data: appended to the text of the innermost open element,
    /// unless it is whitespace before any other text of that element.
    fn on_text<R>(&mut self, xml: &Reader<R>, bytes: Vec<u8>) -> (r: Result<Flow, XmlToJsonError>)
        requires
            old(self).wf(),
            old(self)@.root is None,
        ensures
            handled(*old(self), *final(self), EventV::Text(bytes@), r),
    {
        let n = self.stack.len();
        if n == 0 {
            return Ok(Flow::Continue);
        }
        let mut top = match self.stack.pop() {
            Some(top) => top,
            None => return Ok(Flow::Continue),
        };
        proof {
            assert(old(self).stack@[n - 1] == top);
        }
        if top.has_text() || !all_xml_whitespace(&bytes) {
            let text = match decode_bytes(xml, bytes.as_slice()) {
                Ok(text) => text,
                Err(e) => return Err(XmlToJsonError::QuickXml(e)),
            };
            top.push_text(cow_as_str(&text));
            proof {
                lemma_append_text(self.model@, text@);
            }
            self.model = Ghost(append_text(self.model@, text@));
        }
        self.stack.push(top);
        proof {
            assert forall|i: int| 0 <= i < self.stack@.len() implies frame_matches(
                #[trigger] self.stack@[i]@,
                self.model@.frames[i],
                i == self.stack@.len() - 1,
            ) by {
                if i < n - 1 {
                    assert(self.stack@[i] == old(self).stack@[i]);
                }
            }
        }
        Ok(Flow::Continue)
    }

    /// A reference in character data: what it stands for appended to the
    /// text of the innermost open element.
    fn on_ref<R>(&mut self, xml: &Reader<R>, bytes: Vec<u8>) -> (r: Result<Flow, XmlToJsonError>)
        requires
            old(self).wf(),
            old(self)@.root is None,
        ensures
            handled(*old(self), *final(self), EventV::GeneralRef(bytes@), r),
    {
        let n = self.stack.len();
        if n == 0 {
            return Ok(Flow::Continue);
        }
        let name = match decode_bytes(xml, bytes.as_slice()) {
            Ok(name) => name,
            Err(e) => return Err(XmlToJsonError::QuickXml(e)),
        };
        let name_str = cow_as_str(&name);
        let resolved = match resolve_char_ref(name_str) {
            Ok(resolved) => resolved,
            Err(e) => return Err(XmlToJsonError::QuickXml(e)),
        };
        let mut top = match self.stack.pop() {
            Some(top) => top,
            None => return Ok(Flow::Continue),
        };
        proof {
            assert(old(self).stack@[n - 1] == top);
        }
        let ghost before = top@.text;
        let ghost t: Seq<char>;
        match resolved {
            Some(ch) => {
                top.push_char(ch);
                proof {
                    t = seq![ch];
                    assert(top@.text =~= before + t);
                }
            },
            None => match resolve_predefined_entity(name_str) {
                Some(text) => {
                    top.push_text(text);
                    proof {
                        t = text@;
                    }
                },
                None => {
                    top.push_unresolved_ref(name_str);
                    proof {
                        t = seq!['&'] + name_str@ + seq![';'];
                    }
                },
            },
        }
        proof {
            assert(resolve_ref_spec(name_str@) == Ok::<_, Seq<char>>(t));
            assert(ref_text(bytes@) == Ok::<_, ErrorKind>(t));
            lemma_append_text(self.model@, t);
        }
        self.stack.push(top);
        self.model = Ghost(append_text(self.model@, t));
        proof {
            assert forall|i: int| 0 <= i < self.stack@.len() implies frame_matches(
                #[trigger] self.stack@[i]@,
                self.model@.frames[i],
                i == self.stack@.len() - 1,
            ) by {
                if i < n - 1 {
                    assert(self.stack@[i] == old(self).stack@[i]);
                }
            }
        }
        Ok(Flow::Continue)
    }
}

/// The state after reading the first `k` events of `input`, or why reading
/// them failed: a quick-xml error on a read, or the error of `step`. Once the
/// root element has closed nothing more is read.
pub open spec fn read_prefix(input: Seq<u8>, k: nat) -> Result<Model, ErrorKind>
    decreases k,
{
    if k == 0 {
        Ok(initial_model())
    } else {
        match read_prefix(input, (k - 1) as nat) {
            Err(e) => Err(e),
            Ok(m) => if m.root is Some {
                Ok(m)
            } else {
                match slice_event(input, (k - 1) as nat) {
                    None => Err(ErrorKind::QuickXml),
                    Some(ev) => step(m, ev),
                }
            },
        }
    }
}

/// What converting the document `input` gives: the JSON text of its root
/// element once that closes within one more event than `input` has bytes,
/// the first error before that, or `InvalidXml` when it does not close.
pub open spec fn slice_conversion(input: Seq<u8>) -> Result<Seq<char>, ErrorKind> {
    match read_prefix(input, input.len() + 1) {
        Err(e) => Err(e),
        Ok(m) => match m.root {
            Some(n) => Ok(json_node(n)),
            None => Err(ErrorKind::InvalidXml),
        },
    }
}

/// Once reading has failed or the root has closed, reading further changes
/// nothing.
pub proof fn lemma_read_prefix_settled(input: Seq<u8>, k: nat, k2: nat)
    requires
        k <= k2,
        read_prefix(input, k) is Err || read_prefix(input, k)->Ok_0.root is Some,
    ensures
        read_prefix(input, k2) == read_prefix(input, k),
    decreases k2,
{
    if k2 > k {
        lemma_read_prefix_settled(input, k, (k2 - 1) as nat);
    }
}

/// Convert a document held in memory: read its events with quick-xml and
/// feed them to a converter until its root element closes. On success the
/// output is the JSON text of that root element.
///
/// quick-xml yields at most one event per input byte before the end of the
/// input, so reading stops, with `InvalidXML`, after more events than that.
pub fn xml_to_json_from_slice(input: &[u8]) -> (r: Result<String, XmlToJsonError>)
    ensures
        match slice_conversion(input@) {
            Ok(json) => r is Ok && r->Ok_0@ == json,
            Err(k) => r is Err && kind_of(r->Err_0) == k,
        },
{
    let mut xml = slice_reader(input);
    let mut conv = Converter::new();
    let mut fuel = input.len();
    loop
        invariant
            xml.input() == input@,
            xml.count() + fuel == input@.len(),
            conv.wf(),
            conv@.root is None,
            read_prefix(input@, xml.count()) == Ok::<Model, ErrorKind>(conv@),
            conv.taken() == Seq::<char>::empty(),
        decreases fuel,
    {
        let ghost c = xml.count();
        let raw = match read_event(&mut xml) {
            Ok(raw) => raw,
            Err(e) => {
                proof {
                    lemma_read_prefix_settled(input@, c + 1, input@.len() + 1);
                }
                return Err(XmlToJsonError::QuickXml(e));
            },
        };
        let flow = conv.feed(xml.reader(), raw);
        proof {
            assert(read_prefix(input@, c + 1) == step(read_prefix(input@, c)->Ok_0, raw@));
        }
        match flow {
            Ok(Flow::Done) => {
                proof {
                    lemma_read_prefix_settled(input@, c + 1, input@.len() + 1);
                }
                let out = conv.take_output();
                proof {
                    assert(out@ =~= json_node(conv@.root->Some_0));
                }
                return Ok(out);
            },
            Ok(Flow::Continue) => {},
            Err(e) => {
                proof {
                    lemma_read_prefix_settled(input@, c + 1, input@.len() + 1);
                }
                return Err(e);
            },
        }
        if fuel == 0 {
            return Err(XmlToJsonError::InvalidXML);
        }
        fuel = fuel - 1;
    }
}

/// Whether every byte of `bytes` is XML whitespace.
fn all_xml_whitespace(bytes: &Vec<u8>) -> (r: bool)
    ensures
        r == all_ws_bytes(bytes@),
{
    let mut i: usize = 0;
    while i < bytes.len()
        invariant
            0 <= i <= bytes@.len(),
            forall|k: int| 0 <= k < i ==> #[trigger] is_xml_ws_byte(bytes@[k]),
        decreases bytes@.len() - i,
    {
        let b = bytes[i];
        if !(b == 0x20 || b == 0x09 || b == 0x0d || b == 0x0a) {
            assert(!is_xml_ws_byte(bytes@[i as int]));
            return false;
        }
        i = i + 1;
    }
    true
}

} // verus!
