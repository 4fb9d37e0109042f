//! The events in which a document tree is written, and the law that reading
//! them converts the tree into its JSON text.

use crate::bindings::slice_event;
use crate::convert::{lemma_read_prefix_settled, read_prefix, slice_conversion};
use crate::errors::ErrorKind;
use crate::events::{lower_attr, lower_attrs, lower_tag, AttrV, EventV, TagV};
use crate::frames::element::text_field;
use crate::laws::{
    escape_predefined, law_trim_keeps_interior, law_unescape_predefined_roundtrip, text_appended,
    trims_to,
};
use crate::model::{
    add_child, append_text, children_json, converts_to, initial_model, json_node, run, step, Model,
    NodeModel,
};
use crate::text::{all_ws_bytes, is_xml_ws, is_xml_ws_byte, trim_ws};
use crate::utf8::{lemma_char_eq, lemma_first_byte};
use vstd::prelude::*;
use vstd::utf8::{char_is_scalar, encode_scalar, encode_utf8, has_width_1_encoding};

verus! {

/// The attributes of a tag as written: keys as UTF-8, values with their
/// reserved characters written as predefined entities.
pub open spec fn raw_attrs(attrs: Seq<(Seq<char>, Seq<char>)>) -> Seq<AttrV>
    decreases attrs.len(),
{
    if attrs.len() == 0 {
        seq![]
    } else {
        raw_attrs(attrs.drop_last()).push(
            AttrV {
                key: encode_utf8(attrs.last().0),
                value: encode_utf8(escape_predefined(attrs.last().1)),
            },
        )
    }
}

/// The tag of an element as written.
pub open spec fn raw_tag_of(n: NodeModel) -> TagV {
    TagV { name: encode_utf8(n.name), attrs: raw_attrs(n.attrs), attr_error: false }
}

/// The events of an element: its start tag, its text, its children's
/// events in order, and its end tag.
pub open spec fn events_of(n: NodeModel) -> Seq<EventV>
    decreases n,
{
    (seq![EventV::Start(raw_tag_of(n)), EventV::Text(encode_utf8(n.text))] + children_events(
        n.children,
    )).push(EventV::End)
}

/// The events of the elements `cs`, one after another.
pub open spec fn children_events(cs: Seq<NodeModel>) -> Seq<EventV>
    decreases cs,
{
    if cs.len() == 0 {
        seq![]
    } else {
        children_events(cs.subrange(0, cs.len() - 1)) + events_of(cs[cs.len() - 1])
    }
}

/// The text an element keeps when its text is read in one piece right after
/// its start tag: none when that piece is whitespace only.
pub open spec fn kept_text(text: Seq<char>) -> Seq<char> {
    if all_ws_bytes(encode_utf8(text)) {
        seq![]
    } else {
        text
    }
}

/// The element the converter builds from the events of `n`.
pub open spec fn read_back(n: NodeModel) -> NodeModel
    decreases n,
{
    NodeModel {
        name: n.name,
        attrs: n.attrs,
        children: read_back_all(n.children),
        text: kept_text(n.text),
    }
}

/// The elements the converter builds from the events of `cs`.
pub open spec fn read_back_all(cs: Seq<NodeModel>) -> Seq<NodeModel>
    decreases cs,
{
    if cs.len() == 0 {
        seq![]
    } else {
        read_back_all(cs.subrange(0, cs.len() - 1)).push(read_back(cs[cs.len() - 1]))
    }
}

/// Running `a` then `b` is running `a + b`.
proof fn lemma_run_concat(m: Model, a: Seq<EventV>, b: Seq<EventV>)
    ensures
        run(m, a + b) == match run(m, a) {
            Ok(m1) => run(m1, b),
            Err(e) => Err(e),
        },
    decreases b.len(),
{
    if b.len() == 0 {
        assert(a + b == a);
    } else {
        lemma_run_concat(m, a, b.drop_last());
        assert((a + b).drop_last() == a + b.drop_last());
        assert((a + b).last() == b.last());
    }
}

/// The attributes as written lower back to themselves.
proof fn lemma_raw_attrs(attrs: Seq<(Seq<char>, Seq<char>)>)
    ensures
        lower_attrs(raw_attrs(attrs)) == Ok::<_, crate::errors::ErrorKind>(attrs),
    decreases attrs.len(),
{
    broadcast use vstd::utf8::encode_utf8_valid_utf8, vstd::utf8::encode_utf8_decode_utf8;

    if attrs.len() == 0 {
        assert(attrs =~= seq![]);
    } else {
        let init = attrs.drop_last();
        let (k, v) = attrs.last();
        lemma_raw_attrs(init);
        law_unescape_predefined_roundtrip(v);
        let r = raw_attrs(attrs);
        assert(r.drop_last() == raw_attrs(init));
        assert(lower_attr(r.last()) == Ok::<_, crate::errors::ErrorKind>((k, v)));
        assert(init.push((k, v)) == attrs);
    }
}

/// UTF-8 text whose bytes are all whitespace is whitespace throughout.
proof fn lemma_ws_bytes(t: Seq<char>)
    requires
        all_ws_bytes(encode_utf8(t)),
    ensures
        forall|k: int| 0 <= k < t.len() ==> is_xml_ws(#[trigger] t[k]),
    decreases t.len(),
{
    if t.len() > 0 {
        let rest = t.drop_first();
        let enc = encode_utf8(t);
        lemma_first_byte(t);
        char_is_scalar(t[0]);
        let v = t[0] as u32;
        assert(enc == encode_scalar(v) + encode_utf8(rest));
        assert(is_xml_ws_byte(enc[0]));
        assert(v < 0x80);
        assert(has_width_1_encoding(v));
        assert(encode_scalar(v).len() == 1);
        assert(v < 0x80 ==> ((v as u8 == 0x20 <==> v == 0x20) && (v as u8 == 0x09 <==> v == 0x09)
            && (v as u8 == 0x0d <==> v == 0x0d) && (v as u8 == 0x0a <==> v == 0x0a)))
            by (bit_vector);
        if v == 0x20 {
            lemma_char_eq(t[0], ' ');
        } else if v == 0x09 {
            lemma_char_eq(t[0], '\t');
        } else if v == 0x0d {
            lemma_char_eq(t[0], '\r');
        } else {
            lemma_char_eq(t[0], '\n');
        }
        assert(is_xml_ws(t[0]));
        assert forall|i: int| 0 <= i < encode_utf8(rest).len() implies #[trigger] is_xml_ws_byte(
            encode_utf8(rest)[i],
        ) by {
            assert(encode_utf8(rest)[i] == enc[i + 1]);
        }
        lemma_ws_bytes(rest);
        assert forall|k: int| 0 <= k < t.len() implies is_xml_ws(#[trigger] t[k]) by {
            if k > 0 {
                assert(t[k] == rest[k - 1]);
            }
        }
    }
}

/// Text that is whitespace throughout trims to nothing.
proof fn lemma_ws_trims_empty(t: Seq<char>)
    requires
        forall|k: int| 0 <= k < t.len() ==> is_xml_ws(#[trigger] t[k]),
    ensures
        trim_ws(t).len() == 0,
{
    law_trim_keeps_interior(t);
    let (i, j) = choose|i: int, j: int| #[trigger] trims_to(t, i, j);
    if i < j {
        assert(is_xml_ws(t[i]));
    }
}

/// What is read back of an element has the same JSON text as the element.
proof fn lemma_read_back_json(n: NodeModel)
    ensures
        json_node(read_back(n)) == json_node(n),
    decreases n,
{
    lemma_read_back_all_json(n.children);
    let r = read_back(n);
    if all_ws_bytes(encode_utf8(n.text)) {
        lemma_ws_bytes(n.text);
        lemma_ws_trims_empty(n.text);
        assert(trim_ws(Seq::<char>::empty()) == Seq::<char>::empty());
        assert(text_field(n.attrs.len() == 0 && n.children.len() == 0, r.text)
            == text_field(n.attrs.len() == 0 && n.children.len() == 0, n.text));
    }
}

/// What is read back of elements has the same JSON texts as the elements.
proof fn lemma_read_back_all_json(cs: Seq<NodeModel>)
    ensures
        read_back_all(cs).len() == cs.len(),
        children_json(read_back_all(cs)) == children_json(cs),
    decreases cs,
{
    if cs.len() > 0 {
        let init = cs.subrange(0, cs.len() - 1);
        lemma_read_back_all_json(init);
        lemma_read_back_json(cs[cs.len() - 1]);
        let r = read_back_all(cs);
        assert(r.subrange(0, r.len() - 1) == read_back_all(init));
        assert(r[r.len() - 1] == read_back(cs[cs.len() - 1]));
    }
}

/// Reading the events of `n` with no root yet adds what is read back of `n`
/// as a child of the innermost open element, or as the root.
proof fn lemma_events_of(m: Model, n: NodeModel)
    requires
        m.root is None,
    ensures
        run(m, events_of(n)) == Ok::<Model, crate::errors::ErrorKind>(add_child(m, read_back(n))),
    decreases n,
{
    broadcast use vstd::utf8::encode_utf8_valid_utf8, vstd::utf8::encode_utf8_decode_utf8;

    let tag = raw_tag_of(n);
    lemma_raw_attrs(n.attrs);
    assert(lower_tag(tag) == Ok::<_, crate::errors::ErrorKind>((n.name, n.attrs)));
    let head = seq![EventV::Start(tag), EventV::Text(encode_utf8(n.text))];
    let opened = NodeModel { name: n.name, attrs: n.attrs, children: seq![], text: seq![] };
    let m0 = Model { frames: m.frames.push(opened), root: None };
    assert(step(m, EventV::Start(tag)) == Ok::<Model, crate::errors::ErrorKind>(m0));
    let m1 = Model {
        frames: m.frames.push(NodeModel { text: kept_text(n.text), ..opened }),
        root: None,
    };
    if !all_ws_bytes(encode_utf8(n.text)) {
        assert(append_text(m0, n.text).frames =~= m1.frames);
    } else {
        assert(m0.frames =~= m1.frames);
    }
    assert(step(m0, EventV::Text(encode_utf8(n.text))) == Ok::<Model, crate::errors::ErrorKind>(
        m1,
    ));
    assert(head.drop_last() == seq![EventV::Start(tag)]);
    assert(seq![EventV::Start(tag)].drop_last() == Seq::<EventV>::empty());
    assert(run(m, Seq::<EventV>::empty()) == Ok::<Model, crate::errors::ErrorKind>(m));
    assert(run(m, seq![EventV::Start(tag)]) == Ok::<Model, crate::errors::ErrorKind>(m0));
    assert(run(m, head) == Ok::<Model, crate::errors::ErrorKind>(m1));
    let body = head + children_events(n.children);
    lemma_run_concat(m, head, children_events(n.children));
    lemma_children_events(m1, n.children);
    let top = m1.frames.last();
    let m2 = Model {
        frames: m1.frames.update(
            m1.frames.len() - 1,
            NodeModel { children: top.children + read_back_all(n.children), ..top },
        ),
        root: None,
    };
    assert(run(m, body) == Ok::<Model, crate::errors::ErrorKind>(m2));
    assert(events_of(n).drop_last() == body);
    assert(top.children + read_back_all(n.children) == read_back_all(n.children));
    assert(m2.frames.last() == read_back(n));
    assert(m2.frames.drop_last() =~= m.frames);
}

/// Reading the events of `cs` inside an open element adds what is read back
/// of them to its children.
proof fn lemma_children_events(m: Model, cs: Seq<NodeModel>)
    requires
        m.root is None,
        m.frames.len() > 0,
    ensures
        run(m, children_events(cs)) == Ok::<Model, crate::errors::ErrorKind>(
            Model {
                frames: m.frames.update(
                    m.frames.len() - 1,
                    NodeModel {
                        children: m.frames.last().children + read_back_all(cs),
                        ..m.frames.last()
                    },
                ),
                root: None,
            },
        ),
    decreases cs,
{
    let top = m.frames.last();
    if cs.len() == 0 {
        assert(children_events(cs).len() == 0);
        assert(top.children + read_back_all(cs) == top.children);
        assert(m.frames.update(m.frames.len() - 1, top) =~= m.frames);
    } else {
        let init = cs.subrange(0, cs.len() - 1);
        let last = cs[cs.len() - 1];
        lemma_children_events(m, init);
        let mid = Model {
            frames: m.frames.update(
                m.frames.len() - 1,
                NodeModel { children: top.children + read_back_all(init), ..top },
            ),
            root: None,
        };
        lemma_run_concat(m, children_events(init), events_of(last));
        lemma_events_of(mid, last);
        assert(top.children + read_back_all(init).push(read_back(last)) == (top.children
            + read_back_all(init)).push(read_back(last)));
        assert(add_child(mid, read_back(last)).frames =~= m.frames.update(
            m.frames.len() - 1,
            NodeModel { children: top.children + read_back_all(cs), ..top },
        ));
    }
}

/// Reading the events in which a document's root element is written gives
/// that element's JSON text: the converter's output is the document's.
pub proof fn law_events_of_element_convert_to_its_json(n: NodeModel)
    ensures
        converts_to(events_of(n), json_node(n)),
{
    lemma_events_of(initial_model(), n);
    lemma_read_back_json(n);
}

/// Every proper, non-empty prefix of the events of `n` leaves an element
/// open more than before, and no root.
proof fn lemma_events_of_prefix(m: Model, n: NodeModel, j: int)
    requires
        m.root is None,
        0 < j < events_of(n).len(),
    ensures
        run(m, events_of(n).take(j)) is Ok,
        run(m, events_of(n).take(j))->Ok_0.root is None,
        run(m, events_of(n).take(j))->Ok_0.frames.len() > m.frames.len(),
    decreases n, 0int,
{
    broadcast use vstd::utf8::encode_utf8_valid_utf8, vstd::utf8::encode_utf8_decode_utf8;

    let tag = raw_tag_of(n);
    lemma_raw_attrs(n.attrs);
    let evs = events_of(n);
    let head = seq![EventV::Start(tag), EventV::Text(encode_utf8(n.text))];
    let ce = children_events(n.children);
    assert(evs == (head + ce).push(EventV::End));
    let opened = NodeModel { name: n.name, attrs: n.attrs, children: seq![], text: seq![] };
    let m0 = Model { frames: m.frames.push(opened), root: None };
    assert(run(m, Seq::<EventV>::empty()) == Ok::<Model, crate::errors::ErrorKind>(m));
    assert(evs.take(1) == seq![EventV::Start(tag)]);
    assert(seq![EventV::Start(tag)].drop_last() == Seq::<EventV>::empty());
    assert(run(m, evs.take(1)) == Ok::<Model, crate::errors::ErrorKind>(m0));
    if j >= 2 {
        assert(evs.take(2) == head);
        assert(head.drop_last() == seq![EventV::Start(tag)]);
        let m1 = run(m, head)->Ok_0;
        assert(run(m, head) is Ok);
        assert(m1.frames.len() == m0.frames.len());
        assert(m1.root is None);
        if j > 2 {
            let k = j - 2;
            assert(evs.take(j) == head + ce.take(k));
            lemma_run_concat(m, head, ce.take(k));
            lemma_children_events_prefix(m1, n.children, k);
        }
    }
}

/// Every prefix of the events of `cs`, read inside an open element, leaves
/// at least as many elements open, and no root.
proof fn lemma_children_events_prefix(m: Model, cs: Seq<NodeModel>, j: int)
    requires
        m.root is None,
        m.frames.len() > 0,
        0 <= j <= children_events(cs).len(),
    ensures
        run(m, children_events(cs).take(j)) is Ok,
        run(m, children_events(cs).take(j))->Ok_0.root is None,
        run(m, children_events(cs).take(j))->Ok_0.frames.len() >= m.frames.len(),
    decreases cs, 1int,
{
    let ce = children_events(cs);
    if j == 0 {
        assert(ce.take(0) == Seq::<EventV>::empty());
        assert(run(m, Seq::<EventV>::empty()) == Ok::<Model, crate::errors::ErrorKind>(m));
    } else {
        assert(cs.len() > 0);
        let init = cs.subrange(0, cs.len() - 1);
        let last = cs[cs.len() - 1];
        let a = children_events(init);
        let b = events_of(last);
        assert(ce == a + b);
        if j <= a.len() {
            assert(ce.take(j) == a.take(j));
            lemma_children_events_prefix(m, init, j);
        } else {
            let k = j - a.len();
            assert(ce.take(j) == a + b.take(k));
            lemma_run_concat(m, a, b.take(k));
            lemma_children_events(m, init);
            let mid = run(m, a)->Ok_0;
            assert(mid.frames.len() == m.frames.len());
            if k < b.len() {
                lemma_events_of_prefix(mid, last, k);
            } else {
                assert(b.take(k) == b);
                lemma_events_of(mid, last);
            }
        }
    }
}

/// Whenever quick-xml reads from a document exactly the events in which an
/// element tree is written, converting that document gives the tree's JSON
/// text: what `xml_to_json_from_slice` returns for it.
pub proof fn law_document_of_element_converts_to_its_json(input: Seq<u8>, n: NodeModel)
    requires
        events_of(n).len() <= input.len() + 1,
        forall|k: int|
            0 <= k < events_of(n).len() ==> slice_event(input, k as nat) == Some(
                #[trigger] events_of(n)[k],
            ),
    ensures
        slice_conversion(input) == Ok::<Seq<char>, crate::errors::ErrorKind>(json_node(n)),
{
    let evs = events_of(n);
    let m = initial_model();
    lemma_read_prefix_events(input, n, evs.len() as int);
    assert(evs.take(evs.len() as int) == evs);
    lemma_events_of(m, n);
    lemma_read_back_json(n);
    lemma_read_prefix_settled(input, evs.len(), input.len() + 1);
}

/// Reading the first `k` events of a document whose events are those of `n`
/// is running them from the start.
proof fn lemma_read_prefix_events(input: Seq<u8>, n: NodeModel, k: int)
    requires
        0 <= k <= events_of(n).len(),
        forall|i: int|
            0 <= i < events_of(n).len() ==> slice_event(input, i as nat) == Some(
                #[trigger] events_of(n)[i],
            ),
    ensures
        read_prefix(input, k as nat) == run(initial_model(), events_of(n).take(k)),
    decreases k,
{
    let evs = events_of(n);
    let m = initial_model();
    if k == 0 {
        assert(evs.take(0) == Seq::<EventV>::empty());
    } else {
        let j = k - 1;
        lemma_read_prefix_events(input, n, j);
        if j > 0 {
            lemma_events_of_prefix(m, n, j);
        } else {
            assert(evs.take(0) == Seq::<EventV>::empty());
            assert(run(m, Seq::<EventV>::empty()) == Ok::<Model, crate::errors::ErrorKind>(m));
        }
        assert(evs.take(k).drop_last() == evs.take(j));
        assert(evs.take(k).last() == evs[j]);
        assert(slice_event(input, j as nat) == Some(evs[j]));
    }
}

/// The events `evs` end the conversion at their last one, by closing the
/// root or failing, and none before it does.
pub open spec fn settles_at_end(evs: Seq<EventV>) -> bool {
    &&& evs.len() > 0
    &&& forall|j: int|
        0 <= j < evs.len() ==> {
            &&& run(initial_model(), #[trigger] evs.take(j)) is Ok
            &&& run(initial_model(), evs.take(j))->Ok_0.root is None
        }
    &&& (run(initial_model(), evs) is Err || run(initial_model(), evs)->Ok_0.root is Some)
}

/// What a converter fed `evs` from new ends with, as `Converter::feed`
/// states it: the JSON text of the root once it closes, or the error.
pub open spec fn events_conversion(evs: Seq<EventV>) -> Result<Seq<char>, ErrorKind> {
    match run(initial_model(), evs) {
        Err(e) => Err(e),
        Ok(m) => match m.root {
            Some(n) => Ok(json_node(n)),
            None => Err(ErrorKind::InvalidXml),
        },
    }
}

/// Reading the first `k` events of a document is running them, when they
/// are the first events of `evs` and no earlier one ended the conversion.
proof fn lemma_read_prefix_is_run(input: Seq<u8>, evs: Seq<EventV>, k: int)
    requires
        settles_at_end(evs),
        0 <= k <= evs.len(),
        forall|i: int| 0 <= i < evs.len() ==> slice_event(input, i as nat) == Some(#[trigger] evs[i]),
    ensures
        read_prefix(input, k as nat) == run(initial_model(), evs.take(k)),
    decreases k,
{
    if k == 0 {
        assert(evs.take(0) == Seq::<EventV>::empty());
    } else {
        let j = k - 1;
        lemma_read_prefix_is_run(input, evs, j);
        assert(run(initial_model(), evs.take(j)) is Ok);
        assert(evs.take(k).drop_last() == evs.take(j));
        assert(evs.take(k).last() == evs[j]);
        assert(slice_event(input, j as nat) == Some(evs[j]));
    }
}

/// Given the same events, reading a document held in memory and feeding a
/// converter event by event, as the buffered path does, end alike: the same
/// JSON text, or the same kind of error.
pub proof fn law_slice_agrees_with_fed_events(input: Seq<u8>, evs: Seq<EventV>)
    requires
        settles_at_end(evs),
        evs.len() <= input.len() + 1,
        forall|i: int| 0 <= i < evs.len() ==> slice_event(input, i as nat) == Some(#[trigger] evs[i]),
    ensures
        slice_conversion(input) == events_conversion(evs),
{
    lemma_read_prefix_is_run(input, evs, evs.len() as int);
    assert(evs.take(evs.len() as int) == evs);
    lemma_read_prefix_settled(input, evs.len(), input.len() + 1);
}

/// Reading depends only on the events read so far.
proof fn lemma_read_prefix_same_events(x: Seq<u8>, y: Seq<u8>, k: nat)
    requires
        forall|i: nat| i < k ==> #[trigger] slice_event(x, i) == slice_event(y, i),
    ensures
        read_prefix(x, k) == read_prefix(y, k),
    decreases k,
{
    if k > 0 {
        lemma_read_prefix_same_events(x, y, (k - 1) as nat);
        assert(slice_event(x, (k - 1) as nat) == slice_event(y, (k - 1) as nat));
    }
}

/// What follows the root element is never read: two documents whose events
/// agree up to the one that closes the root, such as a document and its
/// prefix that ends with the root's end tag, convert alike.
pub proof fn law_input_after_root_is_ignored(x: Seq<u8>, y: Seq<u8>, k: nat)
    requires
        read_prefix(x, k) is Ok,
        read_prefix(x, k)->Ok_0.root is Some,
        k <= x.len() + 1,
        k <= y.len() + 1,
        forall|i: nat| i < k ==> #[trigger] slice_event(x, i) == slice_event(y, i),
    ensures
        slice_conversion(x) == slice_conversion(y),
{
    lemma_read_prefix_same_events(x, y, k);
    lemma_read_prefix_settled(x, k, x.len() + 1);
    lemma_read_prefix_settled(y, k, y.len() + 1);
}

/// Character data adds exactly its characters to the innermost open
/// element's text, and changes nothing else, unless it is whitespace only
/// and comes before any other text of that element.
pub proof fn law_text_appends_its_characters(m: Model, s: Seq<char>)
    requires
        m.frames.len() > 0,
        m.frames.last().text.len() > 0 || exists|i: int|
            0 <= i < s.len() && !is_xml_ws(#[trigger] s[i]),
    ensures
        step(m, EventV::Text(encode_utf8(s))) is Ok,
        text_appended(m, step(m, EventV::Text(encode_utf8(s)))->Ok_0, s),
{
    broadcast use vstd::utf8::encode_utf8_valid_utf8, vstd::utf8::encode_utf8_decode_utf8;

    if m.frames.last().text.len() == 0 && all_ws_bytes(encode_utf8(s)) {
        lemma_ws_bytes(s);
        let i = choose|i: int| 0 <= i < s.len() && !is_xml_ws(#[trigger] s[i]);
        assert(is_xml_ws(s[i]));
    }
    let m2 = step(m, EventV::Text(encode_utf8(s)))->Ok_0;
    assert(m2.frames.drop_last() =~= m.frames.drop_last());
}

} // verus!
