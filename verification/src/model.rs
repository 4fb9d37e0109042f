//! The document a stream of events describes, the JSON text of an element,
//! and what the converter has written while elements are still open.

use crate::errors::ErrorKind;
use crate::events::{decode_spec, lower_tag, EventV};
use crate::frames::element::{children_open_text, text_field};
use crate::json::{attrs_text, sep, tag_open};
use crate::text::{all_ws_bytes, resolve_ref_spec};
use vstd::prelude::*;

verus! {

/// An element: its name, its attributes with references resolved, its child
/// elements and its character data, in document order.
pub struct NodeModel {
    pub name: Seq<char>,
    pub attrs: Seq<(Seq<char>, Seq<char>)>,
    pub children: Seq<NodeModel>,
    pub text: Seq<char>,
}

/// What the converter knows of the document so far: the elements that are
/// open, the innermost last, and the root element once it has closed.
pub struct Model {
    pub frames: Seq<NodeModel>,
    pub root: Option<NodeModel>,
}

/// The state before any event.
pub open spec fn initial_model() -> Model {
    Model { frames: seq![], root: None }
}

/// An element with a name and attributes and nothing in it yet.
pub open spec fn leaf(name: Seq<char>, attrs: Seq<(Seq<char>, Seq<char>)>) -> NodeModel {
    NodeModel { name, attrs, children: seq![], text: seq![] }
}

/// The JSON text of an element: `{"name":{` then its fields, comma
/// separated: one `"@key":"value"` per attribute, `"#c":[...]` with the
/// children when it has any, `"#t":"..."` with its text, trimmed, when that is
/// not empty; then `}}`.
pub open spec fn json_node(n: NodeModel) -> Seq<char>
    decreases n,
{
    tag_open(n.name) + attrs_text(true, n.attrs) + (if n.children.len() > 0 {
        children_open_text(n.attrs.len() == 0) + children_json(n.children) + seq![']']
    } else {
        seq![]
    }) + text_field(n.attrs.len() == 0 && n.children.len() == 0, n.text) + seq!['}', '}']
}

/// The JSON texts of `cs`, comma separated.
pub open spec fn children_json(cs: Seq<NodeModel>) -> Seq<char>
    decreases cs,
{
    if cs.len() == 0 {
        seq![]
    } else {
        children_json(cs.subrange(0, cs.len() - 1)) + sep(cs.len() == 1) + json_node(
            cs[cs.len() - 1],
        )
    }
}

/// What has been written of an open element: its start, its attributes and,
/// when it has children, the array of their texts. An element that is not the
/// innermost has its array open and, after a child, the comma before the next.
pub open spec fn frame_prefix(f: NodeModel, innermost: bool) -> Seq<char> {
    tag_open(f.name) + attrs_text(true, f.attrs) + if innermost {
        if f.children.len() > 0 {
            children_open_text(f.attrs.len() == 0) + children_json(f.children)
        } else {
            seq![]
        }
    } else {
        children_open_text(f.attrs.len() == 0) + children_json(f.children) + sep(
            f.children.len() == 0,
        )
    }
}

/// What has been written of the open elements `fs`, none the innermost.
pub open spec fn outer_prefix(fs: Seq<NodeModel>) -> Seq<char>
    decreases fs.len(),
{
    if fs.len() == 0 {
        seq![]
    } else {
        outer_prefix(fs.drop_last()) + frame_prefix(fs.last(), false)
    }
}

/// What has been written of the open elements `fs`.
pub open spec fn frames_prefix(fs: Seq<NodeModel>) -> Seq<char> {
    if fs.len() == 0 {
        seq![]
    } else {
        outer_prefix(fs.drop_last()) + frame_prefix(fs.last(), true)
    }
}

/// Everything the converter has written in state `m`.
pub open spec fn render(m: Model) -> Seq<char> {
    match m.root {
        Some(n) => json_node(n),
        None => frames_prefix(m.frames),
    }
}

/// `m` with `n` added as the last child of the innermost open element, or as
/// the root when no element is open.
pub open spec fn add_child(m: Model, n: NodeModel) -> Model {
    if m.frames.len() == 0 {
        Model { frames: m.frames, root: Some(n) }
    } else {
        let top = m.frames.last();
        Model {
            frames: m.frames.update(
                m.frames.len() - 1,
                NodeModel { children: top.children.push(n), ..top },
            ),
            root: m.root,
        }
    }
}

/// `m` with `t` appended to the text of the innermost open element.
pub open spec fn append_text(m: Model, t: Seq<char>) -> Model {
    let top = m.frames.last();
    Model {
        frames: m.frames.update(m.frames.len() - 1, NodeModel { text: top.text + t, ..top }),
        root: m.root,
    }
}

/// The text a reference `&name;` in character data stands for: as in an
/// attribute value, except that a malformed character reference is a
/// quick-xml error.
pub open spec fn ref_text(bytes: Seq<u8>) -> Result<Seq<char>, ErrorKind> {
    match decode_spec(bytes) {
        Err(e) => Err(e),
        Ok(name) => match resolve_ref_spec(name) {
            Ok(t) => Ok(t),
            Err(_) => Err(ErrorKind::QuickXml),
        },
    }
}

/// The state after event `ev`, or the error it raises. Character data and
/// references outside the root element, end tags with no element open and
/// other events change nothing; whitespace-only character data before any
/// other text of an element is skipped; the end of input is an error.
pub open spec fn step(m: Model, ev: EventV) -> Result<Model, ErrorKind> {
    match ev {
        EventV::Start(t) => match lower_tag(t) {
            Err(e) => Err(e),
            Ok((name, attrs)) => Ok(Model { frames: m.frames.push(leaf(name, attrs)), root: m.root }),
        },
        EventV::Empty(t) => match lower_tag(t) {
            Err(e) => Err(e),
            Ok((name, attrs)) => Ok(add_child(m, leaf(name, attrs))),
        },
        EventV::Text(b) => if m.frames.len() == 0 || (m.frames.last().text.len() == 0
            && all_ws_bytes(b)) {
            Ok(m)
        } else {
            match decode_spec(b) {
                Err(e) => Err(e),
                Ok(t) => Ok(append_text(m, t)),
            }
        },
        EventV::GeneralRef(b) => if m.frames.len() == 0 {
            Ok(m)
        } else {
            match ref_text(b) {
                Err(e) => Err(e),
                Ok(t) => Ok(append_text(m, t)),
            }
        },
        EventV::End => if m.frames.len() == 0 {
            Ok(m)
        } else {
            Ok(add_child(Model { frames: m.frames.drop_last(), root: m.root }, m.frames.last()))
        },
        EventV::Eof => Err(ErrorKind::InvalidXml),
        EventV::Other => Ok(m),
    }
}

/// The state after the events `evs`, stopping at the first error.
pub open spec fn run(m: Model, evs: Seq<EventV>) -> Result<Model, ErrorKind>
    decreases evs.len(),
{
    if evs.len() == 0 {
        Ok(m)
    } else {
        match run(m, evs.drop_last()) {
            Err(e) => Err(e),
            Ok(m1) => step(m1, evs.last()),
        }
    }
}

/// `out` is the JSON text of the root element that the events `evs` describe,
/// the last of them the one that closes it.
pub open spec fn converts_to(evs: Seq<EventV>, out: Seq<char>) -> bool {
    match run(initial_model(), evs) {
        Ok(Model { frames, root: Some(n) }) => frames.len() == 0 && out == json_node(n),
        _ => false,
    }
}

/// What closing the innermost element `f` writes: `]` when its array is
/// open, its text field, and `}}`.
pub open spec fn close_text(f: NodeModel) -> Seq<char> {
    (if f.children.len() > 0 {
        seq![']']
    } else {
        seq![]
    }) + text_field(f.attrs.len() == 0 && f.children.len() == 0, f.text) + seq!['}', '}']
}

/// What preparing the innermost element `f` for a child writes.
pub open spec fn begin_child_text(f: NodeModel) -> Seq<char> {
    if f.children.len() > 0 {
        sep(false)
    } else {
        children_open_text(f.attrs.len() == 0)
    }
}

/// Preparing the innermost element for a child extends the output to that of
/// the open elements, none of them the innermost.
pub proof fn lemma_begin_child(fs: Seq<NodeModel>)
    requires
        fs.len() > 0,
    ensures
        outer_prefix(fs) == frames_prefix(fs) + begin_child_text(fs.last()),
{
    lemma_open_child(fs.last());
    let a = outer_prefix(fs.drop_last());
    let b = frame_prefix(fs.last(), true);
    assert((a + b) + begin_child_text(fs.last()) =~= a + (b + begin_child_text(fs.last())));
}

/// After the open elements are prepared for a child, writing a complete
/// child element gives the output of the state with that child added.
pub proof fn lemma_write_child(m: Model, n: NodeModel)
    requires
        m.root is None,
    ensures
        render(add_child(m, n)) == outer_prefix(m.frames) + json_node(n),
{
    let fs = m.frames;
    if fs.len() == 0 {
        assert(outer_prefix(fs) + json_node(n) =~= json_node(n));
    } else {
        let top = fs.last();
        let after = add_child(m, n).frames;
        lemma_add_child(top, n);
        assert(after.drop_last() =~= fs.drop_last());
        assert(after.last() == NodeModel { children: top.children.push(n), ..top });
        let a = outer_prefix(fs.drop_last());
        assert(outer_prefix(fs) == a + frame_prefix(top, false));
        assert((a + frame_prefix(top, false)) + json_node(n) =~= a + (frame_prefix(top, false)
            + json_node(n)));
    }
}

/// Closing the innermost element gives the output of the state after its end
/// tag.
pub proof fn lemma_end(m: Model)
    requires
        m.root is None,
        m.frames.len() > 0,
    ensures
        render(add_child(Model { frames: m.frames.drop_last(), root: None }, m.frames.last()))
            == render(m) + close_text(m.frames.last()),
{
    let f = m.frames.last();
    let rest = Model { frames: m.frames.drop_last(), root: None };
    lemma_close(f);
    lemma_write_child(rest, f);
    let a = outer_prefix(m.frames.drop_last());
    let b = frame_prefix(f, true);
    assert((a + b) + close_text(f) =~= a + (b + close_text(f)));
}

/// Opening a new innermost element writes its start and attributes.
pub proof fn lemma_start(m: Model, n: NodeModel)
    requires
        m.root is None,
        n.children.len() == 0,
    ensures
        render(Model { frames: m.frames.push(n), root: None }) == outer_prefix(m.frames) + (
        tag_open(n.name) + attrs_text(true, n.attrs)),
{
    let fs = m.frames.push(n);
    assert(fs.drop_last() =~= m.frames);
    assert(frame_prefix(n, true) =~= tag_open(n.name) + attrs_text(true, n.attrs));
}

/// Text added to the innermost element is not written until it closes.
pub proof fn lemma_append_text(m: Model, t: Seq<char>)
    requires
        m.root is None,
        m.frames.len() > 0,
    ensures
        render(append_text(m, t)) == render(m),
{
    let after = append_text(m, t).frames;
    assert(after.drop_last() =~= m.frames.drop_last());
}

/// Opening the children array of the innermost element, or writing the comma
/// before its next child, turns its text into that of an outer element.
pub proof fn lemma_open_child(f: NodeModel)
    ensures
        frame_prefix(f, false) == frame_prefix(f, true) + if f.children.len() > 0 {
            sep(false)
        } else {
            children_open_text(f.attrs.len() == 0)
        },
{
    let head = tag_open(f.name) + attrs_text(true, f.attrs);
    if f.children.len() > 0 {
        assert(frame_prefix(f, false) == head + (children_open_text(f.attrs.len() == 0)
            + children_json(f.children) + sep(false)));
    } else {
        assert(children_json(f.children) == Seq::<char>::empty());
        assert(frame_prefix(f, false) =~= head + children_open_text(f.attrs.len() == 0));
        assert(frame_prefix(f, true) =~= head);
    }
}

/// Writing a child after the comma of an outer element makes the child part
/// of that element's array, the element the innermost again.
pub proof fn lemma_add_child(f: NodeModel, n: NodeModel)
    ensures
        frame_prefix(f, false) + json_node(n) == frame_prefix(
            NodeModel { children: f.children.push(n), ..f },
            true,
        ),
{
    let g = NodeModel { children: f.children.push(n), ..f };
    let head = tag_open(f.name) + attrs_text(true, f.attrs);
    assert(g.children.subrange(0, g.children.len() - 1) == f.children);
    assert(g.children[g.children.len() - 1] == n);
    assert(children_json(g.children) == children_json(f.children) + sep(f.children.len() == 0)
        + json_node(n));
    assert(frame_prefix(g, true) == head + (children_open_text(f.attrs.len() == 0)
        + children_json(g.children)));
    assert(frame_prefix(f, false) + json_node(n) =~= head + (children_open_text(
        f.attrs.len() == 0,
    ) + children_json(g.children)));
}

/// Closing the innermost element completes its JSON text.
pub proof fn lemma_close(f: NodeModel)
    ensures
        frame_prefix(f, true) + (if f.children.len() > 0 {
            seq![']']
        } else {
            seq![]
        }) + text_field(f.attrs.len() == 0 && f.children.len() == 0, f.text) + seq!['}', '}']
            == json_node(f),
{
    let head = tag_open(f.name) + attrs_text(true, f.attrs);
    if f.children.len() > 0 {
        assert(frame_prefix(f, true) + seq![']'] =~= head + (children_open_text(f.attrs.len() == 0)
            + children_json(f.children) + seq![']']));
    } else {
        assert(frame_prefix(f, true) + seq![] =~= head + seq![]);
    }
}

} // verus!
