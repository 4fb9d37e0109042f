use quick_xml::events::{BytesStart, Event};
use quick_xml::Reader;
use quick_xml_to_json::events::{RawAttr, RawEvent, RawTag};
use quick_xml_to_json::{xml_to_json_from_slice, Converter, Flow, XmlToJsonError};
use std::io::BufReader;

fn raw_tag(e: &BytesStart<'_>) -> RawTag {
    let name = e.name().as_ref().to_vec();
    let mut attrs = Vec::new();
    for attr in e.attributes().with_checks(false) {
        match attr {
            Ok(a) => attrs.push(RawAttr {
                key: a.key.as_ref().to_vec(),
                value: a.value.into_owned(),
            }),
            Err(err) => {
                return RawTag {
                    name,
                    attrs,
                    attr_error: Some(err),
                }
            }
        }
    }
    RawTag {
        name,
        attrs,
        attr_error: None,
    }
}

fn raw_event(ev: Event<'_>) -> RawEvent {
    match ev {
        Event::Start(e) => RawEvent::Start(raw_tag(&e)),
        Event::Empty(e) => RawEvent::Empty(raw_tag(&e)),
        Event::Text(t) => RawEvent::Text(t.into_inner().into_owned()),
        Event::GeneralRef(r) => RawEvent::GeneralRef(r.into_inner().into_owned()),
        Event::End(_) => RawEvent::End,
        Event::Eof => RawEvent::Eof,
        _ => RawEvent::Other,
    }
}

/// Convert through a buffered reader, feeding the converter one event at a
/// time and collecting its output as it goes.
fn convert_buffered(input: &[u8]) -> Result<String, XmlToJsonError> {
    let mut xml = Reader::from_reader(BufReader::new(input));
    let mut buf = Vec::new();
    let mut conv = Converter::new();
    let mut out = String::new();
    loop {
        buf.clear();
        let ev = match xml.read_event_into(&mut buf) {
            Ok(ev) => ev,
            Err(e) => return Err(XmlToJsonError::QuickXml(e)),
        };
        let flow = conv.feed(&xml, raw_event(ev))?;
        out.push_str(&conv.take_output());
        if let Flow::Done = flow {
            return Ok(out);
        }
    }
}

fn convert_xml_to_json(xml: &str) -> serde_json::Value {
    let output = convert_buffered(xml.as_bytes()).unwrap();

    let slice_output = xml_to_json_from_slice(xml.as_bytes()).unwrap();
    assert_eq!(
        output, slice_output,
        "slice and bufread APIs must produce identical output"
    );

    serde_json::from_str(&output).unwrap()
}

fn json(text: &str) -> serde_json::Value {
    serde_json::from_str(text).unwrap()
}

fn converts_with_error(xml: &[u8]) -> bool {
    convert_buffered(xml).is_err() && xml_to_json_from_slice(xml).is_err()
}

#[test]
fn test_nested_structure() {
    let xml = r#"
            <root>
                <child1 attr1="value1">
                    <subchild>Text 1</subchild>
                    <subchild>Text 2</subchild>
                    <subchild>Text 3</subchild>
                </child1>
                <child2 attr2="value2" />
                <child1 attr2="value2" attr3="value3" attr1="value1">
                    <subchild>Text 2</subchild>
                    <subchild>Text 1</subchild>
                    <subchild>Text 3</subchild>
                </child1>
            </root>
        "#;

    let expected_json = json(
        r##"{
            "root": {
                "#c": [
                    {
                        "child1": {
                            "@attr1": "value1",
                            "#c": [
                                { "subchild": { "#t": "Text 1" } },
                                { "subchild": { "#t": "Text 2" } },
                                { "subchild": { "#t": "Text 3" } }
                            ]
                        }
                    },
                    {
                        "child2": {
                            "@attr2": "value2"
                        }
                    },
                    {
                        "child1": {
                            "@attr3": "value3",
                            "@attr2": "value2",
                            "@attr1": "value1",
                            "#c": [
                                { "subchild": { "#t": "Text 2" } },
                                { "subchild": { "#t": "Text 1" } },
                                { "subchild": { "#t": "Text 3" } }
                            ]
                        }
                    }
                ]
            }
        }"##,
    );

    assert_eq!(expected_json, convert_xml_to_json(xml));
}

#[test]
fn test_basic_xml_to_json() {
    let xml = r#"<users count="3">
  <user age="40">Jane Doe</user>
  <user age="42">John Doe</user>
  <user age="12">Jim Doe</user>
</users>"#;

    let expected_json = json(
        r##"{
            "users": {
                "@count": "3",
                "#c": [
                    { "user": { "@age": "40", "#t": "Jane Doe" } },
                    { "user": { "@age": "42", "#t": "John Doe" } },
                    { "user": { "@age": "12", "#t": "Jim Doe" } }
                ]
            }
        }"##,
    );

    assert_eq!(expected_json, convert_xml_to_json(xml));
}

#[test]
fn test_single_element_with_text() {
    let xml = "<name>John Doe</name>";
    let expected_json = json(r##"{ "name": { "#t": "John Doe" } }"##);

    assert_eq!(expected_json, convert_xml_to_json(xml));
}

#[test]
fn test_element_with_attributes_only() {
    let xml = r#"<div class="container" id="main"></div>"#;
    let expected_json = json(r##"{ "div": { "@class": "container", "@id": "main" } }"##);

    assert_eq!(expected_json, convert_xml_to_json(xml));
}

#[test]
fn test_nested_elements() {
    let xml = r#"<root><parent id="1"><child>Value</child></parent></root>"#;
    let expected_json = json(
        r##"{
            "root": {
                "#c": [
                    {
                        "parent": {
                            "@id": "1",
                            "#c": [
                                { "child": { "#t": "Value" } }
                            ]
                        }
                    }
                ]
            }
        }"##,
    );

    assert_eq!(expected_json, convert_xml_to_json(xml));
}

#[test]
fn test_mixed_content_trailing_text_is_kept_and_does_not_leak() {
    let xml = "<r><a>pre <b/>post</a><c>text</c></r>";
    let expected_json = json(
        r##"{
            "r": {
                "#c": [
                    {
                        "a": {
                            "#c": [ { "b": {} } ],
                            "#t": "pre post"
                        }
                    },
                    {
                        "c": { "#t": "text" }
                    }
                ]
            }
        }"##,
    );

    assert_eq!(expected_json, convert_xml_to_json(xml));
}

#[test]
fn test_text_after_children_only() {
    let xml = "<a><b/>tail</a>";
    let expected_json = json(r##"{ "a": { "#c": [ { "b": {} } ], "#t": "tail" } }"##);

    assert_eq!(expected_json, convert_xml_to_json(xml));
}

#[test]
fn test_predefined_entities_in_text() {
    let xml = "<a>x &amp; y &lt;tag&gt; &quot;q&quot; &apos;s&apos;</a>";
    let expected_json = json(r##"{ "a": { "#t": "x & y <tag> \"q\" 's'" } }"##);

    assert_eq!(expected_json, convert_xml_to_json(xml));
}

#[test]
fn test_entities_do_not_introduce_spaces() {
    let xml = "<a>a&amp;b</a>";
    let expected_json = json(r##"{ "a": { "#t": "a&b" } }"##);

    assert_eq!(expected_json, convert_xml_to_json(xml));
}

#[test]
fn test_numeric_char_refs_in_text() {
    let xml = "<a>&#72;&#x65;y</a>";
    let expected_json = json(r##"{ "a": { "#t": "Hey" } }"##);

    assert_eq!(expected_json, convert_xml_to_json(xml));
}

#[test]
fn test_char_ref_producing_json_escapable_char() {
    let xml = "<a>x&#10;y</a>";
    let expected_json = json(r##"{ "a": { "#t": "x\ny" } }"##);

    assert_eq!(expected_json, convert_xml_to_json(xml));
}

#[test]
fn test_unknown_named_entity_passes_through_in_text() {
    let xml = "<a>x &uuml; y</a>";
    let expected_json = json(r##"{ "a": { "#t": "x &uuml; y" } }"##);

    assert_eq!(expected_json, convert_xml_to_json(xml));
}

#[test]
fn test_invalid_char_ref_in_text_errors() {
    assert!(converts_with_error(b"<a>&#xZZ;</a>"));
    assert!(converts_with_error(b"<a>&#+65;</a>"));
}

#[test]
fn test_entities_in_attribute_values() {
    let xml = r#"<a m="5 &lt; 6" q="&quot;q&quot;" n="A&#66;C" u="x &uuml; y"/>"#;
    let expected_json = json(
        r##"{
            "a": {
                "@m": "5 < 6",
                "@q": "\"q\"",
                "@n": "ABC",
                "@u": "x &uuml; y"
            }
        }"##,
    );

    assert_eq!(expected_json, convert_xml_to_json(xml));
}

#[test]
fn test_invalid_char_ref_in_attribute_errors() {
    assert!(converts_with_error(br#"<a t="&#xZZ;"/>"#));
    assert!(converts_with_error(br#"<a t="&#+65;"/>"#));
}

#[test]
fn test_bare_ampersand_in_attribute_passes_through() {
    let xml = r#"<a href="q?x=1&y=2"/>"#;
    let expected_json = json(r##"{ "a": { "@href": "q?x=1&y=2" } }"##);

    assert_eq!(expected_json, convert_xml_to_json(xml));
}

#[test]
fn test_interior_whitespace_preserved_in_text() {
    let xml = "<a>line1\nline2</a>";
    let expected_json = json(r##"{ "a": { "#t": "line1\nline2" } }"##);

    assert_eq!(expected_json, convert_xml_to_json(xml));
}

#[test]
fn test_edge_whitespace_trimmed_from_text() {
    let xml = "<a>\n  padded  \n</a>";
    let expected_json = json(r##"{ "a": { "#t": "padded" } }"##);

    assert_eq!(expected_json, convert_xml_to_json(xml));
}

#[test]
fn test_whitespace_only_text_produces_no_text_node() {
    let xml = "<a>   </a>";
    let expected_json = json(r##"{ "a": {} }"##);

    assert_eq!(expected_json, convert_xml_to_json(xml));
}

#[test]
fn test_empty_xml() {
    assert!(convert_buffered(b"").is_err());
}

#[test]
fn test_malformed_xml() {
    assert!(convert_buffered(b"<root><unclosed>").is_err());
    assert!(xml_to_json_from_slice(b"<root><unclosed>").is_err());
    assert!(xml_to_json_from_slice(b"").is_err());
}

#[test]
fn test_empty_nodes() {
    let xml = "<main><br /></main>";
    let expected_json = json(r##"{ "main": { "#c": [ { "br": {} } ] } }"##);

    assert_eq!(expected_json, convert_xml_to_json(xml));
}

#[test]
fn test_empty_node_at_root() {
    let xml = "<br />";
    let expected_json = json(r##"{ "br": {} }"##);

    assert_eq!(expected_json, convert_xml_to_json(xml));
}

#[test]
fn test_empty_node_at_root_with_attributes() {
    let xml = r#"<br id="5" />"#;
    let expected_json = json(r##"{ "br": { "@id": "5" } }"##);

    assert_eq!(expected_json, convert_xml_to_json(xml));
}

#[test]
fn converter_output_only_grows_and_is_taken_in_pieces() {
    let input = b"<r a=\"1\"><x>t</x><y/>z</r>";
    let mut xml = Reader::from_reader(&input[..]);
    let mut conv = Converter::new();
    let mut pieces: Vec<String> = Vec::new();
    let mut steps = 0;
    loop {
        let ev = xml.read_event().unwrap();
        let flow = conv.feed(&xml, raw_event(ev)).unwrap();
        pieces.push(conv.take_output());
        steps += 1;
        if let Flow::Done = flow {
            break;
        }
        assert!(steps < 100);
    }
    let joined: String = pieces.concat();
    assert_eq!(
        r##"{"r":{"@a":"1","#c":[{"x":{"#t":"t"}},{"y":{}}],"#t":"z"}}"##,
        joined
    );
    assert_eq!(r#"{"r":{"@a":"1""#, pieces[0]);
    assert_eq!(String::new(), conv.take_output());
}

#[test]
fn converter_reports_the_end_of_input() {
    let mut xml = Reader::from_reader(&b"<r>"[..]);
    let mut conv = Converter::new();
    let first = xml.read_event().unwrap();
    assert!(matches!(conv.feed(&xml, raw_event(first)), Ok(Flow::Continue)));
    let eof = xml.read_event().unwrap();
    assert!(matches!(
        conv.feed(&xml, raw_event(eof)),
        Err(XmlToJsonError::InvalidXML)
    ));
}

#[test]
fn converter_reads_plain_events_built_by_hand() {
    let xml = Reader::from_reader(&b""[..]);
    let mut conv = Converter::new();
    let tag = RawTag {
        name: b"a".to_vec(),
        attrs: vec![RawAttr {
            key: b"k".to_vec(),
            value: b"x&amp;y".to_vec(),
        }],
        attr_error: None,
    };
    assert!(matches!(conv.feed(&xml, RawEvent::Start(tag)), Ok(Flow::Continue)));
    assert!(matches!(
        conv.feed(&xml, RawEvent::Text(b" hi ".to_vec())),
        Ok(Flow::Continue)
    ));
    assert!(matches!(conv.feed(&xml, RawEvent::End), Ok(Flow::Done)));
    assert_eq!(r##"{"a":{"@k":"x&y","#t":"hi"}}"##, conv.take_output());
}
