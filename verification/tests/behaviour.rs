use quick_xml_to_json::{unescape_lenient, xml_to_json_from_slice, XmlToJsonError};

fn slice_json(xml: &str) -> String {
    xml_to_json_from_slice(xml.as_bytes()).unwrap()
}

#[test]
fn exact_text_of_an_element_with_every_kind_of_field() {
    assert_eq!(
        r##"{"a":{"@x":"1","@y":"2","#c":[{"b":{}},{"c":{"#t":"in"}}],"#t":"hi there"}}"##,
        slice_json(r#"<a x="1" y="2">hi <b/>there<c>in</c></a>"#)
    );
}

#[test]
fn exact_text_of_empty_elements() {
    assert_eq!(r#"{"a":{}}"#, slice_json("<a/>"));
    assert_eq!(r#"{"a":{}}"#, slice_json("<a></a>"));
    assert_eq!(r##"{"a":{"#c":[{"b":{}}]}}"##, slice_json("<a><b></b></a>"));
}

#[test]
fn json_reserved_characters_are_escaped() {
    assert_eq!(
        r##"{"a":{"#t":"q\"\\\u0001\n\tz"}}"##,
        slice_json(r#"<a>q"\&#1;&#10;&#9;z</a>"#)
    );
    assert_eq!(
        r##"{"a":{"@v":"x\"y","#t":"\b\r\f"}}"##,
        slice_json(r#"<a v="x&quot;y">&#8;&#13;&#12;</a>"#)
    );
}

#[test]
fn text_without_reserved_characters_is_copied_as_it_is() {
    assert_eq!(
        r##"{"a":{"#t":"héllo wörld ✓"}}"##,
        slice_json("<a>héllo wörld ✓</a>")
    );
}

#[test]
fn interior_whitespace_kept_edges_trimmed() {
    assert_eq!(
        r##"{"a":{"#t":"x \t y\r\nz"}}"##,
        slice_json("<a> \t x \t y\r\nz \n</a>")
    );
}

#[test]
fn whitespace_between_children_produces_no_text() {
    assert_eq!(
        r##"{"a":{"#c":[{"b":{}},{"c":{}}]}}"##,
        slice_json("<a>\n  <b/>\n  <c/>\n</a>")
    );
}

#[test]
fn references_agree_in_text_and_attribute_values() {
    assert_eq!(
        r##"{"a":{"@t":"B&uuml;<","#t":"B&uuml;<"}}"##,
        slice_json(r#"<a t="&#66;&uuml;&lt;">&#66;&uuml;&lt;</a>"#)
    );
}

#[test]
fn document_of_a_tree_converts_to_its_json() {
    let xml = r#"<r k="&lt;v&gt;"> text <c a="1"/><d>more</d>tail</r>"#;
    assert_eq!(
        r##"{"r":{"@k":"<v>","#c":[{"c":{"@a":"1"}},{"d":{"#t":"more"}}],"#t":"text tail"}}"##,
        slice_json(xml)
    );
}

#[test]
fn content_after_the_root_is_not_read() {
    assert_eq!(r#"{"a":{}}"#, slice_json("<a/><b/>"));
    assert_eq!(r#"{"a":{}}"#, slice_json("<a></a>garbage"));
}

#[test]
fn comments_cdata_and_declarations_are_skipped() {
    assert_eq!(
        r##"{"a":{"#t":"xy"}}"##,
        slice_json("<?xml version=\"1.0\"?><!-- c --><a>x<!-- c --><![CDATA[ignored]]>y</a>")
    );
}

#[test]
fn each_error_kind_has_an_input() {
    assert!(matches!(
        xml_to_json_from_slice(b"<a>\xff</a>"),
        Err(XmlToJsonError::QuickXml(_))
    ));
    assert!(matches!(
        xml_to_json_from_slice(b"<a>&#xZZ;</a>"),
        Err(XmlToJsonError::QuickXml(_))
    ));
    assert!(matches!(
        xml_to_json_from_slice(b"<a b></a>"),
        Err(XmlToJsonError::QuickXmlAttribute(_))
    ));
    assert!(matches!(
        xml_to_json_from_slice(b"<a><b>"),
        Err(XmlToJsonError::InvalidXML)
    ));
    assert!(matches!(
        xml_to_json_from_slice(b""),
        Err(XmlToJsonError::InvalidXML)
    ));
    match xml_to_json_from_slice(br#"<a t="&#xZZ;"/>"#) {
        Err(XmlToJsonError::InvalidCharRef(name)) => assert_eq!("#xZZ", name),
        other => panic!("expected an invalid character reference, got {other:?}"),
    }
    match xml_to_json_from_slice(br#"<a><b t="x&#0;"/></a>"#) {
        Err(XmlToJsonError::InvalidCharRef(name)) => assert_eq!("#0", name),
        other => panic!("expected an invalid character reference, got {other:?}"),
    }
}

#[test]
fn unescape_keeps_text_around_references() {
    assert_eq!("pre<mid>post", unescape_lenient("pre&lt;mid&gt;post").unwrap());
    assert_eq!("&", unescape_lenient("&amp;").unwrap());
    assert_eq!("&amp;", unescape_lenient("&amp;amp;").unwrap());
}

#[test]
fn written_string_literals_read_back_as_the_text() {
    let text = "tab\there \"quoted\" back\\slash \u{1}\u{1f} é ✓";
    let xml = format!(
        "<a v=\"{}\"/>",
        "tab&#9;here &quot;quoted&quot; back\\slash &#1;&#31; é ✓"
    );
    let out: serde_json::Value = serde_json::from_str(&slice_json(&xml)).unwrap();
    assert_eq!(text, out["a"]["@v"].as_str().unwrap());
}

#[test]
fn many_children_are_separated_by_single_commas() {
    assert_eq!(
        r##"{"a":{"@k":"v","#c":[{"b":{}},{"c":{}},{"d":{}},{"e":{}}]}}"##,
        slice_json(r#"<a k="v"><b/><c/><d/><e/></a>"#)
    );
}
