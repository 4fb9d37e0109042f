use quick_xml_to_json::unescape_lenient;
use quick_xml_to_json::XmlToJsonError;
use std::borrow::Cow;

#[test]
fn borrows_when_no_ampersand() {
    let result = unescape_lenient("plain value").unwrap();
    assert!(
        matches!(result, Cow::Borrowed("plain value")),
        "expected borrowed passthrough, got {result:?}"
    );
}

#[test]
fn resolves_predefined_and_char_refs() {
    assert_eq!("a&b", unescape_lenient("a&amp;b").unwrap());
    assert_eq!("5 < 6 > 4", unescape_lenient("5 &lt; 6 &gt; 4").unwrap());
    assert_eq!(
        "\"q\" 's'",
        unescape_lenient("&quot;q&quot; &apos;s&apos;").unwrap()
    );
    assert_eq!("ABC", unescape_lenient("A&#66;C").unwrap());
    assert_eq!("AbC", unescape_lenient("A&#x62;C").unwrap());
}

#[test]
fn passes_through_unknown_entities_and_bare_ampersands() {
    assert_eq!("x &uuml; y", unescape_lenient("x &uuml; y").unwrap());
    assert_eq!("q?x=1&y=2", unescape_lenient("q?x=1&y=2").unwrap());
    assert_eq!("a & b; c", unescape_lenient("a & b; c").unwrap());
    assert_eq!("&;x", unescape_lenient("&;x").unwrap());
    assert_eq!("tail&", unescape_lenient("tail&").unwrap());
}

#[test]
fn errors_on_malformed_char_refs() {
    assert!(
        unescape_lenient("&#xZZ;").is_err(),
        "hex garbage should error"
    );
    assert!(
        unescape_lenient("&#;").is_err(),
        "empty char ref should error"
    );
    assert!(
        unescape_lenient("&#0;").is_err(),
        "NUL is never a valid XML char"
    );
    assert!(
        unescape_lenient("&#xD800;").is_err(),
        "surrogates are not chars"
    );
    assert!(
        unescape_lenient("&#+65;").is_err(),
        "signs are not part of the XML char ref grammar"
    );
    assert!(
        unescape_lenient("&#x+41;").is_err(),
        "signs are not part of the XML char ref grammar"
    );
}

fn invalid_ref_name(raw: &str) -> String {
    match unescape_lenient(raw) {
        Err(XmlToJsonError::InvalidCharRef(name)) => name,
        other => panic!("expected an invalid character reference, got {other:?}"),
    }
}

#[test]
fn error_names_the_first_malformed_reference() {
    assert_eq!("#xZZ", invalid_ref_name("ok &amp; &#xZZ; then &#0;"));
    assert_eq!("#0", invalid_ref_name("&#0;&#xZZ;"));
    assert_eq!("#-5", invalid_ref_name("a&#-5;b"));
}

#[test]
fn owned_result_when_value_holds_an_ampersand() {
    let result = unescape_lenient("x &uuml; y").unwrap();
    assert!(matches!(result, Cow::Owned(_)));
}

#[test]
fn escaped_text_resolves_back_to_itself() {
    let text = "if a < b && c > \"d\" then 'e'";
    let escaped = "if a &lt; b &amp;&amp; c &gt; &quot;d&quot; then &apos;e&apos;";
    assert_eq!(text, unescape_lenient(escaped).unwrap());
}

#[test]
fn reference_resolves_whatever_surrounds_it() {
    assert_eq!("<", unescape_lenient("&lt;").unwrap());
    assert_eq!("x<y", unescape_lenient("x&lt;y").unwrap());
    assert_eq!("x<&y", unescape_lenient("x&lt;&y").unwrap());
}

#[test]
fn numeric_references_in_both_radixes() {
    assert_eq!("A", unescape_lenient("&#65;").unwrap());
    assert_eq!("A", unescape_lenient("&#x41;").unwrap());
    assert_eq!("J", unescape_lenient("&#x4A;").unwrap());
    assert_eq!("J", unescape_lenient("&#x4a;").unwrap());
    assert_eq!("\u{FFFD}", unescape_lenient("&#xFFFD;").unwrap());
    assert_eq!("\u{1F600}", unescape_lenient("&#x1F600;").unwrap());
    assert_eq!("\u{10FFFF}", unescape_lenient("&#1114111;").unwrap());
    assert!(unescape_lenient("&#1114112;").is_err());
    assert!(unescape_lenient("&#x;").is_err());
    assert!(unescape_lenient("&#99999999999;").is_err());
    assert!(unescape_lenient("&#X41;").is_err());
}
