# quick_xml_to_json

Streaming XML to JSON conversion on top of quick-xml, verified with Verus.

Attributes become `"@name"` fields, an element's character data becomes one
`"#t"` field (trimmed of leading and trailing whitespace, references
resolved), and child elements go, in order, into a `"#c"` array.

## Layout

- `src/model.rs`: the document that a stream of events describes
  (`step`, `run`), the JSON text of an element (`json_node`) and what has
  been written while elements are still open (`render`).
- `src/convert.rs`: `Converter`, the state machine that reads one event at a
  time and writes exactly `render` of the model; `xml_to_json_from_slice`.
- `src/frames/`: the output frames of open elements and the writing of
  attributes and JSON string literals.
- `src/decoders.rs`, `src/text.rs`: decoding and the lenient resolution of
  references in attribute values (`unescape_lenient` against `unescape_spec`).
- `src/laws.rs`, `src/replay.rs`: properties of the library as a whole,
  proved: how references resolve in any context and in both radixes, what
  trimming keeps, that text and attribute references agree, and that a
  document whose events are those in which an element tree is written
  converts to that tree's JSON, that reading a document agrees with feeding
  a converter the same events, that nothing after the root element is read,
  and that an element's frame writes its element's JSON under any
  interleaving of text and children. `src/json.rs` proves that the string
  literals written read back as their text.
- `src/bindings.rs`: the trusted declarations and wrappers through which the
  library calls quick-xml, serde_json and std.
- `app/`: readers and writers around the converter.
