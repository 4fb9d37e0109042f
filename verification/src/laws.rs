//! What holds of the library as a whole: how references resolve wherever
//! they stand, what trimming keeps, how text and attribute values agree, and
//! what an element's frame writes whatever happens inside it.

use crate::decoders::prepend;
use crate::errors::ErrorKind;
use crate::frames::element::{
    begin_child_step, children_open_text, text_field, ElementView,
};
use crate::events::{lower_attrs, lower_tag, EventV, TagV};
use crate::json::{attr_field, attrs_text, json_string, sep, tag_open};
use crate::model::{
    add_child, children_json, frame_prefix, json_node, leaf, lemma_add_child, lemma_close,
    lemma_open_child, ref_text, run, step, Model, NodeModel,
};
use crate::text::{
    char_ref_spec, digit_value, digits_value, find_char, is_xml_ws, lemma_find_char,
    lemma_find_char_at, predefined_entity, resolve_part, resolve_ref_spec, trim_end_ws,
    trim_start_ws, trim_ws, unescape_parts, unescape_spec, unsigned_spec,
};
use vstd::prelude::*;
use vstd::utf8::encode_utf8;

verus! {

/// Text with no `&` in front of a value passes through unchanged, and the
/// rest of the value resolves as it would on its own.
pub proof fn law_unescape_plain_prefix(a: Seq<char>, b: Seq<char>)
    requires
        !a.contains('&'),
    ensures
        unescape_spec(a + b) == prepend(a, unescape_spec(b)),
{
    let s = a + b;
    lemma_find_char(b, '&');
    let fb = find_char(b, '&');
    assert forall|i: int| 0 <= i < a.len() + fb implies s[i] != '&' by {
        if i < a.len() {
            assert(s[i] == a[i]);
        } else {
            assert(s[i] == b[i - a.len()]);
        }
    }
    if fb < b.len() {
        assert(s[a.len() + fb] == b[fb]);
    }
    lemma_find_char_at(s, '&', a.len() + fb);
    if fb < b.len() {
        assert(s.take(a.len() + fb) == a + b.take(fb));
        assert(s.skip(a.len() + fb + 1) == b.skip(fb + 1));
        match unescape_parts(b.skip(fb + 1)) {
            Ok(r) => {
                assert(a + b.take(fb) + r == a + (b.take(fb) + r));
            },
            Err(_) => {},
        }
    }
}

/// A reference `&name;` resolves on its own, whatever follows it: the value
/// it starts is what the reference stands for, then the rest resolved.
pub proof fn law_unescape_reference(name: Seq<char>, b: Seq<char>)
    requires
        !name.contains('&'),
        !name.contains(';'),
    ensures
        unescape_spec(seq!['&'] + name + seq![';'] + b) == match resolve_ref_spec(name) {
            Ok(v) => prepend(v, unescape_spec(b)),
            Err(e) => Err(e),
        },
{
    let raw = seq!['&'] + name + seq![';'] + b;
    lemma_find_char_at(raw, '&', 0);
    let s = raw.skip(1);
    assert(s == name + seq![';'] + b);
    lemma_find_char(b, '&');
    let fb = find_char(b, '&');
    let j = name.len() + 1 + fb;
    assert forall|i: int| 0 <= i < j implies s[i] != '&' by {
        if i < name.len() {
            assert(s[i] == name[i]);
        } else if i == name.len() {
            assert(s[i] == ';');
        } else {
            assert(s[i] == b[i - name.len() - 1]);
        }
    }
    if fb < b.len() {
        assert(s[j] == b[fb]);
    }
    lemma_find_char_at(s, '&', j);
    let part = s.take(j);
    assert(part == name + seq![';'] + b.take(fb));
    assert forall|i: int| 0 <= i < name.len() implies part[i] != ';' by {
        assert(part[i] == name[i]);
    }
    lemma_find_char_at(part, ';', name.len() as int);
    assert(part.take(name.len() as int) == name);
    assert(part.skip(name.len() as int + 1) == b.take(fb));
    assert(raw.take(0) == Seq::<char>::empty());
    match resolve_ref_spec(name) {
        Ok(v) => {
            if fb < b.len() {
                assert(s.skip(j + 1) == b.skip(fb + 1));
                match unescape_parts(b.skip(fb + 1)) {
                    Ok(r) => {
                        assert(Seq::<char>::empty() + (v + b.take(fb) + r) == v + (b.take(fb)
                            + r));
                    },
                    Err(_) => {},
                }
            } else {
                assert(b.take(fb) == b);
                assert(Seq::<char>::empty() + (v + b) == v + b);
            }
        },
        Err(_) => {},
    }
}

/// The name of the predefined entity that stands for `c`, if `c` is one of
/// the five characters XML reserves.
pub open spec fn entity_name(c: char) -> Option<Seq<char>> {
    if c == '<' {
        Some(seq!['l', 't'])
    } else if c == '>' {
        Some(seq!['g', 't'])
    } else if c == '&' {
        Some(seq!['a', 'm', 'p'])
    } else if c == '\'' {
        Some(seq!['a', 'p', 'o', 's'])
    } else if c == '"' {
        Some(seq!['q', 'u', 'o', 't'])
    } else {
        None
    }
}

/// `s` with each reserved character written as its predefined entity.
pub open spec fn escape_predefined(s: Seq<char>) -> Seq<char>
    decreases s.len(),
{
    if s.len() == 0 {
        seq![]
    } else {
        (match entity_name(s[0]) {
            Some(n) => seq!['&'] + n + seq![';'],
            None => seq![s[0]],
        }) + escape_predefined(s.drop_first())
    }
}

/// Text whose reserved characters are written as predefined entities
/// resolves back to the text itself.
pub proof fn law_unescape_predefined_roundtrip(s: Seq<char>)
    ensures
        unescape_spec(escape_predefined(s)) == Ok::<Seq<char>, Seq<char>>(s),
    decreases s.len(),
{
    if s.len() == 0 {
        assert(escape_predefined(s) =~= s);
        assert(find_char(s, '&') == 0);
    } else {
        let c = s[0];
        let rest = s.drop_first();
        law_unescape_predefined_roundtrip(rest);
        let tail = escape_predefined(rest);
        match entity_name(c) {
            Some(n) => {
                assert(!n.contains('&') && !n.contains(';')) by {
                    if n.contains('&') {
                        let i = choose|i: int| 0 <= i < n.len() && n[i] == '&';
                    }
                    if n.contains(';') {
                        let i = choose|i: int| 0 <= i < n.len() && n[i] == ';';
                    }
                }
                assert(resolve_ref_spec(n) == Ok::<Seq<char>, Seq<char>>(seq![c]));
                law_unescape_reference(n, tail);
                assert(escape_predefined(s) == seq!['&'] + n + seq![';'] + tail);
                assert(seq![c] + rest == s);
                assert(unescape_spec(escape_predefined(s)) == prepend(
                    seq![c],
                    Ok::<Seq<char>, Seq<char>>(rest),
                ));
            },
            None => {
                assert(!seq![c].contains('&')) by {
                    if seq![c].contains('&') {
                        let i = choose|i: int| 0 <= i < 1 && seq![c][i] == '&';
                    }
                }
                law_unescape_plain_prefix(seq![c], tail);
                assert(escape_predefined(s) == seq![c] + tail);
                assert(seq![c] + rest == s);
            },
        }
    }
}

/// `name` followed by `;` stands in `s` at `i`, right after an `&` or at the
/// start of `s`.
pub open spec fn ref_in_parts(s: Seq<char>, name: Seq<char>, i: int) -> bool {
    &&& 0 <= i
    &&& i + name.len() + 1 <= s.len()
    &&& (i == 0 || s[i - 1] == '&')
    &&& s.subrange(i, i + name.len() + 1) == name + seq![';']
}

/// The reference `&name;` is written in `raw` at `i`.
pub open spec fn ref_at(raw: Seq<char>, name: Seq<char>, i: int) -> bool {
    &&& 0 <= i
    &&& i + name.len() + 2 <= raw.len()
    &&& raw.subrange(i, i + name.len() + 2) == seq!['&'] + name + seq![';']
}

proof fn lemma_parts_error(s: Seq<char>)
    ensures
        unescape_parts(s) is Err ==> {
            let name = unescape_parts(s)->Err_0;
            &&& resolve_ref_spec(name) is Err
            &&& exists|i: int| #[trigger] ref_in_parts(s, name, i)
        },
    decreases s.len(),
{
    lemma_find_char(s, '&');
    let j = find_char(s, '&');
    let part = s.take(j);
    lemma_find_char(part, ';');
    let k = find_char(part, ';');
    match resolve_part(part) {
        Err(e) => {
            assert(k < part.len());
            assert(e == part.take(k));
            assert(s.subrange(0, k + 1) == part.take(k) + seq![';']);
            assert(ref_in_parts(s, e, 0));
        },
        Ok(_) => {
            if j < s.len() {
                let t = s.skip(j + 1);
                lemma_parts_error(t);
                if unescape_parts(t) is Err {
                    let name = unescape_parts(t)->Err_0;
                    let i = choose|i: int| #[trigger] ref_in_parts(t, name, i);
                    let w = j + 1 + i;
                    assert(s.subrange(w, w + name.len() + 1) == t.subrange(i, i + name.len() + 1));
                    if i > 0 {
                        assert(s[w - 1] == t[i - 1]);
                    }
                    assert(ref_in_parts(s, name, w));
                }
            }
        },
    }
}

/// Resolving a value fails only on a malformed character reference, which
/// the error names and which is written in the value.
pub proof fn law_unescape_error_names_reference(raw: Seq<char>)
    ensures
        unescape_spec(raw) is Err ==> {
            let name = unescape_spec(raw)->Err_0;
            &&& name.len() > 0
            &&& name[0] == '#'
            &&& char_ref_spec(name.drop_first()) is None
            &&& exists|i: int| #[trigger] ref_at(raw, name, i)
        },
{
    lemma_find_char(raw, '&');
    let i0 = find_char(raw, '&');
    if i0 < raw.len() {
        let t = raw.skip(i0 + 1);
        lemma_parts_error(t);
        if unescape_parts(t) is Err {
            let name = unescape_parts(t)->Err_0;
            let i = choose|i: int| #[trigger] ref_in_parts(t, name, i);
            let w = i0 + i;
            assert(raw.subrange(w + 1, w + name.len() + 2) == t.subrange(i, i + name.len() + 1));
            if i > 0 {
                assert(raw[w] == t[i - 1]);
            }
            assert(raw[w] == '&');
            assert(raw.subrange(w, w + name.len() + 2) =~= seq![raw[w]] + raw.subrange(
                w + 1,
                w + name.len() + 2,
            ));
            assert(raw.subrange(w, w + name.len() + 2) =~= seq!['&'] + name + seq![';']);
            assert(ref_at(raw, name, w));
        }
    }
}

/// A reference in character data resolves to the same text as the same
/// reference in an attribute value, and is malformed in both or in neither.
pub proof fn law_text_and_attribute_refs_agree(name: Seq<char>)
    requires
        !name.contains('&'),
        !name.contains(';'),
    ensures
        match unescape_spec(seq!['&'] + name + seq![';']) {
            Ok(t) => ref_text(encode_utf8(name)) == Ok::<Seq<char>, ErrorKind>(t),
            Err(_) => ref_text(encode_utf8(name)) == Err::<Seq<char>, ErrorKind>(
                ErrorKind::QuickXml,
            ),
        },
{
    broadcast use vstd::utf8::encode_utf8_valid_utf8, vstd::utf8::encode_utf8_decode_utf8;

    let empty = Seq::<char>::empty();
    law_unescape_reference(name, empty);
    assert(seq!['&'] + name + seq![';'] + empty == seq!['&'] + name + seq![';']);
    assert(unescape_spec(empty) == Ok::<Seq<char>, Seq<char>>(empty)) by {
        assert(find_char(empty, '&') == 0);
    }
    match resolve_ref_spec(name) {
        Ok(v) => {
            assert(v + empty == v);
        },
        Err(_) => {},
    }
}

/// How far the leading whitespace of `s` reaches.
proof fn lemma_trim_start(s: Seq<char>) -> (p: int)
    ensures
        0 <= p <= s.len(),
        trim_start_ws(s) == s.skip(p),
        forall|k: int| 0 <= k < p ==> is_xml_ws(#[trigger] s[k]),
        p < s.len() ==> !is_xml_ws(s[p]),
    decreases s.len(),
{
    if s.len() > 0 && is_xml_ws(s[0]) {
        let t = s.drop_first();
        let q = lemma_trim_start(t);
        assert(t.skip(q) == s.skip(q + 1));
        assert forall|k: int| 0 <= k < q + 1 implies is_xml_ws(#[trigger] s[k]) by {
            if k > 0 {
                assert(s[k] == t[k - 1]);
            }
        }
        if q + 1 < s.len() {
            assert(s[q + 1] == t[q]);
        }
        q + 1
    } else {
        assert(s.skip(0) == s);
        0
    }
}

/// Where the trailing whitespace of `s` starts.
proof fn lemma_trim_end(s: Seq<char>) -> (q: int)
    ensures
        0 <= q <= s.len(),
        trim_end_ws(s) == s.take(q),
        forall|k: int| q <= k < s.len() ==> is_xml_ws(#[trigger] s[k]),
        q > 0 ==> !is_xml_ws(s[q - 1]),
    decreases s.len(),
{
    if s.len() > 0 && is_xml_ws(s.last()) {
        let t = s.drop_last();
        let q = lemma_trim_end(t);
        assert(t.take(q) == s.take(q));
        assert forall|k: int| q <= k < s.len() implies is_xml_ws(#[trigger] s[k]) by {
            if k < s.len() - 1 {
                assert(s[k] == t[k]);
            }
        }
        if q > 0 {
            assert(s[q - 1] == t[q - 1]);
        }
        q
    } else {
        assert(s.take(s.len() as int) == s);
        s.len() as int
    }
}

/// Trimming `s` keeps `s[i..j]`: what it drops is whitespace, and what it
/// keeps neither starts nor ends with whitespace.
pub open spec fn trims_to(s: Seq<char>, i: int, j: int) -> bool {
    &&& 0 <= i <= j <= s.len()
    &&& trim_ws(s) == s.subrange(i, j)
    &&& forall|k: int| 0 <= k < i ==> is_xml_ws(#[trigger] s[k])
    &&& forall|k: int| j <= k < s.len() ==> is_xml_ws(#[trigger] s[k])
    &&& i < j ==> !is_xml_ws(s[i]) && !is_xml_ws(s[j - 1])
}

/// An element's text loses its leading and trailing whitespace and keeps
/// everything between them exactly, interior whitespace included.
pub proof fn law_trim_keeps_interior(s: Seq<char>)
    ensures
        exists|i: int, j: int| #[trigger] trims_to(s, i, j),
{
    let p = lemma_trim_start(s);
    let t = s.skip(p);
    let q = lemma_trim_end(t);
    assert(t.take(q) == s.subrange(p, p + q));
    assert forall|k: int| p + q <= k < s.len() implies is_xml_ws(#[trigger] s[k]) by {
        assert(s[k] == t[k - p]);
    }
    if q > 0 {
        assert(s[p] == t[0]);
        assert(s[p + q - 1] == t[q - 1]);
    }
    assert(trims_to(s, p, p + q));
}

/// Text made only of whitespace gives an element no `#t` field.
pub proof fn law_whitespace_only_text_has_no_field(first_field: bool, text: Seq<char>)
    requires
        forall|k: int| 0 <= k < text.len() ==> is_xml_ws(#[trigger] text[k]),
    ensures
        text_field(first_field, text) == Seq::<char>::empty(),
{
    let p = lemma_trim_start(text);
    if p < text.len() {
        assert(is_xml_ws(text[p]));
    }
    let t = text.skip(p);
    assert(t.len() == 0);
    let q = lemma_trim_end(t);
}

/// The digit that stands for `d`: `0`-`9`, then from ten on `A`-`Z` when
/// `upper` holds, else `a`-`z`.
pub open spec fn digit_char(d: nat, upper: bool) -> char {
    if d < 10 {
        (0x30 + d) as char
    } else if upper {
        (0x41 + d - 10) as char
    } else {
        (0x61 + d - 10) as char
    }
}

/// `v` written in `radix`, most significant digit first, with no leading
/// zero, letters in upper case when `upper` holds.
pub open spec fn digits_of(v: nat, radix: nat, upper: bool) -> Seq<char>
    decreases v,
{
    if radix < 2 || v < radix {
        seq![digit_char(v, upper)]
    } else {
        proof {
            assert(v / radix < v) by (nonlinear_arith)
                requires
                    radix >= 2,
                    v >= radix,
            ;
        }
        digits_of(v / radix, radix, upper).push(digit_char(v % radix, upper))
    }
}

/// The digits of a number in a radix up to 16 read back as that number, and
/// none of them is a sign or an `x`.
proof fn lemma_digits_of(v: nat, radix: nat, upper: bool)
    requires
        2 <= radix <= 16,
    ensures
        digits_of(v, radix, upper).len() > 0,
        digits_value(digits_of(v, radix, upper), radix as u32) == Some(v as int),
        forall|k: int|
            0 <= k < digits_of(v, radix, upper).len() ==> {
                let c = #[trigger] digits_of(v, radix, upper)[k];
                c != '+' && c != '-' && c != 'x'
            },
    decreases v,
{
    let s = digits_of(v, radix, upper);
    if v < radix {
        lemma_digit_char(v, radix, upper);
        assert(s.drop_last() =~= Seq::<char>::empty());
        assert(digits_value(s.drop_last(), radix as u32) == Some(0int));
        assert(s.last() == digit_char(v, upper));
        assert(0 * (radix as u32) + v == v);
        assert(digits_value(s, radix as u32) == Some(v as int));
    } else {
        assert(v / radix < v) by (nonlinear_arith)
            requires
                radix >= 2,
                v >= radix,
        ;
        assert((radix as u32) as int == radix as int);
        let high = (v / radix) as nat;
        let low = (v % radix) as nat;
        lemma_digits_of(high, radix, upper);
        lemma_digit_char(low, radix, upper);
        assert(s.drop_last() == digits_of(high, radix, upper));
        assert(s.last() == digit_char(low, upper));
        assert(digits_value(s, radix as u32) == Some((high * radix + low) as int));
        assert(high * radix + low == v) by (nonlinear_arith)
            requires
                radix >= 2,
                high == v / radix,
                low == v % radix,
        ;
        assert forall|k: int| 0 <= k < s.len() implies {
            let c = #[trigger] s[k];
            c != '+' && c != '-' && c != 'x'
        } by {
            if k < s.len() - 1 {
                assert(s[k] == digits_of(high, radix, upper)[k]);
            }
        }
    }
}

/// A digit below a radix up to 16 reads back as itself, and is not a sign or
/// an `x`.
proof fn lemma_digit_char(d: nat, radix: nat, upper: bool)
    requires
        2 <= radix <= 16,
        d < radix,
    ensures
        digit_value(digit_char(d, upper), radix as u32) == Some(d as int),
        digit_char(d, upper) != '+' && digit_char(d, upper) != '-' && digit_char(d, upper) != 'x',
{
    let c = digit_char(d, upper);
    if d < 10 {
        assert(c as u32 == 0x30 + d);
    } else if upper {
        assert(c as u32 == 0x41 + d - 10);
    } else {
        assert(c as u32 == 0x61 + d - 10);
    }
    assert(('+' as u32) == 0x2b && ('-' as u32) == 0x2d && ('x' as u32) == 0x78);
}

/// A character reference written in decimal, `&#65;`, or in hexadecimal
/// with lower or upper case letters, `&#x4a;` or `&#x4A;`, stands for the
/// character with that scalar value, for every character but NUL.
pub proof fn law_char_refs_resolve(c: char)
    requires
        c as u32 != 0,
    ensures
        resolve_ref_spec(seq!['#'] + digits_of(c as nat, 10, false)) == Ok::<
            Seq<char>,
            Seq<char>,
        >(seq![c]),
        resolve_ref_spec(seq!['#', 'x'] + digits_of(c as nat, 16, false)) == Ok::<
            Seq<char>,
            Seq<char>,
        >(seq![c]),
        resolve_ref_spec(seq!['#', 'x'] + digits_of(c as nat, 16, true)) == Ok::<
            Seq<char>,
            Seq<char>,
        >(seq![c]),
{
    vstd::utf8::char_is_scalar(c);
    vstd::utf8::char_u32_cast(c, c as u32);
    let v = c as nat;
    lemma_digits_of(v, 10, false);
    let dec = digits_of(v, 10, false);
    assert((seq!['#'] + dec).drop_first() == dec);
    assert(dec[0] != 'x' && dec[0] != '+' && dec[0] != '-');
    assert(unsigned_spec(dec, 10) == Some(c as u32));
    assert(char_ref_spec(dec) == Some(c));
    lemma_hex_ref(c, false);
    lemma_hex_ref(c, true);
}

/// The hexadecimal reference to `c` resolves to `c`.
proof fn lemma_hex_ref(c: char, upper: bool)
    requires
        c as u32 != 0,
    ensures
        resolve_ref_spec(seq!['#', 'x'] + digits_of(c as nat, 16, upper)) == Ok::<
            Seq<char>,
            Seq<char>,
        >(seq![c]),
{
    vstd::utf8::char_is_scalar(c);
    vstd::utf8::char_u32_cast(c, c as u32);
    let v = c as nat;
    lemma_digits_of(v, 16, upper);
    let hex = digits_of(v, 16, upper);
    let xhex = seq!['x'] + hex;
    assert((seq!['#', 'x'] + hex).drop_first() == xhex);
    assert(xhex.drop_first() == hex);
    assert(hex[0] != '+' && hex[0] != '-');
    assert(unsigned_spec(hex, 16) == Some(c as u32));
    assert(char_ref_spec(xhex) == Some(c));
}

/// A named entity that XML does not predefine, `&uuml;`, passes through as
/// it was written, and the rest of the value resolves as it would on its own.
pub proof fn law_unknown_entity_passes_through(name: Seq<char>, b: Seq<char>)
    requires
        !name.contains('&'),
        !name.contains(';'),
        name.len() == 0 || name[0] != '#',
        predefined_entity(name) is None,
    ensures
        unescape_spec(seq!['&'] + name + seq![';'] + b) == prepend(
            seq!['&'] + name + seq![';'],
            unescape_spec(b),
        ),
{
    law_unescape_reference(name, b);
}

/// An `&` that starts no reference, because no `;` follows it before the
/// next `&` or the end, passes through with the text after it.
pub proof fn law_bare_ampersand_passes_through(a: Seq<char>, c: Seq<char>)
    requires
        !a.contains('&'),
        !a.contains(';'),
        c.len() == 0 || c[0] == '&',
    ensures
        unescape_spec(seq!['&'] + a + c) == prepend(seq!['&'] + a, unescape_spec(c)),
{
    let raw = seq!['&'] + a + c;
    lemma_find_char_at(raw, '&', 0);
    let s = raw.skip(1);
    assert(s == a + c);
    assert forall|i: int| 0 <= i < a.len() implies s[i] != '&' by {
        assert(s[i] == a[i]);
    }
    if c.len() > 0 {
        assert(s[a.len() as int] == c[0]);
    }
    lemma_find_char_at(s, '&', a.len() as int);
    let part = s.take(a.len() as int);
    assert(part == a);
    assert forall|i: int| 0 <= i < part.len() implies part[i] != ';' by {
        assert(part[i] == a[i]);
    }
    lemma_find_char_at(part, ';', part.len() as int);
    assert(raw.take(0) == Seq::<char>::empty());
    if c.len() > 0 {
        lemma_find_char_at(c, '&', 0);
        assert(s.skip(a.len() as int + 1) == c.skip(1));
        assert(c.take(0) == Seq::<char>::empty());
        match unescape_parts(c.skip(1)) {
            Ok(r) => {
                let head = seq!['&'] + a;
                assert(Seq::<char>::empty() + (head + r) == head + (Seq::<char>::empty() + r));
            },
            Err(_) => {},
        }
    } else {
        assert(unescape_spec(c) == Ok::<Seq<char>, Seq<char>>(c)) by {
            assert(find_char(c, '&') == 0);
        }
        assert(c =~= Seq::<char>::empty());
        assert(Seq::<char>::empty() + (seq!['&'] + a) == (seq!['&'] + a) + c);
    }
}

/// One thing that happens to an open element between its attributes and its
/// end: character data pushed, or a child begun and written out whole.
pub enum FrameOp {
    /// `push_text` with this text.
    Text(Seq<char>),
    /// `begin_child`, then the JSON text of this child written.
    Child(NodeModel),
}

/// The frame and the output after `ops`, as `push_text` and `begin_child`
/// state them, with each child's JSON text written after it is begun.
pub open spec fn frame_ops(v: ElementView, w: Seq<char>, ops: Seq<FrameOp>) -> (
    ElementView,
    Seq<char>,
)
    decreases ops.len(),
{
    if ops.len() == 0 {
        (v, w)
    } else {
        let before = frame_ops(v, w, ops.drop_last());
        match ops.last() {
            FrameOp::Text(s) => (ElementView { text: before.0.text + s, ..before.0 }, before.1),
            FrameOp::Child(c) => {
                let begun = begin_child_step(before.0);
                (begun.1, before.1 + begun.0 + json_node(c))
            },
        }
    }
}

/// The output after `close`, as it states it, on a frame `v` over output `w`.
pub open spec fn frame_close(v: ElementView, w: Seq<char>) -> Seq<char> {
    w + (if v.children_open {
        seq![']']
    } else {
        seq![]
    }) + text_field(v.first_field, v.text) + seq!['}', '}']
}

/// The text pushed by `ops`, in order.
pub open spec fn ops_text(ops: Seq<FrameOp>) -> Seq<char>
    decreases ops.len(),
{
    if ops.len() == 0 {
        seq![]
    } else {
        ops_text(ops.drop_last()) + match ops.last() {
            FrameOp::Text(s) => s,
            FrameOp::Child(_) => seq![],
        }
    }
}

/// The children written by `ops`, in order.
pub open spec fn ops_children(ops: Seq<FrameOp>) -> Seq<NodeModel>
    decreases ops.len(),
{
    if ops.len() == 0 {
        seq![]
    } else {
        match ops.last() {
            FrameOp::Text(_) => ops_children(ops.drop_last()),
            FrameOp::Child(c) => ops_children(ops.drop_last()).push(c),
        }
    }
}

/// The frame of an element whose start tag and attributes have been written.
pub open spec fn opened_frame(attrs: Seq<(Seq<char>, Seq<char>)>) -> ElementView {
    ElementView {
        first_field: attrs.len() == 0,
        children_open: false,
        first_child: true,
        text: seq![],
    }
}

/// After any interleaving of text and children the frame and the output are
/// those of the element built so far, not yet closed.
proof fn lemma_frame_ops(
    name: Seq<char>,
    attrs: Seq<(Seq<char>, Seq<char>)>,
    ops: Seq<FrameOp>,
)
    ensures
        ({
            let (v, w) = frame_ops(opened_frame(attrs), tag_open(name) + attrs_text(true, attrs), ops);
            let f = NodeModel { name, attrs, children: ops_children(ops), text: ops_text(ops) };
            &&& w == frame_prefix(f, true)
            &&& v.text == f.text
            &&& v.children_open == (f.children.len() > 0)
            &&& v.first_child == (f.children.len() == 0)
            &&& v.first_field == (attrs.len() == 0 && f.children.len() == 0)
        }),
    decreases ops.len(),
{
    let f = NodeModel { name, attrs, children: ops_children(ops), text: ops_text(ops) };
    if ops.len() == 0 {
        assert(frame_prefix(f, true) == tag_open(name) + attrs_text(true, attrs) + Seq::<
            char,
        >::empty());
        assert(tag_open(name) + attrs_text(true, attrs) + Seq::<char>::empty() == tag_open(name)
            + attrs_text(true, attrs));
    } else {
        let init = ops.drop_last();
        lemma_frame_ops(name, attrs, init);
        let g = NodeModel { name, attrs, children: ops_children(init), text: ops_text(init) };
        match ops.last() {
            FrameOp::Text(s) => {
                assert(frame_prefix(f, true) == frame_prefix(g, true));
            },
            FrameOp::Child(c) => {
                lemma_open_child(g);
                lemma_add_child(g, c);
                assert(f == NodeModel { children: g.children.push(c), ..g });
                let before = frame_ops(
                    opened_frame(attrs),
                    tag_open(name) + attrs_text(true, attrs),
                    init,
                );
                let begun = begin_child_step(before.0);
                assert(begun.0 == (if g.children.len() > 0 {
                    sep(false)
                } else {
                    children_open_text(attrs.len() == 0)
                }));
                assert(before.1 + begun.0 + json_node(c) == frame_prefix(g, false) + json_node(c));
            },
        }
    }
}

/// Whatever text is pushed into an element and whatever children are begun
/// and written in it, in any order, closing it writes exactly the JSON text
/// of the element with those attributes, those children in order, and that
/// text concatenated.
pub proof fn law_frame_writes_its_element(
    name: Seq<char>,
    attrs: Seq<(Seq<char>, Seq<char>)>,
    ops: Seq<FrameOp>,
)
    ensures
        ({
            let (v, w) = frame_ops(opened_frame(attrs), tag_open(name) + attrs_text(true, attrs), ops);
            frame_close(v, w) == json_node(
                NodeModel { name, attrs, children: ops_children(ops), text: ops_text(ops) },
            )
        }),
{
    lemma_frame_ops(name, attrs, ops);
    let f = NodeModel { name, attrs, children: ops_children(ops), text: ops_text(ops) };
    lemma_close(f);
}

/// The object an element opens is keyed by the element's whole name, as
/// written, prefix and colon included: `{"name":{`. The JSON text of every
/// element starts so.
pub proof fn law_object_keyed_by_whole_name(n: NodeModel)
    ensures
        tag_open(n.name) == seq!['{', '"'] + n.name + seq!['"', ':', '{'],
        json_node(n).take(n.name.len() as int + 5) == seq!['{', '"'] + n.name + seq!['"', ':', '{'],
{
    let head = seq!['{', '"'] + n.name + seq!['"', ':', '{'];
    assert(tag_open(n.name) =~= head);
    let j = json_node(n);
    assert(j == head + (attrs_text(true, n.attrs) + (if n.children.len() > 0 {
        children_open_text(n.attrs.len() == 0) + children_json(n.children) + seq![']']
    } else {
        seq![]
    }) + text_field(n.attrs.len() == 0 && n.children.len() == 0, n.text) + seq!['}', '}']));
    assert(head.len() == n.name.len() + 5);
    assert(j.take(n.name.len() as int + 5) =~= head);
}

/// Each attribute's field is keyed by `@` and the attribute's whole key, as
/// decoded, prefix and colon included: `"@key":` then the value as a JSON
/// string.
pub proof fn law_attribute_keyed_by_whole_key(k: Seq<char>, v: Seq<char>)
    ensures
        attr_field((k, v)) == seq!['"', '@'] + k + seq!['"', ':'] + json_string(v),
        attrs_text(true, seq![(k, v)]) == seq!['"', '@'] + k + seq!['"', ':'] + json_string(v),
{
    assert(attr_field((k, v)) =~= seq!['"', '@'] + k + seq!['"', ':'] + json_string(v));
    let one = seq![(k, v)];
    assert(one.drop_last() =~= Seq::<(Seq<char>, Seq<char>)>::empty());
    assert(attrs_text(true, Seq::<(Seq<char>, Seq<char>)>::empty()) == Seq::<char>::empty());
    assert(one.last() == (k, v));
    assert(Seq::<char>::empty() + sep(true) + attr_field((k, v)) =~= attr_field((k, v)));
}

/// Attributes are written in document order: the fields of `a` then `b` are
/// those of `a`, then those of `b`, with a comma between when both have some.
pub proof fn law_attributes_in_order(
    first: bool,
    a: Seq<(Seq<char>, Seq<char>)>,
    b: Seq<(Seq<char>, Seq<char>)>,
)
    ensures
        attrs_text(first, a + b) == attrs_text(first, a) + attrs_text(first && a.len() == 0, b),
    decreases b.len(),
{
    if b.len() == 0 {
        assert(a + b =~= a);
        assert(attrs_text(first && a.len() == 0, b) == Seq::<char>::empty());
        assert(attrs_text(first, a) + Seq::<char>::empty() =~= attrs_text(first, a));
    } else {
        law_attributes_in_order(first, a, b.drop_last());
        assert((a + b).drop_last() =~= a + b.drop_last());
        assert((a + b).last() == b.last());
        assert(sep(first && (a + b).len() == 1) == sep((first && a.len() == 0) && b.len() == 1));
    }
}

/// A reference in character data adds to the innermost open element's text
/// exactly what the same reference stands for in an attribute value, and
/// changes nothing else; it fails exactly where that fails.
pub proof fn law_text_reference_appends_its_resolution(m: Model, name: Seq<char>)
    requires
        m.frames.len() > 0,
        !name.contains('&'),
        !name.contains(';'),
    ensures
        match unescape_spec(seq!['&'] + name + seq![';']) {
            Ok(t) => {
                &&& step(m, EventV::GeneralRef(encode_utf8(name))) is Ok
                &&& text_appended(m, step(m, EventV::GeneralRef(encode_utf8(name)))->Ok_0, t)
            },
            Err(_) => step(m, EventV::GeneralRef(encode_utf8(name))) is Err,
        },
{
    law_text_and_attribute_refs_agree(name);
    match unescape_spec(seq!['&'] + name + seq![';']) {
        Ok(t) => {
            let m2 = step(m, EventV::GeneralRef(encode_utf8(name)))->Ok_0;
            assert(m2.frames.drop_last() =~= m.frames.drop_last());
        },
        Err(_) => {},
    }
}

/// `after` is `before` with `t` added to the end of the innermost open
/// element's text, and nothing else changed.
pub open spec fn text_appended(before: Model, after: Model, t: Seq<char>) -> bool {
    &&& after.root == before.root
    &&& after.frames.len() == before.frames.len()
    &&& after.frames.drop_last() == before.frames.drop_last()
    &&& after.frames.last().name == before.frames.last().name
    &&& after.frames.last().attrs == before.frames.last().attrs
    &&& after.frames.last().children == before.frames.last().children
    &&& after.frames.last().text == before.frames.last().text + t
}

/// The name of the character reference to `c`: `#` and its decimal digits,
/// or `#x` and its hexadecimal digits, in upper case when `upper` holds.
pub open spec fn char_ref_name(c: char, hex: bool, upper: bool) -> Seq<char> {
    if hex {
        seq!['#', 'x'] + digits_of(c as nat, 16, upper)
    } else {
        seq!['#'] + digits_of(c as nat, 10, false)
    }
}

/// A character reference in character data, decimal or hexadecimal in
/// either case, adds exactly its character to the innermost open element's
/// text, for every character but NUL.
pub proof fn law_text_char_ref_appends_its_char(m: Model, c: char, hex: bool, upper: bool)
    requires
        m.frames.len() > 0,
        c as u32 != 0,
    ensures
        step(m, EventV::GeneralRef(encode_utf8(char_ref_name(c, hex, upper)))) is Ok,
        text_appended(
            m,
            step(m, EventV::GeneralRef(encode_utf8(char_ref_name(c, hex, upper))))->Ok_0,
            seq![c],
        ),
{
    broadcast use vstd::utf8::encode_utf8_valid_utf8, vstd::utf8::encode_utf8_decode_utf8;

    law_char_refs_resolve(c);
    let name = char_ref_name(c, hex, upper);
    assert(ref_text(encode_utf8(name)) == Ok::<Seq<char>, ErrorKind>(seq![c]));
    let m2 = step(m, EventV::GeneralRef(encode_utf8(name)))->Ok_0;
    assert(m2.frames.drop_last() =~= m.frames.drop_last());
}

/// An empty tag converts exactly like the same start tag followed at once
/// by its end tag, in every state: the same element, with all its
/// attributes, added in the same place, or the same error.
pub proof fn law_empty_tag_is_start_then_end(m: Model, t: TagV)
    ensures
        step(m, EventV::Empty(t)) == run(m, seq![EventV::Start(t), EventV::End]),
{
    let evs = seq![EventV::Start(t), EventV::End];
    assert(evs.drop_last() == seq![EventV::Start(t)]);
    assert(seq![EventV::Start(t)].drop_last() == Seq::<EventV>::empty());
    assert(run(m, Seq::<EventV>::empty()) == Ok::<Model, ErrorKind>(m));
    match lower_tag(t) {
        Ok((name, attrs)) => {
            let m1 = Model { frames: m.frames.push(leaf(name, attrs)), root: m.root };
            assert(run(m, seq![EventV::Start(t)]) == Ok::<Model, ErrorKind>(m1));
            assert(m1.frames.drop_last() =~= m.frames);
            assert(m1.frames.last() == leaf(name, attrs));
        },
        Err(_) => {},
    }
}

/// The element an empty tag adds carries every attribute of the tag, in
/// order: it is a complete element with those attributes and nothing in it.
pub proof fn law_empty_tag_keeps_all_attributes(m: Model, t: TagV)
    requires
        lower_tag(t) is Ok,
    ensures
        step(m, EventV::Empty(t)) == Ok::<Model, ErrorKind>(
            add_child(m, leaf(lower_tag(t)->Ok_0.0, lower_tag(t)->Ok_0.1)),
        ),
        leaf(lower_tag(t)->Ok_0.0, lower_tag(t)->Ok_0.1).attrs == lower_attrs(t.attrs)->Ok_0,
{
}

/// An element's text is written, when its trimmed form is not empty, as the
/// field `"#t":` and that trimmed text as a JSON string, after a comma unless
/// it is the object's first field; otherwise not at all.
pub proof fn law_text_field_form(first_field: bool, text: Seq<char>)
    ensures
        trim_ws(text).len() == 0 ==> text_field(first_field, text) == Seq::<char>::empty(),
        trim_ws(text).len() > 0 ==> text_field(first_field, text) == (if first_field {
            seq![]
        } else {
            seq![',']
        }) + seq!['"', '#', 't', '"', ':'] + json_string(trim_ws(text)),
        children_open_text(first_field) == (if first_field {
            seq![]
        } else {
            seq![',']
        }) + seq!['"', '#', 'c', '"', ':', '['],
{
    if trim_ws(text).len() > 0 {
        let lead = if first_field {
            Seq::<char>::empty()
        } else {
            seq![',']
        };
        assert(text_field(first_field, text) =~= lead + seq!['"', '#', 't', '"', ':'] + json_string(
            trim_ws(text),
        ));
    }
    let lead = if first_field {
        Seq::<char>::empty()
    } else {
        seq![',']
    };
    assert(children_open_text(first_field) =~= lead + seq!['"', '#', 'c', '"', ':', '[']);
}

/// Children are written in document order: the array text of `a` then `b`
/// is that of `a`, then that of `b`, with a comma between when both have
/// some.
pub proof fn law_children_in_order(a: Seq<NodeModel>, b: Seq<NodeModel>)
    ensures
        children_json(a + b) == children_json(a) + (if a.len() > 0 && b.len() > 0 {
            seq![',']
        } else {
            seq![]
        }) + children_json_after(a.len() == 0, b),
    decreases b.len(),
{
    if b.len() == 0 {
        assert(a + b =~= a);
        assert(children_json(a) + Seq::<char>::empty() + Seq::<char>::empty() =~= children_json(a));
    } else {
        let init = b.subrange(0, b.len() - 1);
        law_children_in_order(a, init);
        let ab = a + b;
        assert(ab.subrange(0, ab.len() - 1) =~= a + init);
        assert(ab[ab.len() - 1] == b[b.len() - 1]);
        if init.len() == 0 {
            assert(children_json_after(a.len() == 0, init) == Seq::<char>::empty());
            assert(children_json(a + init) == children_json(a)) by {
                assert(a + init =~= a);
            }
            if a.len() > 0 {
                assert(children_json(ab) =~= children_json(a) + seq![','] + json_node(
                    b[b.len() - 1],
                ));
                assert(children_json_after(false, b) =~= json_node(b[b.len() - 1]));
            } else {
                assert(children_json(a) == Seq::<char>::empty());
                assert(children_json(ab) =~= json_node(b[b.len() - 1]));
                assert(children_json_after(true, b) =~= json_node(b[b.len() - 1]));
            }
        } else {
            let mid = if a.len() > 0 {
                seq![',']
            } else {
                Seq::<char>::empty()
            };
            assert(children_json(ab) =~= children_json(a) + mid + children_json_after(
                a.len() == 0,
                init,
            ) + seq![','] + json_node(b[b.len() - 1]));
            assert(children_json_after(a.len() == 0, b) =~= children_json_after(
                a.len() == 0,
                init,
            ) + seq![','] + json_node(b[b.len() - 1]));
        }
    }
}

/// The JSON texts of `cs`, comma separated, the first with no comma before
/// it when `first` holds and with one otherwise.
pub open spec fn children_json_after(first: bool, cs: Seq<NodeModel>) -> Seq<char>
    decreases cs.len(),
{
    if cs.len() == 0 {
        seq![]
    } else {
        children_json_after(first, cs.subrange(0, cs.len() - 1)) + (if cs.len() == 1 {
            seq![]
        } else {
            seq![',']
        }) + json_node(cs[cs.len() - 1])
    }
}

/// A start tag opens an element carrying every attribute of the tag, in
/// order, with nothing in it yet, inside the element that was innermost.
pub proof fn law_start_tag_keeps_all_attributes(m: Model, t: TagV)
    requires
        lower_tag(t) is Ok,
    ensures
        step(m, EventV::Start(t)) is Ok,
        step(m, EventV::Start(t))->Ok_0.frames.len() == m.frames.len() + 1,
        step(m, EventV::Start(t))->Ok_0.frames.drop_last() == m.frames,
        step(m, EventV::Start(t))->Ok_0.frames.last().attrs == lower_attrs(t.attrs)->Ok_0,
        step(m, EventV::Start(t))->Ok_0.frames.last().children.len() == 0,
        step(m, EventV::Start(t))->Ok_0.frames.last().text.len() == 0,
{
    let m2 = step(m, EventV::Start(t))->Ok_0;
    assert(m2.frames.drop_last() =~= m.frames);
}

} // verus!
