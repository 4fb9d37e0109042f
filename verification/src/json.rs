//! The JSON text this library writes, as spec functions over characters.

use vstd::prelude::*;
use vstd::utf8::is_scalar;

verus! {

/// A character that a JSON string literal cannot hold as itself.
pub open spec fn needs_json_escape(c: char) -> bool {
    (c as u32) == 0x22 || (c as u32) == 0x5c || (c as u32) < 0x20
}

/// A byte that, in UTF-8 text, stands for a character that JSON must escape.
pub open spec fn is_escaped_byte(b: u8) -> bool {
    b == 0x22 || b == 0x5c || b < 0x20
}

/// A lowercase hexadecimal digit.
pub open spec fn hex_digit(d: u32) -> char {
    if d < 10 {
        (0x30 + d) as char
    } else {
        (0x61 + d - 10) as char
    }
}

/// How one character appears inside a JSON string literal.
pub open spec fn json_escape_char(c: char) -> Seq<char> {
    if c == '"' {
        seq!['\\', '"']
    } else if c == '\\' {
        seq!['\\', '\\']
    } else if c == '\x08' {
        seq!['\\', 'b']
    } else if c == '\t' {
        seq!['\\', 't']
    } else if c == '\n' {
        seq!['\\', 'n']
    } else if c == '\x0c' {
        seq!['\\', 'f']
    } else if c == '\r' {
        seq!['\\', 'r']
    } else if (c as u32) < 0x20 {
        seq!['\\', 'u', '0', '0', hex_digit((c as u32) / 16), hex_digit((c as u32) % 16)]
    } else {
        seq![c]
    }
}

/// The characters of `s`, each escaped for a JSON string literal.
pub open spec fn json_escape(s: Seq<char>) -> Seq<char>
    decreases s.len(),
{
    if s.len() == 0 {
        seq![]
    } else {
        json_escape(s.drop_last()) + json_escape_char(s.last())
    }
}

/// `s` as a JSON string literal: quoted, with the characters JSON reserves escaped.
pub open spec fn json_string(s: Seq<char>) -> Seq<char> {
    seq!['"'] + json_escape(s) + seq!['"']
}

/// `s` between double quotes, with nothing escaped.
pub open spec fn quoted(s: Seq<char>) -> Seq<char> {
    seq!['"'] + s + seq!['"']
}

/// The comma that separates a field or an array item from the one before
/// it: none before the first.
pub open spec fn sep(first: bool) -> Seq<char> {
    if first {
        seq![]
    } else {
        seq![',']
    }
}

/// The start of the object of an element: `{"name":{`.
pub open spec fn tag_open(name: Seq<char>) -> Seq<char> {
    seq!['{'] + quoted(name) + seq![':', '{']
}

/// The field of an attribute: `"@key":"value"`.
pub open spec fn attr_field(attr: (Seq<char>, Seq<char>)) -> Seq<char> {
    quoted(seq!['@'] + attr.0) + seq![':'] + json_string(attr.1)
}

/// The fields of `attrs`, each after a comma except the very first field of
/// the object when `first` holds.
pub open spec fn attrs_text(first: bool, attrs: Seq<(Seq<char>, Seq<char>)>) -> Seq<char>
    decreases attrs.len(),
{
    if attrs.len() == 0 {
        seq![]
    } else {
        attrs_text(first, attrs.drop_last()) + sep(first && attrs.len() == 1) + attr_field(
            attrs.last(),
        )
    }
}

/// Escaping leaves text that holds no reserved character unchanged.
pub proof fn lemma_escape_plain(s: Seq<char>)
    requires
        forall|i: int| 0 <= i < s.len() ==> !needs_json_escape(#[trigger] s[i]),
    ensures
        json_escape(s) == s,
        json_string(s) == quoted(s),
    decreases s.len(),
{
    if s.len() > 0 {
        let t = s.drop_last();
        assert forall|i: int| 0 <= i < t.len() implies !needs_json_escape(#[trigger] t[i]) by {
            assert(t[i] == s[i]);
        }
        lemma_escape_plain(t);
        assert(!needs_json_escape(s[s.len() - 1]));
        assert(s == t.push(s.last()));
    }
}

/// Escaping distributes over concatenation.
pub proof fn lemma_escape_concat(a: Seq<char>, b: Seq<char>)
    ensures
        json_escape(a + b) == json_escape(a) + json_escape(b),
    decreases b.len(),
{
    if b.len() == 0 {
        assert(a + b == a);
    } else {
        lemma_escape_concat(a, b.drop_last());
        assert((a + b).drop_last() == a + b.drop_last());
        assert((a + b).last() == b.last());
    }
}

/// The value of a hexadecimal digit, in either case.
pub open spec fn hex_value(c: char) -> Option<int> {
    let v = c as u32;
    if 0x30 <= v <= 0x39 {
        Some(v - 0x30)
    } else if 0x61 <= v <= 0x66 {
        Some(v - 0x61 + 10)
    } else if 0x41 <= v <= 0x46 {
        Some(v - 0x41 + 10)
    } else {
        None
    }
}

/// What the escape sequence at the start of `t` (which starts with `\`)
/// stands for, and how many characters it takes; `None` when it is not a
/// JSON escape of a single Unicode scalar.
pub open spec fn json_escape_value(t: Seq<char>) -> Option<(char, nat)> {
    if t.len() < 2 {
        None
    } else {
        let e = t[1];
        if e == '"' {
            Some(('"', 2))
        } else if e == '\\' {
            Some(('\\', 2))
        } else if e == '/' {
            Some(('/', 2))
        } else if e == 'b' {
            Some(('\x08', 2))
        } else if e == 'f' {
            Some(('\x0c', 2))
        } else if e == 'n' {
            Some(('\n', 2))
        } else if e == 'r' {
            Some(('\r', 2))
        } else if e == 't' {
            Some(('\t', 2))
        } else if e == 'u' && t.len() >= 6 {
            match (hex_value(t[2]), hex_value(t[3]), hex_value(t[4]), hex_value(t[5])) {
                (Some(a), Some(b), Some(c), Some(d)) => {
                    let v = a * 4096 + b * 256 + c * 16 + d;
                    if is_scalar(v as u32) {
                        Some(((v as u32) as char, 6))
                    } else {
                        None
                    }
                },
                _ => None,
            }
        } else {
            None
        }
    }
}

/// The text that the characters between the quotes of a JSON string literal
/// stand for: escapes decoded, every other character as itself; `None` when
/// they hold an unescaped quote or control character or a bad escape.
pub open spec fn json_unescape(t: Seq<char>) -> Option<Seq<char>>
    decreases t.len(),
{
    if t.len() == 0 {
        Some(seq![])
    } else if t[0] == '\\' {
        match json_escape_value(t) {
            Some((c, used)) => if 0 < used <= t.len() {
                match json_unescape(t.skip(used as int)) {
                    Some(rest) => Some(seq![c] + rest),
                    None => None,
                }
            } else {
                None
            },
            None => None,
        }
    } else if t[0] == '"' || (t[0] as u32) < 0x20 {
        None
    } else {
        match json_unescape(t.drop_first()) {
            Some(rest) => Some(seq![t[0]] + rest),
            None => None,
        }
    }
}

/// The text a JSON string literal stands for, or `None` when `lit` is not one.
pub open spec fn json_string_value(lit: Seq<char>) -> Option<Seq<char>> {
    if lit.len() >= 2 && lit[0] == '"' && lit[lit.len() - 1] == '"' {
        json_unescape(lit.subrange(1, lit.len() - 1))
    } else {
        None
    }
}

/// A lowercase hexadecimal digit reads back as its value.
proof fn lemma_hex_digit(d: u32)
    requires
        d < 16,
    ensures
        hex_value(hex_digit(d)) == Some(d as int),
{
    if d < 10 {
        assert((hex_digit(d) as u32) == 0x30 + d);
    } else {
        assert((hex_digit(d) as u32) == 0x61 + d - 10);
    }
}

/// The escaped form of one character, followed by anything, decodes to that
/// character followed by what the rest decodes to.
proof fn lemma_unescape_char(c: char, rest: Seq<char>)
    ensures
        json_unescape(json_escape_char(c) + rest) == match json_unescape(rest) {
            Some(r) => Some(seq![c] + r),
            None => None::<Seq<char>>,
        },
{
    let e = json_escape_char(c);
    let t = e + rest;
    vstd::utf8::char_is_scalar(c);
    let v = c as u32;
    if e.len() == 2 {
        assert(t.skip(2) == rest);
        assert(t[0] == '\\');
        assert(t[1] == e[1]);
        if c == '\x08' || c == '\x0c' || c == '\t' || c == '\n' || c == '\r' {
            assert(('b' as u32) == 0x62 && ('f' as u32) == 0x66 && ('n' as u32) == 0x6e && ('r'
                as u32) == 0x72 && ('t' as u32) == 0x74 && ('u' as u32) == 0x75 && ('"' as u32)
                == 0x22 && ('\\' as u32) == 0x5c && ('/' as u32) == 0x2f);
        }
    } else if e.len() == 6 {
        assert(t.skip(6) == rest);
        assert(t[0] == '\\' && t[1] == 'u' && t[2] == '0' && t[3] == '0');
        assert(v < 0x20);
        lemma_hex_digit(v / 16);
        lemma_hex_digit(v % 16);
        assert(t[4] == hex_digit(v / 16) && t[5] == hex_digit(v % 16));
        assert(hex_value('0') == Some(0int));
        assert(('u' as u32) == 0x75 && ('"' as u32) == 0x22 && ('\\' as u32) == 0x5c && ('/'
            as u32) == 0x2f && ('b' as u32) == 0x62 && ('f' as u32) == 0x66 && ('n' as u32)
            == 0x6e && ('r' as u32) == 0x72 && ('t' as u32) == 0x74);
        let val = 0int * 4096 + 0int * 256 + (v / 16) as int * 16 + (v % 16) as int;
        assert(val == v as int);
        assert((val as u32) == v);
        vstd::utf8::char_u32_cast(c, v);
    } else {
        assert(e == seq![c]);
        assert(t.drop_first() == rest);
        assert(t[0] == c);
    }
}

/// A JSON string literal as this library writes it reads back as the text
/// it was written from.
pub proof fn law_json_string_reads_back(s: Seq<char>)
    ensures
        json_string_value(json_string(s)) == Some(s),
{
    lemma_unescape_escaped(s);
    let lit = json_string(s);
    assert(lit.subrange(1, lit.len() - 1) == json_escape(s));
}

/// Escaped text decodes to itself.
proof fn lemma_unescape_escaped(s: Seq<char>)
    ensures
        json_unescape(json_escape(s)) == Some(s),
    decreases s.len(),
{
    if s.len() == 0 {
        assert(json_escape(s) == Seq::<char>::empty());
    } else {
        let c = s[0];
        let rest = s.drop_first();
        lemma_unescape_escaped(rest);
        lemma_escape_concat(seq![c], rest);
        assert(seq![c] + rest == s);
        assert(seq![c].drop_last() == Seq::<char>::empty());
        assert(json_escape(Seq::<char>::empty()) == Seq::<char>::empty());
        assert(json_escape(seq![c]) == Seq::<char>::empty() + json_escape_char(c));
        assert(Seq::<char>::empty() + json_escape_char(c) == json_escape_char(c));
        lemma_unescape_char(c, json_escape(rest));
    }
}

} // verus!
