//! Spec functions for the XML text this library reads: whitespace, the
//! predefined entities, numeric character references and the lenient
//! resolution of references in attribute values.

use vstd::prelude::*;
use vstd::utf8::is_scalar;

verus! {

/// XML whitespace: space, tab, carriage return and line feed.
pub open spec fn is_xml_ws(c: char) -> bool {
    c == ' ' || c == '\t' || c == '\r' || c == '\n'
}

/// A byte of UTF-8 text that stands for XML whitespace.
pub open spec fn is_xml_ws_byte(b: u8) -> bool {
    b == 0x20 || b == 0x09 || b == 0x0d || b == 0x0a
}

/// Every byte of `bytes` is XML whitespace.
pub open spec fn all_ws_bytes(bytes: Seq<u8>) -> bool {
    forall|i: int| 0 <= i < bytes.len() ==> #[trigger] is_xml_ws_byte(bytes[i])
}

/// `s` without its leading XML whitespace.
pub open spec fn trim_start_ws(s: Seq<char>) -> Seq<char>
    decreases s.len(),
{
    if s.len() > 0 && is_xml_ws(s[0]) {
        trim_start_ws(s.drop_first())
    } else {
        s
    }
}

/// `s` without its trailing XML whitespace.
pub open spec fn trim_end_ws(s: Seq<char>) -> Seq<char>
    decreases s.len(),
{
    if s.len() > 0 && is_xml_ws(s.last()) {
        trim_end_ws(s.drop_last())
    } else {
        s
    }
}

/// `s` without its leading and trailing XML whitespace.
pub open spec fn trim_ws(s: Seq<char>) -> Seq<char> {
    trim_end_ws(trim_start_ws(s))
}

/// The index of the first `c` in `s`, or the length of `s` when there is none.
pub open spec fn find_char(s: Seq<char>, c: char) -> int
    decreases s.len(),
{
    if s.len() == 0 {
        0
    } else if s[0] == c {
        0
    } else {
        1 + find_char(s.drop_first(), c)
    }
}

/// The replacement text of the five entities XML predefines.
pub open spec fn predefined_entity(name: Seq<char>) -> Option<Seq<char>> {
    if name == seq!['l', 't'] {
        Some(seq!['<'])
    } else if name == seq!['g', 't'] {
        Some(seq!['>'])
    } else if name == seq!['a', 'm', 'p'] {
        Some(seq!['&'])
    } else if name == seq!['a', 'p', 'o', 's'] {
        Some(seq!['\''])
    } else if name == seq!['q', 'u', 'o', 't'] {
        Some(seq!['"'])
    } else {
        None
    }
}

/// The value of `c` as a digit in `radix`: `0`-`9`, then `a`-`z` or `A`-`Z`
/// from ten on.
pub open spec fn digit_value(c: char, radix: u32) -> Option<int> {
    let v = c as u32;
    let d: int = if 0x30 <= v <= 0x39 {
        v - 0x30
    } else if 0x61 <= v <= 0x7a {
        v - 0x61 + 10
    } else if 0x41 <= v <= 0x5a {
        v - 0x41 + 10
    } else {
        36
    };
    if d < radix {
        Some(d)
    } else {
        None
    }
}

/// The number that the digits `s` denote in `radix`, or `None` when one of
/// them is not a digit.
pub open spec fn digits_value(s: Seq<char>, radix: u32) -> Option<int>
    decreases s.len(),
{
    if s.len() == 0 {
        Some(0)
    } else {
        match (digits_value(s.drop_last(), radix), digit_value(s.last(), radix)) {
            (Some(high), Some(d)) => Some(high * radix + d),
            _ => None,
        }
    }
}

/// What `u32::from_str_radix` returns for `s`: an optional `+` followed by at
/// least one digit, whose value fits in a `u32`.
pub open spec fn from_str_radix_spec(s: Seq<char>, radix: u32) -> Option<u32> {
    let digits = if s.len() > 0 && s[0] == '+' {
        s.drop_first()
    } else {
        s
    };
    if digits.len() == 0 {
        None
    } else {
        match digits_value(digits, radix) {
            Some(v) => if v <= u32::MAX {
                Some(v as u32)
            } else {
                None
            },
            None => None,
        }
    }
}

/// An unsigned number as a character reference writes it: digits in `radix`
/// with no sign.
pub open spec fn unsigned_spec(s: Seq<char>, radix: u32) -> Option<u32> {
    if s.len() > 0 && (s[0] == '+' || s[0] == '-') {
        None
    } else {
        from_str_radix_spec(s, radix)
    }
}

/// The character that the digits of a character reference (`65` in `&#65;`,
/// `x41` in `&#x41;`) denote; `None` for a malformed reference, for NUL and
/// for a value that is not a Unicode scalar.
pub open spec fn char_ref_spec(digits: Seq<char>) -> Option<char> {
    let code = if digits.len() > 0 && digits[0] == 'x' {
        unsigned_spec(digits.drop_first(), 16)
    } else {
        unsigned_spec(digits, 10)
    };
    match code {
        Some(c) => if c == 0 || !is_scalar(c) {
            None
        } else {
            Some(c as char)
        },
        None => None,
    }
}

/// What the reference `&name;` stands for: a character reference resolves to
/// its character or, malformed, fails with the name; a predefined entity
/// resolves to its text; any other name stays as it was written.
pub open spec fn resolve_ref_spec(name: Seq<char>) -> Result<Seq<char>, Seq<char>> {
    if name.len() > 0 && name[0] == '#' {
        match char_ref_spec(name.drop_first()) {
            Some(c) => Ok(seq![c]),
            None => Err(name),
        }
    } else {
        match predefined_entity(name) {
            Some(v) => Ok(v),
            None => Ok(seq!['&'] + name + seq![';']),
        }
    }
}

/// One `&`-separated part of a value, the `&` before it removed: when it holds
/// a `;`, the reference up to the first `;` resolved and the rest kept; else
/// the `&` restored and the part kept.
pub open spec fn resolve_part(part: Seq<char>) -> Result<Seq<char>, Seq<char>> {
    let k = find_char(part, ';');
    if k < part.len() {
        match resolve_ref_spec(part.take(k)) {
            Ok(r) => Ok(r + part.skip(k + 1)),
            Err(e) => Err(e),
        }
    } else {
        Ok(seq!['&'] + part)
    }
}

/// The parts of `s` (the text after some `&`), split at each `&`, each
/// resolved and concatenated; the first failure wins.
pub open spec fn unescape_parts(s: Seq<char>) -> Result<Seq<char>, Seq<char>>
    decreases s.len(),
{
    let j = find_char(s, '&');
    match resolve_part(s.take(j)) {
        Err(e) => Err(e),
        Ok(piece) => if 0 <= j < s.len() {
            match unescape_parts(s.skip(j + 1)) {
                Ok(r) => Ok(piece + r),
                Err(e) => Err(e),
            }
        } else {
            Ok(piece)
        },
    }
}

/// A value with its references resolved leniently: the text up to the first
/// `&` is kept, each later `&`-separated part is resolved as `resolve_part`
/// says. `Err` carries the name of the first malformed character reference.
pub open spec fn unescape_spec(raw: Seq<char>) -> Result<Seq<char>, Seq<char>> {
    let i = find_char(raw, '&');
    if 0 <= i < raw.len() {
        match unescape_parts(raw.skip(i + 1)) {
            Ok(r) => Ok(raw.take(i) + r),
            Err(e) => Err(e),
        }
    } else {
        Ok(raw)
    }
}

/// `find_char` is the first position of `c`, or the length.
pub proof fn lemma_find_char(s: Seq<char>, c: char)
    ensures
        0 <= find_char(s, c) <= s.len(),
        forall|i: int| 0 <= i < find_char(s, c) ==> s[i] != c,
        find_char(s, c) < s.len() ==> s[find_char(s, c)] == c,
    decreases s.len(),
{
    if s.len() > 0 && s[0] != c {
        lemma_find_char(s.drop_first(), c);
        assert forall|i: int| 0 <= i < find_char(s, c) implies s[i] != c by {
            if i > 0 {
                assert(s[i] == s.drop_first()[i - 1]);
            }
        }
    }
}

/// A position before which `c` does not occur, and at which `c` occurs or `s`
/// ends, is `find_char`.
pub proof fn lemma_find_char_at(s: Seq<char>, c: char, j: int)
    requires
        0 <= j <= s.len(),
        forall|i: int| 0 <= i < j ==> s[i] != c,
        j == s.len() || s[j] == c,
    ensures
        find_char(s, c) == j,
{
    lemma_find_char(s, c);
    let f = find_char(s, c);
    if f < j {
        assert(s[f] == c);
    } else if j < f {
        assert(s[j] != c);
    }
}

} // verus!
