//! The JSON grammar accepted by the parser, stated over the input's
//! characters. Each production says, for a start position, whether a phrase
//! of it begins there, what it denotes and how many characters it spans.
use vstd::prelude::*;
use crate::json_element::JsonValue;

verus! {

/// The character at `i`, if `i` is inside `s`.
pub open spec fn char_at(s: Seq<char>, i: int) -> Option<char> {
    if 0 <= i < s.len() {
        Some(s[i])
    } else {
        None
    }
}

/// The characters remaining from `i` on.
pub open spec fn rem(s: Seq<char>, i: int) -> nat {
    if i < s.len() {
        (s.len() - i) as nat
    } else {
        0
    }
}

/// Adds `d` to the length of a successful result.
pub open spec fn shift<A>(r: Option<(A, nat)>, d: nat) -> Option<(A, nat)> {
    match r {
        Some((a, n)) => Some((a, n + d)),
        None => None,
    }
}

pub open spec fn is_ws(c: char) -> bool {
    c == ' ' || c == '\t' || c == '\n' || c == '\r'
}

/// The number of whitespace characters that start at `i`.
pub open spec fn ws_len(s: Seq<char>, i: int) -> nat
    decreases s.len() - i,
{
    if 0 <= i < s.len() && is_ws(s[i]) {
        1 + ws_len(s, i + 1)
    } else {
        0
    }
}

/// The first position at or after `i` that holds no whitespace.
pub open spec fn skip_ws(s: Seq<char>, i: int) -> int {
    i + ws_len(s, i)
}

pub open spec fn is_digit(c: char) -> bool {
    '0' <= c && c <= '9'
}

pub open spec fn digit_at(s: Seq<char>, i: int) -> bool {
    0 <= i < s.len() && is_digit(s[i])
}

/// The number of decimal digits that start at `i`.
pub open spec fn digits_len(s: Seq<char>, i: int) -> nat
    decreases s.len() - i,
{
    if digit_at(s, i) {
        1 + digits_len(s, i + 1)
    } else {
        0
    }
}

/// Integer part: a lone `0`, or a nonzero digit and any digits after it. A
/// `0` followed by a digit is no number.
pub open spec fn int_part_len(s: Seq<char>, i: int) -> Option<nat> {
    if char_at(s, i) == Some('0') {
        if digit_at(s, i + 1) {
            None
        } else {
            Some(1)
        }
    } else if digit_at(s, i) {
        Some(digits_len(s, i))
    } else {
        None
    }
}

/// Fraction: nothing, or `.` and at least one digit.
pub open spec fn frac_part_len(s: Seq<char>, i: int) -> Option<nat> {
    if char_at(s, i) == Some('.') {
        if digits_len(s, i + 1) == 0 {
            None
        } else {
            Some(1 + digits_len(s, i + 1))
        }
    } else {
        Some(0)
    }
}

pub open spec fn sign_len(s: Seq<char>, i: int) -> nat {
    if char_at(s, i) == Some('+') || char_at(s, i) == Some('-') {
        1
    } else {
        0
    }
}

/// Exponent: nothing, or `e` or `E`, an optional sign and at least one digit.
pub open spec fn exp_part_len(s: Seq<char>, i: int) -> Option<nat> {
    if char_at(s, i) == Some('e') || char_at(s, i) == Some('E') {
        let d = digits_len(s, i + 1 + sign_len(s, i + 1));
        if d == 0 {
            None
        } else {
            Some(1 + sign_len(s, i + 1) + d)
        }
    } else {
        Some(0)
    }
}

/// The length of the number that starts at `i`: an optional `-`, an
/// integer part, a fraction and an exponent, each taken as far as it goes.
pub open spec fn number_len(s: Seq<char>, i: int) -> Option<nat> {
    let a: nat = if char_at(s, i) == Some('-') { 1 } else { 0 };
    match int_part_len(s, i + a) {
        None => None,
        Some(il) => match frac_part_len(s, i + a + il) {
            None => None,
            Some(fl) => match exp_part_len(s, i + a + il + fl) {
                None => None,
                Some(el) => Some(a + il + fl + el),
            },
        },
    }
}

pub open spec fn is_hex(c: char) -> bool {
    ('0' <= c && c <= '9') || ('a' <= c && c <= 'f') || ('A' <= c && c <= 'F')
}

pub open spec fn hex_val(c: char) -> nat {
    if '0' <= c && c <= '9' {
        (c as nat - '0' as nat) as nat
    } else if 'a' <= c && c <= 'f' {
        (c as nat - 'a' as nat + 10) as nat
    } else {
        (c as nat - 'A' as nat + 10) as nat
    }
}

/// The value of four hexadecimal digits at `i`, most significant first.
pub open spec fn hex4_at(s: Seq<char>, i: int) -> Option<nat> {
    if 0 <= i && i + 4 <= s.len() && is_hex(s[i]) && is_hex(s[i + 1]) && is_hex(s[i + 2])
        && is_hex(s[i + 3]) {
        Some(hex_val(s[i]) * 4096 + hex_val(s[i + 1]) * 256 + hex_val(s[i + 2]) * 16 + hex_val(
            s[i + 3],
        ))
    } else {
        None
    }
}

/// A Unicode scalar value: a code point that is no surrogate.
pub open spec fn is_scalar(v: nat) -> bool {
    v < 0xD800 || (0xE000 <= v && v <= 0x10FFFF)
}

/// What a one-character escape after a backslash stands for.
pub open spec fn escape_char(e: char) -> Option<char> {
    if e == '"' {
        Some('"')
    } else if e == '\\' {
        Some('\\')
    } else if e == '/' {
        Some('/')
    } else if e == 'b' {
        Some('\x08')
    } else if e == 'n' {
        Some('\n')
    } else if e == 'r' {
        Some('\r')
    } else if e == 't' {
        Some('\t')
    } else {
        None
    }
}

/// The rest of a string literal from `i` up to and including its closing
/// quote, with `acc` decoded so far: the decoded text and the length.
///
/// Each `\uXXXX` escape is decoded on its own: a surrogate half is no
/// Unicode scalar value and is rejected, so pairs are not joined.
pub open spec fn string_body(s: Seq<char>, i: int, acc: Seq<char>) -> Option<(Seq<char>, nat)>
    decreases s.len() - i,
{
    if !(0 <= i < s.len()) {
        None
    } else if s[i] == '"' {
        Some((acc, 1))
    } else if s[i] == '\\' {
        if i + 1 >= s.len() {
            None
        } else if s[i + 1] == 'u' {
            match hex4_at(s, i + 2) {
                Some(v) => if is_scalar(v) {
                    shift(string_body(s, i + 6, acc.push((v as u32) as char)), 6)
                } else {
                    None
                },
                None => None,
            }
        } else {
            match escape_char(s[i + 1]) {
                Some(c) => shift(string_body(s, i + 2, acc.push(c)), 2),
                None => None,
            }
        }
    } else {
        shift(string_body(s, i + 1, acc.push(s[i])), 1)
    }
}

/// A string literal at `i`, opening quote included.
pub open spec fn string_at(s: Seq<char>, i: int) -> Option<(Seq<char>, nat)> {
    if char_at(s, i) == Some('"') {
        shift(string_body(s, i + 1, seq![]), 1)
    } else {
        None
    }
}

/// The characters of `w` stand at `i`.
pub open spec fn word_at(s: Seq<char>, i: int, w: Seq<char>) -> bool {
    0 <= i && i + w.len() <= s.len() && forall|k: int| 0 <= k < w.len() ==> s[i + k] == w[k]
}

/// A literal that starts with its own letter, such as `true`.
pub open spec fn literal_at(s: Seq<char>, i: int, w: Seq<char>, v: JsonValue) -> Option<
    (JsonValue, nat),
> {
    if word_at(s, i, w) {
        Some((v, w.len()))
    } else {
        None
    }
}

pub open spec fn true_word() -> Seq<char> {
    seq!['t', 'r', 'u', 'e']
}

pub open spec fn false_word() -> Seq<char> {
    seq!['f', 'a', 'l', 's', 'e']
}

pub open spec fn null_word() -> Seq<char> {
    seq!['n', 'u', 'l', 'l']
}

/// A value at `i` (no whitespace before it).
pub open spec fn value(s: Seq<char>, i: int) -> Option<(JsonValue, nat)>
    decreases rem(s, i), 0nat,
{
    match char_at(s, i) {
        None => None,
        Some(c) => if c == '{' {
            let k = skip_ws(s, i + 1);
            if char_at(s, k) == Some('}') {
                Some((JsonValue::Object(Map::empty()), ws_len(s, i + 1) + 2))
            } else {
                match members(s, k, Map::empty()) {
                    Some((m, n)) => Some((JsonValue::Object(m), 1 + ws_len(s, i + 1) + n)),
                    None => None,
                }
            }
        } else if c == '[' {
            let k = skip_ws(s, i + 1);
            if char_at(s, k) == Some(']') {
                Some((JsonValue::Array(seq![]), ws_len(s, i + 1) + 2))
            } else {
                match elements(s, k, seq![]) {
                    Some((a, n)) => Some((JsonValue::Array(a), 1 + ws_len(s, i + 1) + n)),
                    None => None,
                }
            }
        } else if c == '"' {
            match string_at(s, i) {
                Some((t, n)) => Some((JsonValue::Str(t), n)),
                None => None,
            }
        } else if c == '-' || is_digit(c) {
            match number_len(s, i) {
                Some(n) => Some((JsonValue::Number(s.subrange(i, i + n)), n)),
                None => None,
            }
        } else if c == 't' {
            literal_at(s, i, true_word(), JsonValue::Boolean(true))
        } else if c == 'f' {
            literal_at(s, i, false_word(), JsonValue::Boolean(false))
        } else if c == 'n' {
            literal_at(s, i, null_word(), JsonValue::Null)
        } else {
            None
        },
    }
}

/// Array elements from `j` on, after `acc`, up to and including the closing
/// bracket.
pub open spec fn elements(s: Seq<char>, j: int, acc: Seq<JsonValue>) -> Option<
    (Seq<JsonValue>, nat),
>
    decreases rem(s, j), 1nat,
{
    let k = skip_ws(s, j);
    match value(s, k) {
        None => None,
        Some((v, n)) => {
            let q = skip_ws(s, k + n);
            let d = ws_len(s, j) + n + ws_len(s, k + n) + 1;
            if char_at(s, q) == Some(',') {
                shift(elements(s, q + 1, acc.push(v)), d)
            } else if char_at(s, q) == Some(']') {
                Some((acc.push(v), d))
            } else {
                None
            }
        },
    }
}

/// Object members from `j` on, added to `acc`, up to and including the
/// closing brace. A later member overrides an earlier one with its key.
pub open spec fn members(s: Seq<char>, j: int, acc: Map<Seq<char>, JsonValue>) -> Option<
    (Map<Seq<char>, JsonValue>, nat),
>
    decreases rem(s, j), 1nat,
{
    let k = skip_ws(s, j);
    match string_at(s, k) {
        None => None,
        Some((key, n1)) => {
            let c = skip_ws(s, k + n1);
            if char_at(s, c) != Some(':') {
                None
            } else {
                let v0 = skip_ws(s, c + 1);
                match value(s, v0) {
                    None => None,
                    Some((v, n2)) => {
                        let q = skip_ws(s, v0 + n2);
                        let d = ws_len(s, j) + n1 + ws_len(s, k + n1) + 1 + ws_len(s, c + 1) + n2
                            + ws_len(s, v0 + n2) + 1;
                        if char_at(s, q) == Some(',') {
                            shift(members(s, q + 1, acc.insert(key, v)), d)
                        } else if char_at(s, q) == Some('}') {
                            Some((acc.insert(key, v), d))
                        } else {
                            None
                        }
                    },
                }
            }
        },
    }
}

/// The document that `s` holds: one value, with whitespace around it.
/// Characters after the value and its trailing whitespace are not read.
pub open spec fn document(s: Seq<char>) -> Option<JsonValue> {
    match value(s, skip_ws(s, 0)) {
        Some((v, _)) => Some(v),
        None => None,
    }
}

} // verus!
