//! Just enough JSON to read `compile_commands.json` and write the report.
//!
//! Numbers are kept as the text they were written with, once that text is
//! known to read as a number.

use crate::text::{chars_of, decimal, push_char, push_decimal, push_str, string_of};
use vstd::prelude::*;

verus! {

#[derive(Debug, PartialEq)]
pub enum Value {
    Null,
    Bool(bool),
    Number(String),
    String(String),
    Array(Vec<Value>),
    Object(Vec<(String, Value)>),
}

/// A JSON document as a mathematical value.
pub enum Json {
    Null,
    Bool(bool),
    Number(Seq<char>),
    Str(Seq<char>),
    Array(Seq<Json>),
    Object(Seq<(Seq<char>, Json)>),
}

pub open spec fn json_of(v: Value) -> Json
    decreases v,
{
    match v {
        Value::Null => Json::Null,
        Value::Bool(b) => Json::Bool(b),
        Value::Number(t) => Json::Number(t@),
        Value::String(t) => Json::Str(t@),
        Value::Array(items) => Json::Array(jsons_of(items@)),
        Value::Object(fields) => Json::Object(fields_of(fields@)),
    }
}

pub open spec fn jsons_of(items: Seq<Value>) -> Seq<Json>
    decreases items,
{
    if items.len() == 0 {
        Seq::empty()
    } else {
        jsons_of(items.drop_last()).push(json_of(items.last()))
    }
}

pub open spec fn fields_of(fields: Seq<(String, Value)>) -> Seq<(Seq<char>, Json)>
    decreases fields,
{
    if fields.len() == 0 {
        Seq::empty()
    } else {
        fields_of(fields.drop_last()).push((fields.last().0@, json_of(fields.last().1)))
    }
}

/// Why a document was refused.
#[derive(Clone, Copy, Debug, PartialEq, Eq, Structural)]
pub enum Fault {
    TooDeep,
    EndOfInput,
    ExpectedKey,
    ExpectedColon,
    ExpectedCommaOrBrace,
    ExpectedCommaOrBracket,
    UnexpectedCharacter,
    BadNumber,
    ShortEscape,
    BadEscape,
    UnterminatedString,
    UnterminatedEscape,
    UnpairedSurrogate,
    InvalidCodePoint,
    UnknownEscape,
    ControlCharacter,
    TrailingCharacters,
}

/// The message of each fault.
pub fn fault_text(f: Fault) -> (r: &'static str)
    ensures
        r@ == fault_message(f),
{
    let r = match f {
        Fault::TooDeep => "nesting too deep",
        Fault::EndOfInput => "unexpected end of input",
        Fault::ExpectedKey => "expected string key",
        Fault::ExpectedColon => "expected ':'",
        Fault::ExpectedCommaOrBrace => "expected ',' or '}'",
        Fault::ExpectedCommaOrBracket => "expected ',' or ']'",
        Fault::UnexpectedCharacter => "unexpected character",
        Fault::BadNumber => "bad number",
        Fault::ShortEscape => "short \\u escape",
        Fault::BadEscape => "bad \\u escape",
        Fault::UnterminatedString => "unterminated string",
        Fault::UnterminatedEscape => "unterminated escape",
        Fault::UnpairedSurrogate => "unpaired surrogate",
        Fault::InvalidCodePoint => "invalid code point",
        Fault::UnknownEscape => "unknown escape",
        Fault::ControlCharacter => "control character in string",
        Fault::TrailingCharacters => "trailing characters after JSON value",
    };
    r
}

/// The message of each fault, as text.
pub closed spec fn fault_message(f: Fault) -> Seq<char> {
    match f {
        Fault::TooDeep => "nesting too deep"@,
        Fault::EndOfInput => "unexpected end of input"@,
        Fault::ExpectedKey => "expected string key"@,
        Fault::ExpectedColon => "expected ':'"@,
        Fault::ExpectedCommaOrBrace => "expected ',' or '}'"@,
        Fault::ExpectedCommaOrBracket => "expected ',' or ']'"@,
        Fault::UnexpectedCharacter => "unexpected character"@,
        Fault::BadNumber => "bad number"@,
        Fault::ShortEscape => "short \\u escape"@,
        Fault::BadEscape => "bad \\u escape"@,
        Fault::UnterminatedString => "unterminated string"@,
        Fault::UnterminatedEscape => "unterminated escape"@,
        Fault::UnpairedSurrogate => "unpaired surrogate"@,
        Fault::InvalidCodePoint => "invalid code point"@,
        Fault::UnknownEscape => "unknown escape"@,
        Fault::ControlCharacter => "control character in string"@,
        Fault::TrailingCharacters => "trailing characters after JSON value"@,
    }
}

/// How deeply arrays and objects may nest.
pub const MAX_DEPTH: usize = 256;

// ---------------------------------------------------------------------------
// The grammar.
// ---------------------------------------------------------------------------
pub open spec fn is_ws(c: char) -> bool {
    c == ' ' || c == '\t' || c == '\n' || c == '\r'
}

pub open spec fn is_digit(c: char) -> bool {
    '0' <= c && c <= '9'
}

/// The first position at or after `pos` that is not white space.
pub open spec fn ws_end(s: Seq<char>, pos: int) -> int
    decreases s.len() - pos,
{
    if 0 <= pos < s.len() && is_ws(s[pos]) {
        ws_end(s, pos + 1)
    } else {
        pos
    }
}

pub proof fn lemma_ws_end(s: Seq<char>, pos: int)
    ensures
        pos <= ws_end(s, pos),
        0 <= pos <= s.len() ==> ws_end(s, pos) <= s.len(),
    decreases s.len() - pos,
{
    if 0 <= pos < s.len() && is_ws(s[pos]) {
        lemma_ws_end(s, pos + 1);
    }
}

/// Space, tab, line feed or carriage return: the white space of JSON.
pub open spec fn json_space(c: char) -> bool {
    c == ' ' || c == '\t' || c == '\n' || c == '\r'
}

/// Nothing but JSON white space.
pub open spec fn all_space(w: Seq<char>) -> bool {
    forall|k: int| 0 <= k < w.len() ==> json_space(#[trigger] w[k])
}

/// Skipping white space from `pos` stops at the first position at or after
/// it that holds no space, tab, line feed or carriage return.
pub proof fn lemma_ws_stops(s: Seq<char>, pos: int)
    requires
        0 <= pos <= s.len(),
    ensures
        pos <= ws_end(s, pos) <= s.len(),
        forall|k: int| pos <= k < ws_end(s, pos) ==> json_space(#[trigger] s[k]),
        ws_end(s, pos) == s.len() || !json_space(s[ws_end(s, pos)]),
    decreases s.len() - pos,
{
    if pos < s.len() && is_ws(s[pos]) {
        lemma_ws_stops(s, pos + 1);
    }
}

proof fn lemma_ws_run(s: Seq<char>, a: int, b: int)
    requires
        0 <= a <= b <= s.len(),
        forall|k: int| a <= k < b ==> json_space(#[trigger] s[k]),
        b == s.len() || !json_space(s[b]),
    ensures
        ws_end(s, a) == b,
    decreases b - a,
{
    if a < b {
        lemma_ws_run(s, a + 1, b);
    }
}

/// An empty array or object with any JSON white space before, inside and
/// after it (carriage returns included, as in files with CR LF line ends)
/// parses as the empty array or object.
pub proof fn lemma_spaced_empty(w1: Seq<char>, w2: Seq<char>, w3: Seq<char>, object: bool)
    requires
        all_space(w1),
        all_space(w2),
        all_space(w3),
    ensures
        object ==> document_spec(w1 + seq!['{'] + w2 + seq!['}'] + w3) == Ok::<Json, (int, Fault)>(
            Json::Object(Seq::empty()),
        ),
        !object ==> document_spec(w1 + seq!['['] + w2 + seq![']'] + w3) == Ok::<Json, (int, Fault)>(
            Json::Array(Seq::empty()),
        ),
{
    let open = if object {
        '{'
    } else {
        '['
    };
    let close = if object {
        '}'
    } else {
        ']'
    };
    let s = w1 + seq![open] + w2 + seq![close] + w3;
    let a = w1.len() as int;
    let b = a + 1 + w2.len();
    assert forall|k: int| 0 <= k < a implies json_space(#[trigger] s[k]) by {
        assert(s[k] == w1[k]);
    }
    assert(s[a] == open);
    lemma_ws_run(s, 0, a);
    assert forall|k: int| a + 1 <= k < b implies json_space(#[trigger] s[k]) by {
        assert(s[k] == w2[k - a - 1]);
    }
    assert(s[b] == close);
    lemma_ws_run(s, a + 1, b);
    assert forall|k: int| b + 1 <= k < s.len() implies json_space(#[trigger] s[k]) by {
        assert(s[k] == w3[k - b - 1]);
    }
    lemma_ws_run(s, b + 1, s.len() as int);
}

/// `c` stands at `pos`.
pub open spec fn at(s: Seq<char>, pos: int, c: char) -> bool {
    0 <= pos < s.len() && s[pos] == c
}

/// `lit` stands at `pos`.
pub open spec fn starts_at(s: Seq<char>, pos: int, lit: Seq<char>) -> bool {
    0 <= pos && pos + lit.len() <= s.len() && s.subrange(pos, pos + lit.len()) == lit
}

/// A character that may appear in the text of a number.
pub open spec fn is_number_char(c: char) -> bool {
    is_digit(c) || c == '-' || c == '+' || c == '.' || c == 'e' || c == 'E'
}

/// The end of the run of number characters from `pos`.
pub open spec fn number_end(s: Seq<char>, pos: int) -> int
    decreases s.len() - pos,
{
    if 0 <= pos < s.len() && is_number_char(s[pos]) {
        number_end(s, pos + 1)
    } else {
        pos
    }
}

/// The end of the run of digits from `i`.
pub open spec fn digits_end(t: Seq<char>, i: int) -> int
    decreases t.len() - i,
{
    if 0 <= i < t.len() && is_digit(t[i]) {
        digits_end(t, i + 1)
    } else {
        i
    }
}

/// `t` reads as a decimal floating-point number: an optional sign, digits
/// with at most one point and at least one digit, and an optional exponent
/// of `e` or `E`, an optional sign and at least one digit.
pub open spec fn number_ok(t: Seq<char>) -> bool {
    let i0 = if t.len() > 0 && (t[0] == '+' || t[0] == '-') {
        1int
    } else {
        0int
    };
    let i1 = digits_end(t, i0);
    let point = i1 < t.len() && t[i1] == '.';
    let i2 = if point {
        digits_end(t, i1 + 1)
    } else {
        i1
    };
    let mantissa = if point {
        i1 > i0 || i2 > i1 + 1
    } else {
        i1 > i0
    };
    let exp_ok = if i2 == t.len() {
        true
    } else if t[i2] == 'e' || t[i2] == 'E' {
        let i3 = if i2 + 1 < t.len() && (t[i2 + 1] == '+' || t[i2 + 1] == '-') {
            i2 + 2
        } else {
            i2 + 1
        };
        digits_end(t, i3) > i3 && digits_end(t, i3) == t.len()
    } else {
        false
    };
    mantissa && exp_ok
}

/// UTF-8 length of a character.
pub open spec fn utf8_len(c: char) -> int {
    if (c as u32) < 0x80 {
        1
    } else if (c as u32) < 0x800 {
        2
    } else if (c as u32) < 0x10000 {
        3
    } else {
        4
    }
}

/// UTF-8 bytes of the first `k` characters from `pos`.
pub open spec fn bytes_of(s: Seq<char>, pos: int, k: int) -> int
    decreases k,
{
    if k <= 0 {
        0
    } else {
        bytes_of(s, pos, k - 1) + utf8_len(s[pos + k - 1])
    }
}

pub open spec fn hex_value(c: char) -> int {
    if '0' <= c && c <= '9' {
        (c as u32) - 0x30
    } else if 'a' <= c && c <= 'f' {
        (c as u32) - 0x61 + 10
    } else if 'A' <= c && c <= 'F' {
        (c as u32) - 0x41 + 10
    } else {
        -1
    }
}

pub open spec fn is_hex(c: char) -> bool {
    hex_value(c) >= 0
}

/// Four characters at `pos` read as a hexadecimal number, the way
/// `u32::from_str_radix` reads them: hex digits, or `+` then hex digits.
#[verifier::opaque]
pub open spec fn hex4_spec(s: Seq<char>, pos: int) -> Result<(int, int), (int, Fault)> {
    let avail = if s.len() - pos < 4 {
        s.len() - pos
    } else {
        4
    };
    if bytes_of(s, pos, avail) < 4 {
        Err((pos, Fault::ShortEscape))
    } else if pos + 4 > s.len() {
        Err((pos, Fault::BadEscape))
    } else if is_hex(s[pos + 1]) && is_hex(s[pos + 2]) && is_hex(s[pos + 3]) && is_hex(s[pos]) {
        Ok(
            (hex_value(s[pos]) * 4096 + hex_value(s[pos + 1]) * 256 + hex_value(s[pos + 2]) * 16 + hex_value(s[pos + 3]), pos + 4),
        )
    } else if is_hex(s[pos + 1]) && is_hex(s[pos + 2]) && is_hex(s[pos + 3]) && s[pos] == '+' {
        Ok((hex_value(s[pos + 1]) * 256 + hex_value(s[pos + 2]) * 16 + hex_value(s[pos + 3]), pos + 4))
    } else {
        Err((pos, Fault::BadEscape))
    }
}

/// A Unicode scalar value.
pub open spec fn scalar(code: int) -> bool {
    (0 <= code <= 0xD7FF) || (0xE000 <= code <= 0x10FFFF)
}

/// The character of a `\u` escape whose four digits start at `pos`, with the
/// low half of a surrogate pair when the first half asks for one.
#[verifier::opaque]
pub open spec fn unicode_escape(s: Seq<char>, pos: int) -> Result<(char, int), (int, Fault)> {
    match hex4_spec(s, pos) {
        Err(e) => Err(e),
        Ok((hi, p1)) => if 0xD800 <= hi < 0xDC00 {
            if !starts_at(s, p1, seq!['\\', 'u']) {
                Err((p1, Fault::UnpairedSurrogate))
            } else {
                match hex4_spec(s, p1 + 2) {
                    Err(e) => Err(e),
                    Ok((lo, p2)) => if !(0xDC00 <= lo < 0xE000) {
                        Err((p2, Fault::UnpairedSurrogate))
                    } else {
                        Ok((((0x10000 + (hi - 0xD800) * 1024 + (lo - 0xDC00)) as u32) as char, p2))
                    },
                }
            }
        } else if scalar(hi) {
            Ok(((hi as u32) as char, p1))
        } else {
            Err((p1, Fault::InvalidCodePoint))
        },
    }
}

/// The character a one-letter escape stands for.
pub open spec fn simple_escape(e: char) -> Option<char> {
    if e == '"' {
        Some('"')
    } else if e == '\\' {
        Some('\\')
    } else if e == '/' {
        Some('/')
    } else if e == 'b' {
        Some('\u{8}')
    } else if e == 'f' {
        Some('\u{c}')
    } else if e == 'n' {
        Some('\n')
    } else if e == 'r' {
        Some('\r')
    } else if e == 't' {
        Some('\t')
    } else {
        None
    }
}

/// The rest of a string literal from `pos`, after its opening quote, with
/// `out` decoded so far: the decoded text and the position after the closing
/// quote.
#[verifier::opaque]
pub open spec fn string_spec(s: Seq<char>, pos: int, out: Seq<char>) -> Result<(Seq<char>, int), (int, Fault)>
    decreases s.len() - pos,
{
    if pos < 0 || pos >= s.len() {
        Err((pos, Fault::UnterminatedString))
    } else {
        let c = s[pos];
        if c == '"' {
            Ok((out, pos + 1))
        } else if c == '\\' {
            if pos + 1 >= s.len() {
                Err((pos + 1, Fault::UnterminatedEscape))
            } else {
                let e = s[pos + 1];
                match simple_escape(e) {
                    Some(ch) => string_spec(s, pos + 2, out.push(ch)),
                    None => if e == 'u' {
                        match unicode_escape(s, pos + 2) {
                            Err(err) => Err(err),
                            Ok((ch, p)) => if p <= pos || p > s.len() {
                                Err((p, Fault::UnterminatedString))
                            } else {
                                string_spec(s, p, out.push(ch))
                            },
                        }
                    } else {
                        Err((pos + 2, Fault::UnknownEscape))
                    },
                }
            }
        } else if (c as u32) < 0x20 {
            Err((pos + 1, Fault::ControlCharacter))
        } else {
            string_spec(s, pos + 1, out.push(c))
        }
    }
}

/// The value at `pos`, nested `depth` deep: the value and the position after it.
pub open spec fn value_spec(s: Seq<char>, pos: int, depth: int) -> Result<(Json, int), (int, Fault)>
    decreases s.len() - pos, 1int,
{
    if depth > MAX_DEPTH {
        Err((pos, Fault::TooDeep))
    } else if pos < 0 || pos >= s.len() {
        Err((pos, Fault::EndOfInput))
    } else {
        let c = s[pos];
        if c == '{' {
            let p1 = ws_end(s, pos + 1);
            if at(s, p1, '}') {
                Ok((Json::Object(Seq::empty()), p1 + 1))
            } else {
                fields_spec(s, pos + 1, depth, Seq::empty())
            }
        } else if c == '[' {
            let p1 = ws_end(s, pos + 1);
            if at(s, p1, ']') {
                Ok((Json::Array(Seq::empty()), p1 + 1))
            } else {
                items_spec(s, pos + 1, depth, Seq::empty())
            }
        } else if c == '"' {
            match string_spec(s, pos + 1, Seq::empty()) {
                Ok((t, p)) => Ok((Json::Str(t), p)),
                Err(e) => Err(e),
            }
        } else if starts_at(s, pos, seq!['t', 'r', 'u', 'e']) {
            Ok((Json::Bool(true), pos + 4))
        } else if starts_at(s, pos, seq!['f', 'a', 'l', 's', 'e']) {
            Ok((Json::Bool(false), pos + 5))
        } else if starts_at(s, pos, seq!['n', 'u', 'l', 'l']) {
            Ok((Json::Null, pos + 4))
        } else if c == '-' || is_digit(c) {
            let e = number_end(s, pos);
            if number_ok(s.subrange(pos, e)) {
                Ok((Json::Number(s.subrange(pos, e)), e))
            } else {
                Err((e, Fault::BadNumber))
            }
        } else {
            Err((pos, Fault::UnexpectedCharacter))
        }
    }
}

/// The items of an array from `pos`, after `[` or a `,`, with `acc` read so
/// far: the array and the position after its `]`.
#[verifier::opaque]
pub open spec fn items_spec(s: Seq<char>, pos: int, depth: int, acc: Seq<Json>) -> Result<(Json, int), (int, Fault)>
    decreases s.len() - pos, 2int,
{
    if pos < 0 || pos > s.len() {
        Err((pos, Fault::EndOfInput))
    } else {
        let p0 = ws_end(s, pos);
        proof {
            lemma_ws_end(s, pos);
        }
        match value_spec(s, p0, depth + 1) {
            Err(e) => Err(e),
            Ok((v, p1)) => {
                let p2 = ws_end(s, p1);
                if at(s, p2, ',') {
                    if p2 + 1 <= pos {
                        Err((p2, Fault::EndOfInput))
                    } else {
                        items_spec(s, p2 + 1, depth, acc.push(v))
                    }
                } else if at(s, p2, ']') {
                    Ok((Json::Array(acc.push(v)), p2 + 1))
                } else {
                    Err((p2, Fault::ExpectedCommaOrBracket))
                }
            },
        }
    }
}

/// The fields of an object from `pos`, after `{` or a `,`, with `acc` read
/// so far: the object and the position after its `}`.
#[verifier::opaque]
pub open spec fn fields_spec(s: Seq<char>, pos: int, depth: int, acc: Seq<(Seq<char>, Json)>) -> Result<
    (Json, int),
    (int, Fault),
>
    decreases s.len() - pos, 2int,
{
    if pos < 0 || pos > s.len() {
        Err((pos, Fault::EndOfInput))
    } else {
        let p0 = ws_end(s, pos);
        proof {
            lemma_ws_end(s, pos);
        }
        if !at(s, p0, '"') {
            Err((p0, Fault::ExpectedKey))
        } else {
            match string_spec(s, p0 + 1, Seq::empty()) {
                Err(e) => Err(e),
                Ok((key, p1)) => {
                    let p2 = ws_end(s, p1);
                    if !at(s, p2, ':') {
                        Err((p2, Fault::ExpectedColon))
                    } else {
                        let p3 = ws_end(s, p2 + 1);
                        proof {
                            lemma_string_advances(s, p0 + 1, Seq::empty());
                            lemma_ws_end(s, p1);
                            lemma_ws_end(s, p2 + 1);
                        }
                        match value_spec(s, p3, depth + 1) {
                            Err(e) => Err(e),
                            Ok((v, p4)) => {
                                let p5 = ws_end(s, p4);
                                if at(s, p5, ',') {
                                    if p5 + 1 <= pos {
                                        Err((p5, Fault::EndOfInput))
                                    } else {
                                        fields_spec(s, p5 + 1, depth, acc.push((key, v)))
                                    }
                                } else if at(s, p5, '}') {
                                    Ok((Json::Object(acc.push((key, v))), p5 + 1))
                                } else {
                                    Err((p5, Fault::ExpectedCommaOrBrace))
                                }
                            },
                        }
                    }
                },
            }
        }
    }
}

/// A whole document: one value, with nothing but white space around it.
pub open spec fn document_spec(s: Seq<char>) -> Result<Json, (int, Fault)> {
    match value_spec(s, ws_end(s, 0), 0) {
        Err(e) => Err(e),
        Ok((v, p1)) => if ws_end(s, p1) != s.len() {
            Err((ws_end(s, p1), Fault::TrailingCharacters))
        } else {
            Ok(v)
        },
    }
}

/// Line breaks before `pos`.
pub open spec fn newlines(s: Seq<char>, pos: int) -> int
    decreases pos,
{
    if pos <= 0 || s.len() == 0 {
        0
    } else if pos > s.len() {
        newlines(s, s.len() as int)
    } else {
        newlines(s, pos - 1) + if s[pos - 1] == '\n' {
            1int
        } else {
            0int
        }
    }
}

/// The message for a fault at `pos`.
pub open spec fn error_text(s: Seq<char>, pos: int, f: Fault) -> Seq<char> {
    "invalid JSON at line "@ + decimal((1 + newlines(s, pos)) as nat) + ": "@ + fault_message(f)
}


// ---------------------------------------------------------------------------
// The parser.
// ---------------------------------------------------------------------------
/// Calls `char::from_u32`: the character with code `code`, `None` when
/// `code` is not a Unicode scalar value.
#[verifier::external_body]
fn char_from_u32(code: u32) -> (r: Option<char>)
    ensures
        r is Some <==> scalar(code as int),
        r matches Some(c) ==> c == (code as char),
{
    char::from_u32(code)
}

fn utf8_width(c: char) -> (r: usize)
    ensures
        r == utf8_len(c),
{
    let v = c as u32;
    if v < 0x80 {
        1
    } else if v < 0x800 {
        2
    } else if v < 0x10000 {
        3
    } else {
        4
    }
}

fn hex_digit(c: char) -> (r: Option<u32>)
    ensures
        r is Some <==> is_hex(c),
        r matches Some(d) ==> d == hex_value(c) && d < 16,
{
    if '0' <= c && c <= '9' {
        Some(c as u32 - 0x30)
    } else if 'a' <= c && c <= 'f' {
        Some(c as u32 - 0x61 + 10)
    } else if 'A' <= c && c <= 'F' {
        Some(c as u32 - 0x41 + 10)
    } else {
        None
    }
}

/// `r`, with the reader left at `pos`, is what the grammar gives: `expect`.
pub open spec fn read_as(r: Result<Value, (usize, Fault)>, pos: int, expect: Result<(Json, int), (int, Fault)>) -> bool {
    match r {
        Ok(v) => expect == Ok::<(Json, int), (int, Fault)>((json_of(v), pos)),
        Err((p, f)) => expect == Err::<(Json, int), (int, Fault)>((p as int, f)),
    }
}

struct Parser {
    s: Vec<char>,
    pos: usize,
}

impl Parser {
    fn ws(&mut self)
        requires
            old(self).pos <= old(self).s@.len(),
        ensures
            final(self).s == old(self).s,
            final(self).pos == ws_end(old(self).s@, old(self).pos as int),
    {
        while self.pos < self.s.len() && (self.s[self.pos] == ' ' || self.s[self.pos] == '\t' || self.s[self.pos] == '\n'
            || self.s[self.pos] == '\r')
            invariant
                self.s == old(self).s,
                old(self).pos <= self.pos <= self.s@.len(),
                ws_end(self.s@, self.pos as int) == ws_end(old(self).s@, old(self).pos as int),
            decreases self.s@.len() - self.pos,
        {
            self.pos += 1;
        }
    }

    fn at(&self, c: char) -> (r: bool)
        ensures
            r == at(self.s@, self.pos as int, c),
    {
        self.pos < self.s.len() && self.s[self.pos] == c
    }

    fn starts(&self, lit: &[char]) -> (r: bool)
        ensures
            r == starts_at(self.s@, self.pos as int, lit@),
    {
        let s = &self.s;
        let pos = self.pos;
        let n = s.len();
        if n < lit.len() || pos > n - lit.len() {
            return false;
        }
        let mut i: usize = 0;
        while i < lit.len()
            invariant
                n == s@.len(),
                s@ == self.s@,
                pos == self.pos,
                pos + lit@.len() <= n,
                i <= lit@.len(),
                forall|j: int| 0 <= j < i ==> s@[pos + j] == lit@[j],
            decreases lit@.len() - i,
        {
            if s[pos + i] != lit[i] {
                proof {
                    assert(s@.subrange(pos as int, pos + lit@.len())[i as int] != lit@[i as int]);
                }
                return false;
            }
            i += 1;
        }
        proof {
            assert(s@.subrange(pos as int, pos + lit@.len()) =~= lit@);
        }
        true
    }

    fn hex4(&mut self) -> (r: Result<u32, (usize, Fault)>)
        requires
            old(self).pos <= old(self).s@.len(),
        ensures
            final(self).s == old(self).s,
            final(self).pos <= final(self).s@.len(),
            match r {
                Ok(v) => hex4_spec(old(self).s@, old(self).pos as int) == Ok::<(int, int), (int, Fault)>((v as int, final(self).pos as int)),
                Err((p, f)) => hex4_spec(old(self).s@, old(self).pos as int) == Err::<(int, int), (int, Fault)>((p as int, f)),
            },
    {
        reveal(hex4_spec);
        let ghost s = self.s@;
        let ghost pos = self.pos as int;
        let len = self.s.len();
        let rest = len - self.pos;
        let avail = if rest < 4 {
            rest
        } else {
            4
        };
        let mut bytes: usize = 0;
        let mut i: usize = 0;
        while i < avail
            invariant
                self.s == old(self).s,
                s == old(self).s@,
                self.pos == pos,
                len == s.len(),
                avail <= 4,
                pos + avail <= len,
                i <= avail,
                bytes == bytes_of(s, pos, i as int),
                bytes <= 4 * i,
            decreases avail - i,
        {
            bytes += utf8_width(self.s[self.pos + i]);
            i += 1;
        }
        if bytes < 4 {
            return Err((self.pos, Fault::ShortEscape));
        }
        if self.s.len() - self.pos < 4 {
            return Err((self.pos, Fault::BadEscape));
        }
        let d1 = hex_digit(self.s[self.pos + 1]);
        let d2 = hex_digit(self.s[self.pos + 2]);
        let d3 = hex_digit(self.s[self.pos + 3]);
        let d0 = hex_digit(self.s[self.pos]);
        match (d1, d2, d3) {
            (Some(a), Some(b), Some(c)) => {
                match d0 {
                    Some(d) => {
                        self.pos += 4;
                        Ok(d * 4096 + a * 256 + b * 16 + c)
                    },
                    None => {
                        if self.s[self.pos] == '+' {
                            self.pos += 4;
                            Ok(a * 256 + b * 16 + c)
                        } else {
                            Err((self.pos, Fault::BadEscape))
                        }
                    },
                }
            },
            _ => Err((self.pos, Fault::BadEscape)),
        }
    }

    /// The character of a `\u` escape whose digits start here.
    fn unicode(&mut self) -> (r: Result<char, (usize, Fault)>)
        requires
            old(self).pos <= old(self).s@.len(),
        ensures
            final(self).s == old(self).s,
            final(self).pos <= final(self).s@.len(),
            match r {
                Ok(c) => unicode_escape(old(self).s@, old(self).pos as int) == Ok::<(char, int), (int, Fault)>((c, final(self).pos as int)),
                Err((p, f)) => unicode_escape(old(self).s@, old(self).pos as int) == Err::<(char, int), (int, Fault)>((p as int, f)),
            },
    {
        reveal(unicode_escape);
        let len = self.s.len();
        let hi = match self.hex4() {
            Ok(h) => h,
            Err(e) => return Err(e),
        };
        if 0xD800 <= hi && hi < 0xDC00 {
            let lit: [char; 2] = ['\\', 'u'];
            proof {
                assert(lit@ =~= seq!['\\', 'u']);
            }
            if !self.starts(&lit) {
                return Err((self.pos, Fault::UnpairedSurrogate));
            }
            self.pos += 2;
            let lo = match self.hex4() {
                Ok(l) => l,
                Err(e) => return Err(e),
            };
            if !(0xDC00 <= lo && lo < 0xE000) {
                return Err((self.pos, Fault::UnpairedSurrogate));
            }
            let code: u32 = 0x10000 + (hi - 0xD800) * 1024 + (lo - 0xDC00);
            match char_from_u32(code) {
                Some(c) => Ok(c),
                None => Err((self.pos, Fault::InvalidCodePoint)),
            }
        } else {
            match char_from_u32(hi) {
                Some(c) => Ok(c),
                None => Err((self.pos, Fault::InvalidCodePoint)),
            }
        }
    }

    /// A string literal whose opening quote is here.
    #[verifier::rlimit(40)]
    fn string(&mut self) -> (r: Result<String, (usize, Fault)>)
        requires
            old(self).pos < old(self).s@.len(),
        ensures
            final(self).s == old(self).s,
            final(self).pos <= final(self).s@.len(),
            match r {
                Ok(t) => string_spec(old(self).s@, old(self).pos + 1, Seq::empty()) == Ok::<(Seq<char>, int), (int, Fault)>((t@, final(self).pos as int)),
                Err((p, f)) => string_spec(old(self).s@, old(self).pos + 1, Seq::empty()) == Err::<(Seq<char>, int), (int, Fault)>((p as int, f)),
            },
    {
        let ghost s = self.s@;
        let ghost start = self.pos + 1;
        let len = self.s.len();
        self.pos += 1;
        let mut out: Vec<char> = Vec::new();
        loop
            invariant
                self.s == old(self).s,
                s == old(self).s@,
                len == s.len(),
                start == old(self).pos + 1,
                start <= self.pos <= s.len(),
                string_spec(s, start, Seq::empty()) == string_spec(s, self.pos as int, out@),
            decreases s.len() - self.pos,
        {
            let ghost here = self.pos as int;
            let ghost o = out@;
            proof {
                lemma_string_step(s, here, o);
            }
            if self.pos >= self.s.len() {
                proof {
                    assert(string_spec(s, here, o) == Err::<(Seq<char>, int), (int, Fault)>((here, Fault::UnterminatedString)));
                }
                return Err((self.pos, Fault::UnterminatedString));
            }
            let c = self.s[self.pos];
            self.pos += 1;
            if c == '"' {
                let t = string_of(out.as_slice());
                proof {
                    assert(string_spec(s, here, o) == Ok::<(Seq<char>, int), (int, Fault)>((o, here + 1)));
                    assert(t@ == o);
                }
                return Ok(t);
            }
            if c == '\\' {
                if self.pos >= self.s.len() {
                    return Err((self.pos, Fault::UnterminatedEscape));
                }
                let e = self.s[self.pos];
                self.pos += 1;
                let simple: Option<char> = if e == '"' {
                    Some('"')
                } else if e == '\\' {
                    Some('\\')
                } else if e == '/' {
                    Some('/')
                } else if e == 'b' {
                    Some('\u{8}')
                } else if e == 'f' {
                    Some('\u{c}')
                } else if e == 'n' {
                    Some('\n')
                } else if e == 'r' {
                    Some('\r')
                } else if e == 't' {
                    Some('\t')
                } else {
                    None
                };
                assert(simple == simple_escape(e));
                match simple {
                    Some(ch) => out.push(ch),
                    None => {
                        if e == 'u' {
                            let ghost before = self.pos as int;
                            match self.unicode() {
                                Ok(ch) => {
                                    proof {
                                        lemma_unicode_advances(s, before);
                                    }
                                    out.push(ch);
                                },
                                Err(err) => return Err(err),
                            }
                        } else {
                            proof {
                                assert(string_spec(s, here, o) == Err::<(Seq<char>, int), (int, Fault)>((here + 2, Fault::UnknownEscape)));
                            }
                            return Err((self.pos, Fault::UnknownEscape));
                        }
                    },
                }
            } else if (c as u32) < 0x20 {
                return Err((self.pos, Fault::ControlCharacter));
            } else {
                out.push(c);
            }
        }
    }

    /// A number whose first character is here.
    fn number(&mut self) -> (r: Result<String, (usize, Fault)>)
        requires
            old(self).pos < old(self).s@.len(),
        ensures
            final(self).s == old(self).s,
            final(self).pos == number_end(old(self).s@, old(self).pos as int),
            final(self).pos <= final(self).s@.len(),
            match r {
                Ok(t) => t@ == old(self).s@.subrange(old(self).pos as int, final(self).pos as int) && number_ok(t@),
                Err((p, f)) => p == final(self).pos && f == Fault::BadNumber && !number_ok(
                    old(self).s@.subrange(old(self).pos as int, final(self).pos as int),
                ),
            },
    {
        let ghost s = self.s@;
        let start = self.pos;
        while self.pos < self.s.len() && (('0' <= self.s[self.pos] && self.s[self.pos] <= '9') || self.s[self.pos] == '-'
            || self.s[self.pos] == '+' || self.s[self.pos] == '.' || self.s[self.pos] == 'e' || self.s[self.pos] == 'E')
            invariant
                self.s == old(self).s,
                s == old(self).s@,
                start <= self.pos <= s.len(),
                number_end(s, self.pos as int) == number_end(s, start as int),
            decreases s.len() - self.pos,
        {
            self.pos += 1;
        }
        let mut t: Vec<char> = Vec::new();
        let mut i: usize = start;
        while i < self.pos
            invariant
                self.s == old(self).s,
                s == old(self).s@,
                start <= i <= self.pos <= s.len(),
                t@ == s.subrange(start as int, i as int),
            decreases self.pos - i,
        {
            t.push(self.s[i]);
            proof {
                assert(s.subrange(start as int, i + 1) =~= s.subrange(start as int, i as int).push(s[i as int]));
            }
            i += 1;
        }
        if number_text_ok(&t) {
            Ok(string_of(t.as_slice()))
        } else {
            Err((self.pos, Fault::BadNumber))
        }
    }

    /// The value here, nested `depth` deep.
    fn value(&mut self, depth: usize) -> (r: Result<Value, (usize, Fault)>)
        requires
            old(self).pos <= old(self).s@.len(),
            depth <= MAX_DEPTH + 1,
        ensures
            final(self).s == old(self).s,
            final(self).pos <= final(self).s@.len(),
            read_as(r, final(self).pos as int, value_spec(old(self).s@, old(self).pos as int, depth as int)),
        decreases MAX_DEPTH + 1 - depth, 2int,
    {
        let ghost s = self.s@;
        let ghost pos = self.pos as int;
        let start = self.pos;
        if depth > MAX_DEPTH {
            return Err((self.pos, Fault::TooDeep));
        }
        if self.pos >= self.s.len() {
            return Err((self.pos, Fault::EndOfInput));
        }
        let c = self.s[self.pos];
        if c == '{' {
            self.pos += 1;
            self.ws();
            if self.at('}') {
                self.pos += 1;
                return Ok(Value::Object(Vec::new()));
            }
            proof {
                reveal(fields_spec);
                assert(value_spec(s, pos, depth as int) == fields_spec(s, pos + 1, depth as int, Seq::empty()));
            }
            self.pos = start + 1;
            return self.fields(depth);
        }
        if c == '[' {
            self.pos += 1;
            self.ws();
            if self.at(']') {
                self.pos += 1;
                return Ok(Value::Array(Vec::new()));
            }
            proof {
                reveal(items_spec);
                assert(value_spec(s, pos, depth as int) == items_spec(s, pos + 1, depth as int, Seq::empty()));
            }
            self.pos = start + 1;
            return self.items(depth);
        }
        if c == '"' {
            return match self.string() {
                Ok(t) => Ok(Value::String(t)),
                Err(e) => Err(e),
            };
        }
        let t4: [char; 4] = ['t', 'r', 'u', 'e'];
        let f5: [char; 5] = ['f', 'a', 'l', 's', 'e'];
        let n4: [char; 4] = ['n', 'u', 'l', 'l'];
        proof {
            assert(t4@ =~= seq!['t', 'r', 'u', 'e']);
            assert(f5@ =~= seq!['f', 'a', 'l', 's', 'e']);
            assert(n4@ =~= seq!['n', 'u', 'l', 'l']);
        }
        if self.starts(&t4) {
            self.pos += 4;
            return Ok(Value::Bool(true));
        }
        if self.starts(&f5) {
            self.pos += 5;
            return Ok(Value::Bool(false));
        }
        if self.starts(&n4) {
            self.pos += 4;
            return Ok(Value::Null);
        }
        if c == '-' || ('0' <= c && c <= '9') {
            return match self.number() {
                Ok(t) => Ok(Value::Number(t)),
                Err(e) => Err(e),
            };
        }
        Err((self.pos, Fault::UnexpectedCharacter))
    }

    /// The items of an array from here, after its `[`.
    #[verifier::rlimit(40)]
    fn items(&mut self, depth: usize) -> (r: Result<Value, (usize, Fault)>)
        requires
            old(self).pos <= old(self).s@.len(),
            depth <= MAX_DEPTH,
        ensures
            final(self).s == old(self).s,
            final(self).pos <= final(self).s@.len(),
            read_as(r, final(self).pos as int, items_spec(old(self).s@, old(self).pos as int, depth as int, Seq::empty())),
        decreases MAX_DEPTH + 1 - depth, 1int,
    {
        let ghost s = self.s@;
        let ghost start = self.pos as int;
        let len = self.s.len();
        let mut items: Vec<Value> = Vec::new();
        loop
            invariant
                self.s == old(self).s,
                s == old(self).s@,
                len == s.len(),
                start == old(self).pos,
                self.pos <= s.len(),
                depth <= MAX_DEPTH,
                items_spec(s, start, depth as int, Seq::empty()) == items_spec(s, self.pos as int, depth as int, jsons_of(items@)),
            decreases s.len() - self.pos,
        {
            let ghost here = self.pos as int;
            let ghost acc = jsons_of(items@);
            proof {
                lemma_items_unfold(s, here, depth as int, acc);
                lemma_ws_end(s, here);
            }
            self.ws();
            let ghost p0 = self.pos as int;
            let v = match self.value(depth + 1) {
                Ok(v) => v,
                Err(e) => {
                    proof {
                        assert(value_spec(s, p0, depth + 1) == Err::<(Json, int), (int, Fault)>((e.0 as int, e.1)));
                        assert(items_spec(s, here, depth as int, acc) == Err::<(Json, int), (int, Fault)>((e.0 as int, e.1)));
                    }
                    return Err(e);
                },
            };
            let ghost p1 = self.pos as int;
            proof {
                lemma_ws_end(s, p1);
                lemma_value_advances(s, p0, depth + 1);
            }
            self.ws();
            let ghost before = items@;
            items.push(v);
            proof {
                assert(items@.drop_last() =~= before);
                assert(items@.last() == v);
                assert(jsons_of(items@) == acc.push(json_of(v)));
            }
            if self.at(',') {
                self.pos += 1;
            } else if self.at(']') {
                self.pos += 1;
                return Ok(Value::Array(items));
            } else {
                return Err((self.pos, Fault::ExpectedCommaOrBracket));
            }
        }
    }

    /// The fields of an object from here, after its `{`.
    #[verifier::rlimit(40)]
    fn fields(&mut self, depth: usize) -> (r: Result<Value, (usize, Fault)>)
        requires
            old(self).pos <= old(self).s@.len(),
            depth <= MAX_DEPTH,
        ensures
            final(self).s == old(self).s,
            final(self).pos <= final(self).s@.len(),
            read_as(r, final(self).pos as int, fields_spec(old(self).s@, old(self).pos as int, depth as int, Seq::empty())),
        decreases MAX_DEPTH + 1 - depth, 1int,
    {
        let ghost s = self.s@;
        let ghost start = self.pos as int;
        let len = self.s.len();
        let mut fields: Vec<(String, Value)> = Vec::new();
        loop
            invariant
                self.s == old(self).s,
                s == old(self).s@,
                len == s.len(),
                start == old(self).pos,
                self.pos <= s.len(),
                depth <= MAX_DEPTH,
                fields_spec(s, start, depth as int, Seq::empty()) == fields_spec(s, self.pos as int, depth as int, fields_of(fields@)),
            decreases s.len() - self.pos,
        {
            let ghost here = self.pos as int;
            let ghost acc = fields_of(fields@);
            proof {
                lemma_fields_unfold(s, here, depth as int, acc);
                lemma_ws_end(s, here);
            }
            self.ws();
            if !self.at('"') {
                return Err((self.pos, Fault::ExpectedKey));
            }
            let ghost p0 = self.pos as int;
            proof {
                lemma_string_advances(s, p0 + 1, Seq::empty());
            }
            let key = match self.string() {
                Ok(k) => k,
                Err(e) => return Err(e),
            };
            let ghost p1 = self.pos as int;
            proof {
                lemma_ws_end(s, p1);
            }
            self.ws();
            if !self.at(':') {
                return Err((self.pos, Fault::ExpectedColon));
            }
            self.pos += 1;
            let ghost p2 = self.pos as int;
            proof {
                lemma_ws_end(s, p2);
            }
            self.ws();
            let ghost p3v = self.pos as int;
            let v = match self.value(depth + 1) {
                Ok(v) => v,
                Err(e) => return Err(e),
            };
            let ghost p4 = self.pos as int;
            proof {
                lemma_ws_end(s, p4);
                lemma_value_advances(s, p3v, depth + 1);
            }
            self.ws();
            let ghost kv = key@;
            let ghost before = fields@;
            fields.push((key, v));
            proof {
                assert(fields@.drop_last() =~= before);
                assert(fields@.last().1 == v);
                assert(fields@.last().0@ == kv);
                assert(fields_of(fields@) == acc.push((kv, json_of(v))));
            }
            if self.at(',') {
                self.pos += 1;
            } else if self.at('}') {
                self.pos += 1;
                return Ok(Value::Object(fields));
            } else {
                return Err((self.pos, Fault::ExpectedCommaOrBrace));
            }
        }
    }
}

/// One round of reading array items, with the never-taken guard gone.
proof fn lemma_items_unfold(s: Seq<char>, pos: int, depth: int, acc: Seq<Json>)
    requires
        0 <= pos <= s.len(),
    ensures
        items_spec(s, pos, depth, acc) == (match value_spec(s, ws_end(s, pos), depth + 1) {
            Err(e) => Err(e),
            Ok((v, p1)) => {
                let p2 = ws_end(s, p1);
                if at(s, p2, ',') {
                    items_spec(s, p2 + 1, depth, acc.push(v))
                } else if at(s, p2, ']') {
                    Ok((Json::Array(acc.push(v)), p2 + 1))
                } else {
                    Err((p2, Fault::ExpectedCommaOrBracket))
                }
            },
        }),
{
    reveal(items_spec);
    lemma_ws_end(s, pos);
    lemma_value_advances(s, ws_end(s, pos), depth + 1);
    if let Ok((v, p1)) = value_spec(s, ws_end(s, pos), depth + 1) {
        lemma_ws_end(s, p1);
    }
}

/// One round of reading object fields, with the never-taken guard gone.
proof fn lemma_fields_unfold(s: Seq<char>, pos: int, depth: int, acc: Seq<(Seq<char>, Json)>)
    requires
        0 <= pos <= s.len(),
    ensures
        fields_spec(s, pos, depth, acc) == (if !at(s, ws_end(s, pos), '"') {
            Err((ws_end(s, pos), Fault::ExpectedKey))
        } else {
            match string_spec(s, ws_end(s, pos) + 1, Seq::empty()) {
                Err(e) => Err(e),
                Ok((key, p1)) => {
                    let p2 = ws_end(s, p1);
                    if !at(s, p2, ':') {
                        Err((p2, Fault::ExpectedColon))
                    } else {
                        match value_spec(s, ws_end(s, p2 + 1), depth + 1) {
                            Err(e) => Err(e),
                            Ok((v, p4)) => {
                                let p5 = ws_end(s, p4);
                                if at(s, p5, ',') {
                                    fields_spec(s, p5 + 1, depth, acc.push((key, v)))
                                } else if at(s, p5, '}') {
                                    Ok((Json::Object(acc.push((key, v))), p5 + 1))
                                } else {
                                    Err((p5, Fault::ExpectedCommaOrBrace))
                                }
                            },
                        }
                    }
                },
            }
        }),
{
    reveal(fields_spec);
    lemma_ws_end(s, pos);
    let p0 = ws_end(s, pos);
    if at(s, p0, '"') {
        lemma_string_advances(s, p0 + 1, Seq::empty());
        if let Ok((key, p1)) = string_spec(s, p0 + 1, Seq::empty()) {
            lemma_ws_end(s, p1);
            let p2 = ws_end(s, p1);
            lemma_ws_end(s, p2 + 1);
            lemma_value_advances(s, ws_end(s, p2 + 1), depth + 1);
            if let Ok((v, p4)) = value_spec(s, ws_end(s, p2 + 1), depth + 1) {
                lemma_ws_end(s, p4);
            }
        }
    }
}

proof fn lemma_unicode_advances(s: Seq<char>, pos: int)
    ensures
        unicode_escape(s, pos) matches Ok((c, p)) ==> p >= pos + 4,
{
    reveal(unicode_escape);
    reveal(hex4_spec);
}

/// A value read successfully ends after where it started.
pub proof fn lemma_value_advances(s: Seq<char>, pos: int, depth: int)
    ensures
        value_spec(s, pos, depth) matches Ok((v, p)) ==> p > pos,
    decreases s.len() - pos, 1int,
{
    reveal(items_spec);
    reveal(fields_spec);
    if depth <= MAX_DEPTH && 0 <= pos < s.len() {
        let c = s[pos];
        lemma_ws_end(s, pos + 1);
        if c == '{' {
            if !at(s, ws_end(s, pos + 1), '}') {
                lemma_fields_advance(s, pos + 1, depth, Seq::empty());
            }
        } else if c == '[' {
            if !at(s, ws_end(s, pos + 1), ']') {
                lemma_items_advance(s, pos + 1, depth, Seq::empty());
            }
        } else if c == '"' {
            lemma_string_advances(s, pos + 1, Seq::empty());
        } else if c == '-' || is_digit(c) {
            lemma_number_end(s, pos);
        }
    }
}

pub proof fn lemma_items_advance(s: Seq<char>, pos: int, depth: int, acc: Seq<Json>)
    ensures
        items_spec(s, pos, depth, acc) matches Ok((v, p)) ==> p > pos,
    decreases s.len() - pos, 2int,
{
    reveal(items_spec);
    if 0 <= pos <= s.len() {
        lemma_ws_end(s, pos);
        let p0 = ws_end(s, pos);
        lemma_value_advances(s, p0, depth + 1);
        if let Ok((v, p1)) = value_spec(s, p0, depth + 1) {
            let p2 = ws_end(s, p1);
            if at(s, p2, ',') && p2 + 1 > pos {
                lemma_items_advance(s, p2 + 1, depth, acc.push(v));
            }
            if p1 <= s.len() {
                lemma_ws_end(s, p1);
            }
        }
    }
}

pub proof fn lemma_fields_advance(s: Seq<char>, pos: int, depth: int, acc: Seq<(Seq<char>, Json)>)
    ensures
        fields_spec(s, pos, depth, acc) matches Ok((v, p)) ==> p > pos,
    decreases s.len() - pos, 2int,
{
    reveal(fields_spec);
    if 0 <= pos <= s.len() {
        lemma_ws_end(s, pos);
        let p0 = ws_end(s, pos);
        if at(s, p0, '"') {
            lemma_string_advances(s, p0 + 1, Seq::empty());
            if let Ok((key, p1)) = string_spec(s, p0 + 1, Seq::empty()) {
                let p2 = ws_end(s, p1);
                if at(s, p2, ':') {
                    lemma_ws_end(s, p1);
                    lemma_ws_end(s, p2 + 1);
                    let p3 = ws_end(s, p2 + 1);
                    lemma_value_advances(s, p3, depth + 1);
                    if let Ok((v, p4)) = value_spec(s, p3, depth + 1) {
                        let p5 = ws_end(s, p4);
                        if at(s, p5, ',') && p5 + 1 > pos {
                            lemma_fields_advance(s, p5 + 1, depth, acc.push((key, v)));
                        }
                        if p4 <= s.len() {
                            lemma_ws_end(s, p4);
                        }
                    }
                }
            }
        }
    }
}

/// One step of reading a string literal.
pub proof fn lemma_string_step(s: Seq<char>, pos: int, out: Seq<char>)
    requires
        0 <= pos,
    ensures
        string_spec(s, pos, out) == (if pos >= s.len() {
            Err((pos, Fault::UnterminatedString))
        } else {
            let c = s[pos];
            if c == '"' {
                Ok((out, pos + 1))
            } else if c == '\\' {
                if pos + 1 >= s.len() {
                    Err((pos + 1, Fault::UnterminatedEscape))
                } else {
                    let e = s[pos + 1];
                    match simple_escape(e) {
                        Some(ch) => string_spec(s, pos + 2, out.push(ch)),
                        None => if e == 'u' {
                            match unicode_escape(s, pos + 2) {
                                Err(err) => Err(err),
                                Ok((ch, p)) => if p <= pos || p > s.len() {
                                    Err((p, Fault::UnterminatedString))
                                } else {
                                    string_spec(s, p, out.push(ch))
                                },
                            }
                        } else {
                            Err((pos + 2, Fault::UnknownEscape))
                        },
                    }
                }
            } else if (c as u32) < 0x20 {
                Err((pos + 1, Fault::ControlCharacter))
            } else {
                string_spec(s, pos + 1, out.push(c))
            }
        }),
{
    reveal(string_spec);
}

pub proof fn lemma_string_advances(s: Seq<char>, pos: int, out: Seq<char>)
    ensures
        string_spec(s, pos, out) matches Ok((t, p)) ==> p > pos,
    decreases s.len() - pos,
{
    reveal(string_spec);
    if 0 <= pos < s.len() {
        let c = s[pos];
        if c == '\\' && pos + 1 < s.len() {
            let e = s[pos + 1];
            match simple_escape(e) {
                Some(ch) => lemma_string_advances(s, pos + 2, out.push(ch)),
                None => {
                    if e == 'u' {
                        if let Ok((ch, p)) = unicode_escape(s, pos + 2) {
                            if p > pos && p <= s.len() {
                                lemma_string_advances(s, p, out.push(ch));
                            }
                        }
                    }
                },
            }
        } else if c != '"' && c != '\\' && (c as u32) >= 0x20 {
            lemma_string_advances(s, pos + 1, out.push(c));
        }
    }
}

proof fn lemma_number_end(s: Seq<char>, pos: int)
    ensures
        number_end(s, pos) >= pos,
        0 <= pos < s.len() && is_number_char(s[pos]) ==> number_end(s, pos) > pos,
        0 <= pos <= s.len() ==> number_end(s, pos) <= s.len(),
    decreases s.len() - pos,
{
    if 0 <= pos < s.len() && is_number_char(s[pos]) {
        lemma_number_end(s, pos + 1);
    }
}

/// Whether `t` reads as a number.
fn number_text_ok(t: &Vec<char>) -> (r: bool)
    ensures
        r == number_ok(t@),
{
    let n = t.len();
    let i0: usize = if n > 0 && (t[0] == '+' || t[0] == '-') {
        1
    } else {
        0
    };
    let i1 = digits_from(t, i0);
    let point = i1 < n && t[i1] == '.';
    let i2 = if point {
        digits_from(t, i1 + 1)
    } else {
        i1
    };
    let mantissa = if point {
        i1 > i0 || i2 > i1 + 1
    } else {
        i1 > i0
    };
    let exp_ok = if i2 == n {
        true
    } else if t[i2] == 'e' || t[i2] == 'E' {
        let i3 = if i2 + 1 < n && (t[i2 + 1] == '+' || t[i2 + 1] == '-') {
            i2 + 2
        } else {
            i2 + 1
        };
        let i4 = digits_from(t, i3);
        i4 > i3 && i4 == n
    } else {
        false
    };
    mantissa && exp_ok
}

/// The end of the run of digits of `t` from `i`.
fn digits_from(t: &Vec<char>, i: usize) -> (r: usize)
    requires
        i <= t@.len(),
    ensures
        r == digits_end(t@, i as int),
        i <= r <= t@.len(),
{
    let mut j = i;
    while j < t.len() && '0' <= t[j] && t[j] <= '9'
        invariant
            i <= j <= t@.len(),
            digits_end(t@, j as int) == digits_end(t@, i as int),
        decreases t@.len() - j,
    {
        j += 1;
    }
    j
}

/// Appends the decimal notation of `n`.
fn push_wide_decimal(s: &mut String, n: u128)
    ensures
        final(s)@ == old(s)@ + decimal(n as nat),
    decreases n,
{
    if n >= 10 {
        push_wide_decimal(s, n / 10);
    }
    let d: u8 = (n % 10) as u8;
    let c = (0x30u8 + d) as char;
    assert(c == crate::text::digit_char((n % 10) as nat));
    push_char(s, c);
    proof {
        if n >= 10 {
            assert(old(s)@ + decimal(n as nat) =~= (old(s)@ + decimal((n / 10) as nat)).push(c));
        } else {
            assert(old(s)@ + decimal(n as nat) =~= old(s)@.push(c));
        }
    }
}

/// The message for a fault at `pos` of `s`.
fn error_message(s: &Vec<char>, pos: usize, f: Fault) -> (r: String)
    ensures
        r@ == error_text(s@, pos as int, f),
{
    let end = if pos < s.len() {
        pos
    } else {
        s.len()
    };
    let mut lines: u128 = 0;
    let mut i: usize = 0;
    while i < end
        invariant
            end <= s@.len(),
            i <= end,
            lines == newlines(s@, i as int),
            lines <= i,
            i <= usize::MAX,
        decreases end - i,
    {
        if s[i] == '\n' {
            lines += 1;
        }
        i += 1;
    }
    proof {
        if pos > s@.len() && s@.len() > 0 {
            assert(newlines(s@, pos as int) == newlines(s@, s@.len() as int));
        }
    }
    let mut r = String::new();
    let head = "invalid JSON at line ";
    let sep = ": ";
    push_str(&mut r, head);
    push_wide_decimal(&mut r, lines + 1);
    push_str(&mut r, sep);
    push_str(&mut r, fault_text(f));
    proof {
        assert(r@ =~= error_text(s@, pos as int, f));
    }
    r
}

/// Parses a JSON document.
pub fn parse(text: &str) -> (r: Result<Value, String>)
    ensures
        match r {
            Ok(v) => document_spec(text@) == Ok::<Json, (int, Fault)>(json_of(v)),
            Err(m) => exists|pos: int, f: Fault|
                document_spec(text@) == Err::<Json, (int, Fault)>((pos, f)) && m@ == error_text(text@, pos, f),
        },
{
    let mut p = Parser { s: chars_of(text), pos: 0 };
    p.ws();
    proof {
        lemma_ws_end(p.s@, 0);
    }
    let v = match p.value(0) {
        Ok(v) => v,
        Err((pos, f)) => return Err(error_message(&p.s, pos, f)),
    };
    p.ws();
    if p.pos != p.s.len() {
        return Err(error_message(&p.s, p.pos, Fault::TrailingCharacters));
    }
    Ok(v)
}


// ---------------------------------------------------------------------------
// Reading values.
// ---------------------------------------------------------------------------
/// The fields of an object; nothing for other values.
pub open spec fn object_fields(v: Value) -> Seq<(String, Value)> {
    match v {
        Value::Object(fields) => fields@,
        _ => Seq::empty(),
    }
}

impl Value {
    /// The value of the first field named `key`, when this is an object.
    pub fn get(&self, key: &str) -> (r: Option<&Value>)
        ensures
            !(*self is Object) ==> r is None,
            r is None ==> forall|i: int| 0 <= i < object_fields(*self).len() ==> (#[trigger] object_fields(*self)[i]).0@ != key@,
            r matches Some(v) ==> exists|i: int|
                0 <= i < object_fields(*self).len() && (#[trigger] object_fields(*self)[i]).0@ == key@ && *v == object_fields(*self)[i].1
                    && forall|j: int| 0 <= j < i ==> (#[trigger] object_fields(*self)[j]).0@ != key@,
    {
        match self {
            Value::Object(fields) => {
                let k = key.to_owned();
                let mut i: usize = 0;
                while i < fields.len()
                    invariant
                        k@ == key@,
                        object_fields(*self) == fields@,
                        i <= fields@.len(),
                        forall|j: int| 0 <= j < i ==> (#[trigger] fields@[j]).0@ != key@,
                    decreases fields@.len() - i,
                {
                    if fields[i].0 == k {
                        proof {
                            assert(fields@[i as int].0@ == key@);
                        }
                        return Some(&fields[i].1);
                    }
                    i += 1;
                }
                None
            },
            _ => None,
        }
    }

    /// The text, when this is a string.
    pub fn as_str(&self) -> (r: Option<&str>)
        ensures
            match self {
                Value::String(t) => r matches Some(x) && x@ == t@,
                _ => r is None,
            },
    {
        match self {
            Value::String(t) => Some(t.as_str()),
            _ => None,
        }
    }

    /// The items, when this is an array.
    pub fn as_array(&self) -> (r: Option<&[Value]>)
        ensures
            match self {
                Value::Array(items) => r matches Some(x) && x@ == items@,
                _ => r is None,
            },
    {
        match self {
            Value::Array(items) => Some(items.as_slice()),
            _ => None,
        }
    }

    /// The text of the number, when this is a number.
    pub fn as_number(&self) -> (r: Option<&str>)
        ensures
            match self {
                Value::Number(t) => r matches Some(x) && x@ == t@,
                _ => r is None,
            },
    {
        match self {
            Value::Number(t) => Some(t.as_str()),
            _ => None,
        }
    }
}

// ---------------------------------------------------------------------------
// Writing strings.
// ---------------------------------------------------------------------------
/// Lowercase hexadecimal digit.
pub open spec fn hex_char(d: int) -> char {
    if d < 10 {
        ((0x30 + d) as u32) as char
    } else {
        ((0x61 + d - 10) as u32) as char
    }
}

/// How one character is written inside a JSON string literal.
pub open spec fn escaped(c: char) -> Seq<char> {
    if c == '"' {
        seq!['\\', '"']
    } else if c == '\\' {
        seq!['\\', '\\']
    } else if c == '\n' {
        seq!['\\', 'n']
    } else if c == '\r' {
        seq!['\\', 'r']
    } else if c == '\t' {
        seq!['\\', 't']
    } else if (c as u32) < 0x20 {
        seq!['\\', 'u', '0', '0', hex_char(((c as u32) / 16) as int), hex_char(((c as u32) % 16) as int)]
    } else {
        seq![c]
    }
}

/// The characters of `cs`, each written as inside a string literal.
pub open spec fn escaped_all(cs: Seq<char>) -> Seq<char>
    decreases cs.len(),
{
    if cs.len() == 0 {
        Seq::empty()
    } else {
        escaped_all(cs.drop_last()) + escaped(cs.last())
    }
}

fn hex_digit_char(d: u32) -> (c: char)
    requires
        d < 16,
    ensures
        c == hex_char(d as int),
{
    if d < 10 {
        ((0x30 + d) as u8) as char
    } else {
        ((0x61 + d - 10) as u8) as char
    }
}

/// Quotes and escapes `s` as a JSON string literal.
pub fn quote(s: &str) -> (r: String)
    ensures
        r@ == seq!['"'] + escaped_all(s@) + seq!['"'],
{
    let cs = chars_of(s);
    let mut out = String::new();
    push_char(&mut out, '"');
    let mut i: usize = 0;
    while i < cs.len()
        invariant
            cs@ == s@,
            i <= cs@.len(),
            out@ == seq!['"'] + escaped_all(cs@.take(i as int)),
        decreases cs@.len() - i,
    {
        let c = cs[i];
        let ghost before = out@;
        if c == '"' {
            push_char(&mut out, '\\');
            push_char(&mut out, '"');
        } else if c == '\\' {
            push_char(&mut out, '\\');
            push_char(&mut out, '\\');
        } else if c == '\n' {
            push_char(&mut out, '\\');
            push_char(&mut out, 'n');
        } else if c == '\r' {
            push_char(&mut out, '\\');
            push_char(&mut out, 'r');
        } else if c == '\t' {
            push_char(&mut out, '\\');
            push_char(&mut out, 't');
        } else if (c as u32) < 0x20 {
            let v = c as u32;
            push_char(&mut out, '\\');
            push_char(&mut out, 'u');
            push_char(&mut out, '0');
            push_char(&mut out, '0');
            push_char(&mut out, hex_digit_char(v / 16));
            push_char(&mut out, hex_digit_char(v % 16));
        } else {
            push_char(&mut out, c);
        }
        proof {
            assert(cs@.take(i + 1).drop_last() =~= cs@.take(i as int));
            assert(cs@.take(i + 1).last() == c);
            assert(out@ =~= before + escaped(c));
        }
        i += 1;
    }
    push_char(&mut out, '"');
    proof {
        assert(cs@.take(cs@.len() as int) =~= cs@);
    }
    out
}
// ---------------------------------------------------------------------------
// Reading back what `quote` wrote.
// ---------------------------------------------------------------------------
proof fn lemma_escaped_all_front(cs: Seq<char>)
    requires
        cs.len() > 0,
    ensures
        escaped_all(cs) == escaped(cs[0]) + escaped_all(cs.subrange(1, cs.len() as int)),
    decreases cs.len(),
{
    let rest = cs.subrange(1, cs.len() as int);
    if cs.len() == 1 {
        assert(rest =~= Seq::<char>::empty());
        assert(cs.drop_last() =~= Seq::<char>::empty());
        assert(escaped_all(cs) == escaped_all(cs.drop_last()) + escaped(cs.last()));
        assert(escaped_all(cs) =~= escaped(cs[0]));
    } else {
        lemma_escaped_all_front(cs.drop_last());
        assert(cs.drop_last().subrange(1, cs.len() - 1) =~= rest.drop_last());
        assert(rest.last() == cs.last());
        assert(escaped_all(rest) == escaped_all(rest.drop_last()) + escaped(rest.last()));
        assert(escaped_all(cs) =~= escaped(cs[0]) + escaped_all(rest));
    }
}

proof fn lemma_hex_char(d: int)
    requires
        0 <= d < 16,
    ensures
        is_hex(hex_char(d)),
        hex_value(hex_char(d)) == d,
        (hex_char(d) as u32) < 0x80,
{
}

/// One escaped character is read back by one step of the string grammar.
proof fn lemma_string_escaped_char(s: Seq<char>, pos: int, c: char, out: Seq<char>)
    requires
        0 <= pos,
        pos + escaped(c).len() < s.len(),
        s.subrange(pos, pos + escaped(c).len()) == escaped(c),
    ensures
        string_spec(s, pos, out) == string_spec(s, pos + escaped(c).len(), out.push(c)),
{
    reveal(string_spec);
    let e = escaped(c);
    assert(s[pos] == e[0]);
    if c == '"' || c == '\\' || c == '\n' || c == '\r' || c == '\t' {
        assert(s[pos + 1] == e[1]);
    } else if (c as u32) < 0x20 {
        let u = c as u32;
        let d1 = (u / 16) as int;
        let d2 = (u % 16) as int;
        assert(s[pos + 1] == e[1]);
        assert(s[pos + 2] == e[2]);
        assert(s[pos + 3] == e[3]);
        assert(s[pos + 4] == e[4]);
        assert(s[pos + 5] == e[5]);
        lemma_hex_char(d1);
        lemma_hex_char(d2);
        reveal(unicode_escape);
        reveal(hex4_spec);
        reveal_with_fuel(bytes_of, 5);
        assert(hex_value('0') == 0);
        let hi = d1 * 16 + d2;
        assert(hi == u as int);
        assert(hex4_spec(s, pos + 2) == Ok::<(int, int), (int, Fault)>((hi, pos + 6)));
        vstd::utf8::char_u32_cast(c, u);
        assert(unicode_escape(s, pos + 2) == Ok::<(char, int), (int, Fault)>((c, pos + 6)));
    } else {
        assert(e =~= seq![c]);
    }
}

/// The escaped characters of `cs` followed by a quote read back as `cs`.
proof fn lemma_string_escaped(s: Seq<char>, pos: int, cs: Seq<char>, out: Seq<char>)
    requires
        0 <= pos,
        pos + escaped_all(cs).len() < s.len(),
        s.subrange(pos, pos + escaped_all(cs).len()) == escaped_all(cs),
        s[pos + escaped_all(cs).len()] == '"',
    ensures
        string_spec(s, pos, out) == Ok::<(Seq<char>, int), (int, Fault)>(
            (out + cs, pos + escaped_all(cs).len() + 1),
        ),
    decreases cs.len(),
{
    if cs.len() == 0 {
        reveal(string_spec);
        assert(out + cs =~= out);
    } else {
        let c = cs[0];
        let rest = cs.subrange(1, cs.len() as int);
        lemma_escaped_all_front(cs);
        let k = escaped(c).len() as int;
        assert(s.subrange(pos, pos + k) =~= escaped(c)) by {
            assert(s.subrange(pos, pos + k) =~= s.subrange(pos, pos + escaped_all(cs).len()).subrange(0, k));
        }
        lemma_string_escaped_char(s, pos, c, out);
        assert(s.subrange(pos + k, pos + k + escaped_all(rest).len()) =~= escaped_all(rest)) by {
            assert(s.subrange(pos + k, pos + k + escaped_all(rest).len()) =~= s.subrange(
                pos,
                pos + escaped_all(cs).len(),
            ).subrange(k, escaped_all(cs).len() as int));
        }
        lemma_string_escaped(s, pos + k, rest, out.push(c));
        assert(out.push(c) + rest =~= out + cs);
    }
}

/// The round trip: what `quote` writes for `cs` reads back as the string `cs`.
pub proof fn lemma_quote_round_trip(cs: Seq<char>)
    ensures
        document_spec(seq!['"'] + escaped_all(cs) + seq!['"']) == Ok::<Json, (int, Fault)>(Json::Str(cs)),
{
    let s = seq!['"'] + escaped_all(cs) + seq!['"'];
    let n = escaped_all(cs).len() as int;
    assert(s.subrange(1, 1 + n) =~= escaped_all(cs));
    assert(s[1 + n] == '"');
    lemma_string_escaped(s, 1, cs, Seq::empty());
    assert(Seq::<char>::empty() + cs =~= cs);
    assert(ws_end(s, 0) == 0);
    assert(ws_end(s, n + 2) == n + 2);
    assert(value_spec(s, 0, 0) == Ok::<(Json, int), (int, Fault)>((Json::Str(cs), n + 2)));
}

} // verus!
