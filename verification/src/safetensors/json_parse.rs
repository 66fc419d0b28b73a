//! JSON parser for Safetensors headers and HF index files.
//!
//! Rejects duplicate object keys.

use crate::error::{ErrorView, ParserError};
use crate::ordered;
use crate::safetensors::json;
use crate::safetensors::json::{Json, JsonNumber, JsonValue};
use crate::safetensors::json_laws;
use crate::text;
use vstd::prelude::*;

verus! {

/// `char::from_u32` gives the character of a code point, except for surrogates and
/// numbers beyond the last code point.
pub assume_specification[ char::from_u32 ](i: u32) -> (r: Option<char>)
    ensures
        match r {
            Some(c) => !(0xD800 <= i <= 0xDFFF) && i <= 0x10_FFFF && c == i as char,
            None => 0xD800 <= i <= 0xDFFF || i > 0x10_FFFF,
        },
;

// ---------------------------------------------------------------------------
// Grammar
// ---------------------------------------------------------------------------
/// Why and where a text is not JSON; the position counts characters.
#[verifier::ext_equal]
pub struct JsonFault {
    pub at: int,
    pub reason: Seq<char>,
}

/// The character is Unicode white space.
pub open spec fn is_space(c: char) -> bool {
    let n = c as u32;
    ||| 0x09 <= n <= 0x0D
    ||| n == 0x20
    ||| n == 0x85
    ||| n == 0xA0
    ||| n == 0x1680
    ||| 0x2000 <= n <= 0x200A
    ||| n == 0x2028
    ||| n == 0x2029
    ||| n == 0x202F
    ||| n == 0x205F
    ||| n == 0x3000
}

/// The character is a decimal digit.
pub open spec fn is_digit(c: char) -> bool {
    '0' <= c && c <= '9'
}

/// The first position from `i` on that holds no white space.
pub open spec fn skip_space(s: Seq<char>, i: int) -> int
    decreases s.len() - i,
{
    if 0 <= i < s.len() && is_space(s[i]) {
        skip_space(s, i + 1)
    } else {
        i
    }
}

/// The first position from `i` on that holds no digit.
pub open spec fn skip_digits(s: Seq<char>, i: int) -> int
    decreases s.len() - i,
{
    if 0 <= i < s.len() && is_digit(s[i]) {
        skip_digits(s, i + 1)
    } else {
        i
    }
}

/// A fault at `at`.
pub open spec fn fault<T>(at: int, reason: Seq<char>) -> Result<T, JsonFault> {
    Err(JsonFault { at, reason })
}

/// The input ends where something is missing.
pub open spec fn eof<T>(at: int) -> Result<T, JsonFault> {
    fault(at, "unexpected EOF"@)
}

/// The value of a hexadecimal digit.
pub open spec fn hex_value(c: char) -> Option<nat> {
    if '0' <= c && c <= '9' {
        Some(((c as u32) - ('0' as u32)) as nat)
    } else if 'a' <= c && c <= 'f' {
        Some(((c as u32) - ('a' as u32) + 10) as nat)
    } else if 'A' <= c && c <= 'F' {
        Some(((c as u32) - ('A' as u32) + 10) as nat)
    } else {
        None
    }
}

/// The number that `count` hexadecimal digits from `i` on add to `code`.
pub open spec fn hex_digits(s: Seq<char>, i: int, code: nat, count: nat) -> Result<nat, JsonFault>
    decreases count,
{
    if count == 0 {
        Ok(code)
    } else if i >= s.len() {
        eof(i)
    } else {
        match hex_value(s[i]) {
            None => fault(i + 1, "invalid hex digit in unicode escape"@),
            Some(d) => hex_digits(s, i + 1, code * 16 + d, (count - 1) as nat),
        }
    }
}

/// The character that an escape sequence stands for; `i` is just behind the backslash.
pub open spec fn escape_char(s: Seq<char>, i: int) -> Result<(char, int), JsonFault> {
    if i >= s.len() {
        eof(i)
    } else {
        let c = s[i];
        if c == '"' || c == '\\' || c == '/' {
            Ok((c, i + 1))
        } else if c == 'b' {
            Ok(('\u{8}', i + 1))
        } else if c == 'f' {
            Ok(('\u{C}', i + 1))
        } else if c == 'n' {
            Ok(('\n', i + 1))
        } else if c == 'r' {
            Ok(('\r', i + 1))
        } else if c == 't' {
            Ok(('\t', i + 1))
        } else if c == 'u' {
            match hex_digits(s, i + 1, 0, 4) {
                Err(e) => Err(e),
                Ok(code) => if 0xD800 <= code <= 0xDFFF {
                    fault(i + 5, "invalid unicode escape"@)
                } else {
                    Ok((code as u32 as char, i + 5))
                },
            }
        } else {
            fault(i + 1, "invalid escape sequence: \\"@ + seq![c])
        }
    }
}

/// The rest of a string up to its closing quote, behind the characters read so far.
pub open spec fn string_body(s: Seq<char>, i: int, read: Seq<char>) -> Result<
    (Seq<char>, int),
    JsonFault,
>
    decreases s.len() - i,
{
    if i < 0 || i >= s.len() {
        eof(i)
    } else if s[i] == '"' {
        Ok((read, i + 1))
    } else if s[i] == '\\' {
        match escape_char(s, i + 1) {
            Err(e) => Err(e),
            Ok((c, next)) => if !(i < next <= s.len()) {
                eof(i)
            } else {
                string_body(s, next, read.push(c))
            },
        }
    } else if 0x20 > s[i] as u32 {
        fault(i + 1, "control character in string"@)
    } else {
        string_body(s, i + 1, read.push(s[i]))
    }
}

/// The string whose opening quote stands at `i`.
pub open spec fn string_at(s: Seq<char>, i: int) -> Result<(Seq<char>, int), JsonFault> {
    if i < 0 || i >= s.len() {
        eof(i)
    } else if s[i] != '"' {
        fault(i + 1, "expected '\"', got '"@ + seq![s[i]] + "'"@)
    } else {
        string_body(s, i + 1, Seq::empty())
    }
}

/// The end of the integer part of a number that starts at `a`.
pub open spec fn integer_end(s: Seq<char>, a: int) -> Result<int, JsonFault> {
    if a >= s.len() {
        eof(a)
    } else if !is_digit(s[a]) {
        fault(a + 1, "invalid number"@)
    } else if s[a] == '0' {
        if a + 1 < s.len() && is_digit(s[a + 1]) {
            fault(a + 1, "leading zeros are not allowed"@)
        } else {
            Ok(a + 1)
        }
    } else {
        Ok(skip_digits(s, a + 1))
    }
}

/// The end of the fraction, if there is one at `b`.
pub open spec fn fraction_end(s: Seq<char>, b: int) -> Result<int, JsonFault> {
    if b < s.len() && s[b] == '.' {
        if b + 1 >= s.len() {
            eof(b + 1)
        } else if !is_digit(s[b + 1]) {
            fault(b + 2, "invalid fraction in number"@)
        } else {
            Ok(skip_digits(s, b + 2))
        }
    } else {
        Ok(b)
    }
}

/// The end of the exponent, if there is one at `c`.
pub open spec fn exponent_end(s: Seq<char>, c: int) -> Result<int, JsonFault> {
    if c < s.len() && (s[c] == 'e' || s[c] == 'E') {
        let d = if c + 1 < s.len() && (s[c + 1] == '+' || s[c + 1] == '-') {
            c + 2
        } else {
            c + 1
        };
        if d >= s.len() {
            eof(d)
        } else if !is_digit(s[d]) {
            fault(d + 1, "invalid exponent in number"@)
        } else {
            Ok(skip_digits(s, d + 1))
        }
    } else {
        Ok(c)
    }
}

/// The number that starts at `i`.
pub open spec fn number(s: Seq<char>, i: int) -> Result<(Json, int), JsonFault> {
    let a = if i < s.len() && s[i] == '-' {
        i + 1
    } else {
        i
    };
    match integer_end(s, a) {
        Err(e) => Err(e),
        Ok(b) => match fraction_end(s, b) {
            Err(e) => Err(e),
            Ok(c) => match exponent_end(s, c) {
                Err(e) => Err(e),
                Ok(end) => {
                    let magnitude = text::digits_value(s.subrange(a, b));
                    if end > b {
                        Ok((Json::Float(s.subrange(i, end)), end))
                    } else if a > i {
                        if magnitude > 0x8000_0000_0000_0000 {
                            fault(end, "number out of range"@)
                        } else {
                            Ok((Json::I64((-magnitude) as i64), end))
                        }
                    } else if magnitude > u64::MAX {
                        fault(end, "number out of range"@)
                    } else {
                        Ok((Json::U64(magnitude as u64), end))
                    }
                },
            },
        },
    }
}

/// Where `key` belongs among entries in the order of their keys.
pub open spec fn entry_slot(entries: Seq<(Seq<char>, Json)>, key: Seq<char>) -> int
    decreases entries.len(),
{
    if entries.len() == 0 || !text::less(entries[0].0, key) {
        0
    } else {
        1 + entry_slot(entries.skip(1), key)
    }
}

/// The entries with one more, in the order of the keys.
pub open spec fn with_entry(entries: Seq<(Seq<char>, Json)>, key: Seq<char>, value: Json) -> Seq<
    (Seq<char>, Json),
> {
    entries.insert(entry_slot(entries, key), (key, value))
}

/// The value at `i`, after white space.
pub open spec fn value(s: Seq<char>, i: int) -> Result<(Json, int), JsonFault>
    decreases s.len() - i, 0int,
{
    let j = skip_space(s, i);
    if j < i || j >= s.len() {
        eof(j)
    } else if s[j] == '"' {
        match string_body(s, j + 1, Seq::empty()) {
            Err(e) => Err(e),
            Ok((t, end)) => Ok((Json::Text(t), end)),
        }
    } else if s[j] == '{' {
        let k = skip_space(s, j + 1);
        if k < s.len() && s[k] == '}' {
            Ok((Json::Object(Seq::empty()), k + 1))
        } else if !(j < k <= s.len()) {
            eof(k)
        } else {
            members(s, k, Seq::empty())
        }
    } else if s[j] == '[' {
        let k = skip_space(s, j + 1);
        if k < s.len() && s[k] == ']' {
            Ok((Json::Array(Seq::empty()), k + 1))
        } else if !(j < k <= s.len()) {
            eof(k)
        } else {
            elements(s, k, Seq::empty())
        }
    } else if s[j] == 't' || s[j] == 'f' {
        if text::occurs_at(s, j, "true"@) {
            Ok((Json::Bool(true), j + 4))
        } else if text::occurs_at(s, j, "false"@) {
            Ok((Json::Bool(false), j + 5))
        } else {
            fault(j, "invalid boolean"@)
        }
    } else if s[j] == 'n' {
        if text::occurs_at(s, j, "null"@) {
            Ok((Json::Null, j + 4))
        } else {
            fault(j, "invalid null"@)
        }
    } else if s[j] == '-' || is_digit(s[j]) {
        number(s, j)
    } else {
        fault(j, "unexpected character: '"@ + seq![s[j]] + "'"@)
    }
}

/// The rest of an array from its next element on, behind the elements read so far.
///
/// A value is never empty; the definition tests for it so that it is well-founded on its
/// own.
pub open spec fn elements(s: Seq<char>, i: int, read: Seq<Json>) -> Result<(Json, int), JsonFault>
    decreases s.len() - i, 1int,
{
    match value(s, i) {
        Err(e) => Err(e),
        Ok((v, j)) => {
            let k = skip_space(s, j);
            if j <= i || k < j || k >= s.len() {
                fault(k, "unterminated array"@)
            } else if s[k] == ',' {
                let m = skip_space(s, k + 1);
                if m < s.len() && s[m] == ']' {
                    fault(m, "trailing comma in array"@)
                } else if !(k < m <= s.len()) {
                    eof(m)
                } else {
                    elements(s, m, read.push(v))
                }
            } else if s[k] == ']' {
                Ok((Json::Array(read.push(v)), k + 1))
            } else {
                fault(k, "expected ',' or ']' in array, got '"@ + seq![s[k]] + "'"@)
            }
        },
    }
}

/// The rest of an object from its next member on, behind the members read so far.
pub open spec fn members(s: Seq<char>, i: int, read: Seq<(Seq<char>, Json)>) -> Result<
    (Json, int),
    JsonFault,
>
    decreases s.len() - i, 1int,
{
    if i < 0 || i >= s.len() || s[i] != '"' {
        fault(i, "expected string key in object"@)
    } else {
        match string_body(s, i + 1, Seq::empty()) {
            Err(e) => Err(e),
            Ok((key, j)) => {
                let k = skip_space(s, j);
                if json::entry_keys(read).contains(key) {
                    fault(j, "duplicate JSON key '"@ + key + "'"@)
                } else if j <= i || k < j || k >= s.len() {
                    eof(k)
                } else if s[k] != ':' {
                    fault(k + 1, "expected ':', got '"@ + seq![s[k]] + "'"@)
                } else {
                    match value(s, k + 1) {
                        Err(e) => Err(e),
                        Ok((v, n)) => {
                            let p = skip_space(s, n);
                            if n <= k || p < n || p >= s.len() {
                                fault(p, "unterminated object"@)
                            } else if s[p] == ',' {
                                let q = skip_space(s, p + 1);
                                if q < s.len() && s[q] == '}' {
                                    fault(q, "trailing comma in object"@)
                                } else if !(p < q <= s.len()) {
                                    eof(q)
                                } else {
                                    members(s, q, with_entry(read, key, v))
                                }
                            } else if s[p] == '}' {
                                Ok((Json::Object(with_entry(read, key, v)), p + 1))
                            } else {
                                fault(
                                    p,
                                    "expected ',' or '}' in object, got '"@ + seq![s[p]] + "'"@,
                                )
                            }
                        },
                    }
                }
            },
        }
    }
}

/// The value that a text denotes, with nothing but white space around it.
pub open spec fn document(s: Seq<char>) -> Result<Json, JsonFault> {
    match value(s, 0) {
        Err(e) => Err(e),
        Ok((v, j)) => {
            let k = skip_space(s, j);
            if k < s.len() {
                fault(k, "trailing content after JSON value"@)
            } else {
                Ok(v)
            }
        },
    }
}

/// The position in bytes of the character at `i`.
pub open spec fn byte_offset(s: Seq<char>, i: int) -> nat {
    vstd::utf8::encode_utf8(s.take(i)).len()
}

/// The explanation of a fault in a text.
pub open spec fn fault_text(s: Seq<char>, f: JsonFault) -> Seq<char> {
    "JSON parse error at offset "@ + text::decimal(byte_offset(s, f.at)) + ": "@ + f.reason
}

/// What parsing a text gives, in the file at `path`.
pub open spec fn parsed(s: Seq<char>, path: Seq<char>) -> Result<Json, ErrorView> {
    match document(s) {
        Ok(v) => Ok(v),
        Err(f) => Err(ErrorView::InvalidLayout { path, reason: fault_text(s, f) }),
    }
}

// ---------------------------------------------------------------------------
// Parser
// ---------------------------------------------------------------------------
/// Where a document stopped being JSON, and why.
#[derive(Debug)]
pub struct Fault {
    /// The character at which reading stopped.
    pub at: usize,
    /// Why it stopped.
    pub reason: String,
}

impl View for Fault {
    type V = JsonFault;

    open spec fn view(&self) -> JsonFault {
        JsonFault { at: self.at as int, reason: self.reason@ }
    }
}

fn stop(at: usize, reason: &str) -> (r: Fault)
    ensures
        r@ == (JsonFault { at: at as int, reason: reason@ }),
{
    Fault { at, reason: reason.to_owned() }
}

fn stop_at_char(at: usize, before: &str, c: char, after: &str) -> (r: Fault)
    ensures
        r@ == (JsonFault { at: at as int, reason: before@ + seq![c] + after@ }),
{
    let mut reason = before.to_owned();
    reason.push(c);
    assert(reason@ =~= before@ + seq![c]);
    reason.append(after);
    Fault { at, reason }
}

/// What reading a number's part gave.
spec fn end_outcome(r: Result<usize, Fault>) -> Result<int, JsonFault> {
    match r {
        Ok(n) => Ok(n as int),
        Err(f) => Err(f@),
    }
}

/// What reading a string gave.
pub open spec fn string_outcome(r: Result<(String, usize), Fault>) -> Result<
    (Seq<char>, int),
    JsonFault,
> {
    match r {
        Ok((t, n)) => Ok((t@, n as int)),
        Err(f) => Err(f@),
    }
}

/// What reading a value gave.
spec fn value_outcome(r: Result<(JsonValue, usize), Fault>) -> Result<(Json, int), JsonFault> {
    match r {
        Ok((v, n)) => Ok((v.model(), n as int)),
        Err(f) => Err(f@),
    }
}

fn space(c: char) -> (r: bool)
    ensures
        r == is_space(c),
{
    let n: u32 = c as u32;
    (0x09 <= n && n <= 0x0D) || n == 0x20 || n == 0x85 || n == 0xA0 || n == 0x1680 || (0x2000 <= n
        && n <= 0x200A) || n == 0x2028 || n == 0x2029 || n == 0x202F || n == 0x205F || n == 0x3000
}

fn digit(c: char) -> (r: bool)
    ensures
        r == is_digit(c),
{
    c >= '0' && c <= '9'
}

fn skip_whitespace(chars: &[char], i: usize) -> (r: usize)
    requires
        i <= chars@.len(),
    ensures
        r == skip_space(chars@, i as int),
        i <= r <= chars@.len(),
        r < chars@.len() ==> !is_space(chars@[r as int]),
{
    let mut j: usize = i;
    while j < chars.len() && space(chars[j])
        invariant
            i <= j <= chars@.len(),
            skip_space(chars@, i as int) == skip_space(chars@, j as int),
        decreases chars@.len() - j,
    {
        j += 1;
    }
    j
}

fn skip_number_digits(chars: &[char], i: usize) -> (r: usize)
    requires
        i <= chars@.len(),
    ensures
        r == skip_digits(chars@, i as int),
        i <= r <= chars@.len(),
{
    let mut j: usize = i;
    while j < chars.len() && digit(chars[j])
        invariant
            i <= j <= chars@.len(),
            skip_digits(chars@, i as int) == skip_digits(chars@, j as int),
        decreases chars@.len() - j,
    {
        j += 1;
    }
    j
}

fn hex_digit(c: char) -> (r: Option<u32>)
    ensures
        match r {
            Some(d) => hex_value(c) == Some(d as nat) && d < 16,
            None => hex_value(c) is None,
        },
{
    if c >= '0' && c <= '9' {
        Some(c as u32 - '0' as u32)
    } else if c >= 'a' && c <= 'f' {
        Some(c as u32 - 'a' as u32 + 10)
    } else if c >= 'A' && c <= 'F' {
        Some(c as u32 - 'A' as u32 + 10)
    } else {
        None
    }
}

fn parse_unicode_escape(chars: &[char], i: usize) -> (r: Result<u32, Fault>)
    requires
        i <= chars@.len(),
    ensures
        match r {
            Ok(code) => {
                &&& hex_digits(chars@, i as int, 0, 4) == Ok::<nat, JsonFault>(code as nat)
                &&& i + 4 <= chars@.len()
                &&& code <= 0xFFFF
            },
            Err(f) => hex_digits(chars@, i as int, 0, 4) == Err::<nat, JsonFault>(f@) && f@.at
                <= chars@.len(),
        },
{
    let mut code: u32 = 0;
    let mut k: usize = 0;
    assert(chars.len() == chars@.len());
    while k < 4
        invariant
            k <= 4,
            i + k <= chars@.len(),
            chars@.len() <= usize::MAX,
            k == 0 ==> code == 0,
            k == 1 ==> code < 16,
            k == 2 ==> code < 256,
            k == 3 ==> code < 4096,
            k == 4 ==> code < 65536,
            hex_digits(chars@, i as int, 0, 4) == hex_digits(
                chars@,
                i + k,
                code as nat,
                (4 - k) as nat,
            ),
        decreases 4 - k,
    {
        if i + k >= chars.len() {
            return Err(stop(i + k, "unexpected EOF"));
        }
        match hex_digit(chars[i + k]) {
            None => {
                return Err(stop(i + k + 1, "invalid hex digit in unicode escape"));
            },
            Some(d) => {
                code = code * 16 + d;
            },
        }
        k += 1;
    }
    Ok(code)
}

fn parse_escape(chars: &[char], i: usize) -> (r: Result<(char, usize), Fault>)
    requires
        i <= chars@.len(),
    ensures
        match r {
            Ok((c, n)) => escape_char(chars@, i as int) == Ok::<(char, int), JsonFault>(
                (c, n as int),
            ) && i < n <= chars@.len(),
            Err(f) => escape_char(chars@, i as int) == Err::<(char, int), JsonFault>(f@) && f@.at
                <= chars@.len(),
        },
{
    if i >= chars.len() {
        return Err(stop(i, "unexpected EOF"));
    }
    let c = chars[i];
    if c == '"' || c == '\\' || c == '/' {
        Ok((c, i + 1))
    } else if c == 'b' {
        Ok(('\u{8}', i + 1))
    } else if c == 'f' {
        Ok(('\u{C}', i + 1))
    } else if c == 'n' {
        Ok(('\n', i + 1))
    } else if c == 'r' {
        Ok(('\r', i + 1))
    } else if c == 't' {
        Ok(('\t', i + 1))
    } else if c == 'u' {
        match parse_unicode_escape(chars, i + 1) {
            Err(f) => Err(f),
            Ok(code) => match char::from_u32(code) {
                Some(ch) => Ok((ch, i + 5)),
                None => Err(stop(i + 5, "invalid unicode escape")),
            },
        }
    } else {
        let f = stop_at_char(i + 1, "invalid escape sequence: \\", c, "");
        proof {
            reveal_strlit("");
            assert("invalid escape sequence: \\"@ + seq![c] + ""@
                =~= "invalid escape sequence: \\"@ + seq![c]);
        }
        Err(f)
    }
}

/// Parse the rest of a string, behind its opening quote.
fn parse_string_body(chars: &[char], i: usize) -> (r: Result<(String, usize), Fault>)
    requires
        i <= chars@.len(),
    ensures
        string_outcome(r) == string_body(chars@, i as int, Seq::empty()),
        match r {
            Ok((_, n)) => i < n <= chars@.len(),
            Err(f) => f@.at <= chars@.len(),
        },
{
    let mut text = String::new();
    let mut j: usize = i;
    assert(chars.len() == chars@.len());
    loop
        invariant
            i <= j <= chars@.len(),
            chars@.len() <= usize::MAX,
            string_body(chars@, i as int, Seq::empty()) == string_body(
                chars@,
                j as int,
                text@,
            ),
        decreases chars@.len() - j,
    {
        if j >= chars.len() {
            return Err(stop(j, "unexpected EOF"));
        }
        let c = chars[j];
        if c == '"' {
            return Ok((text, j + 1));
        }
        if c == '\\' {
            match parse_escape(chars, j + 1) {
                Err(f) => {
                    return Err(f);
                },
                Ok((e, next)) => {
                    text.push(e);
                    j = next;
                },
            }
        } else if 0x20 > c as u32 {
            return Err(stop(j + 1, "control character in string"));
        } else {
            text.push(c);
            j += 1;
        }
    }
}

/// Parse the string whose opening quote stands at `i`; the second result is where the text
/// goes on.
pub fn parse_string(chars: &[char], i: usize) -> (r: Result<(String, usize), Fault>)
    requires
        i <= chars@.len(),
    ensures
        string_outcome(r) == string_at(chars@, i as int),
        match r {
            Ok((_, n)) => i < n <= chars@.len(),
            Err(f) => f@.at <= chars@.len(),
        },
{
    assert(chars.len() == chars@.len());
    if i >= chars.len() {
        return Err(stop(i, "unexpected EOF"));
    }
    let c = chars[i];
    if c != '"' {
        return Err(stop_at_char(i + 1, "expected '\"', got '", c, "'"));
    }
    parse_string_body(chars, i + 1)
}

fn parse_integer_part(chars: &[char], a: usize) -> (r: Result<usize, Fault>)
    requires
        a <= chars@.len(),
    ensures
        end_outcome(r) == integer_end(chars@, a as int),
        match r {
            Ok(n) => a < n <= chars@.len(),
            Err(f) => f@.at <= chars@.len(),
        },
{
    if a >= chars.len() {
        return Err(stop(a, "unexpected EOF"));
    }
    if !digit(chars[a]) {
        return Err(stop(a + 1, "invalid number"));
    }
    if chars[a] == '0' {
        if a + 1 < chars.len() && digit(chars[a + 1]) {
            return Err(stop(a + 1, "leading zeros are not allowed"));
        }
        Ok(a + 1)
    } else {
        Ok(skip_number_digits(chars, a + 1))
    }
}

fn parse_fraction_part(chars: &[char], b: usize) -> (r: Result<usize, Fault>)
    requires
        b <= chars@.len(),
    ensures
        end_outcome(r) == fraction_end(chars@, b as int),
        match r {
            Ok(n) => b <= n <= chars@.len(),
            Err(f) => f@.at <= chars@.len(),
        },
{
    if b < chars.len() && chars[b] == '.' {
        if b + 1 >= chars.len() {
            return Err(stop(b + 1, "unexpected EOF"));
        }
        if !digit(chars[b + 1]) {
            return Err(stop(b + 2, "invalid fraction in number"));
        }
        Ok(skip_number_digits(chars, b + 2))
    } else {
        Ok(b)
    }
}

fn parse_exponent_part(chars: &[char], c: usize) -> (r: Result<usize, Fault>)
    requires
        c <= chars@.len(),
    ensures
        end_outcome(r) == exponent_end(chars@, c as int),
        match r {
            Ok(n) => c <= n <= chars@.len(),
            Err(f) => f@.at <= chars@.len(),
        },
{
    if c < chars.len() && (chars[c] == 'e' || chars[c] == 'E') {
        let d: usize = if c + 1 < chars.len() && (chars[c + 1] == '+' || chars[c + 1] == '-') {
            c + 2
        } else {
            c + 1
        };
        if d >= chars.len() {
            return Err(stop(d, "unexpected EOF"));
        }
        if !digit(chars[d]) {
            return Err(stop(d + 1, "invalid exponent in number"));
        }
        Ok(skip_number_digits(chars, d + 1))
    } else {
        Ok(c)
    }
}

proof fn lemma_skip_digits(s: Seq<char>, i: int)
    requires
        0 <= i <= s.len(),
    ensures
        i <= skip_digits(s, i) <= s.len(),
        forall|k: int| i <= k < skip_digits(s, i) ==> is_digit(#[trigger] s[k]),
    decreases s.len() - i,
{
    if i < s.len() && is_digit(s[i]) {
        lemma_skip_digits(s, i + 1);
    }
}

fn parse_number(chars: &[char], i: usize) -> (r: Result<(JsonValue, usize), Fault>)
    requires
        i <= chars@.len(),
    ensures
        value_outcome(r) == number(chars@, i as int),
        match r {
            Ok((_, n)) => i < n <= chars@.len(),
            Err(f) => f@.at <= chars@.len(),
        },
{
    let negative = i < chars.len() && chars[i] == '-';
    let a: usize = if negative {
        i + 1
    } else {
        i
    };
    let b: usize = match parse_integer_part(chars, a) {
        Err(f) => {
            return Err(f);
        },
        Ok(n) => n,
    };
    let c: usize = match parse_fraction_part(chars, b) {
        Err(f) => {
            return Err(f);
        },
        Ok(n) => n,
    };
    let end: usize = match parse_exponent_part(chars, c) {
        Err(f) => {
            return Err(f);
        },
        Ok(n) => n,
    };
    if end > b {
        let token = text::string_of_range(chars, i, end);
        return Ok((JsonValue::Number(JsonNumber::Float(token)), end));
    }
    let ghost body = chars@.subrange(a as int, b as int);
    proof {
        lemma_skip_digits(chars@, a + 1);
        assert forall|k: int| 0 <= k < body.len() implies text::digit_value(
            #[trigger] body[k],
        ) is Some by {
            assert(is_digit(chars@[a + k]));
        }
    }
    match text::digits_number(chars, a, b) {
        None => Err(stop(end, "number out of range")),
        Some(magnitude) => {
            if negative {
                if magnitude > 0x8000_0000_0000_0000 {
                    Err(stop(end, "number out of range"))
                } else {
                    let n: i64 = (-(magnitude as i128)) as i64;
                    Ok((JsonValue::Number(JsonNumber::I64(n)), end))
                }
            } else {
                Ok((JsonValue::Number(JsonNumber::U64(magnitude)), end))
            }
        },
    }
}

proof fn lemma_entry_slot(entries: Seq<(Seq<char>, Json)>, key: Seq<char>, p: int)
    requires
        0 <= p <= entries.len(),
        forall|j: int| 0 <= j < p ==> text::less(#[trigger] entries[j].0, key),
        p < entries.len() ==> !text::less(entries[p].0, key),
    ensures
        entry_slot(entries, key) == p,
    decreases entries.len(),
{
    if p > 0 {
        assert(text::less(entries[0].0, key));
        let rest = entries.skip(1);
        assert forall|j: int| 0 <= j < p - 1 implies text::less(#[trigger] rest[j].0, key) by {
            assert(rest[j] == entries[j + 1]);
        }
        lemma_entry_slot(rest, key, p - 1);
    }
}

/// Put a new entry where it belongs.
fn insert_entry(entries: &mut Vec<(String, JsonValue)>, at: usize, key: String, value: JsonValue)
    requires
        text::increasing(ordered::keys_of(old(entries)@)),
        at <= old(entries)@.len(),
        forall|j: int|
            0 <= j < at ==> text::less(#[trigger] ordered::keys_of(old(entries)@)[j], key@),
        forall|j: int|
            at <= j < old(entries)@.len() ==> text::less(
                key@,
                #[trigger] ordered::keys_of(old(entries)@)[j],
            ),
    ensures
        text::increasing(ordered::keys_of(final(entries)@)),
        json::entry_models(final(entries)@) == with_entry(
            json::entry_models(old(entries)@),
            key@,
            value.model(),
        ),
{
    let ghost before = json::entry_models(entries@);
    let ghost keys = ordered::keys_of(entries@);
    let ghost model = value.model();
    proof {
        text::lemma_less_total_order();
        assert forall|j: int| 0 <= j < at implies text::less(#[trigger] before[j].0, key@) by {
            assert(keys[j] == before[j].0);
        }
        if at < before.len() {
            assert(keys[at as int] == before[at as int].0);
            assert(text::less(key@, keys[at as int]));
        }
        lemma_entry_slot(before, key@, at as int);
        ordered::lemma_insert_in_order(entries@, at as int, key, value);
    }
    entries.insert(at, (key, value));
    assert(json::entry_models(entries@) =~= before.insert(at as int, (key@, model)));
}

fn parse_elements(chars: &[char], i: usize) -> (r: Result<(JsonValue, usize), Fault>)
    requires
        i <= chars@.len(),
    ensures
        value_outcome(r) == elements(chars@, i as int, Seq::empty()),
        match r {
            Ok((_, n)) => i < n <= chars@.len(),
            Err(f) => f@.at <= chars@.len(),
        },
    decreases chars@.len() - i, 1int,
{
    let mut items: Vec<JsonValue> = Vec::new();
    let mut j: usize = i;
    assert(json::models(items@) =~= Seq::empty());
    loop
        invariant
            i <= j <= chars@.len(),
            elements(chars@, i as int, Seq::empty()) == elements(
                chars@,
                j as int,
                json::models(items@),
            ),
        decreases chars@.len() - j,
    {
        let ghost before = json::models(items@);
        match parse_value(chars, j) {
            Err(f) => {
                return Err(f);
            },
            Ok((v, next)) => {
                items.push(v);
                assert(json::models(items@) =~= before.push(v.model()));
                let k: usize = skip_whitespace(chars, next);
                if k >= chars.len() {
                    return Err(stop(k, "unterminated array"));
                }
                if chars[k] == ',' {
                    let m: usize = skip_whitespace(chars, k + 1);
                    if m < chars.len() && chars[m] == ']' {
                        return Err(stop(m, "trailing comma in array"));
                    }
                    j = m;
                } else if chars[k] == ']' {
                    let array = JsonValue::Array(items);
                    proof {
                        json::lemma_model(array);
                    }
                    return Ok((array, k + 1));
                } else {
                    return Err(
                        stop_at_char(k, "expected ',' or ']' in array, got '", chars[k], "'"),
                    );
                }
            },
        }
    }
}

fn parse_members(chars: &[char], i: usize) -> (r: Result<(JsonValue, usize), Fault>)
    requires
        i <= chars@.len(),
    ensures
        value_outcome(r) == members(chars@, i as int, Seq::empty()),
        match r {
            Ok((_, n)) => i < n <= chars@.len(),
            Err(f) => f@.at <= chars@.len(),
        },
    decreases chars@.len() - i, 1int,
{
    let mut entries: Vec<(String, JsonValue)> = Vec::new();
    let mut j: usize = i;
    assert(json::entry_models(entries@) =~= Seq::empty());
    loop
        invariant
            i <= j <= chars@.len(),
            text::increasing(ordered::keys_of(entries@)),
            members(chars@, i as int, Seq::empty()) == members(
                chars@,
                j as int,
                json::entry_models(entries@),
            ),
        decreases chars@.len() - j,
    {
        if j >= chars.len() || chars[j] != '"' {
            return Err(stop(j, "expected string key in object"));
        }
        let (key, after_key): (String, usize) = match parse_string(chars, j) {
            Err(f) => {
                return Err(f);
            },
            Ok(k) => k,
        };
        let (found, slot): (bool, usize) = ordered::search(&entries, key.as_str());
        assert(json::entry_keys(json::entry_models(entries@)) =~= ordered::keys_of(entries@));
        if found {
            let reason = text::concat3("duplicate JSON key '", key.as_str(), "'");
            return Err(stop(after_key, reason.as_str()));
        }
        let k: usize = skip_whitespace(chars, after_key);
        if k >= chars.len() {
            return Err(stop(k, "unexpected EOF"));
        }
        if chars[k] != ':' {
            return Err(stop_at_char(k + 1, "expected ':', got '", chars[k], "'"));
        }
        match parse_value(chars, k + 1) {
            Err(f) => {
                return Err(f);
            },
            Ok((v, next)) => {
                insert_entry(&mut entries, slot, key, v);
                let p: usize = skip_whitespace(chars, next);
                if p >= chars.len() {
                    return Err(stop(p, "unterminated object"));
                }
                if chars[p] == ',' {
                    let q: usize = skip_whitespace(chars, p + 1);
                    if q < chars.len() && chars[q] == '}' {
                        return Err(stop(q, "trailing comma in object"));
                    }
                    j = q;
                } else if chars[p] == '}' {
                    let object = JsonValue::Object(entries);
                    proof {
                        json::lemma_model(object);
                    }
                    return Ok((object, p + 1));
                } else {
                    return Err(
                        stop_at_char(p, "expected ',' or '}' in object, got '", chars[p], "'"),
                    );
                }
            },
        }
    }
}

/// Parse the value at `i`, after white space.
fn parse_value(chars: &[char], i: usize) -> (r: Result<(JsonValue, usize), Fault>)
    requires
        i <= chars@.len(),
    ensures
        value_outcome(r) == value(chars@, i as int),
        match r {
            Ok((_, n)) => i < n <= chars@.len(),
            Err(f) => f@.at <= chars@.len(),
        },
    decreases chars@.len() - i, 0int,
{
    let j: usize = skip_whitespace(chars, i);
    if j >= chars.len() {
        return Err(stop(j, "unexpected EOF"));
    }
    let c = chars[j];
    if c == '"' {
        match parse_string(chars, j) {
            Err(f) => Err(f),
            Ok((t, end)) => Ok((JsonValue::String(t), end)),
        }
    } else if c == '{' {
        let k: usize = skip_whitespace(chars, j + 1);
        if k < chars.len() && chars[k] == '}' {
            let object = JsonValue::Object(Vec::new());
            proof {
                json::lemma_model(object);
                assert(json::entry_models(object->Object_0@) =~= Seq::empty());
            }
            return Ok((object, k + 1));
        }
        parse_members(chars, k)
    } else if c == '[' {
        let k: usize = skip_whitespace(chars, j + 1);
        if k < chars.len() && chars[k] == ']' {
            let array = JsonValue::Array(Vec::new());
            proof {
                json::lemma_model(array);
                assert(json::models(array->Array_0@) =~= Seq::empty());
            }
            return Ok((array, k + 1));
        }
        parse_elements(chars, k)
    } else if c == 't' || c == 'f' {
        proof {
            reveal_strlit("true");
            reveal_strlit("false");
        }
        if text::occurs(chars, j, "true") {
            Ok((JsonValue::Bool(true), j + 4))
        } else if text::occurs(chars, j, "false") {
            Ok((JsonValue::Bool(false), j + 5))
        } else {
            Err(stop(j, "invalid boolean"))
        }
    } else if c == 'n' {
        proof {
            reveal_strlit("null");
        }
        if text::occurs(chars, j, "null") {
            Ok((JsonValue::Null, j + 4))
        } else {
            Err(stop(j, "invalid null"))
        }
    } else if c == '-' || digit(c) {
        parse_number(chars, j)
    } else {
        Err(stop_at_char(j, "unexpected character: '", c, "'"))
    }
}

fn utf8_width(c: char) -> (r: usize)
    ensures
        r == vstd::utf8::encode_scalar(c as u32).len(),
        r <= 4,
{
    proof {
        vstd::utf8::char_is_scalar(c);
    }
    let n: u32 = c as u32;
    if n <= 0x7F {
        1
    } else if n <= 0x7FF {
        2
    } else if n <= 0xFFFF {
        3
    } else {
        4
    }
}

proof fn lemma_encode_push(s: Seq<char>, c: char)
    ensures
        vstd::utf8::encode_utf8(s.push(c)) == vstd::utf8::encode_utf8(s)
            + vstd::utf8::encode_scalar(c as u32),
    decreases s.len(),
{
    let all = s.push(c);
    if s.len() == 0 {
        assert(all.drop_first() =~= Seq::<char>::empty());
        assert(vstd::utf8::encode_utf8(all.drop_first()) =~= Seq::<u8>::empty());
        assert(vstd::utf8::encode_utf8(s) =~= Seq::<u8>::empty());
        assert(all[0] == c);
        assert(vstd::utf8::encode_utf8(all) =~= vstd::utf8::encode_utf8(s)
            + vstd::utf8::encode_scalar(c as u32));
    } else {
        assert(all.drop_first() =~= s.drop_first().push(c));
        lemma_encode_push(s.drop_first(), c);
        assert(vstd::utf8::encode_utf8(all) =~= vstd::utf8::encode_utf8(s)
            + vstd::utf8::encode_scalar(c as u32));
    }
}

proof fn lemma_byte_offset_bound(s: Seq<char>, i: int)
    requires
        0 <= i <= s.len(),
    ensures
        byte_offset(s, i) <= vstd::utf8::encode_utf8(s).len(),
    decreases s.len() - i,
{
    if i < s.len() {
        assert(s.take(i + 1) =~= s.take(i).push(s[i]));
        lemma_encode_push(s.take(i), s[i]);
        lemma_byte_offset_bound(s, i + 1);
    } else {
        assert(s.take(i) =~= s);
    }
}

fn offset_in_bytes(chars: &[char], i: usize) -> (r: usize)
    requires
        i <= chars@.len(),
        vstd::utf8::encode_utf8(chars@).len() <= usize::MAX,
    ensures
        r == byte_offset(chars@, i as int),
{
    let mut offset: usize = 0;
    let mut k: usize = 0;
    assert(chars@.take(0) =~= Seq::<char>::empty());
    while k < i
        invariant
            k <= i <= chars@.len(),
            vstd::utf8::encode_utf8(chars@).len() <= usize::MAX,
            offset == byte_offset(chars@, k as int),
        decreases i - k,
    {
        proof {
            assert(chars@.take(k + 1) =~= chars@.take(k as int).push(chars@[k as int]));
            lemma_encode_push(chars@.take(k as int), chars@[k as int]);
            lemma_byte_offset_bound(chars@, k + 1);
        }
        offset += utf8_width(chars[k]);
        k += 1;
    }
    offset
}

/// What parsing gave.
pub open spec fn json_outcome(r: Result<JsonValue, ParserError>) -> Result<Json, ErrorView> {
    match r {
        Ok(v) => Ok(v.model()),
        Err(e) => Err(e@),
    }
}

/// Parse a JSON document; `path` is named in errors.
pub fn parse_json(input: &str, path: &str) -> (r: Result<JsonValue, ParserError>)
    ensures
        json_outcome(r) == parsed(input@, path@),
        r matches Ok(v) ==> v.well_formed(),
{
    proof {
        json_laws::law_parsed_keys_are_distinct(input@, path@);
    }
    let chars = text::chars_of(input);
    let parsed_value = parse_value(chars.as_slice(), 0);
    let f = match parsed_value {
        Err(f) => f,
        Ok((v, j)) => {
            let k: usize = skip_whitespace(chars.as_slice(), j);
            if k >= chars.len() {
                return Ok(v);
            }
            stop(k, "trailing content after JSON value")
        },
    };
    let bytes = input.as_bytes();
    assert(bytes.len() == bytes@.len());
    let offset: usize = offset_in_bytes(chars.as_slice(), f.at);
    let reason = text::concat4(
        "JSON parse error at offset ",
        text::decimal_string(offset as u64).as_str(),
        ": ",
        f.reason.as_str(),
    );
    Err(crate::error::invalid_layout(path, reason))
}

/// What stands in a JSON string is read one by one. A backslash and one of eight letters
/// stand for one character, and `u` with four hexadecimal digits for the character of that
/// number, surrogates being refused. A control character is refused, and any other stands
/// for itself up to the closing quote.
#[verifier::rlimit(40)]
pub proof fn law_string_characters(s: Seq<char>, i: int, read: Seq<char>, a: nat, b: nat, c: nat, d: nat)
    requires
        0 <= i < s.len(),
        a < 16 && b < 16 && c < 16 && d < 16,
    ensures
        s[i] == '"' ==> string_body(s, i, read) == Ok::<(Seq<char>, int), JsonFault>((read, i + 1)),
        s[i] != '"' && s[i] != '\\' && s[i] as u32 >= 32 ==> string_body(s, i, read)
            == string_body(s, i + 1, read.push(s[i])),
        32 > s[i] as u32 ==> string_body(s, i, read) is Err,
        s[i] == '\\' && i + 1 < s.len() ==> {
            let after = |x: char| string_body(s, i + 2, read.push(x));
            &&& s[i + 1] == '"' ==> string_body(s, i, read) == after('"')
            &&& s[i + 1] == '\\' ==> string_body(s, i, read) == after('\\')
            &&& s[i + 1] == '/' ==> string_body(s, i, read) == after('/')
            &&& s[i + 1] == 'b' ==> string_body(s, i, read) == after(8u8 as char)
            &&& s[i + 1] == 'f' ==> string_body(s, i, read) == after(12u8 as char)
            &&& s[i + 1] == 'n' ==> string_body(s, i, read) == after(10u8 as char)
            &&& s[i + 1] == 'r' ==> string_body(s, i, read) == after(13u8 as char)
            &&& s[i + 1] == 't' ==> string_body(s, i, read) == after(9u8 as char)
        },
        s[i] == '\\' && i + 5 < s.len() && s[i + 1] == 'u' && is_hex(s[i + 2], a) && is_hex(
            s[i + 3],
            b,
        ) && is_hex(s[i + 4], c) && is_hex(s[i + 5], d) ==> {
            let code = 0x1000 * a + 0x100 * b + 0x10 * c + d;
            &&& 0xD800 <= code <= 0xDFFF ==> string_body(s, i, read) is Err
            &&& !(0xD800 <= code <= 0xDFFF) ==> string_body(s, i, read) == string_body(
                s,
                i + 6,
                read.push(code as u32 as char),
            )
        },
{
    if s[i] == '\\' && i + 5 < s.len() && s[i + 1] == 'u' && is_hex(s[i + 2], a) && is_hex(
        s[i + 3],
        b,
    ) && is_hex(s[i + 4], c) && is_hex(s[i + 5], d) {
        lemma_hex(s[i + 2], a);
        lemma_hex(s[i + 3], b);
        lemma_hex(s[i + 4], c);
        lemma_hex(s[i + 5], d);
        reveal_with_fuel(hex_digits, 5);
        let code = ((a * 16 + b) * 16 + c) * 16 + d;
        assert(hex_digits(s, i + 2, 0, 4) == Ok::<nat, JsonFault>(code));
        assert(code == 0x1000 * a + 0x100 * b + 0x10 * c + d);
    }
}

/// The character is the hexadecimal digit of `n`, in either case.
pub open spec fn is_hex(c: char, n: nat) -> bool {
    c == "0123456789abcdef"@[n as int] || c == "0123456789ABCDEF"@[n as int]
}

proof fn lemma_hex(c: char, n: nat)
    requires
        n < 16,
        is_hex(c, n),
    ensures
        hex_value(c) == Some(n),
{
    reveal_strlit("0123456789abcdef");
    reveal_strlit("0123456789ABCDEF");
    let low = "0123456789abcdef"@;
    let high = "0123456789ABCDEF"@;
    assert(low[0] == '0' && low[1] == '1' && low[2] == '2' && low[3] == '3' && low[4] == '4'
        && low[5] == '5' && low[6] == '6' && low[7] == '7' && low[8] == '8' && low[9] == '9'
        && low[10] == 'a' && low[11] == 'b' && low[12] == 'c' && low[13] == 'd' && low[14] == 'e'
        && low[15] == 'f');
    assert(high[0] == '0' && high[1] == '1' && high[2] == '2' && high[3] == '3' && high[4] == '4'
        && high[5] == '5' && high[6] == '6' && high[7] == '7' && high[8] == '8' && high[9] == '9'
        && high[10] == 'A' && high[11] == 'B' && high[12] == 'C' && high[13] == 'D' && high[14]
        == 'E' && high[15] == 'F');
}

/// The characters that count as white space.
pub open spec fn blanks() -> Seq<char> {
    "\t\n\u{b}\u{c}\r \u{85}\u{a0}\u{1680}\u{2000}\u{2001}\u{2002}\u{2003}\u{2004}\u{2005}\u{2006}\u{2007}\u{2008}\u{2009}\u{200a}\u{2028}\u{2029}\u{202f}\u{205f}\u{3000}"@
}

/// White space before a value is passed over, and nothing else is: a value begins with a
/// quote, a bracket, a brace, a letter of `true`, `false` or `null`, a minus or a digit.
pub proof fn law_values_may_follow_blanks(s: Seq<char>, i: int)
    requires
        0 <= i < s.len(),
    ensures
        blanks().contains(s[i]) ==> value(s, i) == value(s, i + 1),
        value(s, i) is Ok ==> {
            ||| blanks().contains(s[i])
            ||| s[i] == '"'
            ||| s[i] == '['
            ||| s[i] == '{'
            ||| s[i] == 't'
            ||| s[i] == 'f'
            ||| s[i] == 'n'
            ||| s[i] == '-'
            ||| ('0' <= s[i] && s[i] <= '9')
        },
{
    lemma_blank(s[i]);
    lemma_skip_space_on(s, i + 1);
}

#[verifier::rlimit(40)]
proof fn lemma_blank(c: char)
    ensures
        is_space(c) <==> blanks().contains(c),
{
    let all = blanks();
    reveal_strlit("\t\n\u{b}\u{c}\r \u{85}\u{a0}\u{1680}\u{2000}\u{2001}\u{2002}\u{2003}\u{2004}\u{2005}\u{2006}\u{2007}\u{2008}\u{2009}\u{200a}\u{2028}\u{2029}\u{202f}\u{205f}\u{3000}");
    assert(all.len() == 25);
    assert(all[0] == '\t');
    assert(all[1] == '\n');
    assert(all[2] == '\u{b}');
    assert(all[3] == '\u{c}');
    assert(all[4] == '\r');
    assert(all[5] == ' ');
    assert(all[6] == '\u{85}');
    assert(all[7] == '\u{a0}');
    assert(all[8] == '\u{1680}');
    assert(all[9] == '\u{2000}');
    assert(all[10] == '\u{2001}');
    assert(all[11] == '\u{2002}');
    assert(all[12] == '\u{2003}');
    assert(all[13] == '\u{2004}');
    assert(all[14] == '\u{2005}');
    assert(all[15] == '\u{2006}');
    assert(all[16] == '\u{2007}');
    assert(all[17] == '\u{2008}');
    assert(all[18] == '\u{2009}');
    assert(all[19] == '\u{200a}');
    assert(all[20] == '\u{2028}');
    assert(all[21] == '\u{2029}');
    assert(all[22] == '\u{202f}');
    assert(all[23] == '\u{205f}');
    assert(all[24] == '\u{3000}');
    if all.contains(c) {
        let k = all.index_of(c);
        assert(all[k] == c);
    }
    if is_space(c) {
        let n = c as int;
        if n <= 0x0D {
            assert(all[n - 9] == c);
        } else if 0x2000 <= n <= 0x200A {
            assert(all[n - 0x2000 + 9] == c);
        }
    }
}

proof fn lemma_skip_space_on(s: Seq<char>, i: int)
    ensures
        skip_space(s, i) >= i,
    decreases s.len() - i,
{
    if 0 <= i < s.len() && is_space(s[i]) {
        lemma_skip_space_on(s, i + 1);
    }
}

/// A number has no leading zeros, and a digit follows its minus and its point.
pub proof fn law_numbers_are_spelled_out(s: Seq<char>, i: int)
    requires
        0 <= i < s.len(),
    ensures
        s[i] == '0' && i + 1 < s.len() && is_digit(s[i + 1]) ==> value(s, i) is Err,
        s[i] == '-' && (i + 1 >= s.len() || !is_digit(s[i + 1])) ==> value(s, i) is Err,
        s[i] == '-' && i + 2 < s.len() && s[i + 1] == '0' && is_digit(s[i + 2]) ==> value(
            s,
            i,
        ) is Err,
        s[i] == '0' && i + 1 < s.len() && s[i + 1] == '.' && (i + 2 >= s.len() || !is_digit(
            s[i + 2],
        )) ==> value(s, i) is Err,
        s[i] == '+' || s[i] == '.' ==> value(s, i) is Err,
{
    assert(skip_space(s, i) == i || is_space(s[i]));
}

} // verus!
