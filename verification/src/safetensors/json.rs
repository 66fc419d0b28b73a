//! JSON values for Safetensors headers and HF index files.

use crate::ordered;
use crate::ordered::StringMap;
use crate::text;
use vstd::prelude::*;

verus! {

/// Parsed JSON value. The entries of an object are in the order of their keys, as
/// [`JsonValue::well_formed`] states.
#[derive(Debug, PartialEq, Eq)]
pub enum JsonValue {
    Null,
    Bool(bool),
    Number(JsonNumber),
    String(String),
    Array(Vec<JsonValue>),
    Object(Vec<(String, JsonValue)>),
}

/// Numeric JSON token preserved as an integer when possible.
#[derive(Debug, PartialEq, Eq)]
pub enum JsonNumber {
    /// A token with a leading `-` and neither fraction nor exponent.
    I64(i64),
    /// A token of digits alone.
    U64(u64),
    /// Any other number, by its text: the token, until [`with_numbers`] puts the text of
    /// the number's value in its place.
    Float(String),
}

/// What a JSON value is.
#[verifier::ext_equal]
pub enum Json {
    Null,
    Bool(bool),
    I64(i64),
    U64(u64),
    Float(Seq<char>),
    Text(Seq<char>),
    Array(Seq<Json>),
    Object(Seq<(Seq<char>, Json)>),
}

impl JsonValue {
    /// What this value is.
    pub open spec fn model(self) -> Json
        decreases self,
    {
        match self {
            JsonValue::Null => Json::Null,
            JsonValue::Bool(b) => Json::Bool(b),
            JsonValue::Number(JsonNumber::I64(n)) => Json::I64(n),
            JsonValue::Number(JsonNumber::U64(n)) => Json::U64(n),
            JsonValue::Number(JsonNumber::Float(t)) => Json::Float(t@),
            JsonValue::String(s) => Json::Text(s@),
            JsonValue::Array(items) => Json::Array(
                Seq::new(
                    items@.len(),
                    |i: int|
                        if 0 <= i < items@.len() {
                            items@[i].model()
                        } else {
                            Json::Null
                        },
                ),
            ),
            JsonValue::Object(entries) => Json::Object(
                Seq::new(
                    entries@.len(),
                    |i: int|
                        if 0 <= i < entries@.len() {
                            (entries@[i].0@, entries@[i].1.model())
                        } else {
                            (Seq::empty(), Json::Null)
                        },
                ),
            ),
        }
    }
}

/// The keys of an object's entries.
pub open spec fn entry_keys(entries: Seq<(Seq<char>, Json)>) -> Seq<Seq<char>> {
    Seq::new(entries.len(), |i: int| entries[i].0)
}

/// In every object inside the value the keys are in increasing order, hence distinct.
pub open spec fn keys_in_order(j: Json) -> bool
    decreases j,
{
    match j {
        Json::Array(items) => forall|i: int|
            0 <= i < items.len() ==> keys_in_order(#[trigger] items[i]),
        Json::Object(entries) => {
            &&& text::increasing(entry_keys(entries))
            &&& forall|i: int| 0 <= i < entries.len() ==> keys_in_order((#[trigger] entries[i]).1)
        },
        _ => true,
    }
}

impl JsonValue {
    /// The entries of each object, at any depth, are in the order of their keys, and no key
    /// occurs twice.
    pub open spec fn well_formed(self) -> bool {
        keys_in_order(self.model())
    }
}

/// What the values are, in order.
pub open spec fn models(items: Seq<JsonValue>) -> Seq<Json> {
    Seq::new(items.len(), |i: int| items[i].model())
}

/// What the entries are, in order.
pub open spec fn entry_models(entries: Seq<(String, JsonValue)>) -> Seq<(Seq<char>, Json)> {
    Seq::new(entries.len(), |i: int| (entries[i].0@, entries[i].1.model()))
}

/// An array of strings.
pub open spec fn text_array(texts: Seq<Seq<char>>) -> Json {
    Json::Array(Seq::new(texts.len(), |i: int| Json::Text(texts[i])))
}

/// An array is its elements and an object its entries.
pub proof fn lemma_model(value: JsonValue)
    ensures
        match value {
            JsonValue::Array(items) => value.model() == Json::Array(models(items@)),
            JsonValue::Object(entries) => value.model() == Json::Object(entry_models(entries@)),
            _ => true,
        },
{
    match value {
        JsonValue::Array(items) => {
            assert(value.model()->Array_0 =~= models(items@));
        },
        JsonValue::Object(entries) => {
            assert(value.model()->Object_0 =~= entry_models(entries@));
        },
        _ => {},
    }
}

// ---------------------------------------------------------------------------
// Encoding
// ---------------------------------------------------------------------------
/// The hexadecimal digit of a number below 16.
pub open spec fn hex_char(n: nat) -> char {
    if n < 10 {
        (('0' as u32) + n) as char
    } else {
        (('a' as u32) + n - 10) as char
    }
}

/// A character as it stands in a JSON string.
pub open spec fn escaped_char(c: char) -> Seq<char> {
    if c == '"' {
        seq!['\\', '"']
    } else if c == '\\' {
        seq!['\\', '\\']
    } else if c == '\u{8}' {
        seq!['\\', 'b']
    } else if c == '\u{C}' {
        seq!['\\', 'f']
    } else if c == '\n' {
        seq!['\\', 'n']
    } else if c == '\r' {
        seq!['\\', 'r']
    } else if c == '\t' {
        seq!['\\', 't']
    } else if 0x20 > c as u32 {
        seq![
            '\\',
            'u',
            '0',
            '0',
            hex_char((c as u32 / 16) as nat),
            hex_char((c as u32 % 16) as nat),
        ]
    } else {
        seq![c]
    }
}

/// A text as it stands between the quotes of a JSON string.
pub open spec fn escaped(s: Seq<char>) -> Seq<char>
    decreases s.len(),
{
    if s.len() == 0 {
        Seq::empty()
    } else {
        escaped(s.drop_last()) + escaped_char(s.last())
    }
}

/// A text as a JSON string.
pub open spec fn quoted(s: Seq<char>) -> Seq<char> {
    seq!['"'] + escaped(s) + seq!['"']
}

/// A value as JSON without white space.
pub open spec fn compact(j: Json) -> Seq<char>
    decreases j,
{
    match j {
        Json::Null => "null"@,
        Json::Bool(true) => "true"@,
        Json::Bool(false) => "false"@,
        Json::I64(n) => text::decimal_int(n as int),
        Json::U64(n) => text::decimal(n as nat),
        Json::Float(t) => t,
        Json::Text(s) => quoted(s),
        Json::Array(items) => seq!['['] + text::joined(compact_items(items), seq![',']) + seq![']'],
        Json::Object(entries) => seq!['{'] + text::joined(compact_entries(entries), seq![','])
            + seq!['}'],
    }
}

/// The elements of an array as JSON without white space.
pub open spec fn compact_items(items: Seq<Json>) -> Seq<Seq<char>>
    decreases items,
{
    Seq::new(
        items.len(),
        |i: int|
            if 0 <= i < items.len() {
                compact(items[i])
            } else {
                Seq::empty()
            },
    )
}

/// The entries of an object as JSON without white space.
pub open spec fn compact_entries(entries: Seq<(Seq<char>, Json)>) -> Seq<Seq<char>>
    decreases entries,
{
    Seq::new(
        entries.len(),
        |i: int|
            if 0 <= i < entries.len() {
                quoted(entries[i].0) + seq![':'] + compact(entries[i].1)
            } else {
                Seq::empty()
            },
    )
}

/// Two spaces for each level.
pub open spec fn padding(indent: nat) -> Seq<char>
    decreases indent,
{
    if indent == 0 {
        Seq::empty()
    } else {
        padding((indent - 1) as nat) + "  "@
    }
}

/// A value as JSON on several lines, two spaces to a level.
pub open spec fn pretty(j: Json, indent: nat) -> Seq<char>
    decreases j,
{
    match j {
        Json::Array(items) => if items.len() == 0 {
            "[]"@
        } else {
            "[\n"@ + text::joined(pretty_items(items, indent + 1), ",\n"@) + "\n"@ + padding(indent)
                + "]"@
        },
        Json::Object(entries) => if entries.len() == 0 {
            "{}"@
        } else {
            "{\n"@ + text::joined(pretty_entries(entries, indent + 1), ",\n"@) + "\n"@ + padding(
                indent,
            ) + "}"@
        },
        _ => compact(j),
    }
}

/// The lines of an array's elements.
pub open spec fn pretty_items(items: Seq<Json>, indent: nat) -> Seq<Seq<char>>
    decreases items,
{
    Seq::new(
        items.len(),
        |i: int|
            if 0 <= i < items.len() {
                padding(indent) + pretty(items[i], indent)
            } else {
                Seq::empty()
            },
    )
}

/// The lines of an object's entries.
pub open spec fn pretty_entries(entries: Seq<(Seq<char>, Json)>, indent: nat) -> Seq<Seq<char>>
    decreases entries,
{
    Seq::new(
        entries.len(),
        |i: int|
            if 0 <= i < entries.len() {
                padding(indent) + quoted(entries[i].0) + ": "@ + pretty(entries[i].1, indent)
            } else {
                Seq::empty()
            },
    )
}

/// The nesting depth of a value.
pub open spec fn depth(j: Json) -> nat
    decreases j,
{
    match j {
        Json::Array(items) => 1 + max_depth(item_depths(items)),
        Json::Object(entries) => 1 + max_depth(entry_depths(entries)),
        _ => 0,
    }
}

/// The nesting depths of an array's elements.
pub open spec fn item_depths(items: Seq<Json>) -> Seq<nat>
    decreases items,
{
    Seq::new(
        items.len(),
        |i: int|
            if 0 <= i < items.len() {
                depth(items[i])
            } else {
                0
            },
    )
}

/// The nesting depths of the values of an object.
pub open spec fn entry_depths(entries: Seq<(Seq<char>, Json)>) -> Seq<nat>
    decreases entries,
{
    Seq::new(
        entries.len(),
        |i: int|
            if 0 <= i < entries.len() {
                depth(entries[i].1)
            } else {
                0
            },
    )
}

/// The greatest of some depths.
pub open spec fn max_depth(depths: Seq<nat>) -> nat
    decreases depths.len(),
{
    if depths.len() == 0 {
        0
    } else {
        let rest = max_depth(depths.drop_last());
        if rest < depths.last() {
            depths.last()
        } else {
            rest
        }
    }
}

proof fn lemma_max_depth(depths: Seq<nat>, i: int)
    requires
        0 <= i < depths.len(),
    ensures
        depths[i] <= max_depth(depths),
    decreases depths.len(),
{
    if i < depths.len() - 1 {
        lemma_max_depth(depths.drop_last(), i);
    }
}

fn hex(n: u32) -> (c: char)
    requires
        n < 16,
    ensures
        c == hex_char(n as nat),
{
    match n {
        0 => '0',
        1 => '1',
        2 => '2',
        3 => '3',
        4 => '4',
        5 => '5',
        6 => '6',
        7 => '7',
        8 => '8',
        9 => '9',
        10 => 'a',
        11 => 'b',
        12 => 'c',
        13 => 'd',
        14 => 'e',
        _ => 'f',
    }
}

fn write_escaped(out: &mut String, c: char)
    ensures
        final(out)@ == old(out)@ + escaped_char(c),
{
    let ghost before = out@;
    if c == '"' {
        out.push('\\');
        out.push('"');
    } else if c == '\\' {
        out.push('\\');
        out.push('\\');
    } else if c == '\u{8}' {
        out.push('\\');
        out.push('b');
    } else if c == '\u{C}' {
        out.push('\\');
        out.push('f');
    } else if c == '\n' {
        out.push('\\');
        out.push('n');
    } else if c == '\r' {
        out.push('\\');
        out.push('r');
    } else if c == '\t' {
        out.push('\\');
        out.push('t');
    } else if 0x20 > c as u32 {
        let n: u32 = c as u32;
        out.push('\\');
        out.push('u');
        out.push('0');
        out.push('0');
        out.push(hex(n / 16));
        out.push(hex(n % 16));
    } else {
        out.push(c);
    }
    assert(out@ =~= before + escaped_char(c));
}

/// Append `s` as a JSON string.
pub fn write_string(out: &mut String, s: &str)
    ensures
        final(out)@ == old(out)@ + quoted(s@),
{
    let ghost before = out@;
    out.push('"');
    assert(out@ =~= before + (seq!['"'] + escaped(s@.take(0))));
    for c in it: s.chars()
        invariant
            it.seq() == s@,
            out@ == before + (seq!['"'] + escaped(s@.take(it.index() as int))),
    {
        let ghost k = it.index() as int;
        write_escaped(out, c);
        assert(s@.take(k + 1).drop_last() =~= s@.take(k));
        assert(out@ =~= before + (seq!['"'] + escaped(s@.take(k + 1))));
    }
    assert(s@.take(s@.len() as int) =~= s@);
    out.push('"');
    assert(out@ =~= before + quoted(s@));
}

fn quoted_string(s: &str) -> (r: String)
    ensures
        r@ == quoted(s@),
{
    let mut r = String::new();
    write_string(&mut r, s);
    assert(r@ =~= quoted(s@));
    r
}

fn number_string(number: &JsonNumber) -> (r: String)
    ensures
        r@ == compact(JsonValue::Number(*number).model()),
{
    match number {
        JsonNumber::I64(n) => text::decimal_string_signed(*n),
        JsonNumber::U64(n) => text::decimal_string(*n),
        JsonNumber::Float(t) => t.clone(),
    }
}

proof fn lemma_item_is_smaller(value: JsonValue, i: int)
    requires
        value is Array,
        0 <= i < value->Array_0@.len(),
    ensures
        decreases_to!(value => value->Array_0@[i]),
{
    assert(decreases_to!(value => value->Array_0));
    assert(decreases_to!(value->Array_0 => value->Array_0@));
    assert(decreases_to!(value->Array_0@ => value->Array_0@[i]));
}

proof fn lemma_entry_is_smaller(value: JsonValue, i: int)
    requires
        value is Object,
        0 <= i < value->Object_0@.len(),
    ensures
        decreases_to!(value => value->Object_0@[i].1),
{
    assert(decreases_to!(value => value->Object_0));
    assert(decreases_to!(value->Object_0 => value->Object_0@));
    assert(decreases_to!(value->Object_0@ => value->Object_0@[i]));
    assert(decreases_to!(value->Object_0@[i] => value->Object_0@[i].1));
}

/// Encode a value without white space.
pub fn encode_compact(value: &JsonValue) -> (r: String)
    ensures
        r@ == compact(value.model()),
    decreases value,
{
    proof {
        lemma_model(*value);
    }
    match value {
        JsonValue::Null => "null".to_owned(),
        JsonValue::Bool(b) => if *b {
            "true".to_owned()
        } else {
            "false".to_owned()
        },
        JsonValue::Number(n) => number_string(n),
        JsonValue::String(s) => quoted_string(s.as_str()),
        JsonValue::Array(items) => {
            let mut parts: Vec<String> = Vec::new();
            let mut i: usize = 0;
            while i < items.len()
                invariant
                    i <= items@.len(),
                    value == JsonValue::Array(*items),
                    parts@.len() == i,
                    forall|k: int|
                        0 <= k < i ==> #[trigger] parts@[k]@ == compact(items@[k].model()),
                decreases items@.len() - i,
            {
                proof {
                    lemma_item_is_smaller(*value, i as int);
                }
                parts.push(encode_compact(&items[i]));
                i += 1;
            }
            assert(text::views(parts@) =~= compact_items(models(items@)));
            let body = text::join(&parts, ",");
            let r = text::concat3("[", body.as_str(), "]");
            proof {
                reveal_strlit(",");
                reveal_strlit("[");
                reveal_strlit("]");
                assert(","@ =~= seq![',']);
                assert("["@ =~= seq!['[']);
                assert("]"@ =~= seq![']']);
            }
            r
        },
        JsonValue::Object(entries) => {
            let mut parts: Vec<String> = Vec::new();
            let mut i: usize = 0;
            while i < entries.len()
                invariant
                    i <= entries@.len(),
                    value == JsonValue::Object(*entries),
                    parts@.len() == i,
                    forall|k: int|
                        0 <= k < i ==> #[trigger] parts@[k]@ == quoted(entries@[k].0@) + seq![':']
                            + compact(entries@[k].1.model()),
                decreases entries@.len() - i,
            {
                let key = quoted_string(entries[i].0.as_str());
                proof {
                    lemma_entry_is_smaller(*value, i as int);
                }
                let part = text::concat3(
                    key.as_str(),
                    ":",
                    encode_compact(&entries[i].1).as_str(),
                );
                proof {
                    reveal_strlit(":");
                    assert(":"@ =~= seq![':']);
                }
                parts.push(part);
                i += 1;
            }
            assert(text::views(parts@) =~= compact_entries(entry_models(entries@)));
            let body = text::join(&parts, ",");
            let r = text::concat3("{", body.as_str(), "}");
            proof {
                reveal_strlit(",");
                reveal_strlit("{");
                reveal_strlit("}");
                assert(","@ =~= seq![',']);
                assert("{"@ =~= seq!['{']);
                assert("}"@ =~= seq!['}']);
            }
            r
        },
    }
}

fn padding_string(indent: usize) -> (r: String)
    ensures
        r@ == padding(indent as nat),
{
    let mut r = String::new();
    let mut i: usize = 0;
    while i < indent
        invariant
            i <= indent,
            r@ == padding(i as nat),
        decreases indent - i,
    {
        r.append("  ");
        i += 1;
    }
    r
}

fn write_pretty(value: &JsonValue, indent: usize) -> (r: String)
    requires
        indent + depth(value.model()) <= usize::MAX,
    ensures
        r@ == pretty(value.model(), indent as nat),
    decreases value,
{
    proof {
        lemma_model(*value);
    }
    match value {
        JsonValue::Array(items) => {
            if items.len() == 0 {
                return "[]".to_owned();
            }
            let ghost all = models(items@);
            let pad = padding_string(indent + 1);
            let mut parts: Vec<String> = Vec::new();
            let mut i: usize = 0;
            while i < items.len()
                invariant
                    i <= items@.len(),
                    value == JsonValue::Array(*items),
                    parts@.len() == i,
                    pad@ == padding(indent as nat + 1),
                    all == models(items@),
                    indent + 1 + max_depth(item_depths(all)) <= usize::MAX,
                    forall|k: int|
                        0 <= k < i ==> #[trigger] parts@[k]@ == padding(indent as nat + 1) + pretty(
                            items@[k].model(),
                            indent as nat + 1,
                        ),
                decreases items@.len() - i,
            {
                proof {
                    lemma_max_depth(item_depths(all), i as int);
                    assert(item_depths(all)[i as int] == depth(items@[i as int].model()));
                }
                proof {
                    lemma_item_is_smaller(*value, i as int);
                }
                let item = write_pretty(&items[i], indent + 1);
                parts.push(text::concat2(pad.as_str(), item.as_str()));
                i += 1;
            }
            assert(text::views(parts@) =~= pretty_items(all, indent as nat + 1));
            let body = text::join(&parts, ",\n");
            text::concat5("[\n", body.as_str(), "\n", padding_string(indent).as_str(), "]")
        },
        JsonValue::Object(entries) => {
            if entries.len() == 0 {
                return "{}".to_owned();
            }
            let ghost all = entry_models(entries@);
            let pad = padding_string(indent + 1);
            let mut parts: Vec<String> = Vec::new();
            let mut i: usize = 0;
            while i < entries.len()
                invariant
                    i <= entries@.len(),
                    value == JsonValue::Object(*entries),
                    parts@.len() == i,
                    pad@ == padding(indent as nat + 1),
                    all == entry_models(entries@),
                    indent + 1 + max_depth(entry_depths(all)) <= usize::MAX,
                    forall|k: int|
                        0 <= k < i ==> #[trigger] parts@[k]@ == padding(indent as nat + 1) + quoted(
                            entries@[k].0@,
                        ) + ": "@ + pretty(entries@[k].1.model(), indent as nat + 1),
                decreases entries@.len() - i,
            {
                proof {
                    lemma_max_depth(entry_depths(all), i as int);
                    assert(entry_depths(all)[i as int] == depth(entries@[i as int].1.model()));
                }
                let key = quoted_string(entries[i].0.as_str());
                proof {
                    lemma_entry_is_smaller(*value, i as int);
                }
                let item = write_pretty(&entries[i].1, indent + 1);
                parts.push(text::concat4(pad.as_str(), key.as_str(), ": ", item.as_str()));
                i += 1;
            }
            assert(text::views(parts@) =~= pretty_entries(all, indent as nat + 1));
            let body = text::join(&parts, ",\n");
            text::concat5("{\n", body.as_str(), "\n", padding_string(indent).as_str(), "}")
        },
        _ => encode_compact(value),
    }
}

/// Encode a value on several lines, with a final line break.
pub fn encode_pretty(value: &JsonValue) -> (r: String)
    requires
        depth(value.model()) <= usize::MAX,
    ensures
        r@ == pretty(value.model(), 0) + "\n"@,
{
    let body = write_pretty(value, 0);
    text::concat2(body.as_str(), "\n")
}

// ---------------------------------------------------------------------------
// Numbers that are no integers
// ---------------------------------------------------------------------------
/// The text of a number, from a table of tokens and texts. A token that is not in the
/// table stands for itself.
pub open spec fn shown(numbers: Map<Seq<char>, Seq<char>>, token: Seq<char>) -> Seq<char> {
    if numbers.contains_key(token) {
        numbers[token]
    } else {
        token
    }
}

/// The value with each number that is no integer by its text.
pub open spec fn settled(j: Json, numbers: Map<Seq<char>, Seq<char>>) -> Json
    decreases j,
{
    match j {
        Json::Float(token) => Json::Float(shown(numbers, token)),
        Json::Array(items) => Json::Array(settled_items(items, numbers)),
        Json::Object(entries) => Json::Object(settled_entries(entries, numbers)),
        _ => j,
    }
}

/// The elements of an array with each number that is no integer by its text.
pub open spec fn settled_items(items: Seq<Json>, numbers: Map<Seq<char>, Seq<char>>) -> Seq<Json>
    decreases items,
{
    Seq::new(
        items.len(),
        |i: int|
            if 0 <= i < items.len() {
                settled(items[i], numbers)
            } else {
                Json::Null
            },
    )
}

/// The entries of an object with each number that is no integer by its text.
pub open spec fn settled_entries(
    entries: Seq<(Seq<char>, Json)>,
    numbers: Map<Seq<char>, Seq<char>>,
) -> Seq<(Seq<char>, Json)>
    decreases entries,
{
    Seq::new(
        entries.len(),
        |i: int|
            if 0 <= i < entries.len() {
                (entries[i].0, settled(entries[i].1, numbers))
            } else {
                (Seq::empty(), Json::Null)
            },
    )
}

/// The tokens of the numbers that are no integers, in the order of the document.
pub open spec fn float_tokens(j: Json) -> Seq<Seq<char>>
    decreases j,
{
    match j {
        Json::Float(token) => seq![token],
        Json::Array(items) => item_tokens(items).flatten_alt(),
        Json::Object(entries) => entry_tokens(entries).flatten_alt(),
        _ => Seq::empty(),
    }
}

/// The tokens of each element of an array.
pub open spec fn item_tokens(items: Seq<Json>) -> Seq<Seq<Seq<char>>>
    decreases items,
{
    Seq::new(
        items.len(),
        |i: int|
            if 0 <= i < items.len() {
                float_tokens(items[i])
            } else {
                Seq::empty()
            },
    )
}

/// The tokens of each entry of an object.
pub open spec fn entry_tokens(entries: Seq<(Seq<char>, Json)>) -> Seq<Seq<Seq<char>>>
    decreases entries,
{
    Seq::new(
        entries.len(),
        |i: int|
            if 0 <= i < entries.len() {
                float_tokens(entries[i].1)
            } else {
                Seq::empty()
            },
    )
}

/// Put the text of each number that is no integer in the place of its token.
///
/// The value of such a number is floating point: the caller has rendered it.
pub fn with_numbers(value: &JsonValue, numbers: &StringMap<String>) -> (r: JsonValue)
    ensures
        r.model() == settled(value.model(), ordered::value_views(numbers@)),
    decreases value,
{
    let ghost table = ordered::value_views(numbers@);
    proof {
        lemma_model(*value);
    }
    match value {
        JsonValue::Null => JsonValue::Null,
        JsonValue::Bool(b) => JsonValue::Bool(*b),
        JsonValue::Number(JsonNumber::I64(n)) => JsonValue::Number(JsonNumber::I64(*n)),
        JsonValue::Number(JsonNumber::U64(n)) => JsonValue::Number(JsonNumber::U64(*n)),
        JsonValue::Number(JsonNumber::Float(token)) => {
            let shown = match numbers.get(token.as_str()) {
                Some(shown) => shown.clone(),
                None => token.clone(),
            };
            JsonValue::Number(JsonNumber::Float(shown))
        },
        JsonValue::String(s) => JsonValue::String(s.clone()),
        JsonValue::Array(items) => {
            let ghost all = settled_items(models(items@), table);
            let mut done: Vec<JsonValue> = Vec::new();
            let mut i: usize = 0;
            while i < items.len()
                invariant
                    i <= items@.len(),
                    value == JsonValue::Array(*items),
                    table == ordered::value_views(numbers@),
                    all == settled_items(models(items@), table),
                    models(done@) =~= all.take(i as int),
                decreases items@.len() - i,
            {
                let ghost before = models(done@);
                proof {
                    lemma_item_is_smaller(*value, i as int);
                }
                let item = with_numbers(&items[i], numbers);
                assert(item.model() == all[i as int]);
                done.push(item);
                assert(models(done@) =~= before.push(item.model()));
                i += 1;
            }
            assert(models(done@) =~= all);
            let r = JsonValue::Array(done);
            proof {
                lemma_model(r);
            }
            r
        },
        JsonValue::Object(entries) => {
            let ghost all = settled_entries(entry_models(entries@), table);
            let mut done: Vec<(String, JsonValue)> = Vec::new();
            let mut i: usize = 0;
            while i < entries.len()
                invariant
                    i <= entries@.len(),
                    value == JsonValue::Object(*entries),
                    table == ordered::value_views(numbers@),
                    all == settled_entries(entry_models(entries@), table),
                    entry_models(done@) =~= all.take(i as int),
                decreases entries@.len() - i,
            {
                let ghost before = entry_models(done@);
                proof {
                    lemma_entry_is_smaller(*value, i as int);
                }
                let entry: (String, JsonValue) = (
                    entries[i].0.clone(),
                    with_numbers(&entries[i].1, numbers),
                );
                assert((entry.0@, entry.1.model()) == all[i as int]);
                done.push(entry);
                assert(entry_models(done@) =~= before.push((entry.0@, entry.1.model())));
                i += 1;
            }
            assert(entry_models(done@) =~= all);
            let r = JsonValue::Object(done);
            proof {
                lemma_model(r);
            }
            r
        },
    }
}

fn append_tokens(tokens: &mut Vec<String>, more: Vec<String>)
    ensures
        text::views(final(tokens)@) == text::views(old(tokens)@) + text::views(more@),
{
    let ghost before = text::views(tokens@);
    let ghost added = text::views(more@);
    let mut more = more;
    tokens.append(&mut more);
    assert(text::views(tokens@) =~= before + added);
}

/// The tokens of the numbers that are no integers, in the order of the document.
pub fn number_tokens(value: &JsonValue) -> (r: Vec<String>)
    ensures
        text::views(r@) == float_tokens(value.model()),
    decreases value,
{
    proof {
        lemma_model(*value);
    }
    let mut tokens: Vec<String> = Vec::new();
    assert(text::views(tokens@) =~= Seq::empty());
    match value {
        JsonValue::Number(JsonNumber::Float(token)) => {
            tokens.push(token.clone());
            assert(text::views(tokens@) =~= seq![token@]);
        },
        JsonValue::Array(items) => {
            let ghost all = item_tokens(models(items@));
            let mut i: usize = 0;
            assert(all.take(0).flatten_alt() =~= Seq::empty());
            while i < items.len()
                invariant
                    i <= items@.len(),
                    value == JsonValue::Array(*items),
                    all == item_tokens(models(items@)),
                    text::views(tokens@) == all.take(i as int).flatten_alt(),
                decreases items@.len() - i,
            {
                proof {
                    lemma_item_is_smaller(*value, i as int);
                    assert(all.take(i + 1).drop_last() =~= all.take(i as int));
                    assert(all.take(i + 1).last() == float_tokens(items@[i as int].model()));
                }
                append_tokens(&mut tokens, number_tokens(&items[i]));
                i += 1;
            }
            assert(all.take(all.len() as int) =~= all);
        },
        JsonValue::Object(entries) => {
            let ghost all = entry_tokens(entry_models(entries@));
            let mut i: usize = 0;
            assert(all.take(0).flatten_alt() =~= Seq::empty());
            while i < entries.len()
                invariant
                    i <= entries@.len(),
                    value == JsonValue::Object(*entries),
                    all == entry_tokens(entry_models(entries@)),
                    text::views(tokens@) == all.take(i as int).flatten_alt(),
                decreases entries@.len() - i,
            {
                proof {
                    lemma_entry_is_smaller(*value, i as int);
                    assert(all.take(i + 1).drop_last() =~= all.take(i as int));
                    assert(all.take(i + 1).last() == float_tokens(entries@[i as int].1.model()));
                }
                append_tokens(&mut tokens, number_tokens(&entries[i].1));
                i += 1;
            }
            assert(all.take(all.len() as int) =~= all);
        },
        _ => {},
    }
    tokens
}

// ---------------------------------------------------------------------------
// Building
// ---------------------------------------------------------------------------
/// An array of the strings.
pub fn string_array_value(texts: &Vec<String>) -> (r: JsonValue)
    ensures
        r.model() == text_array(text::views(texts@)),
{
    let ghost all = text_array(text::views(texts@))->Array_0;
    let mut items: Vec<JsonValue> = Vec::new();
    let mut i: usize = 0;
    while i < texts.len()
        invariant
            i <= texts@.len(),
            all == text_array(text::views(texts@))->Array_0,
            models(items@) =~= all.take(i as int),
        decreases texts@.len() - i,
    {
        let ghost before = models(items@);
        let item = JsonValue::String(texts[i].clone());
        assert(item.model() == all[i as int]);
        items.push(item);
        assert(models(items@) =~= before.push(item.model()));
        i += 1;
    }
    assert(models(items@) =~= all);
    let r = JsonValue::Array(items);
    proof {
        lemma_model(r);
    }
    r
}

} // verus!
