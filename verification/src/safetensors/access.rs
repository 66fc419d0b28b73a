//! Reading fields out of parsed JSON.

use crate::error::{ErrorView, ParserError};
use crate::ordered;
use crate::ordered::StringMap;
use crate::safetensors::json;
use crate::safetensors::json::{Json, JsonNumber, JsonValue};
use crate::safetensors::json_parse;
use crate::safetensors::validate;
use crate::safetensors::validate::model_load;
use crate::text;
use vstd::prelude::*;

verus! {

/// The number, where it is a whole number from zero on.
pub open spec fn whole_number(j: Json) -> Option<u64> {
    match j {
        Json::U64(n) => Some(n),
        Json::I64(n) => if n >= 0 {
            Some(n as u64)
        } else {
            None
        },
        _ => None,
    }
}

/// The number, where it is a whole number that the host can count to.
pub open spec fn whole_size(j: Json) -> Option<usize> {
    match whole_number(j) {
        Some(n) => if n <= usize::MAX {
            Some(n as usize)
        } else {
            None
        },
        None => None,
    }
}

/// The value under `key`.
pub open spec fn field(entries: Seq<(Seq<char>, Json)>, key: Seq<char>) -> Option<Json>
    decreases entries.len(),
{
    if entries.len() == 0 {
        None
    } else if entries.last().0 == key {
        Some(entries.last().1)
    } else {
        field(entries.drop_last(), key)
    }
}

impl JsonValue {
    /// The text of a JSON string.
    pub fn as_str(&self) -> (r: Option<&str>)
        ensures
            match r {
                Some(s) => self.model() == Json::Text(s@),
                None => !(self.model() is Text),
            },
    {
        match self {
            JsonValue::String(s) => Some(s.as_str()),
            _ => None,
        }
    }

    /// The value of a JSON number that is a whole number from zero on.
    pub fn as_u64(&self) -> (r: Option<u64>)
        ensures
            r == whole_number(self.model()),
    {
        match self {
            JsonValue::Number(JsonNumber::U64(n)) => Some(*n),
            JsonValue::Number(JsonNumber::I64(n)) => if *n >= 0 {
                Some(*n as u64)
            } else {
                None
            },
            _ => None,
        }
    }

    /// The value of a JSON number that the host can count to.
    pub fn as_usize(&self) -> (r: Option<usize>)
        ensures
            r == whole_size(self.model()),
    {
        match self.as_u64() {
            Some(n) => if n <= usize::MAX as u64 {
                Some(n as usize)
            } else {
                None
            },
            None => None,
        }
    }

    /// The elements of a JSON array.
    pub fn as_array(&self) -> (r: Option<&Vec<JsonValue>>)
        ensures
            match r {
                Some(items) => self.model() == Json::Array(json::models(items@)),
                None => !(self.model() is Array),
            },
    {
        proof {
            json::lemma_model(*self);
        }
        match self {
            JsonValue::Array(items) => Some(items),
            _ => None,
        }
    }

    /// The entries of a JSON object.
    pub fn as_object(&self) -> (r: Option<&Vec<(String, JsonValue)>>)
        ensures
            match r {
                Some(entries) => self.model() == Json::Object(json::entry_models(entries@)),
                None => !(self.model() is Object),
            },
    {
        proof {
            json::lemma_model(*self);
        }
        match self {
            JsonValue::Object(entries) => Some(entries),
            _ => None,
        }
    }
}

/// The value under `key`.
pub fn find<'a>(entries: &'a Vec<(String, JsonValue)>, key: &str) -> (r: Option<&'a JsonValue>)
    ensures
        match r {
            Some(v) => field(json::entry_models(entries@), key@) == Some(v.model()),
            None => field(json::entry_models(entries@), key@) is None,
        },
{
    let ghost all = json::entry_models(entries@);
    let mut n: usize = entries.len();
    assert(all.take(n as int) =~= all);
    while n > 0
        invariant
            n <= entries@.len(),
            all == json::entry_models(entries@),
            field(all, key@) == field(all.take(n as int), key@),
        decreases n,
    {
        n -= 1;
        assert(all.take(n + 1).drop_last() =~= all.take(n as int));
        assert(all.take(n + 1).last() == all[n as int]);
        if text::equal(entries[n].0.as_str(), key) {
            return Some(&entries[n].1);
        }
    }
    None
}

// ---------------------------------------------------------------------------
// Documents
// ---------------------------------------------------------------------------
/// What a JSON document holds, or why it cannot be read.
pub open spec fn document_of(bytes: Seq<u8>, path: Seq<char>, context: Seq<char>) -> Result<
    Json,
    ErrorView,
> {
    if !vstd::utf8::valid_utf8(bytes) {
        Err(
            validate::load_error(
                path,
                "parse "@ + context + " JSON: invalid UTF-8 ("@ + text::utf8_error_text(bytes)
                    + ")"@,
            ),
        )
    } else {
        match json_parse::parsed(vstd::utf8::decode_utf8(bytes), path) {
            Ok(j) => Ok(j),
            Err(e) => match e {
                ErrorView::InvalidLayout { path: _, reason } => Err(
                    validate::load_error(path, "parse "@ + context + " JSON: "@ + reason),
                ),
                other => Err(other),
            },
        }
    }
}

/// Read a JSON document in which no object has a key twice.
pub fn parse_json_rejecting_duplicate_keys(bytes: &[u8], path: &str, context: &str) -> (r: Result<
    JsonValue,
    ParserError,
>)
    ensures
        json_parse::json_outcome(r) == document_of(bytes@, path@, context@),
        r matches Ok(v) ==> v.well_formed(),
{
    let decoded = match text::utf8_string(bytes) {
        Ok(s) => s,
        Err(e) => {
            return Err(
                model_load(
                    path,
                    text::concat5("parse ", context, " JSON: invalid UTF-8 (", e.as_str(), ")"),
                ),
            );
        },
    };
    match json_parse::parse_json(decoded.as_str(), path) {
        Ok(v) => Ok(v),
        Err(ParserError::InvalidLayout { path: _, reason }) => Err(
            model_load(path, text::concat4("parse ", context, " JSON: ", reason.as_str())),
        ),
        Err(other) => Err(other),
    }
}

// ---------------------------------------------------------------------------
// String tables and lists
// ---------------------------------------------------------------------------
/// The string values of the first `n` entries, under their keys.
pub open spec fn string_table(entries: Seq<(Seq<char>, Json)>, n: nat) -> Map<Seq<char>, Seq<char>>
    decreases n,
{
    if n == 0 || n > entries.len() {
        Map::empty()
    } else {
        string_table(entries, (n - 1) as nat).insert(
            entries[n - 1].0,
            entries[n - 1].1->Text_0,
        )
    }
}

/// The first entry from `i` on whose value is no string.
pub open spec fn first_other(entries: Seq<(Seq<char>, Json)>, i: int) -> Option<int>
    decreases entries.len() - i,
{
    if i < 0 || i >= entries.len() {
        None
    } else if !(entries[i].1 is Text) {
        Some(i)
    } else {
        first_other(entries, i + 1)
    }
}

/// The `__metadata__` table of a header.
pub open spec fn metadata_table(path: Seq<char>, j: Json) -> Result<
    Map<Seq<char>, Seq<char>>,
    ErrorView,
> {
    match j {
        Json::Object(entries) => match first_other(entries, 0) {
            Some(i) => Err(
                validate::load_error(
                    path,
                    "Safetensors __metadata__ key '"@ + entries[i].0 + "' must be a string"@,
                ),
            ),
            None => Ok(string_table(entries, entries.len())),
        },
        _ => Err(
            validate::load_error(
                path,
                "Safetensors __metadata__ must be a JSON object of strings"@,
            ),
        ),
    }
}

/// What a table of strings says.
pub open spec fn table_outcome(r: Result<StringMap<String>, ParserError>) -> Result<
    Map<Seq<char>, Seq<char>>,
    ErrorView,
> {
    match r {
        Ok(m) => Ok(ordered::value_views(m@)),
        Err(e) => Err(e@),
    }
}

/// The string values of an object, or the index of the first other value.
pub fn read_string_table(entries: &Vec<(String, JsonValue)>) -> (r: Result<
    StringMap<String>,
    usize,
>)
    ensures
        match r {
            Ok(m) => {
                &&& first_other(json::entry_models(entries@), 0) is None
                &&& ordered::value_views(m@) == string_table(
                    json::entry_models(entries@),
                    entries@.len(),
                )
            },
            Err(i) => {
                &&& i < entries@.len()
                &&& first_other(json::entry_models(entries@), 0) == Some(i as int)
            },
        },
{
    let ghost all = json::entry_models(entries@);
    let mut table: StringMap<String> = StringMap::new();
    let mut i: usize = 0;
    assert(ordered::value_views(table@) =~= Map::empty());
    while i < entries.len()
        invariant
            i <= entries@.len(),
            all == json::entry_models(entries@),
            first_other(all, 0) == first_other(all, i as int),
            ordered::value_views(table@) == string_table(all, i as nat),
        decreases entries@.len() - i,
    {
        match entries[i].1.as_str() {
            None => {
                return Err(i);
            },
            Some(value) => {
                let key = entries[i].0.clone();
                let value = value.to_owned();
                proof {
                    ordered::lemma_value_views_insert(table@, key@, value);
                }
                table.insert(key, value);
            },
        }
        i += 1;
    }
    Ok(table)
}

/// Read the `__metadata__` table of a header.
pub fn parse_metadata_object(path: &str, value: &JsonValue) -> (r: Result<
    StringMap<String>,
    ParserError,
>)
    ensures
        table_outcome(r) == metadata_table(path@, value.model()),
{
    match value.as_object() {
        None => Err(
            model_load(path, "Safetensors __metadata__ must be a JSON object of strings".to_owned()),
        ),
        Some(entries) => match read_string_table(entries) {
            Ok(table) => Ok(table),
            Err(i) => Err(
                model_load(
                    path,
                    text::concat3(
                        "Safetensors __metadata__ key '",
                        entries[i].0.as_str(),
                        "' must be a string",
                    ),
                ),
            ),
        },
    }
}

/// The texts of an array of strings.
pub open spec fn string_items(items: Seq<Json>) -> Option<Seq<Seq<char>>> {
    if forall|i: int| 0 <= i < items.len() ==> (#[trigger] items[i]) is Text {
        Some(Seq::new(items.len(), |i: int| items[i]->Text_0))
    } else {
        None
    }
}

/// The strings that an encoded array lists.
pub open spec fn string_array(encoded: Seq<char>) -> Option<Seq<Seq<char>>> {
    match json_parse::parsed(encoded, "<metadata>"@) {
        Ok(Json::Array(items)) => string_items(items),
        _ => None,
    }
}

/// The strings that an encoded array lists; `None` where it is no array of strings.
pub fn parse_string_array(encoded: &str) -> (r: Option<Vec<String>>)
    ensures
        match r {
            Some(v) => string_array(encoded@) == Some(text::views(v@)),
            None => string_array(encoded@) is None,
        },
{
    let value = match json_parse::parse_json(encoded, "<metadata>") {
        Ok(v) => v,
        Err(_) => {
            return None;
        },
    };
    let items = match value.as_array() {
        Some(items) => items,
        None => {
            return None;
        },
    };
    let ghost all = json::models(items@);
    let mut r: Vec<String> = Vec::new();
    let mut i: usize = 0;
    while i < items.len()
        invariant
            i <= items@.len(),
            all == json::models(items@),
            string_array(encoded@) == string_items(all),
            r@.len() == i,
            forall|k: int| 0 <= k < i ==> #[trigger] all[k] == Json::Text(r@[k]@),
        decreases items@.len() - i,
    {
        match items[i].as_str() {
            None => {
                assert(!(all[i as int] is Text));
                return None;
            },
            Some(s) => {
                r.push(s.to_owned());
            },
        }
        i += 1;
    }
    assert(string_items(all)->Some_0 =~= text::views(r@));
    Some(r)
}

// ---------------------------------------------------------------------------
// Flattened metadata
// ---------------------------------------------------------------------------
/// A metadata value as a string: a string stands for itself, anything else for its JSON,
/// with the numbers that are no integers by the texts that `numbers` gives.
pub open spec fn flat_value(j: Json, numbers: Map<Seq<char>, Seq<char>>) -> Seq<char> {
    match j {
        Json::Text(s) => s,
        _ => json::compact(json::settled(j, numbers)),
    }
}

/// The first `n` entries as strings, each key behind `prefix` and a colon.
pub open spec fn flat_table(
    prefix: Seq<char>,
    entries: Seq<(Seq<char>, Json)>,
    numbers: Map<Seq<char>, Seq<char>>,
    n: nat,
) -> Map<Seq<char>, Seq<char>>
    decreases n,
{
    if n == 0 || n > entries.len() {
        Map::empty()
    } else {
        flat_table(prefix, entries, numbers, (n - 1) as nat).insert(
            prefix + ":"@ + entries[n - 1].0,
            flat_value(entries[n - 1].1, numbers),
        )
    }
}

/// A metadata value as a string: a string stands for itself, anything else for its JSON.
///
/// `numbers` has the text of each number that is no integer, under its token.
pub fn stringify_json_value(value: &JsonValue, numbers: &StringMap<String>) -> (r: String)
    ensures
        r@ == flat_value(value.model(), ordered::value_views(numbers@)),
{
    match value {
        JsonValue::String(s) => s.clone(),
        _ => json::encode_compact(&json::with_numbers(value, numbers)),
    }
}

/// Flatten metadata to strings, each key behind `prefix` and a colon.
///
/// `numbers` has the text of each number that is no integer, under its token.
pub fn stringify_metadata(
    prefix: &str,
    metadata: &Vec<(String, JsonValue)>,
    numbers: &StringMap<String>,
) -> (r: StringMap<String>)
    ensures
        ordered::value_views(r@) == flat_table(
            prefix@,
            json::entry_models(metadata@),
            ordered::value_views(numbers@),
            metadata@.len(),
        ),
{
    let ghost all = json::entry_models(metadata@);
    let ghost given = ordered::value_views(numbers@);
    let mut table: StringMap<String> = StringMap::new();
    let mut i: usize = 0;
    assert(ordered::value_views(table@) =~= Map::empty());
    while i < metadata.len()
        invariant
            i <= metadata@.len(),
            all == json::entry_models(metadata@),
            given == ordered::value_views(numbers@),
            ordered::value_views(table@) == flat_table(prefix@, all, given, i as nat),
        decreases metadata@.len() - i,
    {
        let key = text::concat3(prefix, ":", metadata[i].0.as_str());
        let value = stringify_json_value(&metadata[i].1, numbers);
        proof {
            ordered::lemma_value_views_insert(table@, key@, value);
        }
        table.insert(key, value);
        i += 1;
    }
    table
}

} // verus!
