//! What is written as JSON is read back unchanged.

use crate::error::ErrorView;
use crate::safetensors::json;
use crate::safetensors::json::Json;
use crate::safetensors::json_parse;
use crate::safetensors::json_parse::JsonFault;
use crate::text;
use vstd::prelude::*;

verus! {

/// The value is one that parsing can give: the keys of its objects are in order, and it
/// holds signed numbers below zero alone and no number that is not an integer.
pub open spec fn canonical(j: Json) -> bool
    decreases j,
{
    match j {
        Json::I64(n) => n < 0,
        Json::Float(_) => false,
        Json::Array(items) => forall|i: int|
            0 <= i < items.len() ==> canonical(#[trigger] items[i]),
        Json::Object(entries) => {
            &&& text::increasing(json::entry_keys(entries))
            &&& forall|i: int| 0 <= i < entries.len() ==> canonical((#[trigger] entries[i]).1)
        },
        _ => true,
    }
}

/// A value that parsing can give has its keys in order.
pub proof fn lemma_canonical_keys(j: Json)
    requires
        canonical(j),
    ensures
        json::keys_in_order(j),
    decreases j,
{
    match j {
        Json::Array(items) => {
            assert forall|i: int| 0 <= i < items.len() implies json::keys_in_order(
                #[trigger] items[i],
            ) by {
                lemma_canonical_keys(items[i]);
            }
        },
        Json::Object(entries) => {
            assert forall|i: int| 0 <= i < entries.len() implies json::keys_in_order(
                (#[trigger] entries[i]).1,
            ) by {
                lemma_canonical_keys(entries[i].1);
            }
        },
        _ => {},
    }
}

/// `part` stands at `i`.
spec fn stands_at(s: Seq<char>, i: int, part: Seq<char>) -> bool {
    0 <= i && i + part.len() <= s.len() && s.subrange(i, i + part.len()) == part
}

proof fn lemma_stands_at_char(s: Seq<char>, i: int, part: Seq<char>, k: int)
    requires
        stands_at(s, i, part),
        0 <= k < part.len(),
    ensures
        s[i + k] == part[k],
{
    assert(s.subrange(i, i + part.len())[k] == s[i + k]);
}

proof fn lemma_stands_at_split(s: Seq<char>, i: int, a: Seq<char>, b: Seq<char>)
    requires
        stands_at(s, i, a + b),
    ensures
        stands_at(s, i, a),
        stands_at(s, i + a.len(), b),
{
    let whole = s.subrange(i, i + (a + b).len());
    assert(s.subrange(i, i + a.len()) =~= whole.subrange(0, a.len() as int));
    assert(whole.subrange(0, a.len() as int) =~= a);
    assert(s.subrange(i + a.len(), i + a.len() + b.len()) =~= whole.subrange(
        a.len() as int,
        (a + b).len() as int,
    ));
    assert(whole.subrange(a.len() as int, (a + b).len() as int) =~= b);
}

// ---------------------------------------------------------------------------
// Strings
// ---------------------------------------------------------------------------
proof fn lemma_escaped_front(t: Seq<char>)
    requires
        t.len() > 0,
    ensures
        json::escaped(t) == json::escaped_char(t[0]) + json::escaped(t.skip(1)),
    decreases t.len(),
{
    if t.len() == 1 {
        assert(t.drop_last() =~= Seq::<char>::empty());
        assert(t.skip(1) =~= Seq::<char>::empty());
        assert(json::escaped(t) =~= json::escaped_char(t[0]) + json::escaped(t.skip(1)));
    } else {
        lemma_escaped_front(t.drop_last());
        assert(t.drop_last().skip(1) =~= t.skip(1).drop_last());
        assert(t.skip(1).last() == t.last());
        assert(json::escaped(t) =~= json::escaped_char(t[0]) + json::escaped(t.skip(1)));
    }
}

proof fn lemma_string_char(s: Seq<char>, i: int, c: char, read: Seq<char>)
    requires
        stands_at(s, i, json::escaped_char(c)),
    ensures
        json_parse::string_body(s, i, read) == json_parse::string_body(
            s,
            i + json::escaped_char(c).len(),
            read.push(c),
        ),
{
    let part = json::escaped_char(c);
    lemma_stands_at_char(s, i, part, 0);
    if part.len() >= 2 {
        lemma_stands_at_char(s, i, part, 1);
    }
    if part.len() == 6 {
        lemma_stands_at_char(s, i, part, 2);
        lemma_stands_at_char(s, i, part, 3);
        lemma_stands_at_char(s, i, part, 4);
        lemma_stands_at_char(s, i, part, 5);
        reveal_with_fuel(json_parse::hex_digits, 5);
        let n = c as u32;
        assert(n / 16 < 2);
        assert(json_parse::hex_value(part[4]) == Some((n / 16) as nat));
        assert(json_parse::hex_value(part[5]) == Some((n % 16) as nat));
        assert(json_parse::hex_digits(s, i + 2, 0, 4) == Ok::<nat, JsonFault>(n as nat));
        assert(n as nat as u32 as char == c);
        assert(json_parse::escape_char(s, i + 1) == Ok::<(char, int), JsonFault>((c, i + 6)));
    }
}

proof fn lemma_string(s: Seq<char>, i: int, t: Seq<char>, read: Seq<char>)
    requires
        stands_at(s, i, json::escaped(t)),
        i + json::escaped(t).len() < s.len(),
        s[i + json::escaped(t).len()] == '"',
    ensures
        json_parse::string_body(s, i, read) == Ok::<(Seq<char>, int), JsonFault>(
            (read + t, i + json::escaped(t).len() + 1),
        ),
    decreases t.len(),
{
    if t.len() == 0 {
        assert(read + t =~= read);
    } else {
        let rest = t.skip(1);
        lemma_escaped_front(t);
        lemma_stands_at_split(s, i, json::escaped_char(t[0]), json::escaped(rest));
        lemma_string_char(s, i, t[0], read);
        lemma_string(s, i + json::escaped_char(t[0]).len(), rest, read.push(t[0]));
        assert(read.push(t[0]) + rest =~= read + t);
    }
}

proof fn lemma_quoted(s: Seq<char>, i: int, t: Seq<char>)
    requires
        stands_at(s, i, json::quoted(t)),
    ensures
        s[i] == '"',
        json_parse::string_body(s, i + 1, Seq::empty()) == Ok::<(Seq<char>, int), JsonFault>(
            (t, i + json::quoted(t).len()),
        ),
{
    let body = json::escaped(t);
    assert(json::quoted(t) =~= seq!['"'] + (body + seq!['"']));
    lemma_stands_at_split(s, i, seq!['"'], body + seq!['"']);
    lemma_stands_at_char(s, i, seq!['"'], 0);
    lemma_stands_at_split(s, i + 1, body, seq!['"']);
    lemma_stands_at_char(s, i + 1 + body.len(), seq!['"'], 0);
    lemma_string(s, i + 1, t, Seq::empty());
    assert(Seq::<char>::empty() + t =~= t);
}

/// A text that is written as a JSON string is read back up to the closing quote, whatever
/// characters it holds and whatever stands around it.
pub proof fn law_string_is_read_back(before: Seq<char>, t: Seq<char>, after: Seq<char>)
    ensures
        json_parse::string_at(before + json::quoted(t) + after, before.len() as int) == Ok::<
            (Seq<char>, int),
            JsonFault,
        >((t, (before + json::quoted(t)).len() as int)),
{
    let s = before + json::quoted(t) + after;
    assert(s.subrange(before.len() as int, (before + json::quoted(t)).len() as int)
        =~= json::quoted(t));
    lemma_quoted(s, before.len() as int, t);
}

// ---------------------------------------------------------------------------
// Numbers
// ---------------------------------------------------------------------------
proof fn lemma_skip_run(s: Seq<char>, i: int, end: int)
    requires
        0 <= i <= end <= s.len(),
        forall|k: int| i <= k < end ==> json_parse::is_digit(#[trigger] s[k]),
        end < s.len() ==> !json_parse::is_digit(s[end]),
    ensures
        json_parse::skip_digits(s, i) == end,
    decreases end - i,
{
    if i < end {
        lemma_skip_run(s, i + 1, end);
    }
}

/// What may follow a value.
spec fn closes(s: Seq<char>, i: int) -> bool {
    i == s.len() || (i < s.len() && (s[i] == ',' || s[i] == ']' || s[i] == '}' || s[i] == '\n'))
}

proof fn lemma_number(s: Seq<char>, i: int, n: int)
    requires
        stands_at(s, i, text::decimal_int(n)),
        closes(s, i + text::decimal_int(n).len()),
        i64::MIN <= n <= u64::MAX,
    ensures
        json_parse::number(s, i) == Ok::<(Json, int), JsonFault>(
            (
                if n < 0 {
                    Json::I64(n as i64)
                } else {
                    Json::U64(n as u64)
                },
                i + text::decimal_int(n).len(),
            ),
        ),
        s[i] == '-' || json_parse::is_digit(s[i]),
{
    let m: nat = if n < 0 {
        (-n) as nat
    } else {
        n as nat
    };
    let digits = text::decimal(m);
    text::lemma_decimal(m);
    let a = if n < 0 {
        i + 1
    } else {
        i
    };
    if n < 0 {
        lemma_stands_at_split(s, i, seq!['-'], digits);
        lemma_stands_at_char(s, i, seq!['-'], 0);
    }
    assert(stands_at(s, a, digits));
    lemma_stands_at_char(s, a, digits, 0);
    let end = a + digits.len();
    assert forall|k: int| a <= k < end implies json_parse::is_digit(#[trigger] s[k]) by {
        lemma_stands_at_char(s, a, digits, k - a);
    }
    lemma_skip_run(s, a + 1, end);
    assert(s.subrange(a, end) == digits);
}

// ---------------------------------------------------------------------------
// Lists
// ---------------------------------------------------------------------------
proof fn lemma_joined_front(parts: Seq<Seq<char>>, separator: Seq<char>)
    requires
        parts.len() >= 2,
    ensures
        text::joined(parts, separator) == parts[0] + (separator + text::joined(
            parts.skip(1),
            separator,
        )),
    decreases parts.len(),
{
    let rest = parts.skip(1);
    if parts.len() == 2 {
        assert(text::joined(parts.drop_last(), separator) == parts[0]);
        assert(text::joined(rest, separator) == parts[1]);
    } else {
        lemma_joined_front(parts.drop_last(), separator);
        assert(parts.drop_last().skip(1) =~= rest.drop_last());
        assert(rest.last() == parts.last());
    }
    assert(text::joined(parts, separator) =~= parts[0] + (separator + text::joined(
        rest,
        separator,
    )));
}

proof fn lemma_no_space(s: Seq<char>, i: int)
    requires
        0 <= i <= s.len(),
        i < s.len() ==> !json_parse::is_space(s[i]),
    ensures
        json_parse::skip_space(s, i) == i,
{
}

proof fn lemma_first_char(j: Json)
    requires
        canonical(j),
    ensures
        json::compact(j).len() > 0,
        !json_parse::is_space(json::compact(j)[0]),
        json::compact(j)[0] != ']',
        json::compact(j)[0] != '}',
{
    reveal_strlit("null");
    reveal_strlit("true");
    reveal_strlit("false");
    match j {
        Json::I64(n) => {
            text::lemma_decimal((-n) as nat);
        },
        Json::U64(n) => {
            text::lemma_decimal(n as nat);
            assert(json_parse::is_digit(text::decimal(n as nat)[0]));
        },
        _ => {},
    }
}

proof fn lemma_value(s: Seq<char>, i: int, j: Json)
    requires
        canonical(j),
        stands_at(s, i, json::compact(j)),
        closes(s, i + json::compact(j).len()),
    ensures
        json_parse::value(s, i) == Ok::<(Json, int), JsonFault>((j, i + json::compact(j).len())),
    decreases j, 0int,
{
    let part = json::compact(j);
    lemma_first_char(j);
    lemma_stands_at_char(s, i, part, 0);
    lemma_no_space(s, i);
    match j {
        Json::Null => {
            reveal_strlit("null");
            assert(text::occurs_at(s, i, "null"@));
        },
        Json::Bool(b) => {
            reveal_strlit("true");
            reveal_strlit("false");
            if b {
                assert(text::occurs_at(s, i, "true"@));
            } else {
                assert(text::occurs_at(s, i, "false"@));
                assert(!text::occurs_at(s, i, "true"@)) by {
                    if text::occurs_at(s, i, "true"@) {
                        assert(s.subrange(i, i + 4)[0] == s[i]);
                    }
                }
            }
        },
        Json::I64(n) => {
            lemma_number(s, i, n as int);
        },
        Json::U64(n) => {
            lemma_number(s, i, n as int);
        },
        Json::Float(_) => {},
        Json::Text(t) => {
            lemma_quoted(s, i, t);
        },
        Json::Array(items) => {
            let parts = json::compact_items(items);
            let body = text::joined(parts, seq![',']);
            assert(part =~= seq!['['] + (body + seq![']']));
            lemma_stands_at_split(s, i, seq!['['], body + seq![']']);
            lemma_stands_at_split(s, i + 1, body, seq![']']);
            lemma_stands_at_char(s, i + 1 + body.len(), seq![']'], 0);
            if items.len() == 0 {
                assert(body =~= Seq::<char>::empty());
                lemma_no_space(s, i + 1);
                assert(items =~= Seq::<Json>::empty());
            } else {
                lemma_items_first(items, 0);
                assert(parts.skip(0) =~= parts);
                lemma_stands_at_char(s, i + 1, body, 0);
                lemma_no_space(s, i + 1);
                lemma_elements(s, i + 1, items, 0, Seq::empty());
                assert(Seq::<Json>::empty() + items.skip(0) =~= items);
            }
        },
        Json::Object(entries) => {
            let parts = json::compact_entries(entries);
            let body = text::joined(parts, seq![',']);
            assert(part =~= seq!['{'] + (body + seq!['}']));
            lemma_stands_at_split(s, i, seq!['{'], body + seq!['}']);
            lemma_stands_at_split(s, i + 1, body, seq!['}']);
            lemma_stands_at_char(s, i + 1 + body.len(), seq!['}'], 0);
            if entries.len() == 0 {
                assert(body =~= Seq::<char>::empty());
                lemma_no_space(s, i + 1);
                assert(entries =~= Seq::<(Seq<char>, Json)>::empty());
            } else {
                lemma_entries_first(entries, 0);
                assert(parts.skip(0) =~= parts);
                lemma_stands_at_char(s, i + 1, body, 0);
                lemma_no_space(s, i + 1);
                assert(entries.take(0) =~= Seq::<(Seq<char>, Json)>::empty());
                lemma_members(s, i + 1, entries, 0);
            }
        },
    }
}

/// The text of the elements from `k` on starts with the first of them.
proof fn lemma_items_first(items: Seq<Json>, k: int)
    requires
        0 <= k < items.len(),
        forall|i: int| 0 <= i < items.len() ==> canonical(#[trigger] items[i]),
    ensures
        ({
            let text = text::joined(json::compact_items(items).skip(k), seq![',']);
            &&& text.len() > 0
            &&& text[0] == json::compact(items[k])[0]
            &&& !json_parse::is_space(text[0])
            &&& text[0] != ']'
        }),
{
    let parts = json::compact_items(items).skip(k);
    assert(parts[0] == json::compact(items[k]));
    lemma_first_char(items[k]);
    if parts.len() >= 2 {
        lemma_joined_front(parts, seq![',']);
    }
}

proof fn lemma_elements(s: Seq<char>, i: int, items: Seq<Json>, k: int, read: Seq<Json>)
    requires
        0 <= k < items.len(),
        forall|n: int| 0 <= n < items.len() ==> canonical(#[trigger] items[n]),
        stands_at(s, i, text::joined(json::compact_items(items).skip(k), seq![','])),
        ({
            let end = i + text::joined(json::compact_items(items).skip(k), seq![',']).len();
            end < s.len() && s[end] == ']'
        }),
    ensures
        json_parse::elements(s, i, read) == Ok::<(Json, int), JsonFault>(
            (
                Json::Array(read + items.skip(k)),
                i + text::joined(json::compact_items(items).skip(k), seq![',']).len() + 1,
            ),
        ),
    decreases items, items.len() - k,
{
    let parts = json::compact_items(items).skip(k);
    let whole = text::joined(parts, seq![',']);
    let first = json::compact(items[k]);
    assert(parts[0] == first);
    if k == items.len() - 1 {
        assert(whole == first);
        lemma_value(s, i, items[k]);
        lemma_no_space(s, i + first.len());
        assert(read.push(items[k]) =~= read + items.skip(k));
    } else {
        let rest = text::joined(parts.skip(1), seq![',']);
        lemma_joined_front(parts, seq![',']);
        assert(parts.skip(1) =~= json::compact_items(items).skip(k + 1));
        lemma_stands_at_split(s, i, first, seq![','] + rest);
        lemma_stands_at_split(s, i + first.len(), seq![','], rest);
        lemma_stands_at_char(s, i + first.len(), seq![','], 0);
        lemma_value(s, i, items[k]);
        lemma_no_space(s, i + first.len());
        let next = i + first.len() + 1;
        lemma_items_first(items, k + 1);
        lemma_stands_at_char(s, next, rest, 0);
        lemma_no_space(s, next);
        lemma_elements(s, next, items, k + 1, read.push(items[k]));
        assert(read.push(items[k]) + items.skip(k + 1) =~= read + items.skip(k));
    }
}

/// The text of the entries from `k` on starts with a quote.
proof fn lemma_entries_first(entries: Seq<(Seq<char>, Json)>, k: int)
    requires
        0 <= k < entries.len(),
    ensures
        ({
            let text = text::joined(json::compact_entries(entries).skip(k), seq![',']);
            text.len() > 0 && text[0] == '"'
        }),
{
    let parts = json::compact_entries(entries).skip(k);
    assert(parts[0] == json::quoted(entries[k].0) + seq![':'] + json::compact(entries[k].1));
    if parts.len() >= 2 {
        lemma_joined_front(parts, seq![',']);
    }
}

proof fn lemma_slot_at_end(entries: Seq<(Seq<char>, Json)>, key: Seq<char>)
    requires
        forall|j: int| 0 <= j < entries.len() ==> text::less(#[trigger] entries[j].0, key),
    ensures
        json_parse::entry_slot(entries, key) == entries.len(),
    decreases entries.len(),
{
    if entries.len() > 0 {
        assert(text::less(entries[0].0, key));
        let rest = entries.skip(1);
        assert forall|j: int| 0 <= j < rest.len() implies text::less(#[trigger] rest[j].0, key) by {
            assert(rest[j] == entries[j + 1]);
        }
        lemma_slot_at_end(rest, key);
    }
}

/// An entry behind all others is appended.
proof fn lemma_append_entry(entries: Seq<(Seq<char>, Json)>, k: int)
    requires
        0 <= k < entries.len(),
        text::increasing(json::entry_keys(entries)),
    ensures
        !json::entry_keys(entries.take(k)).contains(entries[k].0),
        json_parse::with_entry(entries.take(k), entries[k].0, entries[k].1) == entries.take(k + 1),
{
    let before = entries.take(k);
    let keys = json::entry_keys(entries);
    let key = entries[k].0;
    assert(keys[k] == key);
    assert forall|j: int| 0 <= j < before.len() implies text::less(#[trigger] before[j].0, key) by {
        assert(keys[j] == before[j].0);
        assert(text::less(keys[j], keys[k]));
    }
    lemma_slot_at_end(before, key);
    assert(before.insert(k, (key, entries[k].1)) =~= entries.take(k + 1));
    if json::entry_keys(before).contains(key) {
        let j = json::entry_keys(before).index_of(key);
        assert(before[j].0 == key);
        text::lemma_less_total_order();
        assert(text::less(key, key));
    }
}

proof fn lemma_members(s: Seq<char>, i: int, entries: Seq<(Seq<char>, Json)>, k: int)
    requires
        0 <= k < entries.len(),
        text::increasing(json::entry_keys(entries)),
        forall|n: int| 0 <= n < entries.len() ==> canonical((#[trigger] entries[n]).1),
        stands_at(s, i, text::joined(json::compact_entries(entries).skip(k), seq![','])),
        ({
            let end = i + text::joined(json::compact_entries(entries).skip(k), seq![',']).len();
            end < s.len() && s[end] == '}'
        }),
    ensures
        json_parse::members(s, i, entries.take(k)) == Ok::<(Json, int), JsonFault>(
            (
                Json::Object(entries),
                i + text::joined(json::compact_entries(entries).skip(k), seq![',']).len() + 1,
            ),
        ),
    decreases entries, entries.len() - k,
{
    let parts = json::compact_entries(entries).skip(k);
    let whole = text::joined(parts, seq![',']);
    let key = entries[k].0;
    let v = entries[k].1;
    let head = json::quoted(key) + seq![':'];
    let first = head + json::compact(v);
    assert(parts[0] == first);
    assert(decreases_to!(entries => entries[k]));
    assert(decreases_to!(entries[k] => entries[k].1));
    lemma_append_entry(entries, k);
    let last = k == entries.len() - 1;
    let rest = text::joined(parts.skip(1), seq![',']);
    if last {
        assert(whole == first);
        assert(stands_at(s, i, first));
    } else {
        lemma_joined_front(parts, seq![',']);
        lemma_stands_at_split(s, i, first, seq![','] + rest);
        lemma_stands_at_split(s, i + first.len(), seq![','], rest);
        lemma_stands_at_char(s, i + first.len(), seq![','], 0);
    }
    lemma_stands_at_split(s, i, head, json::compact(v));
    lemma_stands_at_split(s, i, json::quoted(key), seq![':']);
    lemma_quoted(s, i, key);
    let colon = i + json::quoted(key).len();
    lemma_stands_at_char(s, colon, seq![':'], 0);
    lemma_no_space(s, colon);
    lemma_value(s, colon + 1, v);
    let end = i + first.len();
    lemma_no_space(s, end);
    if last {
        assert(entries.take(k + 1) =~= entries);
    } else {
        assert(parts.skip(1) =~= json::compact_entries(entries).skip(k + 1));
        lemma_entries_first(entries, k + 1);
        lemma_stands_at_char(s, end + 1, rest, 0);
        lemma_no_space(s, end + 1);
        lemma_members(s, end + 1, entries, k + 1);
    }
}

/// Parsing the compact encoding of a value gives the value back.
pub proof fn law_compact_is_read_back(j: Json, path: Seq<char>)
    requires
        canonical(j),
    ensures
        json_parse::parsed(json::compact(j), path) == Ok::<Json, ErrorView>(j),
{
    let s = json::compact(j);
    assert(s.subrange(0, s.len() as int) =~= s);
    lemma_value(s, 0, j);
    lemma_no_space(s, s.len() as int);
}

// ---------------------------------------------------------------------------
// Several lines
// ---------------------------------------------------------------------------
proof fn lemma_skip_space_run(s: Seq<char>, i: int, end: int)
    requires
        0 <= i <= end <= s.len(),
        forall|k: int| i <= k < end ==> json_parse::is_space(#[trigger] s[k]),
        end < s.len() ==> !json_parse::is_space(s[end]),
    ensures
        json_parse::skip_space(s, i) == end,
    decreases end - i,
{
    if i < end {
        lemma_skip_space_run(s, i + 1, end);
    }
}

proof fn lemma_padding(n: nat)
    ensures
        json::padding(n).len() == 2 * n,
        forall|k: int| 0 <= k < json::padding(n).len() ==> #[trigger] json::padding(n)[k] == ' ',
    decreases n,
{
    reveal_strlit("  ");
    if n > 0 {
        lemma_padding((n - 1) as nat);
    }
}

/// A new line and its padding are skipped.
proof fn lemma_skip_line(s: Seq<char>, i: int, n: nat)
    requires
        stands_at(s, i, seq!['\n'] + json::padding(n)),
        i + 1 + 2 * n < s.len(),
        !json_parse::is_space(s[i + 1 + 2 * n]),
    ensures
        json_parse::skip_space(s, i) == i + 1 + 2 * n,
{
    let part = seq!['\n'] + json::padding(n);
    lemma_padding(n);
    assert forall|k: int| i <= k < i + part.len() implies json_parse::is_space(#[trigger] s[k]) by {
        lemma_stands_at_char(s, i, part, k - i);
        if k > i {
            assert(part[k - i] == json::padding(n)[k - i - 1]);
        }
    }
    lemma_skip_space_run(s, i, i + part.len());
}

/// A value on several lines starts with a character of its own.
proof fn lemma_pretty_first(j: Json, n: nat)
    requires
        canonical(j),
    ensures
        json::pretty(j, n).len() > 0,
        !json_parse::is_space(json::pretty(j, n)[0]),
        json::pretty(j, n)[0] != ']',
        json::pretty(j, n)[0] != '}',
{
    reveal_strlit("[]");
    reveal_strlit("{}");
    reveal_strlit("[\n");
    reveal_strlit("{\n");
    lemma_first_char(j);
}

/// The end of a list on several lines.
spec fn list_end(n: nat, close: char) -> Seq<char> {
    seq!['\n'] + json::padding(n) + seq![close]
}

proof fn lemma_list_end(s: Seq<char>, i: int, n: nat, close: char)
    requires
        stands_at(s, i, list_end(n, close)),
        close == ']' || close == '}',
    ensures
        json_parse::skip_space(s, i) == i + 1 + 2 * n,
        i + 1 + 2 * n < s.len(),
        s[i + 1 + 2 * n] == close,
        s[i] == '\n',
{
    lemma_padding(n);
    let line = seq!['\n'] + json::padding(n);
    lemma_stands_at_split(s, i, line, seq![close]);
    lemma_stands_at_char(s, i + line.len(), seq![close], 0);
    lemma_stands_at_char(s, i, line, 0);
    lemma_skip_line(s, i, n);
}

/// A character, a new line and the padded text after it: the white space is skipped.
proof fn lemma_line_break(s: Seq<char>, i: int, c: char, n: nat, body: Seq<char>, tail: Seq<char>)
    requires
        stands_at(s, i, seq![c] + (seq!['\n'] + (body + tail))),
        !json_parse::is_space(c),
        body.len() > 2 * n,
        body.subrange(0, 2 * n as int) == json::padding(n),
        !json_parse::is_space(body[2 * n as int]),
    ensures
        0 <= i < s.len(),
        s[i] == c,
        json_parse::skip_space(s, i) == i,
        stands_at(s, i + 2, body + tail),
        i + 2 + 2 * n < s.len(),
        s[i + 2 + 2 * n] == body[2 * n as int],
        json_parse::skip_space(s, i + 1) == i + 2 + 2 * n,
{
    let pad = json::padding(n);
    lemma_padding(n);
    lemma_stands_at_split(s, i, seq![c], seq!['\n'] + (body + tail));
    lemma_stands_at_char(s, i, seq![c], 0);
    lemma_no_space(s, i);
    lemma_stands_at_split(s, i + 1, seq!['\n'], body + tail);
    assert(body =~= pad + body.skip(pad.len() as int));
    assert(seq!['\n'] + (body + tail) =~= (seq!['\n'] + pad) + (body.skip(pad.len() as int) + tail));
    lemma_stands_at_split(s, i + 1, seq!['\n'] + pad, body.skip(pad.len() as int) + tail);
    lemma_stands_at_char(s, i + 2, body + tail, pad.len() as int);
    lemma_skip_line(s, i + 1, n);
}

proof fn lemma_pretty_value(s: Seq<char>, i: int, j: Json, n: nat)
    requires
        canonical(j),
        stands_at(s, i, json::pretty(j, n)),
        closes(s, i + json::pretty(j, n).len()),
    ensures
        json_parse::value(s, i) == Ok::<(Json, int), JsonFault>((j, i + json::pretty(j, n).len())),
    decreases j, 0int,
{
    match j {
        Json::Array(items) => {
            if items.len() == 0 {
                reveal_strlit("[]");
                assert(text::joined(json::compact_items(items), seq![',']) =~= Seq::<char>::empty());
                assert(json::pretty(j, n) =~= json::compact(j));
                lemma_value(s, i, j);
            } else {
                lemma_pretty_array(s, i, items, n);
            }
        },
        Json::Object(entries) => {
            if entries.len() == 0 {
                reveal_strlit("{}");
                assert(text::joined(json::compact_entries(entries), seq![',']) =~= Seq::<
                    char,
                >::empty());
                assert(json::pretty(j, n) =~= json::compact(j));
                lemma_value(s, i, j);
            } else {
                lemma_pretty_object(s, i, entries, n);
            }
        },
        _ => {
            lemma_value(s, i, j);
        },
    }
}

proof fn lemma_pretty_array(s: Seq<char>, i: int, items: Seq<Json>, n: nat)
    requires
        items.len() > 0,
        canonical(Json::Array(items)),
        stands_at(s, i, json::pretty(Json::Array(items), n)),
    ensures
        json_parse::value(s, i) == Ok::<(Json, int), JsonFault>(
            (Json::Array(items), i + json::pretty(Json::Array(items), n).len()),
        ),
    decreases items, items.len() + 1,
{
    let parts = json::pretty_items(items, n + 1);
    let body = text::joined(parts, ",\n"@);
    let part = json::pretty(Json::Array(items), n);
    reveal_strlit("[\n");
    reveal_strlit("\n");
    reveal_strlit("]");
    lemma_padding(n);
    assert(part =~= seq!['['] + (seq!['\n'] + (body + list_end(n, ']'))));
    assert(parts.skip(0) =~= parts);
    lemma_pretty_items_first(items, 0, n + 1);
    lemma_line_break(s, i, '[', n + 1, body, list_end(n, ']'));
    lemma_pretty_elements(s, i + 2, items, 0, Seq::empty(), n);
    assert(Seq::<Json>::empty() + items.skip(0) =~= items);
}

proof fn lemma_pretty_object(s: Seq<char>, i: int, entries: Seq<(Seq<char>, Json)>, n: nat)
    requires
        entries.len() > 0,
        canonical(Json::Object(entries)),
        stands_at(s, i, json::pretty(Json::Object(entries), n)),
    ensures
        json_parse::value(s, i) == Ok::<(Json, int), JsonFault>(
            (Json::Object(entries), i + json::pretty(Json::Object(entries), n).len()),
        ),
    decreases entries, entries.len() + 1,
{
    let parts = json::pretty_entries(entries, n + 1);
    let body = text::joined(parts, ",\n"@);
    let part = json::pretty(Json::Object(entries), n);
    reveal_strlit("{\n");
    reveal_strlit("\n");
    reveal_strlit("}");
    lemma_padding(n);
    assert(part =~= seq!['{'] + (seq!['\n'] + (body + list_end(n, '}'))));
    assert(parts.skip(0) =~= parts);
    lemma_pretty_entries_first(entries, 0, n + 1);
    lemma_line_break(s, i, '{', n + 1, body, list_end(n, '}'));
    assert(entries.take(0) =~= Seq::<(Seq<char>, Json)>::empty());
    lemma_pretty_members(s, i + 2, entries, 0, n);
}

/// The text of the elements from `k` on starts with the padding and the first of them.
proof fn lemma_pretty_items_first(items: Seq<Json>, k: int, n: nat)
    requires
        0 <= k < items.len(),
        forall|i: int| 0 <= i < items.len() ==> canonical(#[trigger] items[i]),
    ensures
        ({
            let text = text::joined(json::pretty_items(items, n).skip(k), ",\n"@);
            &&& text.len() > 2 * n
            &&& text.subrange(0, 2 * n as int) == json::padding(n)
            &&& !json_parse::is_space(text[2 * n as int])
            &&& text[2 * n as int] != ']'
        }),
{
    let parts = json::pretty_items(items, n).skip(k);
    let whole = text::joined(parts, ",\n"@);
    assert(parts[0] == json::padding(n) + json::pretty(items[k], n));
    lemma_pretty_first(items[k], n);
    lemma_padding(n);
    if parts.len() >= 2 {
        lemma_joined_front(parts, ",\n"@);
    }
    assert(whole.subrange(0, 2 * n as int) =~= json::padding(n));
    assert(whole[2 * n as int] == json::pretty(items[k], n)[0]);
}

proof fn lemma_pretty_elements(
    s: Seq<char>,
    p: int,
    items: Seq<Json>,
    k: int,
    read: Seq<Json>,
    n: nat,
)
    requires
        0 <= k < items.len(),
        forall|m: int| 0 <= m < items.len() ==> canonical(#[trigger] items[m]),
        stands_at(
            s,
            p,
            text::joined(json::pretty_items(items, n + 1).skip(k), ",\n"@) + list_end(n, ']'),
        ),
    ensures
        json_parse::elements(s, p + 2 * (n + 1), read) == Ok::<(Json, int), JsonFault>(
            (
                Json::Array(read + items.skip(k)),
                p + text::joined(json::pretty_items(items, n + 1).skip(k), ",\n"@).len() + 2 * n
                    + 2,
            ),
        ),
    decreases items, items.len() - k,
{
    let parts = json::pretty_items(items, n + 1).skip(k);
    let whole = text::joined(parts, ",\n"@);
    let pad = json::padding(n + 1);
    let own = json::pretty(items[k], n + 1);
    let first = pad + own;
    reveal_strlit(",\n");
    assert(parts[0] == first);
    lemma_padding(n + 1);
    lemma_padding(n);
    let q = p + pad.len();
    let end = q + own.len();
    lemma_pretty_first(items[k], n + 1);
    if k == items.len() - 1 {
        assert(whole == first);
        lemma_stands_at_split(s, p, first, list_end(n, ']'));
        lemma_stands_at_split(s, p, pad, own);
        lemma_list_end(s, end, n, ']');
        lemma_pretty_value(s, q, items[k], n + 1);
        assert(read.push(items[k]) =~= read + items.skip(k));
    } else {
        let rest = text::joined(parts.skip(1), ",\n"@);
        let tail = rest + list_end(n, ']');
        lemma_joined_front(parts, ",\n"@);
        assert(parts.skip(1) =~= json::pretty_items(items, n + 1).skip(k + 1));
        assert(",\n"@ =~= seq![','] + seq!['\n']);
        assert(whole + list_end(n, ']') =~= first + (seq![','] + (seq!['\n'] + tail)));
        lemma_stands_at_split(s, p, first, seq![','] + (seq!['\n'] + tail));
        lemma_stands_at_split(s, p, pad, own);
        lemma_pretty_items_first(items, k + 1, n + 1);
        lemma_line_break(s, end, ',', n + 1, rest, list_end(n, ']'));
        lemma_pretty_value(s, q, items[k], n + 1);
        lemma_pretty_elements(s, end + 2, items, k + 1, read.push(items[k]), n);
        assert(read.push(items[k]) + items.skip(k + 1) =~= read + items.skip(k));
    }
}

/// The text of the entries from `k` on starts with the padding and a quote.
proof fn lemma_pretty_entries_first(entries: Seq<(Seq<char>, Json)>, k: int, n: nat)
    requires
        0 <= k < entries.len(),
    ensures
        ({
            let text = text::joined(json::pretty_entries(entries, n).skip(k), ",\n"@);
            &&& text.len() > 2 * n
            &&& text.subrange(0, 2 * n as int) == json::padding(n)
            &&& text[2 * n as int] == '"'
        }),
{
    let parts = json::pretty_entries(entries, n).skip(k);
    let whole = text::joined(parts, ",\n"@);
    assert(parts[0] == json::padding(n) + json::quoted(entries[k].0) + ": "@ + json::pretty(
        entries[k].1,
        n,
    ));
    lemma_padding(n);
    if parts.len() >= 2 {
        lemma_joined_front(parts, ",\n"@);
    }
    assert(whole.subrange(0, 2 * n as int) =~= json::padding(n));
    assert(whole[2 * n as int] == json::quoted(entries[k].0)[0]);
}

/// The end of the value in the entry whose key starts at `q`.
proof fn lemma_pretty_member(
    s: Seq<char>,
    q: int,
    key: Seq<char>,
    v: Json,
    n: nat,
) -> (end: int)
    requires
        canonical(v),
        stands_at(s, q, json::quoted(key) + ": "@ + json::pretty(v, n)),
        closes(s, q + (json::quoted(key) + ": "@ + json::pretty(v, n)).len()),
    ensures
        end == q + (json::quoted(key) + ": "@ + json::pretty(v, n)).len(),
        s[q] == '"',
        json_parse::string_body(s, q + 1, Seq::empty()) == Ok::<(Seq<char>, int), JsonFault>(
            (key, q + json::quoted(key).len()),
        ),
        json_parse::skip_space(s, q + json::quoted(key).len()) == q + json::quoted(key).len(),
        s[q + json::quoted(key).len()] == ':',
        json_parse::value(s, q + json::quoted(key).len() + 1) == Ok::<(Json, int), JsonFault>(
            (v, end),
        ),
    decreases v, 1int,
{
    let name = json::quoted(key);
    let own = json::pretty(v, n);
    reveal_strlit(": ");
    assert(": "@ =~= seq![':'] + seq![' ']);
    assert(name + ": "@ + own =~= name + (seq![':'] + (seq![' '] + own)));
    lemma_stands_at_split(s, q, name, seq![':'] + (seq![' '] + own));
    lemma_quoted(s, q, key);
    let colon = q + name.len();
    lemma_stands_at_split(s, colon, seq![':'], seq![' '] + own);
    lemma_stands_at_char(s, colon, seq![':'], 0);
    lemma_no_space(s, colon);
    lemma_stands_at_split(s, colon + 1, seq![' '], own);
    lemma_stands_at_char(s, colon + 1, seq![' '], 0);
    lemma_pretty_first(v, n);
    lemma_stands_at_char(s, colon + 2, own, 0);
    lemma_pretty_value(s, colon + 2, v, n);
    lemma_no_space(s, colon + 2);
    assert(json_parse::skip_space(s, colon + 1) == colon + 2);
    assert(json_parse::value(s, colon + 1) == json_parse::value(s, colon + 2));
    colon + 2 + own.len()
}

proof fn lemma_pretty_members(
    s: Seq<char>,
    p: int,
    entries: Seq<(Seq<char>, Json)>,
    k: int,
    n: nat,
)
    requires
        0 <= k < entries.len(),
        text::increasing(json::entry_keys(entries)),
        forall|m: int| 0 <= m < entries.len() ==> canonical((#[trigger] entries[m]).1),
        stands_at(
            s,
            p,
            text::joined(json::pretty_entries(entries, n + 1).skip(k), ",\n"@) + list_end(n, '}'),
        ),
    ensures
        json_parse::members(s, p + 2 * (n + 1), entries.take(k)) == Ok::<(Json, int), JsonFault>(
            (
                Json::Object(entries),
                p + text::joined(json::pretty_entries(entries, n + 1).skip(k), ",\n"@).len() + 2
                    * n + 2,
            ),
        ),
    decreases entries, entries.len() - k,
{
    let parts = json::pretty_entries(entries, n + 1).skip(k);
    let whole = text::joined(parts, ",\n"@);
    let pad = json::padding(n + 1);
    let key = entries[k].0;
    let v = entries[k].1;
    let own = json::quoted(key) + ": "@ + json::pretty(v, n + 1);
    let first = pad + own;
    reveal_strlit(",\n");
    assert(parts[0] =~= first);
    lemma_padding(n + 1);
    lemma_padding(n);
    assert(decreases_to!(entries => entries[k]));
    assert(decreases_to!(entries[k] => entries[k].1));
    lemma_append_entry(entries, k);
    let q = p + pad.len();
    let after = q + own.len();
    if k == entries.len() - 1 {
        assert(whole == first);
        lemma_stands_at_split(s, p, first, list_end(n, '}'));
        lemma_stands_at_split(s, p, pad, own);
        lemma_list_end(s, after, n, '}');
        lemma_pretty_member(s, q, key, v, n + 1);
        assert(entries.take(k + 1) =~= entries);
    } else {
        let rest = text::joined(parts.skip(1), ",\n"@);
        let tail = rest + list_end(n, '}');
        lemma_joined_front(parts, ",\n"@);
        assert(parts.skip(1) =~= json::pretty_entries(entries, n + 1).skip(k + 1));
        assert(",\n"@ =~= seq![','] + seq!['\n']);
        assert(whole + list_end(n, '}') =~= first + (seq![','] + (seq!['\n'] + tail)));
        lemma_stands_at_split(s, p, first, seq![','] + (seq!['\n'] + tail));
        lemma_stands_at_split(s, p, pad, own);
        lemma_pretty_entries_first(entries, k + 1, n + 1);
        lemma_line_break(s, after, ',', n + 1, rest, list_end(n, '}'));
        lemma_pretty_member(s, q, key, v, n + 1);
        lemma_pretty_members(s, after + 2, entries, k + 1, n);
    }
}

/// Parsing the encoding of a value on several lines gives the value back.
pub proof fn law_pretty_is_read_back(j: Json, path: Seq<char>)
    requires
        canonical(j),
    ensures
        json_parse::parsed(json::pretty(j, 0) + "\n"@, path) == Ok::<Json, ErrorView>(j),
{
    reveal_strlit("\n");
    let body = json::pretty(j, 0);
    let s = body + "\n"@;
    assert(s.subrange(0, body.len() as int) =~= body);
    lemma_pretty_value(s, 0, j, 0);
    lemma_skip_space_run(s, body.len() as int, s.len() as int);
}

// ---------------------------------------------------------------------------
// Keys
// ---------------------------------------------------------------------------
proof fn lemma_slot_bounds(entries: Seq<(Seq<char>, Json)>, key: Seq<char>)
    ensures
        ({
            let p = json_parse::entry_slot(entries, key);
            &&& 0 <= p <= entries.len()
            &&& forall|j: int| 0 <= j < p ==> text::less(#[trigger] entries[j].0, key)
            &&& p < entries.len() ==> !text::less(entries[p].0, key)
        }),
    decreases entries.len(),
{
    if entries.len() > 0 && text::less(entries[0].0, key) {
        let rest = entries.skip(1);
        lemma_slot_bounds(rest, key);
        let p = json_parse::entry_slot(entries, key);
        assert forall|j: int| 0 <= j < p implies text::less(#[trigger] entries[j].0, key) by {
            if j > 0 {
                assert(rest[j - 1] == entries[j]);
            }
        }
        if p < entries.len() {
            assert(rest[p - 1] == entries[p]);
        }
    }
}

proof fn lemma_with_entry_in_order(entries: Seq<(Seq<char>, Json)>, key: Seq<char>, value: Json)
    requires
        text::increasing(json::entry_keys(entries)),
        !json::entry_keys(entries).contains(key),
        json::keys_in_order(value),
        forall|i: int| 0 <= i < entries.len() ==> json::keys_in_order((#[trigger] entries[i]).1),
    ensures
        ({
            let after = json_parse::with_entry(entries, key, value);
            &&& text::increasing(json::entry_keys(after))
            &&& forall|i: int| 0 <= i < after.len() ==> json::keys_in_order((#[trigger] after[i]).1)
        }),
{
    text::lemma_less_total_order();
    lemma_slot_bounds(entries, key);
    let p = json_parse::entry_slot(entries, key);
    let after = json_parse::with_entry(entries, key, value);
    let keys = json::entry_keys(entries);
    let keys_after = json::entry_keys(after);
    assert forall|j: int| p <= j < entries.len() implies text::less(
        key,
        #[trigger] entries[j].0,
    ) by {
        assert(keys[p] == entries[p].0);
        assert(keys.contains(keys[p]));
        assert(text::less(key, keys[p]));
        if p < j {
            assert(keys[j] == entries[j].0);
            assert(text::less(keys[p], keys[j]));
        }
    }
    assert forall|i: int, j: int| 0 <= i < j < keys_after.len() implies text::less(
        #[trigger] keys_after[i],
        #[trigger] keys_after[j],
    ) by {
        let i0 = if i < p {
            i
        } else {
            i - 1
        };
        let j0 = if j < p {
            j
        } else {
            j - 1
        };
        if i != p && j != p {
            assert(keys_after[i] == keys[i0]);
            assert(keys_after[j] == keys[j0]);
            assert(text::less(keys[i0], keys[j0]));
        } else if i == p {
            assert(keys_after[j] == entries[j0].0);
        } else {
            assert(keys_after[i] == entries[i0].0);
        }
    }
    assert forall|i: int| 0 <= i < after.len() implies json::keys_in_order((#[trigger] after[i]).1) by {
        if i != p {
            let i0 = if i < p {
                i
            } else {
                i - 1
            };
            assert(after[i] == entries[i0]);
        }
    }
}

proof fn lemma_value_keys(s: Seq<char>, i: int)
    ensures
        match json_parse::value(s, i) {
            Ok((j, _)) => json::keys_in_order(j),
            Err(_) => true,
        },
    decreases s.len() - i, 0int,
{
    let j = json_parse::skip_space(s, i);
    if i <= j < s.len() {
        let k = json_parse::skip_space(s, j + 1);
        if j < k <= s.len() {
            if s[j] == '{' {
                lemma_members_keys(s, k, Seq::empty());
            } else if s[j] == '[' {
                lemma_elements_keys(s, k, Seq::empty());
            }
        }
    }
}

proof fn lemma_elements_keys(s: Seq<char>, i: int, read: Seq<Json>)
    requires
        forall|n: int| 0 <= n < read.len() ==> json::keys_in_order(#[trigger] read[n]),
    ensures
        match json_parse::elements(s, i, read) {
            Ok((j, _)) => json::keys_in_order(j),
            Err(_) => true,
        },
    decreases s.len() - i, 1int,
{
    lemma_value_keys(s, i);
    match json_parse::value(s, i) {
        Err(_) => {},
        Ok((v, j)) => {
            let k = json_parse::skip_space(s, j);
            if i < j && j <= k < s.len() {
                let m = json_parse::skip_space(s, k + 1);
                if s[k] == ',' && k < m <= s.len() {
                    lemma_elements_keys(s, m, read.push(v));
                }
            }
        },
    }
}

proof fn lemma_members_keys(s: Seq<char>, i: int, read: Seq<(Seq<char>, Json)>)
    requires
        text::increasing(json::entry_keys(read)),
        forall|n: int| 0 <= n < read.len() ==> json::keys_in_order((#[trigger] read[n]).1),
    ensures
        match json_parse::members(s, i, read) {
            Ok((j, _)) => json::keys_in_order(j),
            Err(_) => true,
        },
    decreases s.len() - i, 1int,
{
    if 0 <= i < s.len() && s[i] == '"' {
        match json_parse::string_body(s, i + 1, Seq::empty()) {
            Err(_) => {},
            Ok((key, j)) => {
                let k = json_parse::skip_space(s, j);
                if !json::entry_keys(read).contains(key) && i < j && j <= k < s.len() && s[k]
                    == ':' {
                    lemma_value_keys(s, k + 1);
                    match json_parse::value(s, k + 1) {
                        Err(_) => {},
                        Ok((v, n)) => {
                            lemma_with_entry_in_order(read, key, v);
                            let p = json_parse::skip_space(s, n);
                            if k < n && n <= p < s.len() && s[p] == ',' {
                                let q = json_parse::skip_space(s, p + 1);
                                if p < q <= s.len() {
                                    lemma_members_keys(
                                        s,
                                        q,
                                        json_parse::with_entry(read, key, v),
                                    );
                                }
                            }
                        },
                    }
                }
            },
        }
    }
}

/// No object of a parsed document has a key twice, at any depth.
pub proof fn law_parsed_keys_are_distinct(s: Seq<char>, path: Seq<char>)
    ensures
        match json_parse::parsed(s, path) {
            Ok(j) => json::keys_in_order(j),
            Err(_) => true,
        },
{
    lemma_value_keys(s, 0);
}

/// How characters are written in a JSON string: the quote and the backslash behind a
/// backslash, five control characters as a backslash and a letter, the other control
/// characters as `u` and four digits, and everything else as it is. What is written for a
/// text is what is written for its parts.
pub proof fn law_characters_are_written(c: char, a: Seq<char>, b: Seq<char>)
    ensures
        c == '"' ==> json::escaped(seq![c]) == seq!['\\', '"'],
        c == '\\' ==> json::escaped(seq![c]) == seq!['\\', '\\'],
        c as u32 == 8 ==> json::escaped(seq![c]) == seq!['\\', 'b'],
        c as u32 == 9 ==> json::escaped(seq![c]) == seq!['\\', 't'],
        c as u32 == 10 ==> json::escaped(seq![c]) == seq!['\\', 'n'],
        c as u32 == 12 ==> json::escaped(seq![c]) == seq!['\\', 'f'],
        c as u32 == 13 ==> json::escaped(seq![c]) == seq!['\\', 'r'],
        32 > c as u32 && c as u32 != 8 && c as u32 != 9 && c as u32 != 10 && c as u32 != 12
            && c as u32 != 13 ==> json::escaped(seq![c]) == seq![
            '\\',
            'u',
            '0',
            '0',
            if c as u32 >= 16 {
                '1'
            } else {
                '0'
            },
            "0123456789abcdef"@[(c as u32 % 16) as int],
        ],
        c as u32 >= 32 && c != '"' && c != '\\' ==> json::escaped(seq![c]) == seq![c],
        json::escaped(a + b) == json::escaped(a) + json::escaped(b),
        json::quoted(a) == seq!['"'] + json::escaped(a) + seq!['"'],
    decreases b.len(),
{
    let one = seq![c];
    assert(one.drop_last() =~= Seq::<char>::empty());
    assert(one.last() == c);
    assert(json::escaped(Seq::<char>::empty()) =~= Seq::<char>::empty());
    assert(json::escaped(one) =~= json::escaped_char(c));
    if 32 > c as u32 {
        reveal_strlit("0123456789abcdef");
        let low = "0123456789abcdef"@;
        assert(low[0] == '0' && low[1] == '1' && low[2] == '2' && low[3] == '3' && low[4] == '4'
            && low[5] == '5' && low[6] == '6' && low[7] == '7' && low[8] == '8' && low[9] == '9'
            && low[10] == 'a' && low[11] == 'b' && low[12] == 'c' && low[13] == 'd' && low[14]
            == 'e' && low[15] == 'f');
        assert(json::hex_char((c as u32 % 16) as nat) == low[(c as u32 % 16) as int]);
    }
    if b.len() == 0 {
        assert(a + b =~= a);
        assert(json::escaped(a) + json::escaped(b) =~= json::escaped(a));
    } else {
        law_characters_are_written(c, a, b.drop_last());
        assert((a + b).drop_last() =~= a + b.drop_last());
        assert((a + b).last() == b.last());
        assert(json::escaped(a + b) =~= json::escaped(a) + json::escaped(b));
    }
}

} // verus!
