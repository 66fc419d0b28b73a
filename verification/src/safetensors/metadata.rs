//! Metadata of a checkpoint, gathered from its shards.

use crate::ordered;
use crate::ordered::StringMap;
use crate::safetensors::access;
use crate::safetensors::access::parse_string_array;
use crate::safetensors::json;
use crate::safetensors::json_laws;
use crate::text;
use vstd::prelude::*;

verus! {

/// Reserved index metadata key for shards present on disk but not in `weight_map`.
///
/// Unreferenced shards are reported here rather than rejected. Missing referenced
/// shards fail closed with [`crate::ParserError::MissingShard`] before a manifest
/// is returned.
pub const INDEX_UNREFERENCED_SHARDS_KEY: &'static str = "index:unreferenced_shards";

/// Boundary between the shard path and the logical metadata key in `shard:*` keys. A
/// logical key may hold colons, so that a colon would not do.
pub const SHARD_METADATA_KEY_SEP: char = '\u{1e}';

// ---------------------------------------------------------------------------
// Keys
// ---------------------------------------------------------------------------
/// What follows the first `c`.
pub open spec fn after_first(s: Seq<char>, c: char) -> Option<Seq<char>>
    decreases s.len(),
{
    if s.len() == 0 {
        None
    } else if s[0] == c {
        Some(s.skip(1))
    } else {
        after_first(s.skip(1), c)
    }
}

/// What follows the last `c`.
pub open spec fn after_last(s: Seq<char>, c: char) -> Option<Seq<char>>
    decreases s.len(),
{
    if s.len() == 0 {
        None
    } else if s.last() == c {
        Some(Seq::empty())
    } else {
        match after_last(s.drop_last(), c) {
            Some(t) => Some(t.push(s.last())),
            None => None,
        }
    }
}

/// The key under which a shard's value is kept apart from those of other shards.
pub open spec fn shard_key(shard: Seq<char>, key: Seq<char>) -> Seq<char> {
    "shard:"@ + shard + seq![SHARD_METADATA_KEY_SEP] + key
}

/// The metadata key of a key that names a shard.
pub open spec fn logical_key(key: Seq<char>) -> Option<Seq<char>> {
    if text::starts_with_text(key, "shard:"@) {
        let rest = key.skip("shard:"@.len() as int);
        match after_first(rest, SHARD_METADATA_KEY_SEP) {
            Some(k) => Some(k),
            None => after_last(rest, ':'),
        }
    } else {
        None
    }
}

/// Some shard has a value of its own for `key`.
pub open spec fn has_shard_key(m: Map<Seq<char>, Seq<char>>, key: Seq<char>) -> bool {
    exists|k: Seq<char>| #[trigger] m.contains_key(k) && logical_key(k) == Some(key)
}

fn find_first(chars: &Vec<char>, from: usize, c: char) -> (r: Option<usize>)
    requires
        from <= chars@.len(),
    ensures
        match r {
            Some(i) => from <= i < chars@.len() && after_first(chars@.skip(from as int), c) == Some(
                chars@.skip(i + 1),
            ),
            None => after_first(chars@.skip(from as int), c) is None,
        },
{
    let mut i: usize = from;
    while i < chars.len()
        invariant
            from <= i <= chars@.len(),
            after_first(chars@.skip(from as int), c) == after_first(chars@.skip(i as int), c),
        decreases chars@.len() - i,
    {
        assert(chars@.skip(i as int).skip(1) =~= chars@.skip(i + 1));
        if chars[i] == c {
            return Some(i);
        }
        i += 1;
    }
    None
}

proof fn lemma_after_last_tail(s: Seq<char>, i: int, c: char)
    requires
        0 <= i <= s.len(),
        forall|k: int| i <= k < s.len() ==> s[k] != c,
        i > 0 ==> s[i - 1] == c,
    ensures
        after_last(s, c) == (if i > 0 {
            Some(s.skip(i))
        } else {
            None
        }),
    decreases s.len(),
{
    if s.len() > 0 {
        if i < s.len() {
            lemma_after_last_tail(s.drop_last(), i, c);
            assert(s.drop_last().skip(i).push(s.last()) =~= s.skip(i));
        } else {
            assert(s.skip(i) =~= Seq::<char>::empty());
        }
    }
}

fn find_last(chars: &Vec<char>, from: usize, c: char) -> (r: Option<usize>)
    requires
        from <= chars@.len(),
    ensures
        match r {
            Some(i) => from <= i < chars@.len() && after_last(chars@.skip(from as int), c) == Some(
                chars@.skip(i + 1),
            ),
            None => after_last(chars@.skip(from as int), c) is None,
        },
{
    let ghost rest = chars@.skip(from as int);
    let mut i: usize = chars.len();
    while i > from
        invariant
            from <= i <= chars@.len(),
            rest == chars@.skip(from as int),
            forall|k: int| i - from <= k < rest.len() ==> rest[k] != c,
        decreases i,
    {
        if chars[i - 1] == c {
            proof {
                lemma_after_last_tail(rest, i - from, c);
                assert(rest.skip(i - from) =~= chars@.skip(i as int));
            }
            return Some(i - 1);
        }
        i -= 1;
    }
    proof {
        lemma_after_last_tail(rest, 0, c);
    }
    None
}

/// The key under which a shard's value is kept apart from those of other shards.
pub fn shard_metadata_namespaced_key(shard_path: &str, key: &str) -> (r: String)
    ensures
        r@ == shard_key(shard_path@, key@),
{
    proof {
        reveal_strlit("\u{1e}");
        assert("\u{1e}"@ =~= seq![SHARD_METADATA_KEY_SEP]);
    }
    text::concat4("shard:", shard_path, "\u{1e}", key)
}

/// The metadata key of a key that names a shard.
pub fn namespaced_shard_metadata_logical_key(namespaced: &str) -> (r: Option<String>)
    ensures
        match r {
            Some(k) => logical_key(namespaced@) == Some(k@),
            None => logical_key(namespaced@) is None,
        },
{
    proof {
        reveal_strlit("shard:");
    }
    let chars = text::chars_of(namespaced);
    if !text::occurs(chars.as_slice(), 0, "shard:") {
        return None;
    }
    let end: usize = chars.len();
    match find_first(&chars, 6, SHARD_METADATA_KEY_SEP) {
        Some(i) => Some(text::string_of_range(chars.as_slice(), i + 1, end)),
        None => match find_last(&chars, 6, ':') {
            Some(i) => Some(text::string_of_range(chars.as_slice(), i + 1, end)),
            None => None,
        },
    }
}

/// Some shard has a value of its own for `key`.
pub fn has_shard_metadata_key(metadata: &StringMap<String>, key: &str) -> (r: bool)
    ensures
        r == has_shard_key(ordered::value_views(metadata@), key@),
{
    let ghost m = ordered::value_views(metadata@);
    let keys = metadata.keys();
    let mut i: usize = 0;
    while i < keys.len()
        invariant
            i <= keys@.len(),
            m == ordered::value_views(metadata@),
            forall|k: Seq<char>| #[trigger]
                text::views(keys@).contains(k) <==> metadata@.contains_key(k),
            forall|j: int| 0 <= j < i ==> logical_key(#[trigger] text::views(keys@)[j]) != Some(key@),
        decreases keys@.len() - i,
    {
        assert(text::views(keys@)[i as int] == keys@[i as int]@);
        match namespaced_shard_metadata_logical_key(keys[i].as_str()) {
            Some(k) => {
                if text::equal(k.as_str(), key) {
                    assert(text::views(keys@).contains(keys@[i as int]@));
                    assert(m.contains_key(keys@[i as int]@));
                    return true;
                }
            },
            None => {},
        }
        i += 1;
    }
    assert forall|k: Seq<char>| #[trigger] m.contains_key(k) implies logical_key(k) != Some(
        key@,
    ) by {
        assert(text::views(keys@).contains(k));
        let j = text::views(keys@).index_of(k);
        assert(text::views(keys@)[j] == k);
    }
    false
}

// ---------------------------------------------------------------------------
// Merging
// ---------------------------------------------------------------------------
/// The metadata with one value of a shard.
///
/// The value is always kept under the shard's own key. Under the plain key it stands as
/// long as no other shard says otherwise.
pub open spec fn with_shard_value(
    m: Map<Seq<char>, Seq<char>>,
    shard: Seq<char>,
    key: Seq<char>,
    value: Seq<char>,
) -> Map<Seq<char>, Seq<char>> {
    let base = if !m.contains_key(key) {
        if has_shard_key(m, key) {
            m
        } else {
            m.insert(key, value)
        }
    } else if m[key] == value {
        m
    } else {
        m.remove(key)
    };
    base.insert(shard_key(shard, key), value)
}

/// The metadata with the values of a shard under the first `n` of `keys`.
pub open spec fn with_shard_values(
    m: Map<Seq<char>, Seq<char>>,
    shard: Seq<char>,
    table: Map<Seq<char>, Seq<char>>,
    keys: Seq<Seq<char>>,
    n: nat,
) -> Map<Seq<char>, Seq<char>>
    decreases n,
{
    if n == 0 || n > keys.len() {
        m
    } else {
        with_shard_value(
            with_shard_values(m, shard, table, keys, (n - 1) as nat),
            shard,
            keys[n - 1],
            table[keys[n - 1]],
        )
    }
}

/// The metadata with all values of a shard, taken in the order of their keys.
pub open spec fn with_shard(
    m: Map<Seq<char>, Seq<char>>,
    shard: Seq<char>,
    table: Map<Seq<char>, Seq<char>>,
) -> Map<Seq<char>, Seq<char>> {
    let keys = ordered::sorted_keys(table);
    with_shard_values(m, shard, table, keys, keys.len())
}

fn merge_shard_value(metadata: &mut StringMap<String>, shard_path: &str, key: &String, value: &String)
    ensures
        ordered::value_views(final(metadata)@) == with_shard_value(
            ordered::value_views(old(metadata)@),
            shard_path@,
            key@,
            value@,
        ),
{
    let ghost m = ordered::value_views(metadata@);
    let namespaced = shard_metadata_namespaced_key(shard_path, key.as_str());
    let (absent, agrees): (bool, bool) = match metadata.get(key.as_str()) {
        None => (true, false),
        Some(existing) => (false, text::equal(existing.as_str(), value.as_str())),
    };
    if absent {
        if !has_shard_metadata_key(metadata, key.as_str()) {
            let copy = value.clone();
            proof {
                ordered::lemma_value_views_insert(metadata@, key@, copy);
            }
            metadata.insert(key.clone(), copy);
        }
    } else if !agrees {
        let ghost before = metadata@;
        metadata.remove(key.as_str());
        assert(ordered::value_views(before.remove(key@)) =~= m.remove(key@));
    }
    let copy = value.clone();
    proof {
        ordered::lemma_value_views_insert(metadata@, namespaced@, copy);
    }
    metadata.insert(namespaced, copy);
}

/// Take over the metadata of a shard.
pub fn merge_shard_metadata(
    metadata: &mut StringMap<String>,
    shard_path: &str,
    shard_metadata: &StringMap<String>,
)
    ensures
        ordered::value_views(final(metadata)@) == with_shard(
            ordered::value_views(old(metadata)@),
            shard_path@,
            ordered::value_views(shard_metadata@),
        ),
{
    let ghost m = ordered::value_views(metadata@);
    let ghost table = ordered::value_views(shard_metadata@);
    let keys = shard_metadata.keys();
    let ghost all = text::views(keys@);
    proof {
        assert forall|k: Seq<char>|
            #![trigger all.contains(k)]
            #![trigger table.contains_key(k)]
            all.contains(k) <==> table.contains_key(k) by {
            assert(all.contains(k) <==> shard_metadata@.contains_key(k));
        }
        ordered::lemma_sorted_keys(all, table);
    }
    let mut i: usize = 0;
    while i < keys.len()
        invariant
            i <= keys@.len(),
            all == text::views(keys@),
            table == ordered::value_views(shard_metadata@),
            forall|k: Seq<char>| #[trigger] all.contains(k) <==> shard_metadata@.contains_key(k),
            ordered::value_views(metadata@) == with_shard_values(
                m,
                shard_path@,
                table,
                all,
                i as nat,
            ),
        decreases keys@.len() - i,
    {
        assert(all[i as int] == keys@[i as int]@);
        assert(all.contains(all[i as int]));
        match shard_metadata.get(keys[i].as_str()) {
            Some(value) => {
                assert(table[all[i as int]] == value@);
                merge_shard_value(metadata, shard_path, &keys[i], value);
            },
            None => {
                assert(false);
            },
        }
        i += 1;
    }
}

// ---------------------------------------------------------------------------
// Unreferenced shards
// ---------------------------------------------------------------------------
/// The shards that the metadata lists as unreferenced: an array of strings, or names
/// with commas between them.
pub open spec fn unreferenced(encoded: Seq<char>) -> Seq<Seq<char>> {
    match access::string_array(encoded) {
        Some(names) => names,
        None => text::pieces(encoded, seq![',']),
    }
}

/// The shards that the metadata lists as unreferenced.
pub fn parse_unreferenced_shards_metadata(encoded: &str) -> (r: Vec<String>)
    ensures
        text::views(r@) == unreferenced(encoded@),
{
    if let Some(names) = parse_string_array(encoded) {
        return names;
    }
    let chars = text::chars_of(encoded);
    let comma: Vec<char> = vec![','];
    assert(comma@ =~= seq![',']);
    let parts = text::split(chars.as_slice(), comma.as_slice());
    let ghost all = text::pieces(encoded@, seq![',']);
    let mut r: Vec<String> = Vec::new();
    let mut i: usize = 0;
    while i < parts.len()
        invariant
            i <= parts@.len(),
            text::piece_views(parts@) == all,
            text::views(r@) =~= all.take(i as int),
        decreases parts@.len() - i,
    {
        let ghost before = text::views(r@);
        let s = text::string_of(parts[i].as_slice());
        assert(all[i as int] == parts@[i as int]@);
        r.push(s);
        assert(text::views(r@) =~= before.push(s@));
        i += 1;
    }
    assert(text::views(r@) =~= all);
    r
}

// ---------------------------------------------------------------------------
// Laws
// ---------------------------------------------------------------------------
/// The key is not of the form under which a shard keeps its own values.
pub open spec fn is_plain(key: Seq<char>) -> bool {
    !text::starts_with_text(key, "shard:"@)
}

/// What the metadata says of a key once a shard that has it was taken over.
pub open spec fn settled(m: Map<Seq<char>, Seq<char>>, key: Seq<char>, value: Seq<char>) -> Option<
    Seq<char>,
> {
    if m.contains_key(key) {
        if m[key] == value {
            Some(value)
        } else {
            None
        }
    } else if has_shard_key(m, key) {
        None
    } else {
        Some(value)
    }
}

/// What the metadata says of a key.
pub open spec fn said(m: Map<Seq<char>, Seq<char>>, key: Seq<char>) -> Option<Seq<char>> {
    if m.contains_key(key) {
        Some(m[key])
    } else {
        None
    }
}

proof fn lemma_after_first(a: Seq<char>, c: char, b: Seq<char>)
    requires
        !a.contains(c),
    ensures
        after_first(a + seq![c] + b, c) == Some(b),
    decreases a.len(),
{
    let s = a + seq![c] + b;
    if a.len() == 0 {
        assert(s.skip(1) =~= b);
    } else {
        assert(a.contains(a[0]));
        let rest = a.skip(1);
        assert(!rest.contains(c)) by {
            if rest.contains(c) {
                let i = rest.index_of(c);
                assert(a[i + 1] == c);
            }
        }
        lemma_after_first(rest, c, b);
        assert(s.skip(1) =~= rest + seq![c] + b);
    }
}

/// A shard's key gives the metadata key back, whatever characters that holds.
pub proof fn law_shard_key_is_read_back(shard: Seq<char>, key: Seq<char>)
    requires
        !shard.contains(SHARD_METADATA_KEY_SEP),
    ensures
        logical_key(shard_key(shard, key)) == Some(key),
        !is_plain(shard_key(shard, key)),
{
    let prefix = "shard:"@;
    let k = shard_key(shard, key);
    assert(k.subrange(0, prefix.len() as int) =~= prefix);
    assert(text::starts_with_text(k, prefix));
    assert(k.skip(prefix.len() as int) =~= shard + seq![SHARD_METADATA_KEY_SEP] + key);
    lemma_after_first(shard, SHARD_METADATA_KEY_SEP, key);
}

proof fn lemma_value_of_other_key(
    m: Map<Seq<char>, Seq<char>>,
    shard: Seq<char>,
    key: Seq<char>,
    value: Seq<char>,
    other: Seq<char>,
)
    requires
        !shard.contains(SHARD_METADATA_KEY_SEP),
        is_plain(key),
        is_plain(other),
        key != other,
    ensures
        said(with_shard_value(m, shard, key, value), other) == said(m, other),
        has_shard_key(with_shard_value(m, shard, key, value), other) == has_shard_key(m, other),
{
    law_shard_key_is_read_back(shard, key);
    let after = with_shard_value(m, shard, key, value);
    if has_shard_key(m, other) {
        let k = choose|k: Seq<char>| #[trigger] m.contains_key(k) && logical_key(k) == Some(other);
        assert(after.contains_key(k));
    }
    if has_shard_key(after, other) {
        let k = choose|k: Seq<char>|
            #[trigger] after.contains_key(k) && logical_key(k) == Some(other);
        assert(m.contains_key(k));
    }
}

proof fn lemma_values_settle(
    m: Map<Seq<char>, Seq<char>>,
    shard: Seq<char>,
    table: Map<Seq<char>, Seq<char>>,
    keys: Seq<Seq<char>>,
    n: nat,
)
    requires
        !shard.contains(SHARD_METADATA_KEY_SEP),
        n <= keys.len(),
        text::increasing(keys),
        forall|i: int| 0 <= i < keys.len() ==> is_plain(#[trigger] keys[i]),
    ensures
        ({
            let after = with_shard_values(m, shard, table, keys, n);
            &&& forall|i: int|
                0 <= i < n ==> {
                    &&& said(after, #[trigger] keys[i]) == settled(m, keys[i], table[keys[i]])
                    &&& said(after, shard_key(shard, keys[i])) == Some(table[keys[i]])
                    &&& has_shard_key(after, keys[i])
                }
            &&& forall|k: Seq<char>|
                is_plain(k) && !(exists|i: int| 0 <= i < n && #[trigger] keys[i] == k) ==> {
                    &&& #[trigger] said(after, k) == said(m, k)
                    &&& has_shard_key(after, k) == has_shard_key(m, k)
                }
        }),
    decreases n,
{
    if n > 0 {
        text::lemma_less_total_order();
        let before = with_shard_values(m, shard, table, keys, (n - 1) as nat);
        let after = with_shard_values(m, shard, table, keys, n);
        let key = keys[n - 1];
        let value = table[key];
        lemma_values_settle(m, shard, table, keys, (n - 1) as nat);
        law_shard_key_is_read_back(shard, key);
        assert(forall|i: int| 0 <= i < n - 1 ==> #[trigger] keys[i] != key);
        assert(said(before, key) == said(m, key));
        assert(after.contains_key(shard_key(shard, key)));
        assert forall|i: int| 0 <= i < n implies {
            &&& said(after, #[trigger] keys[i]) == settled(m, keys[i], table[keys[i]])
            &&& said(after, shard_key(shard, keys[i])) == Some(table[keys[i]])
            &&& has_shard_key(after, keys[i])
        } by {
            law_shard_key_is_read_back(shard, keys[i]);
            if i < n - 1 {
                lemma_value_of_other_key(before, shard, key, value, keys[i]);
                assert(logical_key(shard_key(shard, keys[i])) != logical_key(
                    shard_key(shard, key),
                ));
            }
        }
        assert forall|k: Seq<char>|
            is_plain(k) && !(exists|i: int| 0 <= i < n && #[trigger] keys[i] == k) implies {
            &&& #[trigger] said(after, k) == said(m, k)
            &&& has_shard_key(after, k) == has_shard_key(m, k)
        } by {
            assert(keys[n - 1] == key);
            lemma_value_of_other_key(before, shard, key, value, k);
            assert(said(before, k) == said(m, k));
        }
    }
}

/// Taking over a shard settles each of its keys: the shard's own key has its value; the
/// plain key keeps a value that the shard agrees with, loses one that it does not, and
/// gets the shard's value only where no shard has had the key. Other plain keys stay.
///
/// The separator must not occur in the shard's path, nor the form of shard keys among
/// the shard's own metadata keys.
pub proof fn law_shard_settles_its_keys(
    m: Map<Seq<char>, Seq<char>>,
    shard: Seq<char>,
    table: Map<Seq<char>, Seq<char>>,
    key: Seq<char>,
)
    requires
        table.dom().finite(),
        !shard.contains(SHARD_METADATA_KEY_SEP),
        forall|k: Seq<char>| #[trigger] table.contains_key(k) ==> is_plain(k),
        is_plain(key),
    ensures
        table.contains_key(key) ==> {
            &&& said(with_shard(m, shard, table), key) == settled(m, key, table[key])
            &&& said(with_shard(m, shard, table), shard_key(shard, key)) == Some(table[key])
            &&& has_shard_key(with_shard(m, shard, table), key)
        },
        !table.contains_key(key) ==> {
            &&& said(with_shard(m, shard, table), key) == said(m, key)
            &&& has_shard_key(with_shard(m, shard, table), key) == has_shard_key(m, key)
        },
{
    let keys = ordered::sorted_keys(table);
    ordered::lemma_sorted_keys_exist(table);
    assert forall|i: int| 0 <= i < keys.len() implies is_plain(#[trigger] keys[i]) by {
        assert(keys.contains(keys[i]));
    }
    lemma_values_settle(m, shard, table, keys, keys.len());
    if table.contains_key(key) {
        assert(keys.contains(key));
        let i = keys.index_of(key);
        assert(keys[i] == key);
    } else {
        assert(forall|i: int| 0 <= i < keys.len() ==> keys.contains(#[trigger] keys[i]));
        assert(!keys.contains(key));
        assert(said(with_shard(m, shard, table), key) == said(m, key));
    }
}

/// A shard's key tells both the shard and the metadata key.
pub proof fn lemma_shard_key_is_unambiguous(
    shard: Seq<char>,
    key: Seq<char>,
    other_shard: Seq<char>,
    other_key: Seq<char>,
)
    requires
        !shard.contains(SHARD_METADATA_KEY_SEP),
        !other_shard.contains(SHARD_METADATA_KEY_SEP),
        shard_key(shard, key) == shard_key(other_shard, other_key),
    ensures
        shard == other_shard,
        key == other_key,
{
    law_shard_key_is_read_back(shard, key);
    law_shard_key_is_read_back(other_shard, other_key);
    let k = shard_key(shard, key);
    let n = "shard:"@.len() as int;
    assert(k.len() == n + shard.len() + 1 + key.len());
    assert(k.len() == n + other_shard.len() + 1 + other_key.len());
    assert(k.subrange(n, n + shard.len()) =~= shard);
    assert(k.subrange(n, n + shard.len()) =~= other_shard);
}

proof fn lemma_values_keep_other_shards(
    m: Map<Seq<char>, Seq<char>>,
    shard: Seq<char>,
    table: Map<Seq<char>, Seq<char>>,
    keys: Seq<Seq<char>>,
    n: nat,
    other: Seq<char>,
)
    requires
        n <= keys.len(),
        forall|i: int| 0 <= i < keys.len() ==> is_plain(#[trigger] keys[i]),
        !is_plain(other),
        forall|i: int| 0 <= i < keys.len() ==> shard_key(shard, #[trigger] keys[i]) != other,
    ensures
        said(with_shard_values(m, shard, table, keys, n), other) == said(m, other),
    decreases n,
{
    if n > 0 {
        lemma_values_keep_other_shards(m, shard, table, keys, (n - 1) as nat, other);
        assert(is_plain(keys[n - 1]));
    }
}

/// Taking over a shard leaves the keys of other shards as they are.
pub proof fn lemma_shard_keeps_other_shards(
    m: Map<Seq<char>, Seq<char>>,
    shard: Seq<char>,
    table: Map<Seq<char>, Seq<char>>,
    other: Seq<char>,
)
    requires
        table.dom().finite(),
        forall|k: Seq<char>| #[trigger] table.contains_key(k) ==> is_plain(k),
        !is_plain(other),
        forall|k: Seq<char>| #[trigger] table.contains_key(k) ==> shard_key(shard, k) != other,
    ensures
        said(with_shard(m, shard, table), other) == said(m, other),
{
    let keys = ordered::sorted_keys(table);
    ordered::lemma_sorted_keys_exist(table);
    assert forall|i: int| 0 <= i < keys.len() implies table.contains_key(#[trigger] keys[i]) by {
        assert(keys.contains(keys[i]));
    }
    lemma_values_keep_other_shards(m, shard, table, keys, keys.len(), other);
}

/// A key that shards disagree on is not restored by a further shard, whatever that shard
/// says of it.
pub proof fn law_conflicting_key_is_not_restored(
    m: Map<Seq<char>, Seq<char>>,
    shard: Seq<char>,
    table: Map<Seq<char>, Seq<char>>,
    key: Seq<char>,
)
    requires
        table.dom().finite(),
        !shard.contains(SHARD_METADATA_KEY_SEP),
        forall|k: Seq<char>| #[trigger] table.contains_key(k) ==> is_plain(k),
        is_plain(key),
        !m.contains_key(key),
        has_shard_key(m, key),
    ensures
        !with_shard(m, shard, table).contains_key(key),
        has_shard_key(with_shard(m, shard, table), key),
{
    law_shard_settles_its_keys(m, shard, table, key);
}

/// The list of unreferenced shards is read back as it was written.
pub proof fn law_unreferenced_shards_are_read_back(names: Seq<Seq<char>>)
    ensures
        unreferenced(json::compact(json::text_array(names))) == names,
{
    let j = json::text_array(names);
    reveal_with_fuel(json_laws::canonical, 2);
    json_laws::law_compact_is_read_back(j, "<metadata>"@);
    assert(access::string_items(j->Array_0)->Some_0 =~= names);
}

proof fn lemma_after_first_absent(s: Seq<char>, c: char)
    requires
        !s.contains(c),
    ensures
        after_first(s, c) is None,
    decreases s.len(),
{
    if s.len() > 0 {
        assert(s.contains(s[0]));
        let rest = s.skip(1);
        assert(!rest.contains(c)) by {
            if rest.contains(c) {
                let i = rest.index_of(c);
                assert(s[i + 1] == c);
            }
        }
        lemma_after_first_absent(rest, c);
    }
}

/// A shard's key has the record separator, the character 30, between the shard and the
/// metadata key. In a key without that character the last colon stands between them. Keys
/// that do not begin with `shard:` name no shard.
pub proof fn law_shard_keys_have_two_spellings(shard: Seq<char>, key: Seq<char>, other: Seq<char>)
    ensures
        shard_key(shard, key) == "shard:"@ + shard + seq!['\u{1e}'] + key,
        !shard.contains('\u{1e}') && !key.contains('\u{1e}') && !key.contains(':') ==> logical_key(
            "shard:"@ + shard + ":"@ + key,
        ) == Some(key),
        !other.contains(':') && !other.contains('\u{1e}') ==> logical_key("shard:"@ + other) is None,
        !"shard:"@.is_prefix_of(other) ==> logical_key(other) is None,
{
    let prefix = "shard:"@;
    let n = prefix.len() as int;
    reveal_strlit(":");
    let colon = ":"@;
    assert(colon =~= seq![':']);
    if !shard.contains('\u{1e}') && !key.contains('\u{1e}') && !key.contains(':') {
        let k = prefix + shard + colon + key;
        let rest = shard + colon + key;
        assert(k.subrange(0, n) =~= prefix);
        assert(text::starts_with_text(k, prefix));
        assert(k.skip(n) =~= rest);
        assert(!rest.contains('\u{1e}')) by {
            if rest.contains('\u{1e}') {
                let i = rest.index_of('\u{1e}');
                if i < shard.len() {
                    assert(shard[i] == '\u{1e}');
                } else if i > shard.len() {
                    assert(key[i - shard.len() - 1] == '\u{1e}');
                }
            }
        }
        lemma_after_first_absent(rest, '\u{1e}');
        let at = shard.len() + 1;
        assert forall|i: int| at <= i < rest.len() implies rest[i] != ':' by {
            assert(rest[i] == key[i - at]);
            assert(key.contains(key[i - at]));
        }
        lemma_after_last_tail(rest, at as int, ':');
        assert(rest.skip(at as int) =~= key);
    }
    if !other.contains(':') && !other.contains('\u{1e}') {
        let k = prefix + other;
        assert(k.skip(n) =~= other);
        lemma_after_first_absent(other, '\u{1e}');
        assert forall|i: int| 0 <= i < other.len() implies other[i] != ':' by {
            assert(other.contains(other[i]));
        }
        lemma_after_last_tail(other, 0, ':');
    }
    if text::starts_with_text(other, prefix) {
        assert(other.subrange(0, n) =~= prefix);
        assert(prefix.is_prefix_of(other));
    }
}

/// A list that is no JSON array of strings is taken apart at its commas.
pub proof fn law_names_between_commas_are_read(names: Seq<Seq<char>>)
    requires
        forall|i: int|
            0 <= i < names.len() ==> (#[trigger] names[i]).len() > 0 && !names[i].contains(','),
        access::string_array(text::joined(names, seq![','])) is None,
    ensures
        unreferenced(text::joined(names, seq![','])) == names,
{
    let comma = seq![','];
    assert(comma[0] == ',');
    assert forall|i: int| 0 <= i < names.len() implies (#[trigger] names[i]).len() > 0
        && text::unbroken(names[i], comma) by {
        assert forall|k: int| 0 <= k < names[i].len() implies !comma.contains(
            #[trigger] names[i][k],
        ) by {
            assert(names[i].contains(names[i][k]));
        }
    }
    text::law_joined_words_come_apart(names, comma, ',');
}

} // verus!
