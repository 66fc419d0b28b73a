//! Laws of Safetensors manifests.

use crate::error::ErrorView;
use crate::safetensors::discovery_laws;
use crate::safetensors::index;
use crate::safetensors::index::IndexedView;
use crate::safetensors::manifest;
use crate::safetensors::manifest::{ManifestView, ShardView};
use crate::safetensors::metadata;
use crate::safetensors::metadata::SHARD_METADATA_KEY_SEP;
use crate::safetensors::ownership;
use crate::safetensors::ownership::ClaimView;
use crate::safetensors::record::RecordView;
use crate::sorting;
use crate::text;
use vstd::prelude::*;

verus! {

proof fn lemma_refusal_is_determined(
    a: ErrorView,
    b: ErrorView,
    claims: Seq<ClaimView>,
    path: Seq<char>,
)
    requires
        ownership::refuses_contested(a, claims, path),
        ownership::refuses_contested(b, claims, path),
    ensures
        a == b,
{
    let (n1, s1) = choose|name: Seq<char>, shards: Seq<Seq<char>>|
        {
            &&& #[trigger] ownership::contested(claims, name)
            &&& forall|other: Seq<char>|
                text::less(other, name) ==> !#[trigger] ownership::contested(claims, other)
            &&& text::lists(shards, ownership::holders(claims, name))
            &&& a == #[trigger] ownership::duplicate_error(name, shards, path)
        };
    let (n2, s2) = choose|name: Seq<char>, shards: Seq<Seq<char>>|
        {
            &&& #[trigger] ownership::contested(claims, name)
            &&& forall|other: Seq<char>|
                text::less(other, name) ==> !#[trigger] ownership::contested(claims, other)
            &&& text::lists(shards, ownership::holders(claims, name))
            &&& b == #[trigger] ownership::duplicate_error(name, shards, path)
        };
    text::lemma_less_total_order();
    assert(!text::less(n1, n2));
    assert(!text::less(n2, n1));
    assert(n1 == n2);
    let source = ownership::holders(claims, n1);
    assert forall|k: Seq<char>|
        #![trigger s1.contains(k)]
        #![trigger s2.contains(k)]
        s1.contains(k) <==> s2.contains(k) by {
        assert(s1.contains(k) <==> source.contains(k));
        assert(s2.contains(k) <==> source.contains(k));
    }
    text::lemma_increasing_unique(s1, s2);
}

/// Manifests are deterministic: what is gathered from the shards decides everything in
/// the manifest, and the refusal where there is one.
pub proof fn law_manifest_is_determined(
    a: Result<ManifestView, ErrorView>,
    b: Result<ManifestView, ErrorView>,
    input_kind: Seq<char>,
    index_file: Option<Seq<char>>,
    shard_count: nat,
    metadata: Map<Seq<char>, Seq<char>>,
    tensors: Seq<RecordView>,
    path: Seq<char>,
)
    requires
        manifest::builds(a, input_kind, index_file, shard_count, metadata, tensors, path),
        manifest::builds(b, input_kind, index_file, shard_count, metadata, tensors, path),
    ensures
        a == b,
{
    let claims = manifest::record_claims(tensors);
    match (a, b) {
        (Ok(m), Ok(n)) => {
            discovery_laws::law_summary_is_determined(m.candidates, n.candidates, m.tensors);
            assert(m.checkpoint == n.checkpoint);
            assert(m == n);
        },
        (Err(e), Err(f)) => {
            lemma_refusal_is_determined(e, f, claims, path);
        },
        (Ok(_), Err(f)) => {
            let name = choose|name: Seq<char>| #[trigger] ownership::contested(claims, name);
            assert(!ownership::contested(claims, name));
        },
        (Err(e), Ok(_)) => {
            let name = choose|name: Seq<char>| #[trigger] ownership::contested(claims, name);
            assert(!ownership::contested(claims, name));
        },
    }
}

/// Sorting keeps the tensors: a record is in the list exactly if it was in it before.
pub proof fn law_sorting_keeps_the_tensors(tensors: Seq<RecordView>, t: RecordView)
    ensures
        manifest::by_name(tensors).contains(t) <==> tensors.contains(t),
        manifest::by_name(tensors).len() == tensors.len(),
{
    let keys = manifest::record_keys(tensors);
    let order = sorting::stable_order(keys);
    sorting::lemma_stable_order_exists(keys);
    sorting::law_stable_order_is_permutation(keys, order);
    let sorted = manifest::by_name(tensors);
    if sorted.contains(t) {
        let i = sorted.index_of(t);
        assert(0 <= order[i] < tensors.len());
        assert(tensors[order[i]] == t);
    }
    if tensors.contains(t) {
        let p = tensors.index_of(t);
        assert(order.contains(p));
        let i = order.index_of(p);
        assert(sorted[i] == t);
    }
}

/// The tensors of a manifest are in the order of their names, and those of one name all
/// belong to one shard.
pub proof fn law_manifest_tensors_are_sorted_and_owned(
    m: ManifestView,
    input_kind: Seq<char>,
    index_file: Option<Seq<char>>,
    shard_count: nat,
    metadata: Map<Seq<char>, Seq<char>>,
    tensors: Seq<RecordView>,
    path: Seq<char>,
    i: int,
    j: int,
)
    requires
        manifest::builds(
            Ok::<ManifestView, ErrorView>(m),
            input_kind,
            index_file,
            shard_count,
            metadata,
            tensors,
            path,
        ),
        0 <= i < j < m.tensors.len(),
    ensures
        text::less(m.tensors[i].name, m.tensors[j].name) || (m.tensors[i].name
            == m.tensors[j].name && m.tensors[i].source_shard == m.tensors[j].source_shard),
{
    let keys = manifest::record_keys(tensors);
    let order = sorting::stable_order(keys);
    sorting::lemma_stable_order_exists(keys);
    let a = m.tensors[i];
    let b = m.tensors[j];
    assert(sorting::before(keys, order[i], order[j]));
    assert(0 <= order[i] < tensors.len() && 0 <= order[j] < tensors.len());
    if a.name == b.name && a.source_shard != b.source_shard {
        let claims = manifest::record_claims(tensors);
        let x = ClaimView { name: a.name, shard: a.source_shard };
        let y = ClaimView { name: a.name, shard: b.source_shard };
        assert(claims[order[i]] == x);
        assert(claims[order[j]] == y);
        assert(claims.contains(x) && claims.contains(y));
        assert(ownership::holds(claims, a.name, a.source_shard));
        assert(ownership::holds(claims, a.name, b.source_shard));
        assert(ownership::contested(claims, a.name));
    }
}

proof fn lemma_gathered(shards: Seq<ShardView>, t: RecordView)
    ensures
        manifest::gathered_tensors(shards).contains(t) <==> exists|i: int|
            0 <= i < shards.len() && (#[trigger] shards[i]).inspection.tensors.contains(t),
    decreases shards.len(),
{
    let all = manifest::gathered_tensors(shards);
    if shards.len() > 0 {
        let rest = shards.drop_last();
        let before = manifest::gathered_tensors(rest);
        let last = shards.last().inspection.tensors;
        lemma_gathered(rest, t);
        if all.contains(t) {
            let k = all.index_of(t);
            if k < before.len() {
                assert(before[k] == t);
                assert(before.contains(t));
                let i = choose|i: int|
                    0 <= i < rest.len() && (#[trigger] rest[i]).inspection.tensors.contains(t);
                assert(shards[i] == rest[i]);
            } else {
                assert(last[k - before.len()] == t);
                assert(shards[shards.len() - 1].inspection.tensors.contains(t));
            }
        }
        if exists|i: int|
            0 <= i < shards.len() && (#[trigger] shards[i]).inspection.tensors.contains(t) {
            let i = choose|i: int|
                0 <= i < shards.len() && (#[trigger] shards[i]).inspection.tensors.contains(t);
            if i < rest.len() {
                assert(rest[i] == shards[i]);
                assert(before.contains(t));
                let k = before.index_of(t);
                assert(all[k] == t);
            } else {
                let k = last.index_of(t);
                assert(all[before.len() + k] == t);
            }
        }
    }
}

proof fn lemma_named(tensors: Seq<RecordView>, names: Seq<Seq<char>>, t: RecordView)
    ensures
        index::named_tensors(tensors, names).contains(t) <==> tensors.contains(t)
            && names.contains(t.name),
    decreases tensors.len(),
{
    let all = index::named_tensors(tensors, names);
    if tensors.len() > 0 {
        let rest = tensors.drop_last();
        let before = index::named_tensors(rest, names);
        lemma_named(rest, names, t);
        if tensors.contains(t) && names.contains(t.name) {
            let k = tensors.index_of(t);
            if k < rest.len() {
                assert(rest[k] == t);
                let i = before.index_of(t);
                assert(all[i] == t);
            } else {
                assert(all.last() == t);
            }
        }
        if all.contains(t) {
            let i = all.index_of(t);
            if i < before.len() {
                assert(before[i] == t);
                let k = rest.index_of(t);
                assert(tensors[k] == t);
            } else {
                assert(tensors[tensors.len() - 1] == t);
            }
        }
    }
}

proof fn lemma_nothing_missing(names: Seq<Seq<char>>, tensors: Seq<RecordView>, i: int, k: int)
    requires
        index::first_missing(names, tensors, i) is None,
        0 <= i <= k < names.len(),
    ensures
        index::tensor_names(tensors).contains(names[k]),
    decreases names.len() - i,
{
    if i < k {
        lemma_nothing_missing(names, tensors, i + 1, k);
    }
}

proof fn lemma_nothing_short(shards: Seq<IndexedView>, i: int, k: int)
    requires
        index::first_short(shards, i) is None,
        0 <= i <= k < shards.len(),
    ensures
        index::first_missing(shards[k].expected, shards[k].inspection.tensors, 0) is None,
    decreases shards.len() - i,
{
    if i < k {
        lemma_nothing_short(shards, i + 1, k);
    }
}

/// Every tensor in the manifest of an index is one that the index maps to a shard, and
/// that the shard declares.
pub proof fn law_indexed_tensors_are_mapped(
    m: ManifestView,
    root: Seq<char>,
    index_file: Option<Seq<char>>,
    shards: Seq<IndexedView>,
    metadata: Map<Seq<char>, Seq<char>>,
    index_tensor_count: nat,
    unreferenced: Option<Seq<char>>,
    k: int,
)
    requires
        index::inspects(
            Ok::<ManifestView, ErrorView>(m),
            root,
            index_file,
            shards,
            metadata,
            index_tensor_count,
            unreferenced,
        ),
        0 <= k < m.tensors.len(),
    ensures
        exists|i: int|
            0 <= i < shards.len() && (#[trigger] shards[i]).expected.contains(m.tensors[k].name)
                && shards[i].inspection.tensors.contains(m.tensors[k]),
{
    let t = m.tensors[k];
    let mapped = index::mapped_shards(shards);
    let tensors = manifest::gathered_tensors(mapped);
    assert(m.tensors.contains(t));
    law_sorting_keeps_the_tensors(tensors, t);
    lemma_gathered(mapped, t);
    let i = choose|i: int|
        0 <= i < mapped.len() && (#[trigger] mapped[i]).inspection.tensors.contains(t);
    lemma_named(shards[i].inspection.tensors, shards[i].expected, t);
    assert(shards[i].expected.contains(t.name));
}

/// Every tensor that the index maps to a shard is in the manifest.
pub proof fn law_mapped_tensors_are_listed(
    m: ManifestView,
    root: Seq<char>,
    index_file: Option<Seq<char>>,
    shards: Seq<IndexedView>,
    metadata: Map<Seq<char>, Seq<char>>,
    index_tensor_count: nat,
    unreferenced: Option<Seq<char>>,
    i: int,
    name: Seq<char>,
)
    requires
        index::inspects(
            Ok::<ManifestView, ErrorView>(m),
            root,
            index_file,
            shards,
            metadata,
            index_tensor_count,
            unreferenced,
        ),
        0 <= i < shards.len(),
        shards[i].expected.contains(name),
    ensures
        exists|k: int| 0 <= k < m.tensors.len() && (#[trigger] m.tensors[k]).name == name,
{
    let mapped = index::mapped_shards(shards);
    let tensors = manifest::gathered_tensors(mapped);
    let own = shards[i].inspection.tensors;
    let p = shards[i].expected.index_of(name);
    lemma_nothing_short(shards, 0, i);
    lemma_nothing_missing(shards[i].expected, own, 0, p);
    let q = index::tensor_names(own).index_of(name);
    let t = own[q];
    assert(index::tensor_names(own)[q] == t.name);
    assert(own.contains(t));
    lemma_named(own, shards[i].expected, t);
    assert(mapped[i].inspection.tensors.contains(t));
    lemma_gathered(mapped, t);
    law_sorting_keeps_the_tensors(tensors, t);
    let k = m.tensors.index_of(t);
    assert(m.tensors[k].name == name);
}

// ---------------------------------------------------------------------------
// Metadata of many shards
// ---------------------------------------------------------------------------
/// Shards whose metadata can be told apart: no two have the same path, no path holds the
/// separator, and no metadata key has the form of a shard's own key.
pub open spec fn tellable(shards: Seq<ShardView>) -> bool {
    &&& forall|i: int, j: int|
        0 <= i < j < shards.len() ==> (#[trigger] shards[i]).source_shard != (
        #[trigger] shards[j]).source_shard
    &&& forall|i: int|
        0 <= i < shards.len() ==> {
            &&& !(#[trigger] shards[i]).source_shard.contains(SHARD_METADATA_KEY_SEP)
            &&& shards[i].inspection.metadata.dom().finite()
            &&& forall|k: Seq<char>| #[trigger]
                shards[i].inspection.metadata.contains_key(k) ==> metadata::is_plain(k)
        }
}

/// Some shard has the key.
pub open spec fn some_has(shards: Seq<ShardView>, key: Seq<char>) -> bool {
    exists|i: int|
        0 <= i < shards.len() && (#[trigger] shards[i]).inspection.metadata.contains_key(key)
}

/// The key is known, at the start or from a shard, and all that have it agree on `value`.
pub open spec fn agreed(
    start: Map<Seq<char>, Seq<char>>,
    shards: Seq<ShardView>,
    key: Seq<char>,
    value: Seq<char>,
) -> bool {
    &&& start.contains_key(key) || some_has(shards, key)
    &&& start.contains_key(key) ==> start[key] == value
    &&& forall|i: int|
        0 <= i < shards.len() && (#[trigger] shards[i]).inspection.metadata.contains_key(key)
            ==> shards[i].inspection.metadata[key] == value
}

/// `full` is the key under which shard `i` keeps its own value of `key`.
pub open spec fn keeps_under(
    shards: Seq<ShardView>,
    i: int,
    key: Seq<char>,
    full: Seq<char>,
) -> bool {
    &&& 0 <= i < shards.len()
    &&& shards[i].inspection.metadata.contains_key(key)
    &&& full == metadata::shard_key(shards[i].source_shard, key)
}

proof fn lemma_tellable_front(shards: Seq<ShardView>)
    requires
        tellable(shards),
        shards.len() > 0,
    ensures
        tellable(shards.drop_last()),
{
    let front = shards.drop_last();
    assert forall|i: int, j: int| 0 <= i < j < front.len() implies (
    #[trigger] front[i]).source_shard != (#[trigger] front[j]).source_shard by {
        assert(shards[i].source_shard != shards[j].source_shard);
    }
    assert forall|i: int| 0 <= i < front.len() implies {
        &&& !(#[trigger] front[i]).source_shard.contains(SHARD_METADATA_KEY_SEP)
        &&& front[i].inspection.metadata.dom().finite()
        &&& forall|k: Seq<char>| #[trigger]
            front[i].inspection.metadata.contains_key(k) ==> metadata::is_plain(k)
    } by {
        assert(front[i] == shards[i]);
    }
}

proof fn lemma_front_has(shards: Seq<ShardView>, key: Seq<char>)
    requires
        shards.len() > 0,
    ensures
        some_has(shards, key) <==> (some_has(shards.drop_last(), key)
            || shards.last().inspection.metadata.contains_key(key)),
{
    let front = shards.drop_last();
    if some_has(front, key) {
        let i = choose|i: int|
            0 <= i < front.len() && (#[trigger] front[i]).inspection.metadata.contains_key(key);
        assert(shards[i] == front[i]);
    }
    if shards.last().inspection.metadata.contains_key(key) {
        assert(shards[shards.len() - 1] == shards.last());
    }
    if some_has(shards, key) {
        let i = choose|i: int|
            0 <= i < shards.len() && (#[trigger] shards[i]).inspection.metadata.contains_key(key);
        if i < shards.len() - 1 {
            assert(front[i] == shards[i]);
        }
    }
}

proof fn lemma_front_agrees(
    start: Map<Seq<char>, Seq<char>>,
    shards: Seq<ShardView>,
    key: Seq<char>,
    value: Seq<char>,
)
    requires
        shards.len() > 0,
    ensures
        ({
            let front = shards.drop_last();
            let table = shards.last().inspection.metadata;
            agreed(start, shards, key, value) <==> if table.contains_key(key) {
                &&& table[key] == value
                &&& agreed(start, front, key, value) || (!start.contains_key(key) && !some_has(
                    front,
                    key,
                ))
            } else {
                agreed(start, front, key, value)
            }
        }),
{
    let front = shards.drop_last();
    let table = shards.last().inspection.metadata;
    let last = shards.len() - 1;
    assert(shards[last] == shards.last());
    lemma_front_has(shards, key);
    assert forall|i: int| 0 <= i < front.len() implies #[trigger] front[i] == shards[i] by {}
    if agreed(start, shards, key, value) {
        assert forall|i: int|
            0 <= i < front.len() && (#[trigger] front[i]).inspection.metadata.contains_key(
                key,
            ) implies front[i].inspection.metadata[key] == value by {
            assert(shards[i] == front[i]);
        }
    }
    if agreed(start, front, key, value) && (table.contains_key(key) ==> table[key] == value) {
        assert forall|i: int|
            0 <= i < shards.len() && (#[trigger] shards[i]).inspection.metadata.contains_key(
                key,
            ) implies shards[i].inspection.metadata[key] == value by {
            if i < last {
                assert(front[i] == shards[i]);
            }
        }
    }
    if !start.contains_key(key) && !some_has(front, key) && table.contains_key(key) && table[key]
        == value {
        assert forall|i: int|
            0 <= i < shards.len() && (#[trigger] shards[i]).inspection.metadata.contains_key(
                key,
            ) implies shards[i].inspection.metadata[key] == value by {
            if i < last {
                assert(front[i] == shards[i]);
            }
        }
    }
}

proof fn lemma_plain_key(
    start: Map<Seq<char>, Seq<char>>,
    shards: Seq<ShardView>,
    key: Seq<char>,
    value: Seq<char>,
)
    requires
        tellable(shards),
        forall|k: Seq<char>| #[trigger] start.contains_key(k) ==> metadata::is_plain(k),
        metadata::is_plain(key),
    ensures
        ({
            let m = manifest::gathered_metadata(start, shards);
            &&& metadata::said(m, key) == Some(value) <==> agreed(start, shards, key, value)
            &&& metadata::has_shard_key(m, key) <==> some_has(shards, key)
        }),
    decreases shards.len(),
{
    if shards.len() > 0 {
        let front = shards.drop_last();
        let last = shards.last();
        let table = last.inspection.metadata;
        let before = manifest::gathered_metadata(start, front);
        assert(shards[shards.len() - 1] == last);
        lemma_tellable_front(shards);
        lemma_plain_key(start, front, key, value);
        lemma_plain_key(start, front, key, before[key]);
        lemma_front_has(shards, key);
        lemma_front_agrees(start, shards, key, value);
        metadata::law_shard_settles_its_keys(before, last.source_shard, table, key);
        if start.contains_key(key) && !some_has(front, key) {
            lemma_plain_key(start, front, key, start[key]);
            assert(agreed(start, front, key, start[key]));
        }
    } else {
        assert(!metadata::has_shard_key(start, key)) by {
            if metadata::has_shard_key(start, key) {
                let k = choose|k: Seq<char>|
                    #[trigger] start.contains_key(k) && metadata::logical_key(k) == Some(key);
                assert(metadata::is_plain(k));
            }
        }
    }
}

proof fn lemma_own_key(
    start: Map<Seq<char>, Seq<char>>,
    shards: Seq<ShardView>,
    i: int,
    key: Seq<char>,
)
    requires
        tellable(shards),
        0 <= i < shards.len(),
        shards[i].inspection.metadata.contains_key(key),
    ensures
        metadata::said(
            manifest::gathered_metadata(start, shards),
            metadata::shard_key(shards[i].source_shard, key),
        ) == Some(shards[i].inspection.metadata[key]),
    decreases shards.len(),
{
    let front = shards.drop_last();
    let last = shards.last();
    let table = last.inspection.metadata;
    let before = manifest::gathered_metadata(start, front);
    assert(shards[shards.len() - 1] == last);
    assert(metadata::is_plain(key));
    if i == shards.len() - 1 {
        metadata::law_shard_settles_its_keys(before, last.source_shard, table, key);
    } else {
        let own = metadata::shard_key(shards[i].source_shard, key);
        lemma_tellable_front(shards);
        assert(front[i] == shards[i]);
        lemma_own_key(start, front, i, key);
        metadata::law_shard_key_is_read_back(shards[i].source_shard, key);
        assert forall|k: Seq<char>| #[trigger] table.contains_key(k) implies metadata::shard_key(
            last.source_shard,
            k,
        ) != own by {
            if metadata::shard_key(last.source_shard, k) == own {
                metadata::lemma_shard_key_is_unambiguous(
                    last.source_shard,
                    k,
                    shards[i].source_shard,
                    key,
                );
                assert(shards[i].source_shard != shards[shards.len() - 1].source_shard);
            }
        }
        metadata::lemma_shard_keeps_other_shards(before, last.source_shard, table, own);
    }
}

proof fn lemma_no_other_key(
    start: Map<Seq<char>, Seq<char>>,
    shards: Seq<ShardView>,
    full: Seq<char>,
)
    requires
        tellable(shards),
        forall|k: Seq<char>| #[trigger] start.contains_key(k) ==> metadata::is_plain(k),
        !metadata::is_plain(full),
        manifest::gathered_metadata(start, shards).contains_key(full),
    ensures
        exists|i: int, key: Seq<char>| keeps_under(shards, i, key, full),
    decreases shards.len(),
{
    if shards.len() > 0 {
        let front = shards.drop_last();
        let last = shards.last();
        let table = last.inspection.metadata;
        let before = manifest::gathered_metadata(start, front);
        let end = shards.len() - 1;
        assert(shards[end] == last);
        if !exists|key: Seq<char>| keeps_under(shards, end, key, full) {
            assert forall|k: Seq<char>| #[trigger] table.contains_key(
                k,
            ) implies metadata::shard_key(last.source_shard, k) != full by {
                assert(!keeps_under(shards, end, k, full));
            }
            metadata::lemma_shard_keeps_other_shards(before, last.source_shard, table, full);
            lemma_tellable_front(shards);
            lemma_no_other_key(start, front, full);
            let (i, key) = choose|i: int, key: Seq<char>| keeps_under(front, i, key, full);
            assert(keeps_under(shards, i, key, full));
        }
    }
}

/// What the metadata of many shards comes to, from metadata with plain keys at the start,
/// in most cases none. A plain key has a value exactly if the key is known and all that
/// have it agree on that value. Each shard's own key has the shard's value. There are no
/// other keys.
pub proof fn law_shards_settle_the_metadata(
    start: Map<Seq<char>, Seq<char>>,
    shards: Seq<ShardView>,
    key: Seq<char>,
    value: Seq<char>,
)
    requires
        tellable(shards),
        forall|k: Seq<char>| #[trigger] start.contains_key(k) ==> metadata::is_plain(k),
    ensures
        ({
            let m = manifest::gathered_metadata(start, shards);
            &&& metadata::is_plain(key) ==> ((m.contains_key(key) && m[key] == value) <==> agreed(
                start,
                shards,
                key,
                value,
            ))
            &&& forall|i: int|
                0 <= i < shards.len() && (
                #[trigger] shards[i]).inspection.metadata.contains_key(key) ==> {
                    let own = metadata::shard_key(shards[i].source_shard, key);
                    m.contains_key(own) && m[own] == shards[i].inspection.metadata[key]
                }
            &&& !metadata::is_plain(key) && m.contains_key(key) ==> exists|i: int, k: Seq<char>|
                keeps_under(shards, i, k, key)
        }),
{
    let m = manifest::gathered_metadata(start, shards);
    if metadata::is_plain(key) {
        lemma_plain_key(start, shards, key, value);
    } else if m.contains_key(key) {
        lemma_no_other_key(start, shards, key);
    }
    assert forall|i: int|
        0 <= i < shards.len() && (#[trigger] shards[i]).inspection.metadata.contains_key(
            key,
        ) implies ({
        let own = metadata::shard_key(shards[i].source_shard, key);
        m.contains_key(own) && m[own] == shards[i].inspection.metadata[key]
    }) by {
        lemma_own_key(start, shards, i, key);
    }
}

proof fn lemma_other_order_has(
    start: Map<Seq<char>, Seq<char>>,
    a: Seq<ShardView>,
    b: Seq<ShardView>,
    key: Seq<char>,
)
    requires
        tellable(a),
        tellable(b),
        forall|s: ShardView| #[trigger] a.contains(s) <==> b.contains(s),
        forall|k: Seq<char>| #[trigger] start.contains_key(k) ==> metadata::is_plain(k),
        manifest::gathered_metadata(start, a).contains_key(key),
    ensures
        manifest::gathered_metadata(start, b).contains_key(key),
        manifest::gathered_metadata(start, b)[key] == manifest::gathered_metadata(start, a)[key],
{
    let value = manifest::gathered_metadata(start, a)[key];
    law_shards_settle_the_metadata(start, a, key, value);
    law_shards_settle_the_metadata(start, b, key, value);
    if metadata::is_plain(key) {
        assert(agreed(start, a, key, value));
        if some_has(a, key) {
            let i = choose|i: int|
                0 <= i < a.len() && (#[trigger] a[i]).inspection.metadata.contains_key(key);
            assert(a.contains(a[i]));
            let j = b.index_of(a[i]);
            assert(b[j] == a[i]);
        }
        assert forall|j: int|
            0 <= j < b.len() && (#[trigger] b[j]).inspection.metadata.contains_key(
                key,
            ) implies b[j].inspection.metadata[key] == value by {
            assert(b.contains(b[j]));
            assert(a.contains(b[j]));
            let i = a.index_of(b[j]);
            assert(a[i] == b[j]);
        }
    } else {
        let (i, k) = choose|i: int, k: Seq<char>| keeps_under(a, i, k, key);
        assert(a.contains(a[i]));
        let j = b.index_of(a[i]);
        assert(b[j] == a[i]);
        lemma_own_key(start, a, i, k);
        lemma_own_key(start, b, j, k);
    }
}

/// The order in which shards are taken over does not matter to the metadata.
pub proof fn law_shard_order_does_not_matter(
    start: Map<Seq<char>, Seq<char>>,
    a: Seq<ShardView>,
    b: Seq<ShardView>,
)
    requires
        tellable(a),
        a.to_multiset() == b.to_multiset(),
        forall|k: Seq<char>| #[trigger] start.contains_key(k) ==> metadata::is_plain(k),
    ensures
        manifest::gathered_metadata(start, a) == manifest::gathered_metadata(start, b),
{
    broadcast use vstd::seq_lib::group_to_multiset_ensures;

    assert forall|s: ShardView| #[trigger] a.contains(s) <==> b.contains(s) by {
        assert(a.contains(s) <==> a.to_multiset().count(s) > 0);
        assert(b.contains(s) <==> b.to_multiset().count(s) > 0);
    }
    assert(a.no_duplicates());
    a.lemma_multiset_has_no_duplicates();
    b.lemma_multiset_has_no_duplicates_conv();
    assert(tellable(b)) by {
        assert forall|i: int, j: int| 0 <= i < j < b.len() implies (
        #[trigger] b[i]).source_shard != (#[trigger] b[j]).source_shard by {
            assert(b.contains(b[i]) && b.contains(b[j]));
            assert(a.contains(b[i]) && a.contains(b[j]));
            let p = a.index_of(b[i]);
            let q = a.index_of(b[j]);
            assert(a[p] == b[i] && a[q] == b[j]);
            assert(b[i] != b[j]);
            if p < q {
                assert(a[p].source_shard != a[q].source_shard);
            } else {
                assert(a[q].source_shard != a[p].source_shard);
            }
        }
        assert forall|i: int| 0 <= i < b.len() implies {
            &&& !(#[trigger] b[i]).source_shard.contains(SHARD_METADATA_KEY_SEP)
            &&& b[i].inspection.metadata.dom().finite()
            &&& forall|k: Seq<char>| #[trigger]
                b[i].inspection.metadata.contains_key(k) ==> metadata::is_plain(k)
        } by {
            assert(b.contains(b[i]));
            assert(a.contains(b[i]));
            assert(a[a.index_of(b[i])] == b[i]);
        }
    }
    let left = manifest::gathered_metadata(start, a);
    let right = manifest::gathered_metadata(start, b);
    assert forall|k: Seq<char>| #[trigger] left.contains_key(k) <==> right.contains_key(k) by {
        if left.contains_key(k) {
            lemma_other_order_has(start, a, b, k);
        }
        if right.contains_key(k) {
            lemma_other_order_has(start, b, a, k);
        }
    }
    assert forall|k: Seq<char>| #[trigger] left.contains_key(k) implies left[k] == right[k] by {
        lemma_other_order_has(start, a, b, k);
    }
    assert(left =~= right);
}

/// What every manifest says of itself: the schema is the second, the format `safetensors`,
/// and the number of tensors is that of the records.
pub proof fn law_manifests_count_their_tensors(
    m: ManifestView,
    input_kind: Seq<char>,
    index_file: Option<Seq<char>>,
    shard_count: nat,
    metadata: Map<Seq<char>, Seq<char>>,
    tensors: Seq<RecordView>,
    path: Seq<char>,
)
    requires
        manifest::builds(
            Ok(m),
            input_kind,
            index_file,
            shard_count,
            metadata,
            tensors,
            path,
        ),
    ensures
        m.manifest_version == 2,
        m.format == "safetensors"@,
        m.checkpoint.tensor_count == m.tensors.len(),
        m.tensors.len() == tensors.len(),
        m.checkpoint.input_kind == input_kind,
        m.checkpoint.index_file == index_file,
        m.checkpoint.shard_count == shard_count,
        m.checkpoint.metadata == metadata,
{
    if tensors.len() > 0 {
        law_sorting_keeps_the_tensors(tensors, tensors[0]);
    } else {
        law_sorting_keeps_the_tensors(tensors, arbitrary());
    }
}

/// What the manifest of an index says of itself: its kind is `hf_index`, it has a shard for
/// each that was inspected, and its metadata tells how many tensors the index names and
/// which shards it does not.
pub proof fn law_indexed_manifests_tell_of_their_index(
    m: ManifestView,
    root: Seq<char>,
    index_file: Option<Seq<char>>,
    shards: Seq<IndexedView>,
    metadata: Map<Seq<char>, Seq<char>>,
    index_tensor_count: nat,
    unreferenced: Option<Seq<char>>,
)
    requires
        index::inspects(
            Ok(m),
            root,
            index_file,
            shards,
            metadata,
            index_tensor_count,
            unreferenced,
        ),
    ensures
        m.checkpoint.input_kind == "hf_index"@,
        m.checkpoint.index_file == index_file,
        m.checkpoint.shard_count == shards.len(),
        m.checkpoint.metadata.contains_key("index_tensor_count"@),
        m.checkpoint.metadata["index_tensor_count"@] == text::decimal(index_tensor_count),
        m.checkpoint.metadata.contains_key("index:unreferenced_shards"@) <==> unreferenced is Some,
        unreferenced is Some ==> m.checkpoint.metadata["index:unreferenced_shards"@]
            == unreferenced->Some_0,
{
    reveal_strlit("index_tensor_count");
    reveal_strlit("index:unreferenced_shards");
    assert("index_tensor_count"@[5] == '_' && "index:unreferenced_shards"@[5] == ':');
}

} // verus!
