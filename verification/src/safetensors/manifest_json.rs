//! Manifests as JSON.

use crate::error::ErrorView;
use crate::ordered;
use crate::ordered::StringMap;
use crate::safetensors::discovery;
use crate::safetensors::discovery::{
    GroupView, RouterView, SafetensorsCandidateSummary, SafetensorsExpertGroup,
    SafetensorsRouterCandidate, SummaryView,
};
use crate::safetensors::json;
use crate::safetensors::json::{encode_pretty, Json, JsonNumber, JsonValue};
use crate::safetensors::json_laws;
use crate::safetensors::json_parse;
use crate::safetensors::manifest::{
    ManifestView, SafetensorsCheckpointSource, SafetensorsManifest, SourceView,
};
use crate::safetensors::record;
use crate::safetensors::record::{RecordView, SafetensorsTensorRecord};
use crate::text;
use vstd::prelude::*;

verus! {

/// An array of numbers.
pub open spec fn size_array(sizes: Seq<usize>) -> Json {
    Json::Array(Seq::new(sizes.len(), |i: int| Json::U64(sizes[i] as u64)))
}

/// A number, or null.
pub open spec fn optional_size(size: Option<usize>) -> Json {
    match size {
        Some(n) => Json::U64(n as u64),
        None => Json::Null,
    }
}

/// A string, or null.
pub open spec fn optional_string(s: Option<Seq<char>>) -> Json {
    match s {
        Some(s) => Json::Text(s),
        None => Json::Null,
    }
}

/// A table of strings as an object.
pub open spec fn table_json(m: Map<Seq<char>, Seq<char>>) -> Json {
    let keys = ordered::sorted_keys(m);
    Json::Object(Seq::new(keys.len(), |i: int| (keys[i], Json::Text(m[keys[i]]))))
}

/// A tensor record as JSON.
pub open spec fn record_json(t: RecordView) -> Json {
    Json::Object(
        seq![
            ("byte_size"@, Json::U64(t.byte_size as u64)),
            ("data_offsets"@, size_array(seq![t.start, t.end])),
            ("dtype"@, Json::Text(t.dtype)),
            ("labels"@, json::text_array(t.labels)),
            ("name"@, Json::Text(t.name)),
            ("shape"@, size_array(t.shape)),
            ("source_shard"@, Json::Text(t.source_shard)),
        ],
    )
}

/// A router candidate as JSON.
pub open spec fn router_json(c: RouterView) -> Json {
    Json::Object(
        seq![
            ("layer_hint"@, optional_size(c.layer_hint)),
            ("name"@, Json::Text(c.name)),
            ("reasons"@, json::text_array(c.reasons)),
            ("score"@, Json::U64(c.score as u64)),
            ("shape"@, size_array(c.shape)),
            ("source_shard"@, Json::Text(c.source_shard)),
        ],
    )
}

/// An expert group as JSON.
pub open spec fn group_json(g: GroupView) -> Json {
    Json::Object(
        seq![
            ("expert_indices"@, size_array(g.expert_indices)),
            ("group_key"@, Json::Text(g.group_key)),
            ("layer_hint"@, optional_size(g.layer_hint)),
            ("source_shards"@, json::text_array(g.source_shards)),
            ("tensor_names"@, json::text_array(g.tensor_names)),
            ("weight_kinds"@, json::text_array(g.weight_kinds)),
        ],
    )
}

/// The items as a JSON array.
pub open spec fn record_array(items: Seq<RecordView>) -> Json {
    Json::Array(Seq::new(items.len(), |i: int| record_json(items[i])))
}

/// The items as a JSON array.
pub open spec fn router_array(items: Seq<RouterView>) -> Json {
    Json::Array(Seq::new(items.len(), |i: int| router_json(items[i])))
}

/// The items as a JSON array.
pub open spec fn group_array(items: Seq<GroupView>) -> Json {
    Json::Array(Seq::new(items.len(), |i: int| group_json(items[i])))
}

/// A candidate summary as JSON.
pub open spec fn summary_json(c: SummaryView) -> Json {
    Json::Object(
        seq![
            ("detected_layout_family"@, optional_string(c.family)),
            ("expert_groups"@, group_array(c.expert_groups)),
            ("expert_tensors"@, json::text_array(c.expert_tensors)),
            ("router_candidates"@, router_array(c.router_candidates)),
            ("router_tensors"@, json::text_array(c.router_tensors)),
        ],
    )
}

/// A checkpoint source as JSON.
pub open spec fn source_json(c: SourceView) -> Json {
    Json::Object(
        seq![
            ("index_file"@, optional_string(c.index_file)),
            ("input_kind"@, Json::Text(c.input_kind)),
            ("metadata"@, table_json(c.metadata)),
            ("shard_count"@, Json::U64(c.shard_count as u64)),
            ("tensor_count"@, Json::U64(c.tensor_count as u64)),
        ],
    )
}

/// A manifest as JSON.
pub open spec fn manifest_json(m: ManifestView) -> Json {
    Json::Object(
        seq![
            ("candidates"@, summary_json(m.candidates)),
            ("checkpoint"@, source_json(m.checkpoint)),
            ("format"@, Json::Text(m.format)),
            ("manifest_version"@, Json::U64(m.manifest_version as u64)),
            ("tensors"@, record_array(m.tensors)),
        ],
    )
}

// ---------------------------------------------------------------------------
// Building
// ---------------------------------------------------------------------------
fn entry(key: &str, value: JsonValue) -> (r: (String, JsonValue))
    ensures
        r.0@ == key@,
        r.1 == value,
{
    (key.to_owned(), value)
}

fn number(n: u64) -> (r: JsonValue)
    ensures
        r.model() == Json::U64(n),
{
    JsonValue::Number(JsonNumber::U64(n))
}

fn string(s: &str) -> (r: JsonValue)
    ensures
        r.model() == Json::Text(s@),
{
    JsonValue::String(s.to_owned())
}

fn optional_number(n: Option<usize>) -> (r: JsonValue)
    ensures
        r.model() == optional_size(n),
{
    match n {
        Some(n) => number(n as u64),
        None => JsonValue::Null,
    }
}

fn sizes(values: &[usize]) -> (r: JsonValue)
    ensures
        r.model() == size_array(values@),
{
    let ghost all = size_array(values@)->Array_0;
    let mut items: Vec<JsonValue> = Vec::new();
    let mut i: usize = 0;
    while i < values.len()
        invariant
            i <= values@.len(),
            all == size_array(values@)->Array_0,
            json::models(items@) =~= all.take(i as int),
        decreases values@.len() - i,
    {
        let ghost before = json::models(items@);
        let item = number(values[i] as u64);
        items.push(item);
        assert(json::models(items@) =~= before.push(item.model()));
        i += 1;
    }
    assert(json::models(items@) =~= all);
    let r = JsonValue::Array(items);
    proof {
        json::lemma_model(r);
    }
    r
}

fn labels(texts: &Vec<&'static str>) -> (r: JsonValue)
    ensures
        r.model() == json::text_array(text::slice_views(texts@)),
{
    let ghost all = json::text_array(text::slice_views(texts@))->Array_0;
    let mut items: Vec<JsonValue> = Vec::new();
    let mut i: usize = 0;
    while i < texts.len()
        invariant
            i <= texts@.len(),
            all == json::text_array(text::slice_views(texts@))->Array_0,
            json::models(items@) =~= all.take(i as int),
        decreases texts@.len() - i,
    {
        let ghost before = json::models(items@);
        let item = string(texts[i]);
        items.push(item);
        assert(json::models(items@) =~= before.push(item.model()));
        i += 1;
    }
    assert(json::models(items@) =~= all);
    let r = JsonValue::Array(items);
    proof {
        json::lemma_model(r);
    }
    r
}

fn string_table(table: &StringMap<String>) -> (r: JsonValue)
    ensures
        r.model() == table_json(ordered::value_views(table@)),
        ordered::is_sorted_keys(
            ordered::keys_of(table.entries()),
            ordered::value_views(table@),
        ),
{
    let ghost m = ordered::value_views(table@);
    let keys = table.keys();
    let ghost names = text::views(keys@);
    proof {
        assert forall|k: Seq<char>|
            #![trigger names.contains(k)]
            #![trigger m.contains_key(k)]
            names.contains(k) <==> m.contains_key(k) by {
            assert(names.contains(k) <==> table@.contains_key(k));
        }
        ordered::lemma_sorted_keys(names, m);
    }
    let ghost all = table_json(m)->Object_0;
    let mut entries: Vec<(String, JsonValue)> = Vec::new();
    let mut i: usize = 0;
    while i < keys.len()
        invariant
            i <= keys@.len(),
            m == ordered::value_views(table@),
            names == text::views(keys@),
            names == ordered::sorted_keys(m),
            forall|k: Seq<char>| #[trigger] names.contains(k) <==> table@.contains_key(k),
            all == table_json(m)->Object_0,
            json::entry_models(entries@) =~= all.take(i as int),
        decreases keys@.len() - i,
    {
        let ghost before = json::entry_models(entries@);
        assert(names[i as int] == keys@[i as int]@);
        assert(names.contains(names[i as int]));
        match table.get(keys[i].as_str()) {
            Some(value) => {
                let item = (keys[i].clone(), string(value.as_str()));
                assert((item.0@, item.1.model()) == all[i as int]);
                entries.push(item);
                assert(json::entry_models(entries@) =~= before.push((item.0@, item.1.model())));
            },
            None => {
                assert(false);
            },
        }
        i += 1;
    }
    assert(json::entry_models(entries@) =~= all);
    let r = JsonValue::Object(entries);
    proof {
        json::lemma_model(r);
    }
    r
}

/// A tensor record as JSON.
fn tensor_record_json(tensor: &SafetensorsTensorRecord) -> (r: JsonValue)
    ensures
        r.model() == record_json(tensor@),
{
    let offsets: Vec<usize> = vec![tensor.data_offsets[0], tensor.data_offsets[1]];
    assert(offsets@ =~= seq![tensor@.start, tensor@.end]);
    let entries: Vec<(String, JsonValue)> = vec![
        entry("byte_size", number(tensor.byte_size as u64)),
        entry("data_offsets", sizes(offsets.as_slice())),
        entry("dtype", string(tensor.dtype.as_str())),
        entry("labels", labels(&tensor.labels)),
        entry("name", string(tensor.name.as_str())),
        entry("shape", sizes(tensor.shape.as_slice())),
        entry("source_shard", string(tensor.source_shard.as_str())),
    ];
    let r = JsonValue::Object(entries);
    proof {
        json::lemma_model(r);
        assert(json::entry_models(entries@) =~= record_json(tensor@)->Object_0);
    }
    r
}

/// A router candidate as JSON.
fn router_candidate_json(candidate: &SafetensorsRouterCandidate) -> (r: JsonValue)
    ensures
        r.model() == router_json(candidate@),
{
    let entries: Vec<(String, JsonValue)> = vec![
        entry("layer_hint", optional_number(candidate.layer_hint)),
        entry("name", string(candidate.name.as_str())),
        entry("reasons", labels(&candidate.reasons)),
        entry("score", number(candidate.score as u64)),
        entry("shape", sizes(candidate.shape.as_slice())),
        entry("source_shard", string(candidate.source_shard.as_str())),
    ];
    let r = JsonValue::Object(entries);
    proof {
        json::lemma_model(r);
        assert(json::entry_models(entries@) =~= router_json(candidate@)->Object_0);
    }
    r
}

/// An expert group as JSON.
fn expert_group_json(group: &SafetensorsExpertGroup) -> (r: JsonValue)
    ensures
        r.model() == group_json(group@),
{
    let entries: Vec<(String, JsonValue)> = vec![
        entry("expert_indices", sizes(group.expert_indices.as_slice())),
        entry("group_key", string(group.group_key.as_str())),
        entry("layer_hint", optional_number(group.layer_hint)),
        entry("source_shards", json::string_array_value(&group.source_shards)),
        entry("tensor_names", json::string_array_value(&group.tensor_names)),
        entry("weight_kinds", labels(&group.weight_kinds)),
    ];
    let r = JsonValue::Object(entries);
    proof {
        json::lemma_model(r);
        assert(json::entry_models(entries@) =~= group_json(group@)->Object_0);
    }
    r
}

fn records(values: &Vec<SafetensorsTensorRecord>) -> (r: JsonValue)
    ensures
        r.model() == record_array(record::record_views(values@)),
{
    let ghost all = record_array(record::record_views(values@))->Array_0;
    let mut items: Vec<JsonValue> = Vec::new();
    let mut i: usize = 0;
    while i < values.len()
        invariant
            i <= values@.len(),
            all == record_array(record::record_views(values@))->Array_0,
            json::models(items@) =~= all.take(i as int),
        decreases values@.len() - i,
    {
        let ghost before = json::models(items@);
        let item = tensor_record_json(&values[i]);
        assert(item.model() == all[i as int]);
        items.push(item);
        assert(json::models(items@) =~= before.push(item.model()));
        i += 1;
    }
    assert(json::models(items@) =~= all);
    let r = JsonValue::Array(items);
    proof {
        json::lemma_model(r);
    }
    r
}

fn routers(values: &Vec<SafetensorsRouterCandidate>) -> (r: JsonValue)
    ensures
        r.model() == router_array(discovery::router_views(values@)),
{
    let ghost all = router_array(discovery::router_views(values@))->Array_0;
    let mut items: Vec<JsonValue> = Vec::new();
    let mut i: usize = 0;
    while i < values.len()
        invariant
            i <= values@.len(),
            all == router_array(discovery::router_views(values@))->Array_0,
            json::models(items@) =~= all.take(i as int),
        decreases values@.len() - i,
    {
        let ghost before = json::models(items@);
        let item = router_candidate_json(&values[i]);
        assert(item.model() == all[i as int]);
        items.push(item);
        assert(json::models(items@) =~= before.push(item.model()));
        i += 1;
    }
    assert(json::models(items@) =~= all);
    let r = JsonValue::Array(items);
    proof {
        json::lemma_model(r);
    }
    r
}

fn groups(values: &Vec<SafetensorsExpertGroup>) -> (r: JsonValue)
    ensures
        r.model() == group_array(discovery::group_views(values@)),
{
    let ghost all = group_array(discovery::group_views(values@))->Array_0;
    let mut items: Vec<JsonValue> = Vec::new();
    let mut i: usize = 0;
    while i < values.len()
        invariant
            i <= values@.len(),
            all == group_array(discovery::group_views(values@))->Array_0,
            json::models(items@) =~= all.take(i as int),
        decreases values@.len() - i,
    {
        let ghost before = json::models(items@);
        let item = expert_group_json(&values[i]);
        assert(item.model() == all[i as int]);
        items.push(item);
        assert(json::models(items@) =~= before.push(item.model()));
        i += 1;
    }
    assert(json::models(items@) =~= all);
    let r = JsonValue::Array(items);
    proof {
        json::lemma_model(r);
    }
    r
}

/// A candidate summary as JSON.
fn candidates_json(summary: &SafetensorsCandidateSummary) -> (r: JsonValue)
    ensures
        r.model() == summary_json(summary@),
{
    let family = match summary.detected_layout_family {
        Some(name) => string(name),
        None => JsonValue::Null,
    };
    let entries: Vec<(String, JsonValue)> = vec![
        entry("detected_layout_family", family),
        entry("expert_groups", groups(&summary.expert_groups)),
        entry("expert_tensors", json::string_array_value(&summary.expert_tensors)),
        entry("router_candidates", routers(&summary.router_candidates)),
        entry("router_tensors", json::string_array_value(&summary.router_tensors)),
    ];
    let r = JsonValue::Object(entries);
    proof {
        json::lemma_model(r);
        assert(json::entry_models(entries@) =~= summary_json(summary@)->Object_0);
    }
    r
}

/// A checkpoint source as JSON.
fn checkpoint_json(source: &SafetensorsCheckpointSource) -> (r: JsonValue)
    ensures
        r.model() == source_json(source@),
        ordered::is_sorted_keys(
            ordered::keys_of(source.metadata.entries()),
            source@.metadata,
        ),
{
    let index_file = match &source.index_file {
        Some(path) => string(path.as_str()),
        None => JsonValue::Null,
    };
    let entries: Vec<(String, JsonValue)> = vec![
        entry("index_file", index_file),
        entry("input_kind", string(source.input_kind.as_str())),
        entry("metadata", string_table(&source.metadata)),
        entry("shard_count", number(source.shard_count as u64)),
        entry("tensor_count", number(source.tensor_count as u64)),
    ];
    let r = JsonValue::Object(entries);
    proof {
        json::lemma_model(r);
        assert(json::entry_models(entries@) =~= source_json(source@)->Object_0);
    }
    r
}

// ---------------------------------------------------------------------------
// Reading back
// ---------------------------------------------------------------------------
/// The value can be read back, and is nested no deeper than `n`.
spec fn tidy(j: Json, n: nat) -> bool {
    json_laws::canonical(j) && json::depth(j) <= n
}

proof fn lemma_max_at_most(depths: Seq<nat>, n: nat)
    requires
        forall|i: int| 0 <= i < depths.len() ==> #[trigger] depths[i] <= n,
    ensures
        json::max_depth(depths) <= n,
    decreases depths.len(),
{
    if depths.len() > 0 {
        assert forall|i: int| 0 <= i < depths.drop_last().len() implies #[trigger] depths.drop_last()[i]
            <= n by {
            assert(depths.drop_last()[i] == depths[i]);
        }
        lemma_max_at_most(depths.drop_last(), n);
    }
}

proof fn lemma_tidy_array(items: Seq<Json>, n: nat)
    requires
        forall|i: int| 0 <= i < items.len() ==> tidy(#[trigger] items[i], n),
    ensures
        tidy(Json::Array(items), n + 1),
{
    assert forall|i: int| 0 <= i < items.len() implies #[trigger] json::item_depths(items)[i]
        <= n by {
        assert(tidy(items[i], n));
    }
    lemma_max_at_most(json::item_depths(items), n);
}

proof fn lemma_tidy_object(entries: Seq<(Seq<char>, Json)>, n: nat)
    requires
        text::increasing(json::entry_keys(entries)),
        forall|i: int| 0 <= i < entries.len() ==> tidy((#[trigger] entries[i]).1, n),
    ensures
        tidy(Json::Object(entries), n + 1),
{
    assert forall|i: int| 0 <= i < entries.len() implies #[trigger] json::entry_depths(entries)[i]
        <= n by {
        assert(tidy(entries[i].1, n));
    }
    lemma_max_at_most(json::entry_depths(entries), n);
}

proof fn lemma_tidy_texts(texts: Seq<Seq<char>>)
    ensures
        tidy(json::text_array(texts), 1),
{
    lemma_tidy_array(json::text_array(texts)->Array_0, 0);
}

proof fn lemma_tidy_sizes(sizes: Seq<usize>)
    ensures
        tidy(size_array(sizes), 1),
{
    lemma_tidy_array(size_array(sizes)->Array_0, 0);
}

proof fn lemma_less_at(a: Seq<char>, b: Seq<char>, d: int)
    requires
        0 <= d < a.len(),
        d < b.len(),
        a[d] < b[d],
        a.take(d) =~= b.take(d),
    ensures
        text::less(a, b),
{
    lemma_less_from_at(a, b, 0, d);
}

proof fn lemma_less_from_at(a: Seq<char>, b: Seq<char>, i: int, d: int)
    requires
        0 <= i <= d < a.len(),
        d < b.len(),
        a[d] < b[d],
        a.take(d) == b.take(d),
    ensures
        text::less_from(a, b, i),
    decreases d - i,
{
    if i < d {
        assert(a.take(d)[i] == a[i] && b.take(d)[i] == b[i]);
        lemma_less_from_at(a, b, i + 1, d);
    }
}

/// The keys, in order.
spec fn record_keys() -> Seq<Seq<char>> {
    seq!["byte_size"@, "data_offsets"@, "dtype"@, "labels"@, "name"@, "shape"@, "source_shard"@]
}

proof fn lemma_record_keys()
    ensures
        text::increasing(record_keys()),
{
    text::lemma_less_total_order();
    reveal_strlit("byte_size");
    reveal_strlit("data_offsets");
    reveal_strlit("dtype");
    reveal_strlit("labels");
    reveal_strlit("name");
    reveal_strlit("shape");
    reveal_strlit("source_shard");
    lemma_less_at("byte_size"@, "data_offsets"@, 0);
    lemma_less_at("data_offsets"@, "dtype"@, 1);
    lemma_less_at("dtype"@, "labels"@, 0);
    lemma_less_at("labels"@, "name"@, 0);
    lemma_less_at("name"@, "shape"@, 0);
    lemma_less_at("shape"@, "source_shard"@, 1);
}

/// The keys, in order.
spec fn router_keys() -> Seq<Seq<char>> {
    seq!["layer_hint"@, "name"@, "reasons"@, "score"@, "shape"@, "source_shard"@]
}

proof fn lemma_router_keys()
    ensures
        text::increasing(router_keys()),
{
    text::lemma_less_total_order();
    reveal_strlit("layer_hint");
    reveal_strlit("name");
    reveal_strlit("reasons");
    reveal_strlit("score");
    reveal_strlit("shape");
    reveal_strlit("source_shard");
    lemma_less_at("layer_hint"@, "name"@, 0);
    lemma_less_at("name"@, "reasons"@, 0);
    lemma_less_at("reasons"@, "score"@, 0);
    lemma_less_at("score"@, "shape"@, 1);
    lemma_less_at("shape"@, "source_shard"@, 1);
}

/// The keys, in order.
spec fn group_keys() -> Seq<Seq<char>> {
    seq!["expert_indices"@, "group_key"@, "layer_hint"@, "source_shards"@, "tensor_names"@, "weight_kinds"@]
}

proof fn lemma_group_keys()
    ensures
        text::increasing(group_keys()),
{
    text::lemma_less_total_order();
    reveal_strlit("expert_indices");
    reveal_strlit("group_key");
    reveal_strlit("layer_hint");
    reveal_strlit("source_shards");
    reveal_strlit("tensor_names");
    reveal_strlit("weight_kinds");
    lemma_less_at("expert_indices"@, "group_key"@, 0);
    lemma_less_at("group_key"@, "layer_hint"@, 0);
    lemma_less_at("layer_hint"@, "source_shards"@, 0);
    lemma_less_at("source_shards"@, "tensor_names"@, 0);
    lemma_less_at("tensor_names"@, "weight_kinds"@, 0);
}

/// The keys, in order.
spec fn summary_keys() -> Seq<Seq<char>> {
    seq!["detected_layout_family"@, "expert_groups"@, "expert_tensors"@, "router_candidates"@, "router_tensors"@]
}

proof fn lemma_summary_keys()
    ensures
        text::increasing(summary_keys()),
{
    text::lemma_less_total_order();
    reveal_strlit("detected_layout_family");
    reveal_strlit("expert_groups");
    reveal_strlit("expert_tensors");
    reveal_strlit("router_candidates");
    reveal_strlit("router_tensors");
    lemma_less_at("detected_layout_family"@, "expert_groups"@, 0);
    lemma_less_at("expert_groups"@, "expert_tensors"@, 7);
    lemma_less_at("expert_tensors"@, "router_candidates"@, 0);
    lemma_less_at("router_candidates"@, "router_tensors"@, 7);
}

/// The keys, in order.
spec fn source_keys() -> Seq<Seq<char>> {
    seq!["index_file"@, "input_kind"@, "metadata"@, "shard_count"@, "tensor_count"@]
}

proof fn lemma_source_keys()
    ensures
        text::increasing(source_keys()),
{
    text::lemma_less_total_order();
    reveal_strlit("index_file");
    reveal_strlit("input_kind");
    reveal_strlit("metadata");
    reveal_strlit("shard_count");
    reveal_strlit("tensor_count");
    lemma_less_at("index_file"@, "input_kind"@, 2);
    lemma_less_at("input_kind"@, "metadata"@, 0);
    lemma_less_at("metadata"@, "shard_count"@, 0);
    lemma_less_at("shard_count"@, "tensor_count"@, 0);
}

/// The keys, in order.
spec fn manifest_keys() -> Seq<Seq<char>> {
    seq!["candidates"@, "checkpoint"@, "format"@, "manifest_version"@, "tensors"@]
}

proof fn lemma_manifest_keys()
    ensures
        text::increasing(manifest_keys()),
{
    text::lemma_less_total_order();
    reveal_strlit("candidates");
    reveal_strlit("checkpoint");
    reveal_strlit("format");
    reveal_strlit("manifest_version");
    reveal_strlit("tensors");
    lemma_less_at("candidates"@, "checkpoint"@, 1);
    lemma_less_at("checkpoint"@, "format"@, 0);
    lemma_less_at("format"@, "manifest_version"@, 0);
    lemma_less_at("manifest_version"@, "tensors"@, 0);
}

proof fn lemma_record_tidy(t: RecordView)
    ensures
        tidy(record_json(t), 2),
{
    let entries = record_json(t)->Object_0;
    lemma_record_keys();
    assert(json::entry_keys(entries) =~= record_keys());
    lemma_tidy_sizes(seq![t.start, t.end]);
    lemma_tidy_texts(t.labels);
    lemma_tidy_sizes(t.shape);
    lemma_tidy_object(entries, 1);
}

proof fn lemma_router_tidy(c: RouterView)
    ensures
        tidy(router_json(c), 2),
{
    let entries = router_json(c)->Object_0;
    lemma_router_keys();
    assert(json::entry_keys(entries) =~= router_keys());
    lemma_tidy_texts(c.reasons);
    lemma_tidy_sizes(c.shape);
    lemma_tidy_object(entries, 1);
}

proof fn lemma_group_tidy(g: GroupView)
    ensures
        tidy(group_json(g), 2),
{
    let entries = group_json(g)->Object_0;
    lemma_group_keys();
    assert(json::entry_keys(entries) =~= group_keys());
    lemma_tidy_sizes(g.expert_indices);
    lemma_tidy_texts(g.source_shards);
    lemma_tidy_texts(g.tensor_names);
    lemma_tidy_texts(g.weight_kinds);
    lemma_tidy_object(entries, 1);
}

proof fn lemma_summary_tidy(c: SummaryView)
    ensures
        tidy(summary_json(c), 4),
{
    let entries = summary_json(c)->Object_0;
    lemma_summary_keys();
    assert(json::entry_keys(entries) =~= summary_keys());
    assert forall|i: int| 0 <= i < c.expert_groups.len() implies tidy(
        #[trigger] group_array(c.expert_groups)->Array_0[i],
        2,
    ) by {
        lemma_group_tidy(c.expert_groups[i]);
    }
    lemma_tidy_array(group_array(c.expert_groups)->Array_0, 2);
    assert forall|i: int| 0 <= i < c.router_candidates.len() implies tidy(
        #[trigger] router_array(c.router_candidates)->Array_0[i],
        2,
    ) by {
        lemma_router_tidy(c.router_candidates[i]);
    }
    lemma_tidy_array(router_array(c.router_candidates)->Array_0, 2);
    lemma_tidy_texts(c.expert_tensors);
    lemma_tidy_texts(c.router_tensors);
    lemma_tidy_object(entries, 3);
}

proof fn lemma_source_tidy(c: SourceView, keys: Seq<Seq<char>>)
    requires
        ordered::is_sorted_keys(keys, c.metadata),
    ensures
        tidy(source_json(c), 2),
{
    let entries = source_json(c)->Object_0;
    lemma_source_keys();
    assert(json::entry_keys(entries) =~= source_keys());
    ordered::lemma_sorted_keys(keys, c.metadata);
    let table = table_json(c.metadata)->Object_0;
    assert(json::entry_keys(table) =~= keys);
    lemma_tidy_object(table, 0);
    lemma_tidy_object(entries, 1);
}

proof fn lemma_manifest_tidy(m: ManifestView, keys: Seq<Seq<char>>)
    requires
        ordered::is_sorted_keys(keys, m.checkpoint.metadata),
    ensures
        tidy(manifest_json(m), 5),
{
    let entries = manifest_json(m)->Object_0;
    lemma_manifest_keys();
    assert(json::entry_keys(entries) =~= manifest_keys());
    lemma_summary_tidy(m.candidates);
    lemma_source_tidy(m.checkpoint, keys);
    assert forall|i: int| 0 <= i < m.tensors.len() implies tidy(
        #[trigger] record_array(m.tensors)->Array_0[i],
        2,
    ) by {
        lemma_record_tidy(m.tensors[i]);
    }
    lemma_tidy_array(record_array(m.tensors)->Array_0, 2);
    lemma_tidy_object(entries, 4);
}

impl SafetensorsManifest {
    /// Pretty-print this manifest as deterministic JSON, which reads back as it is.
    pub fn to_pretty_json(&self) -> (r: String)
        ensures
            r@ == json::pretty(manifest_json(self@), 0) + "\n"@,
            forall|path: Seq<char>| #[trigger]
                json_parse::parsed(r@, path) == Ok::<Json, ErrorView>(manifest_json(self@)),
    {
        let value = self.to_json_value();
        let r = encode_pretty(&value);
        assert forall|path: Seq<char>| #[trigger] json_parse::parsed(r@, path) == Ok::<
            Json,
            ErrorView,
        >(manifest_json(self@)) by {
            json_laws::law_pretty_is_read_back(manifest_json(self@), path);
        }
        r
    }

    /// This manifest as a JSON value.
    pub fn to_json_value(&self) -> (r: JsonValue)
        ensures
            r.model() == manifest_json(self@),
            r.well_formed(),
            json::depth(r.model()) <= 5,
            json_laws::canonical(r.model()),
    {
        let entries: Vec<(String, JsonValue)> = vec![
            entry("candidates", candidates_json(&self.candidates)),
            entry("checkpoint", checkpoint_json(&self.checkpoint)),
            entry("format", string(self.format)),
            entry("manifest_version", number(self.manifest_version as u64)),
            entry("tensors", records(&self.tensors)),
        ];
        let r = JsonValue::Object(entries);
        proof {
            json::lemma_model(r);
            assert(json::entry_models(entries@) =~= manifest_json(self@)->Object_0);
            lemma_manifest_tidy(
                self@,
                ordered::keys_of(self.checkpoint.metadata.entries()),
            );
            json_laws::lemma_canonical_keys(r.model());
        }
        r
    }
}

// ---------------------------------------------------------------------------
// What a manifest says in JSON
// ---------------------------------------------------------------------------
/// The object has the value under the key.
pub open spec fn has(j: Json, key: Seq<char>, value: Json) -> bool {
    j is Object && exists|i: int| 0 <= i < j->Object_0.len() && #[trigger] j->Object_0[i] == (key, value)
}

/// The value is an array of the texts.
pub open spec fn is_texts(j: Json, texts: Seq<Seq<char>>) -> bool {
    &&& j is Array
    &&& j->Array_0.len() == texts.len()
    &&& forall|i: int| 0 <= i < texts.len() ==> #[trigger] j->Array_0[i] == Json::Text(texts[i])
}

/// The value is an array of the numbers.
pub open spec fn is_sizes(j: Json, sizes: Seq<usize>) -> bool {
    &&& j is Array
    &&& j->Array_0.len() == sizes.len()
    &&& forall|i: int|
        0 <= i < sizes.len() ==> #[trigger] j->Array_0[i] == Json::U64(sizes[i] as u64)
}

/// The object says all that a tensor record does.
pub open spec fn tells_record(j: Json, t: RecordView) -> bool {
    &&& j is Object && j->Object_0.len() == 7
    &&& has(j, "name"@, Json::Text(t.name))
    &&& has(j, "dtype"@, Json::Text(t.dtype))
    &&& has(j, "byte_size"@, Json::U64(t.byte_size as u64))
    &&& has(j, "source_shard"@, Json::Text(t.source_shard))
    &&& exists|v: Json| #[trigger] has(j, "shape"@, v) && is_sizes(v, t.shape)
    &&& exists|v: Json| #[trigger] has(j, "data_offsets"@, v) && is_sizes(v, seq![t.start, t.end])
    &&& exists|v: Json| #[trigger] has(j, "labels"@, v) && is_texts(v, t.labels)
}

/// The object says all that a router candidate does.
pub open spec fn tells_router(j: Json, c: RouterView) -> bool {
    &&& j is Object && j->Object_0.len() == 6
    &&& has(j, "name"@, Json::Text(c.name))
    &&& has(j, "score"@, Json::U64(c.score as u64))
    &&& has(j, "source_shard"@, Json::Text(c.source_shard))
    &&& c.layer_hint is None ==> has(j, "layer_hint"@, Json::Null)
    &&& c.layer_hint is Some ==> has(j, "layer_hint"@, Json::U64(c.layer_hint->Some_0 as u64))
    &&& exists|v: Json| #[trigger] has(j, "shape"@, v) && is_sizes(v, c.shape)
    &&& exists|v: Json| #[trigger] has(j, "reasons"@, v) && is_texts(v, c.reasons)
}

/// The object says all that an expert group does.
pub open spec fn tells_group(j: Json, g: GroupView) -> bool {
    &&& j is Object && j->Object_0.len() == 6
    &&& has(j, "group_key"@, Json::Text(g.group_key))
    &&& g.layer_hint is None ==> has(j, "layer_hint"@, Json::Null)
    &&& g.layer_hint is Some ==> has(j, "layer_hint"@, Json::U64(g.layer_hint->Some_0 as u64))
    &&& exists|v: Json| #[trigger] has(j, "expert_indices"@, v) && is_sizes(v, g.expert_indices)
    &&& exists|v: Json| #[trigger] has(j, "source_shards"@, v) && is_texts(v, g.source_shards)
    &&& exists|v: Json| #[trigger] has(j, "tensor_names"@, v) && is_texts(v, g.tensor_names)
    &&& exists|v: Json| #[trigger] has(j, "weight_kinds"@, v) && is_texts(v, g.weight_kinds)
}

proof fn lemma_has(j: Json, i: int)
    requires
        j is Object,
        0 <= i < j->Object_0.len(),
    ensures
        has(j, j->Object_0[i].0, j->Object_0[i].1),
{
    let e = j->Object_0[i];
    assert(j->Object_0[i] == (e.0, e.1));
}

/// A tensor record is written with all its fields under their names.
pub proof fn law_records_are_written_in_full(t: RecordView)
    ensures
        tells_record(record_json(t), t),
{
    let j = record_json(t);
    lemma_has(j, 0);
    lemma_has(j, 1);
    lemma_has(j, 2);
    lemma_has(j, 3);
    lemma_has(j, 4);
    lemma_has(j, 5);
    lemma_has(j, 6);
    assert(is_sizes(j->Object_0[1].1, seq![t.start, t.end]));
    assert(is_texts(j->Object_0[3].1, t.labels));
    assert(is_sizes(j->Object_0[5].1, t.shape));
}

/// A router candidate is written with all its fields under their names.
pub proof fn law_routers_are_written_in_full(c: RouterView)
    ensures
        tells_router(router_json(c), c),
{
    let j = router_json(c);
    lemma_has(j, 0);
    lemma_has(j, 1);
    lemma_has(j, 2);
    lemma_has(j, 3);
    lemma_has(j, 4);
    lemma_has(j, 5);
    assert(is_texts(j->Object_0[2].1, c.reasons));
    assert(is_sizes(j->Object_0[4].1, c.shape));
}

/// An expert group is written with all its fields under their names.
pub proof fn law_groups_are_written_in_full(g: GroupView)
    ensures
        tells_group(group_json(g), g),
{
    let j = group_json(g);
    lemma_has(j, 0);
    lemma_has(j, 1);
    lemma_has(j, 2);
    lemma_has(j, 3);
    lemma_has(j, 4);
    lemma_has(j, 5);
    assert(is_sizes(j->Object_0[0].1, g.expert_indices));
    assert(is_texts(j->Object_0[3].1, g.source_shards));
    assert(is_texts(j->Object_0[4].1, g.tensor_names));
    assert(is_texts(j->Object_0[5].1, g.weight_kinds));
}

/// The object says all that a candidate summary does.
pub open spec fn tells_summary(j: Json, c: SummaryView) -> bool {
    &&& j is Object && j->Object_0.len() == 5
    &&& c.family is None ==> has(j, "detected_layout_family"@, Json::Null)
    &&& c.family is Some ==> has(j, "detected_layout_family"@, Json::Text(c.family->Some_0))
    &&& exists|v: Json| #[trigger]
        has(j, "expert_groups"@, v) && v is Array && v->Array_0.len() == c.expert_groups.len()
            && forall|i: int|
            0 <= i < c.expert_groups.len() ==> tells_group(
                #[trigger] v->Array_0[i],
                c.expert_groups[i],
            )
    &&& exists|v: Json| #[trigger]
        has(j, "router_candidates"@, v) && v is Array && v->Array_0.len()
            == c.router_candidates.len() && forall|i: int|
            0 <= i < c.router_candidates.len() ==> tells_router(
                #[trigger] v->Array_0[i],
                c.router_candidates[i],
            )
    &&& exists|v: Json| #[trigger] has(j, "expert_tensors"@, v) && is_texts(v, c.expert_tensors)
    &&& exists|v: Json| #[trigger] has(j, "router_tensors"@, v) && is_texts(v, c.router_tensors)
}

/// A candidate summary is written with all its fields under their names.
pub proof fn law_summaries_are_written_in_full(c: SummaryView)
    ensures
        tells_summary(summary_json(c), c),
{
    let j = summary_json(c);
    lemma_has(j, 0);
    lemma_has(j, 1);
    lemma_has(j, 2);
    lemma_has(j, 3);
    lemma_has(j, 4);
    let groups = j->Object_0[1].1;
    let routers = j->Object_0[3].1;
    assert forall|i: int| 0 <= i < c.expert_groups.len() implies tells_group(
        #[trigger] groups->Array_0[i],
        c.expert_groups[i],
    ) by {
        law_groups_are_written_in_full(c.expert_groups[i]);
    }
    assert forall|i: int| 0 <= i < c.router_candidates.len() implies tells_router(
        #[trigger] routers->Array_0[i],
        c.router_candidates[i],
    ) by {
        law_routers_are_written_in_full(c.router_candidates[i]);
    }
    assert(is_texts(j->Object_0[2].1, c.expert_tensors));
    assert(is_texts(j->Object_0[4].1, c.router_tensors));
}

/// The object says all that a checkpoint source does.
pub open spec fn tells_source(j: Json, c: SourceView) -> bool {
    &&& j is Object && j->Object_0.len() == 5
    &&& c.index_file is None ==> has(j, "index_file"@, Json::Null)
    &&& c.index_file is Some ==> has(j, "index_file"@, Json::Text(c.index_file->Some_0))
    &&& has(j, "input_kind"@, Json::Text(c.input_kind))
    &&& has(j, "shard_count"@, Json::U64(c.shard_count as u64))
    &&& has(j, "tensor_count"@, Json::U64(c.tensor_count as u64))
    &&& exists|v: Json| #[trigger]
        has(j, "metadata"@, v) && forall|key: Seq<char>| #[trigger]
            c.metadata.contains_key(key) ==> has(v, key, Json::Text(c.metadata[key]))
}

/// A checkpoint source is written with all its fields under their names, and the metadata
/// under its keys.
pub proof fn law_sources_are_written_in_full(c: SourceView, keys: Seq<Seq<char>>)
    requires
        ordered::is_sorted_keys(keys, c.metadata),
    ensures
        tells_source(source_json(c), c),
{
    let j = source_json(c);
    lemma_has(j, 0);
    lemma_has(j, 1);
    lemma_has(j, 2);
    lemma_has(j, 3);
    lemma_has(j, 4);
    ordered::lemma_sorted_keys(keys, c.metadata);
    let table = j->Object_0[2].1;
    assert forall|key: Seq<char>| #[trigger] c.metadata.contains_key(key) implies has(
        table,
        key,
        Json::Text(c.metadata[key]),
    ) by {
        assert(keys.contains(key));
        let i = keys.index_of(key);
        lemma_has(table, i);
    }
}

/// A manifest is written with all its parts under their names, and every tensor record in
/// its place.
pub proof fn law_manifests_are_written_in_full(m: ManifestView, keys: Seq<Seq<char>>)
    requires
        ordered::is_sorted_keys(keys, m.checkpoint.metadata),
    ensures
        ({
            let j = manifest_json(m);
            &&& j is Object && j->Object_0.len() == 5
            &&& has(j, "manifest_version"@, Json::U64(m.manifest_version as u64))
            &&& has(j, "format"@, Json::Text(m.format))
            &&& exists|v: Json| #[trigger]
                has(j, "candidates"@, v) && tells_summary(v, m.candidates)
            &&& exists|v: Json| #[trigger]
                has(j, "checkpoint"@, v) && tells_source(v, m.checkpoint)
            &&& exists|v: Json| #[trigger]
                has(j, "tensors"@, v) && v is Array && v->Array_0.len() == m.tensors.len()
                    && forall|i: int|
                    0 <= i < m.tensors.len() ==> tells_record(
                        #[trigger] v->Array_0[i],
                        m.tensors[i],
                    )
        }),
{
    let j = manifest_json(m);
    lemma_has(j, 0);
    lemma_has(j, 1);
    lemma_has(j, 2);
    lemma_has(j, 3);
    lemma_has(j, 4);
    law_summaries_are_written_in_full(m.candidates);
    law_sources_are_written_in_full(m.checkpoint, keys);
    let tensors = j->Object_0[4].1;
    assert forall|i: int| 0 <= i < m.tensors.len() implies tells_record(
        #[trigger] tensors->Array_0[i],
        m.tensors[i],
    ) by {
        law_records_are_written_in_full(m.tensors[i]);
    }
}

} // verus!
