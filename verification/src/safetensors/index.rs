//! Sharded checkpoints with a Hugging Face index file.

use crate::error;
use crate::error::{ErrorView, ParserError};
use crate::ordered;
use crate::ordered::StringMap;
use crate::safetensors::access;
use crate::safetensors::access::{find, read_string_table, stringify_metadata};
use crate::safetensors::header;
use crate::safetensors::header::{InspectionView, ShardInspection};
use crate::safetensors::json;
use crate::safetensors::json::{Json, JsonValue};
use crate::safetensors::manifest;
use crate::safetensors::manifest::{
    build_manifest, ManifestView, SafetensorsManifest, ShardView,
};
use crate::safetensors::metadata::{merge_shard_metadata, INDEX_UNREFERENCED_SHARDS_KEY};
use crate::safetensors::ownership;
use crate::safetensors::ownership::{reject_misplaced, Claim, ClaimView};
use crate::safetensors::record;
use crate::safetensors::record::{RecordView, SafetensorsTensorRecord};
use crate::safetensors::validate;
use crate::safetensors::validate::model_load;
use crate::sorting;
use crate::sorting::{KeyView, SortKey};
use crate::text;
use vstd::prelude::*;

verus! {

/// Largest index file that is read.
pub const MAX_INDEX_BYTES: u64 = 67_108_864;

// ---------------------------------------------------------------------------
// The index file
// ---------------------------------------------------------------------------
/// The size of an index file is within the limit.
pub open spec fn index_size(path: Seq<char>, len: u64) -> Result<(), ErrorView> {
    if len > MAX_INDEX_BYTES {
        Err(
            validate::load_error(
                path,
                "Safetensors index is "@ + text::decimal(len as nat) + " bytes, exceeding limit "@
                    + text::decimal(MAX_INDEX_BYTES as nat),
            ),
        )
    } else {
        Ok(())
    }
}

/// Refuse an index file over the limit, before it is read.
pub fn check_index_size(path: &str, len: u64) -> (r: Result<(), ParserError>)
    ensures
        crate::gguf::limits::outcome(r) == index_size(path@, len),
{
    if len > MAX_INDEX_BYTES {
        return Err(
            model_load(
                path,
                text::concat4(
                    "Safetensors index is ",
                    text::decimal_string(len).as_str(),
                    " bytes, exceeding limit ",
                    text::decimal_string(MAX_INDEX_BYTES).as_str(),
                ),
            ),
        );
    }
    Ok(())
}

/// An index file: its metadata as flat strings, and the shard of each tensor.
#[derive(Debug, Clone, PartialEq, Eq)]
pub struct RawIndex {
    /// The metadata, each key behind `index:`.
    pub metadata: StringMap<String>,
    /// The shard of each tensor.
    pub weight_map: StringMap<String>,
}

/// What a [`RawIndex`] says.
#[verifier::ext_equal]
pub struct IndexView {
    pub metadata: Map<Seq<char>, Seq<char>>,
    pub weight_map: Map<Seq<char>, Seq<char>>,
}

impl View for RawIndex {
    type V = IndexView;

    open spec fn view(&self) -> IndexView {
        IndexView {
            metadata: ordered::value_views(self.metadata@),
            weight_map: ordered::value_views(self.weight_map@),
        }
    }
}

/// The metadata entries of an index.
pub open spec fn index_metadata(path: Seq<char>, root: Seq<(Seq<char>, Json)>) -> Result<
    Seq<(Seq<char>, Json)>,
    ErrorView,
> {
    match access::field(root, "metadata"@) {
        None => Ok(Seq::empty()),
        Some(Json::Object(entries)) => Ok(entries),
        Some(_) => Err(
            validate::load_error(path, "Safetensors index metadata must be a JSON object"@),
        ),
    }
}

/// The shards of the tensors in an index.
pub open spec fn index_weights(path: Seq<char>, root: Seq<(Seq<char>, Json)>) -> Result<
    Map<Seq<char>, Seq<char>>,
    ErrorView,
> {
    match access::field(root, "weight_map"@) {
        None => Err(validate::load_error(path, "Safetensors index is missing weight_map"@)),
        Some(Json::Object(entries)) => match access::first_other(entries, 0) {
            Some(i) => Err(
                validate::load_error(
                    path,
                    "index weight_map entry '"@ + entries[i].0 + "' must be a string shard path"@,
                ),
            ),
            None => Ok(access::string_table(entries, entries.len())),
        },
        Some(_) => Err(
            validate::load_error(path, "Safetensors index weight_map must be an object"@),
        ),
    }
}

/// What an index file says, with the numbers in its metadata that are no integers by the
/// texts that `numbers` gives.
pub open spec fn raw_index(
    path: Seq<char>,
    value: Json,
    numbers: Map<Seq<char>, Seq<char>>,
) -> Result<IndexView, ErrorView> {
    match value {
        Json::Object(root) => match index_metadata(path, root) {
            Err(e) => Err(e),
            Ok(entries) => match index_weights(path, root) {
                Err(e) => Err(e),
                Ok(weight_map) => Ok(
                    IndexView {
                        metadata: access::flat_table(
                            "index"@,
                            entries,
                            numbers,
                            entries.len(),
                        ).remove(INDEX_UNREFERENCED_SHARDS_KEY@),
                        weight_map,
                    },
                ),
            },
        },
        _ => Err(validate::load_error(path, "Safetensors index must be a JSON object"@)),
    }
}

fn parse_weight_map(path: &str, root: &Vec<(String, JsonValue)>) -> (r: Result<
    StringMap<String>,
    ParserError,
>)
    ensures
        access::table_outcome(r) == index_weights(path@, json::entry_models(root@)),
{
    let entries = match find(root, "weight_map") {
        None => {
            return Err(model_load(path, "Safetensors index is missing weight_map".to_owned()));
        },
        Some(value) => match value.as_object() {
            Some(entries) => entries,
            None => {
                return Err(
                    model_load(path, "Safetensors index weight_map must be an object".to_owned()),
                );
            },
        },
    };
    match read_string_table(entries) {
        Ok(table) => Ok(table),
        Err(i) => Err(
            model_load(
                path,
                text::concat3(
                    "index weight_map entry '",
                    entries[i].0.as_str(),
                    "' must be a string shard path",
                ),
            ),
        ),
    }
}

/// Read the metadata and the weight map of an index.
///
/// A metadata entry under the reserved key for unreferenced shards is dropped. `numbers`
/// has the text of each number that is no integer, under its token.
pub fn parse_raw_index(path: &str, value: &JsonValue, numbers: &StringMap<String>) -> (r: Result<
    RawIndex,
    ParserError,
>)
    ensures
        error::viewed(r) == raw_index(path@, value.model(), ordered::value_views(numbers@)),
{
    let root = match value.as_object() {
        Some(root) => root,
        None => {
            return Err(model_load(path, "Safetensors index must be a JSON object".to_owned()));
        },
    };
    let none: Vec<(String, JsonValue)> = Vec::new();
    assert(json::entry_models(none@) =~= Seq::empty());
    let entries: &Vec<(String, JsonValue)> = match find(root, "metadata") {
        None => &none,
        Some(value) => match value.as_object() {
            Some(entries) => entries,
            None => {
                return Err(
                    model_load(path, "Safetensors index metadata must be a JSON object".to_owned()),
                );
            },
        },
    };
    let weight_map = match parse_weight_map(path, root) {
        Ok(map) => map,
        Err(e) => {
            return Err(e);
        },
    };
    let mut metadata = stringify_metadata("index", entries, numbers);
    let ghost before = metadata@;
    metadata.remove(INDEX_UNREFERENCED_SHARDS_KEY);
    assert(ordered::value_views(metadata@) =~= ordered::value_views(before).remove(
        INDEX_UNREFERENCED_SHARDS_KEY@,
    ));
    Ok(RawIndex { metadata, weight_map })
}

// ---------------------------------------------------------------------------
// Planning
// ---------------------------------------------------------------------------
/// What paths are ordered by: component by component, so that the separator counts as
/// less than any character of a component.
pub open spec fn path_key(path: Seq<char>) -> KeyView {
    KeyView {
        first: 0,
        second: 0,
        name: path.map_values(
            |c: char|
                if c == '/' {
                    '\0'
                } else {
                    c
                },
        ),
        shard: path,
    }
}

/// The order of paths.
pub open spec fn path_less(a: Seq<char>, b: Seq<char>) -> bool {
    sorting::key_less(path_key(a), path_key(b))
}

/// A tensor and the shard that the index maps it to.
pub struct Assignment {
    pub tensor: String,
    pub shard: String,
}

/// The index maps the tensor to the shard.
pub open spec fn assigns(
    assignments: Seq<Assignment>,
    tensor: Seq<char>,
    shard: Seq<char>,
) -> bool {
    exists|i: int|
        0 <= i < assignments.len() && (#[trigger] assignments[i]).tensor@ == tensor
            && assignments[i].shard@ == shard
}

/// A shard of an index, and the tensors that are expected in it.
pub struct PlannedShard {
    /// Relative shard path.
    pub source_shard: String,
    /// The tensors that the index maps to the shard.
    pub expected: StringMap<()>,
}

/// The plan has each shard of the index once, in the order of the paths, and with it the
/// tensors that the index maps to it.
pub open spec fn plans(plan: Seq<PlannedShard>, assignments: Seq<Assignment>) -> bool {
    &&& forall|i: int, j: int|
        0 <= i < j < plan.len() ==> path_less(
            (#[trigger] plan[i]).source_shard@,
            (#[trigger] plan[j]).source_shard@,
        )
    &&& forall|i: int, tensor: Seq<char>|
        0 <= i < plan.len() ==> (#[trigger] plan[i].expected@.contains_key(tensor) <==> assigns(
            assignments,
            tensor,
            plan[i].source_shard@,
        ))
    &&& forall|k: int|
        0 <= k < assignments.len() ==> exists|i: int|
            0 <= i < plan.len() && (#[trigger] plan[i]).source_shard@ == (
            #[trigger] assignments[k]).shard@
    &&& forall|i: int|
        0 <= i < plan.len() ==> exists|k: int|
            0 <= k < assignments.len() && (#[trigger] assignments[k]).shard@ == (
            #[trigger] plan[i]).source_shard@
}

fn path_sort_key(path: &String) -> (r: SortKey)
    ensures
        r@ == path_key(path@),
{
    let chars = text::chars_of(path.as_str());
    let mut name = String::new();
    let ghost wanted = path_key(path@).name;
    let mut i: usize = 0;
    assert(name@ =~= wanted.take(0));
    while i < chars.len()
        invariant
            i <= chars@.len(),
            chars@ == path@,
            wanted == path_key(path@).name,
            name@ =~= wanted.take(i as int),
        decreases chars@.len() - i,
    {
        let c = chars[i];
        if c == '/' {
            name.push('\0');
        } else {
            name.push(c);
        }
        i += 1;
    }
    assert(name@ =~= wanted);
    SortKey { first: 0, second: 0, name, shard: path.clone() }
}

fn expected_in(assignments: &Vec<Assignment>, shard: &str) -> (r: StringMap<()>)
    ensures
        forall|tensor: Seq<char>| #[trigger]
            r@.contains_key(tensor) <==> assigns(assignments@, tensor, shard@),
{
    let mut r: StringMap<()> = StringMap::new();
    let mut i: usize = 0;
    while i < assignments.len()
        invariant
            i <= assignments@.len(),
            forall|tensor: Seq<char>| #[trigger]
                r@.contains_key(tensor) <==> exists|k: int|
                    0 <= k < i && (#[trigger] assignments@[k]).tensor@ == tensor
                        && assignments@[k].shard@ == shard@,
        decreases assignments@.len() - i,
    {
        let ghost before = r@;
        if text::equal(assignments[i].shard.as_str(), shard) {
            r.insert(assignments[i].tensor.clone(), ());
        }
        assert forall|tensor: Seq<char>| #[trigger] r@.contains_key(tensor) <==> exists|k: int|
            0 <= k < i + 1 && (#[trigger] assignments@[k]).tensor@ == tensor
                && assignments@[k].shard@ == shard@ by {
            if r@.contains_key(tensor) {
                if before.contains_key(tensor) {
                    let k = choose|k: int|
                        0 <= k < i && (#[trigger] assignments@[k]).tensor@ == tensor
                            && assignments@[k].shard@ == shard@;
                    assert(assignments@[k].tensor@ == tensor);
                } else {
                    assert(assignments@[i as int].tensor@ == tensor);
                }
            }
            if exists|k: int|
                0 <= k < i + 1 && (#[trigger] assignments@[k]).tensor@ == tensor
                    && assignments@[k].shard@ == shard@ {
                let k = choose|k: int|
                    0 <= k < i + 1 && (#[trigger] assignments@[k]).tensor@ == tensor
                        && assignments@[k].shard@ == shard@;
                if k < i {
                    assert(before.contains_key(tensor));
                }
            }
        }
        i += 1;
    }
    r
}

/// Group the tensors of an index by their shards.
pub fn plan_shards(assignments: &Vec<Assignment>) -> (r: Vec<PlannedShard>)
    ensures
        plans(r@, assignments@),
{
    let ghost wanted = Seq::new(
        assignments@.len(),
        |i: int| path_key(assignments@[i].shard@),
    );
    let mut keys: Vec<SortKey> = Vec::new();
    let mut i: usize = 0;
    while i < assignments.len()
        invariant
            i <= assignments@.len(),
            wanted == Seq::new(assignments@.len(), |i: int| path_key(assignments@[i].shard@)),
            sorting::key_views(keys@) =~= wanted.take(i as int),
        decreases assignments@.len() - i,
    {
        let ghost before = sorting::key_views(keys@);
        let key = path_sort_key(&assignments[i].shard);
        assert(key@ == wanted[i as int]);
        keys.push(key);
        assert(sorting::key_views(keys@) =~= before.push(key@));
        i += 1;
    }
    assert(sorting::key_views(keys@) =~= wanted);
    let order = sorting::sort_positions(&keys);
    let ghost positions = sorting::positions(order@);
    let mut plan: Vec<PlannedShard> = Vec::new();
    let mut k: usize = 0;
    while k < order.len()
        invariant
            k <= order@.len(),
            order@.len() == assignments@.len(),
            positions == sorting::positions(order@),
            wanted == Seq::new(assignments@.len(), |i: int| path_key(assignments@[i].shard@)),
            sorting::is_stable_order(wanted, positions),
            forall|j: int| 0 <= j < order@.len() ==> #[trigger] order@[j] < assignments@.len(),
            plan@.len() == 0 <==> k == 0,
            k > 0 ==> plan@.last().source_shard@ == assignments@[positions[k - 1]].shard@,
            forall|i: int, j: int|
                0 <= i < j < plan@.len() ==> path_less(
                    (#[trigger] plan@[i]).source_shard@,
                    (#[trigger] plan@[j]).source_shard@,
                ),
            forall|i: int, tensor: Seq<char>|
                0 <= i < plan@.len() ==> (#[trigger] plan@[i].expected@.contains_key(tensor)
                    <==> assigns(assignments@, tensor, plan@[i].source_shard@)),
            forall|j: int|
                0 <= j < k ==> exists|i: int|
                    0 <= i < plan@.len() && (#[trigger] plan@[i]).source_shard@
                        == assignments@[#[trigger] positions[j]].shard@,
            forall|i: int|
                0 <= i < plan@.len() ==> exists|k: int|
                    0 <= k < assignments@.len() && (#[trigger] assignments@[k]).shard@ == (
                    #[trigger] plan@[i]).source_shard@,
        decreases order@.len() - k,
    {
        let at: usize = order[k];
        assert(positions[k as int] == at);
        let fresh = if plan.len() == 0 {
            true
        } else {
            !text::equal(
                plan[plan.len() - 1].source_shard.as_str(),
                assignments[at].shard.as_str(),
            )
        };
        let ghost before = plan@;
        proof {
            text::lemma_less_total_order();
            if k > 0 {
                assert(sorting::before(wanted, positions[k - 1], positions[k as int]));
            }
        }
        if fresh {
            let source_shard = assignments[at].shard.clone();
            let expected = expected_in(assignments, source_shard.as_str());
            plan.push(PlannedShard { source_shard, expected });
            assert forall|i: int, j: int| 0 <= i < j < plan@.len() implies path_less(
                (#[trigger] plan@[i]).source_shard@,
                (#[trigger] plan@[j]).source_shard@,
            ) by {
                if j == before.len() {
                    let last = before.last().source_shard@;
                    assert(wanted[positions[k - 1]] == path_key(last));
                    assert(wanted[positions[k as int]] == path_key(source_shard@));
                    assert(path_key(last).shard != path_key(source_shard@).shard);
                    assert(path_less(last, source_shard@));
                    if i < before.len() - 1 {
                        assert(path_less(before[i].source_shard@, before[before.len()
                            - 1].source_shard@));
                    }
                } else {
                    assert(path_less(before[i].source_shard@, before[j].source_shard@));
                }
            }
            assert forall|i: int| 0 <= i < plan@.len() implies exists|k: int|
                0 <= k < assignments@.len() && (#[trigger] assignments@[k]).shard@ == (
                #[trigger] plan@[i]).source_shard@ by {
                if i == before.len() {
                    assert(assignments@[at as int].shard@ == plan@[i].source_shard@);
                } else {
                    assert(plan@[i] == before[i]);
                }
            }
        }
        assert forall|j: int| 0 <= j < k + 1 implies exists|i: int|
            0 <= i < plan@.len() && (#[trigger] plan@[i]).source_shard@
                == assignments@[#[trigger] positions[j]].shard@ by {
            if j < k {
                let i = choose|i: int|
                    0 <= i < before.len() && (#[trigger] before[i]).source_shard@
                        == assignments@[positions[j]].shard@;
                assert(plan@[i] == before[i]);
            } else {
                assert(plan@[plan@.len() - 1].source_shard@ == assignments@[positions[j]].shard@);
            }
        }
        k += 1;
    }
    assert forall|a: int| 0 <= a < assignments@.len() implies exists|i: int|
        0 <= i < plan@.len() && (#[trigger] plan@[i]).source_shard@ == (
        #[trigger] assignments@[a]).shard@ by {
        assert(positions.contains(a));
        let j = positions.index_of(a);
        assert(positions[j] == a);
    }
    plan
}

/// The names that are not those of planned shards.
pub open spec fn unplanned(names: Seq<Seq<char>>, plan: Seq<Seq<char>>) -> Seq<Seq<char>>
    decreases names.len(),
{
    if names.len() == 0 {
        Seq::empty()
    } else if plan.contains(names.last()) {
        unplanned(names.drop_last(), plan)
    } else {
        unplanned(names.drop_last(), plan).push(names.last())
    }
}

/// The shards of a plan.
pub open spec fn planned_names(plan: Seq<PlannedShard>) -> Seq<Seq<char>> {
    Seq::new(plan.len(), |i: int| plan[i].source_shard@)
}

/// The shard files that the index does not name.
pub fn unreferenced_shards(files: &Vec<String>, plan: &Vec<PlannedShard>) -> (r: Vec<String>)
    ensures
        text::views(r@) == unplanned(text::views(files@), planned_names(plan@)),
{
    let ghost all = text::views(files@);
    let ghost planned = planned_names(plan@);
    let mut r: Vec<String> = Vec::new();
    let mut i: usize = 0;
    assert(text::views(r@) =~= Seq::empty());
    while i < files.len()
        invariant
            i <= files@.len(),
            all == text::views(files@),
            planned == planned_names(plan@),
            text::views(r@) == unplanned(all.take(i as int), planned),
        decreases files@.len() - i,
    {
        assert(all.take(i + 1).drop_last() =~= all.take(i as int));
        assert(all.take(i + 1).last() == files@[i as int]@);
        let mut named = false;
        let mut j: usize = 0;
        while j < plan.len()
            invariant
                j <= plan@.len(),
                i < files@.len(),
                planned == planned_names(plan@),
                named == exists|k: int| 0 <= k < j && #[trigger] planned[k] == files@[i as int]@,
            decreases plan@.len() - j,
        {
            assert(planned[j as int] == plan@[j as int].source_shard@);
            if text::equal(plan[j].source_shard.as_str(), files[i].as_str()) {
                named = true;
            }
            j += 1;
        }
        assert(named == planned.contains(files@[i as int]@));
        if !named {
            let ghost before = text::views(r@);
            let name = files[i].clone();
            r.push(name);
            assert(text::views(r@) =~= before.push(name@));
        }
        i += 1;
    }
    assert(all.take(all.len() as int) =~= all);
    r
}

/// The metadata value for unreferenced shards: none without such shards.
pub open spec fn unreferenced_value(names: Seq<Seq<char>>) -> Option<Seq<char>> {
    if names.len() == 0 {
        None
    } else {
        Some(json::compact(json::text_array(names)))
    }
}

/// Encode the list of unreferenced shards for the metadata.
pub fn encode_unreferenced_shards(names: Vec<String>) -> (r: Option<String>)
    ensures
        manifest::optional_text(r) == unreferenced_value(text::views(names@)),
{
    if names.len() == 0 {
        return None;
    }
    let value = json::string_array_value(&names);
    Some(json::encode_compact(&value))
}

// ---------------------------------------------------------------------------
// Shards of an index
// ---------------------------------------------------------------------------
/// A shard of an index that was inspected.
pub struct IndexedShard {
    /// Path of the shard, for messages.
    pub path: String,
    /// Relative shard path.
    pub source_shard: String,
    /// The tensors that the index maps to the shard.
    pub expected: StringMap<()>,
    /// What the shard declares.
    pub inspection: ShardInspection,
}

/// What an [`IndexedShard`] says.
pub struct IndexedView {
    pub path: Seq<char>,
    pub source_shard: Seq<char>,
    pub expected: Seq<Seq<char>>,
    pub inspection: InspectionView,
}

impl View for IndexedShard {
    type V = IndexedView;

    open spec fn view(&self) -> IndexedView {
        IndexedView {
            path: self.path@,
            source_shard: self.source_shard@,
            expected: ordered::keys_of(self.expected.entries()),
            inspection: self.inspection@,
        }
    }
}

/// What the shards say, in order.
pub open spec fn indexed_views(shards: Seq<IndexedShard>) -> Seq<IndexedView> {
    Seq::new(shards.len(), |i: int| shards[i]@)
}

/// The names as claims of a shard.
pub open spec fn name_claims(names: Seq<Seq<char>>, shard: Seq<char>) -> Seq<ClaimView> {
    Seq::new(names.len(), |i: int| ClaimView { name: names[i], shard })
}

/// The names of the tensors, in order.
pub open spec fn tensor_names(tensors: Seq<RecordView>) -> Seq<Seq<char>> {
    Seq::new(tensors.len(), |i: int| tensors[i].name)
}

/// What the index maps to its shards.
pub open spec fn expected_claims(shards: Seq<IndexedView>) -> Seq<ClaimView>
    decreases shards.len(),
{
    if shards.len() == 0 {
        Seq::empty()
    } else {
        expected_claims(shards.drop_last()) + name_claims(
            shards.last().expected,
            shards.last().source_shard,
        )
    }
}

/// What the shards hold.
pub open spec fn held_claims(shards: Seq<IndexedView>) -> Seq<ClaimView>
    decreases shards.len(),
{
    if shards.len() == 0 {
        Seq::empty()
    } else {
        held_claims(shards.drop_last()) + name_claims(
            tensor_names(shards.last().inspection.tensors),
            shards.last().source_shard,
        )
    }
}

/// The first of the names from `i` on that no tensor has.
pub open spec fn first_missing(names: Seq<Seq<char>>, tensors: Seq<RecordView>, i: int) -> Option<
    Seq<char>,
>
    decreases names.len() - i,
{
    if i < 0 || i >= names.len() {
        None
    } else if !tensor_names(tensors).contains(names[i]) {
        Some(names[i])
    } else {
        first_missing(names, tensors, i + 1)
    }
}

/// The refusal of the first shard from `i` on that lacks a tensor that the index maps to
/// it.
pub open spec fn first_short(shards: Seq<IndexedView>, i: int) -> Option<ErrorView>
    decreases shards.len() - i,
{
    if i < 0 || i >= shards.len() {
        None
    } else {
        match first_missing(shards[i].expected, shards[i].inspection.tensors, 0) {
            Some(name) => Some(
                validate::load_error(
                    shards[i].path,
                    "index maps tensor '"@ + name
                        + "' to this shard, but the shard header does not contain it"@,
                ),
            ),
            None => first_short(shards, i + 1),
        }
    }
}

/// The tensors with one of the names.
pub open spec fn named_tensors(tensors: Seq<RecordView>, names: Seq<Seq<char>>) -> Seq<RecordView>
    decreases tensors.len(),
{
    if tensors.len() == 0 {
        Seq::empty()
    } else if names.contains(tensors.last().name) {
        named_tensors(tensors.drop_last(), names).push(tensors.last())
    } else {
        named_tensors(tensors.drop_last(), names)
    }
}

/// The shards with the tensors alone that the index maps to them.
pub open spec fn mapped_shards(shards: Seq<IndexedView>) -> Seq<ShardView> {
    Seq::new(
        shards.len(),
        |i: int|
            ShardView {
                source_shard: shards[i].source_shard,
                inspection: InspectionView {
                    metadata: shards[i].inspection.metadata,
                    tensors: named_tensors(shards[i].inspection.tensors, shards[i].expected),
                },
            },
    )
}

/// The metadata of an indexed checkpoint.
pub open spec fn indexed_metadata(
    metadata: Map<Seq<char>, Seq<char>>,
    shards: Seq<IndexedView>,
    index_tensor_count: nat,
    unreferenced: Option<Seq<char>>,
) -> Map<Seq<char>, Seq<char>> {
    let counted = manifest::gathered_metadata(metadata, mapped_shards(shards)).insert(
        "index_tensor_count"@,
        text::decimal(index_tensor_count),
    ).remove(INDEX_UNREFERENCED_SHARDS_KEY@);
    match unreferenced {
        Some(encoded) => counted.insert(INDEX_UNREFERENCED_SHARDS_KEY@, encoded),
        None => counted,
    }
}

/// What inspecting the shards of an index comes to.
pub open spec fn inspects(
    r: Result<ManifestView, ErrorView>,
    root: Seq<char>,
    index_file: Option<Seq<char>>,
    shards: Seq<IndexedView>,
    metadata: Map<Seq<char>, Seq<char>>,
    index_tensor_count: nat,
    unreferenced: Option<Seq<char>>,
) -> bool {
    if exists|c: ClaimView| #[trigger]
        ownership::misplaced(expected_claims(shards), held_claims(shards), c) {
        r is Err && ownership::refuses_misplaced(
            r->Err_0,
            expected_claims(shards),
            held_claims(shards),
            root,
        )
    } else {
        match first_short(shards, 0) {
            Some(e) => r == Err::<ManifestView, ErrorView>(e),
            None => manifest::builds(
                r,
                "hf_index"@,
                index_file,
                shards.len(),
                indexed_metadata(metadata, shards, index_tensor_count, unreferenced),
                manifest::gathered_tensors(mapped_shards(shards)),
                root,
            ),
        }
    }
}

fn append_claims(claims: &mut Vec<Claim>, names: &Vec<String>, shard: &str)
    ensures
        ownership::claim_views(final(claims)@) == ownership::claim_views(old(claims)@)
            + name_claims(text::views(names@), shard@),
{
    let ghost start = ownership::claim_views(claims@);
    let ghost more = name_claims(text::views(names@), shard@);
    let mut i: usize = 0;
    while i < names.len()
        invariant
            i <= names@.len(),
            more == name_claims(text::views(names@), shard@),
            ownership::claim_views(claims@) =~= start + more.take(i as int),
        decreases names@.len() - i,
    {
        let ghost before = ownership::claim_views(claims@);
        let c = Claim { name: names[i].clone(), shard: shard.to_owned() };
        assert(c@ == more[i as int]);
        claims.push(c);
        assert(ownership::claim_views(claims@) =~= before.push(c@));
        i += 1;
    }
    assert(more.take(more.len() as int) =~= more);
}

fn names_of(tensors: &Vec<SafetensorsTensorRecord>) -> (r: Vec<String>)
    ensures
        text::views(r@) == tensor_names(record::record_views(tensors@)),
{
    let ghost all = tensor_names(record::record_views(tensors@));
    let mut r: Vec<String> = Vec::new();
    let mut i: usize = 0;
    while i < tensors.len()
        invariant
            i <= tensors@.len(),
            all == tensor_names(record::record_views(tensors@)),
            text::views(r@) =~= all.take(i as int),
        decreases tensors@.len() - i,
    {
        let ghost before = text::views(r@);
        let name = tensors[i].name.clone();
        assert(name@ == all[i as int]);
        r.push(name);
        assert(text::views(r@) =~= before.push(name@));
        i += 1;
    }
    assert(text::views(r@) =~= all);
    r
}

/// Refuse tensors that are found in another shard than the index maps them to.
pub fn reject_indexed_tensor_ownership(root: &str, shards: &Vec<IndexedShard>) -> (r: Result<
    (),
    ParserError,
>)
    ensures
        match r {
            Ok(_) => forall|c: ClaimView|
                !#[trigger] ownership::misplaced(
                    expected_claims(indexed_views(shards@)),
                    held_claims(indexed_views(shards@)),
                    c,
                ),
            Err(e) => ownership::refuses_misplaced(
                e@,
                expected_claims(indexed_views(shards@)),
                held_claims(indexed_views(shards@)),
                root@,
            ),
        },
{
    let ghost all = indexed_views(shards@);
    let mut claims: Vec<Claim> = Vec::new();
    let mut holdings: Vec<Claim> = Vec::new();
    let mut i: usize = 0;
    assert(ownership::claim_views(claims@) =~= Seq::empty());
    assert(ownership::claim_views(holdings@) =~= Seq::empty());
    while i < shards.len()
        invariant
            i <= shards@.len(),
            all == indexed_views(shards@),
            ownership::claim_views(claims@) == expected_claims(all.take(i as int)),
            ownership::claim_views(holdings@) == held_claims(all.take(i as int)),
        decreases shards@.len() - i,
    {
        assert(all.take(i + 1).drop_last() =~= all.take(i as int));
        assert(all.take(i + 1).last() == shards@[i as int]@);
        let expected = shards[i].expected.keys();
        append_claims(&mut claims, &expected, shards[i].source_shard.as_str());
        let found = names_of(&shards[i].inspection.tensors);
        append_claims(&mut holdings, &found, shards[i].source_shard.as_str());
        i += 1;
    }
    assert(all.take(all.len() as int) =~= all);
    reject_misplaced(root, claims, holdings)
}

fn find_missing(expected: &StringMap<()>, tensors: &Vec<SafetensorsTensorRecord>) -> (r: Option<
    String,
>)
    ensures
        manifest::optional_text(r) == first_missing(
            ordered::keys_of(expected.entries()),
            record::record_views(tensors@),
            0,
        ),
{
    let ghost records = record::record_views(tensors@);
    let ghost found = tensor_names(records);
    let mut names: StringMap<()> = StringMap::new();
    let mut i: usize = 0;
    while i < tensors.len()
        invariant
            i <= tensors@.len(),
            records == record::record_views(tensors@),
            found == tensor_names(records),
            forall|k: Seq<char>| #[trigger]
                names@.contains_key(k) <==> found.take(i as int).contains(k),
        decreases tensors@.len() - i,
    {
        let ghost before = names@;
        let name = tensors[i].name.clone();
        names.insert(name, ());
        assert(found.take(i + 1) =~= found.take(i as int).push(name@));
        assert forall|k: Seq<char>| #[trigger] names@.contains_key(k) <==> found.take(
            i + 1,
        ).contains(k) by {
            let s = found.take(i as int);
            assert(before.contains_key(k) <==> s.contains(k));
            if s.contains(k) {
                let j = s.index_of(k);
                assert(s.push(name@)[j] == k);
            }
            if k == name@ {
                assert(s.push(name@)[i as int] == k);
            }
            if s.push(name@).contains(k) {
                let j = s.push(name@).index_of(k);
                if j < s.len() {
                    assert(s[j] == k);
                }
            }
        }
        i += 1;
    }
    assert(found.take(found.len() as int) =~= found);
    let keys = expected.keys();
    let ghost wanted = text::views(keys@);
    let mut j: usize = 0;
    while j < keys.len()
        invariant
            j <= keys@.len(),
            wanted == text::views(keys@),
            wanted == ordered::keys_of(expected.entries()),
            records == record::record_views(tensors@),
            found == tensor_names(records),
            forall|k: Seq<char>| #[trigger] names@.contains_key(k) <==> found.contains(k),
            first_missing(wanted, records, 0) == first_missing(wanted, records, j as int),
        decreases keys@.len() - j,
    {
        assert(wanted[j as int] == keys@[j as int]@);
        if !names.contains_key(keys[j].as_str()) {
            return Some(keys[j].clone());
        }
        assert(found.contains(wanted[j as int]));
        j += 1;
    }
    None
}

fn keep_named(tensors: Vec<SafetensorsTensorRecord>, expected: &StringMap<()>) -> (r: Vec<
    SafetensorsTensorRecord,
>)
    ensures
        record::record_views(r@) == named_tensors(
            record::record_views(tensors@),
            ordered::keys_of(expected.entries()),
        ),
{
    let ghost all = record::record_views(tensors@);
    let ghost names = ordered::keys_of(expected.entries());
    let keys = expected.keys();
    assert(forall|k: Seq<char>| #[trigger] names.contains(k) <==> expected@.contains_key(k));
    let mut r: Vec<SafetensorsTensorRecord> = Vec::new();
    assert(record::record_views(r@) =~= Seq::empty());
    for tensor in it: tensors.into_iter()
        invariant
            it.seq() == tensors@,
            all == record::record_views(tensors@),
            forall|k: Seq<char>| #[trigger] names.contains(k) <==> expected@.contains_key(k),
            record::record_views(r@) == named_tensors(all.take(it.index()), names),
    {
        let ghost k = it.index();
        assert(all.take(k + 1).drop_last() =~= all.take(k));
        assert(all.take(k + 1).last() == tensor@);
        if expected.contains_key(tensor.name.as_str()) {
            let ghost before = record::record_views(r@);
            r.push(tensor);
            assert(record::record_views(r@) =~= before.push(tensor@));
        }
    }
    assert(all.take(all.len() as int) =~= all);
    r
}

/// The manifest of the shards that an index names.
///
/// A tensor in a shard other than the one that the index maps it to is refused, and so is
/// a shard without a tensor that the index maps to it. Tensors that the index does not
/// name are left out.
pub fn inspect_index_shards(
    root: &str,
    index_file: Option<String>,
    shards: Vec<IndexedShard>,
    metadata: StringMap<String>,
    index_tensor_count: usize,
    unreferenced_shards_json: Option<String>,
) -> (r: Result<SafetensorsManifest, ParserError>)
    ensures
        inspects(
            error::viewed(r),
            root@,
            manifest::optional_text(index_file),
            indexed_views(shards@),
            ordered::value_views(metadata@),
            index_tensor_count as nat,
            manifest::optional_text(unreferenced_shards_json),
        ),
{
    let ghost all = indexed_views(shards@);
    let ghost given = ordered::value_views(metadata@);
    let ghost mapped = mapped_shards(all);
    match reject_indexed_tensor_ownership(root, &shards) {
        Err(e) => {
            proof {
                let (c, listed) = choose|c: ClaimView, listed: Seq<Seq<char>>|
                    {
                        &&& #[trigger] ownership::misplaced(
                            expected_claims(all),
                            held_claims(all),
                            c,
                        )
                        &&& forall|other: ClaimView|
                            text::less(other.name, c.name) ==> !#[trigger] ownership::misplaced(
                                expected_claims(all),
                                held_claims(all),
                                other,
                            )
                        &&& text::lists(listed, ownership::parties(held_claims(all), c))
                        &&& e@ == #[trigger] ownership::duplicate_error(c.name, listed, root@)
                    };
                assert(ownership::misplaced(expected_claims(all), held_claims(all), c));
            }
            return Err(e);
        },
        Ok(_) => {},
    }
    let mut names: Vec<String> = Vec::new();
    let mut metadata = metadata;
    let mut tensors: Vec<SafetensorsTensorRecord> = Vec::new();
    assert(record::record_views(tensors@) =~= Seq::empty());
    for shard in it: shards.into_iter()
        invariant
            it.seq() == shards@,
            names@.len() == it.index(),
            all == indexed_views(shards@),
            mapped == mapped_shards(all),
            forall|c: ClaimView|
                !#[trigger] ownership::misplaced(expected_claims(all), held_claims(all), c),
            first_short(all, 0) == first_short(all, it.index()),
            ordered::value_views(metadata@) == manifest::gathered_metadata(
                given,
                mapped.take(it.index()),
            ),
            record::record_views(tensors@) == manifest::gathered_tensors(mapped.take(it.index())),
    {
        let ghost k = it.index();
        assert(mapped.take(k + 1).drop_last() =~= mapped.take(k));
        assert(all[k] == shard@);
        assert(mapped.take(k + 1).last() == mapped[k]);
        merge_shard_metadata(
            &mut metadata,
            shard.source_shard.as_str(),
            &shard.inspection.metadata,
        );
        match find_missing(&shard.expected, &shard.inspection.tensors) {
            Some(missing) => {
                return Err(
                    model_load(
                        shard.path.as_str(),
                        text::concat3(
                            "index maps tensor '",
                            missing.as_str(),
                            "' to this shard, but the shard header does not contain it",
                        ),
                    ),
                );
            },
            None => {},
        }
        let mut kept = keep_named(shard.inspection.tensors, &shard.expected);
        let ghost before = record::record_views(tensors@);
        let ghost added = record::record_views(kept@);
        tensors.append(&mut kept);
        assert(record::record_views(tensors@) =~= before + added);
        names.push(shard.source_shard);
    }
    assert(mapped.take(mapped.len() as int) =~= mapped);
    metadata.insert(
        "index_tensor_count".to_owned(),
        text::decimal_string(index_tensor_count as u64),
    );
    metadata.remove(INDEX_UNREFERENCED_SHARDS_KEY);
    match unreferenced_shards_json {
        Some(encoded) => {
            metadata.insert(INDEX_UNREFERENCED_SHARDS_KEY.to_owned(), encoded);
        },
        None => {},
    }
    assert(ordered::value_views(metadata@) =~= indexed_metadata(
        given,
        all,
        index_tensor_count as nat,
        manifest::optional_text(unreferenced_shards_json),
    ));
    build_manifest("hf_index", index_file, names, metadata, tensors, root)
}

// ---------------------------------------------------------------------------
// What an index file says
// ---------------------------------------------------------------------------
/// Index files of up to 64 MiB are read, and no larger ones.
pub proof fn law_index_files_are_bounded(path: Seq<char>, len: u64)
    ensures
        index_size(path, len) is Ok <==> len <= 64 * 1024 * 1024,
{
}

proof fn lemma_field_at(entries: Seq<(Seq<char>, Json)>, i: int)
    requires
        0 <= i < entries.len(),
        forall|a: int, b: int|
            0 <= a < b < entries.len() ==> (#[trigger] entries[a]).0 != (#[trigger] entries[b]).0,
    ensures
        access::field(entries, entries[i].0) == Some(entries[i].1),
    decreases entries.len(),
{
    if i < entries.len() - 1 {
        assert(entries[i].0 != entries[entries.len() - 1].0);
        assert(entries.drop_last()[i] == entries[i]);
        lemma_field_at(entries.drop_last(), i);
    }
}

proof fn lemma_no_field(entries: Seq<(Seq<char>, Json)>, key: Seq<char>)
    requires
        forall|i: int| 0 <= i < entries.len() ==> (#[trigger] entries[i]).0 != key,
    ensures
        access::field(entries, key) is None,
    decreases entries.len(),
{
    if entries.len() > 0 {
        assert(entries[entries.len() - 1].0 != key);
        lemma_no_field(entries.drop_last(), key);
    }
}

proof fn lemma_flat_table(
    entries: Seq<(Seq<char>, Json)>,
    numbers: Map<Seq<char>, Seq<char>>,
    n: nat,
)
    requires
        n <= entries.len(),
        forall|a: int, b: int|
            0 <= a < b < entries.len() ==> (#[trigger] entries[a]).0 != (#[trigger] entries[b]).0,
    ensures
        forall|i: int|
            0 <= i < n ==> {
                let table = access::flat_table("index"@, entries, numbers, n);
                let key = "index:"@ + (#[trigger] entries[i]).0;
                &&& table.contains_key(key)
                &&& table[key] == access::flat_value(entries[i].1, numbers)
            },
        forall|key: Seq<char>| #[trigger]
            access::flat_table("index"@, entries, numbers, n).contains_key(key) ==> exists|i: int|
                0 <= i < n && key == "index:"@ + (#[trigger] entries[i]).0,
    decreases n,
{
    reveal_strlit("index");
    reveal_strlit(":");
    reveal_strlit("index:");
    assert("index"@ + ":"@ =~= "index:"@);
    if n > 0 {
        let m = (n - 1) as nat;
        lemma_flat_table(entries, numbers, m);
        let before = access::flat_table("index"@, entries, numbers, m);
        let after = access::flat_table("index"@, entries, numbers, n);
        let last = "index:"@ + entries[n - 1].0;
        assert("index"@ + ":"@ + entries[n - 1].0 =~= last);
        assert forall|i: int| 0 <= i < n implies after.contains_key(
            "index:"@ + (#[trigger] entries[i]).0,
        ) && after["index:"@ + entries[i].0] == access::flat_value(entries[i].1, numbers) by {
            if i < m {
                let key = "index:"@ + entries[i].0;
                assert(entries[i].0 != entries[n - 1].0);
                assert(key.skip(6) =~= entries[i].0);
                assert(last.skip(6) =~= entries[n - 1].0);
                assert(before.contains_key(key));
            }
        }
        assert forall|key: Seq<char>| #[trigger] after.contains_key(key) implies exists|i: int|
            0 <= i < n && key == "index:"@ + (#[trigger] entries[i]).0 by {
            if key == last {
                assert(key == "index:"@ + entries[n - 1].0);
            } else {
                assert(before.contains_key(key));
                let i = choose|i: int| 0 <= i < m && key == "index:"@ + (#[trigger] entries[i]).0;
                assert(key == "index:"@ + entries[i].0);
            }
        }
    }
}

/// An index file says what its JSON does. Each tensor under `weight_map` is in the shard
/// that stands beside it, and there are no others. Each entry of `metadata` is kept behind
/// `index:`, a string as it is and anything else as JSON, but for `unreferenced_shards`,
/// which is dropped.
#[verifier::rlimit(40)]
pub proof fn law_index_files_are_read(
    path: Seq<char>,
    root: Seq<(Seq<char>, Json)>,
    weights: Seq<(Seq<char>, Json)>,
    facts: Seq<(Seq<char>, Json)>,
    numbers: Map<Seq<char>, Seq<char>>,
    w: int,
    m: int,
)
    requires
        forall|a: int, b: int|
            0 <= a < b < root.len() ==> (#[trigger] root[a]).0 != (#[trigger] root[b]).0,
        forall|a: int, b: int|
            0 <= a < b < weights.len() ==> (#[trigger] weights[a]).0 != (#[trigger] weights[b]).0,
        forall|a: int, b: int|
            0 <= a < b < facts.len() ==> (#[trigger] facts[a]).0 != (#[trigger] facts[b]).0,
        forall|a: int| 0 <= a < weights.len() ==> (#[trigger] weights[a]).1 is Text,
        0 <= w < root.len(),
        root[w] == ("weight_map"@, Json::Object(weights)),
        0 <= m < root.len(),
        root[m] == ("metadata"@, Json::Object(facts)),
    ensures
        ({
            let r = raw_index(path, Json::Object(root), numbers);
            &&& r is Ok
            &&& forall|i: int|
                0 <= i < weights.len() ==> {
                    &&& r->Ok_0.weight_map.contains_key((#[trigger] weights[i]).0)
                    &&& Json::Text(r->Ok_0.weight_map[weights[i].0]) == weights[i].1
                }
            &&& forall|tensor: Seq<char>| #[trigger]
                r->Ok_0.weight_map.contains_key(tensor) ==> exists|i: int|
                    0 <= i < weights.len() && (#[trigger] weights[i]).0 == tensor
            &&& forall|i: int|
                0 <= i < facts.len() && (#[trigger] facts[i]).0 != "unreferenced_shards"@ ==> {
                    let key = "index:"@ + facts[i].0;
                    &&& r->Ok_0.metadata.contains_key(key)
                    &&& facts[i].1 is Text ==> Json::Text(r->Ok_0.metadata[key]) == facts[i].1
                    &&& !(facts[i].1 is Text) ==> r->Ok_0.metadata[key] == json::compact(
                        json::settled(facts[i].1, numbers),
                    )
                }
            &&& forall|key: Seq<char>| #[trigger]
                r->Ok_0.metadata.contains_key(key) ==> exists|i: int|
                    0 <= i < facts.len() && key == "index:"@ + (#[trigger] facts[i]).0
            &&& !r->Ok_0.metadata.contains_key("index:unreferenced_shards"@)
        }),
{
    lemma_field_at(root, w);
    lemma_field_at(root, m);
    header::lemma_all_texts(weights, 0);
    header::lemma_string_table(weights, weights.len());
    lemma_flat_table(facts, numbers, facts.len());
    reveal_strlit("index:");
    reveal_strlit("unreferenced_shards");
    reveal_strlit("index:unreferenced_shards");
    let reserved = "index:"@ + "unreferenced_shards"@;
    assert(reserved =~= "index:unreferenced_shards"@);
    let r = raw_index(path, Json::Object(root), numbers);
    assert forall|i: int|
        0 <= i < facts.len() && (#[trigger] facts[i]).0 != "unreferenced_shards"@ implies {
        let key = "index:"@ + facts[i].0;
        &&& r->Ok_0.metadata.contains_key(key)
        &&& facts[i].1 is Text ==> Json::Text(r->Ok_0.metadata[key]) == facts[i].1
        &&& !(facts[i].1 is Text) ==> r->Ok_0.metadata[key] == json::compact(
            json::settled(facts[i].1, numbers),
        )
    } by {
        let key = "index:"@ + facts[i].0;
        assert(key.skip(6) =~= facts[i].0);
        assert(reserved.skip(6) =~= "unreferenced_shards"@);
    }
}

/// An index file without a weight map is refused. The metadata may be missing, and there is
/// none then.
pub proof fn law_index_files_need_a_weight_map(
    path: Seq<char>,
    root: Seq<(Seq<char>, Json)>,
    numbers: Map<Seq<char>, Seq<char>>,
)
    ensures
        (forall|i: int| 0 <= i < root.len() ==> (#[trigger] root[i]).0 != "weight_map"@)
            ==> raw_index(path, Json::Object(root), numbers) is Err,
        (forall|i: int| 0 <= i < root.len() ==> (#[trigger] root[i]).0 != "metadata"@)
            && raw_index(path, Json::Object(root), numbers) is Ok ==> raw_index(
            path,
            Json::Object(root),
            numbers,
        )->Ok_0.metadata == Map::<Seq<char>, Seq<char>>::empty(),
{
    if forall|i: int| 0 <= i < root.len() ==> (#[trigger] root[i]).0 != "weight_map"@ {
        lemma_no_field(root, "weight_map"@);
    }
    if forall|i: int| 0 <= i < root.len() ==> (#[trigger] root[i]).0 != "metadata"@ {
        lemma_no_field(root, "metadata"@);
        let none = Seq::<(Seq<char>, Json)>::empty();
        assert(access::flat_table("index"@, none, numbers, 0).remove(INDEX_UNREFERENCED_SHARDS_KEY@)
            =~= Map::empty());
    }
}

/// Shards come in the order of the components of their paths: a path comes before any other
/// that goes on where it has a separator.
pub proof fn law_separators_come_first(
    front: Seq<char>,
    a: Seq<char>,
    c: char,
    b: Seq<char>,
)
    requires
        c != '/',
        c != '\0',
    ensures
        path_less(front + seq!['/'] + a, front + seq![c] + b),
        !path_less(front + seq![c] + b, front + seq!['/'] + a),
{
    let x = front + seq!['/'] + a;
    let y = front + seq![c] + b;
    let kx = path_key(x).name;
    let ky = path_key(y).name;
    let n = front.len() as int;
    let shared = path_key(front).name;
    assert(kx =~= shared + seq!['\0'] + kx.skip(n + 1));
    assert(ky =~= shared + seq![c] + ky.skip(n + 1));
    assert(kx[n] == '\0' && ky[n] == c);
    text::law_texts_differ_in_order(shared, '\0', c, kx.skip(n + 1), ky.skip(n + 1));
}

/// The shards that an index does not name are all files but the planned ones, in the order
/// in which they came.
pub proof fn law_unplanned_files_are_reported(
    files: Seq<Seq<char>>,
    plan: Seq<Seq<char>>,
    name: Seq<char>,
)
    ensures
        unplanned(files, plan).contains(name) <==> files.contains(name) && !plan.contains(name),
    decreases files.len(),
{
    let all = unplanned(files, plan);
    if files.len() > 0 {
        let front = files.drop_last();
        let last = files.last();
        law_unplanned_files_are_reported(front, plan, name);
        let before = unplanned(front, plan);
        if files.contains(name) {
            let i = files.index_of(name);
            if i < front.len() {
                assert(front[i] == name);
            }
        }
        if front.contains(name) {
            let i = front.index_of(name);
            assert(files[i] == name);
        }
        if name == last {
            assert(files[files.len() - 1] == name);
        }
        if !plan.contains(last) {
            assert(all == before.push(last));
            if all.contains(name) {
                let i = all.index_of(name);
                if i < before.len() {
                    assert(before[i] == name);
                }
            }
            if before.contains(name) {
                let i = before.index_of(name);
                assert(all[i] == name);
            }
            assert(all[before.len() as int] == last);
        }
    }
}

} // verus!
