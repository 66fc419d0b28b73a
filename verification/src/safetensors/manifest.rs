//! Deterministic Safetensors manifests.

use crate::error;
use crate::error::{ErrorView, ParserError};
use crate::ordered;
use crate::ordered::StringMap;
use crate::safetensors::discovery;
use crate::safetensors::discovery::{
    discover_candidates, SafetensorsCandidateSummary, SummaryView,
};
use crate::safetensors::header::{InspectionView, ShardInspection};
use crate::safetensors::metadata;
use crate::safetensors::metadata::merge_shard_metadata;
use crate::safetensors::ownership;
use crate::safetensors::ownership::{reject_contested, Claim, ClaimView};
use crate::safetensors::record;
use crate::safetensors::record::{RecordView, SafetensorsTensorRecord};
use crate::sorting;
use crate::sorting::{KeyView, SortKey};
use crate::text;
use vstd::prelude::*;

verus! {

/// Deterministic Safetensors checkpoint inventory.
#[derive(Debug, Clone, PartialEq, Eq)]
pub struct SafetensorsManifest {
    /// Manifest schema version (currently 2).
    pub manifest_version: u32,
    /// Always `"safetensors"`.
    pub format: &'static str,
    /// Input kind, shard count, and flattened metadata.
    pub checkpoint: SafetensorsCheckpointSource,
    /// Tensor records sorted by `(name, source_shard)`.
    pub tensors: Vec<SafetensorsTensorRecord>,
    /// MoE router/expert candidates inferred from names and shapes.
    pub candidates: SafetensorsCandidateSummary,
}

/// Where a checkpoint came from and the metadata collected from it.
#[derive(Debug, Clone, PartialEq, Eq)]
pub struct SafetensorsCheckpointSource {
    /// `single_file`, `hf_index`, or `directory`.
    pub input_kind: String,
    /// Relative index path when `input_kind` is `hf_index`.
    pub index_file: Option<String>,
    /// Number of shards inspected.
    pub shard_count: usize,
    /// Number of tensor records in the manifest.
    pub tensor_count: usize,
    /// Flattened string metadata (index-prefixed, shard-namespaced, ...).
    pub metadata: StringMap<String>,
}

/// What a [`SafetensorsCheckpointSource`] says.
#[verifier::ext_equal]
pub struct SourceView {
    pub input_kind: Seq<char>,
    pub index_file: Option<Seq<char>>,
    pub shard_count: usize,
    pub tensor_count: usize,
    pub metadata: Map<Seq<char>, Seq<char>>,
}

/// What a [`SafetensorsManifest`] says.
#[verifier::ext_equal]
pub struct ManifestView {
    pub manifest_version: u32,
    pub format: Seq<char>,
    pub checkpoint: SourceView,
    pub tensors: Seq<RecordView>,
    pub candidates: SummaryView,
}

/// The text, if any.
pub open spec fn optional_text(s: Option<String>) -> Option<Seq<char>> {
    match s {
        Some(s) => Some(s@),
        None => None,
    }
}

impl View for SafetensorsCheckpointSource {
    type V = SourceView;

    open spec fn view(&self) -> SourceView {
        SourceView {
            input_kind: self.input_kind@,
            index_file: optional_text(self.index_file),
            shard_count: self.shard_count,
            tensor_count: self.tensor_count,
            metadata: ordered::value_views(self.metadata@),
        }
    }
}

impl View for SafetensorsManifest {
    type V = ManifestView;

    open spec fn view(&self) -> ManifestView {
        ManifestView {
            manifest_version: self.manifest_version,
            format: self.format@,
            checkpoint: self.checkpoint@,
            tensors: record::record_views(self.tensors@),
            candidates: self.candidates@,
        }
    }
}

// ---------------------------------------------------------------------------
// Building
// ---------------------------------------------------------------------------
/// What tensor records are sorted by: name, then shard.
pub open spec fn record_keys(tensors: Seq<RecordView>) -> Seq<KeyView> {
    Seq::new(
        tensors.len(),
        |i: int|
            KeyView {
                first: 0,
                second: 0,
                name: tensors[i].name,
                shard: tensors[i].source_shard,
            },
    )
}

/// The tensors in the order of their names and shards.
pub open spec fn by_name(tensors: Seq<RecordView>) -> Seq<RecordView> {
    sorting::arranged(tensors, sorting::stable_order(record_keys(tensors)))
}

/// The tensors as claims of their shards.
pub open spec fn record_claims(tensors: Seq<RecordView>) -> Seq<ClaimView> {
    Seq::new(
        tensors.len(),
        |i: int| ClaimView { name: tensors[i].name, shard: tensors[i].source_shard },
    )
}

/// The manifest of the given tensors.
pub open spec fn describes(
    m: ManifestView,
    input_kind: Seq<char>,
    index_file: Option<Seq<char>>,
    shard_count: nat,
    metadata: Map<Seq<char>, Seq<char>>,
    tensors: Seq<RecordView>,
) -> bool {
    &&& m.manifest_version == 2
    &&& m.format == "safetensors"@
    &&& m.checkpoint.input_kind == input_kind
    &&& m.checkpoint.index_file == index_file
    &&& m.checkpoint.shard_count == shard_count
    &&& m.checkpoint.tensor_count == tensors.len()
    &&& m.checkpoint.metadata == metadata
    &&& m.tensors == by_name(tensors)
    &&& discovery::summarizes(m.candidates, m.tensors)
}

/// What building a manifest comes to: the manifest where every tensor has one owner, and
/// the refusal of the first contested tensor otherwise.
pub open spec fn builds(
    r: Result<ManifestView, ErrorView>,
    input_kind: Seq<char>,
    index_file: Option<Seq<char>>,
    shard_count: nat,
    metadata: Map<Seq<char>, Seq<char>>,
    tensors: Seq<RecordView>,
    path: Seq<char>,
) -> bool {
    match r {
        Ok(m) => {
            &&& forall|name: Seq<char>|
                !#[trigger] ownership::contested(record_claims(tensors), name)
            &&& describes(m, input_kind, index_file, shard_count, metadata, tensors)
        },
        Err(e) => ownership::refuses_contested(e, record_claims(tensors), path),
    }
}

fn claims_of(tensors: &Vec<SafetensorsTensorRecord>) -> (r: Vec<Claim>)
    ensures
        ownership::claim_views(r@) == record_claims(record::record_views(tensors@)),
{
    let ghost all = record_claims(record::record_views(tensors@));
    let mut r: Vec<Claim> = Vec::new();
    let mut i: usize = 0;
    while i < tensors.len()
        invariant
            i <= tensors@.len(),
            all == record_claims(record::record_views(tensors@)),
            ownership::claim_views(r@) =~= all.take(i as int),
        decreases tensors@.len() - i,
    {
        let ghost before = ownership::claim_views(r@);
        let c = Claim {
            name: tensors[i].name.clone(),
            shard: tensors[i].source_shard.clone(),
        };
        assert(c@ == all[i as int]);
        r.push(c);
        assert(ownership::claim_views(r@) =~= before.push(c@));
        i += 1;
    }
    assert(ownership::claim_views(r@) =~= all);
    r
}

fn sort_records(tensors: Vec<SafetensorsTensorRecord>) -> (r: Vec<SafetensorsTensorRecord>)
    ensures
        record::record_views(r@) == by_name(record::record_views(tensors@)),
        r@.len() == tensors@.len(),
{
    let ghost given = tensors@;
    let ghost all = record::record_views(given);
    let mut keys: Vec<SortKey> = Vec::new();
    let mut i: usize = 0;
    while i < tensors.len()
        invariant
            i <= tensors@.len(),
            all == record::record_views(tensors@),
            sorting::key_views(keys@) =~= record_keys(all).take(i as int),
        decreases tensors@.len() - i,
    {
        let ghost before = sorting::key_views(keys@);
        let key = SortKey {
            first: 0,
            second: 0,
            name: tensors[i].name.clone(),
            shard: tensors[i].source_shard.clone(),
        };
        assert(key@ == record_keys(all)[i as int]);
        keys.push(key);
        assert(sorting::key_views(keys@) =~= before.push(key@));
        i += 1;
    }
    assert(sorting::key_views(keys@) =~= record_keys(all));
    let order = sorting::sort_positions(&keys);
    proof {
        sorting::law_stable_order_is_permutation(record_keys(all), sorting::positions(order@));
    }
    let r = sorting::arrange(tensors, &order);
    assert(record::record_views(r@) =~= by_name(all));
    r
}

/// Sort the tensors, refuse those with several owners, and infer the MoE candidates.
pub fn build_manifest(
    input_kind: &str,
    index_file: Option<String>,
    shards: Vec<String>,
    metadata: StringMap<String>,
    tensors: Vec<SafetensorsTensorRecord>,
    error_path: &str,
) -> (r: Result<SafetensorsManifest, ParserError>)
    ensures
        builds(
            error::viewed(r),
            input_kind@,
            optional_text(index_file),
            shards@.len(),
            ordered::value_views(metadata@),
            record::record_views(tensors@),
            error_path@,
        ),
{
    let claims = claims_of(&tensors);
    match reject_contested(error_path, claims) {
        Err(e) => Err(e),
        Ok(_) => {
            let sorted = sort_records(tensors);
            let candidates = discover_candidates(sorted.as_slice());
            Ok(
                SafetensorsManifest {
                    manifest_version: 2,
                    format: "safetensors",
                    checkpoint: SafetensorsCheckpointSource {
                        input_kind: input_kind.to_owned(),
                        index_file,
                        shard_count: shards.len(),
                        tensor_count: sorted.len(),
                        metadata,
                    },
                    tensors: sorted,
                    candidates,
                },
            )
        },
    }
}

/// The manifest of a checkpoint in a single file.
pub fn inspect_single_file(path: &str, shard: ShardInspection) -> (r: Result<
    SafetensorsManifest,
    ParserError,
>)
    ensures
        builds(
            error::viewed(r),
            "single_file"@,
            None,
            1,
            shard@.metadata,
            shard@.tensors,
            path@,
        ),
{
    let shards: Vec<String> = vec![path.to_owned()];
    build_manifest("single_file", None, shards, shard.metadata, shard.tensors, path)
}

// ---------------------------------------------------------------------------
// Shards of a directory
// ---------------------------------------------------------------------------
/// A shard that was inspected.
pub struct InspectedShard {
    /// Relative shard path.
    pub source_shard: String,
    /// What the shard declares.
    pub inspection: ShardInspection,
}

/// What an [`InspectedShard`] says.
pub struct ShardView {
    pub source_shard: Seq<char>,
    pub inspection: InspectionView,
}

impl View for InspectedShard {
    type V = ShardView;

    open spec fn view(&self) -> ShardView {
        ShardView { source_shard: self.source_shard@, inspection: self.inspection@ }
    }
}

/// What the shards say, in order.
pub open spec fn shard_views(shards: Seq<InspectedShard>) -> Seq<ShardView> {
    Seq::new(shards.len(), |i: int| shards[i]@)
}

/// The metadata with that of the shards, taken over in order.
pub open spec fn gathered_metadata(
    m: Map<Seq<char>, Seq<char>>,
    shards: Seq<ShardView>,
) -> Map<Seq<char>, Seq<char>>
    decreases shards.len(),
{
    if shards.len() == 0 {
        m
    } else {
        metadata::with_shard(
            gathered_metadata(m, shards.drop_last()),
            shards.last().source_shard,
            shards.last().inspection.metadata,
        )
    }
}

/// The tensors of the shards, in order.
pub open spec fn gathered_tensors(shards: Seq<ShardView>) -> Seq<RecordView>
    decreases shards.len(),
{
    if shards.len() == 0 {
        Seq::empty()
    } else {
        gathered_tensors(shards.drop_last()) + shards.last().inspection.tensors
    }
}

fn append_records(
    records: &mut Vec<SafetensorsTensorRecord>,
    more: Vec<SafetensorsTensorRecord>,
)
    ensures
        record::record_views(final(records)@) == record::record_views(old(records)@)
            + record::record_views(more@),
{
    let ghost before = record::record_views(records@);
    let ghost added = more@;
    let mut more = more;
    records.append(&mut more);
    assert(record::record_views(records@) =~= before + record::record_views(added));
}

/// The manifest of the shards of a directory.
///
/// A directory without shards is refused.
pub fn inspect_shards(root: &str, shards: Vec<InspectedShard>) -> (r: Result<
    SafetensorsManifest,
    ParserError,
>)
    ensures
        shards@.len() == 0 ==> error::viewed(r) == Err::<ManifestView, ErrorView>(
            ErrorView::UnsupportedFormat {
                path: root@,
                reason: "no .safetensors files found in '"@ + root@ + "'"@,
            },
        ),
        shards@.len() > 0 ==> builds(
            error::viewed(r),
            "directory"@,
            None,
            shards@.len(),
            gathered_metadata(Map::empty(), shard_views(shards@)),
            gathered_tensors(shard_views(shards@)),
            root@,
        ),
{
    if shards.len() == 0 {
        return Err(
            error::unsupported(root, text::concat3("no .safetensors files found in '", root, "'")),
        );
    }
    let ghost all = shard_views(shards@);
    let mut names: Vec<String> = Vec::new();
    let mut metadata: StringMap<String> = StringMap::new();
    let mut tensors: Vec<SafetensorsTensorRecord> = Vec::new();
    assert(ordered::value_views(metadata@) =~= Map::empty());
    assert(record::record_views(tensors@) =~= Seq::empty());
    for shard in it: shards.into_iter()
        invariant
            names@.len() == it.index(),
            all == shard_views(shards@),
            it.seq() == shards@,
            ordered::value_views(metadata@) == gathered_metadata(
                Map::empty(),
                all.take(it.index()),
            ),
            record::record_views(tensors@) == gathered_tensors(all.take(it.index())),
    {
        let ghost k = it.index();
        assert(all.take(k + 1).drop_last() =~= all.take(k));
        assert(all.take(k + 1).last() == shard@);
        merge_shard_metadata(
            &mut metadata,
            shard.source_shard.as_str(),
            &shard.inspection.metadata,
        );
        append_records(&mut tensors, shard.inspection.tensors);
        names.push(shard.source_shard);
    }
    assert(all.take(all.len() as int) =~= all);
    build_manifest("directory", None, names, metadata, tensors, root)
}

} // verus!
