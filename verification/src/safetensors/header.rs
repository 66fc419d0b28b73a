//! Safetensors shard headers.

use crate::error;
use crate::error::{ErrorView, ParserError};
use crate::gguf::dequant;
use crate::gguf::le;
use crate::gguf::limits;
use crate::ordered;
use crate::ordered::StringMap;
use crate::safetensors::access;
use crate::safetensors::access::{find, parse_json_rejecting_duplicate_keys, parse_metadata_object};
use crate::safetensors::discovery;
use crate::safetensors::discovery::classify_tensor;
use crate::safetensors::json;
use crate::safetensors::json::{Json, JsonValue};
use crate::safetensors::json_laws;
use crate::safetensors::record;
use crate::safetensors::record::{RecordView, SafetensorsTensorRecord};
use crate::safetensors::validate;
use crate::safetensors::validate::{
    expected_tensor_byte_size, model_load, reject_tensor_data_ranges, tensor_load,
};
use crate::text;
use vstd::prelude::*;

verus! {

/// Largest header that is read.
pub const MAX_HEADER_BYTES: usize = 67_108_864;

/// What one shard declares.
#[derive(Debug, Clone, PartialEq, Eq)]
pub struct ShardInspection {
    /// The `__metadata__` table.
    pub metadata: StringMap<String>,
    /// The tensors, in the order of their names.
    pub tensors: Vec<SafetensorsTensorRecord>,
}

/// What a [`ShardInspection`] says.
#[verifier::ext_equal]
pub struct InspectionView {
    pub metadata: Map<Seq<char>, Seq<char>>,
    pub tensors: Seq<RecordView>,
}

impl View for ShardInspection {
    type V = InspectionView;

    open spec fn view(&self) -> InspectionView {
        InspectionView {
            metadata: ordered::value_views(self.metadata@),
            tensors: record::record_views(self.tensors@),
        }
    }
}

// ---------------------------------------------------------------------------
// Header length
// ---------------------------------------------------------------------------
/// The length of the header that follows the eight length bytes.
pub open spec fn declared_length(path: Seq<char>, len_bytes: Seq<u8>, file_len: u64) -> Result<
    usize,
    ErrorView,
> {
    let declared = le::le_value(len_bytes);
    if declared > usize::MAX {
        Err(
            validate::load_error(
                path,
                "Safetensors header length "@ + text::decimal(declared)
                    + " does not fit in usize"@,
            ),
        )
    } else if declared > MAX_HEADER_BYTES {
        Err(
            validate::load_error(
                path,
                "Safetensors header length "@ + text::decimal(declared) + " exceeds limit "@
                    + text::decimal(MAX_HEADER_BYTES as nat),
            ),
        )
    } else if 8 + declared > file_len {
        Err(validate::load_error(path, "Safetensors header extends beyond file"@))
    } else {
        Ok(declared as usize)
    }
}

/// The length of the header, from the eight bytes that a shard starts with.
pub fn header_length(path: &str, len_bytes: &[u8; 8], file_len: u64) -> (r: Result<
    usize,
    ParserError,
>)
    ensures
        limits::outcome(r) == declared_length(path@, len_bytes@, file_len),
{
    let declared: u64 = le::le_u64(len_bytes);
    if declared > usize::MAX as u64 {
        return Err(
            model_load(
                path,
                text::concat3(
                    "Safetensors header length ",
                    text::decimal_string(declared).as_str(),
                    " does not fit in usize",
                ),
            ),
        );
    }
    if declared > MAX_HEADER_BYTES as u64 {
        return Err(
            model_load(
                path,
                text::concat4(
                    "Safetensors header length ",
                    text::decimal_string(declared).as_str(),
                    " exceeds limit ",
                    text::decimal_string(MAX_HEADER_BYTES as u64).as_str(),
                ),
            ),
        );
    }
    if 8 + declared > file_len {
        return Err(model_load(path, "Safetensors header extends beyond file".to_owned()));
    }
    Ok(declared as usize)
}

// ---------------------------------------------------------------------------
// Tensor entries
// ---------------------------------------------------------------------------
/// The sizes that an array lists.
pub open spec fn sizes_of(items: Seq<Json>) -> Option<Seq<usize>> {
    if forall|i: int| 0 <= i < items.len() ==> access::whole_size(#[trigger] items[i]) is Some {
        Some(Seq::new(items.len(), |i: int| access::whole_size(items[i])->Some_0))
    } else {
        None
    }
}

/// A tensor of the given type and shape over the given bytes of the data section.
pub open spec fn placed_record(
    path: Seq<char>,
    shard: Seq<char>,
    data_len: u64,
    name: Seq<char>,
    dtype: Seq<char>,
    shape: Seq<usize>,
    start: usize,
    end: usize,
) -> Result<RecordView, ErrorView> {
    if start > end {
        Err(validate::tensor_load_error(path, name, " data_offsets are reversed"@))
    } else if end > data_len {
        Err(validate::tensor_load_error(path, name, " extends beyond Safetensors data section"@))
    } else {
        match validate::expected_size(dtype, shape, path, name) {
            Err(e) => Err(e),
            Ok(expected) => if expected != end - start {
                Err(
                    validate::tensor_load_error(
                        path,
                        name,
                        " byte size mismatch: shape/dtype imply "@ + text::decimal(expected as nat)
                            + " bytes, data_offsets span "@ + text::decimal((end - start) as nat)
                            + " bytes"@,
                    ),
                )
            } else {
                Ok(
                    RecordView {
                        name,
                        dtype,
                        shape,
                        byte_size: expected,
                        source_shard: shard,
                        start,
                        end,
                        labels: discovery::tensor_labels(name, shape),
                    },
                )
            },
        }
    }
}

/// The tensor of the given type and shape, with the data offsets that an array gives.
pub open spec fn offset_record(
    path: Seq<char>,
    shard: Seq<char>,
    data_len: u64,
    name: Seq<char>,
    dtype: Seq<char>,
    shape: Seq<usize>,
    offsets: Option<Json>,
) -> Result<RecordView, ErrorView> {
    match offsets {
        Some(Json::Array(items)) => if items.len() != 2 {
            Err(validate::tensor_load_error(path, name, " data_offsets must have length 2"@))
        } else {
            match (access::whole_size(items[0]), access::whole_size(items[1])) {
                (None, _) => Err(
                    validate::tensor_load_error(path, name, " has invalid start offset"@),
                ),
                (_, None) => Err(
                    validate::tensor_load_error(path, name, " has invalid end offset"@),
                ),
                (Some(start), Some(end)) => placed_record(
                    path,
                    shard,
                    data_len,
                    name,
                    dtype,
                    shape,
                    start,
                    end,
                ),
            }
        },
        _ => Err(validate::tensor_load_error(path, name, " is missing data_offsets"@)),
    }
}

/// The tensor that a header entry describes.
pub open spec fn entry_record(
    path: Seq<char>,
    shard: Seq<char>,
    data_len: u64,
    name: Seq<char>,
    value: Json,
) -> Result<RecordView, ErrorView> {
    match value {
        Json::Object(fields) => match access::field(fields, "dtype"@) {
            Some(Json::Text(dtype)) => match access::field(fields, "shape"@) {
                Some(Json::Array(items)) => match sizes_of(items) {
                    None => Err(validate::tensor_load_error(path, name, " has invalid shape"@)),
                    Some(shape) => offset_record(
                        path,
                        shard,
                        data_len,
                        name,
                        dtype,
                        shape,
                        access::field(fields, "data_offsets"@),
                    ),
                },
                _ => Err(validate::tensor_load_error(path, name, " is missing shape"@)),
            },
            _ => Err(validate::tensor_load_error(path, name, " is missing dtype"@)),
        },
        _ => Err(validate::tensor_load_error(path, name, " metadata must be an object"@)),
    }
}

fn read_sizes(items: &Vec<JsonValue>) -> (r: Option<Vec<usize>>)
    ensures
        match r {
            Some(v) => sizes_of(json::models(items@)) == Some(v@),
            None => sizes_of(json::models(items@)) is None,
        },
{
    let ghost all = json::models(items@);
    let mut r: Vec<usize> = Vec::new();
    let mut i: usize = 0;
    while i < items.len()
        invariant
            i <= items@.len(),
            all == json::models(items@),
            r@.len() == i,
            forall|k: int| 0 <= k < i ==> access::whole_size(#[trigger] all[k]) == Some(r@[k]),
        decreases items@.len() - i,
    {
        match items[i].as_usize() {
            None => {
                assert(access::whole_size(all[i as int]) is None);
                return None;
            },
            Some(n) => {
                r.push(n);
            },
        }
        i += 1;
    }
    assert(sizes_of(all)->Some_0 =~= r@);
    Some(r)
}

fn parse_placement(
    path: &str,
    source_shard: &str,
    data_len: u64,
    name: &str,
    dtype: &str,
    shape: Vec<usize>,
    start: usize,
    end: usize,
) -> (r: Result<SafetensorsTensorRecord, ParserError>)
    ensures
        error::viewed(r) == placed_record(
            path@,
            source_shard@,
            data_len,
            name@,
            dtype@,
            shape@,
            start,
            end,
        ),
{
    if start > end {
        return Err(tensor_load(path, name, " data_offsets are reversed"));
    }
    if end as u64 > data_len {
        return Err(tensor_load(path, name, " extends beyond Safetensors data section"));
    }
    let byte_size: usize = end - start;
    match expected_tensor_byte_size(dtype, shape.as_slice(), path, name) {
        Err(e) => Err(e),
        Ok(expected) => {
            if expected != byte_size {
                let problem = text::concat5(
                    " byte size mismatch: shape/dtype imply ",
                    text::decimal_string(expected as u64).as_str(),
                    " bytes, data_offsets span ",
                    text::decimal_string(byte_size as u64).as_str(),
                    " bytes",
                );
                return Err(tensor_load(path, name, problem.as_str()));
            }
            let labels = classify_tensor(name, shape.as_slice());
            Ok(
                SafetensorsTensorRecord {
                    name: name.to_owned(),
                    dtype: dtype.to_owned(),
                    shape,
                    byte_size,
                    source_shard: source_shard.to_owned(),
                    data_offsets: [start, end],
                    labels,
                },
            )
        },
    }
}

fn parse_offsets(
    path: &str,
    source_shard: &str,
    data_len: u64,
    name: &str,
    dtype: &str,
    shape: Vec<usize>,
    offsets: &Vec<JsonValue>,
) -> (r: Result<SafetensorsTensorRecord, ParserError>)
    ensures
        error::viewed(r) == offset_record(
            path@,
            source_shard@,
            data_len,
            name@,
            dtype@,
            shape@,
            Some(Json::Array(json::models(offsets@))),
        ),
{
    if offsets.len() != 2 {
        return Err(tensor_load(path, name, " data_offsets must have length 2"));
    }
    let start: usize = match offsets[0].as_usize() {
        Some(n) => n,
        None => {
            return Err(tensor_load(path, name, " has invalid start offset"));
        },
    };
    let end: usize = match offsets[1].as_usize() {
        Some(n) => n,
        None => {
            return Err(tensor_load(path, name, " has invalid end offset"));
        },
    };
    parse_placement(path, source_shard, data_len, name, dtype, shape, start, end)
}

fn parse_entry(path: &str, source_shard: &str, data_len: u64, name: &str, value: &JsonValue) -> (r:
    Result<SafetensorsTensorRecord, ParserError>)
    ensures
        error::viewed(r) == entry_record(path@, source_shard@, data_len, name@, value.model()),
{
    let fields = match value.as_object() {
        Some(fields) => fields,
        None => {
            return Err(tensor_load(path, name, " metadata must be an object"));
        },
    };
    let dtype = match find(fields, "dtype") {
        Some(v) => match v.as_str() {
            Some(s) => s,
            None => {
                return Err(tensor_load(path, name, " is missing dtype"));
            },
        },
        None => {
            return Err(tensor_load(path, name, " is missing dtype"));
        },
    };
    let items = match find(fields, "shape") {
        Some(v) => match v.as_array() {
            Some(items) => items,
            None => {
                return Err(tensor_load(path, name, " is missing shape"));
            },
        },
        None => {
            return Err(tensor_load(path, name, " is missing shape"));
        },
    };
    let shape = match read_sizes(items) {
        Some(shape) => shape,
        None => {
            return Err(tensor_load(path, name, " has invalid shape"));
        },
    };
    match find(fields, "data_offsets") {
        Some(v) => match v.as_array() {
            Some(offsets) => parse_offsets(
                path,
                source_shard,
                data_len,
                name,
                dtype,
                shape,
                offsets,
            ),
            None => Err(tensor_load(path, name, " is missing data_offsets")),
        },
        None => Err(tensor_load(path, name, " is missing data_offsets")),
    }
}

// ---------------------------------------------------------------------------
// Whole headers
// ---------------------------------------------------------------------------
/// What the first `n` entries of a header declare: the first that is refused decides.
pub open spec fn declared_entries(
    path: Seq<char>,
    shard: Seq<char>,
    data_len: u64,
    entries: Seq<(Seq<char>, Json)>,
    n: nat,
) -> Result<InspectionView, ErrorView>
    decreases n,
{
    if n == 0 || n > entries.len() {
        Ok(InspectionView { metadata: Map::empty(), tensors: Seq::empty() })
    } else {
        match declared_entries(path, shard, data_len, entries, (n - 1) as nat) {
            Err(e) => Err(e),
            Ok(before) => if entries[n - 1].0 == "__metadata__"@ {
                match access::metadata_table(path, entries[n - 1].1) {
                    Err(e) => Err(e),
                    Ok(table) => Ok(
                        InspectionView { metadata: table, tensors: before.tensors },
                    ),
                }
            } else {
                match entry_record(path, shard, data_len, entries[n - 1].0, entries[n - 1].1) {
                    Err(e) => Err(e),
                    Ok(t) => Ok(
                        InspectionView {
                            metadata: before.metadata,
                            tensors: before.tensors.push(t),
                        },
                    ),
                }
            },
        }
    }
}

/// What a shard with the given header and length declares.
pub open spec fn parsed_header(
    path: Seq<char>,
    shard: Seq<char>,
    file_len: u64,
    header_len: u64,
    header: Json,
) -> Result<InspectionView, ErrorView> {
    match header {
        Json::Object(entries) => if file_len < 8 + header_len {
            Err(validate::load_error(path, "Safetensors data range underflow"@))
        } else {
            let data_len = (file_len - 8 - header_len) as u64;
            match declared_entries(path, shard, data_len, entries, entries.len()) {
                Err(e) => Err(e),
                Ok(v) => match validate::data_ranges(path, v.tensors, data_len) {
                    Err(e) => Err(e),
                    Ok(_) => Ok(v),
                },
            }
        },
        _ => Err(validate::load_error(path, "Safetensors header must be a JSON object"@)),
    }
}

/// What a shard with the given header bytes and length declares.
pub open spec fn inspected_header(
    path: Seq<char>,
    shard: Seq<char>,
    file_len: u64,
    header_bytes: Seq<u8>,
) -> Result<InspectionView, ErrorView> {
    match access::document_of(header_bytes, path, "Safetensors header"@) {
        Err(e) => Err(e),
        Ok(j) => parsed_header(path, shard, file_len, header_bytes.len() as u64, j),
    }
}

proof fn lemma_refused_entry(
    path: Seq<char>,
    shard: Seq<char>,
    data_len: u64,
    entries: Seq<(Seq<char>, Json)>,
    n: nat,
)
    requires
        n <= entries.len(),
        declared_entries(path, shard, data_len, entries, n) is Err,
    ensures
        declared_entries(path, shard, data_len, entries, entries.len()) == declared_entries(
            path,
            shard,
            data_len,
            entries,
            n,
        ),
    decreases entries.len() - n,
{
    if n < entries.len() {
        lemma_refused_entry(path, shard, data_len, entries, n + 1);
    }
}

/// Read the metadata and the tensors that a header declares.
pub fn parse_header(
    path: &str,
    source_shard: &str,
    file_len: u64,
    header_len: u64,
    header: &JsonValue,
) -> (r: Result<ShardInspection, ParserError>)
    ensures
        error::viewed(r) == parsed_header(
            path@,
            source_shard@,
            file_len,
            header_len,
            header.model(),
        ),
{
    let entries = match header.as_object() {
        Some(entries) => entries,
        None => {
            return Err(model_load(path, "Safetensors header must be a JSON object".to_owned()));
        },
    };
    if file_len < 8 || file_len - 8 < header_len {
        return Err(model_load(path, "Safetensors data range underflow".to_owned()));
    }
    let data_len: u64 = file_len - 8 - header_len;
    let ghost all = json::entry_models(entries@);
    let mut metadata: StringMap<String> = StringMap::new();
    let mut tensors: Vec<SafetensorsTensorRecord> = Vec::new();
    let mut i: usize = 0;
    assert(ordered::value_views(metadata@) =~= Map::empty());
    assert(record::record_views(tensors@) =~= Seq::empty());
    while i < entries.len()
        invariant
            i <= entries@.len(),
            all == json::entry_models(entries@),
            header.model() == Json::Object(all),
            file_len >= 8 + header_len,
            data_len == file_len - 8 - header_len,
            declared_entries(path@, source_shard@, data_len, all, i as nat) == Ok::<
                InspectionView,
                ErrorView,
            >(
                InspectionView {
                    metadata: ordered::value_views(metadata@),
                    tensors: record::record_views(tensors@),
                },
            ),
        decreases entries@.len() - i,
    {
        let name = entries[i].0.as_str();
        assert(all[i as int] == (entries@[i as int].0@, entries@[i as int].1.model()));
        if text::equal(name, "__metadata__") {
            match parse_metadata_object(path, &entries[i].1) {
                Ok(table) => {
                    metadata = table;
                },
                Err(e) => {
                    proof {
                        lemma_refused_entry(path@, source_shard@, data_len, all, (i + 1) as nat);
                    }
                    return Err(e);
                },
            }
        } else {
            match parse_entry(path, source_shard, data_len, name, &entries[i].1) {
                Ok(t) => {
                    let ghost before = record::record_views(tensors@);
                    tensors.push(t);
                    assert(record::record_views(tensors@) =~= before.push(t@));
                },
                Err(e) => {
                    proof {
                        lemma_refused_entry(path@, source_shard@, data_len, all, (i + 1) as nat);
                    }
                    return Err(e);
                },
            }
        }
        i += 1;
    }
    match reject_tensor_data_ranges(path, &tensors, data_len) {
        Err(e) => Err(e),
        Ok(_) => Ok(ShardInspection { metadata, tensors }),
    }
}

/// Read the metadata and the tensors that the bytes of a header declare.
///
/// The bytes are those that [`header_length`] asks for.
pub fn inspect_header(path: &str, source_shard: &str, file_len: u64, header_bytes: &[u8]) -> (r:
    Result<ShardInspection, ParserError>)
    ensures
        error::viewed(r) == inspected_header(path@, source_shard@, file_len, header_bytes@),
{
    assert(header_bytes.len() == header_bytes@.len());
    match parse_json_rejecting_duplicate_keys(header_bytes, path, "Safetensors header") {
        Err(e) => Err(e),
        Ok(header) => parse_header(
            path,
            source_shard,
            file_len,
            header_bytes.len() as u64,
            &header,
        ),
    }
}

// ---------------------------------------------------------------------------
// Laws
// ---------------------------------------------------------------------------
/// The record is one that a header with `data_len` bytes of data can declare for the
/// shard: it lies in the data section and its size is that of its type and shape.
pub open spec fn fits_shard(t: RecordView, path: Seq<char>, shard: Seq<char>, data_len: u64) -> bool {
    &&& t.start <= t.end <= data_len
    &&& t.byte_size == t.end - t.start
    &&& validate::expected_size(t.dtype, t.shape, path, t.name) == Ok::<usize, ErrorView>(
        t.byte_size,
    )
    &&& t.source_shard == shard
    &&& t.labels == discovery::tensor_labels(t.name, t.shape)
}

proof fn lemma_declared_fit(
    path: Seq<char>,
    shard: Seq<char>,
    data_len: u64,
    entries: Seq<(Seq<char>, Json)>,
    n: nat,
)
    requires
        declared_entries(path, shard, data_len, entries, n) is Ok,
    ensures
        forall|i: int|
            #![trigger declared_entries(path, shard, data_len, entries, n)->Ok_0.tensors[i]]
            0 <= i < declared_entries(path, shard, data_len, entries, n)->Ok_0.tensors.len()
                ==> fits_shard(
                declared_entries(path, shard, data_len, entries, n)->Ok_0.tensors[i],
                path,
                shard,
                data_len,
            ),
    decreases n,
{
    if n > 0 && n <= entries.len() {
        lemma_declared_fit(path, shard, data_len, entries, (n - 1) as nat);
    }
}

/// Every tensor of an accepted header lies in the data section, is as large as its type
/// and shape make it, and belongs to the shard.
pub proof fn law_accepted_tensors_fit(
    path: Seq<char>,
    shard: Seq<char>,
    file_len: u64,
    header_len: u64,
    header: Json,
    i: int,
)
    requires
        parsed_header(path, shard, file_len, header_len, header) is Ok,
        0 <= i < parsed_header(path, shard, file_len, header_len, header)->Ok_0.tensors.len(),
    ensures
        file_len >= 8 + header_len,
        fits_shard(
            parsed_header(path, shard, file_len, header_len, header)->Ok_0.tensors[i],
            path,
            shard,
            (file_len - 8 - header_len) as u64,
        ),
{
    let data_len = (file_len - 8 - header_len) as u64;
    let entries = header->Object_0;
    lemma_declared_fit(path, shard, data_len, entries, entries.len());
}

/// The tensors of an accepted header tile the data section: every byte of it belongs to
/// exactly one tensor.
pub proof fn law_accepted_tensors_tile_the_data_section(
    path: Seq<char>,
    shard: Seq<char>,
    file_len: u64,
    header_len: u64,
    header: Json,
    byte: int,
)
    requires
        parsed_header(path, shard, file_len, header_len, header) is Ok,
        0 <= byte < file_len - 8 - header_len,
    ensures
        exists|i: int|
            0 <= i < parsed_header(path, shard, file_len, header_len, header)->Ok_0.tensors.len()
                && validate::covers(
                #[trigger] parsed_header(
                    path,
                    shard,
                    file_len,
                    header_len,
                    header,
                )->Ok_0.tensors[i],
                byte,
            ) && forall|j: int|
                0 <= j < parsed_header(
                    path,
                    shard,
                    file_len,
                    header_len,
                    header,
                )->Ok_0.tensors.len() && validate::covers(
                    #[trigger] parsed_header(
                        path,
                        shard,
                        file_len,
                        header_len,
                        header,
                    )->Ok_0.tensors[j],
                    byte,
                ) ==> j == i,
{
    let data_len = (file_len - 8 - header_len) as u64;
    let tensors = parsed_header(path, shard, file_len, header_len, header)->Ok_0.tensors;
    assert forall|i: int| 0 <= i < tensors.len() implies (#[trigger] tensors[i]).start
        <= tensors[i].end by {
        law_accepted_tensors_fit(path, shard, file_len, header_len, header, i);
    }
    validate::law_ranges_tile_the_data_section(path, tensors, data_len, byte);
    let i = choose|i: int| 0 <= i < tensors.len() && validate::covers(#[trigger] tensors[i], byte);
    assert(validate::covers(tensors[i], byte));
}

// ---------------------------------------------------------------------------
// Headers by what they say
// ---------------------------------------------------------------------------
/// The data of an accepted tensor spans as many bytes as its dtype and shape take.
pub proof fn law_accepted_spans_have_the_width(
    path: Seq<char>,
    shard: Seq<char>,
    file_len: u64,
    header_len: u64,
    header: Json,
    i: int,
)
    requires
        parsed_header(path, shard, file_len, header_len, header) is Ok,
        0 <= i < parsed_header(path, shard, file_len, header_len, header)->Ok_0.tensors.len(),
    ensures
        ({
            let t = parsed_header(path, shard, file_len, header_len, header)->Ok_0.tensors[i];
            let span = t.end - t.start;
            &&& dequant::size_product(t.shape) is Some
            &&& t.byte_size == span
            &&& ({
                let n = dequant::size_product(t.shape)->Some_0;
                &&& t.dtype == "C128"@ ==> span == 16 * n
                &&& t.dtype == "F64"@ ==> span == 8 * n
                &&& t.dtype == "I64"@ ==> span == 8 * n
                &&& t.dtype == "U64"@ ==> span == 8 * n
                &&& t.dtype == "C64"@ ==> span == 8 * n
                &&& t.dtype == "F32"@ ==> span == 4 * n
                &&& t.dtype == "TF32"@ ==> span == 4 * n
                &&& t.dtype == "I32"@ ==> span == 4 * n
                &&& t.dtype == "U32"@ ==> span == 4 * n
                &&& t.dtype == "F16"@ ==> span == 2 * n
                &&& t.dtype == "BF16"@ ==> span == 2 * n
                &&& t.dtype == "I16"@ ==> span == 2 * n
                &&& t.dtype == "U16"@ ==> span == 2 * n
                &&& t.dtype == "F8_E5M2"@ ==> span == 1 * n
                &&& t.dtype == "F8_E4M3"@ ==> span == 1 * n
                &&& t.dtype == "F8_E8M0"@ ==> span == 1 * n
                &&& t.dtype == "I8"@ ==> span == 1 * n
                &&& t.dtype == "U8"@ ==> span == 1 * n
                &&& t.dtype == "BOOL"@ ==> span == 1 * n
                &&& t.dtype == "INT4"@ ==> n <= 2 * span <= n + 1
                &&& t.dtype == "I4"@ ==> n <= 2 * span <= n + 1
                &&& t.dtype == "U4"@ ==> n <= 2 * span <= n + 1
            })
        }),
{
    law_accepted_tensors_fit(path, shard, file_len, header_len, header, i);
    let t = parsed_header(path, shard, file_len, header_len, header)->Ok_0.tensors[i];
    validate::law_dtypes_have_their_widths(t.dtype, t.shape, path, t.name, t.byte_size);
}

/// The header entry of a tensor.
pub open spec fn tensor_entry(t: RecordView) -> Json {
    Json::Object(
        seq![
            (
                "data_offsets"@,
                Json::Array(seq![Json::U64(t.start as u64), Json::U64(t.end as u64)]),
            ),
            ("dtype"@, Json::Text(t.dtype)),
            (
                "shape"@,
                Json::Array(Seq::new(t.shape.len(), |k: int| Json::U64(t.shape[k] as u64))),
            ),
        ],
    )
}

/// The header of tensors and of a table of strings.
pub open spec fn written_header(
    table: Seq<(Seq<char>, Seq<char>)>,
    records: Seq<RecordView>,
) -> Json {
    Json::Object(
        seq![
            (
                "__metadata__"@,
                Json::Object(Seq::new(table.len(), |k: int| (table[k].0, Json::Text(table[k].1)))),
            ),
        ] + Seq::new(records.len(), |k: int| (records[k].name, tensor_entry(records[k]))),
    )
}

proof fn lemma_entry_fields(t: RecordView)
    ensures
        ({
            let fields = tensor_entry(t)->Object_0;
            &&& access::field(fields, "dtype"@) == Some(Json::Text(t.dtype))
            &&& access::field(fields, "shape"@) == Some(
                Json::Array(Seq::new(t.shape.len(), |k: int| Json::U64(t.shape[k] as u64))),
            )
            &&& access::field(fields, "data_offsets"@) == Some(
                Json::Array(seq![Json::U64(t.start as u64), Json::U64(t.end as u64)]),
            )
        }),
{
    let fields = tensor_entry(t)->Object_0;
    reveal_strlit("dtype");
    reveal_strlit("shape");
    reveal_strlit("data_offsets");
    assert("dtype"@[0] == 'd' && "shape"@[0] == 's');
    assert("dtype"@.len() == 5 && "data_offsets"@.len() == 12);
    reveal_with_fuel(access::field, 4);
    assert(fields.drop_last().last() == fields[1]);
    assert(fields.drop_last().drop_last().last() == fields[0]);
}

proof fn lemma_entry_is_read(
    path: Seq<char>,
    shard: Seq<char>,
    data_len: u64,
    t: RecordView,
)
    requires
        t.start <= t.end <= data_len,
        validate::expected_size(t.dtype, t.shape, path, t.name) == Ok::<usize, ErrorView>(
            (t.end - t.start) as usize,
        ),
        t.byte_size == t.end - t.start,
        t.source_shard == shard,
        t.labels == discovery::tensor_labels(t.name, t.shape),
    ensures
        entry_record(path, shard, data_len, t.name, tensor_entry(t)) == Ok::<RecordView, ErrorView>(
            t,
        ),
{
    lemma_entry_fields(t);
    let items = Seq::new(t.shape.len(), |k: int| Json::U64(t.shape[k] as u64));
    assert forall|k: int| 0 <= k < items.len() implies access::whole_size(#[trigger] items[k])
        == Some(t.shape[k]) by {}
    assert(sizes_of(items)->Some_0 =~= t.shape);
}

proof fn lemma_declared(
    path: Seq<char>,
    shard: Seq<char>,
    data_len: u64,
    table: Seq<(Seq<char>, Seq<char>)>,
    records: Seq<RecordView>,
    n: nat,
)
    requires
        n <= records.len(),
        forall|k: int|
            0 <= k < records.len() ==> {
                let t = #[trigger] records[k];
                &&& t.name != "__metadata__"@
                &&& t.start <= t.end <= data_len
                &&& validate::expected_size(t.dtype, t.shape, path, t.name) == Ok::<
                    usize,
                    ErrorView,
                >((t.end - t.start) as usize)
                &&& t.byte_size == t.end - t.start
                &&& t.source_shard == shard
                &&& t.labels == discovery::tensor_labels(t.name, t.shape)
            },
    ensures
        ({
            let entries = written_header(table, records)->Object_0;
            let texts = Seq::new(table.len(), |k: int| (table[k].0, Json::Text(table[k].1)));
            declared_entries(path, shard, data_len, entries, n + 1) == Ok::<
                InspectionView,
                ErrorView,
            >(
                InspectionView {
                    metadata: access::string_table(texts, texts.len()),
                    tensors: records.take(n as int),
                },
            )
        }),
    decreases n,
{
    let entries = written_header(table, records)->Object_0;
    let texts = Seq::new(table.len(), |k: int| (table[k].0, Json::Text(table[k].1)));
    if n == 0 {
        lemma_all_texts(texts, 0);
        reveal_with_fuel(declared_entries, 2);
        assert(entries[0] == ("__metadata__"@, Json::Object(texts)));
        assert(records.take(0) =~= Seq::empty());
    } else {
        lemma_declared(path, shard, data_len, table, records, (n - 1) as nat);
        let t = records[n - 1];
        assert(entries[n as int] == (t.name, tensor_entry(t)));
        lemma_entry_is_read(path, shard, data_len, t);
        assert(records.take(n - 1).push(t) =~= records.take(n as int));
    }
}

/// Entries whose values are all strings have no first other one.
pub proof fn lemma_all_texts(entries: Seq<(Seq<char>, Json)>, i: int)
    requires
        0 <= i,
        forall|k: int| 0 <= k < entries.len() ==> (#[trigger] entries[k]).1 is Text,
    ensures
        access::first_other(entries, i) is None,
    decreases entries.len() - i,
{
    if i < entries.len() {
        assert(entries[i].1 is Text);
        lemma_all_texts(entries, i + 1);
    }
}

/// A table of strings under different keys holds each string under its key.
pub proof fn lemma_string_table(entries: Seq<(Seq<char>, Json)>, n: nat)
    requires
        n <= entries.len(),
        forall|i: int, j: int|
            0 <= i < j < entries.len() ==> (#[trigger] entries[i]).0 != (#[trigger] entries[j]).0,
        forall|k: int| 0 <= k < entries.len() ==> (#[trigger] entries[k]).1 is Text,
    ensures
        forall|i: int|
            0 <= i < n ==> access::string_table(entries, n).contains_key(
                (#[trigger] entries[i]).0,
            ) && access::string_table(entries, n)[entries[i].0] == entries[i].1->Text_0,
        forall|k: Seq<char>| #[trigger]
            access::string_table(entries, n).contains_key(k) ==> exists|i: int|
                0 <= i < n && (#[trigger] entries[i]).0 == k,
    decreases n,
{
    if n > 0 {
        lemma_string_table(entries, (n - 1) as nat);
        let before = access::string_table(entries, (n - 1) as nat);
        let after = access::string_table(entries, n);
        assert forall|k: Seq<char>| #[trigger] after.contains_key(k) implies exists|i: int|
            0 <= i < n && (#[trigger] entries[i]).0 == k by {
            if before.contains_key(k) {
                let i = choose|i: int| 0 <= i < n - 1 && (#[trigger] entries[i]).0 == k;
                assert(entries[i].0 == k);
            } else {
                assert(entries[n - 1].0 == k);
            }
        }
    }
}

/// A header that was written for tensors is accepted and read back: the records come out as
/// they were, in order, and the table of strings under its keys. The data ranges must follow
/// on one another from the start of the data to its end, in whatever order.
pub proof fn law_written_headers_are_read_back(
    path: Seq<char>,
    shard: Seq<char>,
    header_len: u64,
    data_len: u64,
    table: Seq<(Seq<char>, Seq<char>)>,
    records: Seq<RecordView>,
    chained: Seq<RecordView>,
)
    requires
        8 + header_len + data_len <= u64::MAX,
        forall|i: int, j: int|
            0 <= i < j < table.len() ==> (#[trigger] table[i]).0 != (#[trigger] table[j]).0,
        forall|k: int|
            0 <= k < records.len() ==> {
                let t = #[trigger] records[k];
                &&& t.name != "__metadata__"@
                &&& t.start <= t.end <= data_len
                &&& validate::expected_size(t.dtype, t.shape, path, t.name) == Ok::<
                    usize,
                    ErrorView,
                >((t.end - t.start) as usize)
                &&& t.byte_size == t.end - t.start
                &&& t.source_shard == shard
                &&& t.labels == discovery::tensor_labels(t.name, t.shape)
            },
        chained.to_multiset() == records.to_multiset(),
        validate::chains(chained, data_len as nat),
    ensures
        ({
            let r = parsed_header(
                path,
                shard,
                (8 + header_len + data_len) as u64,
                header_len,
                written_header(table, records),
            );
            &&& r is Ok
            &&& r->Ok_0.tensors == records
            &&& forall|i: int|
                0 <= i < table.len() ==> r->Ok_0.metadata.contains_key((#[trigger] table[i]).0)
                    && r->Ok_0.metadata[table[i].0] == table[i].1
            &&& forall|k: Seq<char>| #[trigger]
                r->Ok_0.metadata.contains_key(k) ==> exists|i: int|
                    0 <= i < table.len() && (#[trigger] table[i]).0 == k
        }),
{
    let texts = Seq::new(table.len(), |k: int| (table[k].0, Json::Text(table[k].1)));
    let entries = written_header(table, records)->Object_0;
    lemma_declared(path, shard, data_len, table, records, records.len());
    assert(records.take(records.len() as int) =~= records);
    assert(entries.len() == records.len() + 1);
    validate::law_chaining_ranges_are_accepted(path, records, chained, data_len);
    lemma_string_table(texts, texts.len());
    let m = access::string_table(texts, texts.len());
    assert forall|i: int| 0 <= i < table.len() implies m.contains_key((#[trigger] table[i]).0)
        && m[table[i].0] == table[i].1 by {
        assert(texts[i].0 == table[i].0);
    }
    assert forall|k: Seq<char>| #[trigger] m.contains_key(k) implies exists|i: int|
        0 <= i < table.len() && (#[trigger] table[i]).0 == k by {
        let i = choose|i: int| 0 <= i < texts.len() && (#[trigger] texts[i]).0 == k;
        assert(table[i].0 == k);
    }
}

/// The bytes of a header are read as the JSON that was written, in UTF-8.
pub proof fn law_header_bytes_are_json(
    path: Seq<char>,
    shard: Seq<char>,
    file_len: u64,
    header: Json,
)
    requires
        json_laws::canonical(header),
    ensures
        ({
            let bytes = vstd::utf8::encode_utf8(json::compact(header));
            inspected_header(path, shard, file_len, bytes) == parsed_header(
                path,
                shard,
                file_len,
                bytes.len() as u64,
                header,
            )
        }),
{
    let text = json::compact(header);
    vstd::utf8::encode_utf8_valid_utf8(text);
    vstd::utf8::encode_utf8_decode_utf8(text);
    json_laws::law_compact_is_read_back(header, path);
}

/// The header length is the number in the eight bytes in front, least significant first. It
/// is accepted exactly up to 64 MiB and to the end of the file.
pub proof fn law_header_length(path: Seq<char>, b: Seq<u8>, file_len: u64)
    requires
        b.len() == 8,
    ensures
        ({
            let n = b[0] + 0x100 * b[1] + 0x1_0000 * b[2] + 0x100_0000 * b[3] + 0x1_0000_0000 * b[4]
                + 0x100_0000_0000 * b[5] + 0x1_0000_0000_0000 * b[6] + 0x100_0000_0000_0000 * b[7];
            &&& declared_length(path, b, file_len) is Ok <==> n <= 64 * 1024 * 1024 && 8 + n
                <= file_len
            &&& declared_length(path, b, file_len) is Ok ==> declared_length(
                path,
                b,
                file_len,
            )->Ok_0 == n
        }),
{
    le::lemma_eight_bytes(b);
}

} // verus!
