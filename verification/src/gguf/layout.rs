//! GGUF header, KV metadata and tensor directory.

use crate::error::{ErrorView, HostSizeField, ParseLimitKind, ParserError};
use crate::gguf::cursor;
use crate::gguf::cursor::{
    is_signed_layout_type, is_unsigned_layout_type, CursorView, GgufCursor,
    GGUF_VALUE_TYPE_FLOAT32, GGUF_VALUE_TYPE_STRING,
};
use crate::gguf::dequant;
use crate::gguf::limits;
use crate::gguf::limits::{align_up_checked, u64_to_usize, ParseLimits};
use crate::gguf::tensor;
use crate::gguf::tensor::{DType, Tensor, TensorView};
use crate::ordered;
use crate::ordered::StringMap;
use crate::text;
use vstd::prelude::*;
use vstd::slice::slice_subrange;

verus! {

/// The only GGUF version that is read.
pub const GGUF_VERSION: u32 = 3;

/// Alignment of the tensor data section unless the metadata says otherwise.
pub const DEFAULT_ALIGNMENT: usize = 32;

// ---------------------------------------------------------------------------
// Metadata
// ---------------------------------------------------------------------------
/// Parsed KV metadata: strings, integers (booleans among them) and the bit patterns of
/// 32-bit floats, by key. Other values are skipped.
#[derive(Debug, Clone, PartialEq, Eq)]
pub struct GgufMetadata {
    /// String values.
    pub strings: StringMap<String>,
    /// Integer and boolean values; signed values keep their bits.
    pub numerics: StringMap<u64>,
    /// Bit patterns of 32-bit float values.
    pub float32_bits: StringMap<u32>,
}

/// What the metadata says.
#[verifier::ext_equal]
pub struct MetadataView {
    pub strings: Map<Seq<char>, Seq<char>>,
    pub numerics: Map<Seq<char>, u64>,
    pub float32_bits: Map<Seq<char>, u32>,
}

impl View for GgufMetadata {
    type V = MetadataView;

    open spec fn view(&self) -> MetadataView {
        MetadataView {
            strings: ordered::value_views(self.strings@),
            numerics: self.numerics@,
            float32_bits: self.float32_bits@,
        }
    }
}

impl MetadataView {
    /// No metadata.
    pub open spec fn empty() -> MetadataView {
        MetadataView {
            strings: Map::empty(),
            numerics: Map::empty(),
            float32_bits: Map::empty(),
        }
    }

    /// The number under `key`.
    pub open spec fn number(self, key: Seq<char>) -> Option<u64> {
        if self.numerics.contains_key(key) {
            Some(self.numerics[key])
        } else {
            None
        }
    }

    /// The architecture, `unknown` unless stated.
    pub open spec fn arch(self) -> Seq<char> {
        if self.strings.contains_key("general.architecture"@) {
            self.strings["general.architecture"@]
        } else {
            "unknown"@
        }
    }

    /// The quantization: as stated, else after the file type, else `unknown`.
    pub open spec fn quant(self) -> Seq<char> {
        if self.strings.contains_key("general.quantization_type"@) {
            self.strings["general.quantization_type"@]
        } else {
            match self.number("general.file_type"@) {
                None => "unknown"@,
                Some(n) => if n == 0 {
                    "F32"@
                } else {
                    "GGUF("@ + text::decimal(n as nat) + ")"@
                },
            }
        }
    }

    /// The number under a key of the architecture's own section.
    pub open spec fn arch_number(self, suffix: Seq<char>) -> Option<u64> {
        self.number(self.arch() + suffix)
    }
}

impl Default for GgufMetadata {
    fn default() -> (r: GgufMetadata)
        ensures
            r@ == MetadataView::empty(),
    {
        let r = GgufMetadata {
            strings: StringMap::new(),
            numerics: StringMap::new(),
            float32_bits: StringMap::new(),
        };
        assert(r@ =~= MetadataView::empty());
        r
    }
}

impl GgufMetadata {
    /// The string under `key`.
    pub fn string(&self, key: &str) -> (r: Option<&str>)
        ensures
            match r {
                Some(s) => self@.strings.contains_key(key@) && s@ == self@.strings[key@],
                None => !self@.strings.contains_key(key@),
            },
    {
        match self.strings.get(key) {
            Some(s) => Some(s.as_str()),
            None => None,
        }
    }

    /// The integer or boolean under `key`.
    pub fn numeric(&self, key: &str) -> (r: Option<u64>)
        ensures
            r == self@.number(key@),
    {
        match self.numerics.get(key) {
            Some(n) => Some(*n),
            None => None,
        }
    }

    /// The bit pattern of the 32-bit float under `key`.
    pub fn float32_bits(&self, key: &str) -> (r: Option<u32>)
        ensures
            match r {
                Some(n) => self@.float32_bits.contains_key(key@) && n
                    == self@.float32_bits[key@],
                None => !self@.float32_bits.contains_key(key@),
            },
    {
        match self.float32_bits.get(key) {
            Some(n) => Some(*n),
            None => None,
        }
    }

    /// The model architecture, `"unknown"` when the file does not name one.
    pub fn architecture(&self) -> (r: &str)
        ensures
            r@ == self@.arch(),
    {
        match self.string("general.architecture") {
            Some(s) => s,
            None => "unknown",
        }
    }

    /// The quantization: `general.quantization_type`, else after `general.file_type`,
    /// else `"unknown"`.
    pub fn quantization(&self) -> (r: String)
        ensures
            r@ == self@.quant(),
    {
        match self.string("general.quantization_type") {
            Some(s) => s.to_owned(),
            None => match self.numeric("general.file_type") {
                None => "unknown".to_owned(),
                Some(n) => if n == 0 {
                    "F32".to_owned()
                } else {
                    text::concat3("GGUF(", text::decimal_string(n).as_str(), ")")
                },
            },
        }
    }

    fn architecture_numeric(&self, suffix: &str) -> (r: Option<u64>)
        ensures
            r == self@.arch_number(suffix@),
    {
        let key = text::concat2(self.architecture(), suffix);
        self.numeric(key.as_str())
    }

    /// Number of transformer blocks.
    pub fn block_count(&self) -> (r: Option<u64>)
        ensures
            r == self@.arch_number(".block_count"@),
    {
        self.architecture_numeric(".block_count")
    }

    /// Number of experts, under either of its two names.
    pub fn expert_count(&self) -> (r: Option<u64>)
        ensures
            r == (match self@.arch_number(".expert_count"@) {
                Some(n) => Some(n),
                None => self@.arch_number(".num_experts"@),
            }),
    {
        match self.architecture_numeric(".expert_count") {
            Some(n) => Some(n),
            None => self.architecture_numeric(".num_experts"),
        }
    }

    /// Number of experts used per token, under either of its two names.
    pub fn expert_used_count(&self) -> (r: Option<u64>)
        ensures
            r == (match self@.arch_number(".expert_used_count"@) {
                Some(n) => Some(n),
                None => self@.arch_number(".num_experts_per_tok"@),
            }),
    {
        match self.architecture_numeric(".expert_used_count") {
            Some(n) => Some(n),
            None => self.architecture_numeric(".num_experts_per_tok"),
        }
    }

    /// Width of the embedding.
    pub fn embedding_length(&self) -> (r: Option<u64>)
        ensures
            r == self@.arch_number(".embedding_length"@),
    {
        self.architecture_numeric(".embedding_length")
    }

    /// Number of attention heads.
    pub fn head_count(&self) -> (r: Option<u64>)
        ensures
            r == self@.arch_number(".attention.head_count"@),
    {
        self.architecture_numeric(".attention.head_count")
    }
}

// ---------------------------------------------------------------------------
// KV section
// ---------------------------------------------------------------------------
/// Metadata and alignment read so far.
#[verifier::ext_equal]
pub struct KvState {
    pub metadata: MetadataView,
    pub alignment: usize,
}

impl KvState {
    /// Nothing read yet.
    pub open spec fn start() -> KvState {
        KvState { metadata: MetadataView::empty(), alignment: DEFAULT_ALIGNMENT }
    }

    /// With a string.
    pub open spec fn with_string(self, key: Seq<char>, value: Seq<char>) -> KvState {
        KvState {
            metadata: MetadataView {
                strings: self.metadata.strings.insert(key, value),
                ..self.metadata
            },
            ..self
        }
    }

    /// With a number.
    pub open spec fn with_number(self, key: Seq<char>, value: u64) -> KvState {
        KvState {
            metadata: MetadataView {
                numerics: self.metadata.numerics.insert(key, value),
                ..self.metadata
            },
            ..self
        }
    }

    /// With the bits of a float.
    pub open spec fn with_float(self, key: Seq<char>, value: u32) -> KvState {
        KvState {
            metadata: MetadataView {
                float32_bits: self.metadata.float32_bits.insert(key, value),
                ..self.metadata
            },
            ..self
        }
    }
}

/// Read one value of `value_type` under `key`.
///
/// `general.alignment` must be a non-negative integer; zero counts as one. Strings,
/// integers, booleans and 32-bit floats are kept, everything else is skipped.
pub open spec fn read_kv_value(
    c: CursorView,
    state: KvState,
    key: Seq<char>,
    value_type: u32,
) -> (CursorView, Result<KvState, ErrorView>) {
    if key == "general.alignment"@ {
        match c.read_layout_size(value_type) {
            (s, Err(e)) => (s, Err(e)),
            (s, Ok(n)) => (
                s,
                Ok(
                    KvState {
                        alignment: if n == 0 {
                            1
                        } else {
                            n
                        },
                        ..state.with_number(key, n as u64)
                    },
                ),
            ),
        }
    } else if value_type == GGUF_VALUE_TYPE_STRING {
        match c.read_text() {
            (s, Err(e)) => (s, Err(e)),
            (s, Ok(v)) => (s, Ok(state.with_string(key, v))),
        }
    } else if cursor::signed_type(value_type) || cursor::unsigned_type(value_type) {
        match c.read_numeric(value_type) {
            (s, Err(e)) => (s, Err(e)),
            (s, Ok(v)) => (s, Ok(state.with_number(key, v))),
        }
    } else if value_type == GGUF_VALUE_TYPE_FLOAT32 {
        match c.read_word(4) {
            (s, Err(e)) => (s, Err(e)),
            (s, Ok(v)) => (s, Ok(state.with_float(key, v as u32))),
        }
    } else {
        match c.skip(value_type) {
            (s, Err(e)) => (s, Err(e)),
            (s, Ok(_)) => (s, Ok(state)),
        }
    }
}

/// Read one key, the type of its value, and the value.
pub open spec fn read_kv(c: CursorView, state: KvState) -> (
    CursorView,
    Result<KvState, ErrorView>,
) {
    match c.read_text() {
        (s, Err(e)) => (s, Err(e)),
        (s, Ok(key)) => match s.read_word(4) {
            (t, Err(e)) => (t, Err(e)),
            (t, Ok(value_type)) => read_kv_value(t, state, key, value_type as u32),
        },
    }
}

/// Read `count` pairs; a later pair replaces an earlier one of the same kind and key.
pub open spec fn read_kvs(c: CursorView, state: KvState, count: nat) -> (
    CursorView,
    Result<KvState, ErrorView>,
)
    decreases count,
{
    if count == 0 {
        (c, Ok(state))
    } else {
        match read_kv(c, state) {
            (s, Err(e)) => (s, Err(e)),
            (s, Ok(next)) => read_kvs(s, next, (count - 1) as nat),
        }
    }
}

struct KvReader {
    metadata: GgufMetadata,
    alignment: usize,
}

impl View for KvReader {
    type V = KvState;

    closed spec fn view(&self) -> KvState {
        KvState { metadata: self.metadata@, alignment: self.alignment }
    }
}

impl KvReader {
    fn read_value(&mut self, c: &mut GgufCursor<'_>, key: String, value_type: u32) -> (r: Result<
        (),
        ParserError,
    >)
        requires
            old(c)@.well_formed(),
        ensures
            final(c)@.well_formed(),
            final(c)@ == read_kv_value(old(c)@, old(self)@, key@, value_type).0,
            match r {
                Ok(_) => read_kv_value(old(c)@, old(self)@, key@, value_type).1 == Ok::<
                    KvState,
                    ErrorView,
                >(final(self)@),
                Err(e) => read_kv_value(old(c)@, old(self)@, key@, value_type).1 == Err::<
                    KvState,
                    ErrorView,
                >(e@),
            },
    {
        if text::equal(key.as_str(), "general.alignment") {
            match c.read_nonneg_layout_usize(value_type) {
                Err(e) => Err(e),
                Ok(n) => {
                    self.alignment = if n == 0 {
                        1
                    } else {
                        n
                    };
                    self.metadata.numerics.insert(key, n as u64);
                    Ok(())
                },
            }
        } else if value_type == GGUF_VALUE_TYPE_STRING {
            match c.read_string() {
                Err(e) => Err(e),
                Ok(v) => {
                    proof {
                        ordered::lemma_value_views_insert(self.metadata.strings@, key@, v);
                    }
                    self.metadata.strings.insert(key, v);
                    Ok(())
                },
            }
        } else if is_signed_layout_type(value_type) || is_unsigned_layout_type(value_type) {
            match c.read_numeric_as_u64(value_type) {
                Err(e) => Err(e),
                Ok(v) => {
                    self.metadata.numerics.insert(key, v);
                    Ok(())
                },
            }
        } else if value_type == GGUF_VALUE_TYPE_FLOAT32 {
            match c.read_u32() {
                Err(e) => Err(e),
                Ok(v) => {
                    self.metadata.float32_bits.insert(key, v);
                    Ok(())
                },
            }
        } else {
            c.skip_value(value_type)
        }
    }

    fn read_pair(&mut self, c: &mut GgufCursor<'_>) -> (r: Result<(), ParserError>)
        requires
            old(c)@.well_formed(),
        ensures
            final(c)@.well_formed(),
            final(c)@ == read_kv(old(c)@, old(self)@).0,
            match r {
                Ok(_) => read_kv(old(c)@, old(self)@).1 == Ok::<KvState, ErrorView>(final(self)@),
                Err(e) => read_kv(old(c)@, old(self)@).1 == Err::<KvState, ErrorView>(e@),
            },
    {
        let key = match c.read_string() {
            Err(e) => {
                return Err(e);
            },
            Ok(key) => key,
        };
        let value_type: u32 = match c.read_u32() {
            Err(e) => {
                return Err(e);
            },
            Ok(t) => t,
        };
        self.read_value(c, key, value_type)
    }
}

// ---------------------------------------------------------------------------
// Tensor directory
// ---------------------------------------------------------------------------
/// The error of an inconsistent tensor.
pub open spec fn tensor_error(path: Seq<char>, name: Seq<char>, problem: Seq<char>) -> ErrorView {
    ErrorView::InvalidLayout { path, reason: "tensor '"@ + name + "' "@ + problem }
}

/// A tensor of the file is not as it should be.
pub fn tensor_problem(path: &str, name: &str, problem: &str) -> (r: ParserError)
    ensures
        r@ == tensor_error(path@, name@, problem@),
{
    crate::error::invalid_layout(path, text::concat4("tensor '", name, "' ", problem))
}

/// Read `count` more dimensions.
pub open spec fn read_dims(c: CursorView, dims: Seq<usize>, count: nat) -> (
    CursorView,
    Result<Seq<usize>, ErrorView>,
)
    decreases count,
{
    if count == 0 {
        (c, Ok(dims))
    } else {
        match c.read_word(8) {
            (s, Err(e)) => (s, Err(e)),
            (s, Ok(v)) => match limits::host_usize(v as u64, HostSizeField::TensorDim, s.path) {
                Err(e) => (s, Err(e)),
                Ok(d) => read_dims(s, dims.push(d), (count - 1) as nat),
            },
        }
    }
}

/// Element count and payload length of a tensor of shape `dims`.
///
/// The element count must be addressable, the innermost dimension must be made of whole
/// blocks, and the type's layout must be known.
pub open spec fn tensor_size(
    path: Seq<char>,
    name: Seq<char>,
    dims: Seq<usize>,
    ggml_type: u32,
) -> Result<(usize, usize), ErrorView> {
    let dtype = tensor::code_dtype(ggml_type);
    match dequant::size_product(dims) {
        None => Err(tensor_error(path, name, "element count overflow"@)),
        Some(n) => match tensor::block_layout(dtype) {
            None => Err(
                tensor_error(
                    path,
                    name,
                    "has unknown byte-length for ggml_type="@ + text::decimal(ggml_type as nat),
                ),
            ),
            Some((block, _)) => if dims.len() > 0 && dims[0] as nat % block != 0 {
                Err(
                    tensor_error(
                        path,
                        name,
                        "innermost dim "@ + text::decimal(dims[0] as nat)
                            + " is not a multiple of block size "@ + text::decimal(block),
                    ),
                )
            } else {
                match tensor::packed_len(dtype, n) {
                    None => Err(
                        tensor_error(
                            path,
                            name,
                            "has unknown byte-length for ggml_type="@ + text::decimal(
                                ggml_type as nat,
                            ),
                        ),
                    ),
                    Some(len) => Ok((n as usize, len as usize)),
                }
            },
        },
    }
}

/// Read one directory entry: name, rank, dimensions, type and relative offset. Its
/// absolute offset is not known yet.
pub open spec fn read_entry(c: CursorView) -> (CursorView, Result<TensorView, ErrorView>) {
    match c.read_text() {
        (s, Err(e)) => (s, Err(e)),
        (s, Ok(name)) => match s.read_word(4) {
            (t, Err(e)) => (t, Err(e)),
            (t, Ok(rank)) => match limits::bounded_host_usize(
                t.limits,
                t.path,
                ParseLimitKind::TensorRank,
                HostSizeField::TensorRank,
                rank as u64,
            ) {
                Err(e) => (t, Err(e)),
                Ok(rank) => match read_dims(t, Seq::empty(), rank as nat) {
                    (u, Err(e)) => (u, Err(e)),
                    (u, Ok(dims)) => match u.read_word(4) {
                        (v, Err(e)) => (v, Err(e)),
                        (v, Ok(code)) => match v.read_word(8) {
                            (w, Err(e)) => (w, Err(e)),
                            (w, Ok(offset)) => match limits::host_usize(
                                offset as u64,
                                HostSizeField::RelativeOffset,
                                w.path,
                            ) {
                                Err(e) => (w, Err(e)),
                                Ok(relative_offset) => match tensor_size(
                                    w.path,
                                    name,
                                    dims,
                                    code as u32,
                                ) {
                                    Err(e) => (w, Err(e)),
                                    Ok((n_elements, byte_len)) => (
                                        w,
                                        Ok(
                                            TensorView {
                                                name,
                                                dims,
                                                dtype: tensor::code_dtype(code as u32),
                                                ggml_type: code as u32,
                                                n_elements,
                                                byte_len,
                                                relative_offset,
                                                absolute_offset: 0,
                                            },
                                        ),
                                    ),
                                },
                            },
                        },
                    },
                },
            },
        },
    }
}

/// Read `count` more directory entries.
pub open spec fn read_entries(c: CursorView, entries: Seq<TensorView>, count: nat) -> (
    CursorView,
    Result<Seq<TensorView>, ErrorView>,
)
    decreases count,
{
    if count == 0 {
        (c, Ok(entries))
    } else {
        match read_entry(c) {
            (s, Err(e)) => (s, Err(e)),
            (s, Ok(entry)) => read_entries(s, entries.push(entry), (count - 1) as nat),
        }
    }
}

/// An entry with its absolute offset, once the start of the data section is known. The
/// payload must lie inside the file.
pub open spec fn place_tensor(
    entry: TensorView,
    path: Seq<char>,
    data_offset: nat,
    file_len: nat,
) -> Result<TensorView, ErrorView> {
    let start = data_offset + entry.relative_offset;
    if start > usize::MAX {
        Err(tensor_error(path, entry.name, "absolute offset overflow"@))
    } else if start + entry.byte_len > usize::MAX {
        Err(tensor_error(path, entry.name, "byte range overflow"@))
    } else if start + entry.byte_len > file_len {
        Err(tensor_error(path, entry.name, "extends past EOF"@))
    } else {
        Ok(TensorView { absolute_offset: start as usize, ..entry })
    }
}

/// The entries placed and entered under their names, in order; a later entry replaces an
/// earlier one of the same name.
pub open spec fn place_tensors(
    directory: Map<Seq<char>, TensorView>,
    entries: Seq<TensorView>,
    path: Seq<char>,
    data_offset: nat,
    file_len: nat,
) -> Result<Map<Seq<char>, TensorView>, ErrorView>
    decreases entries.len(),
{
    if entries.len() == 0 {
        Ok(directory)
    } else {
        match place_tensor(entries[0], path, data_offset, file_len) {
            Err(e) => Err(e),
            Ok(t) => place_tensors(
                directory.insert(t.name, t),
                entries.skip(1),
                path,
                data_offset,
                file_len,
            ),
        }
    }
}

/// A parsed header.
#[verifier::ext_equal]
pub struct LayoutView {
    pub metadata: MetadataView,
    pub tensors: Map<Seq<char>, TensorView>,
    pub alignment: usize,
    pub data_offset: usize,
}

/// Read magic, version and the two counts.
pub open spec fn read_header(c: CursorView) -> (CursorView, Result<(usize, usize), ErrorView>) {
    match c.take(4) {
        (s, Err(e)) => (s, Err(e)),
        (s, Ok(magic)) => if magic != seq![0x47u8, 0x47u8, 0x55u8, 0x46u8] {
            (s, Err(s.unsupported("invalid GGUF magic"@)))
        } else {
            match s.read_word(4) {
                (t, Err(e)) => (t, Err(e)),
                (t, Ok(version)) => if version != GGUF_VERSION {
                    (
                        t,
                        Err(
                            t.unsupported("unsupported GGUF version "@ + text::decimal(version)),
                        ),
                    )
                } else {
                    match t.read_word(8) {
                        (u, Err(e)) => (u, Err(e)),
                        (u, Ok(tensor_count)) => match u.read_word(8) {
                            (v, Err(e)) => (v, Err(e)),
                            (v, Ok(kv_count)) => match limits::bounded_host_usize(
                                v.limits,
                                v.path,
                                ParseLimitKind::TensorCount,
                                HostSizeField::TensorCount,
                                tensor_count as u64,
                            ) {
                                Err(e) => (v, Err(e)),
                                Ok(tensors) => match limits::bounded_host_usize(
                                    v.limits,
                                    v.path,
                                    ParseLimitKind::KvCount,
                                    HostSizeField::KvCount,
                                    kv_count as u64,
                                ) {
                                    Err(e) => (v, Err(e)),
                                    Ok(kvs) => (v, Ok((tensors, kvs))),
                                },
                            },
                        },
                    }
                },
            }
        },
    }
}

/// The cursor at the start of a file.
pub open spec fn start_cursor(bytes: Seq<u8>, path: Seq<char>, limits: ParseLimits) -> CursorView {
    CursorView { bytes, offset: 0, path, limits, work: 0, origin: None }
}

/// The data section and the placed directory, after the header, the metadata and the
/// directory entries have been read up to `c`.
pub open spec fn finish_layout(c: CursorView, kvs: KvState, entries: Seq<TensorView>) -> Result<
    LayoutView,
    ErrorView,
> {
    if kvs.alignment > 1 && c.offset + kvs.alignment - 1 > usize::MAX {
        Err(
            ErrorView::InvalidLayout {
                path: c.path,
                reason: "aligned tensor data offset overflow"@,
            },
        )
    } else {
        let data_offset = limits::align_up(c.offset as nat, kvs.alignment as nat);
        match place_tensors(Map::empty(), entries, c.path, data_offset, c.bytes.len()) {
            Err(e) => Err(e),
            Ok(tensors) => Ok(
                LayoutView {
                    metadata: kvs.metadata,
                    tensors,
                    alignment: kvs.alignment,
                    data_offset: data_offset as usize,
                },
            ),
        }
    }
}

/// The layout of a GGUF file: header, `kv_count` pairs charged to the metadata budget,
/// `tensor_count` entries, then the data section at the next multiple of the alignment.
pub open spec fn parsed_layout(bytes: Seq<u8>, path: Seq<char>, limits: ParseLimits) -> Result<
    LayoutView,
    ErrorView,
> {
    match read_header(start_cursor(bytes, path, limits)) {
        (_, Err(e)) => Err(e),
        (c, Ok((tensor_count, kv_count))) => match read_kvs(
            CursorView { origin: Some(c.offset), ..c },
            KvState::start(),
            kv_count as nat,
        ) {
            (_, Err(e)) => Err(e),
            (d, Ok(kvs)) => match read_entries(
                CursorView { origin: None, ..d },
                Seq::empty(),
                tensor_count as nat,
            ) {
                (_, Err(e)) => Err(e),
                (f, Ok(entries)) => finish_layout(f, kvs, entries),
            },
        },
    }
}

fn read_counts(c: &mut GgufCursor<'_>, path: &str) -> (r: Result<(usize, usize), ParserError>)
    requires
        old(c)@.well_formed(),
        old(c)@.path == path@,
    ensures
        (final(c)@, limits::outcome(r)) == read_header(old(c)@),
        final(c)@.well_formed(),
        final(c)@.path == path@,
{
    let magic = match c.read_exact(4) {
        Err(e) => {
            return Err(e);
        },
        Ok(b) => b,
    };
    if !(magic[0] == 0x47 && magic[1] == 0x47 && magic[2] == 0x55 && magic[3] == 0x46) {
        assert(magic@ != seq![0x47u8, 0x47u8, 0x55u8, 0x46u8]);
        return Err(crate::error::unsupported(path, "invalid GGUF magic".to_owned()));
    }
    assert(magic@ =~= seq![0x47u8, 0x47u8, 0x55u8, 0x46u8]);
    let version: u32 = match c.read_u32() {
        Err(e) => {
            return Err(e);
        },
        Ok(n) => n,
    };
    if version != GGUF_VERSION {
        return Err(
            crate::error::unsupported(
                path,
                text::concat2(
                    "unsupported GGUF version ",
                    text::decimal_string(version as u64).as_str(),
                ),
            ),
        );
    }
    let tensor_count: u64 = match c.read_u64() {
        Err(e) => {
            return Err(e);
        },
        Ok(n) => n,
    };
    let kv_count: u64 = match c.read_u64() {
        Err(e) => {
            return Err(e);
        },
        Ok(n) => n,
    };
    let tensors: usize = match c.limits().bounded_usize(
        path,
        ParseLimitKind::TensorCount,
        HostSizeField::TensorCount,
        tensor_count,
    ) {
        Err(e) => {
            return Err(e);
        },
        Ok(n) => n,
    };
    let kvs: usize = match c.limits().bounded_usize(
        path,
        ParseLimitKind::KvCount,
        HostSizeField::KvCount,
        kv_count,
    ) {
        Err(e) => {
            return Err(e);
        },
        Ok(n) => n,
    };
    Ok((tensors, kvs))
}

/// The product of the dimensions, if the host can address it.
pub fn element_count(dims: &[usize]) -> (r: Option<usize>)
    ensures
        match r {
            Some(n) => dequant::size_product(dims@) == Some(n as nat),
            None => dequant::size_product(dims@) is None,
        },
{
    let mut n: usize = 1;
    let mut i: usize = 0;
    assert(dims@.take(0) =~= Seq::<usize>::empty());
    while i < dims.len()
        invariant
            i <= dims@.len(),
            dequant::size_product(dims@.take(i as int)) == Some(n as nat),
        decreases dims@.len() - i,
    {
        assert(dims@.take(i + 1).drop_last() =~= dims@.take(i as int));
        assert(dims@.take(i + 1).last() == dims@[i as int]);
        match n.checked_mul(dims[i]) {
            None => {
                proof {
                    dequant::lemma_size_product_prefix(dims@, i + 1);
                }
                return None;
            },
            Some(p) => {
                n = p;
            },
        }
        i += 1;
    }
    assert(dims@.take(i as int) =~= dims@);
    Some(n)
}

fn size_of_tensor(path: &str, name: &str, dims: &Vec<usize>, ggml_type: u32) -> (r: Result<
    (usize, usize),
    ParserError,
>)
    ensures
        limits::outcome(r) == tensor_size(path@, name@, dims@, ggml_type),
{
    let dtype = DType::from_ggml_type(ggml_type);
    let n_elements: usize = match element_count(dims.as_slice()) {
        None => {
            return Err(tensor_problem(path, name, "element count overflow"));
        },
        Some(n) => n,
    };
    match dtype.quant_block_size() {
        None => {},
        Some(block) => {
            if dims.len() > 0 && dims[0] % block != 0 {
                let problem = text::concat4(
                    "innermost dim ",
                    text::decimal_string(dims[0] as u64).as_str(),
                    " is not a multiple of block size ",
                    text::decimal_string(block as u64).as_str(),
                );
                return Err(tensor_problem(path, name, problem.as_str()));
            }
        },
    }
    match dtype.byte_len_for_elements(n_elements) {
        None => {
            let problem = text::concat2(
                "has unknown byte-length for ggml_type=",
                text::decimal_string(ggml_type as u64).as_str(),
            );
            Err(tensor_problem(path, name, problem.as_str()))
        },
        Some(len) => Ok((n_elements, len)),
    }
}

fn read_dimensions(c: &mut GgufCursor<'_>, path: &str, rank: usize) -> (r: Result<
    Vec<usize>,
    ParserError,
>)
    requires
        old(c)@.well_formed(),
        old(c)@.path == path@,
    ensures
        final(c)@.well_formed(),
        final(c)@.path == path@,
        final(c)@ == read_dims(old(c)@, Seq::empty(), rank as nat).0,
        match r {
            Ok(v) => read_dims(old(c)@, Seq::empty(), rank as nat).1 == Ok::<
                Seq<usize>,
                ErrorView,
            >(v@),
            Err(e) => read_dims(old(c)@, Seq::empty(), rank as nat).1 == Err::<
                Seq<usize>,
                ErrorView,
            >(e@),
        },
{
    let mut dims: Vec<usize> = Vec::new();
    let mut left: usize = rank;
    while left > 0
        invariant
            c@.well_formed(),
            c@.path == path@,
            read_dims(old(c)@, Seq::empty(), rank as nat) == read_dims(c@, dims@, left as nat),
        decreases left,
    {
        let value: u64 = match c.read_u64() {
            Err(e) => {
                return Err(e);
            },
            Ok(n) => n,
        };
        match u64_to_usize(value, HostSizeField::TensorDim, path) {
            Err(e) => {
                return Err(e);
            },
            Ok(d) => {
                dims.push(d);
            },
        }
        left -= 1;
    }
    Ok(dims)
}

/// What reading a tensor gave.
pub open spec fn tensor_outcome(r: Result<Tensor, ParserError>) -> Result<TensorView, ErrorView> {
    match r {
        Ok(t) => Ok(t@),
        Err(e) => Err(e@),
    }
}

fn read_tensor(c: &mut GgufCursor<'_>, path: &str) -> (r: Result<Tensor, ParserError>)
    requires
        old(c)@.well_formed(),
        old(c)@.path == path@,
    ensures
        (final(c)@, tensor_outcome(r)) == read_entry(old(c)@),
        final(c)@.well_formed(),
        final(c)@.path == path@,
{
    let name = match c.read_string() {
        Err(e) => {
            return Err(e);
        },
        Ok(s) => s,
    };
    let rank: u32 = match c.read_u32() {
        Err(e) => {
            return Err(e);
        },
        Ok(n) => n,
    };
    let rank: usize = match c.limits().bounded_usize(
        path,
        ParseLimitKind::TensorRank,
        HostSizeField::TensorRank,
        rank as u64,
    ) {
        Err(e) => {
            return Err(e);
        },
        Ok(n) => n,
    };
    let dims = match read_dimensions(c, path, rank) {
        Err(e) => {
            return Err(e);
        },
        Ok(d) => d,
    };
    let ggml_type: u32 = match c.read_u32() {
        Err(e) => {
            return Err(e);
        },
        Ok(n) => n,
    };
    let offset: u64 = match c.read_u64() {
        Err(e) => {
            return Err(e);
        },
        Ok(n) => n,
    };
    let relative_offset: usize = match u64_to_usize(offset, HostSizeField::RelativeOffset, path) {
        Err(e) => {
            return Err(e);
        },
        Ok(n) => n,
    };
    let (n_elements, byte_len): (usize, usize) = match size_of_tensor(
        path,
        name.as_str(),
        &dims,
        ggml_type,
    ) {
        Err(e) => {
            return Err(e);
        },
        Ok(s) => s,
    };
    Ok(
        Tensor {
            name,
            dims,
            dtype: DType::from_ggml_type(ggml_type),
            ggml_type,
            n_elements,
            byte_len,
            relative_offset,
            absolute_offset: 0,
        },
    )
}

/// The views of the tensors, in order.
pub open spec fn tensor_views(s: Seq<Tensor>) -> Seq<TensorView> {
    Seq::new(s.len(), |i: int| s[i]@)
}

fn read_directory(c: &mut GgufCursor<'_>, path: &str, count: usize) -> (r: Result<
    Vec<Tensor>,
    ParserError,
>)
    requires
        old(c)@.well_formed(),
        old(c)@.path == path@,
    ensures
        final(c)@.well_formed(),
        final(c)@.path == path@,
        final(c)@ == read_entries(old(c)@, Seq::empty(), count as nat).0,
        match r {
            Ok(v) => read_entries(old(c)@, Seq::empty(), count as nat).1 == Ok::<
                Seq<TensorView>,
                ErrorView,
            >(tensor_views(v@)),
            Err(e) => read_entries(old(c)@, Seq::empty(), count as nat).1 == Err::<
                Seq<TensorView>,
                ErrorView,
            >(e@),
        },
{
    let mut entries: Vec<Tensor> = Vec::new();
    let mut left: usize = count;
    assert(tensor_views(entries@) =~= Seq::empty());
    while left > 0
        invariant
            c@.well_formed(),
            c@.path == path@,
            read_entries(old(c)@, Seq::empty(), count as nat) == read_entries(
                c@,
                tensor_views(entries@),
                left as nat,
            ),
        decreases left,
    {
        let ghost before = tensor_views(entries@);
        match read_tensor(c, path) {
            Err(e) => {
                return Err(e);
            },
            Ok(t) => {
                entries.push(t);
                assert(tensor_views(entries@) =~= before.push(t@));
            },
        }
        left -= 1;
    }
    Ok(entries)
}

fn place_entry(entry: Tensor, path: &str, data_offset: usize, file_len: usize) -> (r: Result<
    Tensor,
    ParserError,
>)
    ensures
        tensor_outcome(r) == place_tensor(entry@, path@, data_offset as nat, file_len as nat),
{
    let start: usize = match data_offset.checked_add(entry.relative_offset) {
        None => {
            return Err(tensor_problem(path, entry.name.as_str(), "absolute offset overflow"));
        },
        Some(n) => n,
    };
    let end: usize = match start.checked_add(entry.byte_len) {
        None => {
            return Err(tensor_problem(path, entry.name.as_str(), "byte range overflow"));
        },
        Some(n) => n,
    };
    if end > file_len {
        return Err(tensor_problem(path, entry.name.as_str(), "extends past EOF"));
    }
    let mut placed = entry;
    placed.absolute_offset = start;
    Ok(placed)
}

fn place_directory(entries: Vec<Tensor>, path: &str, data_offset: usize, file_len: usize) -> (r:
    Result<StringMap<Tensor>, ParserError>)
    ensures
        match r {
            Ok(m) => place_tensors(
                Map::empty(),
                tensor_views(entries@),
                path@,
                data_offset as nat,
                file_len as nat,
            ) == Ok::<Map<Seq<char>, TensorView>, ErrorView>(ordered::value_views(m@)),
            Err(e) => place_tensors(
                Map::empty(),
                tensor_views(entries@),
                path@,
                data_offset as nat,
                file_len as nat,
            ) == Err::<Map<Seq<char>, TensorView>, ErrorView>(e@),
        },
{
    let ghost all = tensor_views(entries@);
    let ghost whole = place_tensors(
        Map::empty(),
        all,
        path@,
        data_offset as nat,
        file_len as nat,
    );
    let ghost originals = entries@;
    let mut directory: StringMap<Tensor> = StringMap::new();
    proof {
        assert(ordered::value_views(directory@) =~= Map::<Seq<char>, TensorView>::empty());
        assert(all.skip(0) =~= all);
    }
    for entry in it: entries.into_iter()
        invariant
            it.seq() == originals,
            all == tensor_views(originals),
            whole == place_tensors(
                ordered::value_views(directory@),
                all.skip(it.index() as int),
                path@,
                data_offset as nat,
                file_len as nat,
            ),
            whole == place_tensors(
                Map::empty(),
                all,
                path@,
                data_offset as nat,
                file_len as nat,
            ),
    {
        let ghost i = it.index() as int;
        assert(all.skip(i)[0] == entry@);
        assert(all.skip(i).skip(1) =~= all.skip(i + 1));
        match place_entry(entry, path, data_offset, file_len) {
            Err(e) => {
                return Err(e);
            },
            Ok(t) => {
                let name = t.name.clone();
                proof {
                    ordered::lemma_value_views_insert(directory@, name@, t);
                }
                directory.insert(name, t);
            },
        }
    }
    Ok(directory)
}

/// Parse the header, the KV metadata and the tensor directory of a GGUF file.
///
/// Gives the metadata, the directory by name, the alignment and the start of the tensor
/// data section.
pub fn parse_layout(bytes: &[u8], path: &str, limits: ParseLimits) -> (r: Result<
    (GgufMetadata, StringMap<Tensor>, usize, usize),
    ParserError,
>)
    ensures
        match r {
            Ok((metadata, tensors, alignment, data_offset)) => parsed_layout(bytes@, path@, limits)
                == Ok::<LayoutView, ErrorView>(
                LayoutView {
                    metadata: metadata@,
                    tensors: ordered::value_views(tensors@),
                    alignment,
                    data_offset,
                },
            ),
            Err(e) => parsed_layout(bytes@, path@, limits) == Err::<LayoutView, ErrorView>(e@),
        },
{
    let mut c = GgufCursor::with_limits(bytes, path, limits);
    let (tensor_count, kv_count): (usize, usize) = match read_counts(&mut c, path) {
        Err(e) => {
            return Err(e);
        },
        Ok(counts) => counts,
    };
    c.begin_metadata_section();
    let ghost section = c@;
    let mut kvs = KvReader { metadata: GgufMetadata::default(), alignment: DEFAULT_ALIGNMENT };
    let mut left: usize = kv_count;
    while left > 0
        invariant
            c@.well_formed(),
            c@.path == path@,
            c@.bytes == bytes@,
            read_kvs(section, KvState::start(), kv_count as nat) == read_kvs(
                c@,
                kvs@,
                left as nat,
            ),
            parsed_layout(bytes@, path@, limits) == (match read_kvs(
                section,
                KvState::start(),
                kv_count as nat,
            ) {
                (_, Err(e)) => Err(e),
                (d, Ok(k)) => match read_entries(
                    CursorView { origin: None, ..d },
                    Seq::empty(),
                    tensor_count as nat,
                ) {
                    (_, Err(e)) => Err(e),
                    (f, Ok(entries)) => finish_layout(f, k, entries),
                },
            }),
        decreases left,
    {
        proof {
            lemma_kv_keeps(c@, kvs@);
        }
        match kvs.read_pair(&mut c) {
            Err(e) => {
                return Err(e);
            },
            Ok(_) => {},
        }
        left -= 1;
    }
    c.end_metadata_section();
    proof {
        lemma_entries_keep(c@, Seq::empty(), tensor_count as nat);
    }
    let entries = match read_directory(&mut c, path, tensor_count) {
        Err(e) => {
            return Err(e);
        },
        Ok(v) => v,
    };
    let data_offset: usize = match align_up_checked(c.offset(), kvs.alignment, path) {
        Err(e) => {
            return Err(e);
        },
        Ok(n) => n,
    };
    match place_directory(entries, path, data_offset, bytes.len()) {
        Err(e) => Err(e),
        Ok(tensors) => Ok((kvs.metadata, tensors, kvs.alignment, data_offset)),
    }
}

proof fn lemma_kv_keeps(c: CursorView, state: KvState)
    requires
        c.well_formed(),
    ensures
        c.leads_to(read_kv(c, state).0),
{
    match c.read_text() {
        (s, Err(_)) => {},
        (s, Ok(_)) => match s.read_word(4) {
            (t, Err(_)) => {},
            (t, Ok(value_type)) => {
                cursor::law_skip_moves_forward(t, value_type as u32);
            },
        },
    }
}

proof fn lemma_dims_keep(c: CursorView, dims: Seq<usize>, count: nat)
    requires
        c.well_formed(),
    ensures
        c.leads_to(read_dims(c, dims, count).0),
    decreases count,
{
    if count > 0 {
        match c.read_word(8) {
            (s, Err(_)) => {},
            (s, Ok(v)) => match limits::host_usize(v as u64, HostSizeField::TensorDim, s.path) {
                Err(_) => {},
                Ok(d) => {
                    lemma_dims_keep(s, dims.push(d), (count - 1) as nat);
                },
            },
        }
    }
}

proof fn lemma_entry_keeps(c: CursorView)
    requires
        c.well_formed(),
    ensures
        c.leads_to(read_entry(c).0),
{
    match c.read_text() {
        (s, Err(_)) => {},
        (s, Ok(_)) => match s.read_word(4) {
            (t, Err(_)) => {},
            (t, Ok(rank)) => match limits::bounded_host_usize(
                t.limits,
                t.path,
                ParseLimitKind::TensorRank,
                HostSizeField::TensorRank,
                rank as u64,
            ) {
                Err(_) => {},
                Ok(rank) => {
                    lemma_dims_keep(t, Seq::empty(), rank as nat);
                },
            },
        },
    }
}

proof fn lemma_entries_keep(c: CursorView, entries: Seq<TensorView>, count: nat)
    requires
        c.well_formed(),
    ensures
        c.leads_to(read_entries(c, entries, count).0),
    decreases count,
{
    if count > 0 {
        lemma_entry_keeps(c);
        match read_entry(c) {
            (s, Err(_)) => {},
            (s, Ok(entry)) => {
                lemma_entries_keep(s, entries.push(entry), (count - 1) as nat);
            },
        }
    }
}

// ---------------------------------------------------------------------------
// Parsed files
// ---------------------------------------------------------------------------
/// The payload of a tensor in a file: an error exactly when it does not lie inside.
pub open spec fn payload(bytes: Seq<u8>, path: Seq<char>, t: TensorView) -> Result<
    Seq<u8>,
    ErrorView,
> {
    if t.absolute_offset + t.byte_len > usize::MAX {
        Err(tensor_error(path, t.name, "byte range overflow"@))
    } else if t.absolute_offset + t.byte_len > bytes.len() {
        Err(tensor_error(path, t.name, "extends past EOF"@))
    } else {
        Ok(bytes.subrange(t.absolute_offset as int, t.absolute_offset + t.byte_len))
    }
}

/// What a slice of a file was found to be.
pub open spec fn slice_outcome(r: Result<&[u8], ParserError>) -> Result<Seq<u8>, ErrorView> {
    match r {
        Ok(b) => Ok(b@),
        Err(e) => Err(e@),
    }
}

/// The payload of `tensor` in the bytes of the file at `path`.
pub fn tensor_payload_bytes<'a>(bytes: &'a [u8], path: &str, tensor: &Tensor) -> (r: Result<
    &'a [u8],
    ParserError,
>)
    ensures
        slice_outcome(r) == payload(bytes@, path@, tensor@),
{
    match tensor.absolute_offset.checked_add(tensor.byte_len) {
        None => Err(tensor_problem(path, tensor.name.as_str(), "byte range overflow")),
        Some(end) => {
            if end > bytes.len() {
                Err(tensor_problem(path, tensor.name.as_str(), "extends past EOF"))
            } else {
                Ok(slice_subrange(bytes, tensor.absolute_offset, end))
            }
        },
    }
}

/// The entry under `name`, with the error when there is none.
pub open spec fn lookup(tensors: Map<Seq<char>, Tensor>, path: Seq<char>, name: Seq<char>) -> Result<
    Tensor,
    ErrorView,
> {
    if tensors.contains_key(name) {
        Ok(tensors[name])
    } else {
        Err(ErrorView::MissingTensor { name, path })
    }
}

/// What looking up a tensor gave.
pub open spec fn lookup_outcome(r: Result<&Tensor, ParserError>) -> Result<Tensor, ErrorView> {
    match r {
        Ok(t) => Ok(*t),
        Err(e) => Err(e@),
    }
}

/// Look up a tensor by exact name.
pub fn find_tensor<'a>(tensors: &'a StringMap<Tensor>, path: &String, name: &str) -> (r: Result<
    &'a Tensor,
    ParserError,
>)
    ensures
        lookup_outcome(r) == lookup(tensors@, path@, name@),
{
    match tensors.get(name) {
        Some(t) => Ok(t),
        None => Err(ParserError::MissingTensor { name: name.to_owned(), path: path.clone() }),
    }
}

/// A parsed GGUF checkpoint: metadata, tensor directory and the bytes of the file.
#[derive(Debug, Clone)]
pub struct GgufLayout {
    /// Path the checkpoint was read from (kept for error messages).
    pub path: String,
    /// Parsed KV metadata.
    pub metadata: GgufMetadata,
    /// Name -> tensor directory entry.
    pub tensors: StringMap<Tensor>,
    /// Byte alignment specified by the file (default 32).
    pub alignment: usize,
    /// Absolute byte offset where tensor payloads begin.
    pub tensor_data_offset: usize,
    /// The whole file.
    pub bytes: Vec<u8>,
}

impl GgufLayout {
    /// The parsed header that this layout holds.
    pub open spec fn header(self) -> LayoutView {
        LayoutView {
            metadata: self.metadata@,
            tensors: ordered::value_views(self.tensors@),
            alignment: self.alignment,
            data_offset: self.tensor_data_offset,
        }
    }

    /// Lookup a tensor by exact name.
    pub fn tensor(&self, name: &str) -> (r: Result<&Tensor, ParserError>)
        ensures
            lookup_outcome(r) == lookup(self.tensors@, self.path@, name@),
    {
        find_tensor(&self.tensors, &self.path, name)
    }

    /// Return a borrowed slice of the raw tensor payload bytes.
    pub fn tensor_bytes<'a>(&'a self, tensor: &Tensor) -> (r: Result<&'a [u8], ParserError>)
        ensures
            slice_outcome(r) == payload(self.bytes@, self.path@, tensor@),
    {
        tensor_payload_bytes(self.bytes.as_slice(), self.path.as_str(), tensor)
    }
}

/// Parse an already-loaded byte buffer as a GGUF checkpoint with the given budgets.
pub fn parse_bytes_with_limits(bytes: Vec<u8>, path: String, limits: ParseLimits) -> (r: Result<
    GgufLayout,
    ParserError,
>)
    ensures
        match r {
            Ok(layout) => {
                &&& parsed_layout(bytes@, path@, limits) == Ok::<LayoutView, ErrorView>(
                    layout.header(),
                )
                &&& layout.path@ == path@
                &&& layout.bytes@ == bytes@
            },
            Err(e) => parsed_layout(bytes@, path@, limits) == Err::<LayoutView, ErrorView>(e@),
        },
{
    match parse_layout(bytes.as_slice(), path.as_str(), limits) {
        Err(e) => Err(e),
        Ok((metadata, tensors, alignment, tensor_data_offset)) => Ok(
            GgufLayout { path, metadata, tensors, alignment, tensor_data_offset, bytes },
        ),
    }
}

/// Parse an already-loaded byte buffer as a GGUF checkpoint with the default budgets.
pub fn parse_bytes(bytes: Vec<u8>, path: String) -> (r: Result<GgufLayout, ParserError>)
    ensures
        match r {
            Ok(layout) => {
                &&& parsed_layout(bytes@, path@, limits::default_limits()) == Ok::<
                    LayoutView,
                    ErrorView,
                >(layout.header())
                &&& layout.path@ == path@
                &&& layout.bytes@ == bytes@
            },
            Err(e) => parsed_layout(bytes@, path@, limits::default_limits()) == Err::<
                LayoutView,
                ErrorView,
            >(e@),
        },
{
    parse_bytes_with_limits(bytes, path, ParseLimits::default())
}

// ---------------------------------------------------------------------------
// Laws
// ---------------------------------------------------------------------------
/// The sizes of an entry follow from its shape and type.
pub open spec fn sizes_agree(t: TensorView) -> bool {
    &&& dequant::size_product(t.dims) == Some(t.n_elements as nat)
    &&& t.dtype == tensor::code_dtype(t.ggml_type)
    &&& tensor::packed_len(t.dtype, t.n_elements as nat) == Some(t.byte_len as nat)
    &&& t.dims.len() > 0 ==> t.dims[0] as nat % tensor::block_layout(t.dtype)->Some_0.0 == 0
}

/// The entry lies in the data section of a file.
pub open spec fn placed_in(t: TensorView, data_offset: nat, file_len: nat) -> bool {
    &&& t.absolute_offset == data_offset + t.relative_offset
    &&& t.absolute_offset + t.byte_len <= file_len
}

proof fn lemma_size_product_bound(sizes: Seq<usize>)
    ensures
        match dequant::size_product(sizes) {
            Some(n) => n <= usize::MAX,
            None => true,
        },
    decreases sizes.len(),
{
    if sizes.len() > 0 {
        lemma_size_product_bound(sizes.drop_last());
    }
}

proof fn lemma_entry_sizes(c: CursorView)
    ensures
        match read_entry(c).1 {
            Ok(t) => sizes_agree(t),
            Err(_) => true,
        },
{
    match read_entry(c).1 {
        Ok(t) => {
            lemma_size_product_bound(t.dims);
        },
        Err(_) => {},
    }
}

proof fn lemma_entries_sizes(c: CursorView, entries: Seq<TensorView>, count: nat)
    requires
        forall|i: int| 0 <= i < entries.len() ==> sizes_agree(#[trigger] entries[i]),
    ensures
        match read_entries(c, entries, count).1 {
            Ok(all) => forall|i: int| 0 <= i < all.len() ==> sizes_agree(#[trigger] all[i]),
            Err(_) => true,
        },
    decreases count,
{
    if count > 0 {
        lemma_entry_sizes(c);
        match read_entry(c) {
            (s, Err(_)) => {},
            (s, Ok(entry)) => {
                lemma_entries_sizes(s, entries.push(entry), (count - 1) as nat);
            },
        }
    }
}

/// Every entry of a directory is under its own name, has agreeing sizes and is placed.
pub open spec fn directory_placed(
    directory: Map<Seq<char>, TensorView>,
    data_offset: nat,
    file_len: nat,
) -> bool {
    forall|name: Seq<char>| #[trigger]
        directory.contains_key(name) ==> {
            &&& directory[name].name == name
            &&& sizes_agree(directory[name])
            &&& placed_in(directory[name], data_offset, file_len)
        }
}

proof fn lemma_place_tensors(
    directory: Map<Seq<char>, TensorView>,
    entries: Seq<TensorView>,
    path: Seq<char>,
    data_offset: nat,
    file_len: nat,
)
    requires
        directory_placed(directory, data_offset, file_len),
        forall|i: int| 0 <= i < entries.len() ==> sizes_agree(#[trigger] entries[i]),
    ensures
        match place_tensors(directory, entries, path, data_offset, file_len) {
            Ok(all) => directory_placed(all, data_offset, file_len),
            Err(_) => true,
        },
    decreases entries.len(),
{
    if entries.len() > 0 {
        match place_tensor(entries[0], path, data_offset, file_len) {
            Err(_) => {},
            Ok(t) => {
                assert(sizes_agree(entries[0]));
                lemma_place_tensors(
                    directory.insert(t.name, t),
                    entries.skip(1),
                    path,
                    data_offset,
                    file_len,
                );
            },
        }
    }
}

/// Where the tensor directory of a file ends: behind the header, the `kv_count` pairs and
/// the `tensor_count` entries.
pub open spec fn directory_end(bytes: Seq<u8>, path: Seq<char>, limits: ParseLimits) -> int {
    let (c, counts) = read_header(start_cursor(bytes, path, limits));
    let (d, _) = read_kvs(
        CursorView { origin: Some(c.offset), ..c },
        KvState::start(),
        counts->Ok_0.1 as nat,
    );
    let (f, _) = read_entries(
        CursorView { origin: None, ..d },
        Seq::empty(),
        counts->Ok_0.0 as nat,
    );
    f.offset as int
}

/// Each tensor of a parsed file is entered under its own name, has the sizes that its
/// shape and type give, and lies inside the file, in the data section: its payload can be
/// read and has the stated length. The data section starts behind the tensor directory, so
/// that no payload shares a byte with what describes it.
pub proof fn law_parsed_tensors_lie_in_the_data_section(
    bytes: Seq<u8>,
    path: Seq<char>,
    limits: ParseLimits,
    name: Seq<char>,
)
    requires
        bytes.len() <= usize::MAX,
        parsed_layout(bytes, path, limits) is Ok,
        parsed_layout(bytes, path, limits)->Ok_0.tensors.contains_key(name),
    ensures
        ({
            let layout = parsed_layout(bytes, path, limits)->Ok_0;
            let t = layout.tensors[name];
            &&& t.name == name
            &&& sizes_agree(t)
            &&& t.absolute_offset == layout.data_offset + t.relative_offset
            &&& 24 <= directory_end(bytes, path, limits) <= layout.data_offset
            &&& payload(bytes, path, t) is Ok
            &&& payload(bytes, path, t)->Ok_0.len() == t.byte_len
        }),
{
    let c0 = start_cursor(bytes, path, limits);
    let (c, counts) = read_header(c0);
    let (tensor_count, kv_count) = counts->Ok_0;
    lemma_header_keeps(c0);
    let section = CursorView { origin: Some(c.offset), ..c };
    let (d, kvs) = read_kvs(section, KvState::start(), kv_count as nat);
    lemma_kvs_keep(section, KvState::start(), kv_count as nat);
    let directory_start = CursorView { origin: None, ..d };
    lemma_entries_keep(directory_start, Seq::empty(), tensor_count as nat);
    lemma_entries_sizes(directory_start, Seq::empty(), tensor_count as nat);
    let (f, entries) = read_entries(directory_start, Seq::empty(), tensor_count as nat);
    let alignment = kvs->Ok_0.alignment;
    if alignment >= 1 {
        limits::law_align_up_is_least_multiple(f.offset as nat, alignment as nat, 0);
    }
    let data_offset = limits::align_up(f.offset as nat, alignment as nat);
    lemma_place_tensors(Map::empty(), entries->Ok_0, f.path, data_offset, f.bytes.len());
}

/// The payload of a parsed tensor is as long as the wire code makes it.
#[verifier::rlimit(40)]
pub proof fn law_wire_code_gives_the_length(
    bytes: Seq<u8>,
    path: Seq<char>,
    limits: ParseLimits,
    name: Seq<char>,
)
    requires
        bytes.len() <= usize::MAX,
        parsed_layout(bytes, path, limits) is Ok,
        parsed_layout(bytes, path, limits)->Ok_0.tensors.contains_key(name),
    ensures
        ({
            let t = parsed_layout(bytes, path, limits)->Ok_0.tensors[name];
            let n = t.n_elements;
            let len = t.byte_len;
            &&& t.ggml_type == 0 ==> t.dtype == DType::F32 && n * 4 == len * 1
            &&& t.ggml_type == 1 ==> t.dtype == DType::F16 && n * 2 == len * 1
            &&& t.ggml_type == 2 ==> t.dtype == DType::Q4_0 && n * 18 == len * 32
            &&& t.ggml_type == 3 ==> t.dtype == DType::Q4_1 && n * 20 == len * 32
            &&& t.ggml_type == 6 ==> t.dtype == DType::Q5_0 && n * 22 == len * 32
            &&& t.ggml_type == 7 ==> t.dtype == DType::Q5_1 && n * 24 == len * 32
            &&& t.ggml_type == 8 ==> t.dtype == DType::Q8_0 && n * 34 == len * 32
            &&& t.ggml_type == 9 ==> t.dtype == DType::Q8_1 && n * 36 == len * 32
            &&& t.ggml_type == 10 ==> t.dtype == DType::Q2_K && n * 84 == len * 256
            &&& t.ggml_type == 11 ==> t.dtype == DType::Q3_K && n * 110 == len * 256
            &&& t.ggml_type == 12 ==> t.dtype == DType::Q4_K && n * 144 == len * 256
            &&& t.ggml_type == 13 ==> t.dtype == DType::Q5_K && n * 176 == len * 256
            &&& t.ggml_type == 14 ==> t.dtype == DType::Q6_K && n * 210 == len * 256
            &&& t.ggml_type == 15 ==> t.dtype == DType::Q8_K && n * 292 == len * 256
            &&& t.ggml_type == 16 ==> t.dtype == DType::IQ2_XXS && n * 66 == len * 256
            &&& t.ggml_type == 17 ==> t.dtype == DType::IQ2_XS && n * 74 == len * 256
            &&& t.ggml_type == 18 ==> t.dtype == DType::IQ3_XXS && n * 98 == len * 256
            &&& t.ggml_type == 19 ==> t.dtype == DType::IQ1_S && n * 50 == len * 256
            &&& t.ggml_type == 20 ==> t.dtype == DType::IQ4_NL && n * 18 == len * 32
            &&& t.ggml_type == 21 ==> t.dtype == DType::IQ3_S && n * 110 == len * 256
            &&& t.ggml_type == 22 ==> t.dtype == DType::IQ2_S && n * 82 == len * 256
            &&& t.ggml_type == 23 ==> t.dtype == DType::IQ4_XS && n * 136 == len * 256
            &&& t.ggml_type == 24 ==> t.dtype == DType::I8 && n * 1 == len * 1
            &&& t.ggml_type == 25 ==> t.dtype == DType::I16 && n * 2 == len * 1
            &&& t.ggml_type == 26 ==> t.dtype == DType::I32 && n * 4 == len * 1
            &&& t.ggml_type == 27 ==> t.dtype == DType::I64 && n * 8 == len * 1
            &&& t.ggml_type == 28 ==> t.dtype == DType::F64 && n * 8 == len * 1
            &&& t.ggml_type == 29 ==> t.dtype == DType::IQ1_M && n * 56 == len * 256
            &&& t.ggml_type == 30 ==> t.dtype == DType::BF16 && n * 2 == len * 1
            &&& t.ggml_type == 0x4949_334D ==> t.dtype == DType::IQ3_M_BLOCK && n * 111 == len * 256
            &&& t.ggml_type != 4 && t.ggml_type != 5 && (t.ggml_type <= 30 || t.ggml_type
                == 0x4949_334D)
        }),
{
    let t = parsed_layout(bytes, path, limits)->Ok_0.tensors[name];
    law_parsed_tensors_lie_in_the_data_section(bytes, path, limits, name);
    tensor::law_wire_codes(t.ggml_type, t.n_elements as nat);
    if t.ggml_type == 0 {
        lemma_in_blocks(t.n_elements as nat, 1, 4);
    }
    if t.ggml_type == 1 {
        lemma_in_blocks(t.n_elements as nat, 1, 2);
    }
    if t.ggml_type == 2 {
        lemma_in_blocks(t.n_elements as nat, 32, 18);
    }
    if t.ggml_type == 3 {
        lemma_in_blocks(t.n_elements as nat, 32, 20);
    }
    if t.ggml_type == 6 {
        lemma_in_blocks(t.n_elements as nat, 32, 22);
    }
    if t.ggml_type == 7 {
        lemma_in_blocks(t.n_elements as nat, 32, 24);
    }
    if t.ggml_type == 8 {
        lemma_in_blocks(t.n_elements as nat, 32, 34);
    }
    if t.ggml_type == 9 {
        lemma_in_blocks(t.n_elements as nat, 32, 36);
    }
    if t.ggml_type == 10 {
        lemma_in_blocks(t.n_elements as nat, 256, 84);
    }
    if t.ggml_type == 11 {
        lemma_in_blocks(t.n_elements as nat, 256, 110);
    }
    if t.ggml_type == 12 {
        lemma_in_blocks(t.n_elements as nat, 256, 144);
    }
    if t.ggml_type == 13 {
        lemma_in_blocks(t.n_elements as nat, 256, 176);
    }
    if t.ggml_type == 14 {
        lemma_in_blocks(t.n_elements as nat, 256, 210);
    }
    if t.ggml_type == 15 {
        lemma_in_blocks(t.n_elements as nat, 256, 292);
    }
    if t.ggml_type == 16 {
        lemma_in_blocks(t.n_elements as nat, 256, 66);
    }
    if t.ggml_type == 17 {
        lemma_in_blocks(t.n_elements as nat, 256, 74);
    }
    if t.ggml_type == 18 {
        lemma_in_blocks(t.n_elements as nat, 256, 98);
    }
    if t.ggml_type == 19 {
        lemma_in_blocks(t.n_elements as nat, 256, 50);
    }
    if t.ggml_type == 20 {
        lemma_in_blocks(t.n_elements as nat, 32, 18);
    }
    if t.ggml_type == 21 {
        lemma_in_blocks(t.n_elements as nat, 256, 110);
    }
    if t.ggml_type == 22 {
        lemma_in_blocks(t.n_elements as nat, 256, 82);
    }
    if t.ggml_type == 23 {
        lemma_in_blocks(t.n_elements as nat, 256, 136);
    }
    if t.ggml_type == 24 {
        lemma_in_blocks(t.n_elements as nat, 1, 1);
    }
    if t.ggml_type == 25 {
        lemma_in_blocks(t.n_elements as nat, 1, 2);
    }
    if t.ggml_type == 26 {
        lemma_in_blocks(t.n_elements as nat, 1, 4);
    }
    if t.ggml_type == 27 {
        lemma_in_blocks(t.n_elements as nat, 1, 8);
    }
    if t.ggml_type == 28 {
        lemma_in_blocks(t.n_elements as nat, 1, 8);
    }
    if t.ggml_type == 29 {
        lemma_in_blocks(t.n_elements as nat, 256, 56);
    }
    if t.ggml_type == 30 {
        lemma_in_blocks(t.n_elements as nat, 1, 2);
    }
    if t.ggml_type == 0x4949_334D {
        lemma_in_blocks(t.n_elements as nat, 256, 111);
    }
}

proof fn lemma_in_blocks(n: nat, per: nat, bytes: nat)
    requires
        per > 0,
        tensor::in_blocks(n, per, bytes) is Some,
    ensures
        n * bytes == tensor::in_blocks(n, per, bytes)->Some_0 * per,
{
    assert(n * bytes == (n / per * bytes) * per) by (nonlinear_arith)
        requires
            n % per == 0,
            per > 0,
    {
        assert(n == (n / per) * per);
        assert(((n / per) * per) * bytes == ((n / per) * bytes) * per);
    }
}

proof fn lemma_dims_rank(c: CursorView, dims: Seq<usize>, count: nat)
    ensures
        match read_dims(c, dims, count).1 {
            Ok(all) => all.len() == dims.len() + count,
            Err(_) => true,
        },
    decreases count,
{
    if count > 0 {
        match c.read_word(8) {
            (s, Err(_)) => {},
            (s, Ok(v)) => match limits::host_usize(v as u64, HostSizeField::TensorDim, s.path) {
                Err(_) => {},
                Ok(d) => {
                    lemma_dims_rank(s, dims.push(d), (count - 1) as nat);
                },
            },
        }
    }
}

proof fn lemma_entry_rank(c: CursorView)
    ensures
        match read_entry(c).1 {
            Ok(t) => t.dims.len() <= c.limits.max_tensor_rank,
            Err(_) => true,
        },
{
    match c.read_text() {
        (s, Err(_)) => {},
        (s, Ok(_)) => match s.read_word(4) {
            (t, Err(_)) => {},
            (t, Ok(rank)) => match limits::bounded_host_usize(
                t.limits,
                t.path,
                ParseLimitKind::TensorRank,
                HostSizeField::TensorRank,
                rank as u64,
            ) {
                Err(_) => {},
                Ok(rank) => {
                    lemma_dims_rank(t, Seq::empty(), rank as nat);
                },
            },
        },
    }
}

proof fn lemma_entries_rank(c: CursorView, entries: Seq<TensorView>, count: nat)
    requires
        c.well_formed(),
        forall|i: int|
            0 <= i < entries.len() ==> (#[trigger] entries[i]).dims.len()
                <= c.limits.max_tensor_rank,
    ensures
        match read_entries(c, entries, count).1 {
            Ok(all) => {
                &&& all.len() == entries.len() + count
                &&& forall|i: int|
                    0 <= i < all.len() ==> (#[trigger] all[i]).dims.len()
                        <= c.limits.max_tensor_rank
            },
            Err(_) => true,
        },
    decreases count,
{
    if count > 0 {
        lemma_entry_keeps(c);
        lemma_entry_rank(c);
        match read_entry(c) {
            (s, Err(_)) => {},
            (s, Ok(entry)) => {
                lemma_entries_rank(s, entries.push(entry), (count - 1) as nat);
            },
        }
    }
}

proof fn lemma_placed_within(
    directory: Map<Seq<char>, TensorView>,
    entries: Seq<TensorView>,
    path: Seq<char>,
    data_offset: nat,
    file_len: nat,
    rank: nat,
    count: nat,
)
    requires
        directory.dom().finite(),
        directory.dom().len() + entries.len() <= count,
        forall|name: Seq<char>| #[trigger]
            directory.contains_key(name) ==> directory[name].dims.len() <= rank,
        forall|i: int| 0 <= i < entries.len() ==> (#[trigger] entries[i]).dims.len() <= rank,
    ensures
        match place_tensors(directory, entries, path, data_offset, file_len) {
            Ok(all) => {
                &&& all.dom().finite()
                &&& all.dom().len() <= count
                &&& forall|name: Seq<char>| #[trigger]
                    all.contains_key(name) ==> all[name].dims.len() <= rank
            },
            Err(_) => true,
        },
    decreases entries.len(),
{
    if entries.len() > 0 {
        match place_tensor(entries[0], path, data_offset, file_len) {
            Err(_) => {},
            Ok(t) => {
                let next = directory.insert(t.name, t);
                assert(next.dom() =~= directory.dom().insert(t.name));
                assert(t.dims == entries[0].dims);
                lemma_placed_within(
                    next,
                    entries.skip(1),
                    path,
                    data_offset,
                    file_len,
                    rank,
                    count,
                );
            },
        }
    }
}

/// A parsed file is within its budgets: it has no more tensors, and no tensor has more
/// dimensions, than the limits admit.
pub proof fn law_parsed_files_are_within_budget(
    bytes: Seq<u8>,
    path: Seq<char>,
    limits: ParseLimits,
    name: Seq<char>,
)
    requires
        bytes.len() <= usize::MAX,
        parsed_layout(bytes, path, limits) is Ok,
    ensures
        ({
            let tensors = parsed_layout(bytes, path, limits)->Ok_0.tensors;
            &&& tensors.dom().finite()
            &&& tensors.dom().len() <= limits.max_tensor_count
            &&& tensors.contains_key(name) ==> tensors[name].dims.len() <= limits.max_tensor_rank
        }),
{
    let c0 = start_cursor(bytes, path, limits);
    let (c, counts) = read_header(c0);
    let (tensor_count, kv_count) = counts->Ok_0;
    lemma_header_keeps(c0);
    let section = CursorView { origin: Some(c.offset), ..c };
    let (d, kvs) = read_kvs(section, KvState::start(), kv_count as nat);
    lemma_kvs_keep(section, KvState::start(), kv_count as nat);
    let directory_start = CursorView { origin: None, ..d };
    lemma_entries_rank(directory_start, Seq::empty(), tensor_count as nat);
    let (f, entries) = read_entries(directory_start, Seq::empty(), tensor_count as nat);
    let data_offset = limits::align_up(f.offset as nat, kvs->Ok_0.alignment as nat);
    lemma_placed_within(
        Map::empty(),
        entries->Ok_0,
        f.path,
        data_offset,
        f.bytes.len(),
        limits.max_tensor_rank as nat,
        tensor_count as nat,
    );
}

proof fn lemma_header_keeps(c: CursorView)
    requires
        c.well_formed(),
    ensures
        c.leads_to(read_header(c).0),
        read_header(c).1 is Ok ==> read_header(c).0.offset == c.offset + 24,
{
}

proof fn lemma_kvs_keep(c: CursorView, state: KvState, count: nat)
    requires
        c.well_formed(),
    ensures
        c.leads_to(read_kvs(c, state, count).0),
    decreases count,
{
    if count > 0 {
        lemma_kv_keeps(c, state);
        match read_kv(c, state) {
            (s, Err(_)) => {},
            (s, Ok(next)) => {
                lemma_kvs_keep(s, next, (count - 1) as nat);
            },
        }
    }
}

proof fn lemma_kv_under_wider_limits(c: CursorView, wide: ParseLimits, state: KvState)
    requires
        cursor::no_stricter(wide, c.limits),
    ensures
        read_kv(c, state).1 is Ok ==> read_kv(c.under(wide), state) == (
            read_kv(c, state).0.under(wide),
            read_kv(c, state).1,
        ),
        read_kv(c, state).0.limits == c.limits,
{
    cursor::lemma_text_under_wider_limits(c, wide);
    match c.read_text() {
        (s, Err(_)) => {},
        (s, Ok(_)) => {
            cursor::lemma_reads_under_wider_limits(s, wide, 4);
            match s.read_word(4) {
                (t, Err(_)) => {},
                (t, Ok(value_type)) => {
                    let ty = value_type as u32;
                    cursor::lemma_text_under_wider_limits(t, wide);
                    cursor::lemma_reads_under_wider_limits(t, wide, 4);
                    cursor::law_skip_under_wider_limits(t, wide, ty);
                    match cursor::scalar_size(ty) {
                        Some(n) => {
                            cursor::lemma_reads_under_wider_limits(t, wide, n as int);
                        },
                        None => {},
                    }
                },
            }
        },
    }
}

proof fn lemma_kvs_under_wider_limits(c: CursorView, wide: ParseLimits, state: KvState, count: nat)
    requires
        cursor::no_stricter(wide, c.limits),
    ensures
        read_kvs(c, state, count).1 is Ok ==> read_kvs(c.under(wide), state, count) == (
            read_kvs(c, state, count).0.under(wide),
            read_kvs(c, state, count).1,
        ),
        read_kvs(c, state, count).0.limits == c.limits,
    decreases count,
{
    if count > 0 {
        lemma_kv_under_wider_limits(c, wide, state);
        match read_kv(c, state) {
            (s, Err(_)) => {},
            (s, Ok(next)) => {
                lemma_kvs_under_wider_limits(s, wide, next, (count - 1) as nat);
            },
        }
    }
}

proof fn lemma_dims_under_wider_limits(
    c: CursorView,
    wide: ParseLimits,
    dims: Seq<usize>,
    count: nat,
)
    requires
        cursor::no_stricter(wide, c.limits),
    ensures
        read_dims(c, dims, count).1 is Ok ==> read_dims(c.under(wide), dims, count) == (
            read_dims(c, dims, count).0.under(wide),
            read_dims(c, dims, count).1,
        ),
        read_dims(c, dims, count).0.limits == c.limits,
    decreases count,
{
    if count > 0 {
        cursor::lemma_reads_under_wider_limits(c, wide, 8);
        match c.read_word(8) {
            (s, Err(_)) => {},
            (s, Ok(v)) => match limits::host_usize(v as u64, HostSizeField::TensorDim, s.path) {
                Err(_) => {},
                Ok(d) => {
                    lemma_dims_under_wider_limits(s, wide, dims.push(d), (count - 1) as nat);
                },
            },
        }
    }
}

proof fn lemma_entry_under_wider_limits(c: CursorView, wide: ParseLimits)
    requires
        cursor::no_stricter(wide, c.limits),
    ensures
        read_entry(c).1 is Ok ==> read_entry(c.under(wide)) == (
            read_entry(c).0.under(wide),
            read_entry(c).1,
        ),
        read_entry(c).0.limits == c.limits,
{
    cursor::lemma_text_under_wider_limits(c, wide);
    match c.read_text() {
        (s, Err(_)) => {},
        (s, Ok(_)) => {
            cursor::lemma_reads_under_wider_limits(s, wide, 4);
            match s.read_word(4) {
                (t, Err(_)) => {},
                (t, Ok(rank)) => {
                    assert(limits::limit_budget(t.limits, ParseLimitKind::TensorRank)
                        <= limits::limit_budget(wide, ParseLimitKind::TensorRank));
                    match limits::bounded_host_usize(
                        t.limits,
                        t.path,
                        ParseLimitKind::TensorRank,
                        HostSizeField::TensorRank,
                        rank as u64,
                    ) {
                        Err(_) => {},
                        Ok(rank) => {
                            lemma_dims_under_wider_limits(t, wide, Seq::empty(), rank as nat);
                            match read_dims(t, Seq::empty(), rank as nat) {
                                (u, Err(_)) => {},
                                (u, Ok(_)) => {
                                    cursor::lemma_reads_under_wider_limits(u, wide, 4);
                                    match u.read_word(4) {
                                        (v, Err(_)) => {},
                                        (v, Ok(_)) => {
                                            cursor::lemma_reads_under_wider_limits(v, wide, 8);
                                        },
                                    }
                                },
                            }
                        },
                    }
                },
            }
        },
    }
}

proof fn lemma_entries_under_wider_limits(
    c: CursorView,
    wide: ParseLimits,
    entries: Seq<TensorView>,
    count: nat,
)
    requires
        cursor::no_stricter(wide, c.limits),
    ensures
        read_entries(c, entries, count).1 is Ok ==> read_entries(c.under(wide), entries, count)
            == (read_entries(c, entries, count).0.under(wide), read_entries(c, entries, count).1),
        read_entries(c, entries, count).0.limits == c.limits,
    decreases count,
{
    if count > 0 {
        lemma_entry_under_wider_limits(c, wide);
        match read_entry(c) {
            (s, Err(_)) => {},
            (s, Ok(entry)) => {
                lemma_entries_under_wider_limits(s, wide, entries.push(entry), (count - 1) as nat);
            },
        }
    }
}

proof fn lemma_header_under_wider_limits(c: CursorView, wide: ParseLimits)
    requires
        cursor::no_stricter(wide, c.limits),
    ensures
        read_header(c).1 is Ok ==> read_header(c.under(wide)) == (
            read_header(c).0.under(wide),
            read_header(c).1,
        ),
        read_header(c).0.limits == c.limits,
{
    cursor::lemma_reads_under_wider_limits(c, wide, 4);
    assert(limits::limit_budget(c.limits, ParseLimitKind::TensorCount) <= limits::limit_budget(
        wide,
        ParseLimitKind::TensorCount,
    ));
    assert(limits::limit_budget(c.limits, ParseLimitKind::KvCount) <= limits::limit_budget(
        wide,
        ParseLimitKind::KvCount,
    ));
    match c.take(4) {
        (s, Err(_)) => {},
        (s, Ok(_)) => {
            cursor::lemma_reads_under_wider_limits(s, wide, 4);
            match s.read_word(4) {
                (t, Err(_)) => {},
                (t, Ok(_)) => {
                    cursor::lemma_reads_under_wider_limits(t, wide, 8);
                    match t.read_word(8) {
                        (u, Err(_)) => {},
                        (u, Ok(_)) => {
                            cursor::lemma_reads_under_wider_limits(u, wide, 8);
                        },
                    }
                },
            }
        },
    }
}

/// Budgets only reject: a file that parses under some budgets parses under wider ones,
/// to the same layout.
pub proof fn law_budgets_only_reject(
    bytes: Seq<u8>,
    path: Seq<char>,
    limits: ParseLimits,
    wide: ParseLimits,
)
    requires
        cursor::no_stricter(wide, limits),
        parsed_layout(bytes, path, limits) is Ok,
    ensures
        parsed_layout(bytes, path, wide) == parsed_layout(bytes, path, limits),
{
    let c0 = start_cursor(bytes, path, limits);
    assert(c0.under(wide) == start_cursor(bytes, path, wide));
    lemma_header_under_wider_limits(c0, wide);
    let (c, counts) = read_header(c0);
    let (tensor_count, kv_count) = counts->Ok_0;
    let section = CursorView { origin: Some(c.offset), ..c };
    lemma_kvs_under_wider_limits(section, wide, KvState::start(), kv_count as nat);
    let (d, kvs) = read_kvs(section, KvState::start(), kv_count as nat);
    let directory_start = CursorView { origin: None, ..d };
    lemma_entries_under_wider_limits(directory_start, wide, Seq::empty(), tensor_count as nat);
}

} // verus!
