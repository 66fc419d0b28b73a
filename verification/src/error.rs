//! Error types of checkpoint parsing and of MoE weight extraction.
//!
//! Callers match on [`ParserError`] variants or render them with
//! [`ParserError::to_string`].

use crate::text;
use vstd::prelude::*;

verus! {

/// Which [`crate::ParseLimits`] field was exhausted.
#[derive(Debug, Clone, Copy, PartialEq, Eq, Hash, Structural)]
pub enum ParseLimitKind {
    /// [`crate::ParseLimits::max_kv_count`].
    KvCount,
    /// [`crate::ParseLimits::max_tensor_count`].
    TensorCount,
    /// [`crate::ParseLimits::max_string_bytes`].
    StringBytes,
    /// [`crate::ParseLimits::max_array_work_items`].
    ArrayWorkItems,
    /// [`crate::ParseLimits::max_tensor_rank`].
    TensorRank,
    /// [`crate::ParseLimits::max_metadata_bytes`].
    MetadataBytes,
}

/// The stable name of a limit.
pub open spec fn limit_name(kind: ParseLimitKind) -> Seq<char> {
    match kind {
        ParseLimitKind::KvCount => "max_kv_count"@,
        ParseLimitKind::TensorCount => "max_tensor_count"@,
        ParseLimitKind::StringBytes => "max_string_bytes"@,
        ParseLimitKind::ArrayWorkItems => "max_array_work_items"@,
        ParseLimitKind::TensorRank => "max_tensor_rank"@,
        ParseLimitKind::MetadataBytes => "max_metadata_bytes"@,
    }
}

impl ParseLimitKind {
    /// Stable name used in parser errors and tests.
    pub fn as_str(self) -> (r: &'static str)
        ensures
            r@ == limit_name(self),
    {
        match self {
            ParseLimitKind::KvCount => "max_kv_count",
            ParseLimitKind::TensorCount => "max_tensor_count",
            ParseLimitKind::StringBytes => "max_string_bytes",
            ParseLimitKind::ArrayWorkItems => "max_array_work_items",
            ParseLimitKind::TensorRank => "max_tensor_rank",
            ParseLimitKind::MetadataBytes => "max_metadata_bytes",
        }
    }
}

/// File-declared field that failed `u64 -> usize` conversion.
#[derive(Debug, Clone, Copy, PartialEq, Eq, Hash, Structural)]
pub enum HostSizeField {
    /// Length prefix of a GGUF string (KV key, string value, or tensor name).
    StringLen,
    /// Header `kv_count`.
    KvCount,
    /// Header `tensor_count`.
    TensorCount,
    /// Tensor directory `n_dims`.
    TensorRank,
    /// One tensor dimension.
    TensorDim,
    /// Tensor `relative_offset` in the data region.
    RelativeOffset,
    /// `general.alignment` layout field.
    Alignment,
    /// GGUF array element count.
    ArrayLen,
}

/// The stable name of a host-size field.
pub open spec fn field_name(field: HostSizeField) -> Seq<char> {
    match field {
        HostSizeField::StringLen => "string_len"@,
        HostSizeField::KvCount => "kv_count"@,
        HostSizeField::TensorCount => "tensor_count"@,
        HostSizeField::TensorRank => "tensor_rank"@,
        HostSizeField::TensorDim => "tensor_dim"@,
        HostSizeField::RelativeOffset => "relative_offset"@,
        HostSizeField::Alignment => "general.alignment"@,
        HostSizeField::ArrayLen => "array_len"@,
    }
}

impl HostSizeField {
    /// Stable name used in parser errors and tests.
    pub fn as_str(self) -> (r: &'static str)
        ensures
            r@ == field_name(self),
    {
        match self {
            HostSizeField::StringLen => "string_len",
            HostSizeField::KvCount => "kv_count",
            HostSizeField::TensorCount => "tensor_count",
            HostSizeField::TensorRank => "tensor_rank",
            HostSizeField::TensorDim => "tensor_dim",
            HostSizeField::RelativeOffset => "relative_offset",
            HostSizeField::Alignment => "general.alignment",
            HostSizeField::ArrayLen => "array_len",
        }
    }
}

/// Unified error type for checkpoint parsing and MoE weight extraction.
#[derive(Debug)]
pub enum ParserError {
    /// The underlying file could not be read.
    Io {
        /// Path of the checkpoint being opened.
        path: String,
        /// Text of the underlying I/O error.
        source: String,
    },
    /// The file is not a valid checkpoint (bad magic, unsupported
    /// version, unknown value type, unexpected Safetensors layout, ...).
    UnsupportedFormat {
        /// Path of the offending checkpoint.
        path: String,
        /// Human-readable explanation.
        reason: String,
    },
    /// A required tensor was not found in the checkpoint.
    MissingTensor {
        /// Tensor name (or suffix) that was looked up.
        name: String,
        /// Path of the checkpoint.
        path: String,
    },
    /// The checkpoint's on-disk layout is internally inconsistent
    /// (tensor extends past EOF, element-count overflow, etc.).
    InvalidLayout {
        /// Path of the checkpoint.
        path: String,
        /// Human-readable explanation.
        reason: String,
    },
    /// An expert index was out of range for the requested block or
    /// stacked tensor.
    ExpertOutOfRange {
        /// Block index that was queried.
        block: usize,
        /// Expert index that was queried.
        expert: usize,
        /// Number of experts actually available.
        available: usize,
    },
    /// A [`crate::ParseLimits`] budget was exhausted by a file-declared value.
    LimitExceeded {
        /// Path of the checkpoint.
        path: String,
        /// Budget that was exhausted.
        limit: ParseLimitKind,
        /// Declared or accumulated value that exceeded the budget.
        declared: u64,
        /// Configured budget for `limit`.
        budget: u64,
    },
    /// A file-declared `u64` could not be represented as a host `usize`.
    HostSizeOverflow {
        /// Path of the checkpoint.
        path: String,
        /// On-wire field that overflowed.
        field: HostSizeField,
        /// Declared value that does not fit in `usize`.
        value: u64,
    },
    /// A tensor name is claimed by more than one Safetensors shard.
    DuplicateTensorOwnership {
        /// Tensor name with conflicting owners.
        name: String,
        /// Checkpoint-relative shard paths that declare the tensor, sorted.
        shards: Vec<String>,
        /// Path of the checkpoint or index being inspected.
        path: String,
    },
    /// An index-referenced Safetensors shard is missing on disk.
    MissingShard {
        /// Shard path as declared in the index (checkpoint-relative).
        shard: String,
        /// Path of the index or checkpoint that referenced the shard.
        path: String,
    },
}

/// What a [`ParserError`] says, with its texts as character sequences.
#[verifier::ext_equal]
pub enum ErrorView {
    Io { path: Seq<char>, source: Seq<char> },
    UnsupportedFormat { path: Seq<char>, reason: Seq<char> },
    MissingTensor { name: Seq<char>, path: Seq<char> },
    InvalidLayout { path: Seq<char>, reason: Seq<char> },
    ExpertOutOfRange { block: usize, expert: usize, available: usize },
    LimitExceeded { path: Seq<char>, limit: ParseLimitKind, declared: u64, budget: u64 },
    HostSizeOverflow { path: Seq<char>, field: HostSizeField, value: u64 },
    DuplicateTensorOwnership { name: Seq<char>, shards: Seq<Seq<char>>, path: Seq<char> },
    MissingShard { shard: Seq<char>, path: Seq<char> },
}

impl View for ParserError {
    type V = ErrorView;

    open spec fn view(&self) -> ErrorView {
        match self {
            ParserError::Io { path, source } => ErrorView::Io { path: path@, source: source@ },
            ParserError::UnsupportedFormat { path, reason } => ErrorView::UnsupportedFormat {
                path: path@,
                reason: reason@,
            },
            ParserError::MissingTensor { name, path } => ErrorView::MissingTensor {
                name: name@,
                path: path@,
            },
            ParserError::InvalidLayout { path, reason } => ErrorView::InvalidLayout {
                path: path@,
                reason: reason@,
            },
            ParserError::ExpertOutOfRange { block, expert, available } => {
                ErrorView::ExpertOutOfRange {
                    block: *block,
                    expert: *expert,
                    available: *available,
                }
            },
            ParserError::LimitExceeded { path, limit, declared, budget } => {
                ErrorView::LimitExceeded {
                    path: path@,
                    limit: *limit,
                    declared: *declared,
                    budget: *budget,
                }
            },
            ParserError::HostSizeOverflow { path, field, value } => ErrorView::HostSizeOverflow {
                path: path@,
                field: *field,
                value: *value,
            },
            ParserError::DuplicateTensorOwnership { name, shards, path } => {
                ErrorView::DuplicateTensorOwnership {
                    name: name@,
                    shards: text::views(shards@),
                    path: path@,
                }
            },
            ParserError::MissingShard { shard, path } => ErrorView::MissingShard {
                shard: shard@,
                path: path@,
            },
        }
    }
}

/// A result with what it says in place of the value and of the error.
pub open spec fn viewed<T: View>(r: Result<T, ParserError>) -> Result<T::V, ErrorView> {
    match r {
        Ok(v) => Ok(v@),
        Err(e) => Err(e@),
    }
}

/// The message that an error renders to.
pub open spec fn error_message(e: ErrorView) -> Seq<char> {
    match e {
        ErrorView::Io { path, source } => "I/O error reading '"@ + path + "': "@ + source,
        ErrorView::UnsupportedFormat { path, reason } => "unsupported format in '"@ + path + "': "@
            + reason,
        ErrorView::MissingTensor { name, path } => "missing tensor '"@ + name + "' in '"@ + path
            + "'"@,
        ErrorView::InvalidLayout { path, reason } => "invalid layout in '"@ + path + "': "@
            + reason,
        ErrorView::ExpertOutOfRange { block, expert, available } => {
            "expert index out of range: block="@ + text::decimal(block as nat) + ", expert="@
                + text::decimal(expert as nat) + ", available="@ + text::decimal(available as nat)
        },
        ErrorView::LimitExceeded { path, limit, declared, budget } => "parse limit "@ + limit_name(
            limit,
        ) + " exceeded in '"@ + path + "': declared "@ + text::decimal(declared as nat)
            + ", budget "@ + text::decimal(budget as nat),
        ErrorView::HostSizeOverflow { path, field, value } => "host-size conversion failed in '"@
            + path + "': field "@ + field_name(field) + " value "@ + text::decimal(value as nat)
            + " does not fit usize"@,
        ErrorView::DuplicateTensorOwnership { name, shards, path } => {
            "duplicate tensor ownership for '"@ + name + "' across shards "@ + text::joined(
                shards,
                ", "@,
            ) + " in '"@ + path + "'"@
        },
        ErrorView::MissingShard { shard, path } => "missing shard '"@ + shard + "' referenced by '"@
            + path + "'"@,
    }
}

impl ParserError {
    /// A budget was exceeded.
    pub fn limit_exceeded(path: &str, limit: ParseLimitKind, declared: u64, budget: u64) -> (r:
        ParserError)
        ensures
            r@ == (ErrorView::LimitExceeded { path: path@, limit, declared, budget }),
    {
        ParserError::LimitExceeded { path: path.to_owned(), limit, declared, budget }
    }

    /// A declared size does not fit the host's word.
    pub fn host_size(path: &str, field: HostSizeField, value: u64) -> (r: ParserError)
        ensures
            r@ == (ErrorView::HostSizeOverflow { path: path@, field, value }),
    {
        ParserError::HostSizeOverflow { path: path.to_owned(), field, value }
    }

    /// Render the error as one line of text.
    pub fn to_string(&self) -> (r: String)
        ensures
            r@ == error_message(self@),
    {
        match self {
            ParserError::Io { path, source } => {
                text::concat4("I/O error reading '", path.as_str(), "': ", source.as_str())
            },
            ParserError::UnsupportedFormat { path, reason } => {
                text::concat4("unsupported format in '", path.as_str(), "': ", reason.as_str())
            },
            ParserError::MissingTensor { name, path } => {
                text::concat5("missing tensor '", name.as_str(), "' in '", path.as_str(), "'")
            },
            ParserError::InvalidLayout { path, reason } => {
                text::concat4("invalid layout in '", path.as_str(), "': ", reason.as_str())
            },
            ParserError::ExpertOutOfRange { block, expert, available } => {
                let mut m = text::concat4(
                    "expert index out of range: block=",
                    text::decimal_string(*block as u64).as_str(),
                    ", expert=",
                    text::decimal_string(*expert as u64).as_str(),
                );
                m.append(", available=");
                m.append(text::decimal_string(*available as u64).as_str());
                m
            },
            ParserError::LimitExceeded { path, limit, declared, budget } => {
                let mut m = text::concat5(
                    "parse limit ",
                    limit.as_str(),
                    " exceeded in '",
                    path.as_str(),
                    "': declared ",
                );
                m.append(text::decimal_string(*declared).as_str());
                m.append(", budget ");
                m.append(text::decimal_string(*budget).as_str());
                m
            },
            ParserError::HostSizeOverflow { path, field, value } => {
                let mut m = text::concat5(
                    "host-size conversion failed in '",
                    path.as_str(),
                    "': field ",
                    field.as_str(),
                    " value ",
                );
                m.append(text::decimal_string(*value).as_str());
                m.append(" does not fit usize");
                m
            },
            ParserError::DuplicateTensorOwnership { name, shards, path } => {
                let mut m = text::concat4(
                    "duplicate tensor ownership for '",
                    name.as_str(),
                    "' across shards ",
                    text::join(shards, ", ").as_str(),
                );
                m.append(" in '");
                m.append(path.as_str());
                m.append("'");
                m
            },
            ParserError::MissingShard { shard, path } => {
                text::concat5(
                    "missing shard '",
                    shard.as_str(),
                    "' referenced by '",
                    path.as_str(),
                    "'",
                )
            },
        }
    }
}

/// The file at `path` is not a supported checkpoint.
pub fn unsupported(path: &str, reason: String) -> (r: ParserError)
    ensures
        r@ == (ErrorView::UnsupportedFormat { path: path@, reason: reason@ }),
{
    ParserError::UnsupportedFormat { path: path.to_owned(), reason }
}

/// The layout of the file at `path` is inconsistent.
pub fn invalid_layout(path: &str, reason: String) -> (r: ParserError)
    ensures
        r@ == (ErrorView::InvalidLayout { path: path@, reason: reason@ }),
{
    ParserError::InvalidLayout { path: path.to_owned(), reason }
}

/// The message holds what the error does.
pub open spec fn tells(e: ErrorView) -> bool {
    let told = |part: Seq<char>| text::contains_text(error_message(e), part);
    match e {
        ErrorView::Io { path, source } => told(path) && told(source),
        ErrorView::UnsupportedFormat { path, reason } => told(path) && told(reason),
        ErrorView::MissingTensor { name, path } => told(name) && told(path),
        ErrorView::InvalidLayout { path, reason } => told(path) && told(reason),
        ErrorView::ExpertOutOfRange { block, expert, available } => {
            &&& told("block="@ + text::decimal(block as nat))
            &&& told("expert="@ + text::decimal(expert as nat))
            &&& told("available="@ + text::decimal(available as nat))
        },
        ErrorView::LimitExceeded { path, limit, declared, budget } => {
            &&& told(path)
            &&& told("declared "@ + text::decimal(declared as nat))
            &&& told("budget "@ + text::decimal(budget as nat))
        },
        ErrorView::HostSizeOverflow { path, field, value } => {
            &&& told(path)
            &&& told("value "@ + text::decimal(value as nat))
        },
        ErrorView::DuplicateTensorOwnership { name, shards, path } => {
            &&& told(name)
            &&& told(path)
            &&& told(text::joined(shards, ", "@))
        },
        ErrorView::MissingShard { shard, path } => told(shard) && told(path),
    }
}

/// A message tells all that the error holds: the path, the explanation or the name, and the
/// numbers as numerals.
pub proof fn law_messages_tell_what_errors_hold(e: ErrorView)
    ensures
        tells(e),
{
    match e {
        ErrorView::Io { .. } => {
            lemma_told_io(e);
        },
        ErrorView::UnsupportedFormat { .. } => {
            lemma_told_unsupported_format(e);
        },
        ErrorView::MissingTensor { .. } => {
            lemma_told_missing_tensor(e);
        },
        ErrorView::InvalidLayout { .. } => {
            lemma_told_invalid_layout(e);
        },
        ErrorView::ExpertOutOfRange { .. } => {
            lemma_told_expert_out_of_range(e);
        },
        ErrorView::LimitExceeded { .. } => {
            lemma_told_limit_exceeded(e);
        },
        ErrorView::HostSizeOverflow { .. } => {
            lemma_told_host_size_overflow(e);
        },
        ErrorView::DuplicateTensorOwnership { .. } => {
            lemma_told_duplicate_tensor_ownership(e);
        },
        ErrorView::MissingShard { .. } => {
            lemma_told_missing_shard(e);
        },
    }
}

proof fn lemma_told_io(e: ErrorView)
    requires
        e is Io,
    ensures
        tells(e),
{
    let m = error_message(e);
    if let ErrorView::Io { path, source } = e {
        lemma_told(m, "I/O error reading '"@, path, "': "@ + source);
        lemma_told(m, "I/O error reading '"@ + path + "': "@, source, Seq::empty());
    }
}

proof fn lemma_told_unsupported_format(e: ErrorView)
    requires
        e is UnsupportedFormat,
    ensures
        tells(e),
{
    let m = error_message(e);
    if let ErrorView::UnsupportedFormat { path, reason } = e {
        lemma_told(m, "unsupported format in '"@, path, "': "@ + reason);
        lemma_told(m, "unsupported format in '"@ + path + "': "@, reason, Seq::empty());
    }
}

proof fn lemma_told_missing_tensor(e: ErrorView)
    requires
        e is MissingTensor,
    ensures
        tells(e),
{
    let m = error_message(e);
    if let ErrorView::MissingTensor { name, path } = e {
        lemma_told(m, "missing tensor '"@, name, "' in '"@ + path + "'"@);
        lemma_told(m, "missing tensor '"@ + name + "' in '"@, path, "'"@);
    }
}

proof fn lemma_told_invalid_layout(e: ErrorView)
    requires
        e is InvalidLayout,
    ensures
        tells(e),
{
    let m = error_message(e);
    if let ErrorView::InvalidLayout { path, reason } = e {
        lemma_told(m, "invalid layout in '"@, path, "': "@ + reason);
        lemma_told(m, "invalid layout in '"@ + path + "': "@, reason, Seq::empty());
    }
}

proof fn lemma_told_expert_out_of_range(e: ErrorView)
    requires
        e is ExpertOutOfRange,
    ensures
        tells(e),
{
    let m = error_message(e);
    if let ErrorView::ExpertOutOfRange { block, expert, available } = e {
        let b = text::decimal(block as nat);
        let x = text::decimal(expert as nat);
        let a = text::decimal(available as nat);
        reveal_strlit("expert index out of range: block=");
        reveal_strlit("expert index out of range: ");
        reveal_strlit("block=");
        reveal_strlit(", expert=");
        reveal_strlit("expert=");
        reveal_strlit(", available=");
        reveal_strlit("available=");
        let start = "expert index out of range: "@;
        assert("expert index out of range: block="@ =~= start + "block="@);
        assert(", expert="@ =~= seq![',', ' '] + "expert="@);
        assert(", available="@ =~= seq![',', ' '] + "available="@);
        lemma_told(m, start, "block="@ + b, ", expert="@ + x + ", available="@ + a);
        lemma_told(
            m,
            start + "block="@ + b + seq![',', ' '],
            "expert="@ + x,
            ", available="@ + a,
        );
        lemma_told(
            m,
            start + "block="@ + b + ", expert="@ + x + seq![',', ' '],
            "available="@ + a,
            Seq::empty(),
        );
    }
}

proof fn lemma_told_limit_exceeded(e: ErrorView)
    requires
        e is LimitExceeded,
    ensures
        tells(e),
{
    let m = error_message(e);
    if let ErrorView::LimitExceeded { path, limit, declared, budget } = e {
        let d = text::decimal(declared as nat);
        let b = text::decimal(budget as nat);
        let name = limit_name(limit);
        reveal_strlit("': declared ");
        reveal_strlit("declared ");
        reveal_strlit(", budget ");
        reveal_strlit("budget ");
        assert("': declared "@ =~= seq!['\'', ':', ' '] + "declared "@);
        assert(", budget "@ =~= seq![',', ' '] + "budget "@);
        let start = "parse limit "@ + name + " exceeded in '"@;
        lemma_told(m, start, path, "': declared "@ + d + ", budget "@ + b);
        lemma_told(
            m,
            start + path + seq!['\'', ':', ' '],
            "declared "@ + d,
            ", budget "@ + b,
        );
        lemma_told(
            m,
            start + path + "': declared "@ + d + seq![',', ' '],
            "budget "@ + b,
            Seq::empty(),
        );
    }
}

proof fn lemma_told_host_size_overflow(e: ErrorView)
    requires
        e is HostSizeOverflow,
    ensures
        tells(e),
{
    let m = error_message(e);
    if let ErrorView::HostSizeOverflow { path, field, value } = e {
        let v = text::decimal(value as nat);
        let name = field_name(field);
        reveal_strlit(" value ");
        reveal_strlit("value ");
        assert(" value "@ =~= seq![' '] + "value "@);
        let start = "host-size conversion failed in '"@;
        lemma_told(
            m,
            start,
            path,
            "': field "@ + name + " value "@ + v + " does not fit usize"@,
        );
        lemma_told(
            m,
            start + path + "': field "@ + name + seq![' '],
            "value "@ + v,
            " does not fit usize"@,
        );
    }
}

proof fn lemma_told_duplicate_tensor_ownership(e: ErrorView)
    requires
        e is DuplicateTensorOwnership,
    ensures
        tells(e),
{
    let m = error_message(e);
    if let ErrorView::DuplicateTensorOwnership { name, shards, path } = e {
        let all = text::joined(shards, ", "@);
        let start = "duplicate tensor ownership for '"@;
        lemma_told(m, start, name, "' across shards "@ + all + " in '"@ + path + "'"@);
        lemma_told(m, start + name + "' across shards "@, all, " in '"@ + path + "'"@);
        lemma_told(m, start + name + "' across shards "@ + all + " in '"@, path, "'"@);
    }
}

proof fn lemma_told_missing_shard(e: ErrorView)
    requires
        e is MissingShard,
    ensures
        tells(e),
{
    let m = error_message(e);
    if let ErrorView::MissingShard { shard, path } = e {
        lemma_told(m, "missing shard '"@, shard, "' referenced by '"@ + path + "'"@);
        lemma_told(m, "missing shard '"@ + shard + "' referenced by '"@, path, "'"@);
    }
}

proof fn lemma_told(m: Seq<char>, before: Seq<char>, part: Seq<char>, after: Seq<char>)
    requires
        m =~= before + part + after,
    ensures
        text::contains_text(m, part),
{
    text::law_texts_contain_their_parts(before, part, after);
}

} // verus!
