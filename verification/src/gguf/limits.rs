//! Explicit resource budgets for untrusted GGUF inputs.
//!
//! GGUF headers declare counts, string lengths, array lengths, tensor ranks,
//! and offsets as `u64`. Those values must not drive unbounded allocation or
//! iteration. [`ParseLimits`] is the single policy object for those checks.
//! Default values are generous enough for production checkpoints; trusted
//! callers may raise or disable budgets without changing the default path.

use crate::error::{ErrorView, HostSizeField, ParseLimitKind, ParserError};
use vstd::prelude::*;

verus! {

/// Resource budgets applied before allocation or loops proportional to
/// values that the file declares.
///
/// Defaults accept large real checkpoints. Override individual fields for
/// tighter sandboxes, or use [`ParseLimits::trusted`] when the input is
/// already authenticated.
#[derive(Debug, Clone, Copy, PartialEq, Eq, Structural)]
pub struct ParseLimits {
    /// Maximum number of KV metadata pairs.
    pub max_kv_count: u64,
    /// Maximum number of tensor directory entries.
    pub max_tensor_count: u64,
    /// Maximum UTF-8 bytes in a single GGUF string.
    pub max_string_bytes: u64,
    /// Maximum nested-array elements visited while skipping metadata arrays.
    pub max_array_work_items: u64,
    /// Maximum tensor rank (`n_dims`).
    pub max_tensor_rank: u64,
    /// Maximum bytes consumed by the KV metadata section.
    pub max_metadata_bytes: u64,
}

/// The generous production defaults.
pub open spec fn default_limits() -> ParseLimits {
    ParseLimits {
        max_kv_count: 1_000_000,
        max_tensor_count: 1_000_000,
        max_string_bytes: 16_777_216,
        max_array_work_items: 16_000_000,
        max_tensor_rank: 8,
        max_metadata_bytes: 268_435_456,
    }
}

/// The budget that `limits` sets for `kind`.
pub open spec fn limit_budget(limits: ParseLimits, kind: ParseLimitKind) -> u64 {
    match kind {
        ParseLimitKind::KvCount => limits.max_kv_count,
        ParseLimitKind::TensorCount => limits.max_tensor_count,
        ParseLimitKind::StringBytes => limits.max_string_bytes,
        ParseLimitKind::ArrayWorkItems => limits.max_array_work_items,
        ParseLimitKind::TensorRank => limits.max_tensor_rank,
        ParseLimitKind::MetadataBytes => limits.max_metadata_bytes,
    }
}

/// A declared value against its budget: an error exactly when it is greater.
pub open spec fn check_limit(
    limits: ParseLimits,
    path: Seq<char>,
    kind: ParseLimitKind,
    declared: u64,
) -> Result<(), ErrorView> {
    if declared > limit_budget(limits, kind) {
        Err(
            ErrorView::LimitExceeded {
                path,
                limit: kind,
                declared,
                budget: limit_budget(limits, kind),
            },
        )
    } else {
        Ok(())
    }
}

/// A declared value as a host size: an error exactly when it does not fit.
pub open spec fn host_usize(value: u64, field: HostSizeField, path: Seq<char>) -> Result<
    usize,
    ErrorView,
> {
    if value > usize::MAX {
        Err(ErrorView::HostSizeOverflow { path, field, value })
    } else {
        Ok(value as usize)
    }
}

/// A declared value, first against its budget, then as a host size.
pub open spec fn bounded_host_usize(
    limits: ParseLimits,
    path: Seq<char>,
    kind: ParseLimitKind,
    field: HostSizeField,
    declared: u64,
) -> Result<usize, ErrorView> {
    match check_limit(limits, path, kind, declared) {
        Err(e) => Err(e),
        Ok(_) => host_usize(declared, field, path),
    }
}

/// `Result` with the error replaced by what it says.
pub open spec fn outcome<T>(r: Result<T, ParserError>) -> Result<T, ErrorView> {
    match r {
        Ok(v) => Ok(v),
        Err(e) => Err(e@),
    }
}

impl ParseLimits {
    /// Limits for already-authenticated inputs: every budget is `u64::MAX`.
    /// Host-size conversions, alignment overflow, and EOF checks still apply.
    pub fn trusted() -> (r: ParseLimits)
        ensures
            forall|kind: ParseLimitKind| #[trigger] limit_budget(r, kind) == u64::MAX,
    {
        ParseLimits {
            max_kv_count: u64::MAX,
            max_tensor_count: u64::MAX,
            max_string_bytes: u64::MAX,
            max_array_work_items: u64::MAX,
            max_tensor_rank: u64::MAX,
            max_metadata_bytes: u64::MAX,
        }
    }

    /// Budget associated with `kind`.
    pub fn budget(self, kind: ParseLimitKind) -> (r: u64)
        ensures
            r == limit_budget(self, kind),
    {
        match kind {
            ParseLimitKind::KvCount => self.max_kv_count,
            ParseLimitKind::TensorCount => self.max_tensor_count,
            ParseLimitKind::StringBytes => self.max_string_bytes,
            ParseLimitKind::ArrayWorkItems => self.max_array_work_items,
            ParseLimitKind::TensorRank => self.max_tensor_rank,
            ParseLimitKind::MetadataBytes => self.max_metadata_bytes,
        }
    }

    /// Fail closed when `declared` is strictly greater than the named budget.
    pub fn reject(self, path: &str, kind: ParseLimitKind, declared: u64) -> (r: Result<
        (),
        ParserError,
    >)
        ensures
            outcome(r) == check_limit(self, path@, kind, declared),
    {
        let budget: u64 = self.budget(kind);
        if declared > budget {
            Err(ParserError::limit_exceeded(path, kind, declared, budget))
        } else {
            Ok(())
        }
    }

    /// Reject `declared` against `kind`, then convert it to a host `usize`.
    pub fn bounded_usize(
        self,
        path: &str,
        kind: ParseLimitKind,
        field: HostSizeField,
        declared: u64,
    ) -> (r: Result<usize, ParserError>)
        ensures
            outcome(r) == bounded_host_usize(self, path@, kind, field, declared),
    {
        match self.reject(path, kind, declared) {
            Err(e) => Err(e),
            Ok(_) => u64_to_usize(declared, field, path),
        }
    }
}

impl Default for ParseLimits {
    fn default() -> (r: ParseLimits)
        ensures
            r == default_limits(),
    {
        ParseLimits {
            max_kv_count: 1_000_000,
            max_tensor_count: 1_000_000,
            max_string_bytes: 16 * 1024 * 1024,
            max_array_work_items: 16_000_000,
            max_tensor_rank: 8,
            max_metadata_bytes: 256 * 1024 * 1024,
        }
    }
}

/// Convert a file-declared `u64` to `usize`, naming the field on failure.
pub fn u64_to_usize(value: u64, field: HostSizeField, path: &str) -> (r: Result<
    usize,
    ParserError,
>)
    ensures
        outcome(r) == host_usize(value, field, path@),
{
    if value > usize::MAX as u64 {
        Err(ParserError::host_size(path, field, value))
    } else {
        Ok(value as usize)
    }
}

/// The least multiple of `alignment` that is at least `value`.
pub open spec fn align_up(value: nat, alignment: nat) -> nat {
    if alignment <= 1 {
        value
    } else {
        (((value + alignment - 1) / alignment as int) * alignment) as nat
    }
}

/// Round `value` up to a multiple of `alignment` without wrapping.
pub fn align_up_checked(value: usize, alignment: usize, path: &str) -> (r: Result<
    usize,
    ParserError,
>)
    ensures
        alignment > 1 && value + alignment - 1 > usize::MAX ==> outcome(r) == Err::<usize, _>(
            ErrorView::InvalidLayout { path: path@, reason: "aligned tensor data offset overflow"@ },
        ),
        alignment <= 1 || value + alignment - 1 <= usize::MAX ==> r is Ok && r->Ok_0 == align_up(
            value as nat,
            alignment as nat,
        ),
{
    if alignment <= 1 {
        return Ok(value);
    }
    let padding: usize = alignment - 1;
    match value.checked_add(padding) {
        None => Err(
            crate::error::invalid_layout(path, "aligned tensor data offset overflow".to_owned()),
        ),
        Some(padded) => {
            proof {
                vstd::arithmetic::div_mod::lemma_fundamental_div_mod(
                    padded as int,
                    alignment as int,
                );
                assert(alignment * (padded as int / alignment as int) == (padded as int
                    / alignment as int) * alignment) by (nonlinear_arith);
            }
            Ok(padded - (padded % alignment))
        },
    }
}

/// Rounding up gives the least multiple of the alignment that is not below the value.
pub proof fn law_align_up_is_least_multiple(value: nat, alignment: nat, other: nat)
    requires
        alignment >= 1,
    ensures
        align_up(value, alignment) >= value,
        align_up(value, alignment) % alignment == 0,
        align_up(value, alignment) - value < alignment,
        other >= value && other % alignment == 0 ==> align_up(value, alignment) <= other,
{
    let a = alignment as int;
    if alignment > 1 {
        let padded = value + a - 1;
        vstd::arithmetic::div_mod::lemma_fundamental_div_mod(padded, a);
        vstd::arithmetic::div_mod::lemma_mod_bound(padded, a);
        let q = padded / a;
        assert(a * q == q * a) by (nonlinear_arith);
        vstd::arithmetic::div_mod::lemma_mod_multiples_basic(q, a);
        if other >= value && other % alignment == 0 {
            vstd::arithmetic::div_mod::lemma_fundamental_div_mod(other as int, a);
            let k = other as int / a;
            assert(other == a * k);
            if k < q {
                assert(a * k <= a * (q - 1)) by (nonlinear_arith)
                    requires
                        k <= q - 1,
                        a > 0,
                ;
                assert(a * (q - 1) == a * q - a) by (nonlinear_arith);
                assert(false);
            }
            assert(q * a <= k * a) by (nonlinear_arith)
                requires
                    q <= k,
                    a > 0,
            ;
            assert(a * k == k * a) by (nonlinear_arith);
        }
    }
}

/// A value equal to its budget passes and the next greater value is rejected.
pub proof fn law_limits_are_inclusive(
    limits: ParseLimits,
    path: Seq<char>,
    kind: ParseLimitKind,
    declared: u64,
)
    ensures
        check_limit(limits, path, kind, limit_budget(limits, kind)) is Ok,
        check_limit(limits, path, kind, declared) is Ok <==> declared <= limit_budget(
            limits,
            kind,
        ),
{
}

/// Limits without budgets admit every declared value.
pub proof fn law_trusted_limits_admit_all(
    limits: ParseLimits,
    path: Seq<char>,
    kind: ParseLimitKind,
    declared: u64,
)
    requires
        forall|k: ParseLimitKind| #[trigger] limit_budget(limits, k) == u64::MAX,
    ensures
        check_limit(limits, path, kind, declared) is Ok,
{
}

} // verus!
