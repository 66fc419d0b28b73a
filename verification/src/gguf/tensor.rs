//! Tensor directory entry, dtype enumeration and GGUF wire-type helpers.
//!
//! A [`Tensor`] is a pure-metadata descriptor: name, shape, dtype, and
//! byte offset within the file. It owns no weight data itself; callers
//! pass it back to `GgufLayout::tensor_bytes` to obtain the raw payload.
//!
//! GGUF stores each tensor's dtype as a `ggml_type` `u32`. The
//! `GGML_TYPE_*` constants give that table (same numbers as `ggml.h`)
//! so that types can be labelled and **packed byte lengths** computed.
//! [`ggml_type_label`] maps any `u32` code to a short diagnostic string.

use crate::error::{ErrorView, ParserError};
use crate::gguf::le;
use crate::text;
use vstd::prelude::*;
use vstd::slice::slice_subrange;

verus! {

/// `GGML_TYPE_F32`: 32-bit IEEE-754 float.
pub const GGML_TYPE_F32: u32 = 0;

/// `GGML_TYPE_F16`: 16-bit IEEE-754 half float.
pub const GGML_TYPE_F16: u32 = 1;

/// `GGML_TYPE_Q4_0`: 4-bit quantization (symmetric, block size 32).
pub const GGML_TYPE_Q4_0: u32 = 2;

/// `GGML_TYPE_Q4_1`: 4-bit quantization (with min, block size 32).
pub const GGML_TYPE_Q4_1: u32 = 3;

/// `GGML_TYPE_Q5_0`: 5-bit quantization (symmetric, block size 32).
pub const GGML_TYPE_Q5_0: u32 = 6;

/// `GGML_TYPE_Q5_1`: 5-bit quantization (with min, block size 32).
pub const GGML_TYPE_Q5_1: u32 = 7;

/// `GGML_TYPE_Q8_0`: 8-bit quantization (symmetric, block size 32).
pub const GGML_TYPE_Q8_0: u32 = 8;

/// `GGML_TYPE_Q8_1`: 8-bit quantization (with min, block size 32).
pub const GGML_TYPE_Q8_1: u32 = 9;

/// `GGML_TYPE_Q2_K`: k-quant 2-bit.
pub const GGML_TYPE_Q2_K: u32 = 10;

/// `GGML_TYPE_Q3_K`: k-quant 3-bit.
pub const GGML_TYPE_Q3_K: u32 = 11;

/// `GGML_TYPE_Q4_K`: k-quant 4-bit.
pub const GGML_TYPE_Q4_K: u32 = 12;

/// `GGML_TYPE_Q5_K`: k-quant 5-bit.
pub const GGML_TYPE_Q5_K: u32 = 13;

/// `GGML_TYPE_Q6_K`: k-quant 6-bit.
pub const GGML_TYPE_Q6_K: u32 = 14;

/// `GGML_TYPE_Q8_K`: k-quant 8-bit.
pub const GGML_TYPE_Q8_K: u32 = 15;

/// `GGML_TYPE_IQ2_XXS`: i-quant 2-bit extra-extra-small.
pub const GGML_TYPE_IQ2_XXS: u32 = 16;

/// `GGML_TYPE_IQ2_XS`: i-quant 2-bit extra-small.
pub const GGML_TYPE_IQ2_XS: u32 = 17;

/// `GGML_TYPE_IQ3_XXS`: i-quant 3-bit extra-extra-small.
pub const GGML_TYPE_IQ3_XXS: u32 = 18;

/// `GGML_TYPE_IQ1_S`: i-quant 1-bit small.
pub const GGML_TYPE_IQ1_S: u32 = 19;

/// `GGML_TYPE_IQ4_NL`: i-quant 4-bit non-linear.
pub const GGML_TYPE_IQ4_NL: u32 = 20;

/// `GGML_TYPE_IQ3_S`: i-quant 3-bit small (3.44 bpw).
pub const GGML_TYPE_IQ3_S: u32 = 21;

/// `GGML_TYPE_IQ2_S`: i-quant 2-bit small.
pub const GGML_TYPE_IQ2_S: u32 = 22;

/// `GGML_TYPE_IQ4_XS`: i-quant 4-bit extra-small.
pub const GGML_TYPE_IQ4_XS: u32 = 23;

/// `GGML_TYPE_I8`: 8-bit signed integer.
pub const GGML_TYPE_I8: u32 = 24;

/// `GGML_TYPE_I16`: 16-bit signed integer.
pub const GGML_TYPE_I16: u32 = 25;

/// `GGML_TYPE_I32`: 32-bit signed integer.
pub const GGML_TYPE_I32: u32 = 26;

/// `GGML_TYPE_I64`: 64-bit signed integer.
pub const GGML_TYPE_I64: u32 = 27;

/// `GGML_TYPE_F64`: 64-bit IEEE-754 double float.
pub const GGML_TYPE_F64: u32 = 28;

/// `GGML_TYPE_IQ1_M`: i-quant 1-bit medium.
pub const GGML_TYPE_IQ1_M: u32 = 29;

/// `GGML_TYPE_BF16`: Google Brain bfloat16.
pub const GGML_TYPE_BF16: u32 = 30;

/// GGUF wire type 31: historical `Q4_0_4_4` layout (removed from current ggml).
///
/// Must **not** be treated as an IQ3_M block type. HuggingFace "IQ3_M" is a
/// mixed-quant *preset*, not wire id 31.
pub const GGML_TYPE_Q4_0_4_4: u32 = 31;

/// Internal id for the 111-byte IQ3_M *block layout* decoder only.
///
/// Not a GGUF wire type: HuggingFace "IQ3_M" is a mixed-quant *preset*, not
/// type id 31. Production GGUFs never emit this code. ASCII `'II3M'`.
pub const GGML_TYPE_IQ3_M_BLOCK: u32 = 0x4949_334D;

/// The label of a `ggml_type` code.
pub open spec fn type_label(ggml_type: u32) -> Seq<char> {
    if ggml_type == GGML_TYPE_F32 {
        "F32"@
    } else if ggml_type == GGML_TYPE_F16 {
        "F16"@
    } else if ggml_type == GGML_TYPE_Q4_0 {
        "Q4_0"@
    } else if ggml_type == GGML_TYPE_Q4_1 {
        "Q4_1"@
    } else if ggml_type == GGML_TYPE_Q5_0 {
        "Q5_0"@
    } else if ggml_type == GGML_TYPE_Q5_1 {
        "Q5_1"@
    } else if ggml_type == GGML_TYPE_Q8_0 {
        "Q8_0"@
    } else if ggml_type == GGML_TYPE_Q8_1 {
        "Q8_1"@
    } else if ggml_type == GGML_TYPE_Q2_K {
        "Q2_K"@
    } else if ggml_type == GGML_TYPE_Q3_K {
        "Q3_K"@
    } else if ggml_type == GGML_TYPE_Q4_K {
        "Q4_K"@
    } else if ggml_type == GGML_TYPE_Q5_K {
        "Q5_K"@
    } else if ggml_type == GGML_TYPE_Q6_K {
        "Q6_K"@
    } else if ggml_type == GGML_TYPE_Q8_K {
        "Q8_K"@
    } else if ggml_type == GGML_TYPE_IQ2_XXS {
        "IQ2_XXS"@
    } else if ggml_type == GGML_TYPE_IQ2_XS {
        "IQ2_XS"@
    } else if ggml_type == GGML_TYPE_IQ3_XXS {
        "IQ3_XXS"@
    } else if ggml_type == GGML_TYPE_IQ1_S {
        "IQ1_S"@
    } else if ggml_type == GGML_TYPE_IQ4_NL {
        "IQ4_NL"@
    } else if ggml_type == GGML_TYPE_IQ3_S {
        "IQ3_S"@
    } else if ggml_type == GGML_TYPE_IQ2_S {
        "IQ2_S"@
    } else if ggml_type == GGML_TYPE_IQ4_XS {
        "IQ4_XS"@
    } else if ggml_type == GGML_TYPE_I8 {
        "I8"@
    } else if ggml_type == GGML_TYPE_I16 {
        "I16"@
    } else if ggml_type == GGML_TYPE_I32 {
        "I32"@
    } else if ggml_type == GGML_TYPE_I64 {
        "I64"@
    } else if ggml_type == GGML_TYPE_F64 {
        "F64"@
    } else if ggml_type == GGML_TYPE_IQ1_M {
        "IQ1_M"@
    } else if ggml_type == GGML_TYPE_BF16 {
        "BF16"@
    } else if ggml_type == GGML_TYPE_Q4_0_4_4 {
        "Q4_0_4_4"@
    } else if ggml_type == GGML_TYPE_IQ3_M_BLOCK {
        "IQ3_M_BLOCK"@
    } else {
        "unknown"@
    }
}

/// Map a raw GGML `ggml_type` `u32` code to a short human-readable label.
///
/// Returns `"unknown"` for codes not in the known set.
pub fn ggml_type_label(ggml_type: u32) -> (r: &'static str)
    ensures
        r@ == type_label(ggml_type),
{
    if ggml_type == GGML_TYPE_F32 {
        "F32"
    } else if ggml_type == GGML_TYPE_F16 {
        "F16"
    } else if ggml_type == GGML_TYPE_Q4_0 {
        "Q4_0"
    } else if ggml_type == GGML_TYPE_Q4_1 {
        "Q4_1"
    } else if ggml_type == GGML_TYPE_Q5_0 {
        "Q5_0"
    } else if ggml_type == GGML_TYPE_Q5_1 {
        "Q5_1"
    } else if ggml_type == GGML_TYPE_Q8_0 {
        "Q8_0"
    } else if ggml_type == GGML_TYPE_Q8_1 {
        "Q8_1"
    } else if ggml_type == GGML_TYPE_Q2_K {
        "Q2_K"
    } else if ggml_type == GGML_TYPE_Q3_K {
        "Q3_K"
    } else if ggml_type == GGML_TYPE_Q4_K {
        "Q4_K"
    } else if ggml_type == GGML_TYPE_Q5_K {
        "Q5_K"
    } else if ggml_type == GGML_TYPE_Q6_K {
        "Q6_K"
    } else if ggml_type == GGML_TYPE_Q8_K {
        "Q8_K"
    } else if ggml_type == GGML_TYPE_IQ2_XXS {
        "IQ2_XXS"
    } else if ggml_type == GGML_TYPE_IQ2_XS {
        "IQ2_XS"
    } else if ggml_type == GGML_TYPE_IQ3_XXS {
        "IQ3_XXS"
    } else if ggml_type == GGML_TYPE_IQ1_S {
        "IQ1_S"
    } else if ggml_type == GGML_TYPE_IQ4_NL {
        "IQ4_NL"
    } else if ggml_type == GGML_TYPE_IQ3_S {
        "IQ3_S"
    } else if ggml_type == GGML_TYPE_IQ2_S {
        "IQ2_S"
    } else if ggml_type == GGML_TYPE_IQ4_XS {
        "IQ4_XS"
    } else if ggml_type == GGML_TYPE_I8 {
        "I8"
    } else if ggml_type == GGML_TYPE_I16 {
        "I16"
    } else if ggml_type == GGML_TYPE_I32 {
        "I32"
    } else if ggml_type == GGML_TYPE_I64 {
        "I64"
    } else if ggml_type == GGML_TYPE_F64 {
        "F64"
    } else if ggml_type == GGML_TYPE_IQ1_M {
        "IQ1_M"
    } else if ggml_type == GGML_TYPE_BF16 {
        "BF16"
    } else if ggml_type == GGML_TYPE_Q4_0_4_4 {
        "Q4_0_4_4"
    } else if ggml_type == GGML_TYPE_IQ3_M_BLOCK {
        "IQ3_M_BLOCK"
    } else {
        "unknown"
    }
}

/// GGML tensor dtype codes encountered in GGUF checkpoints.
///
/// The parser understands their byte layout (for bounds checking) but performs no
/// arithmetic; raw bytes are returned as-is.
///
/// Types not explicitly enumerated are captured by [`DType::Other`]
/// which preserves the raw code for callers to dispatch on.
#[allow(non_camel_case_types)]
#[derive(Debug, Clone, Copy, PartialEq, Eq, Structural)]
pub enum DType {
    /// `GGML_TYPE_F32`: 32-bit IEEE-754 float.
    F32,
    /// `GGML_TYPE_F16`: 16-bit IEEE-754 half float.
    F16,
    /// `GGML_TYPE_Q4_0`: 4-bit quantization (symmetric, block size 32).
    Q4_0,
    /// `GGML_TYPE_Q4_1`: 4-bit quantization (with min, block size 32).
    Q4_1,
    /// `GGML_TYPE_Q5_0`: 5-bit quantization (symmetric, block size 32).
    Q5_0,
    /// `GGML_TYPE_Q5_1`: 5-bit quantization (with min, block size 32).
    Q5_1,
    /// `GGML_TYPE_Q8_0`: 8-bit quantization (symmetric, block size 32).
    Q8_0,
    /// `GGML_TYPE_Q8_1`: 8-bit quantization (with min, block size 32).
    Q8_1,
    /// `GGML_TYPE_Q2_K`: k-quant 2-bit.
    Q2_K,
    /// `GGML_TYPE_Q3_K`: k-quant 3-bit.
    Q3_K,
    /// `GGML_TYPE_Q4_K`: k-quant 4-bit.
    Q4_K,
    /// `GGML_TYPE_Q5_K`: k-quant 5-bit.
    Q5_K,
    /// `GGML_TYPE_Q6_K`: k-quant 6-bit.
    Q6_K,
    /// `GGML_TYPE_Q8_K`: k-quant 8-bit.
    Q8_K,
    /// `GGML_TYPE_IQ2_XXS`: i-quant 2-bit extra-extra-small.
    IQ2_XXS,
    /// `GGML_TYPE_IQ2_XS`: i-quant 2-bit extra-small.
    IQ2_XS,
    /// `GGML_TYPE_IQ3_XXS`: i-quant 3-bit extra-extra-small.
    IQ3_XXS,
    /// `GGML_TYPE_IQ1_S`: i-quant 1-bit small.
    IQ1_S,
    /// `GGML_TYPE_IQ4_NL`: i-quant 4-bit non-linear.
    IQ4_NL,
    /// `GGML_TYPE_IQ3_S`: i-quant 3-bit small (3.44 bpw).
    IQ3_S,
    /// `GGML_TYPE_IQ2_S`: i-quant 2-bit small.
    IQ2_S,
    /// `GGML_TYPE_IQ4_XS`: i-quant 4-bit extra-small.
    IQ4_XS,
    /// `GGML_TYPE_IQ1_M`: i-quant 1-bit medium.
    IQ1_M,
    /// `GGML_TYPE_BF16`: Google Brain bfloat16.
    BF16,
    /// `GGML_TYPE_F64`: 64-bit IEEE-754 double float.
    F64,
    /// `GGML_TYPE_I8`: 8-bit signed integer.
    I8,
    /// `GGML_TYPE_I16`: 16-bit signed integer.
    I16,
    /// `GGML_TYPE_I32`: 32-bit signed integer.
    I32,
    /// `GGML_TYPE_I64`: 64-bit signed integer.
    I64,
    /// `GGML_TYPE_IQ3_M_BLOCK`: 111-byte IQ3_M block layout, internal, not GGUF wire type 31.
    IQ3_M_BLOCK,
    /// Any other GGML dtype not explicitly enumerated above. The raw
    /// `u32` code is preserved so callers can dispatch on it.
    Other(u32),
}

/// The raw `ggml_type` code of a dtype.
pub open spec fn dtype_code(dtype: DType) -> u32 {
    match dtype {
        DType::F32 => GGML_TYPE_F32,
        DType::F16 => GGML_TYPE_F16,
        DType::Q4_0 => GGML_TYPE_Q4_0,
        DType::Q4_1 => GGML_TYPE_Q4_1,
        DType::Q5_0 => GGML_TYPE_Q5_0,
        DType::Q5_1 => GGML_TYPE_Q5_1,
        DType::Q8_0 => GGML_TYPE_Q8_0,
        DType::Q8_1 => GGML_TYPE_Q8_1,
        DType::Q2_K => GGML_TYPE_Q2_K,
        DType::Q3_K => GGML_TYPE_Q3_K,
        DType::Q4_K => GGML_TYPE_Q4_K,
        DType::Q5_K => GGML_TYPE_Q5_K,
        DType::Q6_K => GGML_TYPE_Q6_K,
        DType::Q8_K => GGML_TYPE_Q8_K,
        DType::IQ2_XXS => GGML_TYPE_IQ2_XXS,
        DType::IQ2_XS => GGML_TYPE_IQ2_XS,
        DType::IQ3_XXS => GGML_TYPE_IQ3_XXS,
        DType::IQ1_S => GGML_TYPE_IQ1_S,
        DType::IQ4_NL => GGML_TYPE_IQ4_NL,
        DType::IQ3_S => GGML_TYPE_IQ3_S,
        DType::IQ2_S => GGML_TYPE_IQ2_S,
        DType::IQ4_XS => GGML_TYPE_IQ4_XS,
        DType::IQ1_M => GGML_TYPE_IQ1_M,
        DType::BF16 => GGML_TYPE_BF16,
        DType::F64 => GGML_TYPE_F64,
        DType::I8 => GGML_TYPE_I8,
        DType::I16 => GGML_TYPE_I16,
        DType::I32 => GGML_TYPE_I32,
        DType::I64 => GGML_TYPE_I64,
        DType::IQ3_M_BLOCK => GGML_TYPE_IQ3_M_BLOCK,
        DType::Other(code) => code,
    }
}

/// `dtype` is the one that a code stands for: it has that code, and it is
/// [`DType::Other`] only where no enumerated dtype has the code.
pub open spec fn dtype_for_code(dtype: DType, code: u32) -> bool {
    &&& dtype_code(dtype) == code
    &&& dtype is Other ==> forall|d: DType| #[trigger] dtype_code(d) == code ==> d is Other
}

/// The dtype that a code stands for.
pub open spec fn code_dtype(code: u32) -> DType {
    choose|dtype: DType| dtype_for_code(dtype, code)
}

/// The layout of a dtype: elements per block and bytes per block; dense types have
/// blocks of one element.
pub open spec fn block_layout(dtype: DType) -> Option<(nat, nat)> {
    match dtype {
        DType::F32 => Some((1, 4)),
        DType::F16 => Some((1, 2)),
        DType::Q4_0 => Some((32, 18)),
        DType::Q4_1 => Some((32, 20)),
        DType::Q5_0 => Some((32, 22)),
        DType::Q5_1 => Some((32, 24)),
        DType::Q8_0 => Some((32, 34)),
        DType::Q8_1 => Some((32, 36)),
        DType::Q2_K => Some((256, 84)),
        DType::Q3_K => Some((256, 110)),
        DType::Q4_K => Some((256, 144)),
        DType::Q5_K => Some((256, 176)),
        DType::Q6_K => Some((256, 210)),
        DType::Q8_K => Some((256, 292)),
        DType::IQ2_XXS => Some((256, 66)),
        DType::IQ2_XS => Some((256, 74)),
        DType::IQ3_XXS => Some((256, 98)),
        DType::IQ1_S => Some((256, 50)),
        DType::IQ4_NL => Some((32, 18)),
        DType::IQ3_S => Some((256, 110)),
        DType::IQ2_S => Some((256, 82)),
        DType::IQ4_XS => Some((256, 136)),
        DType::IQ1_M => Some((256, 56)),
        DType::BF16 => Some((1, 2)),
        DType::F64 => Some((1, 8)),
        DType::I8 => Some((1, 1)),
        DType::I16 => Some((1, 2)),
        DType::I32 => Some((1, 4)),
        DType::I64 => Some((1, 8)),
        DType::IQ3_M_BLOCK => Some((256, 111)),
        DType::Other(_) => None,
    }
}

/// Bytes of `n` elements: complete blocks only, and only if the host can address them.
pub open spec fn packed_len(dtype: DType, n: nat) -> Option<nat> {
    match block_layout(dtype) {
        None => None,
        Some((block, bytes)) => if n % block == 0 && (n / block) * bytes <= usize::MAX {
            Some((n / block) * bytes)
        } else {
            None
        },
    }
}

/// The name of a dtype's variant.
pub open spec fn dtype_debug(dtype: DType) -> Seq<char> {
    match dtype {
        DType::Other(code) => "Other("@ + text::decimal(code as nat) + ")"@,
        _ => type_label(dtype_code(dtype)),
    }
}

/// The codes of distinct enumerated dtypes differ, so a code stands for one dtype alone.
pub proof fn law_code_determines_dtype(a: DType, b: DType, code: u32)
    requires
        dtype_for_code(a, code),
        dtype_for_code(b, code),
    ensures
        a == b,
{
}

/// An enumerated dtype is the one its own code stands for.
pub proof fn law_dtype_round_trip(dtype: DType)
    requires
        !(dtype is Other),
    ensures
        dtype_for_code(dtype, dtype_code(dtype)),
{
}

proof fn lemma_code_dtype(dtype: DType)
    requires
        !(dtype is Other),
    ensures
        code_dtype(dtype_code(dtype)) == dtype,
{
    law_dtype_round_trip(dtype);
    law_code_determines_dtype(dtype, code_dtype(dtype_code(dtype)), dtype_code(dtype));
}

/// `n` elements in blocks of `per` elements and `bytes` bytes, if they are whole blocks that
/// the host can address.
pub open spec fn in_blocks(n: nat, per: nat, bytes: nat) -> Option<nat> {
    if n % per == 0 && n / per * bytes <= usize::MAX {
        Some(n / per * bytes)
    } else {
        None
    }
}

/// What each wire code of `ggml.h` stands for: the dtype and its label, and the bytes that
/// `n` elements take. Codes 4, 5 and 31 and all unlisted ones have no known layout.
#[verifier::rlimit(40)]
pub proof fn law_wire_codes(code: u32, n: nat)
    ensures
        code == 0 ==> {
            &&& code_dtype(code) == DType::F32
            &&& dtype_code(DType::F32) == code
            &&& type_label(code) == "F32"@
            &&& block_layout(DType::F32) == Some((1nat, 4nat))
            &&& packed_len(DType::F32, n) == in_blocks(n, 1, 4)
        },
        code == 1 ==> {
            &&& code_dtype(code) == DType::F16
            &&& dtype_code(DType::F16) == code
            &&& type_label(code) == "F16"@
            &&& block_layout(DType::F16) == Some((1nat, 2nat))
            &&& packed_len(DType::F16, n) == in_blocks(n, 1, 2)
        },
        code == 2 ==> {
            &&& code_dtype(code) == DType::Q4_0
            &&& dtype_code(DType::Q4_0) == code
            &&& type_label(code) == "Q4_0"@
            &&& block_layout(DType::Q4_0) == Some((32nat, 18nat))
            &&& packed_len(DType::Q4_0, n) == in_blocks(n, 32, 18)
        },
        code == 3 ==> {
            &&& code_dtype(code) == DType::Q4_1
            &&& dtype_code(DType::Q4_1) == code
            &&& type_label(code) == "Q4_1"@
            &&& block_layout(DType::Q4_1) == Some((32nat, 20nat))
            &&& packed_len(DType::Q4_1, n) == in_blocks(n, 32, 20)
        },
        code == 6 ==> {
            &&& code_dtype(code) == DType::Q5_0
            &&& dtype_code(DType::Q5_0) == code
            &&& type_label(code) == "Q5_0"@
            &&& block_layout(DType::Q5_0) == Some((32nat, 22nat))
            &&& packed_len(DType::Q5_0, n) == in_blocks(n, 32, 22)
        },
        code == 7 ==> {
            &&& code_dtype(code) == DType::Q5_1
            &&& dtype_code(DType::Q5_1) == code
            &&& type_label(code) == "Q5_1"@
            &&& block_layout(DType::Q5_1) == Some((32nat, 24nat))
            &&& packed_len(DType::Q5_1, n) == in_blocks(n, 32, 24)
        },
        code == 8 ==> {
            &&& code_dtype(code) == DType::Q8_0
            &&& dtype_code(DType::Q8_0) == code
            &&& type_label(code) == "Q8_0"@
            &&& block_layout(DType::Q8_0) == Some((32nat, 34nat))
            &&& packed_len(DType::Q8_0, n) == in_blocks(n, 32, 34)
        },
        code == 9 ==> {
            &&& code_dtype(code) == DType::Q8_1
            &&& dtype_code(DType::Q8_1) == code
            &&& type_label(code) == "Q8_1"@
            &&& block_layout(DType::Q8_1) == Some((32nat, 36nat))
            &&& packed_len(DType::Q8_1, n) == in_blocks(n, 32, 36)
        },
        code == 10 ==> {
            &&& code_dtype(code) == DType::Q2_K
            &&& dtype_code(DType::Q2_K) == code
            &&& type_label(code) == "Q2_K"@
            &&& block_layout(DType::Q2_K) == Some((256nat, 84nat))
            &&& packed_len(DType::Q2_K, n) == in_blocks(n, 256, 84)
        },
        code == 11 ==> {
            &&& code_dtype(code) == DType::Q3_K
            &&& dtype_code(DType::Q3_K) == code
            &&& type_label(code) == "Q3_K"@
            &&& block_layout(DType::Q3_K) == Some((256nat, 110nat))
            &&& packed_len(DType::Q3_K, n) == in_blocks(n, 256, 110)
        },
        code == 12 ==> {
            &&& code_dtype(code) == DType::Q4_K
            &&& dtype_code(DType::Q4_K) == code
            &&& type_label(code) == "Q4_K"@
            &&& block_layout(DType::Q4_K) == Some((256nat, 144nat))
            &&& packed_len(DType::Q4_K, n) == in_blocks(n, 256, 144)
        },
        code == 13 ==> {
            &&& code_dtype(code) == DType::Q5_K
            &&& dtype_code(DType::Q5_K) == code
            &&& type_label(code) == "Q5_K"@
            &&& block_layout(DType::Q5_K) == Some((256nat, 176nat))
            &&& packed_len(DType::Q5_K, n) == in_blocks(n, 256, 176)
        },
        code == 14 ==> {
            &&& code_dtype(code) == DType::Q6_K
            &&& dtype_code(DType::Q6_K) == code
            &&& type_label(code) == "Q6_K"@
            &&& block_layout(DType::Q6_K) == Some((256nat, 210nat))
            &&& packed_len(DType::Q6_K, n) == in_blocks(n, 256, 210)
        },
        code == 15 ==> {
            &&& code_dtype(code) == DType::Q8_K
            &&& dtype_code(DType::Q8_K) == code
            &&& type_label(code) == "Q8_K"@
            &&& block_layout(DType::Q8_K) == Some((256nat, 292nat))
            &&& packed_len(DType::Q8_K, n) == in_blocks(n, 256, 292)
        },
        code == 16 ==> {
            &&& code_dtype(code) == DType::IQ2_XXS
            &&& dtype_code(DType::IQ2_XXS) == code
            &&& type_label(code) == "IQ2_XXS"@
            &&& block_layout(DType::IQ2_XXS) == Some((256nat, 66nat))
            &&& packed_len(DType::IQ2_XXS, n) == in_blocks(n, 256, 66)
        },
        code == 17 ==> {
            &&& code_dtype(code) == DType::IQ2_XS
            &&& dtype_code(DType::IQ2_XS) == code
            &&& type_label(code) == "IQ2_XS"@
            &&& block_layout(DType::IQ2_XS) == Some((256nat, 74nat))
            &&& packed_len(DType::IQ2_XS, n) == in_blocks(n, 256, 74)
        },
        code == 18 ==> {
            &&& code_dtype(code) == DType::IQ3_XXS
            &&& dtype_code(DType::IQ3_XXS) == code
            &&& type_label(code) == "IQ3_XXS"@
            &&& block_layout(DType::IQ3_XXS) == Some((256nat, 98nat))
            &&& packed_len(DType::IQ3_XXS, n) == in_blocks(n, 256, 98)
        },
        code == 19 ==> {
            &&& code_dtype(code) == DType::IQ1_S
            &&& dtype_code(DType::IQ1_S) == code
            &&& type_label(code) == "IQ1_S"@
            &&& block_layout(DType::IQ1_S) == Some((256nat, 50nat))
            &&& packed_len(DType::IQ1_S, n) == in_blocks(n, 256, 50)
        },
        code == 20 ==> {
            &&& code_dtype(code) == DType::IQ4_NL
            &&& dtype_code(DType::IQ4_NL) == code
            &&& type_label(code) == "IQ4_NL"@
            &&& block_layout(DType::IQ4_NL) == Some((32nat, 18nat))
            &&& packed_len(DType::IQ4_NL, n) == in_blocks(n, 32, 18)
        },
        code == 21 ==> {
            &&& code_dtype(code) == DType::IQ3_S
            &&& dtype_code(DType::IQ3_S) == code
            &&& type_label(code) == "IQ3_S"@
            &&& block_layout(DType::IQ3_S) == Some((256nat, 110nat))
            &&& packed_len(DType::IQ3_S, n) == in_blocks(n, 256, 110)
        },
        code == 22 ==> {
            &&& code_dtype(code) == DType::IQ2_S
            &&& dtype_code(DType::IQ2_S) == code
            &&& type_label(code) == "IQ2_S"@
            &&& block_layout(DType::IQ2_S) == Some((256nat, 82nat))
            &&& packed_len(DType::IQ2_S, n) == in_blocks(n, 256, 82)
        },
        code == 23 ==> {
            &&& code_dtype(code) == DType::IQ4_XS
            &&& dtype_code(DType::IQ4_XS) == code
            &&& type_label(code) == "IQ4_XS"@
            &&& block_layout(DType::IQ4_XS) == Some((256nat, 136nat))
            &&& packed_len(DType::IQ4_XS, n) == in_blocks(n, 256, 136)
        },
        code == 24 ==> {
            &&& code_dtype(code) == DType::I8
            &&& dtype_code(DType::I8) == code
            &&& type_label(code) == "I8"@
            &&& block_layout(DType::I8) == Some((1nat, 1nat))
            &&& packed_len(DType::I8, n) == in_blocks(n, 1, 1)
        },
        code == 25 ==> {
            &&& code_dtype(code) == DType::I16
            &&& dtype_code(DType::I16) == code
            &&& type_label(code) == "I16"@
            &&& block_layout(DType::I16) == Some((1nat, 2nat))
            &&& packed_len(DType::I16, n) == in_blocks(n, 1, 2)
        },
        code == 26 ==> {
            &&& code_dtype(code) == DType::I32
            &&& dtype_code(DType::I32) == code
            &&& type_label(code) == "I32"@
            &&& block_layout(DType::I32) == Some((1nat, 4nat))
            &&& packed_len(DType::I32, n) == in_blocks(n, 1, 4)
        },
        code == 27 ==> {
            &&& code_dtype(code) == DType::I64
            &&& dtype_code(DType::I64) == code
            &&& type_label(code) == "I64"@
            &&& block_layout(DType::I64) == Some((1nat, 8nat))
            &&& packed_len(DType::I64, n) == in_blocks(n, 1, 8)
        },
        code == 28 ==> {
            &&& code_dtype(code) == DType::F64
            &&& dtype_code(DType::F64) == code
            &&& type_label(code) == "F64"@
            &&& block_layout(DType::F64) == Some((1nat, 8nat))
            &&& packed_len(DType::F64, n) == in_blocks(n, 1, 8)
        },
        code == 29 ==> {
            &&& code_dtype(code) == DType::IQ1_M
            &&& dtype_code(DType::IQ1_M) == code
            &&& type_label(code) == "IQ1_M"@
            &&& block_layout(DType::IQ1_M) == Some((256nat, 56nat))
            &&& packed_len(DType::IQ1_M, n) == in_blocks(n, 256, 56)
        },
        code == 30 ==> {
            &&& code_dtype(code) == DType::BF16
            &&& dtype_code(DType::BF16) == code
            &&& type_label(code) == "BF16"@
            &&& block_layout(DType::BF16) == Some((1nat, 2nat))
            &&& packed_len(DType::BF16, n) == in_blocks(n, 1, 2)
        },
        code == 0x4949_334D ==> {
            &&& code_dtype(code) == DType::IQ3_M_BLOCK
            &&& dtype_code(DType::IQ3_M_BLOCK) == code
            &&& type_label(code) == "IQ3_M_BLOCK"@
            &&& block_layout(DType::IQ3_M_BLOCK) == Some((256nat, 111nat))
            &&& packed_len(DType::IQ3_M_BLOCK, n) == in_blocks(n, 256, 111)
        },
        code == 4 || code == 5 || (31 <= code && code != 0x4949_334D) ==> {
            &&& code_dtype(code) == DType::Other(code)
            &&& packed_len(DType::Other(code), n) is None
        },
        code == 31 ==> type_label(code) == "Q4_0_4_4"@,
        code == 4 || code == 5 || (32 <= code && code != 0x4949_334D) ==> type_label(code)
            == "unknown"@,
{
    lemma_code_dtype(DType::F32);
    lemma_code_dtype(DType::F16);
    lemma_code_dtype(DType::Q4_0);
    lemma_code_dtype(DType::Q4_1);
    lemma_code_dtype(DType::Q5_0);
    lemma_code_dtype(DType::Q5_1);
    lemma_code_dtype(DType::Q8_0);
    lemma_code_dtype(DType::Q8_1);
    lemma_code_dtype(DType::Q2_K);
    lemma_code_dtype(DType::Q3_K);
    lemma_code_dtype(DType::Q4_K);
    lemma_code_dtype(DType::Q5_K);
    lemma_code_dtype(DType::Q6_K);
    lemma_code_dtype(DType::Q8_K);
    lemma_code_dtype(DType::IQ2_XXS);
    lemma_code_dtype(DType::IQ2_XS);
    lemma_code_dtype(DType::IQ3_XXS);
    lemma_code_dtype(DType::IQ1_S);
    lemma_code_dtype(DType::IQ4_NL);
    lemma_code_dtype(DType::IQ3_S);
    lemma_code_dtype(DType::IQ2_S);
    lemma_code_dtype(DType::IQ4_XS);
    lemma_code_dtype(DType::I8);
    lemma_code_dtype(DType::I16);
    lemma_code_dtype(DType::I32);
    lemma_code_dtype(DType::I64);
    lemma_code_dtype(DType::F64);
    lemma_code_dtype(DType::IQ1_M);
    lemma_code_dtype(DType::BF16);
    lemma_code_dtype(DType::IQ3_M_BLOCK);
    if code == 4 || code == 5 || (31 <= code && code != 0x4949_334D) {
        let other = DType::Other(code);
        assert(dtype_for_code(other, code));
        law_code_determines_dtype(other, code_dtype(code), code);
    }
}

impl DType {
    /// Map a raw `ggml_type` code to a [`DType`] enum.
    pub fn from_ggml_type(code: u32) -> (r: DType)
        ensures
            dtype_for_code(r, code),
            r == code_dtype(code),
    {
        let r = if code == GGML_TYPE_F32 {
            DType::F32
        } else if code == GGML_TYPE_F16 {
            DType::F16
        } else if code == GGML_TYPE_Q4_0 {
            DType::Q4_0
        } else if code == GGML_TYPE_Q4_1 {
            DType::Q4_1
        } else if code == GGML_TYPE_Q5_0 {
            DType::Q5_0
        } else if code == GGML_TYPE_Q5_1 {
            DType::Q5_1
        } else if code == GGML_TYPE_Q8_0 {
            DType::Q8_0
        } else if code == GGML_TYPE_Q8_1 {
            DType::Q8_1
        } else if code == GGML_TYPE_Q2_K {
            DType::Q2_K
        } else if code == GGML_TYPE_Q3_K {
            DType::Q3_K
        } else if code == GGML_TYPE_Q4_K {
            DType::Q4_K
        } else if code == GGML_TYPE_Q5_K {
            DType::Q5_K
        } else if code == GGML_TYPE_Q6_K {
            DType::Q6_K
        } else if code == GGML_TYPE_Q8_K {
            DType::Q8_K
        } else if code == GGML_TYPE_IQ2_XXS {
            DType::IQ2_XXS
        } else if code == GGML_TYPE_IQ2_XS {
            DType::IQ2_XS
        } else if code == GGML_TYPE_IQ3_XXS {
            DType::IQ3_XXS
        } else if code == GGML_TYPE_IQ1_S {
            DType::IQ1_S
        } else if code == GGML_TYPE_IQ4_NL {
            DType::IQ4_NL
        } else if code == GGML_TYPE_IQ3_S {
            DType::IQ3_S
        } else if code == GGML_TYPE_IQ2_S {
            DType::IQ2_S
        } else if code == GGML_TYPE_IQ4_XS {
            DType::IQ4_XS
        } else if code == GGML_TYPE_IQ1_M {
            DType::IQ1_M
        } else if code == GGML_TYPE_BF16 {
            DType::BF16
        } else if code == GGML_TYPE_F64 {
            DType::F64
        } else if code == GGML_TYPE_I8 {
            DType::I8
        } else if code == GGML_TYPE_I16 {
            DType::I16
        } else if code == GGML_TYPE_I32 {
            DType::I32
        } else if code == GGML_TYPE_I64 {
            DType::I64
        } else if code == GGML_TYPE_IQ3_M_BLOCK {
            DType::IQ3_M_BLOCK
        } else {
            // Wire 31 is historical Q4_0_4_4 and stays opaque.
            DType::Other(code)
        };
        proof {
            assert(dtype_for_code(r, code));
            law_code_determines_dtype(r, code_dtype(code), code);
        }
        r
    }

    /// The raw `ggml_type` code for this dtype.
    pub fn ggml_type(self) -> (r: u32)
        ensures
            r == dtype_code(self),
    {
        match self {
            DType::F32 => GGML_TYPE_F32,
            DType::F16 => GGML_TYPE_F16,
            DType::Q4_0 => GGML_TYPE_Q4_0,
            DType::Q4_1 => GGML_TYPE_Q4_1,
            DType::Q5_0 => GGML_TYPE_Q5_0,
            DType::Q5_1 => GGML_TYPE_Q5_1,
            DType::Q8_0 => GGML_TYPE_Q8_0,
            DType::Q8_1 => GGML_TYPE_Q8_1,
            DType::Q2_K => GGML_TYPE_Q2_K,
            DType::Q3_K => GGML_TYPE_Q3_K,
            DType::Q4_K => GGML_TYPE_Q4_K,
            DType::Q5_K => GGML_TYPE_Q5_K,
            DType::Q6_K => GGML_TYPE_Q6_K,
            DType::Q8_K => GGML_TYPE_Q8_K,
            DType::IQ2_XXS => GGML_TYPE_IQ2_XXS,
            DType::IQ2_XS => GGML_TYPE_IQ2_XS,
            DType::IQ3_XXS => GGML_TYPE_IQ3_XXS,
            DType::IQ1_S => GGML_TYPE_IQ1_S,
            DType::IQ4_NL => GGML_TYPE_IQ4_NL,
            DType::IQ3_S => GGML_TYPE_IQ3_S,
            DType::IQ2_S => GGML_TYPE_IQ2_S,
            DType::IQ4_XS => GGML_TYPE_IQ4_XS,
            DType::IQ1_M => GGML_TYPE_IQ1_M,
            DType::BF16 => GGML_TYPE_BF16,
            DType::F64 => GGML_TYPE_F64,
            DType::I8 => GGML_TYPE_I8,
            DType::I16 => GGML_TYPE_I16,
            DType::I32 => GGML_TYPE_I32,
            DType::I64 => GGML_TYPE_I64,
            DType::IQ3_M_BLOCK => GGML_TYPE_IQ3_M_BLOCK,
            DType::Other(code) => code,
        }
    }

    /// Short human-readable label for this dtype (e.g. `"F32"`, `"Q4_K"`).
    ///
    /// Single source of truth: [`ggml_type_label`] on the wire code.
    pub fn label(self) -> (r: &'static str)
        ensures
            r@ == type_label(dtype_code(self)),
    {
        ggml_type_label(self.ggml_type())
    }

    /// The name of this dtype's variant.
    pub fn debug_name(self) -> (r: String)
        ensures
            r@ == dtype_debug(self),
    {
        match self {
            DType::Other(code) => text::concat3(
                "Other(",
                text::decimal_string(code as u64).as_str(),
                ")",
            ),
            _ => self.label().to_owned(),
        }
    }

    fn layout(self) -> (r: Option<(usize, usize)>)
        ensures
            match r {
                None => block_layout(self) is None,
                Some((block, bytes)) => block_layout(self) == Some((block as nat, bytes as nat))
                    && block >= 1,
            },
    {
        match self {
            DType::F32 => Some((1, 4)),
            DType::F16 => Some((1, 2)),
            DType::Q4_0 => Some((32, 18)),
            DType::Q4_1 => Some((32, 20)),
            DType::Q5_0 => Some((32, 22)),
            DType::Q5_1 => Some((32, 24)),
            DType::Q8_0 => Some((32, 34)),
            DType::Q8_1 => Some((32, 36)),
            DType::Q2_K => Some((256, 84)),
            DType::Q3_K => Some((256, 110)),
            DType::Q4_K => Some((256, 144)),
            DType::Q5_K => Some((256, 176)),
            DType::Q6_K => Some((256, 210)),
            DType::Q8_K => Some((256, 292)),
            DType::IQ2_XXS => Some((256, 66)),
            DType::IQ2_XS => Some((256, 74)),
            DType::IQ3_XXS => Some((256, 98)),
            DType::IQ1_S => Some((256, 50)),
            DType::IQ4_NL => Some((32, 18)),
            DType::IQ3_S => Some((256, 110)),
            DType::IQ2_S => Some((256, 82)),
            DType::IQ4_XS => Some((256, 136)),
            DType::IQ1_M => Some((256, 56)),
            DType::BF16 => Some((1, 2)),
            DType::F64 => Some((1, 8)),
            DType::I8 => Some((1, 1)),
            DType::I16 => Some((1, 2)),
            DType::I32 => Some((1, 4)),
            DType::I64 => Some((1, 8)),
            DType::IQ3_M_BLOCK => Some((256, 111)),
            DType::Other(_) => None,
        }
    }

    /// Quantization block length along the innermost GGUF dimension, if any.
    ///
    /// Used to reject shapes whose `dims[0]` cannot form complete blocks.
    /// `None` for dense/integer types and unknown/`Other` codes.
    pub fn quant_block_size(self) -> (r: Option<usize>)
        ensures
            match block_layout(self) {
                None => r is None,
                Some((block, _)) => if block == 1 {
                    r is None
                } else {
                    r is Some && r->Some_0 == block
                },
            },
    {
        match self.layout() {
            None => None,
            Some((block, _)) => if block == 1 {
                None
            } else {
                Some(block)
            },
        }
    }

    /// Size in bytes of `n_elements` values of this dtype, or `None`
    /// for unknown layouts, for counts that do not form complete blocks,
    /// and for sizes beyond the host's `usize`.
    ///
    /// Block sizes follow the GGUF / llama.cpp wire layouts (`ggml-common.h`):
    /// - Q4_0/Q4_1/Q5_0/Q5_1/Q8_0/Q8_1/IQ4_NL: block size 32
    /// - K-quants and most IQ types: block size 256
    /// - Wire type 31 (`Q4_0_4_4`) is **not** modeled: use [`DType::Other`]
    ///
    /// This is layout sizing only, no dequantization.
    pub fn byte_len_for_elements(self, n_elements: usize) -> (r: Option<usize>)
        ensures
            match r {
                None => packed_len(self, n_elements as nat) is None,
                Some(n) => packed_len(self, n_elements as nat) == Some(n as nat),
            },
    {
        match self.layout() {
            None => None,
            Some((block, bytes)) => blocked_byte_len(n_elements, block, bytes),
        }
    }

    /// `true` if this crate models the wire layout of this dtype, i.e. every
    /// variant except [`DType::Other`]. For blocked quants the element count
    /// must also be block-aligned before [`Self::byte_len_for_elements`]
    /// returns `Some`.
    pub fn has_known_byte_layout(self) -> (r: bool)
        ensures
            r == !(self is Other),
            r == (block_layout(self) is Some),
    {
        match self {
            DType::Other(_) => false,
            _ => true,
        }
    }

    /// Whether the dtype is a plain (non-quantized) float layout:
    /// `F32`, `F16`, and `BF16` (not `F64`).
    pub fn is_float(self) -> (r: bool)
        ensures
            r == (self is F32 || self is F16 || self is BF16),
            r == plain_float(self),
    {
        match self {
            DType::F32 | DType::F16 | DType::BF16 => true,
            _ => false,
        }
    }

    /// Byte width of a single dense float element, or `None` for block-quantized
    /// / integer / unknown dtypes.
    pub fn element_size(self) -> (r: Option<usize>)
        ensures
            r == (match self {
                DType::F32 => Some(4usize),
                DType::F16 => Some(2usize),
                DType::BF16 => Some(2usize),
                _ => None,
            }),
            r == element_width(self),
    {
        match self {
            DType::F32 => Some(4),
            DType::F16 | DType::BF16 => Some(2),
            _ => None,
        }
    }
}

/// Compute the total byte length for a blocked layout.
///
/// Returns `None` if `n_elements` is not divisible by `block_size`
/// or if the multiplication overflows.
fn blocked_byte_len(n_elements: usize, block_size: usize, bytes_per_block: usize) -> (r: Option<
    usize,
>)
    requires
        block_size > 0,
    ensures
        match r {
            None => n_elements % block_size != 0 || (n_elements / block_size) * bytes_per_block
                > usize::MAX,
            Some(n) => n_elements % block_size == 0 && n == (n_elements / block_size)
                * bytes_per_block,
        },
{
    if n_elements % block_size != 0 {
        return None;
    }
    let n_blocks: usize = n_elements / block_size;
    n_blocks.checked_mul(bytes_per_block)
}

/// A single tensor's directory entry: name, shape, dtype, and offsets.
///
/// This is a metadata-only descriptor; it owns no weight data. Use
/// `GgufLayout::tensor_bytes` to obtain the raw payload.
#[derive(Debug, Clone)]
pub struct Tensor {
    /// Full tensor name as stored in the GGUF directory.
    pub name: String,
    /// Shape dimensions (GGML innermost-first order).
    pub dims: Vec<usize>,
    /// Parsed dtype enum.
    pub dtype: DType,
    /// Raw `ggml_type` code (preserved for round-tripping).
    pub ggml_type: u32,
    /// Total number of elements (product of `dims`).
    pub n_elements: usize,
    /// Total byte length of the tensor payload.
    pub byte_len: usize,
    /// Offset relative to the tensor data region start.
    pub relative_offset: usize,
    /// Absolute byte offset within the file buffer.
    pub absolute_offset: usize,
}

/// What a [`Tensor`] says, with its name and shape as mathematical sequences.
#[verifier::ext_equal]
pub struct TensorView {
    pub name: Seq<char>,
    pub dims: Seq<usize>,
    pub dtype: DType,
    pub ggml_type: u32,
    pub n_elements: usize,
    pub byte_len: usize,
    pub relative_offset: usize,
    pub absolute_offset: usize,
}

impl View for Tensor {
    type V = TensorView;

    open spec fn view(&self) -> TensorView {
        TensorView {
            name: self.name@,
            dims: self.dims@,
            dtype: self.dtype,
            ggml_type: self.ggml_type,
            n_elements: self.n_elements,
            byte_len: self.byte_len,
            relative_offset: self.relative_offset,
            absolute_offset: self.absolute_offset,
        }
    }
}

/// The `i`-th little-endian word of `width` bytes.
pub open spec fn word_at(bytes: Seq<u8>, width: int, i: int) -> nat {
    le::le_value(bytes.subrange(i * width, (i + 1) * width))
}

/// The error of a read that does not fit the tensor's dtype.
pub open spec fn dtype_error(name: Seq<char>, operation: Seq<char>, dtype: DType) -> ErrorView {
    ErrorView::UnsupportedFormat {
        path: name,
        reason: operation + " called on dtype "@ + dtype_debug(dtype),
    }
}

/// The error of a payload of the wrong length.
pub open spec fn length_error(name: Seq<char>, kind: Seq<char>, len: nat, expected: nat) -> ErrorView {
    ErrorView::InvalidLayout {
        path: name,
        reason: kind + " byte-length mismatch: bytes="@ + text::decimal(len) + ", expected="@
            + text::decimal(expected),
    }
}

fn wrong_dtype(name: &String, operation: &str, dtype: DType) -> (r: ParserError)
    ensures
        r@ == dtype_error(name@, operation@, dtype),
{
    ParserError::UnsupportedFormat {
        path: name.clone(),
        reason: text::concat3(operation, " called on dtype ", dtype.debug_name().as_str()),
    }
}

fn wrong_length(name: &String, kind: &str, len: usize, expected: usize) -> (r: ParserError)
    ensures
        r@ == length_error(name@, kind@, len as nat, expected as nat),
{
    ParserError::InvalidLayout {
        path: name.clone(),
        reason: text::concat5(
            kind,
            " byte-length mismatch: bytes=",
            text::decimal_string(len as u64).as_str(),
            ", expected=",
            text::decimal_string(expected as u64).as_str(),
        ),
    }
}

fn read_u16_words(bytes: &[u8], count: usize) -> (r: Vec<u16>)
    requires
        bytes@.len() == count * 2,
    ensures
        r@.len() == count,
        forall|i: int| 0 <= i < count ==> #[trigger] r@[i] == word_at(bytes@, 2, i),
{
    let mut out: Vec<u16> = Vec::new();
    let mut i: usize = 0;
    assert(bytes.len() == bytes@.len());
    while i < count
        invariant
            i <= count,
            bytes@.len() == count * 2,
            bytes@.len() <= usize::MAX,
            out@.len() == i,
            forall|j: int| 0 <= j < i ==> #[trigger] out@[j] == word_at(bytes@, 2, j),
        decreases count - i,
    {
        out.push(le::le_u16(slice_subrange(bytes, i * 2, i * 2 + 2)));
        i += 1;
    }
    out
}

impl Tensor {
    /// Read the raw tensor bytes as the bit patterns of little-endian `f32` values.
    ///
    /// Only valid for [`DType::F32`] tensors; returns an error otherwise.
    pub fn read_f32_bits(&self, bytes: &[u8]) -> (r: Result<Vec<u32>, ParserError>)
        requires
            self.dtype is F32 ==> self.n_elements * 4 <= usize::MAX,
        ensures
            match r {
                Ok(v) => {
                    &&& self.dtype is F32
                    &&& bytes@.len() == self.n_elements * 4
                    &&& v@.len() == self.n_elements
                    &&& forall|i: int|
                        0 <= i < v@.len() ==> #[trigger] v@[i] == word_at(bytes@, 4, i)
                },
                Err(e) => if !(self.dtype is F32) {
                    e@ == dtype_error(self.name@, "read_f32_values"@, self.dtype)
                } else {
                    &&& bytes@.len() != self.n_elements * 4
                    &&& e@ == length_error(
                        self.name@,
                        "f32"@,
                        bytes@.len(),
                        (self.n_elements * 4) as nat,
                    )
                },
            },
    {
        if self.dtype != DType::F32 {
            return Err(wrong_dtype(&self.name, "read_f32_values", self.dtype));
        }
        if bytes.len() != self.n_elements * 4 {
            return Err(wrong_length(&self.name, "f32", bytes.len(), self.n_elements * 4));
        }
        let mut out: Vec<u32> = Vec::new();
        let mut i: usize = 0;
        while i < self.n_elements
            invariant
                i <= self.n_elements,
                bytes@.len() == self.n_elements * 4,
                bytes@.len() <= usize::MAX,
                out@.len() == i,
                forall|j: int| 0 <= j < i ==> #[trigger] out@[j] == word_at(bytes@, 4, j),
            decreases self.n_elements - i,
        {
            out.push(le::le_u32(slice_subrange(bytes, i * 4, i * 4 + 4)));
            i += 1;
        }
        Ok(out)
    }

    /// Decode F16/BF16 tensor bytes into raw `u16` lane values using
    /// little-endian chunk parsing (no numeric conversion).
    pub fn read_u16_values(&self, bytes: &[u8]) -> (r: Result<Vec<u16>, ParserError>)
        requires
            self.dtype is F16 || self.dtype is BF16 ==> self.n_elements * 2 <= usize::MAX,
        ensures
            match r {
                Ok(v) => {
                    &&& self.dtype is F16 || self.dtype is BF16
                    &&& bytes@.len() == self.n_elements * 2
                    &&& v@.len() == self.n_elements
                    &&& forall|i: int|
                        0 <= i < v@.len() ==> #[trigger] v@[i] == word_at(bytes@, 2, i)
                },
                Err(e) => if !(self.dtype is F16 || self.dtype is BF16) {
                    e@ == dtype_error(self.name@, "read_u16_values"@, self.dtype)
                } else {
                    &&& bytes@.len() != self.n_elements * 2
                    &&& e@ == length_error(
                        self.name@,
                        "16-bit"@,
                        bytes@.len(),
                        (self.n_elements * 2) as nat,
                    )
                },
            },
    {
        if self.dtype != DType::F16 && self.dtype != DType::BF16 {
            return Err(wrong_dtype(&self.name, "read_u16_values", self.dtype));
        }
        if bytes.len() != self.n_elements * 2 {
            return Err(wrong_length(&self.name, "16-bit", bytes.len(), self.n_elements * 2));
        }
        Ok(read_u16_words(bytes, self.n_elements))
    }

    /// Decode an F16 tensor into the bit patterns of `f32` values, purely by
    /// bit-level conversion of each 16-bit half.
    pub fn dequantize_f16_bits(&self, bytes: &[u8]) -> (r: Result<Vec<u32>, ParserError>)
        requires
            self.dtype is F16 ==> self.n_elements * 2 <= usize::MAX,
        ensures
            match r {
                Ok(v) => {
                    &&& self.dtype is F16
                    &&& bytes@.len() == self.n_elements * 2
                    &&& v@.len() == self.n_elements
                    &&& forall|i: int|
                        0 <= i < v@.len() ==> #[trigger] v@[i] == single_bits(
                            word_at(bytes@, 2, i) as u16,
                        )
                },
                Err(e) => if !(self.dtype is F16) {
                    e@ == dtype_error(self.name@, "dequantize_f16"@, self.dtype)
                } else {
                    &&& bytes@.len() != self.n_elements * 2
                    &&& e@ == length_error(
                        self.name@,
                        "f16"@,
                        bytes@.len(),
                        (self.n_elements * 2) as nat,
                    )
                },
            },
    {
        if self.dtype != DType::F16 {
            return Err(wrong_dtype(&self.name, "dequantize_f16", self.dtype));
        }
        if bytes.len() != self.n_elements * 2 {
            return Err(wrong_length(&self.name, "f16", bytes.len(), self.n_elements * 2));
        }
        let halves = read_u16_words(bytes, self.n_elements);
        let mut out: Vec<u32> = Vec::new();
        let mut i: usize = 0;
        while i < halves.len()
            invariant
                i <= halves@.len(),
                out@.len() == i,
                forall|j: int| 0 <= j < i ==> #[trigger] out@[j] == single_bits(halves@[j]),
            decreases halves@.len() - i,
        {
            out.push(f16_bits_to_f32_bits(halves[i]));
            i += 1;
        }
        assert forall|j: int| 0 <= j < out@.len() implies #[trigger] out@[j] == single_bits(
            word_at(bytes@, 2, j) as u16,
        ) by {
            assert(halves@[j] == word_at(bytes@, 2, j));
        }
        Ok(out)
    }
}

/// The sign bit of a half.
pub open spec fn half_sign(bits: u16) -> nat {
    (bits / 0x8000) as nat
}

/// The biased exponent of a half.
pub open spec fn half_exponent(bits: u16) -> nat {
    ((bits / 0x400) % 32) as nat
}

/// The stored fraction of a half.
pub open spec fn half_fraction(bits: u16) -> nat {
    (bits % 0x400) as nat
}

/// Position of the highest set bit of a fraction of a half.
pub open spec fn top_bit(fraction: nat) -> nat {
    if fraction >= 512 {
        9
    } else if fraction >= 256 {
        8
    } else if fraction >= 128 {
        7
    } else if fraction >= 64 {
        6
    } else if fraction >= 32 {
        5
    } else if fraction >= 16 {
        4
    } else if fraction >= 8 {
        3
    } else if fraction >= 4 {
        2
    } else if fraction >= 2 {
        1
    } else {
        0
    }
}

/// The biased exponent of the single that equals a half.
pub open spec fn single_exponent(bits: u16) -> nat {
    if half_exponent(bits) == 31 {
        255
    } else if half_exponent(bits) > 0 {
        half_exponent(bits) + 112
    } else if half_fraction(bits) > 0 {
        103 + top_bit(half_fraction(bits))
    } else {
        0
    }
}

/// The fraction of a half with its highest set bit removed, moved up so that this bit
/// would stand just above a single's fraction.
pub open spec fn normalized_fraction(fraction: nat) -> int {
    if fraction >= 512 {
        (fraction - 512) * 0x4000
    } else if fraction >= 256 {
        (fraction - 256) * 0x8000
    } else if fraction >= 128 {
        (fraction - 128) * 0x1_0000
    } else if fraction >= 64 {
        (fraction - 64) * 0x2_0000
    } else if fraction >= 32 {
        (fraction - 32) * 0x4_0000
    } else if fraction >= 16 {
        (fraction - 16) * 0x8_0000
    } else if fraction >= 8 {
        (fraction - 8) * 0x10_0000
    } else if fraction >= 4 {
        (fraction - 4) * 0x20_0000
    } else if fraction >= 2 {
        (fraction - 2) * 0x40_0000
    } else {
        0
    }
}

/// The stored fraction of the single that equals a half.
pub open spec fn single_fraction(bits: u16) -> nat {
    if half_exponent(bits) == 0 {
        normalized_fraction(half_fraction(bits)) as nat
    } else {
        half_fraction(bits) * 8192
    }
}

/// The bit pattern of the single that equals a half.
pub open spec fn single_bits(bits: u16) -> u32 {
    (half_sign(bits) * 0x8000_0000 + single_exponent(bits) * 0x80_0000 + single_fraction(
        bits,
    )) as u32
}

/// The magnitude of a finite half, in units of `2^-24`.
pub open spec fn half_magnitude(bits: u16) -> nat {
    if half_exponent(bits) == 0 {
        half_fraction(bits)
    } else {
        (1024 + half_fraction(bits)) * vstd::arithmetic::power2::pow2(
            (half_exponent(bits) - 1) as nat,
        )
    }
}

/// The magnitude of a normal single with exponent at least 103, in units of `2^-47`.
pub open spec fn single_magnitude(exponent: nat, fraction: nat) -> nat {
    (0x80_0000 + fraction) * vstd::arithmetic::power2::pow2((exponent - 103) as nat)
}

/// Convert the bits of an IEEE-754 half into the bits of the single of the same value.
pub fn f16_bits_to_f32_bits(bits: u16) -> (r: u32)
    ensures
        r == single_bits(bits),
{
    let sign: u32 = (bits / 0x8000) as u32;
    let exponent: u32 = ((bits / 0x400) % 32) as u32;
    let fraction: u32 = (bits % 0x400) as u32;
    let payload: u32 = if exponent == 31 {
        0x7F80_0000 + fraction * 8192
    } else if exponent > 0 {
        (exponent + 112) * 0x80_0000 + fraction * 8192
    } else if fraction >= 512 {
        112 * 0x80_0000 + (fraction - 512) * 0x4000
    } else if fraction >= 256 {
        111 * 0x80_0000 + (fraction - 256) * 0x8000
    } else if fraction >= 128 {
        110 * 0x80_0000 + (fraction - 128) * 0x1_0000
    } else if fraction >= 64 {
        109 * 0x80_0000 + (fraction - 64) * 0x2_0000
    } else if fraction >= 32 {
        108 * 0x80_0000 + (fraction - 32) * 0x4_0000
    } else if fraction >= 16 {
        107 * 0x80_0000 + (fraction - 16) * 0x8_0000
    } else if fraction >= 8 {
        106 * 0x80_0000 + (fraction - 8) * 0x10_0000
    } else if fraction >= 4 {
        105 * 0x80_0000 + (fraction - 4) * 0x20_0000
    } else if fraction >= 2 {
        104 * 0x80_0000 + (fraction - 2) * 0x40_0000
    } else if fraction == 1 {
        103 * 0x80_0000
    } else {
        0
    };
    sign * 0x8000_0000 + payload
}

/// A finite half that is not zero and the single it is converted to are the same number.
pub proof fn law_half_keeps_its_value(bits: u16)
    requires
        half_exponent(bits) < 31,
        half_magnitude(bits) > 0,
    ensures
        single_exponent(bits) >= 103,
        single_magnitude(single_exponent(bits), single_fraction(bits)) == half_magnitude(bits)
            * 0x80_0000,
{
    let f = half_fraction(bits);
    let e = half_exponent(bits);
    if e > 0 {
        let p = vstd::arithmetic::power2::pow2((e - 1) as nat);
        assert(vstd::arithmetic::power2::pow2((e + 9) as nat) == 1024 * p) by {
            vstd::arithmetic::power2::lemma_pow2_adds(10, (e - 1) as nat);
            assert(vstd::arithmetic::power2::pow2(10) == 1024) by {
                vstd::arithmetic::power2::lemma2_to64();
            }
        }
        assert((0x80_0000 + f * 8192) * (1024 * p) == ((1024 + f) * p) * 0x80_0000)
            by (nonlinear_arith);
    } else {
        let w = vstd::arithmetic::power2::pow2(top_bit(f));
        let n = 0x80_0000 + normalized_fraction(f);
        assert(w == (if f >= 512 {
            512nat
        } else if f >= 256 {
            256
        } else if f >= 128 {
            128
        } else if f >= 64 {
            64
        } else if f >= 32 {
            32
        } else if f >= 16 {
            16
        } else if f >= 8 {
            8
        } else if f >= 4 {
            4
        } else if f >= 2 {
            2
        } else {
            1
        })) by {
            vstd::arithmetic::power2::lemma2_to64();
        }
        assert(n * w == f * 0x80_0000) by (nonlinear_arith)
            requires
                1 <= f < 1024,
                n == 0x80_0000 + normalized_fraction(f),
                w == (if f >= 512 {
                    512nat
                } else if f >= 256 {
                    256
                } else if f >= 128 {
                    128
                } else if f >= 64 {
                    64
                } else if f >= 32 {
                    32
                } else if f >= 16 {
                    16
                } else if f >= 8 {
                    8
                } else if f >= 4 {
                    4
                } else if f >= 2 {
                    2
                } else {
                    1
                }),
        ;
    }
}

/// The `i`-th word of a payload is in its bytes from `i` times the width on, the least
/// significant first.
pub proof fn law_words_stand_in_their_bytes(bytes: Seq<u8>, i: int)
    requires
        0 <= i,
    ensures
        2 * i + 2 <= bytes.len() ==> word_at(bytes, 2, i) == bytes[2 * i] + 256 * bytes[2 * i + 1],
        4 * i + 4 <= bytes.len() ==> word_at(bytes, 4, i) == bytes[4 * i] + 256 * (bytes[4 * i + 1]
            + 256 * (bytes[4 * i + 2] + 256 * bytes[4 * i + 3])),
{
    if 2 * i + 2 <= bytes.len() {
        le::lemma_two_bytes(bytes.subrange(i * 2, (i + 1) * 2));
    }
    if 4 * i + 4 <= bytes.len() {
        le::lemma_four_bytes(bytes.subrange(i * 4, (i + 1) * 4));
    }
}

/// What becomes of the fields of a half. The sign stays. Infinities and NaNs stay what they
/// are and keep their fraction, zeros stay zeros, and a normal half keeps its fraction under
/// an exponent that is greater by 112. A subnormal half becomes a normal single: its
/// fraction is shifted up until the leading one stands above the single's 23 bits.
#[verifier::rlimit(40)]
pub proof fn law_halves_are_widened_field_by_field(bits: u16)
    ensures
        ({
            let r = single_bits(bits);
            let exponent = (bits / 0x400) % 0x20;
            let fraction = bits % 0x400;
            let wide_exponent = (r / 0x80_0000) % 0x100;
            let wide_fraction = r % 0x80_0000;
            &&& r / 0x8000_0000 == bits / 0x8000
            &&& exponent == 31 ==> wide_exponent == 255 && wide_fraction == fraction * 0x2000
            &&& 0 < exponent < 31 ==> wide_exponent == exponent + 112 && wide_fraction == fraction
                * 0x2000
            &&& exponent == 0 && fraction == 0 ==> wide_exponent == 0 && wide_fraction == 0
            &&& exponent == 0 && fraction > 0 ==> {
                &&& 103 <= wide_exponent <= 112
                &&& 0x80_0000 + wide_fraction == fraction * vstd::arithmetic::power2::pow2(
                    (126 - wide_exponent) as nat,
                )
            }
        }),
{
    let sign = half_sign(bits);
    let e = single_exponent(bits);
    let f = single_fraction(bits);
    assert(sign <= 1 && e <= 255 && f < 0x80_0000);
    let r = single_bits(bits);
    assert(r == sign * 0x8000_0000 + e * 0x80_0000 + f);
    assert(r / 0x8000_0000 == sign);
    assert((r / 0x80_0000) % 0x100 == e && r % 0x80_0000 == f) by {
        assert(r / 0x80_0000 == sign * 0x100 + e);
    }
    let g = half_fraction(bits);
    if half_exponent(bits) == 0 && g > 0 {
        let p = vstd::arithmetic::power2::pow2((126 - e) as nat);
        assert(p == (if g >= 512 {
            0x4000nat
        } else if g >= 256 {
            0x8000
        } else if g >= 128 {
            0x1_0000
        } else if g >= 64 {
            0x2_0000
        } else if g >= 32 {
            0x4_0000
        } else if g >= 16 {
            0x8_0000
        } else if g >= 8 {
            0x10_0000
        } else if g >= 4 {
            0x20_0000
        } else if g >= 2 {
            0x40_0000
        } else {
            0x80_0000
        })) by {
            vstd::arithmetic::power2::lemma2_to64();
        }
        assert(0x80_0000 + normalized_fraction(g) == g * p) by (nonlinear_arith)
            requires
                1 <= g < 1024,
                p == (if g >= 512 {
                    0x4000nat
                } else if g >= 256 {
                    0x8000
                } else if g >= 128 {
                    0x1_0000
                } else if g >= 64 {
                    0x2_0000
                } else if g >= 32 {
                    0x4_0000
                } else if g >= 16 {
                    0x8_0000
                } else if g >= 8 {
                    0x10_0000
                } else if g >= 4 {
                    0x20_0000
                } else if g >= 2 {
                    0x40_0000
                } else {
                    0x80_0000
                }),
        ;
    }
}

/// The dtype is a dense float of at most 32 bits.
pub open spec fn plain_float(dtype: DType) -> bool {
    dtype is F32 || dtype is F16 || dtype is BF16
}

/// Bytes of an element of a dense float.
pub open spec fn element_width(dtype: DType) -> Option<usize> {
    match dtype {
        DType::F32 => Some(4),
        DType::F16 => Some(2),
        DType::BF16 => Some(2),
        _ => None,
    }
}

/// The plain floats are the dtypes with the wire codes 0, 1 and 30. They alone have an
/// element width, and their payloads take that many bytes for each element.
pub proof fn law_plain_floats_have_a_width(dtype: DType, n: nat)
    requires
        !(dtype is Other),
    ensures
        plain_float(dtype) <==> dtype_code(dtype) == 0 || dtype_code(dtype) == 1 || dtype_code(
            dtype,
        ) == 30,
        element_width(dtype) is Some <==> plain_float(dtype),
        element_width(dtype) is Some ==> {
            let width = element_width(dtype)->Some_0 as nat;
            &&& width * n <= usize::MAX ==> packed_len(dtype, n) == Some(width * n)
            &&& width * n > usize::MAX ==> packed_len(dtype, n) is None
        },
{
    law_wire_codes(dtype_code(dtype), n);
    if element_width(dtype) is Some {
        let width = element_width(dtype)->Some_0 as nat;
        assert(n / 1 == n && n % 1 == 0);
        assert(n * width == width * n) by (nonlinear_arith);
    }
}

} // verus!
