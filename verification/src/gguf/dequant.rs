//! Packed-block decoding for Q8_0, Q5_K, Q6_K, and IQ3_M.
//!
//! These helpers operate on already-sliced packed bytes (owned `Vec<u8>` or
//! mmap-backed `&[u8]`). Each value is decoded into the integers and half-precision
//! scales that it is made of; see [`PackedValue`] for the number it stands for.
//!
//! HuggingFace "IQ3_M" is a mixed-quant *preset*, not GGUF wire type 31.
//! Wire 31 remains historical `Q4_0_4_4`. The 111-byte IQ3_M block decoder uses the
//! internal non-wire id `GGML_TYPE_IQ3_M_BLOCK`.

use crate::error::{ErrorView, ParserError};
use crate::gguf::limits;
use crate::gguf::tensor;
use crate::gguf::tensor::{
    DType, GGML_TYPE_IQ3_M_BLOCK, GGML_TYPE_Q5_K, GGML_TYPE_Q6_K, GGML_TYPE_Q8_0,
};
use crate::text;
use vstd::prelude::*;
use vstd::slice::slice_subrange;

verus! {

/// The packed layouts that can be decoded.
#[allow(non_camel_case_types)]
#[derive(Debug, Clone, Copy, PartialEq, Eq, Structural)]
pub enum PackedFormat {
    /// 32 values in 34 bytes: scale, then signed bytes.
    Q8_0,
    /// 256 values in 176 bytes: scale, minimum scale, packed scales, high bits, low nibbles.
    Q5_K,
    /// 256 values in 210 bytes: low nibbles, high bits, signed scales, scale.
    Q6_K,
    /// 256 values in 111 bytes: scale, high bits, low pairs, packed scales.
    IQ3_M,
}

/// One decoded value: the number `scale * factor * quant - min_scale * min`, where
/// `scale` and `min_scale` are the bits of half-precision floats.
#[derive(Debug, Clone, Copy, PartialEq, Eq, Structural)]
pub struct PackedValue {
    /// Bits of the block's half-precision scale.
    pub scale: u16,
    /// Integer scale of the value's group.
    pub factor: i32,
    /// The quantized value.
    pub quant: i32,
    /// Bits of the block's half-precision scale of minima.
    pub min_scale: u16,
    /// Integer minimum of the value's group.
    pub min: i32,
}

/// Values per block.
pub open spec fn format_block(format: PackedFormat) -> nat {
    match format {
        PackedFormat::Q8_0 => 32,
        _ => 256,
    }
}

/// Bytes per block.
pub open spec fn format_bytes(format: PackedFormat) -> nat {
    match format {
        PackedFormat::Q8_0 => 34,
        PackedFormat::Q5_K => 176,
        PackedFormat::Q6_K => 210,
        PackedFormat::IQ3_M => 111,
    }
}

/// The label of a format in errors.
pub open spec fn format_label(format: PackedFormat) -> Seq<char> {
    match format {
        PackedFormat::Q8_0 => "Q8_0"@,
        PackedFormat::Q5_K => "Q5_K"@,
        PackedFormat::Q6_K => "Q6_K"@,
        PackedFormat::IQ3_M => "IQ3_M"@,
    }
}

/// The format of a `ggml_type` code.
pub open spec fn format_of_type(ggml_type: u32) -> Option<PackedFormat> {
    if ggml_type == GGML_TYPE_Q8_0 {
        Some(PackedFormat::Q8_0)
    } else if ggml_type == GGML_TYPE_Q5_K {
        Some(PackedFormat::Q5_K)
    } else if ggml_type == GGML_TYPE_Q6_K {
        Some(PackedFormat::Q6_K)
    } else if ggml_type == GGML_TYPE_IQ3_M_BLOCK {
        Some(PackedFormat::IQ3_M)
    } else {
        None
    }
}

/// The format of a dtype.
pub open spec fn format_of_dtype(dtype: DType) -> Option<PackedFormat> {
    match dtype {
        DType::Q8_0 => Some(PackedFormat::Q8_0),
        DType::Q5_K => Some(PackedFormat::Q5_K),
        DType::Q6_K => Some(PackedFormat::Q6_K),
        DType::IQ3_M_BLOCK => Some(PackedFormat::IQ3_M),
        _ => None,
    }
}

/// An unsupported request to the decoder.
pub open spec fn dequant_unsupported(reason: Seq<char>) -> ErrorView {
    ErrorView::UnsupportedFormat { path: "<dequantize>"@, reason }
}

/// Inconsistent input to the decoder.
pub open spec fn dequant_invalid(reason: Seq<char>) -> ErrorView {
    ErrorView::InvalidLayout { path: "<dequantize>"@, reason }
}

// ---------------------------------------------------------------------------
// Values of a block
// ---------------------------------------------------------------------------
/// Bit `k` of `b`, counted from the lowest.
pub open spec fn bit_at(b: nat, k: int) -> nat
    decreases k,
{
    if k <= 0 {
        b % 2
    } else {
        bit_at(b / 2, k - 1)
    }
}

/// The `k`-th pair of bits of `b`, counted from the lowest.
pub open spec fn pair_at(b: nat, k: int) -> nat
    decreases k,
{
    if k <= 0 {
        b % 4
    } else {
        pair_at(b / 4, k - 1)
    }
}

/// The bits of the half stored at `i`.
pub open spec fn half_at(block: Seq<u8>, i: int) -> u16 {
    (block[i] + 256 * block[i + 1]) as u16
}

/// A byte as a two's complement number.
pub open spec fn signed_byte(b: u8) -> int {
    if b < 128 {
        b as int
    } else {
        b - 256
    }
}

/// Value `i` of a Q8_0 block.
pub open spec fn q8_0_value(block: Seq<u8>, i: int) -> PackedValue {
    PackedValue {
        scale: half_at(block, 0),
        factor: 1,
        quant: signed_byte(block[2 + i]) as i32,
        min_scale: 0,
        min: 0,
    }
}

/// The 6-bit scale and minimum of group `g` in the 12 packed bytes at `4..16`.
pub open spec fn k4_scale_min(block: Seq<u8>, g: int) -> (int, int) {
    if g < 4 {
        ((block[4 + g] % 64) as int, (block[8 + g] % 64) as int)
    } else {
        (
            block[8 + g] % 16 + 16 * (block[g] / 64),
            block[8 + g] / 16 + 16 * (block[4 + g] / 64),
        )
    }
}

/// Value `i` of a Q5_K block: groups of 32, two of them to each 32 bytes of nibbles.
pub open spec fn q5_k_value(block: Seq<u8>, i: int) -> PackedValue {
    let g = i / 32;
    let lane = i % 32;
    let nibbles = block[48 + 32 * (g / 2) + lane];
    let low = if g % 2 == 0 {
        (nibbles % 16) as int
    } else {
        (nibbles / 16) as int
    };
    let (factor, min) = k4_scale_min(block, g);
    PackedValue {
        scale: half_at(block, 0),
        factor: factor as i32,
        quant: (low + 16 * bit_at(block[16 + lane] as nat, g)) as i32,
        min_scale: half_at(block, 2),
        min: min as i32,
    }
}

/// Value `i` of a Q6_K block: two halves of 128, each of four groups of 32.
pub open spec fn q6_k_value(block: Seq<u8>, i: int) -> PackedValue {
    let pass = i / 128;
    let g = (i % 128) / 32;
    let lane = i % 32;
    let nibbles = block[64 * pass + 32 * (g % 2) + lane];
    let low = if g < 2 {
        (nibbles % 16) as int
    } else {
        (nibbles / 16) as int
    };
    PackedValue {
        scale: half_at(block, 208),
        factor: signed_byte(block[192 + 8 * pass + lane / 16 + 2 * g]) as i32,
        quant: (low + 16 * pair_at(block[128 + 32 * pass + lane] as nat, g) - 32) as i32,
        min_scale: 0,
        min: 0,
    }
}

/// Scale `j` of an IQ3_M block: the `j`-th 6-bit field of the 12 bytes at `98..110`,
/// extended for the first four by a pair of bits of byte 110.
pub open spec fn iq3_m_scale(block: Seq<u8>, j: int) -> int {
    let b = 98 + 3 * (j / 4);
    let field: int = if j % 4 == 0 {
        (block[b] % 64) as int
    } else if j % 4 == 1 {
        block[b] / 64 + 4 * (block[b + 1] % 16)
    } else if j % 4 == 2 {
        block[b + 1] / 16 + 16 * (block[b + 2] % 4)
    } else {
        (block[b + 2] / 4) as int
    };
    let high: int = if j < 4 {
        pair_at(block[110] as nat, j) as int
    } else {
        0
    };
    field + 64 * high
}

/// Value `i` of an IQ3_M block.
pub open spec fn iq3_m_value(block: Seq<u8>, i: int) -> PackedValue {
    PackedValue {
        scale: half_at(block, 0),
        factor: iq3_m_scale(block, i / 16) as i32,
        quant: (pair_at(block[34 + i / 4] as nat, i % 4) + 4 * bit_at(
            block[2 + i / 8] as nat,
            i % 8,
        ) - 4) as i32,
        min_scale: 0,
        min: 0,
    }
}

/// Value `i` of a block.
pub open spec fn block_value(format: PackedFormat, block: Seq<u8>, i: int) -> PackedValue {
    match format {
        PackedFormat::Q8_0 => q8_0_value(block, i),
        PackedFormat::Q5_K => q5_k_value(block, i),
        PackedFormat::Q6_K => q6_k_value(block, i),
        PackedFormat::IQ3_M => iq3_m_value(block, i),
    }
}

/// The `width` values of a row of consecutive blocks.
pub open spec fn row_values(format: PackedFormat, row: Seq<u8>, width: nat) -> Seq<PackedValue> {
    Seq::new(
        width,
        |c: int|
            {
                let b = c / format_block(format) as int;
                let bytes = format_bytes(format);
                block_value(
                    format,
                    row.subrange(b * bytes, b * bytes + bytes),
                    c % format_block(format) as int,
                )
            },
    )
}

/// The values of `rows` consecutive rows.
pub open spec fn rows_values(
    format: PackedFormat,
    packed: Seq<u8>,
    width: nat,
    row_bytes: nat,
    rows: nat,
) -> Seq<PackedValue>
    decreases rows,
{
    if rows == 0 {
        Seq::empty()
    } else {
        let before = (rows - 1) as nat;
        rows_values(format, packed, width, row_bytes, before) + row_values(
            format,
            packed.subrange((before * row_bytes) as int, (before * row_bytes + row_bytes) as int),
            width,
        )
    }
}

fn bit_of(b: u8, k: usize) -> (r: u8)
    requires
        k < 8,
    ensures
        r == bit_at(b as nat, k as int),
        r <= 1,
{
    proof {
        reveal_with_fuel(bit_at, 9);
    }
    match k {
        0 => b % 2,
        1 => (b / 2) % 2,
        2 => (b / 4) % 2,
        3 => (b / 8) % 2,
        4 => (b / 16) % 2,
        5 => (b / 32) % 2,
        6 => (b / 64) % 2,
        _ => (b / 128) % 2,
    }
}

fn pair_of(b: u8, k: usize) -> (r: u8)
    requires
        k < 4,
    ensures
        r == pair_at(b as nat, k as int),
        r <= 3,
{
    proof {
        reveal_with_fuel(pair_at, 5);
    }
    match k {
        0 => b % 4,
        1 => (b / 4) % 4,
        2 => (b / 16) % 4,
        _ => (b / 64) % 4,
    }
}

fn half_of(block: &[u8], i: usize) -> (r: u16)
    requires
        i + 1 < block@.len(),
    ensures
        r == half_at(block@, i as int),
{
    block[i] as u16 + 256 * (block[i + 1] as u16)
}

fn signed_of(b: u8) -> (r: i32)
    ensures
        r == signed_byte(b),
        -128 <= r < 128,
{
    if b < 128 {
        b as i32
    } else {
        b as i32 - 256
    }
}

fn scale_min_k4(block: &[u8], g: usize) -> (r: (i32, i32))
    requires
        block@.len() == 176,
        g < 8,
    ensures
        r.0 == k4_scale_min(block@, g as int).0,
        r.1 == k4_scale_min(block@, g as int).1,
{
    if g < 4 {
        ((block[4 + g] % 64) as i32, (block[8 + g] % 64) as i32)
    } else {
        (
            (block[8 + g] % 16) as i32 + 16 * ((block[g] / 64) as i32),
            (block[8 + g] / 16) as i32 + 16 * ((block[4 + g] / 64) as i32),
        )
    }
}

fn unpack_iq3_m_scale(block: &[u8], j: usize) -> (r: i32)
    requires
        block@.len() == 111,
        j < 16,
    ensures
        r == iq3_m_scale(block@, j as int),
{
    let b: usize = 98 + 3 * (j / 4);
    let field: i32 = if j % 4 == 0 {
        (block[b] % 64) as i32
    } else if j % 4 == 1 {
        (block[b] / 64) as i32 + 4 * ((block[b + 1] % 16) as i32)
    } else if j % 4 == 2 {
        (block[b + 1] / 16) as i32 + 16 * ((block[b + 2] % 4) as i32)
    } else {
        (block[b + 2] / 4) as i32
    };
    let high: i32 = if j < 4 {
        pair_of(block[110], j) as i32
    } else {
        0
    };
    field + 64 * high
}

/// Decode value `i` of a block.
fn decode_value(format: PackedFormat, block: &[u8], i: usize) -> (r: PackedValue)
    requires
        block@.len() == format_bytes(format),
        i < format_block(format),
    ensures
        r == block_value(format, block@, i as int),
{
    match format {
        PackedFormat::Q8_0 => PackedValue {
            scale: half_of(block, 0),
            factor: 1,
            quant: signed_of(block[2 + i]),
            min_scale: 0,
            min: 0,
        },
        PackedFormat::Q5_K => {
            let g: usize = i / 32;
            let lane: usize = i % 32;
            let nibbles: u8 = block[48 + 32 * (g / 2) + lane];
            let low: u8 = if g % 2 == 0 {
                nibbles % 16
            } else {
                nibbles / 16
            };
            let (factor, min): (i32, i32) = scale_min_k4(block, g);
            let high: u8 = bit_of(block[16 + lane], g);
            PackedValue {
                scale: half_of(block, 0),
                factor,
                quant: low as i32 + 16 * (high as i32),
                min_scale: half_of(block, 2),
                min,
            }
        },
        PackedFormat::Q6_K => {
            let pass: usize = i / 128;
            let g: usize = (i % 128) / 32;
            let lane: usize = i % 32;
            let nibbles: u8 = block[64 * pass + 32 * (g % 2) + lane];
            let low: u8 = if g < 2 {
                nibbles % 16
            } else {
                nibbles / 16
            };
            let high: u8 = pair_of(block[128 + 32 * pass + lane], g);
            PackedValue {
                scale: half_of(block, 208),
                factor: signed_of(block[192 + 8 * pass + lane / 16 + 2 * g]),
                quant: low as i32 + 16 * (high as i32) - 32,
                min_scale: 0,
                min: 0,
            }
        },
        PackedFormat::IQ3_M => {
            let low: u8 = pair_of(block[34 + i / 4], i % 4);
            let high: u8 = bit_of(block[2 + i / 8], i % 8);
            PackedValue {
                scale: half_of(block, 0),
                factor: unpack_iq3_m_scale(block, i / 16),
                quant: low as i32 + 4 * (high as i32) - 4,
                min_scale: 0,
                min: 0,
            }
        },
    }
}

// ---------------------------------------------------------------------------
// Shapes
// ---------------------------------------------------------------------------
/// A row width: positive and made of whole blocks.
pub open spec fn check_width(format: PackedFormat, width: nat) -> Result<(), ErrorView> {
    if width == 0 {
        Err(dequant_unsupported(format_label(format) + " width must be positive"@))
    } else if width % format_block(format) == 0 {
        Ok(())
    } else {
        Err(
            dequant_unsupported(
                format_label(format) + " width "@ + text::decimal(width) + " is not divisible by "@
                    + text::decimal(format_block(format)),
            ),
        )
    }
}

/// Bytes of a row of `width` values.
pub open spec fn row_size(format: PackedFormat, width: nat) -> Result<nat, ErrorView> {
    match check_width(format, width) {
        Err(e) => Err(e),
        Ok(_) => {
            let bytes = (width / format_block(format)) * format_bytes(format);
            if bytes > usize::MAX {
                Err(dequant_invalid(format_label(format) + " row byte-length overflow"@))
            } else {
                Ok(bytes)
            }
        },
    }
}

/// The product of sizes, multiplied from the left, as long as it stays addressable.
pub open spec fn size_product(sizes: Seq<usize>) -> Option<nat>
    decreases sizes.len(),
{
    if sizes.len() == 0 {
        Some(1)
    } else {
        match size_product(sizes.drop_last()) {
            None => None,
            Some(p) => if p * sizes.last() > usize::MAX {
                None
            } else {
                Some(p * sizes.last() as nat)
            },
        }
    }
}

/// Row width, bytes per row and number of rows of packed data of `len` bytes and shape `dims`.
pub open spec fn packed_shape(format: PackedFormat, len: nat, dims: Seq<usize>) -> Result<
    (nat, nat, nat),
    ErrorView,
> {
    let label = format_label(format);
    if dims.len() == 0 {
        Err(dequant_unsupported("dequant dims must be non-empty"@))
    } else {
        let width = dims[0] as nat;
        match size_product(dims.skip(1)) {
            None => Err(dequant_invalid("dequant dims overflow"@)),
            Some(rows) => match row_size(format, width) {
                Err(e) => Err(e),
                Ok(row_bytes) => {
                    let expected = rows * row_bytes;
                    if expected > usize::MAX {
                        Err(dequant_invalid(label + " packed byte-length overflow"@))
                    } else if len != expected {
                        Err(
                            dequant_invalid(
                                label + " packed length mismatch: expected "@ + text::decimal(
                                    expected,
                                ) + " bytes for dims "@ + text::number_list(dims) + ", got "@
                                    + text::decimal(len),
                            ),
                        )
                    } else if width * rows > usize::MAX {
                        Err(dequant_invalid(label + " element count overflow"@))
                    } else {
                        Ok((width, row_bytes, rows))
                    }
                },
            },
        }
    }
}

/// What decoding packed data gives.
pub open spec fn packed_values(format: PackedFormat, packed: Seq<u8>, dims: Seq<usize>) -> Result<
    Seq<PackedValue>,
    ErrorView,
> {
    match packed_shape(format, packed.len(), dims) {
        Err(e) => Err(e),
        Ok((width, row_bytes, rows)) => Ok(
            rows_values(format, packed, width, row_bytes, rows),
        ),
    }
}

/// What a decoder returned, with its parts as mathematical values.
pub open spec fn values_outcome(r: Result<Vec<PackedValue>, ParserError>) -> Result<
    Seq<PackedValue>,
    ErrorView,
> {
    match r {
        Ok(v) => Ok(v@),
        Err(e) => Err(e@),
    }
}

/// What a size computation returned.
pub open spec fn size_outcome(r: Result<usize, ParserError>) -> Result<nat, ErrorView> {
    match r {
        Ok(n) => Ok(n as nat),
        Err(e) => Err(e@),
    }
}

fn unsupported(reason: String) -> (r: ParserError)
    ensures
        r@ == dequant_unsupported(reason@),
{
    crate::error::unsupported("<dequantize>", reason)
}

fn invalid(reason: String) -> (r: ParserError)
    ensures
        r@ == dequant_invalid(reason@),
{
    crate::error::invalid_layout("<dequantize>", reason)
}

impl PackedFormat {
    fn block(self) -> (r: usize)
        ensures
            r == format_block(self),
            r > 0,
    {
        match self {
            PackedFormat::Q8_0 => 32,
            _ => 256,
        }
    }

    fn bytes(self) -> (r: usize)
        ensures
            r == format_bytes(self),
            r > 0,
    {
        match self {
            PackedFormat::Q8_0 => 34,
            PackedFormat::Q5_K => 176,
            PackedFormat::Q6_K => 210,
            PackedFormat::IQ3_M => 111,
        }
    }

    fn label(self) -> (r: &'static str)
        ensures
            r@ == format_label(self),
    {
        match self {
            PackedFormat::Q8_0 => "Q8_0",
            PackedFormat::Q5_K => "Q5_K",
            PackedFormat::Q6_K => "Q6_K",
            PackedFormat::IQ3_M => "IQ3_M",
        }
    }
}

fn require_multiple(format: PackedFormat, width: usize) -> (r: Result<(), ParserError>)
    ensures
        limits::outcome(r) == check_width(format, width as nat),
{
    if width == 0 {
        return Err(unsupported(text::concat2(format.label(), " width must be positive")));
    }
    if width % format.block() == 0 {
        Ok(())
    } else {
        Err(
            unsupported(
                text::concat5(
                    format.label(),
                    " width ",
                    text::decimal_string(width as u64).as_str(),
                    " is not divisible by ",
                    text::decimal_string(format.block() as u64).as_str(),
                ),
            ),
        )
    }
}

fn row_size_for_block(format: PackedFormat, width: usize) -> (r: Result<usize, ParserError>)
    ensures
        size_outcome(r) == row_size(format, width as nat),
{
    match require_multiple(format, width) {
        Err(e) => Err(e),
        Ok(_) => match (width / format.block()).checked_mul(format.bytes()) {
            None => Err(invalid(text::concat2(format.label(), " row byte-length overflow"))),
            Some(n) => Ok(n),
        },
    }
}

/// Packed byte length of one row for a blocked quant dtype.
pub fn packed_row_size(ggml_type: u32, width: usize) -> (r: Result<usize, ParserError>)
    ensures
        match format_of_type(ggml_type) {
            Some(format) => size_outcome(r) == row_size(format, width as nat),
            None => size_outcome(r) == Err::<nat, _>(
                dequant_unsupported(
                    "row-size lookup is not implemented for ggml_type="@ + text::decimal(
                        ggml_type as nat,
                    ),
                ),
            ),
        },
{
    if ggml_type == GGML_TYPE_Q8_0 {
        row_size_for_block(PackedFormat::Q8_0, width)
    } else if ggml_type == GGML_TYPE_Q5_K {
        row_size_for_block(PackedFormat::Q5_K, width)
    } else if ggml_type == GGML_TYPE_Q6_K {
        row_size_for_block(PackedFormat::Q6_K, width)
    } else if ggml_type == GGML_TYPE_IQ3_M_BLOCK {
        row_size_for_block(PackedFormat::IQ3_M, width)
    } else {
        Err(
            unsupported(
                text::concat2(
                    "row-size lookup is not implemented for ggml_type=",
                    text::decimal_string(ggml_type as u64).as_str(),
                ),
            ),
        )
    }
}

/// The error of a row whose length does not fit its width.
pub open spec fn row_length_error(format: PackedFormat, width: nat, len: nat) -> ErrorView {
    dequant_invalid(
        format_label(format) + " row length mismatch: expected "@ + text::decimal(
            (width / format_block(format)) * format_bytes(format),
        ) + " bytes for width "@ + text::decimal(width) + ", got "@ + text::decimal(len),
    )
}

proof fn lemma_block_position(block: int, b: int, i: int)
    requires
        0 <= i < block,
        0 <= b,
    ensures
        (b * block + i) / block == b,
        (b * block + i) % block == i,
{
    vstd::arithmetic::div_mod::lemma_fundamental_div_mod_converse(b * block + i, block, b, i);
}

/// Decode one row of `width` packed values.
pub fn dequantize_row(format: PackedFormat, row: &[u8], width: usize) -> (r: Result<
    Vec<PackedValue>,
    ParserError,
>)
    requires
        (width as nat / format_block(format)) * format_bytes(format) <= usize::MAX,
    ensures
        match check_width(format, width as nat) {
            Err(e) => values_outcome(r) == Err::<Seq<PackedValue>, _>(e),
            Ok(_) => if row@.len() == (width as nat / format_block(format)) * format_bytes(format) {
                values_outcome(r) == Ok::<_, ErrorView>(row_values(format, row@, width as nat))
            } else {
                values_outcome(r) == Err::<Seq<PackedValue>, _>(
                    row_length_error(format, width as nat, row@.len()),
                )
            },
        },
{
    match require_multiple(format, width) {
        Err(e) => {
            return Err(e);
        },
        Ok(_) => {},
    }
    let block: usize = format.block();
    let bytes: usize = format.bytes();
    let blocks: usize = width / block;
    let expected: usize = blocks * bytes;
    if row.len() != expected {
        let mut reason = text::concat5(
            format.label(),
            " row length mismatch: expected ",
            text::decimal_string(expected as u64).as_str(),
            " bytes for width ",
            text::decimal_string(width as u64).as_str(),
        );
        reason.append(", got ");
        reason.append(text::decimal_string(row.len() as u64).as_str());
        return Err(invalid(reason));
    }
    let ghost all = row_values(format, row@, width as nat);
    proof {
        vstd::arithmetic::div_mod::lemma_fundamental_div_mod(width as int, block as int);
        assert(block * blocks == blocks * block) by (nonlinear_arith);
    }
    let mut out: Vec<PackedValue> = Vec::new();
    let mut b: usize = 0;
    while b < blocks
        invariant
            b <= blocks,
            blocks * block == width,
            blocks * bytes == row@.len(),
            block == format_block(format),
            bytes == format_bytes(format),
            row@.len() <= usize::MAX,
            all == row_values(format, row@, width as nat),
            out@ == all.take(b * block),
        decreases blocks - b,
    {
        proof {
            assert(b * bytes + bytes <= blocks * bytes) by (nonlinear_arith)
                requires
                    b + 1 <= blocks,
            ;
            assert(b * block + block <= blocks * block) by (nonlinear_arith)
                requires
                    b + 1 <= blocks,
            ;
            assert((b + 1) * block == b * block + block) by (nonlinear_arith);
        }
        let start: usize = b * bytes;
        let chunk = slice_subrange(row, start, start + bytes);
        let mut i: usize = 0;
        while i < block
            invariant
                i <= block,
                b < blocks,
                blocks * block == width,
                b * block + block <= width,
                block == format_block(format),
                bytes == format_bytes(format),
                chunk@ == row@.subrange((b * bytes) as int, b * bytes + bytes),
                chunk@.len() == bytes,
                all == row_values(format, row@, width as nat),
                out@ == all.take(b * block + i),
            decreases block - i,
        {
            proof {
                lemma_block_position(block as int, b as int, i as int);
                assert(all[b * block + i] == block_value(format, chunk@, i as int));
            }
            out.push(decode_value(format, chunk, i));
            assert(all.take(b * block + i + 1) =~= all.take(b * block + i).push(
                all[b * block + i],
            ));
            i += 1;
        }
        b += 1;
    }
    assert(all.take(b * block) =~= all);
    Ok(out)
}

fn width_and_rows(dims: &[usize]) -> (r: Result<(usize, usize), ParserError>)
    ensures
        match r {
            Ok((width, rows)) => {
                &&& dims@.len() > 0
                &&& width == dims@[0]
                &&& size_product(dims@.skip(1)) == Some(rows as nat)
            },
            Err(e) => if dims@.len() == 0 {
                e@ == dequant_unsupported("dequant dims must be non-empty"@)
            } else {
                &&& size_product(dims@.skip(1)) is None
                &&& e@ == dequant_invalid("dequant dims overflow"@)
            },
        },
{
    if dims.len() == 0 {
        return Err(unsupported("dequant dims must be non-empty".to_owned()));
    }
    let ghost rest = dims@.skip(1);
    let mut rows: usize = 1;
    let mut i: usize = 1;
    assert(rest.take(0) =~= Seq::<usize>::empty());
    while i < dims.len()
        invariant
            1 <= i <= dims@.len(),
            rest == dims@.skip(1),
            size_product(rest.take(i - 1)) == Some(rows as nat),
        decreases dims@.len() - i,
    {
        assert(rest.take(i as int).drop_last() =~= rest.take(i - 1));
        assert(rest.take(i as int).last() == dims@[i as int]);
        match rows.checked_mul(dims[i]) {
            None => {
                proof {
                    lemma_size_product_prefix(rest, i as int);
                }
                return Err(invalid("dequant dims overflow".to_owned()));
            },
            Some(p) => {
                rows = p;
            },
        }
        i += 1;
    }
    assert(rest.take(i - 1) =~= rest);
    Ok((dims[0], rows))
}

/// Once a product is out of range it stays so.
pub proof fn lemma_size_product_prefix(sizes: Seq<usize>, i: int)
    requires
        0 <= i <= sizes.len(),
        size_product(sizes.take(i)) is None,
    ensures
        size_product(sizes) is None,
    decreases sizes.len() - i,
{
    if i < sizes.len() {
        assert(sizes.take(i + 1).drop_last() =~= sizes.take(i));
        lemma_size_product_prefix(sizes, i + 1);
    } else {
        assert(sizes.take(i) =~= sizes);
    }
}

fn dequantize_rows(format: PackedFormat, packed: &[u8], dims: &[usize]) -> (r: Result<
    Vec<PackedValue>,
    ParserError,
>)
    ensures
        values_outcome(r) == packed_values(format, packed@, dims@),
{
    let (width, rows): (usize, usize) = match width_and_rows(dims) {
        Err(e) => {
            return Err(e);
        },
        Ok(shape) => shape,
    };
    let row_bytes: usize = match row_size_for_block(format, width) {
        Err(e) => {
            return Err(e);
        },
        Ok(n) => n,
    };
    let expected: usize = match rows.checked_mul(row_bytes) {
        None => {
            return Err(invalid(text::concat2(format.label(), " packed byte-length overflow")));
        },
        Some(n) => n,
    };
    if packed.len() != expected {
        let mut reason = text::concat5(
            format.label(),
            " packed length mismatch: expected ",
            text::decimal_string(expected as u64).as_str(),
            " bytes for dims ",
            text::number_list_string(dims).as_str(),
        );
        reason.append(", got ");
        reason.append(text::decimal_string(packed.len() as u64).as_str());
        return Err(invalid(reason));
    }
    match width.checked_mul(rows) {
        None => {
            return Err(invalid(text::concat2(format.label(), " element count overflow")));
        },
        Some(_) => {},
    }
    let mut out: Vec<PackedValue> = Vec::new();
    let mut i: usize = 0;
    while i < rows
        invariant
            i <= rows,
            rows * row_bytes == packed@.len(),
            packed@.len() <= usize::MAX,
            row_size(format, width as nat) == Ok::<nat, ErrorView>(row_bytes as nat),
            out@ == rows_values(format, packed@, width as nat, row_bytes as nat, i as nat),
        decreases rows - i,
    {
        proof {
            assert(i * row_bytes + row_bytes <= rows * row_bytes) by (nonlinear_arith)
                requires
                    i + 1 <= rows,
            ;
        }
        let start: usize = i * row_bytes;
        let row = slice_subrange(packed, start, start + row_bytes);
        match dequantize_row(format, row, width) {
            Err(e) => {
                return Err(e);
            },
            Ok(mut values) => {
                out.append(&mut values);
            },
        }
        i += 1;
    }
    Ok(out)
}

/// Decode packed Q8_0 bytes (block size 32).
///
/// `dims` is GGUF innermost-first; `dims[0]` is the row width.
pub fn dequantize_q8_0(packed: &[u8], dims: &[usize]) -> (r: Result<Vec<PackedValue>, ParserError>)
    ensures
        values_outcome(r) == packed_values(PackedFormat::Q8_0, packed@, dims@),
{
    dequantize_rows(PackedFormat::Q8_0, packed, dims)
}

/// Decode packed Q5_K bytes (block size 256).
pub fn dequantize_q5_k(packed: &[u8], dims: &[usize]) -> (r: Result<Vec<PackedValue>, ParserError>)
    ensures
        values_outcome(r) == packed_values(PackedFormat::Q5_K, packed@, dims@),
{
    dequantize_rows(PackedFormat::Q5_K, packed, dims)
}

/// Decode packed Q6_K bytes (block size 256).
pub fn dequantize_q6_k(packed: &[u8], dims: &[usize]) -> (r: Result<Vec<PackedValue>, ParserError>)
    ensures
        values_outcome(r) == packed_values(PackedFormat::Q6_K, packed@, dims@),
{
    dequantize_rows(PackedFormat::Q6_K, packed, dims)
}

/// Decode packed IQ3_M *block-layout* bytes (111 bytes / 256 values).
///
/// This is **not** GGUF wire type 31 (`Q4_0_4_4`). See `GGML_TYPE_IQ3_M_BLOCK`.
pub fn dequantize_iq3_m(packed: &[u8], dims: &[usize]) -> (r: Result<Vec<PackedValue>, ParserError>)
    ensures
        values_outcome(r) == packed_values(PackedFormat::IQ3_M, packed@, dims@),
{
    dequantize_rows(PackedFormat::IQ3_M, packed, dims)
}

/// Dispatch packed decoding for the dtypes this crate implements.
///
/// Unknown / unimplemented dtypes fail closed.
pub fn dequantize_packed(dtype: DType, packed: &[u8], dims: &[usize]) -> (r: Result<
    Vec<PackedValue>,
    ParserError,
>)
    ensures
        match format_of_dtype(dtype) {
            Some(format) => values_outcome(r) == packed_values(format, packed@, dims@),
            None => values_outcome(r) == Err::<Seq<PackedValue>, _>(
                dequant_unsupported(
                    "no packed dequant for dtype "@ + tensor::type_label(tensor::dtype_code(dtype))
                        + " (ggml_type="@ + text::decimal(tensor::dtype_code(dtype) as nat) + ")"@,
                ),
            ),
        },
{
    match dtype {
        DType::Q8_0 => dequantize_q8_0(packed, dims),
        DType::Q5_K => dequantize_q5_k(packed, dims),
        DType::Q6_K => dequantize_q6_k(packed, dims),
        DType::IQ3_M_BLOCK => dequantize_iq3_m(packed, dims),
        _ => Err(fail_closed_dequant(dtype)),
    }
}

fn fail_closed_dequant(dtype: DType) -> (r: ParserError)
    ensures
        r@ == dequant_unsupported(
            "no packed dequant for dtype "@ + tensor::type_label(tensor::dtype_code(dtype))
                + " (ggml_type="@ + text::decimal(tensor::dtype_code(dtype) as nat) + ")"@,
        ),
{
    unsupported(
        text::concat5(
            "no packed dequant for dtype ",
            dtype.label(),
            " (ggml_type=",
            text::decimal_string(dtype.ggml_type() as u64).as_str(),
            ")",
        ),
    )
}

proof fn lemma_rows_values_len(
    format: PackedFormat,
    packed: Seq<u8>,
    width: nat,
    row_bytes: nat,
    rows: nat,
)
    ensures
        rows_values(format, packed, width, row_bytes, rows).len() == width * rows,
    decreases rows,
{
    if rows > 0 {
        lemma_rows_values_len(format, packed, width, row_bytes, (rows - 1) as nat);
        assert(width * rows == width * (rows - 1) + width) by (nonlinear_arith);
    } else {
        assert(width * 0 == 0);
    }
}

/// Decoding yields one value for every element of the shape.
pub proof fn law_decoding_fills_the_shape(format: PackedFormat, packed: Seq<u8>, dims: Seq<usize>)
    requires
        packed_values(format, packed, dims) is Ok,
    ensures
        size_product(dims.skip(1)) is Some,
        packed_values(format, packed, dims)->Ok_0.len() == dims[0] * size_product(
            dims.skip(1),
        )->Some_0,
{
    let (width, row_bytes, rows) = packed_shape(format, packed.len(), dims)->Ok_0;
    lemma_rows_values_len(format, packed, width, row_bytes, rows);
}

proof fn lemma_row_of_rows(
    format: PackedFormat,
    packed: Seq<u8>,
    width: nat,
    row_bytes: nat,
    rows: nat,
    r: nat,
)
    requires
        r < rows,
    ensures
        0 <= r * width <= (r + 1) * width <= rows_values(
            format,
            packed,
            width,
            row_bytes,
            rows,
        ).len(),
        rows_values(format, packed, width, row_bytes, rows).subrange(
            (r * width) as int,
            ((r + 1) * width) as int,
        ) == row_values(
            format,
            packed.subrange((r * row_bytes) as int, ((r + 1) * row_bytes) as int),
            width,
        ),
    decreases rows,
{
    let before = (rows - 1) as nat;
    let all = rows_values(format, packed, width, row_bytes, rows);
    let front = rows_values(format, packed, width, row_bytes, before);
    let last = row_values(
        format,
        packed.subrange((before * row_bytes) as int, (before * row_bytes + row_bytes) as int),
        width,
    );
    lemma_rows_values_len(format, packed, width, row_bytes, before);
    vstd::arithmetic::mul::lemma_mul_is_commutative(width as int, before as int);
    vstd::arithmetic::mul::lemma_mul_is_distributive_add_other_way(width as int, r as int, 1);
    vstd::arithmetic::mul::lemma_mul_is_distributive_add_other_way(row_bytes as int, r as int, 1);
    assert((r + 1) * width == r * width + width);
    assert((r + 1) * row_bytes == r * row_bytes + row_bytes);
    assert(all == front + last);
    assert(front.len() == before * width);
    if r == before {
        assert(all.subrange((r * width) as int, ((r + 1) * width) as int) =~= last);
    } else {
        lemma_row_of_rows(format, packed, width, row_bytes, before, r);
        assert(all.subrange((r * width) as int, ((r + 1) * width) as int) =~= front.subrange(
            (r * width) as int,
            ((r + 1) * width) as int,
        ));
    }
}

/// Rows are decoded one by one: the packed bytes are equal slices, one for each row, and
/// the values of a row are what decoding its slice alone gives.
pub proof fn law_rows_are_decoded_one_by_one(
    format: PackedFormat,
    packed: Seq<u8>,
    dims: Seq<usize>,
    r: nat,
)
    requires
        packed_values(format, packed, dims) is Ok,
        r < size_product(dims.skip(1))->Some_0,
    ensures
        ({
            let values = packed_values(format, packed, dims)->Ok_0;
            let w = dims[0] as nat;
            let b = (w / format_block(format)) * format_bytes(format);
            let n = size_product(dims.skip(1))->Some_0;
            &&& packed.len() == n * b
            &&& values.len() == n * w
            &&& values.subrange((r * w) as int, ((r + 1) * w) as int) == row_values(
                format,
                packed.subrange((r * b) as int, ((r + 1) * b) as int),
                w,
            )
        }),
{
    let (width, row_bytes, rows) = packed_shape(format, packed.len(), dims)->Ok_0;
    law_decoding_fills_the_shape(format, packed, dims);
    vstd::arithmetic::mul::lemma_mul_is_commutative(width as int, rows as int);
    lemma_row_of_rows(format, packed, width, row_bytes, rows, r);
}

/// The product is the first size times the product of the rest.
pub proof fn lemma_product_behind_front(sizes: Seq<usize>)
    requires
        sizes.len() > 0,
        sizes[0] > 0,
        size_product(sizes) is Some,
    ensures
        size_product(sizes.skip(1)) is Some,
        size_product(sizes) == Some(sizes[0] as nat * size_product(sizes.skip(1))->Some_0),
    decreases sizes.len(),
{
    let first = sizes[0] as nat;
    let front = sizes.drop_last();
    let rest = sizes.skip(1);
    if sizes.len() == 1 {
        assert(front =~= Seq::empty());
        assert(rest =~= Seq::empty());
        assert(size_product(front) == Some(1nat));
        vstd::arithmetic::mul::lemma_mul_basics_3(first as int);
        vstd::arithmetic::mul::lemma_mul_basics_4(first as int);
        assert(1nat * sizes.last() as nat == first);
        assert(size_product(sizes) == Some(first));
        assert(size_product(rest) == Some(1nat));
    } else {
        assert(front[0] == sizes[0]);
        assert(size_product(front) is Some);
        lemma_product_behind_front(front);
        assert(front.skip(1) =~= rest.drop_last());
        assert(rest.last() == sizes.last());
        let q = size_product(rest.drop_last())->Some_0;
        let last = sizes.last() as nat;
        vstd::arithmetic::mul::lemma_mul_is_associative(first as int, q as int, last as int);
        assert(size_product(sizes) == Some((first * q) * last));
        assert(q * last <= first * (q * last)) by (nonlinear_arith)
            requires
                first >= 1,
                q * last >= 0,
        ;
        assert(size_product(rest) == Some(q * last));
    }
}

/// A product above zero has no factor zero in front.
pub proof fn lemma_size_product_positive(sizes: Seq<usize>)
    requires
        sizes.len() > 0,
        size_product(sizes) is Some,
        size_product(sizes)->Some_0 > 0,
    ensures
        sizes[0] > 0,
    decreases sizes.len(),
{
    let front = sizes.drop_last();
    let p = size_product(front)->Some_0;
    let last = sizes.last() as nat;
    assert(size_product(sizes) == Some(p * last));
    if sizes.len() == 1 {
        assert(front =~= Seq::empty());
        if last == 0 {
            vstd::arithmetic::mul::lemma_mul_basics_2(p as int);
        }
    } else {
        assert(front[0] == sizes[0]);
        if p == 0 {
            vstd::arithmetic::mul::lemma_mul_basics_1(last as int);
        }
        lemma_size_product_positive(front);
    }
}

/// Decoding succeeds exactly if rows are whole blocks and the bytes are those of the rows,
/// for a shape whose element count is addressable.
///
/// A shape without rows is left out where a single row would not be addressable: such a
/// shape is refused, though no bytes are what it takes.
pub proof fn law_decoding_succeeds_on_whole_rows(
    format: PackedFormat,
    packed: Seq<u8>,
    dims: Seq<usize>,
)
    requires
        dims.len() > 0,
        packed.len() <= usize::MAX,
        size_product(dims) is Some,
        size_product(dims.skip(1)) == Some(0nat) && dims[0] as nat % format_block(format) == 0
            ==> (dims[0] as nat / format_block(format)) * format_bytes(format) <= usize::MAX,
    ensures
        ({
            let w = dims[0] as nat;
            let n = size_product(dims.skip(1))->Some_0;
            packed_values(format, packed, dims) is Ok <==> {
                &&& w > 0
                &&& w % format_block(format) == 0
                &&& packed.len() == n * ((w / format_block(format)) * format_bytes(format))
            }
        }),
{
    let w = dims[0] as nat;
    if w > 0 && w % format_block(format) == 0 {
        lemma_product_behind_front(dims);
        let n = size_product(dims.skip(1))->Some_0;
        let b = (w / format_block(format)) * format_bytes(format);
        assert(w * n <= usize::MAX);
        if n > 0 {
            assert(b <= n * b) by (nonlinear_arith)
                requires
                    n >= 1,
                    b >= 0,
            ;
        }
    }
}

/// Packed data is one sequence of blocks, whatever its shape: value `i` of block `k` is
/// decoded from the bytes of that block alone.
pub proof fn lemma_value_of_block(
    format: PackedFormat,
    packed: Seq<u8>,
    dims: Seq<usize>,
    k: int,
    i: int,
)
    requires
        packed_values(format, packed, dims) is Ok,
        0 <= k,
        (k + 1) * format_bytes(format) <= packed.len(),
        0 <= i < format_block(format),
    ensures
        0 <= k * format_block(format) + i < packed_values(format, packed, dims)->Ok_0.len(),
        packed_values(format, packed, dims)->Ok_0[k * format_block(format) + i] == block_value(
            format,
            packed.subrange(
                k * format_bytes(format),
                k * format_bytes(format) + format_bytes(format),
            ),
            i,
        ),
{
    let values = packed_values(format, packed, dims)->Ok_0;
    let block = format_block(format) as int;
    let bytes = format_bytes(format) as int;
    let (width, row_bytes, rows) = packed_shape(format, packed.len(), dims)->Ok_0;
    let w = width as int;
    let n = rows as int;
    let m = w / block;
    vstd::arithmetic::div_mod::lemma_fundamental_div_mod(w, block);
    assert(w == block * m && m > 0) by (nonlinear_arith)
        requires
            w == block * (w / block) + w % block,
            w % block == 0,
            m == w / block,
            w > 0,
            block > 0,
    ;
    let b = m * bytes;
    assert(row_bytes == b);
    assert(packed.len() == n * b);
    assert(k < n * m) by (nonlinear_arith)
        requires
            (k + 1) * bytes <= n * (m * bytes),
            bytes > 0,
    {
        assert(n * (m * bytes) == (n * m) * bytes);
        if k >= n * m {
            assert((k + 1) * bytes > (n * m) * bytes);
        }
    }
    let r = k / m;
    let t = k % m;
    vstd::arithmetic::div_mod::lemma_fundamental_div_mod(k, m);
    assert(k == m * r + t && 0 <= t < m);
    assert(0 <= r < n) by (nonlinear_arith)
        requires
            k == m * r + t,
            0 <= t < m,
            0 <= k < n * m,
    {
        if r >= n {
            assert(m * r >= m * n);
        }
        if r < 0 {
            assert(m * r <= -m);
        }
    }
    law_rows_are_decoded_one_by_one(format, packed, dims, r as nat);
    let row = packed.subrange(r * b, (r + 1) * b);
    let c = t * block + i;
    assert(t * block + block <= m * block) by (nonlinear_arith)
        requires
            t + 1 <= m,
            block > 0,
    ;
    assert(t * block >= 0) by (nonlinear_arith)
        requires
            t >= 0,
            block > 0,
    ;
    assert(block * m == m * block) by (nonlinear_arith);
    assert(0 <= c < w);
    lemma_block_position(block, t, i);
    assert(row_values(format, row, width)[c] == block_value(
        format,
        row.subrange(t * bytes, t * bytes + bytes),
        i,
    ));
    assert(r * w + c == k * block + i) by (nonlinear_arith)
        requires
            k == m * r + t,
            w == block * m,
            c == t * block + i,
    {
        assert(r * (block * m) == (m * r) * block);
        assert((m * r + t) * block == (m * r) * block + t * block);
    }
    assert((r + 1) * w == r * w + w && r * w >= 0 && (r + 1) * w <= n * w) by (nonlinear_arith)
        requires
            0 <= r,
            r + 1 <= n,
            w > 0,
    ;
    assert(values.len() == n * w);
    assert(values.subrange(r * w, (r + 1) * w)[c] == values[r * w + c]);
    assert(r * b + t * bytes == k * bytes) by (nonlinear_arith)
        requires
            k == m * r + t,
            b == m * bytes,
    {
        assert(r * (m * bytes) == (m * r) * bytes);
        assert((m * r + t) * bytes == (m * r) * bytes + t * bytes);
    }
    assert((r + 1) * b == r * b + b && r * b >= 0 && (r + 1) * b <= n * b) by (nonlinear_arith)
        requires
            0 <= r,
            r + 1 <= n,
            b >= 0,
    ;
    assert(b >= 0) by (nonlinear_arith)
        requires
            b == m * bytes,
            m > 0,
            bytes > 0,
    ;
    assert(t * bytes + bytes <= m * bytes && t * bytes >= 0) by (nonlinear_arith)
        requires
            0 <= t,
            t + 1 <= m,
            bytes > 0,
    ;
    assert(row.subrange(t * bytes, t * bytes + bytes) =~= packed.subrange(
        k * bytes,
        k * bytes + bytes,
    ));
}

/// The row sizes of the decoder are the packed lengths of the tensor directory.
pub proof fn law_row_size_is_packed_len(dtype: DType, width: nat)
    requires
        format_of_dtype(dtype) is Some,
        width > 0,
    ensures
        match row_size(format_of_dtype(dtype)->Some_0, width) {
            Ok(n) => tensor::packed_len(dtype, width) == Some(n),
            Err(_) => tensor::packed_len(dtype, width) is None,
        },
{
}

} // verus!
