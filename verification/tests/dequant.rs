//! Decoding of packed rows.

use engram_parser::gguf::dequant::{dequantize_row, PackedFormat};
use engram_parser::{
    dequantize_packed as packed_parts, f16_bits_to_f32_bits, packed_row_size, DType, PackedValue,
    ParserError, GGML_TYPE_IQ3_M_BLOCK,
};

const Q8_0_BYTES: usize = 34;
const Q5_K_BYTES: usize = 176;
const Q6_K_BYTES: usize = 210;
const IQ3_M_BYTES: usize = 111;

fn half(bits: u16) -> f32 {
    f32::from_bits(f16_bits_to_f32_bits(bits))
}

fn numbers(parts: Result<Vec<PackedValue>, ParserError>) -> Result<Vec<f32>, ParserError> {
    Ok(parts?
        .into_iter()
        .map(|p| {
            half(p.scale) * p.factor as f32 * p.quant as f32 - half(p.min_scale) * p.min as f32
        })
        .collect())
}

fn dequantize_q8_0(packed: &[u8], dims: &[usize]) -> Result<Vec<f32>, ParserError> {
    numbers(engram_parser::dequantize_q8_0(packed, dims))
}

fn dequantize_q5_k(packed: &[u8], dims: &[usize]) -> Result<Vec<f32>, ParserError> {
    numbers(engram_parser::dequantize_q5_k(packed, dims))
}

fn dequantize_q6_k(packed: &[u8], dims: &[usize]) -> Result<Vec<f32>, ParserError> {
    numbers(engram_parser::dequantize_q6_k(packed, dims))
}

fn dequantize_iq3_m(packed: &[u8], dims: &[usize]) -> Result<Vec<f32>, ParserError> {
    numbers(engram_parser::dequantize_iq3_m(packed, dims))
}

fn dequantize_packed(dtype: DType, packed: &[u8], dims: &[usize]) -> Result<Vec<f32>, ParserError> {
    numbers(packed_parts(dtype, packed, dims))
}

fn f16_one() -> [u8; 2] {
    0x3C00u16.to_le_bytes()
}

fn f16_two() -> [u8; 2] {
    0x4000u16.to_le_bytes()
}

#[test]
fn q8_0_handmade_block() {
    // scale = 2.0, quants: 0, 1, -1, then zeros.
    let mut block = vec![0u8; Q8_0_BYTES];
    block[0..2].copy_from_slice(&f16_two());
    block[2] = 0;
    block[3] = 1;
    block[4] = (-1i8) as u8;
    let out = dequantize_q8_0(&block, &[32]).expect("q8_0");
    assert_eq!(out.len(), 32);
    assert_eq!(out[0], 0.0);
    assert_eq!(out[1], 2.0);
    assert_eq!(out[2], -2.0);
    assert!(out[3..].iter().all(|&v| v == 0.0));
}

#[test]
fn q8_0_corinth_unit_scale() {
    let mut block = vec![0u8; Q8_0_BYTES];
    block[0..2].copy_from_slice(&f16_one());
    for q in &mut block[2..] {
        *q = 1;
    }
    let out = dequantize_q8_0(&block, &[32]).expect("q8_0 ones");
    assert!(out.iter().all(|&v| v == 1.0), "{out:?}");
}

#[test]
fn q5_k_handmade_ones() {
    // Corinth synthetic: d=1, dmin=0, scales=0x01, ql=0x11, qh=0 → 1.0.
    let mut block = vec![0u8; Q5_K_BYTES];
    block[0..2].copy_from_slice(&f16_one());
    for b in &mut block[4..16] {
        *b = 0x01;
    }
    for b in &mut block[48..] {
        *b = 0x11;
    }
    let out = dequantize_q5_k(&block, &[256]).expect("q5_k");
    assert_eq!(out.len(), 256);
    assert!(out.iter().all(|&v| v == 1.0), "got {:?}", &out[..8]);
}

#[test]
fn q6_k_handmade_minus_32() {
    // ggml layout: ql(128) + qh(64) + scales(16) + d(2). ql/qh=0 → (0-32)*1 = -32.
    let mut block = vec![0u8; Q6_K_BYTES];
    for b in &mut block[192..208] {
        *b = 1;
    }
    block[208..210].copy_from_slice(&f16_one());
    let out = dequantize_q6_k(&block, &[256]).expect("q6_k");
    assert_eq!(out.len(), 256);
    assert!(out.iter().all(|&v| v == -32.0), "got {:?}", &out[..8]);
}

#[test]
fn q5_k_ggml_group_order() {
    // Only ql[0] low nibble is 1. ggml emits y[0]=1, y[32]=0 — not interleaved.
    let mut block = vec![0u8; Q5_K_BYTES];
    block[0..2].copy_from_slice(&f16_one());
    for b in &mut block[4..16] {
        *b = 0x01;
    }
    block[48] = 0x01;
    let out = dequantize_q5_k(&block, &[256]).expect("q5_k order");
    assert_eq!(out[0], 1.0);
    assert_eq!(out[32], 0.0);
    assert!(out[1..32].iter().all(|&v| v == 0.0));
}

#[test]
fn q6_k_ggml_group_order() {
    // ql[0]=1 → q1=-31 at y[0]; y[32]/y[64]/y[96] stay -32.
    let mut block = vec![0u8; Q6_K_BYTES];
    block[0] = 1;
    for b in &mut block[192..208] {
        *b = 1;
    }
    block[208..210].copy_from_slice(&f16_one());
    let out = dequantize_q6_k(&block, &[256]).expect("q6_k order");
    assert_eq!(out[0], -31.0);
    assert_eq!(out[32], -32.0);
    assert_eq!(out[64], -32.0);
    assert_eq!(out[96], -32.0);
}

#[test]
fn iq3_m_zero_scales_corinth_vector() {
    let mut block = vec![0u8; IQ3_M_BYTES];
    block[0..2].copy_from_slice(&f16_one());
    for b in &mut block[34..98] {
        *b = 0x55;
    }
    let out = dequantize_iq3_m(&block, &[256]).expect("iq3_m");
    assert_eq!(out.len(), 256);
    assert!(out.iter().all(|&v| v == 0.0), "expected zeros, got {out:?}");
}

#[test]
fn iq3_m_nonzero_first_scale() {
    let mut block = vec![0u8; IQ3_M_BYTES];
    block[0..2].copy_from_slice(&f16_one());
    for b in &mut block[34..98] {
        *b = 0x55; // low-2 = 1 → q_signed = -3
    }
    block[98] = 0x01; // first 6-bit scale = 1
    let out = dequantize_iq3_m(&block, &[256]).expect("iq3_m scaled");
    assert!(out[..16].iter().all(|&v| v == -3.0), "{:?}", &out[..16]);
    assert!(out[16..].iter().all(|&v| v == 0.0));
}

#[test]
fn packed_row_size_iq3_m_is_not_wire_31() {
    assert_eq!(packed_row_size(GGML_TYPE_IQ3_M_BLOCK, 256).unwrap(), 111);
    assert_eq!(packed_row_size(GGML_TYPE_IQ3_M_BLOCK, 512).unwrap(), 222);
    assert!(packed_row_size(GGML_TYPE_IQ3_M_BLOCK, 255).is_err());
    assert!(packed_row_size(31, 256).is_err());
}

#[test]
fn dequant_error_paths() {
    assert!(dequantize_q8_0(&[0u8; 34], &[31]).is_err());
    assert!(dequantize_q8_0(&[0u8; 33], &[32]).is_err());
    assert!(dequantize_row(PackedFormat::Q8_0, &[0u8; 33], 32).is_err());
    assert!(dequantize_row(PackedFormat::Q5_K, &[0u8; 175], 256).is_err());
    assert!(dequantize_iq3_m(&[0u8; 111], &[255]).is_err());
    assert!(dequantize_iq3_m(&[0u8; 110], &[256]).is_err());
    assert!(dequantize_q5_k(&[0u8; 176], &[]).is_err());
    assert!(dequantize_q8_0(&[], &[0]).is_err());
    assert!(dequantize_packed(DType::F32, &[0u8; 4], &[1]).is_err());
    assert!(dequantize_packed(DType::Other(31), &[0u8; 18], &[32]).is_err());
    assert!(dequantize_packed(DType::Q5_K, &[0u8; 176], &[256]).is_ok());
    assert!(dequantize_packed(DType::Q6_K, &[0u8; 210], &[256]).is_ok());
    assert!(dequantize_packed(DType::IQ3_M_BLOCK, &[0u8; 111], &[256]).is_ok());
}

#[test]
fn dequantize_packed_dispatches_q8_0() {
    let mut block = vec![0u8; Q8_0_BYTES];
    block[0..2].copy_from_slice(&f16_one());
    let out = dequantize_packed(DType::Q8_0, &block, &[32]).unwrap();
    assert_eq!(out.len(), 32);
}

#[test]
fn q5_k_subtracts_its_minima() {
    // d = 1, dmin = 2, every 6-bit scale 1 and minimum 3, all quants 0.
    let mut block = vec![0u8; Q5_K_BYTES];
    block[0..2].copy_from_slice(&f16_one());
    block[2..4].copy_from_slice(&f16_two());
    for b in &mut block[4..8] {
        *b = 1;
    }
    for b in &mut block[8..12] {
        *b = 3;
    }
    let out = dequantize_q5_k(&block, &[256]).expect("q5_k minima");
    assert!(out[..128].iter().all(|&v| v == -6.0), "{:?}", &out[..8]);
    assert!(out[128..].iter().all(|&v| v == 0.0));
}

#[test]
fn rows_are_decoded_one_after_the_other() {
    let mut rows = vec![0u8; 2 * Q8_0_BYTES];
    rows[0..2].copy_from_slice(&f16_one());
    rows[2] = 5;
    rows[34..36].copy_from_slice(&f16_two());
    rows[36] = 7;
    let out = dequantize_q8_0(&rows, &[32, 2]).expect("two rows");
    assert_eq!(out.len(), 64);
    assert_eq!(out[0], 5.0);
    assert_eq!(out[32], 14.0);
}

#[test]
fn rows_are_decoded_one_by_one() {
    let packed: Vec<u8> = (0..4 * 34).map(|i: u32| (i * 7 % 251) as u8).collect();
    let values = engram_parser::dequantize_q8_0(&packed, &[64, 2]).unwrap();
    assert_eq!(values.len(), 128);
    for r in 0..2 {
        let row = dequantize_row(PackedFormat::Q8_0, &packed[r * 68..(r + 1) * 68], 64).unwrap();
        assert_eq!(values[r * 64..(r + 1) * 64], row[..]);
    }
    assert_ne!(values[..64], values[64..]);
}

#[test]
fn whole_rows_are_what_decoding_takes() {
    assert!(dequantize_q8_0(&[0; 68], &[32, 2]).is_ok());
    assert!(dequantize_q8_0(&[0; 67], &[32, 2]).is_err());
    assert!(dequantize_q8_0(&[0; 68], &[33, 2]).is_err());
    assert!(dequantize_q8_0(&[], &[0, 2]).is_err());
    assert!(dequantize_q8_0(&[], &[32, 0]).unwrap().is_empty());
    let widest = usize::MAX - usize::MAX % 32;
    assert!(dequantize_q8_0(&[], &[widest, 0]).is_err());
}
