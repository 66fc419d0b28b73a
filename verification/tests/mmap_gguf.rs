//! Layouts over mapped bytes against owned ones.

use engram_parser::{
    dequantize_packed, f16_bits_to_f32_bits, os_page_size, parse_bytes, DType, GgufLayoutMmap,
    PackedValue, ParseLimits,
};

const PAGE: usize = 4096;

fn map(bytes: &[u8]) -> GgufLayoutMmap<'_> {
    GgufLayoutMmap::from_mapping(bytes, "map://file".into(), ParseLimits::default()).expect("map")
}

fn half(bits: u16) -> f32 {
    f32::from_bits(f16_bits_to_f32_bits(bits))
}

fn numbers(parts: Vec<PackedValue>) -> Vec<f32> {
    parts
        .into_iter()
        .map(|p| {
            half(p.scale) * p.factor as f32 * p.quant as f32 - half(p.min_scale) * p.min as f32
        })
        .collect()
}

const GGUF_MAGIC: [u8; 4] = [71, 71, 85, 70];
const GGUF_VERSION: u32 = 3;
const ALIGNMENT: u32 = 32;
const GGML_F32: u32 = 0;
const GGML_Q8_0: u32 = 8;
const GGML_Q5_K: u32 = 13;
const GGML_Q6_K: u32 = 14;
const GGML_IQ3_M_BLOCK: u32 = 0x4949_334D;
const VT_UINT32: u32 = 4;
const VT_STRING: u32 = 8;

#[allow(dead_code)]
enum KvValue {
    U32(u32),
    F32(f32),
    Str(&'static str),
}

struct TensorSpec {
    name: &'static str,
    dims: Vec<usize>,
    ggml_type: u32,
    payload: Vec<u8>,
}

fn push_u32(out: &mut Vec<u8>, v: u32) {
    out.extend_from_slice(&v.to_le_bytes());
}

fn push_u64(out: &mut Vec<u8>, v: u64) {
    out.extend_from_slice(&v.to_le_bytes());
}

fn push_string(out: &mut Vec<u8>, s: &str) {
    push_u64(out, s.len() as u64);
    out.extend_from_slice(s.as_bytes());
}

fn gguf_header(tensors: u64, kvs: u64) -> Vec<u8> {
    let mut out = Vec::new();
    out.extend_from_slice(&GGUF_MAGIC);
    push_u32(&mut out, GGUF_VERSION);
    push_u64(&mut out, tensors);
    push_u64(&mut out, kvs);
    out
}

fn pad(out: &mut Vec<u8>) {
    while out.len() % ALIGNMENT as usize != 0 {
        out.push(0);
    }
}

fn build_gguf(kv: &[(&str, KvValue)], tensors: &[TensorSpec]) -> Vec<u8> {
    let mut out = gguf_header(tensors.len() as u64, kv.len() as u64);
    for (key, value) in kv {
        push_string(&mut out, key);
        match value {
            KvValue::U32(n) => {
                push_u32(&mut out, VT_UINT32);
                push_u32(&mut out, *n);
            }
            KvValue::F32(x) => {
                push_u32(&mut out, 6);
                push_u32(&mut out, x.to_bits());
            }
            KvValue::Str(s) => {
                push_u32(&mut out, VT_STRING);
                push_string(&mut out, s);
            }
        }
    }
    let mut offset = 0usize;
    for t in tensors {
        push_string(&mut out, t.name);
        push_u32(&mut out, t.dims.len() as u32);
        for d in &t.dims {
            push_u64(&mut out, *d as u64);
        }
        push_u32(&mut out, t.ggml_type);
        push_u64(&mut out, offset as u64);
        offset += (t.payload.len() + 31) / 32 * 32;
    }
    pad(&mut out);
    for t in tensors {
        out.extend_from_slice(&t.payload);
        pad(&mut out);
    }
    out
}

fn assert_all(checks: &[(bool, &str)]) {
    for (ok, label) in checks {
        assert!(*ok, "{label}");
    }
}

fn f32_vec_to_le_bytes(values: &[f32]) -> Vec<u8> {
    values.iter().flat_map(|v| v.to_le_bytes()).collect()
}

fn f16_one() -> [u8; 2] {
    0x3C00u16.to_le_bytes()
}

fn q8_0_ones_block() -> Vec<u8> {
    let mut block = vec![0u8; 34];
    block[0..2].copy_from_slice(&f16_one());
    for q in &mut block[2..] {
        *q = 1;
    }
    block
}

fn q5_k_ones_block() -> Vec<u8> {
    let mut block = vec![0u8; 176];
    block[0..2].copy_from_slice(&f16_one());
    for b in &mut block[4..16] {
        *b = 0x01;
    }
    for b in &mut block[48..] {
        *b = 0x11;
    }
    block
}

fn q6_k_minus_32_block() -> Vec<u8> {
    let mut block = vec![0u8; 210];
    for b in &mut block[192..208] {
        *b = 1;
    }
    block[208..210].copy_from_slice(&f16_one());
    block
}

fn iq3_m_scaled_block() -> Vec<u8> {
    let mut block = vec![0u8; 111];
    block[0..2].copy_from_slice(&f16_one());
    for b in &mut block[34..98] {
        *b = 0x55;
    }
    block[98] = 0x01;
    block
}

#[test]
fn mmap_matches_owned_parse_on_tiny_gguf() {
    let kv = [
        ("general.alignment", KvValue::U32(ALIGNMENT)),
        ("general.architecture", KvValue::Str("olmoe")),
        ("olmoe.expert_count", KvValue::U32(4)),
    ];
    let payload = f32_vec_to_le_bytes(&[1.0, 2.0, 3.0, 4.0, 5.0, 6.0, 7.0, 8.0]);
    let tensors = [TensorSpec {
        name: "token_embd.weight",
        dims: vec![4, 2],
        ggml_type: GGML_F32,
        payload,
    }];
    let bytes = build_gguf(&kv, &tensors);
    let owned_mem = parse_bytes(bytes.clone(), "mem://mmap-parity".into()).expect("parse_bytes");
    let owned_fs = parse_bytes(bytes.clone(), "mem://again".into()).expect("parse_bytes");
    let mapped = map(&bytes);

    let name = "token_embd.weight";
    let t_mem = owned_mem.tensors.get(name).unwrap();
    let t_fs = owned_fs.tensors.get(name).unwrap();
    let t_map = mapped.tensors.get(name).unwrap();

    let b_mem = owned_mem.tensor_bytes(t_mem).expect("mem bytes");
    let b_fs = owned_fs.tensor_bytes(t_fs).expect("fs bytes");
    let b_map = mapped.tensor_bytes(t_map).expect("mmap bytes");
    let pages = mapped.tensor_page_aligned_bytes(t_map, PAGE).expect("page range");

    assert_all(&[
        (
            mapped.directory_matches(&owned_fs),
            "directory vs load_gguf",
        ),
        (
            mapped.directory_matches(&owned_mem),
            "directory vs parse_bytes",
        ),
        (t_mem.dims == t_map.dims, "dims"),
        (t_mem.ggml_type == t_map.ggml_type, "ggml_type"),
        (t_mem.byte_len == t_map.byte_len, "byte_len"),
        (t_mem.absolute_offset == t_map.absolute_offset, "offset"),
        (b_mem == b_fs, "owned mem vs fs"),
        (b_mem == b_map, "owned vs mmap payload"),
        (pages.tensor_bytes() == b_map, "page-aligned payload"),
        (pages.page_size > 0, "page size"),
        (
            (pages.pages.as_ptr() as usize - mapped.as_bytes().as_ptr() as usize) % pages.page_size == 0
                || t_map.absolute_offset < pages.page_size,
            "page start aligned or first-page file",
        ),
    ]);
}

#[test]
fn mmap_directory_matches_rejects_different_tensor_names() {
    let kv = [
        ("general.alignment", KvValue::U32(ALIGNMENT)),
        ("general.architecture", KvValue::Str("olmoe")),
    ];
    let payload = f32_vec_to_le_bytes(&[1.0, 2.0, 3.0, 4.0]);
    let a_bytes = build_gguf(
        &kv,
        &[TensorSpec {
            name: "token_embd.weight",
            dims: vec![4],
            ggml_type: GGML_F32,
            payload: payload.clone(),
        }],
    );
    let b_bytes = build_gguf(
        &kv,
        &[TensorSpec {
            name: "output.weight",
            dims: vec![4],
            ggml_type: GGML_F32,
            payload,
        }],
    );
    let mapped = map(&a_bytes);
    let owned_b = parse_bytes(b_bytes, "mem://other".into()).expect("parse b");
    assert!(
        !mapped.directory_matches(&owned_b),
        "same count/arch but different tensor names must not match"
    );
}

#[test]
fn mmap_dequant_matches_owned_for_k_quants() {
    let page = os_page_size(None).max(4096);
    let pad_elems = page;
    let pad = vec![0u8; pad_elems * 4];
    let q8 = q8_0_ones_block();
    let q5 = q5_k_ones_block();
    let q6 = q6_k_minus_32_block();
    let iq3 = iq3_m_scaled_block();
    let kv = [
        ("general.alignment", KvValue::U32(ALIGNMENT)),
        ("general.architecture", KvValue::Str("olmoe")),
    ];
    let tensors = [
        TensorSpec {
            name: "pad.weight",
            dims: vec![pad_elems],
            ggml_type: GGML_F32,
            payload: pad,
        },
        TensorSpec {
            name: "q8.weight",
            dims: vec![32],
            ggml_type: GGML_Q8_0,
            payload: q8.clone(),
        },
        TensorSpec {
            name: "q5.weight",
            dims: vec![256],
            ggml_type: GGML_Q5_K,
            payload: q5.clone(),
        },
        TensorSpec {
            name: "q6.weight",
            dims: vec![256],
            ggml_type: GGML_Q6_K,
            payload: q6.clone(),
        },
        TensorSpec {
            name: "iq3.weight",
            dims: vec![256],
            ggml_type: GGML_IQ3_M_BLOCK,
            payload: iq3.clone(),
        },
    ];
    let bytes = build_gguf(&kv, &tensors);
    let owned = parse_bytes(bytes.clone(), "mem://owned".into()).expect("parse_bytes");
    let mapped = map(&bytes);
    assert!(
        mapped.directory_matches(&owned),
        "mmap directory must match owned load"
    );

    let q8_t = mapped.tensor("q8.weight").expect("q8 tensor");
    assert!(
        q8_t.absolute_offset >= page,
        "q8 payload should start past the first OS page (offset {}, page {page})",
        q8_t.absolute_offset
    );
    let q8_pages = mapped
        .tensor_page_aligned_bytes(q8_t, PAGE)
        .expect("q8 page range");
    assert!(
        (q8_pages.pages.as_ptr() as usize - mapped.as_bytes().as_ptr() as usize) % q8_pages.page_size == 0,
        "page-aligned range must start on an OS page"
    );

    let q8_map = mapped.tensor_bytes(q8_t).expect("q8 mmap");
    let q5_map = mapped
        .tensor_bytes(mapped.tensor("q5.weight").unwrap())
        .expect("q5 mmap");
    let q6_map = mapped
        .tensor_bytes(mapped.tensor("q6.weight").unwrap())
        .expect("q6 mmap");
    let iq3_map = mapped
        .tensor_bytes(mapped.tensor("iq3.weight").unwrap())
        .expect("iq3 mmap");

    let q8_owned = owned
        .tensor_bytes(owned.tensor("q8.weight").unwrap())
        .expect("q8 owned");
    let q5_owned = owned
        .tensor_bytes(owned.tensor("q5.weight").unwrap())
        .expect("q5 owned");
    let q6_owned = owned
        .tensor_bytes(owned.tensor("q6.weight").unwrap())
        .expect("q6 owned");
    let iq3_owned = owned
        .tensor_bytes(owned.tensor("iq3.weight").unwrap())
        .expect("iq3 owned");

    assert_eq!(q8_map, q8_owned);
    assert_eq!(q5_map, q5_owned);
    assert_eq!(q6_map, q6_owned);
    assert_eq!(iq3_map, iq3_owned);
    assert_eq!(q8_pages.tensor_bytes(), q8_map);

    let q8_f = numbers(engram_parser::dequantize_q8_0(q8_map, &[32]).expect("q8 dequant"));
    let q5_f = numbers(engram_parser::dequantize_q5_k(q5_map, &[256]).expect("q5 dequant"));
    let q6_f = numbers(engram_parser::dequantize_q6_k(q6_map, &[256]).expect("q6 dequant"));
    let iq3_f = numbers(engram_parser::dequantize_iq3_m(iq3_map, &[256]).expect("iq3 dequant"));

    assert_all(&[
        (q8_f.iter().all(|&v| v == 1.0), "q8 ones"),
        (q5_f.iter().all(|&v| v == 1.0), "q5 ones"),
        (q6_f.iter().all(|&v| v == -32.0), "q6 -32"),
        (iq3_f[..16].iter().all(|&v| v == -3.0), "iq3 first scale"),
        (iq3_f[16..].iter().all(|&v| v == 0.0), "iq3 rest zero"),
        (
            numbers(dequantize_packed(DType::Q8_0, q8_map, &[32]).unwrap()) == q8_f,
            "packed q8",
        ),
        (
            numbers(dequantize_packed(DType::Q5_K, q5_map, &[256]).unwrap()) == q5_f,
            "packed q5",
        ),
        (
            numbers(dequantize_packed(DType::Q6_K, q6_map, &[256]).unwrap()) == q6_f,
            "packed q6",
        ),
        (
            numbers(dequantize_packed(DType::IQ3_M_BLOCK, iq3_map, &[256]).unwrap()) == iq3_f,
            "packed iq3",
        ),
    ]);
}

#[test]
fn page_ranges_are_cut_at_the_end_of_the_file() {
    let tensors = [TensorSpec {
        name: "t",
        dims: vec![4],
        ggml_type: GGML_F32,
        payload: (0..16).collect(),
    }];
    let bytes = build_gguf(&[], &tensors);
    let mapped = map(&bytes);
    let t = mapped.tensor("t").unwrap();
    let wide = mapped.tensor_page_aligned_bytes(t, PAGE).unwrap();
    assert_eq!(wide.pages.len(), bytes.len());
    assert_eq!(wide.tensor_offset, t.absolute_offset);
    let narrow = mapped.tensor_page_aligned_bytes(t, 8).unwrap();
    assert_eq!(narrow.pages.len(), 16);
    assert_eq!(narrow.tensor_offset, 0);
    assert_eq!(narrow.tensor_bytes(), &(0..16).collect::<Vec<u8>>()[..]);
    let err = mapped.tensor_page_aligned_bytes(t, 0).unwrap_err();
    assert!(err.to_string().contains("invalid OS page size: 0"));
    assert_eq!(mapped.len(), bytes.len());
    assert!(!mapped.is_empty());
    assert_eq!(mapped.as_bytes(), &bytes[..]);
}

#[test]
fn the_page_size_falls_back() {
    assert_eq!(os_page_size(Some(16384)), 16384);
    assert_eq!(os_page_size(None), 4096);
    assert_eq!(os_page_size(Some(0)), 4096);
}
