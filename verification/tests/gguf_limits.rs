//! Parser resource budgets, host-size conversions, and parity with mapped files.

use engram_parser::{
    parse_bytes, parse_bytes_with_limits, GgufLayoutMmap, HostSizeField, ParseLimitKind,
    ParseLimits, ParserError,
};

const GGUF_MAGIC: [u8; 4] = [71, 71, 85, 70];
const GGUF_VERSION: u32 = 3;
const ALIGNMENT: u32 = 32;
const GGML_F32: u32 = 0;

const VT_UINT32: u32 = 4;
const VT_ARRAY: u32 = 9;
const VT_STRING: u32 = 8;

#[allow(dead_code)]
enum KvValue {
    U32(u32),
    F32(f32),
    Str(&'static str),
}

struct TensorSpec {
    name: &'static str,
    dims: Vec<usize>,
    ggml_type: u32,
    payload: Vec<u8>,
}

fn push_u32(out: &mut Vec<u8>, v: u32) {
    out.extend_from_slice(&v.to_le_bytes());
}

fn push_u64(out: &mut Vec<u8>, v: u64) {
    out.extend_from_slice(&v.to_le_bytes());
}

fn push_string(out: &mut Vec<u8>, s: &str) {
    push_u64(out, s.len() as u64);
    out.extend_from_slice(s.as_bytes());
}

fn gguf_header(tensors: u64, kvs: u64) -> Vec<u8> {
    let mut out = Vec::new();
    out.extend_from_slice(&GGUF_MAGIC);
    push_u32(&mut out, GGUF_VERSION);
    push_u64(&mut out, tensors);
    push_u64(&mut out, kvs);
    out
}

fn pad(out: &mut Vec<u8>) {
    while out.len() % ALIGNMENT as usize != 0 {
        out.push(0);
    }
}

fn build_gguf(kv: &[(&str, KvValue)], tensors: &[TensorSpec]) -> Vec<u8> {
    let mut out = gguf_header(tensors.len() as u64, kv.len() as u64);
    for (key, value) in kv {
        push_string(&mut out, key);
        match value {
            KvValue::U32(n) => {
                push_u32(&mut out, VT_UINT32);
                push_u32(&mut out, *n);
            }
            KvValue::F32(x) => {
                push_u32(&mut out, 6);
                push_u32(&mut out, x.to_bits());
            }
            KvValue::Str(s) => {
                push_u32(&mut out, VT_STRING);
                push_string(&mut out, s);
            }
        }
    }
    let mut offset = 0usize;
    for t in tensors {
        push_string(&mut out, t.name);
        push_u32(&mut out, t.dims.len() as u32);
        for d in &t.dims {
            push_u64(&mut out, *d as u64);
        }
        push_u32(&mut out, t.ggml_type);
        push_u64(&mut out, offset as u64);
        offset += (t.payload.len() + 31) / 32 * 32;
    }
    pad(&mut out);
    for t in tensors {
        out.extend_from_slice(&t.payload);
        pad(&mut out);
    }
    out
}

fn assert_all(checks: &[(bool, &str)]) {
    for (ok, label) in checks {
        assert!(*ok, "{label}");
    }
}

fn push_kv_u32(out: &mut Vec<u8>, key: &str, v: u32) {
    push_string(out, key);
    push_u32(out, VT_UINT32);
    push_u32(out, v);
}

fn push_kv_string(out: &mut Vec<u8>, key: &str, v: &str) {
    push_string(out, key);
    push_u32(out, VT_STRING);
    push_string(out, v);
}

fn push_array_uint8_header(out: &mut Vec<u8>, key: &str, n: u64) {
    push_string(out, key);
    push_u32(out, VT_ARRAY);
    push_u32(out, 0);
    push_u64(out, n);
}

fn push_nested_array_payload(out: &mut Vec<u8>, depth: usize) {
    for level in 0..depth {
        if level == depth - 1 {
            push_u32(out, 0);
            push_u64(out, 0);
        } else {
            push_u32(out, VT_ARRAY);
            push_u64(out, 1);
        }
    }
}

fn expect_limit(err: ParserError, kind: ParseLimitKind, declared: u64, budget: u64) {
    let msg = err.to_string();
    match err {
        ParserError::LimitExceeded {
            limit,
            declared: got_declared,
            budget: got_budget,
            ..
        } => {
            assert_eq!(limit, kind, "limit kind");
            assert_eq!(got_declared, declared, "declared");
            assert_eq!(got_budget, budget, "budget");
            assert!(
                msg.contains(kind.as_str()),
                "Display must name the limit: {msg}"
            );
        }
        other => panic!("expected LimitExceeded({kind:?}), got {other:?}"),
    }
}

fn error_payload(err: &ParserError) -> String {
    match err {
        ParserError::Io { source, .. } => format!("io:{source}"),
        ParserError::UnsupportedFormat { reason, .. } => format!("unsupported:{reason}"),
        ParserError::MissingTensor { name, .. } => format!("missing:{name}"),
        ParserError::InvalidLayout { reason, .. } => format!("invalid:{reason}"),
        ParserError::ExpertOutOfRange {
            block,
            expert,
            available,
        } => format!("oor:{block}:{expert}:{available}"),
        ParserError::LimitExceeded {
            limit,
            declared,
            budget,
            ..
        } => format!("limit:{}:{declared}:{budget}", limit.as_str()),
        ParserError::HostSizeOverflow { field, value, .. } => {
            format!("host:{}:{value}", field.as_str())
        }
        ParserError::DuplicateTensorOwnership { name, shards, .. } => {
            format!("dup:{name}:{}", shards.join(","))
        }
        ParserError::MissingShard { shard, .. } => format!("missing-shard:{shard}"),
    }
}

fn parse_ok(bytes: Vec<u8>, limits: ParseLimits) {
    parse_bytes_with_limits(bytes, "mem://ok".into(), limits).expect("parse should succeed");
}

fn parse_err(bytes: Vec<u8>, limits: ParseLimits) -> ParserError {
    parse_bytes_with_limits(bytes, "mem://err".into(), limits).expect_err("parse should fail")
}

fn kv_only(kv: &[(&str, KvValue)]) -> Vec<u8> {
    build_gguf(kv, &[])
}

fn one_tensor(name: &'static str, dims: Vec<usize>) -> Vec<u8> {
    let n: usize = dims.iter().product();
    let tensors = [TensorSpec {
        name,
        dims,
        ggml_type: GGML_F32,
        payload: vec![0u8; n * 4],
    }];
    build_gguf(&[("general.architecture", KvValue::Str("test"))], &tensors)
}

#[test]
fn default_limits_accept_tiny_fixture() {
    let bytes = one_tensor("token_embd.weight", vec![4, 2]);
    parse_bytes(bytes, "mem://tiny".into()).expect("default limits must accept tiny fixtures");
}

#[test]
fn kv_count_boundary_and_plus_one() {
    let two = kv_only(&[
        ("general.architecture", KvValue::Str("a")),
        ("k2", KvValue::U32(1)),
    ]);
    let three = kv_only(&[
        ("general.architecture", KvValue::Str("a")),
        ("k2", KvValue::U32(1)),
        ("k3", KvValue::U32(2)),
    ]);
    let limits = ParseLimits {
        max_kv_count: 2,
        ..ParseLimits::default()
    };
    parse_ok(two, limits);
    expect_limit(parse_err(three, limits), ParseLimitKind::KvCount, 3, 2);
}

#[test]
fn tensor_count_boundary_and_plus_one() {
    let one = one_tensor("a", vec![2, 2]);
    let two = {
        let payload = vec![0u8; 16];
        build_gguf(
            &[("general.architecture", KvValue::Str("test"))],
            &[
                TensorSpec {
                    name: "a",
                    dims: vec![2, 2],
                    ggml_type: GGML_F32,
                    payload: payload.clone(),
                },
                TensorSpec {
                    name: "b",
                    dims: vec![2, 2],
                    ggml_type: GGML_F32,
                    payload,
                },
            ],
        )
    };
    let limits = ParseLimits {
        max_tensor_count: 1,
        ..ParseLimits::default()
    };
    parse_ok(one, limits);
    expect_limit(parse_err(two, limits), ParseLimitKind::TensorCount, 2, 1);
}

#[test]
fn string_bytes_boundary_and_plus_one() {
    let exact = kv_only(&[("abcd", KvValue::U32(1))]);
    let over = kv_only(&[("abcde", KvValue::U32(1))]);
    let limits = ParseLimits {
        max_string_bytes: 4,
        ..ParseLimits::default()
    };
    parse_ok(exact, limits);
    expect_limit(parse_err(over, limits), ParseLimitKind::StringBytes, 5, 4);
}

#[test]
fn tensor_rank_boundary_and_plus_one() {
    let rank2 = one_tensor("t", vec![2, 2]);
    let rank3 = one_tensor("t", vec![2, 2, 1]);
    let limits = ParseLimits {
        max_tensor_rank: 2,
        ..ParseLimits::default()
    };
    parse_ok(rank2, limits);
    expect_limit(parse_err(rank3, limits), ParseLimitKind::TensorRank, 3, 2);
}

#[test]
fn array_work_items_boundary_and_plus_one() {
    fn file_with_uint8_array(n: u64) -> Vec<u8> {
        let mut out = gguf_header(0, 1);
        push_array_uint8_header(&mut out, "arr", n);
        for i in 0..n {
            out.push(i as u8);
        }
        out
    }
    let limits = ParseLimits {
        max_array_work_items: 4,
        ..ParseLimits::default()
    };
    parse_ok(file_with_uint8_array(4), limits);
    expect_limit(
        parse_err(file_with_uint8_array(5), limits),
        ParseLimitKind::ArrayWorkItems,
        5,
        4,
    );
}

#[test]
fn metadata_bytes_boundary_and_plus_one() {
    let mut bytes = gguf_header(0, 1);
    push_kv_u32(&mut bytes, "a", 1);
    let used = (bytes.len() - 24) as u64;
    let ok_limits = ParseLimits {
        max_metadata_bytes: used,
        ..ParseLimits::default()
    };
    parse_ok(bytes.clone(), ok_limits);
    let tight = ParseLimits {
        max_metadata_bytes: used - 1,
        ..ParseLimits::default()
    };
    expect_limit(
        parse_err(bytes, tight),
        ParseLimitKind::MetadataBytes,
        used,
        used - 1,
    );
}

#[test]
fn u64_max_counts_and_strings_name_the_limit() {
    let tensor_max = gguf_header(u64::MAX, 0);
    expect_limit(
        parse_err(tensor_max, ParseLimits::default()),
        ParseLimitKind::TensorCount,
        u64::MAX,
        ParseLimits::default().max_tensor_count,
    );

    let kv_max = gguf_header(0, u64::MAX);
    expect_limit(
        parse_err(kv_max, ParseLimits::default()),
        ParseLimitKind::KvCount,
        u64::MAX,
        ParseLimits::default().max_kv_count,
    );

    let mut huge_string = gguf_header(0, 1);
    push_u64(&mut huge_string, u64::MAX);
    expect_limit(
        parse_err(huge_string, ParseLimits::default()),
        ParseLimitKind::StringBytes,
        u64::MAX,
        ParseLimits::default().max_string_bytes,
    );

    let mut huge_array = gguf_header(0, 1);
    push_array_uint8_header(&mut huge_array, "arr", u64::MAX);
    expect_limit(
        parse_err(huge_array, ParseLimits::default()),
        ParseLimitKind::ArrayWorkItems,
        u64::MAX,
        ParseLimits::default().max_array_work_items,
    );
}

fn two_f32_tensors_at_relative_offset(offset: u64) -> Vec<u8> {
    let mut out = gguf_header(2, 0);
    for name in ["left", "right"] {
        push_string(&mut out, name);
        push_u32(&mut out, 1);
        push_u64(&mut out, 1);
        push_u32(&mut out, GGML_F32);
        push_u64(&mut out, offset);
    }
    while out.len() % ALIGNMENT as usize != 0 {
        out.push(0);
    }
    out.extend_from_slice(&1.0f32.to_le_bytes());
    out
}

#[test]
fn relative_zero_cannot_expose_header_bytes() {
    let bytes = one_tensor("w", vec![2]);
    let layout = parse_bytes(bytes, "mem://rel0".into()).expect("parse");
    let tensor = layout.tensor("w").expect("tensor");
    let payload = layout.tensor_bytes(tensor).expect("payload");
    assert_all(&[
        (tensor.relative_offset == 0, "relative-zero"),
        (
            tensor.absolute_offset == layout.tensor_data_offset,
            "absolute-at-data-section",
        ),
        (
            tensor.absolute_offset >= layout.tensor_data_offset,
            "not-before-data-section",
        ),
        (layout.bytes[..4] == GGUF_MAGIC, "header-magic-present"),
        (!payload.starts_with(&GGUF_MAGIC), "payload-not-header"),
        (
            layout.bytes[..layout.tensor_data_offset].starts_with(&GGUF_MAGIC),
            "metadata-keeps-header",
        ),
    ]);
}

#[test]
fn overlapping_relative_offsets_stay_in_tensor_data() {
    let bytes = two_f32_tensors_at_relative_offset(0);
    let layout = parse_bytes(bytes, "mem://overlap".into()).expect("parse overlap");
    let left = layout.tensor("left").expect("left");
    let right = layout.tensor("right").expect("right");
    let left_bytes = layout.tensor_bytes(left).expect("left payload");
    let right_bytes = layout.tensor_bytes(right).expect("right payload");
    assert_all(&[
        (left.relative_offset == 0, "left-rel"),
        (right.relative_offset == 0, "right-rel"),
        (
            left.absolute_offset == layout.tensor_data_offset,
            "left-abs",
        ),
        (
            right.absolute_offset == layout.tensor_data_offset,
            "right-abs",
        ),
        (!left_bytes.starts_with(&GGUF_MAGIC), "left-not-header"),
        (!right_bytes.starts_with(&GGUF_MAGIC), "right-not-header"),
        (left_bytes == right_bytes, "shared-data-section-bytes"),
    ]);
}

#[test]
fn u64_max_relative_offset_cannot_wrap() {
    let mut out = gguf_header(1, 0);
    push_string(&mut out, "t");
    push_u32(&mut out, 1);
    push_u64(&mut out, 1);
    push_u32(&mut out, GGML_F32);
    push_u64(&mut out, u64::MAX);
    let err = parse_err(out, ParseLimits::default());
    match err {
        ParserError::InvalidLayout { reason, .. } => {
            assert!(
                reason.contains("absolute offset overflow") || reason.contains("overflow"),
                "got: {reason}"
            );
        }
        ParserError::HostSizeOverflow { field, value, .. } => {
            assert_eq!(field, HostSizeField::RelativeOffset);
            assert_eq!(value, u64::MAX);
        }
        other => panic!("expected wrap/host overflow, got {other:?}"),
    }
}

#[test]
fn deep_nested_arrays_are_bounded_by_total_work() {
    const DEPTH: usize = 32;
    let mut ok = gguf_header(0, 1);
    push_string(&mut ok, "nested");
    push_u32(&mut ok, VT_ARRAY);
    push_nested_array_payload(&mut ok, DEPTH);

    parse_ok(ok.clone(), ParseLimits::default());

    // 32-level nest of length-1 arrays charges 31 work items (see cursor tests).
    let exact = ParseLimits {
        max_array_work_items: 31,
        ..ParseLimits::default()
    };
    parse_ok(ok.clone(), exact);

    let too_small = ParseLimits {
        max_array_work_items: 30,
        ..ParseLimits::default()
    };
    let err = parse_err(ok, too_small);
    match err {
        ParserError::LimitExceeded { limit, .. } => {
            assert_eq!(limit, ParseLimitKind::ArrayWorkItems);
        }
        other => panic!("expected array work limit, got {other:?}"),
    }
}

#[test]
fn pathological_rank_is_rejected_before_dim_iteration() {
    let mut out = gguf_header(1, 0);
    push_string(&mut out, "t");
    push_u32(&mut out, u32::MAX);
    expect_limit(
        parse_err(out, ParseLimits::default()),
        ParseLimitKind::TensorRank,
        u64::from(u32::MAX),
        ParseLimits::default().max_tensor_rank,
    );
}

#[test]
fn element_count_multiplication_overflow() {
    let half = (usize::MAX / 2) as u64 + 1;
    let mut out = gguf_header(1, 0);
    push_string(&mut out, "t");
    push_u32(&mut out, 2);
    push_u64(&mut out, half);
    push_u64(&mut out, half);
    push_u32(&mut out, GGML_F32);
    push_u64(&mut out, 0);
    let err = parse_err(out, ParseLimits::default());
    match err {
        ParserError::InvalidLayout { reason, .. } => {
            assert!(reason.contains("element count overflow"), "got: {reason}");
        }
        ParserError::HostSizeOverflow { field, .. } => {
            assert_eq!(field, HostSizeField::TensorDim);
        }
        other => panic!("expected overflow, got {other:?}"),
    }
}

#[test]
fn truncated_buffers_at_each_header_directory_stage() {
    let mut kv_and_tensor = gguf_header(1, 1);
    push_kv_string(&mut kv_and_tensor, "general.architecture", "t");
    push_string(&mut kv_and_tensor, "weight");
    push_u32(&mut kv_and_tensor, 1);
    push_u64(&mut kv_and_tensor, 1);
    push_u32(&mut kv_and_tensor, GGML_F32);
    push_u64(&mut kv_and_tensor, 0);

    let stages: [(&[u8], &str); 8] = [
        (&[][..], "empty"),
        (&GGUF_MAGIC[..3], "partial-magic"),
        (&GGUF_MAGIC[..], "magic-only"),
        (&kv_and_tensor[..8], "magic-version"),
        (&kv_and_tensor[..16], "tensor-count-only"),
        (&kv_and_tensor[..24], "counts-no-kv"),
        (&kv_and_tensor[..28], "partial-kv-key-len"),
        (
            &kv_and_tensor[..kv_and_tensor.len() - 4],
            "partial-tensor-offset",
        ),
    ];
    for (bytes, label) in stages {
        let err = parse_bytes(bytes.to_vec(), format!("mem://trunc-{label}")).expect_err(label);
        let msg = err.to_string();
        assert!(
            msg.contains("EOF")
                || msg.contains("overflow")
                || msg.contains("unsupported")
                || msg.contains("invalid")
                || msg.contains("parse limit")
                || msg.contains("host-size"),
            "{label}: {msg}"
        );
    }
}

#[test]
fn trusted_override_does_not_change_default_safety() {
    let three = kv_only(&[
        ("a", KvValue::U32(1)),
        ("b", KvValue::U32(2)),
        ("c", KvValue::U32(3)),
    ]);
    let tight = ParseLimits {
        max_kv_count: 2,
        ..ParseLimits::default()
    };
    expect_limit(
        parse_err(three.clone(), tight),
        ParseLimitKind::KvCount,
        3,
        2,
    );
    parse_ok(three, ParseLimits::trusted());
    assert_eq!(ParseLimits::default().max_kv_count, 1_000_000);
}

#[test]
fn default_and_mmap_error_parity_on_limit_failures() {
    let cases: Vec<(Vec<u8>, ParseLimits)> = vec![
        (gguf_header(u64::MAX, 0), ParseLimits::default()),
        (gguf_header(0, u64::MAX), ParseLimits::default()),
        (
            {
                let mut b = gguf_header(0, 1);
                push_u64(&mut b, u64::MAX);
                b
            },
            ParseLimits::default(),
        ),
        (
            kv_only(&[
                ("a", KvValue::U32(1)),
                ("b", KvValue::U32(2)),
                ("c", KvValue::U32(3)),
            ]),
            ParseLimits {
                max_kv_count: 2,
                ..ParseLimits::default()
            },
        ),
        (
            one_tensor("t", vec![2, 2, 1]),
            ParseLimits {
                max_tensor_rank: 2,
                ..ParseLimits::default()
            },
        ),
    ];

    for (i, (bytes, limits)) in cases.into_iter().enumerate() {
        let owned = parse_bytes_with_limits(bytes.clone(), format!("mem://mmap-{i}"), limits)
            .expect_err("owned");
        let mapped = GgufLayoutMmap::from_mapping(&bytes, format!("map://mmap-{i}"), limits)
            .expect_err("mmap");
        assert_eq!(
            error_payload(&owned),
            error_payload(&mapped),
            "default vs mmap error payload mismatch\n owned={owned:?}\n mmap={mapped:?}"
        );
    }
}

#[test]
fn default_mmap_success_parity_on_tiny_file() {
    let bytes = one_tensor("token_embd.weight", vec![4, 2]);
    let owned = parse_bytes(bytes.clone(), "mem://mmap-ok".into()).expect("owned");
    let mapped =
        GgufLayoutMmap::from_mapping(&bytes, "map://mmap-ok".into(), ParseLimits::default())
            .expect("mmap");
    assert!(mapped.directory_matches(&owned));
}

#[test]
fn wider_budgets_change_nothing_that_was_accepted() {
    let bytes = one_tensor("t", vec![4, 2]);
    let tight = ParseLimits {
        max_kv_count: 1,
        max_tensor_count: 1,
        max_tensor_rank: 2,
        ..ParseLimits::default()
    };
    let a = parse_bytes_with_limits(bytes.clone(), "mem://a".into(), tight).expect("tight");
    let b = parse_bytes_with_limits(bytes, "mem://a".into(), ParseLimits::trusted()).expect("wide");
    assert_eq!(format!("{:?}", a.tensors), format!("{:?}", b.tensors));
    assert_eq!(a.alignment, b.alignment);
    assert_eq!(a.tensor_data_offset, b.tensor_data_offset);
}

#[test]
fn a_payload_past_the_end_is_refused() {
    let mut bytes = one_tensor("t", vec![8]);
    bytes.truncate(bytes.len() - 1);
    match parse_err(bytes, ParseLimits::default()) {
        ParserError::InvalidLayout { reason, .. } => {
            assert_eq!(reason, "tensor 't' extends past EOF");
        }
        other => panic!("expected InvalidLayout, got {other:?}"),
    }
}
