//! The cursor over a GGUF byte stream.

use engram_parser::gguf::cursor::{GgufCursor, ScalarValue};
use engram_parser::{
    ParseLimitKind, ParseLimits, ParserError, GGUF_VALUE_TYPE_ARRAY, GGUF_VALUE_TYPE_BOOL,
    GGUF_VALUE_TYPE_FLOAT32, GGUF_VALUE_TYPE_FLOAT64, GGUF_VALUE_TYPE_INT8,
    GGUF_VALUE_TYPE_STRING, GGUF_VALUE_TYPE_UINT8,
};

fn push_u32(out: &mut Vec<u8>, v: u32) {
    out.extend_from_slice(&v.to_le_bytes());
}

fn push_u64(out: &mut Vec<u8>, v: u64) {
    out.extend_from_slice(&v.to_le_bytes());
}

fn nested_array_bytes(depth: usize) -> Vec<u8> {
    let mut bytes = Vec::with_capacity(depth * 12);
    for level in 0..depth {
        if level == depth - 1 {
            push_u32(&mut bytes, GGUF_VALUE_TYPE_UINT8);
        } else {
            push_u32(&mut bytes, GGUF_VALUE_TYPE_ARRAY);
        }
        push_u64(&mut bytes, if level == depth - 1 { 0 } else { 1 });
    }
    bytes
}

#[test]
fn skip_array_value_handles_deep_nesting() {
    const DEPTH: usize = 32;
    let bytes = nested_array_bytes(DEPTH);
    let mut cursor = GgufCursor::new(&bytes, "mem://deep-array");
    cursor
        .skip_value(GGUF_VALUE_TYPE_ARRAY)
        .expect("skip deep array");
    assert_eq!(
        cursor.offset(),
        bytes.len(),
        "did not consume entire nested array"
    );
}

#[test]
fn skip_array_value_rejects_work_budget_before_loop() {
    let mut bytes = Vec::new();
    push_u32(&mut bytes, GGUF_VALUE_TYPE_UINT8);
    push_u64(&mut bytes, 4);
    bytes.extend_from_slice(&[1, 2, 3, 4]);
    let limits = ParseLimits {
        max_array_work_items: 3,
        ..ParseLimits::default()
    };
    let mut cursor = GgufCursor::with_limits(&bytes, "mem://array-work", limits);
    let err = cursor.skip_value(GGUF_VALUE_TYPE_ARRAY).unwrap_err();
    match err {
        ParserError::LimitExceeded {
            limit,
            declared,
            budget,
            ..
        } => {
            assert_eq!(limit, ParseLimitKind::ArrayWorkItems);
            assert_eq!(declared, 4);
            assert_eq!(budget, 3);
        }
        other => panic!("expected LimitExceeded, got {other:?}"),
    }
    assert_eq!(cursor.offset(), 12, "must reject before iterating elements");
}

#[test]
fn skip_array_value_accepts_exact_work_budget() {
    let mut bytes = Vec::new();
    push_u32(&mut bytes, GGUF_VALUE_TYPE_UINT8);
    push_u64(&mut bytes, 3);
    bytes.extend_from_slice(&[1, 2, 3]);
    let limits = ParseLimits {
        max_array_work_items: 3,
        ..ParseLimits::default()
    };
    let mut cursor = GgufCursor::with_limits(&bytes, "mem://array-work-ok", limits);
    cursor
        .skip_value(GGUF_VALUE_TYPE_ARRAY)
        .expect("exact work budget");
}

#[test]
fn skip_array_value_rejects_u64_max_count() {
    let mut bytes = Vec::new();
    push_u32(&mut bytes, GGUF_VALUE_TYPE_UINT8);
    push_u64(&mut bytes, u64::MAX);
    let mut cursor = GgufCursor::new(&bytes, "mem://array-max");
    let err = cursor.skip_value(GGUF_VALUE_TYPE_ARRAY).unwrap_err();
    match err {
        ParserError::LimitExceeded {
            limit, declared, ..
        } => {
            assert_eq!(limit, ParseLimitKind::ArrayWorkItems);
            assert_eq!(declared, u64::MAX);
        }
        other => panic!("expected LimitExceeded, got {other:?}"),
    }
}

#[test]
fn read_string_rejects_oversize_before_allocating() {
    let mut bytes = Vec::new();
    push_u64(&mut bytes, 5);
    bytes.extend_from_slice(b"hello");
    let limits = ParseLimits {
        max_string_bytes: 4,
        ..ParseLimits::default()
    };
    let mut cursor = GgufCursor::with_limits(&bytes, "mem://str", limits);
    let err = cursor.read_string().unwrap_err();
    match err {
        ParserError::LimitExceeded {
            limit,
            declared,
            budget,
            ..
        } => {
            assert_eq!(limit, ParseLimitKind::StringBytes);
            assert_eq!(declared, 5);
            assert_eq!(budget, 4);
        }
        other => panic!("expected LimitExceeded, got {other:?}"),
    }
}

#[test]
fn read_string_accepts_exact_budget() {
    let mut bytes = Vec::new();
    push_u64(&mut bytes, 4);
    bytes.extend_from_slice(b"abcd");
    let limits = ParseLimits {
        max_string_bytes: 4,
        ..ParseLimits::default()
    };
    let mut cursor = GgufCursor::with_limits(&bytes, "mem://str-ok", limits);
    assert_eq!(cursor.read_string().unwrap(), "abcd");
}

#[test]
fn scalars_are_rendered_or_handed_out_as_bits() {
    let mut bytes = vec![0xff, 1];
    bytes.extend_from_slice(&1.5f32.to_le_bytes());
    bytes.extend_from_slice(&(-2.25f64).to_le_bytes());
    push_u64(&mut bytes, 2);
    bytes.extend_from_slice("hi".as_bytes());
    let mut cursor = GgufCursor::new(&bytes, "mem://scalars");
    let text = |v: &str| ScalarValue::Text(v.to_string());
    assert_eq!(
        cursor.read_scalar(GGUF_VALUE_TYPE_INT8).unwrap(),
        text("18446744073709551615")
    );
    assert_eq!(cursor.read_scalar(GGUF_VALUE_TYPE_BOOL).unwrap(), text("1"));
    assert_eq!(
        cursor.read_scalar(GGUF_VALUE_TYPE_FLOAT32).unwrap(),
        ScalarValue::Float32(1.5f32.to_bits())
    );
    assert_eq!(
        cursor.read_scalar(GGUF_VALUE_TYPE_FLOAT64).unwrap(),
        ScalarValue::Float64((-2.25f64).to_bits())
    );
    assert_eq!(cursor.read_scalar(GGUF_VALUE_TYPE_STRING).unwrap(), text("hi"));
    let err = cursor.read_scalar(GGUF_VALUE_TYPE_ARRAY).unwrap_err();
    assert!(err.to_string().contains("unexpected scalar GGUF value type 9"));
    assert_eq!(cursor.offset(), bytes.len());
}

#[test]
fn strings_are_decoded_as_utf8() {
    let mut bytes = Vec::new();
    push_u64(&mut bytes, 3);
    bytes.extend_from_slice("é!".as_bytes());
    push_u64(&mut bytes, 2);
    bytes.extend_from_slice(&[0xff, 0xfe]);
    let mut cursor = GgufCursor::new(&bytes, "mem://utf8");
    assert_eq!(cursor.read_string().unwrap(), "é!");
    let message = cursor.read_string().unwrap_err().to_string();
    assert!(
        message.contains("invalid UTF-8 in GGUF string: invalid utf-8 sequence of 1 bytes"),
        "{message}"
    );
}
