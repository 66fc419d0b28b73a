//! Parse budgets and size conversions.

use engram_parser::gguf::limits::{align_up_checked, u64_to_usize};
use engram_parser::{HostSizeField, ParseLimitKind, ParseLimits, ParserError};

#[test]
fn default_limits_are_generous_and_named() {
    let limits = ParseLimits::default();
    assert_eq!(
        limits,
        ParseLimits {
            max_kv_count: 1_000_000,
            max_tensor_count: 1_000_000,
            max_string_bytes: 16 * 1024 * 1024,
            max_array_work_items: 16_000_000,
            max_tensor_rank: 8,
            max_metadata_bytes: 256 * 1024 * 1024,
        }
    );
    assert!(limits.max_kv_count >= 1_000_000);
    assert!(limits.max_tensor_count >= 1_000_000);
    assert!(limits.max_string_bytes >= 1024);
    assert!(limits.max_array_work_items >= 32);
    assert!(limits.max_tensor_rank >= 8);
    assert!(limits.max_metadata_bytes >= 1024);
}

#[test]
fn trusted_does_not_change_default() {
    assert_ne!(ParseLimits::trusted(), ParseLimits::default());
    assert_eq!(ParseLimits::trusted().max_kv_count, u64::MAX);
    assert_eq!(ParseLimits::default().max_kv_count, 1_000_000);
}

#[test]
fn reject_is_inclusive_at_the_budget() {
    let limits = ParseLimits {
        max_kv_count: 4,
        ..ParseLimits::default()
    };
    limits
        .reject("mem://lim", ParseLimitKind::KvCount, 4)
        .expect("exact budget must pass");
    let err = limits
        .reject("mem://lim", ParseLimitKind::KvCount, 5)
        .unwrap_err();
    match err {
        ParserError::LimitExceeded {
            limit,
            declared,
            budget,
            ..
        } => {
            assert_eq!(limit, ParseLimitKind::KvCount);
            assert_eq!(declared, 5);
            assert_eq!(budget, 4);
        }
        other => panic!("expected LimitExceeded, got {other:?}"),
    }
}

#[test]
fn u64_to_usize_reports_field_when_unrepresentable() {
    if usize::BITS == 32 {
        let err = u64_to_usize(u64::MAX, HostSizeField::StringLen, "mem://host").unwrap_err();
        match err {
            ParserError::HostSizeOverflow { field, value, .. } => {
                assert_eq!(field, HostSizeField::StringLen);
                assert_eq!(value, u64::MAX);
            }
            other => panic!("expected HostSizeOverflow, got {other:?}"),
        }
    } else {
        assert_eq!(
            u64_to_usize(u64::MAX, HostSizeField::StringLen, "mem://host").unwrap(),
            usize::MAX
        );
    }
}

#[test]
fn align_up_checked_rejects_overflow() {
    let err = align_up_checked(usize::MAX, 32, "mem://align").unwrap_err();
    let msg = err.to_string();
    assert!(
        msg.contains("aligned tensor data offset overflow"),
        "got: {msg}"
    );
}

#[test]
fn align_up_checked_rounds_up() {
    assert_eq!(align_up_checked(1, 32, "mem://align").unwrap(), 32);
    assert_eq!(align_up_checked(32, 32, "mem://align").unwrap(), 32);
    assert_eq!(align_up_checked(7, 1, "mem://align").unwrap(), 7);
}

#[test]
fn each_budget_is_the_field_of_its_name() {
    let limits = ParseLimits {
        max_kv_count: 1,
        max_tensor_count: 2,
        max_string_bytes: 3,
        max_array_work_items: 4,
        max_tensor_rank: 5,
        max_metadata_bytes: 6,
    };
    assert_eq!(limits.budget(ParseLimitKind::KvCount), 1);
    assert_eq!(limits.budget(ParseLimitKind::TensorCount), 2);
    assert_eq!(limits.budget(ParseLimitKind::StringBytes), 3);
    assert_eq!(limits.budget(ParseLimitKind::ArrayWorkItems), 4);
    assert_eq!(limits.budget(ParseLimitKind::TensorRank), 5);
    assert_eq!(limits.budget(ParseLimitKind::MetadataBytes), 6);
}

#[test]
fn trusted_limits_admit_the_largest_value() {
    let limits = ParseLimits::trusted();
    for kind in [
        ParseLimitKind::KvCount,
        ParseLimitKind::TensorCount,
        ParseLimitKind::StringBytes,
        ParseLimitKind::ArrayWorkItems,
        ParseLimitKind::TensorRank,
        ParseLimitKind::MetadataBytes,
    ] {
        assert!(limits.reject("mem://t", kind, u64::MAX).is_ok());
    }
}
