//! Error names and messages.

use engram_parser::{HostSizeField, ParseLimitKind, ParserError};

#[test]
fn limit_and_host_errors_name_the_field() {
    let limit = ParserError::limit_exceeded("mem://e", ParseLimitKind::StringBytes, 17, 16);
    let host = ParserError::host_size("mem://e", HostSizeField::RelativeOffset, u64::MAX);
    assert!(limit.to_string().contains("max_string_bytes"));
    assert!(host.to_string().contains("relative_offset"));
}

#[test]
fn limit_kind_match_is_exhaustive() {
    let kinds = [
        ParseLimitKind::KvCount,
        ParseLimitKind::TensorCount,
        ParseLimitKind::StringBytes,
        ParseLimitKind::ArrayWorkItems,
        ParseLimitKind::TensorRank,
        ParseLimitKind::MetadataBytes,
    ];
    for kind in kinds {
        let name = match kind {
            ParseLimitKind::KvCount => "max_kv_count",
            ParseLimitKind::TensorCount => "max_tensor_count",
            ParseLimitKind::StringBytes => "max_string_bytes",
            ParseLimitKind::ArrayWorkItems => "max_array_work_items",
            ParseLimitKind::TensorRank => "max_tensor_rank",
            ParseLimitKind::MetadataBytes => "max_metadata_bytes",
        };
        assert_eq!(kind.as_str(), name);
    }
}

#[test]
fn host_field_match_is_exhaustive() {
    let fields = [
        HostSizeField::StringLen,
        HostSizeField::KvCount,
        HostSizeField::TensorCount,
        HostSizeField::TensorRank,
        HostSizeField::TensorDim,
        HostSizeField::RelativeOffset,
        HostSizeField::Alignment,
        HostSizeField::ArrayLen,
    ];
    for field in fields {
        let name = match field {
            HostSizeField::StringLen => "string_len",
            HostSizeField::KvCount => "kv_count",
            HostSizeField::TensorCount => "tensor_count",
            HostSizeField::TensorRank => "tensor_rank",
            HostSizeField::TensorDim => "tensor_dim",
            HostSizeField::RelativeOffset => "relative_offset",
            HostSizeField::Alignment => "general.alignment",
            HostSizeField::ArrayLen => "array_len",
        };
        assert_eq!(field.as_str(), name);
    }
}

fn message(e: ParserError) -> String {
    e.to_string()
}

#[test]
fn every_error_renders_its_parts() {
    assert_eq!(
        message(ParserError::Io { path: "a".into(), source: "gone".into() }),
        "I/O error reading 'a': gone"
    );
    assert_eq!(
        message(ParserError::UnsupportedFormat { path: "a".into(), reason: "why".into() }),
        "unsupported format in 'a': why"
    );
    assert_eq!(
        message(ParserError::MissingTensor { name: "t".into(), path: "a".into() }),
        "missing tensor 't' in 'a'"
    );
    assert_eq!(
        message(ParserError::InvalidLayout { path: "a".into(), reason: "why".into() }),
        "invalid layout in 'a': why"
    );
    let out_of_range = message(ParserError::ExpertOutOfRange { block: 1, expert: 9, available: 4 });
    assert!(out_of_range.contains("expert index out of range"), "{out_of_range}");
    let duplicate = message(ParserError::DuplicateTensorOwnership {
        name: "t".into(),
        shards: vec!["x".into(), "y".into()],
        path: "a".into(),
    });
    assert!(duplicate.contains("x, y"), "{duplicate}");
    assert_eq!(
        message(ParserError::MissingShard { shard: "s".into(), path: "a".into() }),
        "missing shard 's' referenced by 'a'"
    );
}
