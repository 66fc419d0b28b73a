//! Safetensors headers, manifests and MoE candidate discovery.

pub mod access;
pub mod discovery;
pub mod discovery_laws;
pub mod header;
pub mod index;
pub mod json;
pub mod json_laws;
pub mod json_parse;
pub mod manifest;
pub mod manifest_json;
pub mod manifest_laws;
pub mod metadata;
pub mod ownership;
pub mod paths;
pub mod record;
pub mod validate;

pub use access::{parse_json_rejecting_duplicate_keys, parse_string_array};
pub use discovery::{
    classify_tensor, discover_candidates, SafetensorsCandidateSummary, SafetensorsExpertGroup,
    SafetensorsRouterCandidate,
};
pub use header::{header_length, inspect_header, ShardInspection};
pub use manifest::{SafetensorsCheckpointSource, SafetensorsManifest};
pub use metadata::INDEX_UNREFERENCED_SHARDS_KEY;
pub use record::SafetensorsTensorRecord;
pub use validate::dtype_size_bytes;
