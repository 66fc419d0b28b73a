//! Safetensors headers, indexes, manifests and candidate discovery, on checkpoints held in
//! memory.

use engram_parser::ordered::StringMap;
use engram_parser::safetensors::header::MAX_HEADER_BYTES;
use engram_parser::safetensors::index::{
    check_index_size, encode_unreferenced_shards, inspect_index_shards, parse_raw_index,
    plan_shards, unreferenced_shards, Assignment, IndexedShard, MAX_INDEX_BYTES,
};
use engram_parser::safetensors::json::{number_tokens, JsonValue};
use engram_parser::safetensors::manifest::{
    build_manifest, inspect_shards, inspect_single_file, InspectedShard,
};
use engram_parser::safetensors::metadata::{
    merge_shard_metadata, namespaced_shard_metadata_logical_key,
    parse_unreferenced_shards_metadata, shard_metadata_namespaced_key,
};
use engram_parser::safetensors::paths::{
    accept_shard, checkpoint_files, checkpoint_kind, choose_index_file, has_safetensors_extension,
    index_shard_path, is_safetensors_index, CheckpointKind, PathStyle, ShardState,
};
use engram_parser::safetensors::validate::reject_tensor_data_ranges;
use engram_parser::safetensors::{
    classify_tensor, discover_candidates, dtype_size_bytes, header_length, inspect_header,
    parse_json_rejecting_duplicate_keys, SafetensorsManifest, SafetensorsTensorRecord,
    ShardInspection, INDEX_UNREFERENCED_SHARDS_KEY,
};
use engram_parser::ParserError;
use std::collections::BTreeMap;

/// How the numbers of a document that are no integers are rendered, under their tokens.
fn number_texts(value: &JsonValue) -> StringMap<String> {
    let mut texts = StringMap::new();
    for token in number_tokens(value) {
        let n: f64 = token.parse().unwrap();
        let text = if n.fract() == 0.0 && n >= i64::MIN as f64 && n <= i64::MAX as f64 {
            (n as i64).to_string()
        } else {
            n.to_string()
        };
        texts.insert(token, text);
    }
    texts
}

/// A checkpoint directory held in memory.
struct Checkpoint {
    files: BTreeMap<String, Vec<u8>>,
}

impl Checkpoint {
    fn new() -> Self {
        Checkpoint {
            files: BTreeMap::new(),
        }
    }

    fn write(&mut self, name: &str, text: &str) {
        self.files.insert(name.to_string(), text.as_bytes().to_vec());
    }

    fn write_shard(&mut self, name: &str, header: &str, data_len: usize) {
        let mut bytes = (header.len() as u64).to_le_bytes().to_vec();
        bytes.extend_from_slice(header.as_bytes());
        bytes.resize(bytes.len() + data_len, 0);
        self.files.insert(name.to_string(), bytes);
    }

    fn inspect_shard(&self, name: &str) -> Result<ShardInspection, ParserError> {
        let path = format!("ckpt/{name}");
        let bytes = &self.files[name];
        let mut length = [0u8; 8];
        length.copy_from_slice(&bytes[..8]);
        let n = header_length(&path, &length, bytes.len() as u64)?;
        inspect_header(&path, name, bytes.len() as u64, &bytes[8..8 + n])
    }

    fn inspect_file(&self, name: &str) -> Result<SafetensorsManifest, ParserError> {
        let path = format!("ckpt/{name}");
        match checkpoint_kind(&path, name, false)? {
            CheckpointKind::Index => self.inspect_index(name),
            _ => inspect_single_file(&path, self.inspect_shard(name)?),
        }
    }

    fn shard_names(&self) -> Vec<String> {
        self.files
            .keys()
            .filter(|name| !name.contains('/') && has_safetensors_extension(name))
            .cloned()
            .collect()
    }

    fn inspect(&self) -> Result<SafetensorsManifest, ParserError> {
        let indexes: Vec<String> = self
            .files
            .keys()
            .filter(|name| is_safetensors_index(name))
            .cloned()
            .collect();
        if let Some(index) = choose_index_file("ckpt", &indexes)? {
            return self.inspect_index(&index);
        }
        let mut shards = Vec::new();
        for name in self.shard_names() {
            let inspection = self.inspect_shard(&name)?;
            shards.push(InspectedShard {
                source_shard: name,
                inspection,
            });
        }
        inspect_shards("ckpt", shards)
    }

    fn inspect_index(&self, index: &str) -> Result<SafetensorsManifest, ParserError> {
        let index_path = format!("ckpt/{index}");
        let bytes = &self.files[index];
        check_index_size(&index_path, bytes.len() as u64)?;
        let value = parse_json_rejecting_duplicate_keys(bytes, &index_path, "Safetensors index")?;
        let raw = parse_raw_index(&index_path, &value, &number_texts(&value))?;
        let mut assignments = Vec::new();
        for i in 0..raw.weight_map.len() {
            let relative = raw.weight_map.value_at(i);
            let shard = index_shard_path(PathStyle::Unix, &index_path, relative)?;
            let state = if self.files.contains_key(&shard) {
                ShardState::Regular
            } else {
                ShardState::Missing
            };
            accept_shard(&index_path, relative, &format!("ckpt/{shard}"), state)?;
            assignments.push(Assignment {
                tensor: raw.weight_map.key_at(i).clone(),
                shard,
            });
        }
        let plan = plan_shards(&assignments);
        let unused = encode_unreferenced_shards(unreferenced_shards(&self.shard_names(), &plan));
        let mut shards = Vec::new();
        for planned in plan {
            let inspection = self.inspect_shard(&planned.source_shard)?;
            shards.push(IndexedShard {
                path: format!("ckpt/{}", planned.source_shard),
                source_shard: planned.source_shard,
                expected: planned.expected,
                inspection,
            });
        }
        inspect_index_shards(
            "ckpt",
            Some(index.to_string()),
            shards,
            raw.metadata,
            raw.weight_map.len(),
            unused,
        )
    }
}

const ONE: &str = r#"{"a.weight": {"dtype": "F16", "shape": [1], "data_offsets": [0, 2]}}"#;
const TWO: &str = r#"{"b.weight": {"dtype": "F16", "shape": [1], "data_offsets": [0, 2]}}"#;

#[test]
fn parses_single_file_manifest_and_labels_candidates() {
    let mut dir = Checkpoint::new();
    let path = "model.safetensors";
    dir.write_shard(
        path,
        r#"{
                "__metadata__": {"format": "pt"},
                "model.layers.0.mlp.gate.weight": {"dtype": "F32", "shape": [64, 2048], "data_offsets": [0, 524288]},
                "model.layers.0.mlp.experts.0.w1.weight": {"dtype": "F16", "shape": [2048, 4096], "data_offsets": [524288, 17301504]}
            }"#,
        17_301_504,
    );

    let manifest = dir.inspect_file(path).unwrap();
    assert_eq!(manifest.checkpoint.input_kind, "single_file");
    assert_eq!(manifest.checkpoint.shard_count, 1);
    assert_eq!(manifest.checkpoint.tensor_count, 2);
    assert_eq!(manifest.checkpoint.metadata.get("format").unwrap(), "pt");
    assert_eq!(
        manifest.tensors[0].name,
        "model.layers.0.mlp.experts.0.w1.weight"
    );
    assert_eq!(manifest.tensors[0].source_shard, "model.safetensors");
    assert_eq!(manifest.candidates.router_tensors.len(), 1);
    assert_eq!(manifest.candidates.expert_tensors.len(), 1);
    assert_eq!(
        manifest.candidates.detected_layout_family,
        Some("generic_moe")
    );
    assert_eq!(manifest.candidates.router_candidates[0].layer_hint, Some(0));
    assert_eq!(manifest.candidates.expert_groups.len(), 1);
    assert_eq!(manifest.candidates.expert_groups[0].layer_hint, Some(0));
    assert_eq!(manifest.candidates.expert_groups[0].expert_indices, vec![0]);
}

#[test]
fn reads_hugging_face_index_and_orders_deterministically() {
    let mut dir = Checkpoint::new();
    let shard_a = "model-00001-of-00002.safetensors";
    let shard_b = "model-00002-of-00002.safetensors";
    dir.write_shard(
        shard_b,
        r#"{"z.weight": {"dtype": "F16", "shape": [2, 2], "data_offsets": [0, 8]}}"#,
        8,
    );
    dir.write_shard(
        shard_a,
        r#"{"a.router.weight": {"dtype": "F32", "shape": [8, 2048], "data_offsets": [0, 65536]}}"#,
        65_536,
    );
    dir.write("model.safetensors.index.json", r#"{
                "metadata": {"total_size": 65544},
                "weight_map": {
                    "z.weight": "model-00002-of-00002.safetensors",
                    "a.router.weight": "model-00001-of-00002.safetensors"
                }
            }"#);

    let manifest = dir.inspect().unwrap();
    assert_eq!(manifest.checkpoint.input_kind, "hf_index");
    assert_eq!(
        manifest.checkpoint.index_file.as_deref(),
        Some("model.safetensors.index.json")
    );
    assert_eq!(manifest.checkpoint.shard_count, 2);
    assert_eq!(
        manifest
            .checkpoint
            .metadata
            .get("index:total_size")
            .unwrap(),
        "65544"
    );
    assert_eq!(manifest.tensors[0].name, "a.router.weight");
    assert_eq!(manifest.tensors[1].name, "z.weight");
    assert_eq!(manifest.candidates.router_tensors, vec!["a.router.weight"]);
}

#[test]
fn user_index_metadata_cannot_spoof_unreferenced_shards() {
    let mut dir = Checkpoint::new();
    dir.write_shard(
        "model.safetensors",
        r#"{"a.weight": {"dtype": "F16", "shape": [1], "data_offsets": [0, 2]}}"#,
        2,
    );
    dir.write("model.safetensors.index.json", r#"{
                "metadata": {"unreferenced_shards": "spoof.safetensors"},
                "weight_map": {"a.weight": "model.safetensors"}
            }"#);

    let manifest = dir.inspect().unwrap();
    assert!(
        !manifest
            .checkpoint
            .metadata
            .contains_key(INDEX_UNREFERENCED_SHARDS_KEY)
    );
}

#[test]
fn index_shard_paths_are_normalized_before_deduplication() {
    let mut dir = Checkpoint::new();
    dir.write_shard(
        "model.safetensors",
        r#"{
                "a.weight": {"dtype": "F16", "shape": [1], "data_offsets": [0, 2]},
                "b.weight": {"dtype": "F16", "shape": [1], "data_offsets": [2, 4]}
            }"#,
        4,
    );
    dir.write("model.safetensors.index.json", r#"{
                "weight_map": {
                    "a.weight": "model.safetensors",
                    "b.weight": "./model.safetensors"
                }
            }"#);

    let manifest = dir.inspect().unwrap();
    assert_eq!(manifest.checkpoint.shard_count, 1);
    assert_eq!(manifest.checkpoint.tensor_count, 2);
    assert_eq!(manifest.tensors[0].source_shard, "model.safetensors");
    assert_eq!(manifest.tensors[1].source_shard, "model.safetensors");
}

#[test]
fn rejects_tensor_offsets_beyond_data_section() {
    let mut dir = Checkpoint::new();
    let path = "bad.safetensors";
    dir.write_shard(
        path,
        r#"{"bad.weight": {"dtype": "F16", "shape": [4], "data_offsets": [0, 16]}}"#,
        8,
    );

    let err = dir.inspect_file(path).unwrap_err();
    assert!(
        err.to_string()
            .contains("extends beyond Safetensors data section")
    );
}

#[test]
fn rejects_index_shard_paths_that_escape_checkpoint_directory() {
    let mut dir = Checkpoint::new();
    dir.write("model.safetensors.index.json", r#"{
                "weight_map": {
                    "a.weight": "../outside.safetensors"
                }
            }"#);

    let err = dir.inspect().unwrap_err();
    assert!(
        err.to_string()
            .contains("must stay within the checkpoint directory")
    );
}

#[test]
fn rejects_multiple_directory_indexes() {
    let mut dir = Checkpoint::new();
    dir.write("a.safetensors.index.json", r#"{"weight_map": {}}"#);
    dir.write("b.safetensors.index.json", r#"{"weight_map": {}}"#);

    let err = dir.inspect().unwrap_err();
    assert!(err.to_string().contains("multiple Safetensors index files"));
}

#[test]
fn hf_index_filters_extra_tensors_and_requires_mapped_tensors() {
    let mut dir = Checkpoint::new();
    let shard = "model-00001-of-00001.safetensors";
    dir.write_shard(
        shard,
        r#"{
                "a.router.weight": {"dtype": "F32", "shape": [8, 2048], "data_offsets": [0, 65536]},
                "stale.router.weight": {"dtype": "F32", "shape": [8, 2048], "data_offsets": [65536, 131072]}
            }"#,
        131_072,
    );
    dir.write_shard(
        "unused.safetensors",
        r#"{"unused.weight": {"dtype": "F16", "shape": [1], "data_offsets": [0, 2]}}"#,
        2,
    );
    let index = "model.safetensors.index.json";
    dir.write(index, r#"{"weight_map": {"a.router.weight": "model-00001-of-00001.safetensors"}}"#);

    let manifest = dir.inspect().unwrap();
    assert_eq!(manifest.checkpoint.tensor_count, 1);
    assert_eq!(manifest.tensors[0].name, "a.router.weight");
    assert_eq!(
        manifest
            .checkpoint
            .metadata
            .get(INDEX_UNREFERENCED_SHARDS_KEY)
            .map(String::as_str),
        Some(r#"["unused.safetensors"]"#)
    );

    dir.write(index, r#"{"weight_map": {"missing.weight": "model-00001-of-00001.safetensors"}}"#);
    let err = dir.inspect().unwrap_err();
    assert!(err.to_string().contains("does not contain it"));
}

#[test]
fn rejects_shape_dtype_byte_size_mismatch() {
    let mut dir = Checkpoint::new();
    let path = "bad.safetensors";
    dir.write_shard(
        path,
        r#"{"bad.weight": {"dtype": "F16", "shape": [4], "data_offsets": [0, 4]}}"#,
        4,
    );

    let err = dir.inspect_file(path).unwrap_err();
    assert!(err.to_string().contains("byte size mismatch"));
}

#[test]
fn rejects_unknown_safetensors_dtype() {
    let mut dir = Checkpoint::new();
    let path = "bad.safetensors";
    dir.write_shard(
        path,
        r#"{"bad.weight": {"dtype": "F128", "shape": [1], "data_offsets": [0, 2]}}"#,
        2,
    );

    let err = dir.inspect_file(path).unwrap_err();
    assert!(err.to_string().contains("unsupported Safetensors dtype"));
}

#[test]
fn rejects_duplicate_header_keys() {
    let mut dir = Checkpoint::new();
    let path = "bad.safetensors";
    dir.write_shard(
        path,
        r#"{
                "dup.weight": {"dtype": "F16", "shape": [1], "data_offsets": [0, 2]},
                "dup.weight": {"dtype": "F16", "shape": [1], "data_offsets": [2, 4]}
            }"#,
        4,
    );

    let err = dir.inspect_file(path).unwrap_err();
    assert!(err.to_string().contains("duplicate JSON key"));
}

#[test]
fn rejects_non_string_metadata_values() {
    let mut dir = Checkpoint::new();
    let path = "bad.safetensors";
    dir.write_shard(
        path,
        r#"{
                "__metadata__": {"format": 1},
                "a.weight": {"dtype": "F16", "shape": [1], "data_offsets": [0, 2]}
            }"#,
        2,
    );

    let err = dir.inspect_file(path).unwrap_err();
    assert!(err.to_string().contains("must be a string"));
}

#[test]
fn rejects_overlapping_tensor_ranges() {
    let mut dir = Checkpoint::new();
    let path = "bad.safetensors";
    dir.write_shard(
        path,
        r#"{
                "a.weight": {"dtype": "F16", "shape": [4], "data_offsets": [0, 8]},
                "b.weight": {"dtype": "F16", "shape": [4], "data_offsets": [4, 12]}
            }"#,
        12,
    );

    let err = dir.inspect_file(path).unwrap_err();
    assert!(err.to_string().contains("data range overlaps"));
}

#[test]
fn rejects_tensor_data_gaps_and_trailing_bytes() {
    let mut dir = Checkpoint::new();
    let gap_path = "gap.safetensors";
    dir.write_shard(
        gap_path,
        r#"{
                "a.weight": {"dtype": "F16", "shape": [1], "data_offsets": [0, 2]},
                "b.weight": {"dtype": "F16", "shape": [1], "data_offsets": [4, 6]}
            }"#,
        6,
    );
    let err = dir.inspect_file(gap_path).unwrap_err();
    assert!(err.to_string().contains("leaves a gap"));

    let trailing_path = "trailing.safetensors";
    dir.write_shard(
        trailing_path,
        r#"{"a.weight": {"dtype": "F16", "shape": [1], "data_offsets": [0, 2]}}"#,
        4,
    );
    let err = dir.inspect_file(trailing_path).unwrap_err();
    assert!(err.to_string().contains("data section is 4 bytes"));
}

#[test]
fn conflicting_shard_metadata_is_only_namespaced() {
    let mut dir = Checkpoint::new();
    dir.write_shard(
        "a.safetensors",
        r#"{
                "__metadata__": {"format": "pt"},
                "a.weight": {"dtype": "F16", "shape": [1], "data_offsets": [0, 2]}
            }"#,
        2,
    );
    dir.write_shard(
        "b.safetensors",
        r#"{
                "__metadata__": {"format": "np"},
                "b.weight": {"dtype": "F16", "shape": [1], "data_offsets": [0, 2]}
            }"#,
        2,
    );

    let manifest = dir.inspect().unwrap();
    assert!(!manifest.checkpoint.metadata.contains_key("format"));
    assert_eq!(
        manifest
            .checkpoint
            .metadata
            .get(&shard_metadata_namespaced_key("a.safetensors", "format"))
            .map(String::as_str),
        Some("pt")
    );
    assert_eq!(
        manifest
            .checkpoint
            .metadata
            .get(&shard_metadata_namespaced_key("b.safetensors", "format"))
            .map(String::as_str),
        Some("np")
    );
}

#[test]
fn colon_in_metadata_logical_key_conflict_does_not_restore_base_key() {
    let mut metadata = StringMap::new();
    let mut first = StringMap::new();
    first.insert("my:key".to_string(), "a".to_string());
    merge_shard_metadata(&mut metadata, "x.safetensors", &first);

    let mut second = StringMap::new();
    second.insert("my:key".to_string(), "b".to_string());
    merge_shard_metadata(&mut metadata, "y.safetensors", &second);

    assert!(!metadata.contains_key("my:key"));

    let mut third = StringMap::new();
    third.insert("my:key".to_string(), "c".to_string());
    merge_shard_metadata(&mut metadata, "z.safetensors", &third);

    assert!(!metadata.contains_key("my:key"));
    assert_eq!(
        metadata
            .get(&shard_metadata_namespaced_key("z.safetensors", "my:key"))
            .map(String::as_str),
        Some("c")
    );
}

#[test]
fn shard_metadata_key_detection_uses_exact_key_match() {
    let mut metadata = StringMap::new();
    let mut first = StringMap::new();
    first.insert("xfoo".to_string(), "1".to_string());
    merge_shard_metadata(&mut metadata, "a.safetensors", &first);

    let mut second = StringMap::new();
    second.insert("foo".to_string(), "2".to_string());
    merge_shard_metadata(&mut metadata, "b.safetensors", &second);

    assert_eq!(metadata.get("foo").map(String::as_str), Some("2"));
}

#[test]
fn accepts_current_additional_safetensors_dtypes() {
    let mut dir = Checkpoint::new();
    let path = "model.safetensors";
    dir.write_shard(
        path,
        r#"{
                "a.weight": {"dtype": "F8_E8M0", "shape": [4], "data_offsets": [0, 4]},
                "b.weight": {"dtype": "C64", "shape": [2], "data_offsets": [4, 20]}
            }"#,
        20,
    );

    let manifest = dir.inspect_file(path).unwrap();
    assert_eq!(manifest.checkpoint.tensor_count, 2);
}

#[test]
fn generic_dense_ffn_names_are_not_moe_expert_candidates() {
    let labels = classify_tensor("model.layers.0.mlp.gate_proj.weight", &[4096, 2048]);
    assert!(!labels.contains(&"moe_expert_candidate"));

    let labels = classify_tensor("model.layers.0.block_sparse_moe.gate.weight", &[8, 2048]);
    assert!(labels.contains(&"moe_router_candidate"));
    assert!(!labels.contains(&"moe_expert_candidate"));
}

#[test]
fn detects_deepseek_v3_family_block_sparse_moe_layout() {
    let mut dir = Checkpoint::new();
    let path = "model.safetensors";
    dir.write_shard(
        path,
        r#"{
                "model.layers.0.block_sparse_moe.gate.weight": {"dtype": "F32", "shape": [8, 2048], "data_offsets": [0, 65536]},
                "model.layers.0.block_sparse_moe.experts.0.w1.weight": {"dtype": "F16", "shape": [2, 2], "data_offsets": [65536, 65544]},
                "model.layers.0.block_sparse_moe.experts.0.w2.weight": {"dtype": "F16", "shape": [2, 2], "data_offsets": [65544, 65552]},
                "model.layers.0.block_sparse_moe.experts.0.w3.weight": {"dtype": "F16", "shape": [2, 2], "data_offsets": [65552, 65560]}
            }"#,
        65_560,
    );

    let manifest = dir.inspect_file(path).unwrap();
    assert_eq!(
        manifest.candidates.detected_layout_family,
        Some("deepseek_v3_family")
    );
    assert_eq!(
        manifest.candidates.router_tensors,
        vec!["model.layers.0.block_sparse_moe.gate.weight"]
    );
    assert_eq!(manifest.candidates.expert_groups.len(), 1);
    let group = &manifest.candidates.expert_groups[0];
    assert_eq!(group.group_key, "model.layers.0.block_sparse_moe");
    assert_eq!(group.layer_hint, Some(0));
    assert_eq!(group.expert_indices, vec![0]);
    assert_eq!(group.weight_kinds, vec!["w1", "w2", "w3"]);
    assert_eq!(group.source_shards, vec!["model.safetensors"]);
}

#[test]
fn detects_requested_named_moe_families() {
    for (family, router_name, expert_name) in [
        (
            "phimoe",
            "phimoe.model.layers.0.moe.gate.weight",
            "phimoe.model.layers.0.moe.experts.1.fc1.weight",
        ),
        (
            "granitemoe",
            "granitemoe.model.layers.0.moe.gate.weight",
            "granitemoe.model.layers.0.moe.experts.1.gate_proj.weight",
        ),
        (
            "afmoe",
            "afmoe.model.layers.0.moe.gating.weight",
            "afmoe.model.layers.0.moe.experts.1.linear_1.weight",
        ),
        (
            "lfm2_moe",
            "lfm2_moe.model.layers.0.feed_forward.gate.weight",
            "lfm2_moe.model.layers.0.feed_forward.experts.1.ffn_up.weight",
        ),
    ] {
        let router = SafetensorsTensorRecord {
            name: router_name.to_string(),
            dtype: "F32".into(),
            shape: vec![16, 2048],
            byte_size: 131_072,
            source_shard: "router.safetensors".into(),
            data_offsets: [0, 131_072],
            labels: classify_tensor(router_name, &[16, 2048]),
        };
        let expert = SafetensorsTensorRecord {
            name: expert_name.to_string(),
            dtype: "F16".into(),
            shape: vec![2, 2],
            byte_size: 8,
            source_shard: "experts.safetensors".into(),
            data_offsets: [0, 8],
            labels: classify_tensor(expert_name, &[2, 2]),
        };

        let candidates = discover_candidates(&[router, expert]);
        assert_eq!(candidates.detected_layout_family, Some(family));
        assert_eq!(candidates.router_tensors, vec![router_name]);
        assert_eq!(candidates.expert_tensors, vec![expert_name]);
        assert_eq!(candidates.expert_groups.len(), 1);
        assert_eq!(candidates.expert_groups[0].expert_indices, vec![1]);
    }
}

#[test]
fn shape_guard_prevents_ambiguous_dense_gate_router_candidate() {
    let labels = classify_tensor("model.layers.0.mlp.gate.weight", &[4096, 2048]);
    assert!(!labels.contains(&"moe_router_candidate"));

    let labels = classify_tensor("model.layers.0.mlp.gate.weight", &[8, 2048]);
    assert!(labels.contains(&"moe_router_candidate"));

    let labels = classify_tensor("model.layers.0.gating.weight", &[4096, 2048]);
    assert!(!labels.contains(&"moe_router_candidate"));
}

#[test]
fn discovery_does_not_double_list_experts_as_routers() {
    let expert_name = "model.router.moe.experts.0.down_proj.weight";
    let tensor = SafetensorsTensorRecord {
        name: expert_name.to_string(),
        dtype: "F16".into(),
        shape: vec![2, 2],
        byte_size: 8,
        source_shard: "experts.safetensors".into(),
        data_offsets: [0, 8],
        labels: classify_tensor(expert_name, &[2, 2]),
    };

    let manifest = build_manifest(
        "single_file",
        None,
        vec!["experts.safetensors".to_string()],
        StringMap::new(),
        vec![tensor],
        "mem://manifest",
    )
    .expect("manifest");
    assert_eq!(manifest.candidates.router_tensors, Vec::<String>::new());
    assert_eq!(manifest.candidates.expert_tensors, vec![expert_name]);
    assert_eq!(manifest.tensors[0].labels, vec!["moe_expert_candidate"]);
}

#[test]
fn named_family_requires_router_and_expert_evidence() {
    let tensor = SafetensorsTensorRecord {
        name: "granitemoe.adapter.weight".into(),
        dtype: "F16".into(),
        shape: vec![2, 2],
        byte_size: 8,
        source_shard: "model.safetensors".into(),
        data_offsets: [0, 8],
        labels: classify_tensor("granitemoe.adapter.weight", &[2, 2]),
    };

    let manifest = build_manifest(
        "single_file",
        None,
        vec!["model.safetensors".to_string()],
        StringMap::new(),
        vec![tensor],
        "mem://manifest",
    )
    .expect("manifest");
    assert_eq!(manifest.candidates.detected_layout_family, None);
    assert!(manifest.candidates.router_tensors.is_empty());
    assert!(manifest.candidates.expert_tensors.is_empty());
}

#[test]
fn unknown_expert_weight_kind_is_retained() {
    let router_name = "model.layers.0.moe.gate.weight";
    let expert_name = "model.layers.0.moe.experts.0.adapter.weight";
    let router = SafetensorsTensorRecord {
        name: router_name.into(),
        dtype: "F32".into(),
        shape: vec![4, 2048],
        byte_size: 32_768,
        source_shard: "router.safetensors".into(),
        data_offsets: [0, 32_768],
        labels: classify_tensor(router_name, &[4, 2048]),
    };
    let expert = SafetensorsTensorRecord {
        name: expert_name.into(),
        dtype: "F16".into(),
        shape: vec![2, 2],
        byte_size: 8,
        source_shard: "experts.safetensors".into(),
        data_offsets: [0, 8],
        labels: classify_tensor(expert_name, &[2, 2]),
    };

    let manifest = build_manifest(
        "directory",
        None,
        vec![
            "router.safetensors".to_string(),
            "experts.safetensors".to_string(),
        ],
        StringMap::new(),
        vec![router, expert],
        "mem://manifest",
    )
    .expect("manifest");
    assert_eq!(
        manifest.candidates.detected_layout_family,
        Some("generic_moe")
    );
    assert_eq!(manifest.candidates.expert_tensors, vec![expert_name]);
    assert_eq!(
        manifest.candidates.expert_groups[0].weight_kinds,
        vec!["unknown"]
    );
}

#[test]
fn expert_groups_keep_parallel_layer_stacks_separate() {
    let encoder = "encoder.layers.0.moe.experts.0.w1.weight";
    let decoder = "decoder.layers.0.moe.experts.0.w1.weight";
    let tensors = [encoder, decoder]
        .into_iter()
        .map(|name| SafetensorsTensorRecord {
            name: name.into(),
            dtype: "F16".into(),
            shape: vec![2, 2],
            byte_size: 8,
            source_shard: "experts.safetensors".into(),
            data_offsets: [0, 8],
            labels: classify_tensor(name, &[2, 2]),
        })
        .collect::<Vec<_>>();

    let manifest = build_manifest(
        "single_file",
        None,
        vec!["experts.safetensors".to_string()],
        StringMap::new(),
        tensors,
        "mem://manifest",
    )
    .expect("manifest");
    let group_keys = manifest
        .candidates
        .expert_groups
        .iter()
        .map(|group| group.group_key.as_str())
        .collect::<Vec<_>>();
    assert_eq!(
        group_keys,
        vec!["decoder.layers.0.moe", "encoder.layers.0.moe"]
    );
}

#[test]
fn groups_experts_across_hugging_face_index_shards() {
    let mut dir = Checkpoint::new();
    let router_shard = "model-00001-of-00002.safetensors";
    let expert_shard = "model-00002-of-00002.safetensors";
    dir.write_shard(
        router_shard,
        r#"{"model.layers.2.block_sparse_moe.gate.weight": {"dtype": "F32", "shape": [8, 2048], "data_offsets": [0, 65536]}}"#,
        65_536,
    );
    dir.write_shard(
        expert_shard,
        r#"{
                "model.layers.2.block_sparse_moe.experts.0.w1.weight": {"dtype": "F16", "shape": [2, 2], "data_offsets": [0, 8]},
                "model.layers.2.block_sparse_moe.experts.1.w1.weight": {"dtype": "F16", "shape": [2, 2], "data_offsets": [8, 16]}
            }"#,
        16,
    );
    dir.write("model.safetensors.index.json", r#"{
                "weight_map": {
                    "model.layers.2.block_sparse_moe.gate.weight": "model-00001-of-00002.safetensors",
                    "model.layers.2.block_sparse_moe.experts.0.w1.weight": "model-00002-of-00002.safetensors",
                    "model.layers.2.block_sparse_moe.experts.1.w1.weight": "model-00002-of-00002.safetensors"
                }
            }"#);

    let manifest = dir.inspect().unwrap();
    assert_eq!(manifest.checkpoint.input_kind, "hf_index");
    assert_eq!(manifest.candidates.expert_groups.len(), 1);
    let group = &manifest.candidates.expert_groups[0];
    assert_eq!(group.group_key, "model.layers.2.block_sparse_moe");
    assert_eq!(group.expert_indices, vec![0, 1]);
    assert_eq!(
        group.source_shards,
        vec!["model-00002-of-00002.safetensors"]
    );
    assert!(
        manifest
            .tensors
            .iter()
            .all(|tensor| tensor.source_shard.ends_with(".safetensors"))
    );
}

#[test]
fn write_manifest_is_deterministic_and_sorted() {
    let mut dir = Checkpoint::new();
    dir.write_shard(
        "z.safetensors",
        r#"{"z.weight": {"dtype": "F16", "shape": [1], "data_offsets": [0, 2]}}"#,
        2,
    );
    dir.write_shard(
        "a.safetensors",
        r#"{"a.weight": {"dtype": "F16", "shape": [1], "data_offsets": [0, 2]}}"#,
        2,
    );
    let first = dir.inspect().unwrap();
    let json_a = first.to_pretty_json();
    let second = dir.inspect().unwrap();
    let json_b = second.to_pretty_json();
    assert_eq!(json_a, json_b);
    assert_eq!(first.tensors[0].name, "a.weight");
    assert_eq!(second.tensors[1].name, "z.weight");
    assert!(json_a.contains("\"manifest_version\": 2"));
}

#[test]
fn dtype_size_bytes_covers_known_types() {
    assert_eq!(dtype_size_bytes("F32"), Some(4));
    assert_eq!(dtype_size_bytes("F16"), Some(2));
    assert_eq!(dtype_size_bytes("F8_E8M0"), Some(1));
    assert_eq!(dtype_size_bytes("C64"), Some(8));
    assert_eq!(dtype_size_bytes("INT4"), None);
    assert_eq!(dtype_size_bytes("nope"), None);
}

#[test]
fn inspects_committed_single_file_fixture() {
    let mut dir = Checkpoint::new();
    dir.write_shard("model.safetensors", ONE, 2);
    let manifest = dir.inspect_file("model.safetensors").expect("single-file fixture");
    assert_eq!(manifest.checkpoint.input_kind, "single_file");
    assert_eq!(manifest.checkpoint.shard_count, 1);
    assert_eq!(manifest.checkpoint.tensor_count, 1);
    assert_eq!(manifest.tensors[0].name, "a.weight");
    assert_eq!(manifest.tensors[0].dtype, "F16");
    assert_eq!(manifest.tensors[0].shape, vec![1]);
    assert_eq!(manifest.tensors[0].byte_size, 2);
    assert_eq!(manifest.tensors[0].source_shard, "model.safetensors");
}

fn sharded() -> Checkpoint {
    let mut dir = Checkpoint::new();
    dir.write_shard("model-00001-of-00002.safetensors", ONE, 2);
    dir.write_shard("model-00002-of-00002.safetensors", TWO, 2);
    dir.write(
        "model.safetensors.index.json",
        r#"{"weight_map": {
            "a.weight": "model-00001-of-00002.safetensors",
            "b.weight": "model-00002-of-00002.safetensors"
        }}"#,
    );
    dir
}

#[test]
fn inspects_committed_shard_index_fixture() {
    let manifest = sharded()
        .inspect_file("model.safetensors.index.json")
        .expect("shard-index fixture");
    assert_eq!(manifest.checkpoint.input_kind, "hf_index");
    assert_eq!(
        manifest.checkpoint.index_file.as_deref(),
        Some("model.safetensors.index.json")
    );
    assert_eq!(manifest.checkpoint.shard_count, 2);
    assert_eq!(manifest.checkpoint.tensor_count, 2);
    assert_eq!(manifest.tensors[0].name, "a.weight");
    assert_eq!(manifest.tensors[1].name, "b.weight");
    assert_eq!(
        manifest.tensors[0].source_shard,
        "model-00001-of-00002.safetensors"
    );
    assert_eq!(
        manifest.tensors[1].source_shard,
        "model-00002-of-00002.safetensors"
    );
    assert_eq!(
        manifest.checkpoint.metadata.get("index_tensor_count").unwrap(),
        "2"
    );
}

#[test]
fn inspects_committed_directory_fixture() {
    let mut dir = Checkpoint::new();
    dir.write_shard("a.safetensors", ONE, 2);
    dir.write_shard("b.safetensors", TWO, 2);
    let manifest = dir.inspect().expect("directory fixture");
    assert_eq!(manifest.checkpoint.input_kind, "directory");
    assert_eq!(manifest.checkpoint.index_file, None);
    assert_eq!(manifest.checkpoint.shard_count, 2);
    assert_eq!(manifest.tensors[0].name, "a.weight");
    assert_eq!(manifest.tensors[1].name, "b.weight");
}

#[test]
fn sharded_fixture_manifest_is_byte_stable() {
    let dir = sharded();
    let first = dir.inspect().expect("sharded fixture").to_pretty_json();
    let second = dir.inspect().expect("sharded fixture").to_pretty_json();
    assert_eq!(first, second);
    assert!(first.starts_with("{\n  \"candidates\":"));
}

#[test]
fn a_manifest_is_written_as_it_stands() {
    let mut dir = Checkpoint::new();
    dir.write_shard("model.safetensors", ONE, 2);
    let json = dir.inspect_file("model.safetensors").unwrap().to_pretty_json();
    let expected = r#"{
  "candidates": {
    "detected_layout_family": null,
    "expert_groups": [],
    "expert_tensors": [],
    "router_candidates": [],
    "router_tensors": []
  },
  "checkpoint": {
    "index_file": null,
    "input_kind": "single_file",
    "metadata": {},
    "shard_count": 1,
    "tensor_count": 1
  },
  "format": "safetensors",
  "manifest_version": 2,
  "tensors": [
    {
      "byte_size": 2,
      "data_offsets": [
        0,
        2
      ],
      "dtype": "F16",
      "labels": [],
      "name": "a.weight",
      "shape": [
        1
      ],
      "source_shard": "model.safetensors"
    }
  ]
}
"#;
    assert_eq!(json, expected);
}

#[test]
fn a_tensor_of_two_shards_is_refused() {
    let mut dir = Checkpoint::new();
    dir.write_shard("y.safetensors", ONE, 2);
    dir.write_shard("x.safetensors", ONE, 2);
    match dir.inspect().unwrap_err() {
        ParserError::DuplicateTensorOwnership { name, shards, path } => {
            assert_eq!(name, "a.weight");
            assert_eq!(shards, vec!["x.safetensors", "y.safetensors"]);
            assert_eq!(path, "ckpt");
        }
        other => panic!("expected DuplicateTensorOwnership, got {other:?}"),
    }
}

#[test]
fn a_tensor_in_another_shard_than_the_index_says_is_refused() {
    let mut dir = Checkpoint::new();
    dir.write_shard("x.safetensors", ONE, 2);
    dir.write_shard("w.safetensors", TWO, 2);
    dir.write(
        "model.safetensors.index.json",
        r#"{"weight_map": {"a.weight": "w.safetensors", "b.weight": "x.safetensors"}}"#,
    );
    match dir.inspect().unwrap_err() {
        ParserError::DuplicateTensorOwnership { name, shards, .. } => {
            assert_eq!(name, "a.weight");
            assert_eq!(shards, vec!["w.safetensors", "x.safetensors"]);
        }
        other => panic!("expected DuplicateTensorOwnership, got {other:?}"),
    }
    dir.write_shard("v.safetensors", ONE, 2);
    dir.write(
        "model.safetensors.index.json",
        r#"{"weight_map": {"a.weight": "x.safetensors", "c.weight": "v.safetensors"}}"#,
    );
    match dir.inspect().unwrap_err() {
        ParserError::DuplicateTensorOwnership { name, shards, .. } => {
            assert_eq!(name, "a.weight");
            assert_eq!(shards, vec!["v.safetensors", "x.safetensors"]);
        }
        other => panic!("expected DuplicateTensorOwnership, got {other:?}"),
    }
}

#[test]
fn an_absent_shard_is_missing() {
    let mut dir = Checkpoint::new();
    dir.write(
        "model.safetensors.index.json",
        r#"{"weight_map": {"a.weight": "gone.safetensors"}}"#,
    );
    let message = dir.inspect().unwrap_err().to_string();
    assert_eq!(
        message,
        "missing shard 'gone.safetensors' referenced by 'ckpt/model.safetensors.index.json'"
    );
}

#[test]
fn an_empty_directory_is_unsupported() {
    match Checkpoint::new().inspect().unwrap_err() {
        ParserError::UnsupportedFormat { reason, .. } => {
            assert_eq!(reason, "no .safetensors files found in 'ckpt'");
        }
        other => panic!("expected UnsupportedFormat, got {other:?}"),
    }
}

#[test]
fn header_lengths_are_checked_before_reading() {
    let ask = |n: u64, file_len: u64| header_length("p", &n.to_le_bytes(), file_len);
    assert_eq!(ask(5, 13).unwrap(), 5);
    let beyond = ask(6, 13).unwrap_err().to_string();
    assert!(beyond.contains("Safetensors header extends beyond file"), "{beyond}");
    let limit = MAX_HEADER_BYTES as u64;
    assert_eq!(ask(limit, limit + 8).unwrap(), MAX_HEADER_BYTES);
    let over = ask(limit + 1, u64::MAX).unwrap_err().to_string();
    assert!(
        over.contains("Safetensors header length 67108865 exceeds limit 67108864"),
        "{over}"
    );
    assert!(check_index_size("p", MAX_INDEX_BYTES).is_ok());
    let index = check_index_size("p", MAX_INDEX_BYTES + 1).unwrap_err().to_string();
    assert!(
        index.contains("Safetensors index is 67108865 bytes, exceeding limit 67108864"),
        "{index}"
    );
}

fn header_error(header: &str, data_len: usize) -> String {
    let mut dir = Checkpoint::new();
    dir.write_shard("bad.safetensors", header, data_len);
    match dir.inspect_file("bad.safetensors").unwrap_err() {
        ParserError::InvalidLayout { reason, .. } => reason,
        other => panic!("expected InvalidLayout, got {other:?}"),
    }
}

#[test]
fn every_malformed_entry_has_its_message() {
    let cases = [
        ("[]", "Safetensors header must be a JSON object"),
        (r#"{"t": 1}"#, "tensor 't' metadata must be an object"),
        (r#"{"t": {}}"#, "tensor 't' is missing dtype"),
        (r#"{"t": {"dtype": "F16"}}"#, "tensor 't' is missing shape"),
        (
            r#"{"t": {"dtype": "F16", "shape": [-1]}}"#,
            "tensor 't' has invalid shape",
        ),
        (
            r#"{"t": {"dtype": "F16", "shape": [1]}}"#,
            "tensor 't' is missing data_offsets",
        ),
        (
            r#"{"t": {"dtype": "F16", "shape": [1], "data_offsets": [0]}}"#,
            "tensor 't' data_offsets must have length 2",
        ),
        (
            r#"{"t": {"dtype": "F16", "shape": [1], "data_offsets": ["0", 2]}}"#,
            "tensor 't' has invalid start offset",
        ),
        (
            r#"{"t": {"dtype": "F16", "shape": [1], "data_offsets": [0, 2.5]}}"#,
            "tensor 't' has invalid end offset",
        ),
        (
            r#"{"t": {"dtype": "F16", "shape": [1], "data_offsets": [2, 0]}}"#,
            "tensor 't' data_offsets are reversed",
        ),
        (
            r#"{"t": {"dtype": "F16", "shape": [1], "data_offsets": [0, 4]}}"#,
            "tensor 't' byte size mismatch: shape/dtype imply 2 bytes, data_offsets span 4 bytes",
        ),
        (
            r#"{"t": {"dtype": "F16", "shape": [4294967296, 4294967296], "data_offsets": [0, 4]}}"#,
            "tensor 't' shape element count overflow",
        ),
        (
            r#"{"t": {"dtype": "F64", "shape": [4294967296, 1073741824], "data_offsets": [0, 4]}}"#,
            "tensor 't' byte size overflow",
        ),
        (
            r#"{"__metadata__": []}"#,
            "Safetensors __metadata__ must be a JSON object of strings",
        ),
    ];
    for (header, expected) in cases {
        assert_eq!(header_error(header, 4), expected, "{header}");
    }
}

#[test]
fn every_malformed_index_has_its_message() {
    let cases = [
        ("[]", "Safetensors index must be a JSON object"),
        (
            r#"{"metadata": 1, "weight_map": {}}"#,
            "Safetensors index metadata must be a JSON object",
        ),
        ("{}", "Safetensors index is missing weight_map"),
        (
            r#"{"weight_map": []}"#,
            "Safetensors index weight_map must be an object",
        ),
        (
            r#"{"weight_map": {"t": 1}}"#,
            "index weight_map entry 't' must be a string shard path",
        ),
    ];
    for (text, expected) in cases {
        let mut dir = Checkpoint::new();
        dir.write("model.safetensors.index.json", text);
        match dir.inspect().unwrap_err() {
            ParserError::InvalidLayout { reason, .. } => assert_eq!(reason, expected),
            other => panic!("expected InvalidLayout, got {other:?}"),
        }
    }
}

#[test]
fn packed_four_bit_types_round_up() {
    let mut dir = Checkpoint::new();
    dir.write_shard(
        "model.safetensors",
        r#"{"t": {"dtype": "INT4", "shape": [3], "data_offsets": [0, 2]}}"#,
        2,
    );
    let manifest = dir.inspect_file("model.safetensors").unwrap();
    assert_eq!(manifest.tensors[0].byte_size, 2);
}

#[test]
fn shard_references_are_resolved_below_the_checkpoint() {
    let resolve = |relative: &str| index_shard_path(PathStyle::Unix, "i", relative);
    assert_eq!(resolve("nested/../model.safetensors").unwrap(), "model.safetensors");
    assert_eq!(resolve(".//a/./b.safetensors").unwrap(), "a/b.safetensors");
    assert_eq!(resolve("a/b").unwrap(), "a/b");
    for (relative, problem) in [
        ("/etc/x", "must be checkpoint-relative, not absolute"),
        ("a/../../x", "must stay within the checkpoint directory"),
        ("..", "must stay within the checkpoint directory"),
        ("", "must name a Safetensors shard"),
        ("a/..", "must name a Safetensors shard"),
    ] {
        let message = resolve(relative).unwrap_err().to_string();
        assert!(message.contains(problem), "{relative}: {message}");
        assert!(message.contains(&format!("index shard path '{relative}'")), "{message}");
    }
}

#[test]
fn planned_shards_are_in_the_order_of_their_paths() {
    let assign = |tensor: &str, shard: &str| Assignment {
        tensor: tensor.to_string(),
        shard: shard.to_string(),
    };
    let plan = plan_shards(&vec![
        assign("t1", "b.safetensors"),
        assign("t2", "a-b/x.safetensors"),
        assign("t3", "a/x.safetensors"),
        assign("t4", "b.safetensors"),
    ]);
    let listed: Vec<(String, Vec<String>)> = plan
        .iter()
        .map(|p| (p.source_shard.clone(), p.expected.keys()))
        .collect();
    let expected = vec![
        ("a/x.safetensors".to_string(), vec!["t3".to_string()]),
        ("a-b/x.safetensors".to_string(), vec!["t2".to_string()]),
        (
            "b.safetensors".to_string(),
            vec!["t1".to_string(), "t4".to_string()],
        ),
    ];
    assert_eq!(listed, expected);
    let files = vec!["b.safetensors".to_string(), "c.safetensors".to_string()];
    assert_eq!(unreferenced_shards(&files, &plan), vec!["c.safetensors"]);
}

#[test]
fn kinds_of_checkpoints_are_told_by_name() {
    assert_eq!(checkpoint_kind("d", "d", true).unwrap(), CheckpointKind::Directory);
    assert_eq!(
        checkpoint_kind("m.safetensors", "m.safetensors", false).unwrap(),
        CheckpointKind::SingleFile
    );
    assert_eq!(
        checkpoint_kind("m", "m.safetensors.index.json", false).unwrap(),
        CheckpointKind::Index
    );
    let message = checkpoint_kind("x/m.bin", "m.bin", false).unwrap_err().to_string();
    assert!(
        message.contains(
            "expected .safetensors file, .safetensors.index.json file, or directory, got 'x/m.bin'"
        ),
        "{message}"
    );
    assert!(!has_safetensors_extension(".safetensors"));
    assert!(!has_safetensors_extension("m.safetensors.bak"));
}

#[test]
fn shard_keys_give_their_metadata_key_back() {
    let key = shard_metadata_namespaced_key("a:b.safetensors", "my:key");
    assert_eq!(
        namespaced_shard_metadata_logical_key(&key).as_deref(),
        Some("my:key")
    );
    assert_eq!(
        namespaced_shard_metadata_logical_key("shard:a.safetensors:format").as_deref(),
        Some("format")
    );
    assert_eq!(namespaced_shard_metadata_logical_key("shard:plain"), None);
    assert_eq!(namespaced_shard_metadata_logical_key("format"), None);
}

#[test]
fn agreeing_metadata_keeps_its_plain_key() {
    let mut metadata = StringMap::new();
    let mut table = StringMap::new();
    table.insert("format".to_string(), "pt".to_string());
    merge_shard_metadata(&mut metadata, "a", &table);
    merge_shard_metadata(&mut metadata, "b", &table);
    assert_eq!(metadata.get("format").map(String::as_str), Some("pt"));
    assert_eq!(metadata.len(), 3);
}

#[test]
fn unreferenced_lists_are_read_back() {
    let names = vec!["a,b.safetensors".to_string(), "q\"uote.safetensors".to_string()];
    let encoded = encode_unreferenced_shards(names.clone()).unwrap();
    assert_eq!(parse_unreferenced_shards_metadata(&encoded), names);
    assert_eq!(
        parse_unreferenced_shards_metadata("x.safetensors,,y.safetensors"),
        vec!["x.safetensors", "y.safetensors"]
    );
    assert!(encode_unreferenced_shards(Vec::new()).is_none());
}

#[test]
fn the_overwrite_guard_covers_every_file() {
    let mut dir = sharded();
    dir.write_shard("unused,too.safetensors", ONE, 2);
    let manifest = dir.inspect().unwrap();
    assert_eq!(
        checkpoint_files(&manifest),
        vec![
            "model-00001-of-00002.safetensors",
            "model-00002-of-00002.safetensors",
            "model.safetensors.index.json",
            "unused,too.safetensors",
        ]
    );
}

#[test]
fn index_metadata_is_flattened() {
    let mut dir = sharded();
    dir.write(
        "model.safetensors.index.json",
        r#"{"metadata": {"s": "x", "n": -3, "o": {"k": [1, null]}}, "weight_map": {
            "a.weight": "model-00001-of-00002.safetensors"
        }}"#,
    );
    let manifest = dir.inspect().unwrap();
    let get = |k: &str| manifest.checkpoint.metadata.get(k).map(String::as_str);
    assert_eq!(get("index:s"), Some("x"));
    assert_eq!(get("index:n"), Some("-3"));
    assert_eq!(get("index:o"), Some(r#"{"k":[1,null]}"#));
    assert_eq!(get("index_tensor_count"), Some("1"));
}

#[test]
fn only_regular_files_inside_are_accepted() {
    let accept = |state| accept_shard("index", "link", "ckpt/link", state);
    assert!(accept(ShardState::Regular).is_ok());
    for (state, expected) in [
        (ShardState::Missing, "missing shard 'link' referenced by 'index'"),
        (
            ShardState::Irregular,
            "invalid layout in 'index': index shard path 'link' must name a regular Safetensors file",
        ),
        (
            ShardState::Outside,
            "invalid layout in 'ckpt/link': Safetensors shard path must stay within the checkpoint directory",
        ),
    ] {
        assert_eq!(accept(state).unwrap_err().to_string(), expected);
    }
}

#[test]
fn drives_and_backslashes_are_understood() {
    let resolve = |relative: &str| index_shard_path(PathStyle::Windows, "i", relative);
    assert_eq!(resolve("a\\..\\m.safetensors").unwrap(), "m.safetensors");
    assert_eq!(resolve("a\\.\\b/c").unwrap(), "a/b/c");
    assert_eq!(resolve("a\\D:\\m").unwrap(), "D:m");
    assert_eq!(resolve("a\\D:m\\n").unwrap(), "D:m/n");
    assert_eq!(resolve("1:x").unwrap(), "1:x");
    for (relative, problem) in [
        ("C:\\x", "must be checkpoint-relative, not absolute"),
        ("c:x", "must be checkpoint-relative, not absolute"),
        ("\\x", "must be checkpoint-relative, not absolute"),
        ("/x", "must be checkpoint-relative, not absolute"),
        ("\\\\server\\share\\x", "must be checkpoint-relative, not absolute"),
        ("..\\x", "must stay within the checkpoint directory"),
        ("a\\..\\..\\x", "must stay within the checkpoint directory"),
        ("a\\D:\\..", "must stay within the checkpoint directory"),
        ("a\\..", "must name a Safetensors shard"),
    ] {
        let message = resolve(relative).unwrap_err().to_string();
        assert!(message.contains(problem), "{relative}: {message}");
    }
    let unix = |relative: &str| index_shard_path(PathStyle::Unix, "i", relative).unwrap();
    assert_eq!(unix("..\\x"), "..\\x");
    assert_eq!(unix("C:\\x"), "C:\\x");
}

#[test]
fn the_order_of_shards_does_not_matter_to_metadata() {
    let table = |entries: &[(&str, &str)]| {
        let mut t = StringMap::new();
        for (k, v) in entries {
            t.insert(k.to_string(), v.to_string());
        }
        t
    };
    let shards = [
        ("a", table(&[("format", "pt"), ("only", "1"), ("split", "x")])),
        ("b", table(&[("format", "pt"), ("split", "y")])),
        ("c", table(&[("format", "pt"), ("split", "x")])),
    ];
    let merged = |order: [usize; 3]| {
        let mut m = StringMap::new();
        for i in order {
            merge_shard_metadata(&mut m, shards[i].0, &shards[i].1);
        }
        m
    };
    let first = merged([0, 1, 2]);
    for order in [[0, 2, 1], [1, 0, 2], [1, 2, 0], [2, 0, 1], [2, 1, 0]] {
        assert_eq!(merged(order), first);
    }
    assert_eq!(first.get("format").map(String::as_str), Some("pt"));
    assert_eq!(first.get("only").map(String::as_str), Some("1"));
    assert!(first.get("split").is_none());
    assert_eq!(
        first.get(&shard_metadata_namespaced_key("b", "split")).map(String::as_str),
        Some("y")
    );
    assert_eq!(first.len(), 2 + 7);
}

#[test]
fn index_metadata_shows_the_values_of_its_numbers() {
    let mut dir = Checkpoint::new();
    dir.write_shard("model.safetensors", ONE, 2);
    dir.write(
        "model.safetensors.index.json",
        r#"{"metadata": {"total": 1.0, "parts": [2e3, 0.50, {"n": -7}], "size": 12},
            "weight_map": {"a.weight": "model.safetensors"}}"#,
    );
    let manifest = dir.inspect().unwrap();
    let said = |key: &str| manifest.checkpoint.metadata.get(key).map(String::as_str);
    assert_eq!(said("index:total"), Some("1"));
    assert_eq!(said("index:parts"), Some("[2000,0.5,{\"n\":-7}]"));
    assert_eq!(said("index:size"), Some("12"));
}

#[test]
fn ranges_that_chain_are_accepted_in_any_order() {
    let record = |name: &str, start: usize, end: usize| SafetensorsTensorRecord {
        name: name.to_string(),
        dtype: "U8".to_string(),
        shape: vec![end - start],
        byte_size: end - start,
        source_shard: "s".to_string(),
        data_offsets: [start, end],
        labels: Vec::new(),
    };
    let ranges = [(0, 4), (4, 4), (4, 9)];
    for order in [[0, 1, 2], [0, 2, 1], [1, 0, 2], [1, 2, 0], [2, 0, 1], [2, 1, 0]] {
        let records: Vec<_> =
            order.iter().map(|&i: &usize| record("t", ranges[i].0, ranges[i].1)).collect();
        assert!(reject_tensor_data_ranges("p", &records, 9).is_ok());
        assert!(reject_tensor_data_ranges("p", &records, 10).is_err());
    }
    assert!(reject_tensor_data_ranges("p", &Vec::new(), 0).is_ok());
    assert!(reject_tensor_data_ranges("p", &vec![record("t", 1, 4)], 4).is_err());
}
