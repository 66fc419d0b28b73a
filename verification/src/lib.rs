//! Checkpoint metadata parsing and Mixture-of-Experts extraction.
//!
//! GGUF files are parsed from their bytes: header, metadata, tensor directory and, on
//! request, the payload of a tensor, the raw weights of an expert or the parts of packed
//! values. Safetensors checkpoints are described from their headers and index files by
//! deterministic manifests. Reading files, mapping them and floating point arithmetic are
//! left to the caller.

pub mod error;
pub mod gguf;
pub mod moe;
pub mod ordered;
pub mod safetensors;
pub mod sorting;
pub mod text;

pub use error::{HostSizeField, ParseLimitKind, ParserError};
pub use gguf::cursor::{
    GGUF_VALUE_TYPE_ARRAY, GGUF_VALUE_TYPE_BOOL, GGUF_VALUE_TYPE_FLOAT32, GGUF_VALUE_TYPE_FLOAT64,
    GGUF_VALUE_TYPE_INT16, GGUF_VALUE_TYPE_INT32, GGUF_VALUE_TYPE_INT64, GGUF_VALUE_TYPE_INT8,
    GGUF_VALUE_TYPE_STRING, GGUF_VALUE_TYPE_UINT16, GGUF_VALUE_TYPE_UINT32, GGUF_VALUE_TYPE_UINT64,
    GGUF_VALUE_TYPE_UINT8,
};
pub use gguf::dequant::{
    dequantize_iq3_m, dequantize_packed, dequantize_q5_k, dequantize_q6_k, dequantize_q8_0,
    packed_row_size, PackedValue,
};
pub use gguf::layout::{parse_bytes, parse_bytes_with_limits, GgufLayout, GgufMetadata};
pub use gguf::limits::ParseLimits;
pub use gguf::map::{os_page_size, GgufLayoutMmap, PageAlignedTensorBytes};
pub use gguf::tensor::{
    f16_bits_to_f32_bits, ggml_type_label, DType, Tensor, GGML_TYPE_BF16, GGML_TYPE_F16,
    GGML_TYPE_F32, GGML_TYPE_F64, GGML_TYPE_I16, GGML_TYPE_I32, GGML_TYPE_I64, GGML_TYPE_I8,
    GGML_TYPE_IQ1_M, GGML_TYPE_IQ1_S, GGML_TYPE_IQ2_S, GGML_TYPE_IQ2_XS, GGML_TYPE_IQ2_XXS,
    GGML_TYPE_IQ3_M_BLOCK, GGML_TYPE_IQ3_S, GGML_TYPE_IQ3_XXS, GGML_TYPE_IQ4_NL, GGML_TYPE_IQ4_XS,
    GGML_TYPE_Q2_K, GGML_TYPE_Q3_K, GGML_TYPE_Q4_0, GGML_TYPE_Q4_0_4_4, GGML_TYPE_Q4_1,
    GGML_TYPE_Q4_K, GGML_TYPE_Q5_0, GGML_TYPE_Q5_1, GGML_TYPE_Q5_K, GGML_TYPE_Q6_K,
    GGML_TYPE_Q8_0, GGML_TYPE_Q8_1, GGML_TYPE_Q8_K,
};
pub use moe::{extract_expert, list_experts, MoeExpertWeights, RawTensor};
