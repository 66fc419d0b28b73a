//! Tensor types and their sizes.

use engram_parser::{
    f16_bits_to_f32_bits, ggml_type_label, DType, Tensor,
    GGML_TYPE_BF16, GGML_TYPE_F16, GGML_TYPE_F32, GGML_TYPE_F64, GGML_TYPE_I16, GGML_TYPE_I32, GGML_TYPE_I64, GGML_TYPE_I8, GGML_TYPE_IQ1_M, GGML_TYPE_IQ1_S, GGML_TYPE_IQ2_S, GGML_TYPE_IQ2_XS, GGML_TYPE_IQ2_XXS, GGML_TYPE_IQ3_M_BLOCK, GGML_TYPE_IQ3_S, GGML_TYPE_IQ3_XXS, GGML_TYPE_IQ4_NL, GGML_TYPE_IQ4_XS, GGML_TYPE_Q2_K, GGML_TYPE_Q3_K, GGML_TYPE_Q4_0, GGML_TYPE_Q4_0_4_4, GGML_TYPE_Q4_1, GGML_TYPE_Q4_K, GGML_TYPE_Q5_0, GGML_TYPE_Q5_1, GGML_TYPE_Q5_K, GGML_TYPE_Q6_K, GGML_TYPE_Q8_0, GGML_TYPE_Q8_1, GGML_TYPE_Q8_K,
};

fn f16_bits_to_f32(bits: u16) -> f32 {
    f32::from_bits(f16_bits_to_f32_bits(bits))
}

#[test]
fn dtype_round_trips_through_ggml_type() {
    let variants = [
        DType::F32,
        DType::F16,
        DType::Q4_0,
        DType::Q4_1,
        DType::Q5_0,
        DType::Q5_1,
        DType::Q8_0,
        DType::Q8_1,
        DType::Q2_K,
        DType::Q3_K,
        DType::Q4_K,
        DType::Q5_K,
        DType::Q6_K,
        DType::Q8_K,
        DType::IQ2_XXS,
        DType::IQ2_XS,
        DType::IQ3_XXS,
        DType::IQ1_S,
        DType::IQ4_NL,
        DType::IQ3_S,
        DType::IQ2_S,
        DType::IQ4_XS,
        DType::IQ1_M,
        DType::IQ3_M_BLOCK,
        DType::BF16,
        DType::F64,
        DType::I8,
        DType::I16,
        DType::I32,
        DType::I64,
    ];
    for dt in variants {
        let code = dt.ggml_type();
        let back = DType::from_ggml_type(code);
        assert_eq!(dt, back, "round-trip failed for {dt:?} (code={code})");
    }
}

#[test]
fn unknown_code_becomes_other() {
    let dt = DType::from_ggml_type(9999);
    let checks = [
        (dt == DType::Other(9999), "variant"),
        (dt.ggml_type() == 9999, "ggml_type"),
        (dt.byte_len_for_elements(100).is_none(), "byte_len"),
        (!dt.has_known_byte_layout(), "layout"),
    ];
    for (ok, label) in checks {
        assert!(ok, "unknown code 9999: {label}");
    }
}

#[test]
fn ggml_type_label_known_codes() {
    let cases = [
        (GGML_TYPE_F32, "F32"),
        (GGML_TYPE_F16, "F16"),
        (GGML_TYPE_Q4_0, "Q4_0"),
        (GGML_TYPE_Q8_0, "Q8_0"),
        (GGML_TYPE_Q2_K, "Q2_K"),
        (GGML_TYPE_Q6_K, "Q6_K"),
        (GGML_TYPE_IQ3_S, "IQ3_S"),
        (GGML_TYPE_Q4_0_4_4, "Q4_0_4_4"),
        (GGML_TYPE_IQ3_M_BLOCK, "IQ3_M_BLOCK"),
        (GGML_TYPE_BF16, "BF16"),
        (GGML_TYPE_F64, "F64"),
        (GGML_TYPE_I8, "I8"),
        (GGML_TYPE_I16, "I16"),
        (GGML_TYPE_I32, "I32"),
        (GGML_TYPE_I64, "I64"),
        (GGML_TYPE_IQ1_M, "IQ1_M"),
        (GGML_TYPE_IQ1_S, "IQ1_S"),
        (GGML_TYPE_IQ2_XXS, "IQ2_XXS"),
        (GGML_TYPE_IQ2_XS, "IQ2_XS"),
        (GGML_TYPE_IQ2_S, "IQ2_S"),
        (GGML_TYPE_IQ3_XXS, "IQ3_XXS"),
        (GGML_TYPE_IQ4_NL, "IQ4_NL"),
        (GGML_TYPE_IQ4_XS, "IQ4_XS"),
        (GGML_TYPE_Q4_1, "Q4_1"),
        (GGML_TYPE_Q5_0, "Q5_0"),
        (GGML_TYPE_Q5_1, "Q5_1"),
        (GGML_TYPE_Q8_1, "Q8_1"),
        (GGML_TYPE_Q3_K, "Q3_K"),
        (GGML_TYPE_Q4_K, "Q4_K"),
        (GGML_TYPE_Q5_K, "Q5_K"),
        (GGML_TYPE_Q8_K, "Q8_K"),
    ];
    for (code, expected) in cases {
        assert_eq!(ggml_type_label(code), expected, "label for code {code}");
    }
}

#[test]
fn ggml_type_label_unknown() {
    assert_eq!(ggml_type_label(9999), "unknown");
    assert_eq!(ggml_type_label(u32::MAX), "unknown");
}

#[test]
fn dtype_label_matches_ggml_type_label() {
    let variants = [
        DType::F32,
        DType::F16,
        DType::Q4_0,
        DType::Q8_0,
        DType::IQ3_S,
        DType::BF16,
        DType::F64,
        DType::I8,
        DType::I16,
        DType::I32,
        DType::I64,
    ];
    for dt in variants {
        assert_eq!(
            dt.label(),
            ggml_type_label(dt.ggml_type()),
            "label mismatch for {dt:?}"
        );
    }
}

#[test]
fn dtype_label_other_delegates() {
    let dt = DType::Other(9999);
    assert_eq!(dt.label(), "unknown");

    // An Other wrapping a known code should return the known label.
    let dt2 = DType::Other(GGML_TYPE_IQ4_NL);
    assert_eq!(dt2.label(), "IQ4_NL");
}

#[test]
fn byte_len_for_simple_types() {
    let cases = [
        (DType::F32, 100, Some(400)),
        (DType::F16, 100, Some(200)),
        (DType::BF16, 100, Some(200)),
        (DType::F64, 10, Some(80)),
        (DType::I8, 10, Some(10)),
        (DType::I16, 10, Some(20)),
        (DType::I32, 10, Some(40)),
        (DType::I64, 10, Some(80)),
    ];
    for (dt, n, expected) in cases {
        assert_eq!(dt.byte_len_for_elements(n), expected, "{dt:?} x {n}");
    }
}

#[test]
fn byte_len_for_blocked_quants() {
    let cases = [
        // Q4_0: block_size=32, 18 bytes per block
        (DType::Q4_0, 32, Some(18)),
        (DType::Q4_0, 64, Some(36)),
        (DType::Q4_0, 33, None),
        // Q8_0: block_size=32, 34 bytes per block
        (DType::Q8_0, 32, Some(34)),
        // Q4_K: block_size=256, 144 bytes per block
        (DType::Q4_K, 256, Some(144)),
        (DType::Q4_K, 128, None),
        // Q6_K: block_size=256, 210 bytes per block
        (DType::Q6_K, 256, Some(210)),
        // Q8_K: block_size=256, 292 bytes per block
        (DType::Q8_K, 256, Some(292)),
    ];
    for (dt, n, expected) in cases {
        assert_eq!(dt.byte_len_for_elements(n), expected, "{dt:?} x {n}");
    }
}

#[test]
fn byte_len_for_iq_quants() {
    // Wire layouts from llama.cpp ggml-common.h (QK_K=256).
    let cases = [
        (DType::IQ2_XXS, 256, Some(66)),
        (DType::IQ2_XS, 256, Some(74)),
        (DType::IQ2_S, 256, Some(82)),
        (DType::IQ3_XXS, 256, Some(98)),
        (DType::IQ3_S, 256, Some(110)),
        (DType::IQ3_S, 512, Some(220)),
        (DType::IQ3_S, 100, None),
        (DType::IQ1_S, 256, Some(50)),
        (DType::IQ1_M, 256, Some(56)),
        (DType::IQ4_NL, 32, Some(18)),
        (DType::IQ4_NL, 64, Some(36)),
        (DType::IQ4_NL, 33, None),
        (DType::IQ4_XS, 256, Some(136)),
        (DType::IQ3_M_BLOCK, 256, Some(111)),
        (DType::IQ3_M_BLOCK, 512, Some(222)),
        (DType::IQ3_M_BLOCK, 100, None),
    ];
    for (dt, n, expected) in cases {
        assert_eq!(dt.byte_len_for_elements(n), expected, "{dt:?} x {n}");
    }
}

#[test]
fn has_known_byte_layout_check() {
    let cases = [
        (DType::F32, true),
        (DType::Q8_0, true),
        (DType::Q4_K, true),
        (DType::IQ3_S, true),
        (DType::IQ2_XXS, true),
        (DType::IQ4_NL, true),
        (DType::IQ3_M_BLOCK, true),
        (DType::Other(31), false),
        (DType::Other(99), false),
    ];
    for (dt, expected) in cases {
        assert_eq!(dt.has_known_byte_layout(), expected, "{dt:?}");
    }
}

#[test]
fn ggml_type_constants_match_values() {
    let cases = [
        (GGML_TYPE_F32, 0),
        (GGML_TYPE_F16, 1),
        (GGML_TYPE_Q4_0, 2),
        (GGML_TYPE_Q4_1, 3),
        (GGML_TYPE_Q5_0, 6),
        (GGML_TYPE_Q5_1, 7),
        (GGML_TYPE_Q8_0, 8),
        (GGML_TYPE_Q8_1, 9),
        (GGML_TYPE_Q2_K, 10),
        (GGML_TYPE_Q3_K, 11),
        (GGML_TYPE_Q4_K, 12),
        (GGML_TYPE_Q5_K, 13),
        (GGML_TYPE_Q6_K, 14),
        (GGML_TYPE_Q8_K, 15),
        (GGML_TYPE_IQ2_XXS, 16),
        (GGML_TYPE_IQ2_XS, 17),
        (GGML_TYPE_IQ3_XXS, 18),
        (GGML_TYPE_IQ1_S, 19),
        (GGML_TYPE_IQ4_NL, 20),
        (GGML_TYPE_IQ3_S, 21),
        (GGML_TYPE_IQ2_S, 22),
        (GGML_TYPE_IQ4_XS, 23),
        (GGML_TYPE_I8, 24),
        (GGML_TYPE_I16, 25),
        (GGML_TYPE_I32, 26),
        (GGML_TYPE_I64, 27),
        (GGML_TYPE_F64, 28),
        (GGML_TYPE_IQ1_M, 29),
        (GGML_TYPE_BF16, 30),
        (GGML_TYPE_Q4_0_4_4, 31),
        (GGML_TYPE_IQ3_M_BLOCK, 0x4949_334D),
    ];
    for (constant, expected) in cases {
        assert_eq!(constant, expected, "constant value mismatch");
    }
}

#[test]
fn wire_type_31_is_q4_0_4_4_not_iq3_m() {
    let dt = DType::from_ggml_type(31);
    let label = ggml_type_label(31);
    assert!(
        GGML_TYPE_Q4_0_4_4 == 31
            && label == "Q4_0_4_4"
            && label != "IQ3_M"
            && dt == DType::Other(31)
            && dt.byte_len_for_elements(256).is_none()
            && !dt.has_known_byte_layout(),
        "wire 31 semantics: label={label}, dt={dt:?}"
    );
    let iq3 = DType::from_ggml_type(GGML_TYPE_IQ3_M_BLOCK);
    assert!(
        iq3 == DType::IQ3_M_BLOCK
            && ggml_type_label(GGML_TYPE_IQ3_M_BLOCK) == "IQ3_M_BLOCK"
            && iq3.byte_len_for_elements(256) == Some(111)
            && iq3.has_known_byte_layout(),
        "IQ3_M_BLOCK must stay distinct from wire 31: {iq3:?}"
    );
}

#[test]
fn f16_to_f32_known_values() {
    let finite = [(0x0000, 0.0), (0x3C00, 1.0), (0xBC00, -1.0)];
    for (bits, expected) in finite {
        assert_eq!(f16_bits_to_f32(bits), expected, "bits {bits:#06X}");
    }

    for (bits, positive) in [(0x7C00, true), (0xFC00, false)] {
        let v = f16_bits_to_f32(bits);
        assert!(
            v.is_infinite() && v.is_sign_positive() == positive,
            "bits {bits:#06X}: {v}"
        );
    }
}

#[test]
fn f16_subnormals_keep_their_value() {
    assert_eq!(f16_bits_to_f32(0x0001), 2.0f32.powi(-24));
    assert_eq!(f16_bits_to_f32(0x03ff), 1023.0 * 2.0f32.powi(-24));
    assert_eq!(f16_bits_to_f32(0x8001), -(2.0f32.powi(-24)));
    assert_eq!(f16_bits_to_f32(0x7bff), 65504.0);
    assert_eq!(f16_bits_to_f32(0x8000).to_bits(), 0x8000_0000);
    assert!(f16_bits_to_f32(0x7e00).is_nan());
}

fn half_tensor(dtype: DType, n_elements: usize, byte_len: usize) -> Tensor {
    Tensor {
        name: "t".into(),
        dims: vec![n_elements],
        dtype,
        ggml_type: dtype.ggml_type(),
        n_elements,
        byte_len,
        relative_offset: 0,
        absolute_offset: 0,
    }
}

#[test]
fn dense_values_are_read_little_endian() {
    let t = half_tensor(DType::F16, 2, 4);
    let bytes = [0x00, 0x3c, 0x00, 0xc0];
    assert_eq!(t.read_u16_values(&bytes).unwrap(), vec![0x3c00, 0xc000]);
    let values: Vec<f32> = t
        .dequantize_f16_bits(&bytes)
        .unwrap()
        .into_iter()
        .map(f32::from_bits)
        .collect();
    assert_eq!(values, vec![1.0, -2.0]);
    let f = half_tensor(DType::F32, 1, 4);
    assert_eq!(f.read_f32_bits(&1.5f32.to_le_bytes()).unwrap(), vec![1.5f32.to_bits()]);
    assert!(f.read_f32_bits(&[0u8; 3]).is_err());
    assert!(f.read_u16_values(&[0u8; 4]).is_err());
}

#[test]
fn the_type_is_tested_before_the_length() {
    let packed = half_tensor(DType::Q8_0, usize::MAX, 4);
    let message = packed.read_f32_bits(&[]).unwrap_err().to_string();
    assert!(message.contains("read_f32_values called on dtype Q8_0"), "{message}");
    assert!(packed.read_u16_values(&[]).is_err());
    assert!(packed.dequantize_f16_bits(&[]).is_err());
}

#[test]
fn element_sizes_of_dense_types() {
    assert_eq!(DType::F32.element_size(), Some(4));
    assert_eq!(DType::F16.element_size(), Some(2));
    assert_eq!(DType::Q8_0.element_size(), None);
    assert!(DType::BF16.is_float());
    assert!(!DType::F64.is_float());
    assert_eq!(DType::Q8_0.quant_block_size(), Some(32));
    assert_eq!(DType::F32.quant_block_size(), None);
    assert_eq!(DType::Other(31).debug_name(), "Other(31)");
}
