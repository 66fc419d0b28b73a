//! What the packed formats store, bit by bit.
//!
//! The laws speak of the packed bytes with the shifts and masks of the formats, at any
//! block of packed data of any shape.

use crate::gguf::dequant;
use crate::gguf::dequant::PackedFormat;
use crate::gguf::tensor::DType;
use vstd::prelude::*;

verus! {

proof fn lemma_bits(b: u8)
    ensures
        dequant::bit_at(b as nat, 0) == (b >> 0u8) & 1,
        dequant::bit_at(b as nat, 1) == (b >> 1u8) & 1,
        dequant::bit_at(b as nat, 2) == (b >> 2u8) & 1,
        dequant::bit_at(b as nat, 3) == (b >> 3u8) & 1,
        dequant::bit_at(b as nat, 4) == (b >> 4u8) & 1,
        dequant::bit_at(b as nat, 5) == (b >> 5u8) & 1,
        dequant::bit_at(b as nat, 6) == (b >> 6u8) & 1,
        dequant::bit_at(b as nat, 7) == (b >> 7u8) & 1,
{
    reveal_with_fuel(dequant::bit_at, 9);
    assert((b >> 0u8) & 1 == b % 2 && (b >> 1u8) & 1 == (b / 2) % 2 && (b >> 2u8) & 1 == (b / 4)
        % 2 && (b >> 3u8) & 1 == (b / 8) % 2 && (b >> 4u8) & 1 == (b / 16) % 2 && (b >> 5u8) & 1
        == (b / 32) % 2 && (b >> 6u8) & 1 == (b / 64) % 2 && (b >> 7u8) & 1 == (b / 128) % 2)
        by (bit_vector);
}

proof fn lemma_pairs(b: u8)
    ensures
        dequant::pair_at(b as nat, 0) == (b >> 0u8) & 3,
        dequant::pair_at(b as nat, 1) == (b >> 2u8) & 3,
        dequant::pair_at(b as nat, 2) == (b >> 4u8) & 3,
        dequant::pair_at(b as nat, 3) == (b >> 6u8) & 3,
{
    reveal_with_fuel(dequant::pair_at, 5);
    assert((b >> 0u8) & 3 == b % 4 && (b >> 2u8) & 3 == (b / 4) % 4 && (b >> 4u8) & 3 == (b / 16)
        % 4 && (b >> 6u8) & 3 == (b / 64) % 4) by (bit_vector);
}

proof fn lemma_fields(b: u8)
    ensures
        b & 0x0F == b % 16,
        b >> 4u8 == b / 16,
        b & 0x3F == b % 64,
        b >> 6u8 == b / 64,
{
    assert(b & 0x0F == b % 16 && b >> 4u8 == b / 16 && b & 0x3F == b % 64 && b >> 6u8 == b / 64)
        by (bit_vector);
}

/// The bytes are whole blocks, and a value comes out for each place of each block.
pub proof fn law_blocks_fill_the_values(
    format: PackedFormat,
    packed: Seq<u8>,
    dims: Seq<usize>,
)
    requires
        dequant::packed_values(format, packed, dims) is Ok,
    ensures
        ({
            let values = dequant::packed_values(format, packed, dims)->Ok_0;
            &&& format == PackedFormat::Q8_0 ==> packed.len() * 32 == values.len() * 34
            &&& format == PackedFormat::Q5_K ==> packed.len() * 256 == values.len() * 176
            &&& format == PackedFormat::Q6_K ==> packed.len() * 256 == values.len() * 210
            &&& format == PackedFormat::IQ3_M ==> packed.len() * 256 == values.len() * 111
        }),
{
    let (width, row_bytes, rows) = dequant::packed_shape(format, packed.len(), dims)->Ok_0;
    dequant::law_decoding_fills_the_shape(format, packed, dims);
    let block = dequant::format_block(format);
    let bytes = dequant::format_bytes(format);
    let m = width / block;
    assert((rows * (m * bytes)) * block == (width * rows) * bytes) by (nonlinear_arith)
        requires
            m == width / block,
            width % block == 0,
            block > 0,
    {
        assert(width == m * block);
        assert((rows * (m * bytes)) * block == ((m * block) * rows) * bytes);
    }
}

/// A Q8_0 block of 34 bytes: a half-precision scale, then 32 signed bytes.
#[verifier::rlimit(40)]
pub proof fn law_q8_0_values(packed: Seq<u8>, dims: Seq<usize>, k: int, i: int)
    requires
        dequant::packed_values(PackedFormat::Q8_0, packed, dims) is Ok,
        0 <= k,
        34 * k + 34 <= packed.len(),
        0 <= i < 32,
    ensures
        ({
            let v = dequant::packed_values(PackedFormat::Q8_0, packed, dims)->Ok_0[32 * k + i];
            let at = 34 * k;
            let q = packed[at + 2 + i];
            &&& v.scale == packed[at] + 256 * packed[at + 1]
            &&& v.factor == 1
            &&& v.quant == q - (if q >= 128 {
                256int
            } else {
                0
            })
            &&& v.min_scale == 0
            &&& v.min == 0
        }),
{
    dequant::lemma_value_of_block(PackedFormat::Q8_0, packed, dims, k, i);
    let block = packed.subrange(34 * k, 34 * k + 34);
    assert(block[0] == packed[34 * k] && block[1] == packed[34 * k + 1] && block[2 + i]
        == packed[34 * k + 2 + i]);
}

/// A Q5_K block of 176 bytes: two half-precision scales, eight 6-bit scales and minima in
/// 12 bytes, 32 bytes of fifth bits, 128 bytes of nibbles. The 256 values are eight groups of
/// 32; group `g` takes the nibbles of 32 bytes, low before high, bit `g` of the fifth bits,
/// and scale and minimum `g`.
#[verifier::rlimit(40)]
pub proof fn law_q5_k_values(packed: Seq<u8>, dims: Seq<usize>, k: int, g: int, l: int)
    requires
        dequant::packed_values(PackedFormat::Q5_K, packed, dims) is Ok,
        0 <= k,
        176 * k + 176 <= packed.len(),
        0 <= g < 8,
        0 <= l < 32,
    ensures
        ({
            let v = dequant::packed_values(PackedFormat::Q5_K, packed, dims)->Ok_0[256 * k + 32 * g
                + l];
            let at = 176 * k;
            let ql = packed[at + 48 + 32 * (g / 2) + l];
            let qh = packed[at + 16 + l];
            let s = packed.subrange(at + 4, at + 16);
            &&& v.scale == packed[at] + 256 * packed[at + 1]
            &&& v.min_scale == packed[at + 2] + 256 * packed[at + 3]
            &&& v.quant == (if g % 2 == 0 {
                ql & 0x0F
            } else {
                ql >> 4u8
            }) + 16 * ((qh >> g as u8) & 1)
            &&& g < 4 ==> v.factor == s[g] & 0x3F && v.min == s[g + 4] & 0x3F
            &&& g >= 4 ==> v.factor == (s[g + 4] & 0x0F) + 16 * (s[g - 4] >> 6u8) && v.min == (s[g
                + 4] >> 4u8) + 16 * (s[g] >> 6u8)
        }),
{
    let i = 32 * g + l;
    dequant::lemma_value_of_block(PackedFormat::Q5_K, packed, dims, k, i);
    let at = 176 * k;
    let block = packed.subrange(at, at + 176);
    let s = packed.subrange(at + 4, at + 16);
    assert(i / 32 == g && i % 32 == l);
    let ql = packed[at + 48 + 32 * (g / 2) + l];
    let qh = packed[at + 16 + l];
    assert(block[48 + 32 * (g / 2) + l] == ql);
    assert(block[16 + l] == qh);
    assert(block[0] == packed[at] && block[1] == packed[at + 1] && block[2] == packed[at + 2]
        && block[3] == packed[at + 3]);
    assert forall|j: int| 0 <= j < 12 implies #[trigger] s[j] == block[4 + j] by {}
    lemma_fields(ql);
    lemma_bits(qh);
    if g < 4 {
        lemma_fields(s[g]);
        lemma_fields(s[g + 4]);
        assert(block[4 + g] == s[g] && block[8 + g] == s[g + 4]);
    } else {
        lemma_fields(s[g + 4]);
        lemma_fields(s[g - 4]);
        lemma_fields(s[g]);
        assert(block[8 + g] == s[g + 4] && block[g] == s[g - 4] && block[4 + g] == s[g]);
    }
    assert(g == 0 || g == 1 || g == 2 || g == 3 || g == 4 || g == 5 || g == 6 || g == 7);
}

/// A Q6_K block of 210 bytes: 128 bytes of low nibbles, 64 bytes of high pairs, 16 signed
/// scales, a half-precision scale. The 256 values are two passes of four groups of 32; group
/// `g` takes low nibbles for the first two groups and high ones for the last two, and pair
/// `g` of the high bits; a scale goes to 16 values.
#[verifier::rlimit(40)]
pub proof fn law_q6_k_values(packed: Seq<u8>, dims: Seq<usize>, k: int, p: int, g: int, l: int)
    requires
        dequant::packed_values(PackedFormat::Q6_K, packed, dims) is Ok,
        0 <= k,
        210 * k + 210 <= packed.len(),
        0 <= p < 2,
        0 <= g < 4,
        0 <= l < 32,
    ensures
        ({
            let v = dequant::packed_values(PackedFormat::Q6_K, packed, dims)->Ok_0[256 * k + 128 * p
                + 32 * g + l];
            let at = 210 * k;
            let ql = packed[at + 64 * p + 32 * (g % 2) + l];
            let qh = packed[at + 128 + 32 * p + l];
            let sc = packed[at + 192 + 8 * p + 2 * g + l / 16];
            &&& v.scale == packed[at + 208] + 256 * packed[at + 209]
            &&& v.quant == (if g < 2 {
                ql & 0x0F
            } else {
                ql >> 4u8
            }) + 16 * ((qh >> (2 * g) as u8) & 3) - 32
            &&& v.factor == sc - (if sc >= 128 {
                256int
            } else {
                0
            })
            &&& v.min_scale == 0
            &&& v.min == 0
        }),
{
    let i = 128 * p + 32 * g + l;
    dequant::lemma_value_of_block(PackedFormat::Q6_K, packed, dims, k, i);
    let at = 210 * k;
    let block = packed.subrange(at, at + 210);
    assert(i / 128 == p && (i % 128) / 32 == g && i % 32 == l);
    let ql = packed[at + 64 * p + 32 * (g % 2) + l];
    let qh = packed[at + 128 + 32 * p + l];
    assert(block[64 * p + 32 * (g % 2) + l] == ql);
    assert(block[128 + 32 * p + l] == qh);
    assert(block[192 + 8 * p + l / 16 + 2 * g] == packed[at + 192 + 8 * p + 2 * g + l / 16]);
    assert(block[208] == packed[at + 208] && block[209] == packed[at + 209]);
    lemma_fields(ql);
    lemma_pairs(qh);
    assert(g == 0 || g == 1 || g == 2 || g == 3);
}

proof fn lemma_iq3_m_quant(block: Seq<u8>, i: int)
    requires
        block.len() == 111,
        0 <= i < 256,
    ensures
        dequant::iq3_m_value(block, i).quant == ((block[34 + i / 4] >> (2 * (i % 4)) as u8) & 3) + 4
            * ((block[2 + i / 8] >> (i % 8) as u8) & 1) - 4,
{
    let low = block[34 + i / 4];
    let high = block[2 + i / 8];
    lemma_pairs(low);
    lemma_bits(high);
    let m4 = i % 4;
    let m8 = i % 8;
    assert(dequant::pair_at(low as nat, m4) == (low >> (2 * m4) as u8) & 3) by {
        assert(m4 == 0 || m4 == 1 || m4 == 2 || m4 == 3);
    }
    assert(dequant::bit_at(high as nat, m8) == (high >> m8 as u8) & 1) by {
        assert(m8 == 0 || m8 == 1 || m8 == 2 || m8 == 3 || m8 == 4 || m8 == 5 || m8 == 6 || m8
            == 7);
    }
    assert((low >> (2 * m4) as u8) & 3 <= 3) by {
        let x = low >> (2 * m4) as u8;
        assert(x & 3 <= 3) by (bit_vector);
    }
    assert((high >> m8 as u8) & 1 <= 1) by {
        let x = high >> m8 as u8;
        assert(x & 1 <= 1) by (bit_vector);
    }
}

proof fn lemma_six_bit_fields(x: int, y: int, z: int)
    requires
        0 <= x < 256,
        0 <= y < 256,
        0 <= z < 256,
    ensures
        ({
            let word = x + 0x100 * y + 0x1_0000 * z;
            &&& word % 0x40 == x % 64
            &&& (word / 0x40) % 0x40 == x / 64 + 4 * (y % 16)
            &&& (word / 0x1000) % 0x40 == y / 16 + 16 * (z % 4)
            &&& (word / 0x4_0000) % 0x40 == z / 4
        }),
{
    let word = x + 0x100 * y + 0x1_0000 * z;
    let w1 = x / 64 + 4 * y + 0x400 * z;
    let w2 = y / 16 + 16 * z;
    let w3 = z / 4;
    vstd::arithmetic::div_mod::lemma_fundamental_div_mod_converse(word, 0x40, w1, x % 64);
    vstd::arithmetic::div_mod::lemma_fundamental_div_mod_converse(
        w1,
        0x40,
        w2,
        x / 64 + 4 * (y % 16),
    );
    vstd::arithmetic::div_mod::lemma_fundamental_div_mod_converse(
        word,
        0x1000,
        w2,
        x + 0x100 * (y % 16),
    );
    vstd::arithmetic::div_mod::lemma_fundamental_div_mod_converse(
        w2,
        0x40,
        w3,
        y / 16 + 16 * (z % 4),
    );
    vstd::arithmetic::div_mod::lemma_fundamental_div_mod_converse(
        word,
        0x4_0000,
        w3,
        x + 0x100 * y + 0x1_0000 * (z % 4),
    );
    vstd::arithmetic::div_mod::lemma_fundamental_div_mod_converse(w3, 0x40, 0, w3);
}

proof fn lemma_iq3_m_factor(block: Seq<u8>, j: int)
    requires
        block.len() == 111,
        0 <= j < 16,
    ensures
        ({
            let b = 98 + 3 * (j / 4);
            let word = block[b] + 0x100 * block[b + 1] + 0x1_0000 * block[b + 2];
            let field = (if j % 4 == 0 {
                word
            } else if j % 4 == 1 {
                word / 0x40
            } else if j % 4 == 2 {
                word / 0x1000
            } else {
                word / 0x4_0000
            }) % 0x40;
            dequant::iq3_m_scale(block, j) == field + (if j < 4 {
                64 * ((block[110] >> (2 * j) as u8) & 3)
            } else {
                0
            })
        }),
        0 <= dequant::iq3_m_scale(block, j) < 256,
{
    let b = 98 + 3 * (j / 4);
    lemma_six_bit_fields(block[b] as int, block[b + 1] as int, block[b + 2] as int);
    if j < 4 {
        let h = block[110];
        lemma_pairs(h);
        let x = h >> (2 * j) as u8;
        assert(x & 3 <= 3) by (bit_vector);
        assert(j == 0 || j == 1 || j == 2 || j == 3);
    }
}

/// An IQ3_M block of 111 bytes: a half-precision scale, 32 bytes of third bits, 64 bytes of
/// low pairs, sixteen 6-bit scales in 12 bytes, a byte with the high pairs of the first four
/// scales. Values are stored from the lowest bits up; a scale goes to 16 values.
#[verifier::rlimit(40)]
pub proof fn law_iq3_m_values(packed: Seq<u8>, dims: Seq<usize>, k: int, j: int, t: int)
    requires
        dequant::packed_values(PackedFormat::IQ3_M, packed, dims) is Ok,
        0 <= k,
        111 * k + 111 <= packed.len(),
        0 <= j < 16,
        0 <= t < 16,
    ensures
        ({
            let v = dequant::packed_values(PackedFormat::IQ3_M, packed, dims)->Ok_0[256 * k + 16 * j
                + t];
            let at = 111 * k;
            let low = packed[at + 34 + 4 * j + t / 4];
            let high = packed[at + 2 + 2 * j + t / 8];
            &&& v.scale == packed[at] + 256 * packed[at + 1]
            &&& v.quant == ((low >> (2 * (t % 4)) as u8) & 3) + 4 * ((high >> (t % 8) as u8) & 1)
                - 4
            &&& v.min_scale == 0
            &&& v.min == 0
        }),
        ({
            let v = dequant::packed_values(PackedFormat::IQ3_M, packed, dims)->Ok_0[256 * k + 16 * j
                + t];
            let at = 111 * k;
            let b = at + 98 + 3 * (j / 4);
            let word = packed[b] + 0x100 * packed[b + 1] + 0x1_0000 * packed[b + 2];
            let field = (if j % 4 == 0 {
                word
            } else if j % 4 == 1 {
                word / 0x40
            } else if j % 4 == 2 {
                word / 0x1000
            } else {
                word / 0x4_0000
            }) % 0x40;
            v.factor == field + (if j < 4 {
                64 * ((packed[at + 110] >> (2 * j) as u8) & 3)
            } else {
                0
            })
        }),
{
    let i = 16 * j + t;
    dequant::lemma_value_of_block(PackedFormat::IQ3_M, packed, dims, k, i);
    let at = 111 * k;
    let block = packed.subrange(at, at + 111);
    let v = dequant::packed_values(PackedFormat::IQ3_M, packed, dims)->Ok_0[256 * k + 16 * j + t];
    assert(v == dequant::iq3_m_value(block, i));
    lemma_iq3_m_quant(block, i);
    lemma_iq3_m_factor(block, j);
    assert(i / 16 == j && i / 4 == 4 * j + t / 4 && i / 8 == 2 * j + t / 8 && i % 4 == t % 4 && i
        % 8 == t % 8);
    lemma_same_bytes(packed, at, block, j, t);
}

proof fn lemma_same_bytes(packed: Seq<u8>, at: int, block: Seq<u8>, j: int, t: int)
    requires
        0 <= at,
        at + 111 <= packed.len(),
        block == packed.subrange(at, at + 111),
        0 <= j < 16,
        0 <= t < 16,
    ensures
        block[0] == packed[at],
        block[1] == packed[at + 1],
        block[34 + (4 * j + t / 4)] == packed[at + 34 + 4 * j + t / 4],
        block[2 + (2 * j + t / 8)] == packed[at + 2 + 2 * j + t / 8],
        block[98 + 3 * (j / 4)] == packed[at + 98 + 3 * (j / 4)],
        block[98 + 3 * (j / 4) + 1] == packed[at + 98 + 3 * (j / 4) + 1],
        block[98 + 3 * (j / 4) + 2] == packed[at + 98 + 3 * (j / 4) + 2],
        block[110] == packed[at + 110],
{
}

/// Which format the decoder takes for a type of tensor and for a wire code, and how many
/// bytes it takes for a row.
pub proof fn law_types_have_their_formats(code: u32, width: nat)
    ensures
        dequant::format_of_dtype(DType::Q8_0) == Some(PackedFormat::Q8_0),
        dequant::format_of_dtype(DType::Q5_K) == Some(PackedFormat::Q5_K),
        dequant::format_of_dtype(DType::Q6_K) == Some(PackedFormat::Q6_K),
        dequant::format_of_dtype(DType::IQ3_M_BLOCK) == Some(PackedFormat::IQ3_M),
        dequant::format_of_type(code) is Some <==> code == 8 || code == 13 || code == 14 || code
            == 0x4949_334D,
        code == 8 && width > 0 && width % 32 == 0 && width / 32 * 34 <= usize::MAX
            ==> dequant::row_size(dequant::format_of_type(code)->Some_0, width) == Ok::<
            nat,
            crate::error::ErrorView,
        >(width / 32 * 34),
        code == 13 && width > 0 && width % 256 == 0 && width / 256 * 176 <= usize::MAX
            ==> dequant::row_size(dequant::format_of_type(code)->Some_0, width) == Ok::<
            nat,
            crate::error::ErrorView,
        >(width / 256 * 176),
        code == 14 && width > 0 && width % 256 == 0 && width / 256 * 210 <= usize::MAX
            ==> dequant::row_size(dequant::format_of_type(code)->Some_0, width) == Ok::<
            nat,
            crate::error::ErrorView,
        >(width / 256 * 210),
        code == 0x4949_334D && width > 0 && width % 256 == 0 && width / 256 * 111 <= usize::MAX
            ==> dequant::row_size(dequant::format_of_type(code)->Some_0, width) == Ok::<
            nat,
            crate::error::ErrorView,
        >(width / 256 * 111),
        code == 8 && (width == 0 || width % 32 != 0) ==> dequant::row_size(
            dequant::format_of_type(code)->Some_0,
            width,
        ) is Err,
        (code == 13 || code == 14 || code == 0x4949_334D) && (width == 0 || width % 256 != 0)
            ==> dequant::row_size(dequant::format_of_type(code)->Some_0, width) is Err,
{
}

/// Data in whole rows is decoded, with the block and byte counts of the formats.
pub proof fn law_whole_rows_are_decoded(format: PackedFormat, packed: Seq<u8>, dims: Seq<usize>)
    requires
        dims.len() > 0,
        packed.len() <= usize::MAX,
        dequant::size_product(dims) is Some,
        dequant::size_product(dims)->Some_0 > 0,
    ensures
        ({
            let n = dequant::size_product(dims)->Some_0;
            let w = dims[0];
            let decoded = dequant::packed_values(format, packed, dims) is Ok;
            &&& format == PackedFormat::Q8_0 ==> (decoded <==> w % 32 == 0 && packed.len() * 32 == n
                * 34)
            &&& format == PackedFormat::Q5_K ==> (decoded <==> w % 256 == 0 && packed.len() * 256
                == n * 176)
            &&& format == PackedFormat::Q6_K ==> (decoded <==> w % 256 == 0 && packed.len() * 256
                == n * 210)
            &&& format == PackedFormat::IQ3_M ==> (decoded <==> w % 256 == 0 && packed.len() * 256
                == n * 111)
        }),
{
    let n = dequant::size_product(dims)->Some_0;
    let w = dims[0] as nat;
    let block = dequant::format_block(format);
    let bytes = dequant::format_bytes(format);
    dequant::lemma_size_product_positive(dims);
    dequant::lemma_product_behind_front(dims);
    let rows = dequant::size_product(dims.skip(1))->Some_0;
    assert(n == w * rows);
    assert(rows > 0) by (nonlinear_arith)
        requires
            n == w * rows,
            n > 0,
    ;
    dequant::law_decoding_succeeds_on_whole_rows(format, packed, dims);
    if w % block == 0 {
        let m = w / block;
        assert((rows * (m * bytes)) * block == n * bytes) by (nonlinear_arith)
            requires
                n == w * rows,
                w % block == 0,
                m == w / block,
                block > 0,
        {
            assert(w == m * block);
            assert((rows * (m * bytes)) * block == ((m * block) * rows) * bytes);
        }
        let need = rows * (m * bytes);
        assert(packed.len() == need <==> packed.len() * block == need * block) by (nonlinear_arith)
            requires
                block > 0,
        ;
    }
}

} // verus!
