//! GGUF files as they are written, and what parsing makes of them.
//!
//! A file is described by its metadata pairs and its tensors. The bytes of the description
//! are written down from the wire format alone: little-endian numbers, texts with their
//! length in front, values behind the codes of their types.

use crate::error::ErrorView;
use crate::gguf::cursor::{CursorView, ScalarView};
use crate::gguf::dequant;
use crate::gguf::layout;
use crate::gguf::layout::{KvState, LayoutView};
use crate::gguf::le;
use crate::gguf::limits;
use crate::gguf::limits::ParseLimits;
use crate::gguf::tensor;
use crate::gguf::tensor::TensorView;
use crate::text;
use vstd::prelude::*;

verus! {

// ---------------------------------------------------------------------------
// The wire format
// ---------------------------------------------------------------------------
/// The lowest `k` bytes of a number, least significant first.
pub open spec fn number_bytes(n: nat, k: nat) -> Seq<u8>
    decreases k,
{
    if k == 0 {
        Seq::empty()
    } else {
        seq![(n % 256) as u8] + number_bytes(n / 256, (k - 1) as nat)
    }
}

/// A text: the number of its bytes, then its bytes.
pub open spec fn text_bytes(s: Seq<char>) -> Seq<u8> {
    let body = vstd::utf8::encode_utf8(s);
    number_bytes(body.len(), 8) + body
}

/// A metadata value.
pub enum FileValue {
    U8(u8),
    I8(i8),
    U16(u16),
    I16(i16),
    U32(u32),
    I32(i32),
    /// The bits of a 32-bit float.
    F32(u32),
    Bool(bool),
    Text(Seq<char>),
    /// The type of the elements, and the elements.
    Array(u32, Seq<FileValue>),
    U64(u64),
    I64(i64),
    /// The bits of a 64-bit float.
    F64(u64),
}

/// The code of a value's type.
pub open spec fn value_code(v: FileValue) -> u32 {
    match v {
        FileValue::U8(_) => 0,
        FileValue::I8(_) => 1,
        FileValue::U16(_) => 2,
        FileValue::I16(_) => 3,
        FileValue::U32(_) => 4,
        FileValue::I32(_) => 5,
        FileValue::F32(_) => 6,
        FileValue::Bool(_) => 7,
        FileValue::Text(_) => 8,
        FileValue::Array(_, _) => 9,
        FileValue::U64(_) => 10,
        FileValue::I64(_) => 11,
        FileValue::F64(_) => 12,
    }
}

/// A number in two's complement of the given range.
pub open spec fn wrapped(n: int, range: int) -> nat {
    (if n < 0 {
        n + range
    } else {
        n
    }) as nat
}

/// The bytes of a value, behind the code of its type.
pub open spec fn value_bytes(v: FileValue) -> Seq<u8>
    decreases v, 0nat,
{
    match v {
        FileValue::U8(n) => number_bytes(n as nat, 1),
        FileValue::I8(n) => number_bytes(wrapped(n as int, 0x100), 1),
        FileValue::U16(n) => number_bytes(n as nat, 2),
        FileValue::I16(n) => number_bytes(wrapped(n as int, 0x1_0000), 2),
        FileValue::U32(n) => number_bytes(n as nat, 4),
        FileValue::I32(n) => number_bytes(wrapped(n as int, 0x1_0000_0000), 4),
        FileValue::F32(bits) => number_bytes(bits as nat, 4),
        FileValue::Bool(b) => number_bytes(
            if b {
                1
            } else {
                0
            },
            1,
        ),
        FileValue::Text(s) => text_bytes(s),
        FileValue::Array(element, items) => number_bytes(element as nat, 4) + number_bytes(
            items.len(),
            8,
        ) + items_bytes(items, items.len()),
        FileValue::U64(n) => number_bytes(n as nat, 8),
        FileValue::I64(n) => number_bytes(wrapped(n as int, 0x1_0000_0000_0000_0000), 8),
        FileValue::F64(bits) => number_bytes(bits as nat, 8),
    }
}

/// The bytes of the first `n` elements of an array.
pub open spec fn items_bytes(items: Seq<FileValue>, n: nat) -> Seq<u8>
    decreases items, n,
{
    if n == 0 || n > items.len() {
        Seq::empty()
    } else {
        items_bytes(items, (n - 1) as nat) + value_bytes(items[n - 1])
    }
}

/// The elements of every array have the type that the array states.
pub open spec fn is_uniform(v: FileValue) -> bool
    decreases v,
{
    match v {
        FileValue::Array(element, items) => forall|i: int|
            0 <= i < items.len() ==> value_code(#[trigger] items[i]) == element && is_uniform(
                items[i],
            ),
        _ => true,
    }
}

/// A metadata pair: the key, the code of the value's type, the value.
pub open spec fn pair_bytes(key: Seq<char>, v: FileValue) -> Seq<u8> {
    text_bytes(key) + number_bytes(value_code(v) as nat, 4) + value_bytes(v)
}

/// The first `n` metadata pairs.
pub open spec fn pairs_bytes(pairs: Seq<(Seq<char>, FileValue)>, n: nat) -> Seq<u8>
    decreases n,
{
    if n == 0 || n > pairs.len() {
        Seq::empty()
    } else {
        pairs_bytes(pairs, (n - 1) as nat) + pair_bytes(pairs[n - 1].0, pairs[n - 1].1)
    }
}

/// A tensor of the directory.
pub struct FileTensor {
    pub name: Seq<char>,
    pub dims: Seq<usize>,
    pub code: u32,
    pub offset: usize,
}

/// The first `n` dimensions.
pub open spec fn dims_bytes(dims: Seq<usize>, n: nat) -> Seq<u8>
    decreases n,
{
    if n == 0 || n > dims.len() {
        Seq::empty()
    } else {
        dims_bytes(dims, (n - 1) as nat) + number_bytes(dims[n - 1] as nat, 8)
    }
}

/// A directory entry: name, rank, dimensions, wire code, offset in the data section.
pub open spec fn entry_bytes(t: FileTensor) -> Seq<u8> {
    text_bytes(t.name) + number_bytes(t.dims.len(), 4) + dims_bytes(t.dims, t.dims.len())
        + number_bytes(t.code as nat, 4) + number_bytes(t.offset as nat, 8)
}

/// The first `n` directory entries.
pub open spec fn entries_bytes(tensors: Seq<FileTensor>, n: nat) -> Seq<u8>
    decreases n,
{
    if n == 0 || n > tensors.len() {
        Seq::empty()
    } else {
        entries_bytes(tensors, (n - 1) as nat) + entry_bytes(tensors[n - 1])
    }
}

/// What stands before the data section: `GGUF`, version 3, the number of tensors, the
/// number of pairs, the pairs, the directory.
pub open spec fn head_bytes(
    pairs: Seq<(Seq<char>, FileValue)>,
    tensors: Seq<FileTensor>,
) -> Seq<u8> {
    seq![0x47u8, 0x47u8, 0x55u8, 0x46u8] + number_bytes(3, 4) + number_bytes(tensors.len(), 8)
        + number_bytes(pairs.len(), 8) + pairs_bytes(pairs, pairs.len()) + entries_bytes(
        tensors,
        tensors.len(),
    )
}

// ---------------------------------------------------------------------------
// Reading
// ---------------------------------------------------------------------------
/// No budget is set.
pub open spec fn unlimited(limits: ParseLimits) -> bool {
    &&& limits.max_kv_count == u64::MAX
    &&& limits.max_tensor_count == u64::MAX
    &&& limits.max_string_bytes == u64::MAX
    &&& limits.max_array_work_items == u64::MAX
    &&& limits.max_tensor_rank == u64::MAX
    &&& limits.max_metadata_bytes == u64::MAX
}

spec fn stands(bytes: Seq<u8>, i: int, part: Seq<u8>) -> bool {
    0 <= i && i + part.len() <= bytes.len() && bytes.subrange(i, i + part.len()) == part
}

spec fn ready(c: CursorView) -> bool {
    unlimited(c.limits) && c.well_formed()
}

proof fn lemma_split(bytes: Seq<u8>, i: int, a: Seq<u8>, b: Seq<u8>)
    requires
        stands(bytes, i, a + b),
    ensures
        stands(bytes, i, a),
        stands(bytes, i + a.len(), b),
{
    let whole = bytes.subrange(i, i + (a + b).len());
    assert(bytes.subrange(i, i + a.len()) =~= whole.subrange(0, a.len() as int));
    assert(whole.subrange(0, a.len() as int) =~= a);
    assert(bytes.subrange(i + a.len(), i + a.len() + b.len()) =~= whole.subrange(
        a.len() as int,
        (a + b).len() as int,
    ));
    assert(whole.subrange(a.len() as int, (a + b).len() as int) =~= b);
}

spec fn range_of(k: nat) -> nat
    decreases k,
{
    if k == 0 {
        1
    } else {
        256 * range_of((k - 1) as nat)
    }
}

proof fn lemma_ranges()
    ensures
        range_of(1) == 0x100,
        range_of(2) == 0x1_0000,
        range_of(4) == 0x1_0000_0000,
        range_of(8) == 0x1_0000_0000_0000_0000,
{
    reveal_with_fuel(range_of, 9);
}

proof fn lemma_number_bytes(n: nat, k: nat)
    requires
        n < range_of(k),
    ensures
        number_bytes(n, k).len() == k,
        le::le_value(number_bytes(n, k)) == n,
    decreases k,
{
    if k > 0 {
        lemma_number_bytes(n / 256, (k - 1) as nat);
        let rest = number_bytes(n / 256, (k - 1) as nat);
        let all = number_bytes(n, k);
        assert(all.skip(1) =~= rest);
        assert(all[0] == n % 256);
    }
}

proof fn lemma_take(c: CursorView, part: Seq<u8>)
    requires
        ready(c),
        stands(c.bytes, c.offset, part),
    ensures
        c.take(part.len() as int) == (c.advance(part.len() as int), Ok::<Seq<u8>, ErrorView>(part)),
        ready(c.advance(part.len() as int)),
{
}

proof fn lemma_word(c: CursorView, n: nat, k: nat)
    requires
        ready(c),
        n < range_of(k),
        stands(c.bytes, c.offset, number_bytes(n, k)),
    ensures
        c.read_word(k as int) == (c.advance(k as int), Ok::<nat, ErrorView>(n)),
        ready(c.advance(k as int)),
{
    lemma_number_bytes(n, k);
    lemma_take(c, number_bytes(n, k));
}

proof fn lemma_text(c: CursorView, s: Seq<char>)
    requires
        ready(c),
        stands(c.bytes, c.offset, text_bytes(s)),
    ensures
        c.read_text() == (c.advance(text_bytes(s).len() as int), Ok::<Seq<char>, ErrorView>(s)),
        ready(c.advance(text_bytes(s).len() as int)),
        text_bytes(s).len() >= 8,
{
    let body = vstd::utf8::encode_utf8(s);
    lemma_ranges();
    lemma_split(c.bytes, c.offset, number_bytes(body.len(), 8), body);
    lemma_number_length(body.len(), 8);
    assert(body.len() <= c.bytes.len());
    lemma_word(c, body.len(), 8);
    let d = c.advance(8);
    lemma_take(d, body);
    vstd::utf8::encode_utf8_valid_utf8(s);
    vstd::utf8::encode_utf8_decode_utf8(s);
    assert(d.advance(body.len() as int) == c.advance(text_bytes(s).len() as int));
}

proof fn lemma_number_length(n: nat, k: nat)
    ensures
        number_bytes(n, k).len() == k,
    decreases k,
{
    if k > 0 {
        lemma_number_length(n / 256, (k - 1) as nat);
    }
}

// ---------------------------------------------------------------------------
// Values
// ---------------------------------------------------------------------------
/// The elements of the arrays inside a value.
spec fn work_of(v: FileValue) -> nat
    decreases v, 0nat,
{
    match v {
        FileValue::Array(_, items) => items.len() + items_work(items, items.len()),
        _ => 0,
    }
}

spec fn items_work(items: Seq<FileValue>, n: nat) -> nat
    decreases items, n,
{
    if n == 0 || n > items.len() {
        0
    } else {
        items_work(items, (n - 1) as nat) + work_of(items[n - 1])
    }
}

proof fn lemma_work(v: FileValue)
    ensures
        1 + work_of(v) <= value_bytes(v).len(),
    decreases v, 0nat,
{
    match v {
        FileValue::U8(n) => lemma_number_length(n as nat, 1),
        FileValue::I8(n) => lemma_number_length(wrapped(n as int, 0x100), 1),
        FileValue::U16(n) => lemma_number_length(n as nat, 2),
        FileValue::I16(n) => lemma_number_length(wrapped(n as int, 0x1_0000), 2),
        FileValue::U32(n) => lemma_number_length(n as nat, 4),
        FileValue::I32(n) => lemma_number_length(wrapped(n as int, 0x1_0000_0000), 4),
        FileValue::F32(bits) => lemma_number_length(bits as nat, 4),
        FileValue::Bool(b) => lemma_number_length(
            if b {
                1
            } else {
                0
            },
            1,
        ),
        FileValue::Text(s) => lemma_number_length(vstd::utf8::encode_utf8(s).len(), 8),
        FileValue::Array(element, items) => {
            lemma_number_length(element as nat, 4);
            lemma_number_length(items.len(), 8);
            lemma_items_work(items, items.len());
        },
        FileValue::U64(n) => lemma_number_length(n as nat, 8),
        FileValue::I64(n) => lemma_number_length(wrapped(n as int, 0x1_0000_0000_0000_0000), 8),
        FileValue::F64(bits) => lemma_number_length(bits as nat, 8),
    }
}

proof fn lemma_items_work(items: Seq<FileValue>, n: nat)
    requires
        n <= items.len(),
    ensures
        n + items_work(items, n) <= items_bytes(items, n).len(),
    decreases items, n,
{
    if n > 0 {
        lemma_items_work(items, (n - 1) as nat);
        lemma_work(items[n - 1]);
    }
}

/// The value as a 64-bit word: negative numbers wrap.
pub open spec fn value_word(v: FileValue) -> Option<u64> {
    match v {
        FileValue::U8(n) => Some(n as u64),
        FileValue::I8(n) => Some(wrapped(n as int, 0x1_0000_0000_0000_0000) as u64),
        FileValue::U16(n) => Some(n as u64),
        FileValue::I16(n) => Some(wrapped(n as int, 0x1_0000_0000_0000_0000) as u64),
        FileValue::U32(n) => Some(n as u64),
        FileValue::I32(n) => Some(wrapped(n as int, 0x1_0000_0000_0000_0000) as u64),
        FileValue::Bool(b) => Some(
            if b {
                1u64
            } else {
                0u64
            },
        ),
        FileValue::U64(n) => Some(n),
        FileValue::I64(n) => Some(wrapped(n as int, 0x1_0000_0000_0000_0000) as u64),
        _ => None,
    }
}

proof fn lemma_numeric(c: CursorView, v: FileValue)
    requires
        ready(c),
        value_word(v) is Some,
        stands(c.bytes, c.offset, value_bytes(v)),
    ensures
        c.read_numeric(value_code(v)) == (
            c.advance(value_bytes(v).len() as int),
            Ok::<u64, ErrorView>(value_word(v)->Some_0),
        ),
        ready(c.advance(value_bytes(v).len() as int)),
{
    lemma_ranges();
    let (n, k): (nat, nat) = match v {
        FileValue::U8(n) => (n as nat, 1),
        FileValue::I8(n) => (wrapped(n as int, 0x100), 1),
        FileValue::U16(n) => (n as nat, 2),
        FileValue::I16(n) => (wrapped(n as int, 0x1_0000), 2),
        FileValue::U32(n) => (n as nat, 4),
        FileValue::I32(n) => (wrapped(n as int, 0x1_0000_0000), 4),
        FileValue::Bool(b) => (
            if b {
                1
            } else {
                0
            },
            1,
        ),
        FileValue::U64(n) => (n as nat, 8),
        FileValue::I64(n) => (wrapped(n as int, 0x1_0000_0000_0000_0000), 8),
        _ => (0, 0),
    };
    assert(value_bytes(v) == number_bytes(n, k));
    lemma_word(c, n, k);
    lemma_number_length(n, k);
}

proof fn lemma_skip_scalar(c: CursorView, v: FileValue)
    requires
        ready(c),
        !(v is Array),
        stands(c.bytes, c.offset, value_bytes(v)),
    ensures
        c.skip_scalar(value_code(v)) == (
            c.advance(value_bytes(v).len() as int),
            Ok::<(), ErrorView>(()),
        ),
        ready(c.advance(value_bytes(v).len() as int)),
{
    match v {
        FileValue::Text(s) => {
            lemma_text(c, s);
        },
        _ => {
            lemma_scalar_length(v);
            lemma_take(c, value_bytes(v));
        },
    }
}

proof fn lemma_scalar_length(v: FileValue)
    requires
        !(v is Array),
        !(v is Text),
    ensures
        crate::gguf::cursor::scalar_size(value_code(v)) == Some(value_bytes(v).len() as u64),
        value_bytes(v).len() <= 8,
{
    match v {
        FileValue::U8(n) => lemma_number_length(n as nat, 1),
        FileValue::I8(n) => lemma_number_length(wrapped(n as int, 0x100), 1),
        FileValue::U16(n) => lemma_number_length(n as nat, 2),
        FileValue::I16(n) => lemma_number_length(wrapped(n as int, 0x1_0000), 2),
        FileValue::U32(n) => lemma_number_length(n as nat, 4),
        FileValue::I32(n) => lemma_number_length(wrapped(n as int, 0x1_0000_0000), 4),
        FileValue::F32(bits) => lemma_number_length(bits as nat, 4),
        FileValue::Bool(b) => lemma_number_length(
            if b {
                1
            } else {
                0
            },
            1,
        ),
        FileValue::U64(n) => lemma_number_length(n as nat, 8),
        FileValue::I64(n) => lemma_number_length(wrapped(n as int, 0x1_0000_0000_0000_0000), 8),
        FileValue::F64(bits) => lemma_number_length(bits as nat, 8),
        _ => {},
    }
}

/// The cursor further along, with more work charged.
spec fn moved(c: CursorView, bytes: nat, work: nat) -> CursorView {
    CursorView { offset: c.offset + bytes, work: (c.work + work) as u64, ..c }
}

spec fn tail_len(items: Seq<FileValue>, k: nat) -> nat {
    (items_bytes(items, items.len()).len() - items_bytes(items, k).len()) as nat
}

spec fn tail_work(items: Seq<FileValue>, k: nat) -> nat {
    (items_work(items, items.len()) - items_work(items, k)) as nat
}

proof fn lemma_items_grow(items: Seq<FileValue>, k: nat, n: nat)
    requires
        k <= n <= items.len(),
    ensures
        items_bytes(items, k).len() <= items_bytes(items, n).len(),
        items_work(items, k) <= items_work(items, n),
        items_bytes(items, n).take(items_bytes(items, k).len() as int) == items_bytes(items, k),
    decreases n - k,
{
    if k < n {
        lemma_items_grow(items, k, (n - 1) as nat);
        let a = items_bytes(items, k);
        let b = items_bytes(items, (n - 1) as nat);
        assert(items_bytes(items, n).take(a.len() as int) =~= b.take(a.len() as int));
    } else {
        assert(items_bytes(items, n).take(items_bytes(items, n).len() as int) =~= items_bytes(
            items,
            n,
        ));
    }
}

proof fn lemma_item_stands(bytes: Seq<u8>, i: int, items: Seq<FileValue>, k: nat)
    requires
        k < items.len(),
        stands(bytes, i, items_bytes(items, items.len())),
    ensures
        stands(bytes, i + items_bytes(items, k).len(), value_bytes(items[k as int])),
        items_bytes(items, k).len() + value_bytes(items[k as int]).len() == items_bytes(
            items,
            k + 1,
        ).len(),
        items_work(items, k) + work_of(items[k as int]) == items_work(items, k + 1),
        tail_len(items, k) == value_bytes(items[k as int]).len() + tail_len(items, k + 1),
        tail_work(items, k) == work_of(items[k as int]) + tail_work(items, k + 1),
{
    let all = items_bytes(items, items.len());
    let upto = items_bytes(items, k + 1);
    lemma_items_grow(items, k + 1, items.len());
    lemma_items_grow(items, k, items.len());
    assert(all =~= upto + all.skip(upto.len() as int));
    lemma_split(bytes, i, upto, all.skip(upto.len() as int));
    lemma_split(bytes, i, items_bytes(items, k), value_bytes(items[k as int]));
}

proof fn lemma_skip_scalars(c: CursorView, base: int, items: Seq<FileValue>, code: u32, k: nat)
    requires
        ready(c),
        k <= items.len(),
        stands(c.bytes, base, items_bytes(items, items.len())),
        c.offset == base + items_bytes(items, k).len(),
        forall|i: int|
            0 <= i < items.len() ==> value_code(#[trigger] items[i]) == code && !(
            items[i] is Array),
    ensures
        c.skip_scalars(code, (items.len() - k) as nat) == (
            c.advance(tail_len(items, k) as int),
            Ok::<(), ErrorView>(()),
        ),
        ready(c.advance(tail_len(items, k) as int)),
        tail_work(items, k) == 0,
    decreases items.len() - k,
{
    if k < items.len() {
        let v = items[k as int];
        lemma_item_stands(c.bytes, base, items, k);
        lemma_skip_scalar(c, v);
        let d = c.advance(value_bytes(v).len() as int);
        lemma_skip_scalars(d, base, items, code, k + 1);
        assert(d.advance(tail_len(items, k + 1) as int) == c.advance(tail_len(items, k) as int));
    } else {
        assert(c.advance(0) == c);
    }
}

proof fn lemma_array_header(c: CursorView, element: u32, items: Seq<FileValue>)
    requires
        ready(c),
        is_uniform(FileValue::Array(element, items)),
        element <= 12,
        stands(c.bytes, c.offset, value_bytes(FileValue::Array(element, items))),
        c.work + items.len() <= u64::MAX,
    ensures
        c.read_array_header() == (
            moved(c, 12, items.len()),
            Ok::<(u32, u64), ErrorView>((element, items.len() as u64)),
        ),
        ready(moved(c, 12, items.len())),
        stands(c.bytes, c.offset + 12, items_bytes(items, items.len())),
        items.len() <= c.bytes.len(),
        value_bytes(FileValue::Array(element, items)).len() == 12 + items_bytes(
            items,
            items.len(),
        ).len(),
{
    lemma_ranges();
    let body = items_bytes(items, items.len());
    let a = number_bytes(element as nat, 4);
    let b = number_bytes(items.len(), 8);
    lemma_number_length(element as nat, 4);
    lemma_number_length(items.len(), 8);
    lemma_split(c.bytes, c.offset, a + b, body);
    lemma_split(c.bytes, c.offset, a, b);
    lemma_items_work(items, items.len());
    lemma_word(c, element as nat, 4);
    let d = c.advance(4);
    lemma_word(d, items.len(), 8);
    let e = d.advance(8);
    assert(e == c.advance(12));
    let f = CursorView { work: (e.work + items.len()) as u64, ..e };
    assert(e.charge_work(items.len() as u64) == (f, Ok::<(), ErrorView>(())));
    match crate::gguf::cursor::scalar_size(element) {
        Some(size) => {
            lemma_fixed_items(items, element, items.len());
            assert(items.len() * size == body.len());
            assert(f.remaining() >= body.len());
        },
        None => {
            assert(f.remaining() >= items.len());
        },
    }
}

proof fn lemma_fixed_items(items: Seq<FileValue>, element: u32, n: nat)
    requires
        n <= items.len(),
        crate::gguf::cursor::scalar_size(element) is Some,
        forall|i: int| 0 <= i < items.len() ==> value_code(#[trigger] items[i]) == element,
    ensures
        items_bytes(items, n).len() == n * crate::gguf::cursor::scalar_size(element)->Some_0,
    decreases n,
{
    let size = crate::gguf::cursor::scalar_size(element)->Some_0 as nat;
    if n > 0 {
        lemma_fixed_items(items, element, (n - 1) as nat);
        assert(value_code(items[n - 1]) == element);
        lemma_scalar_length(items[n - 1]);
        assert(n * size == (n - 1) * size + size) by (nonlinear_arith);
    } else {
        assert(0 * size == 0);
    }
}

#[verifier::rlimit(40)]
proof fn lemma_skip_elements(c: CursorView, base: int, items: Seq<FileValue>, code: u32, k: nat)
    requires
        ready(c),
        k <= items.len(),
        items.len() <= c.bytes.len(),
        stands(c.bytes, base, items_bytes(items, items.len())),
        c.offset == base + items_bytes(items, k).len(),
        c.work + tail_work(items, k) <= u64::MAX,
        code <= 12,
        forall|i: int|
            0 <= i < items.len() ==> value_code(#[trigger] items[i]) == code && is_uniform(items[i])
                && bounded_codes(items[i]),
    ensures
        c.skip_elements(code, (items.len() - k) as u64) == (
            moved(c, tail_len(items, k), tail_work(items, k)),
            Ok::<(), ErrorView>(()),
        ),
        ready(moved(c, tail_len(items, k), tail_work(items, k))),
    decreases items, items.len() - k,
{
    if code != 9 {
        assert forall|i: int| 0 <= i < items.len() implies value_code(#[trigger] items[i]) == code
            && !(items[i] is Array) by {}
        lemma_skip_scalars(c, base, items, code, k);
        assert(c.advance(tail_len(items, k) as int) == moved(c, tail_len(items, k), 0));
    } else if k < items.len() {
        let v = items[k as int];
        assert(value_code(v) == 9);
        assert(v is Array);
        let element = v->Array_0;
        let inner = v->Array_1;
        lemma_item_stands(c.bytes, base, items, k);
        lemma_items_work(inner, inner.len());
        assert(work_of(v) == inner.len() + items_work(inner, inner.len()));
        lemma_array_header(c, element, inner);
        let s = moved(c, 12, inner.len());
        assert(items_bytes(inner, 0).len() == 0 && items_work(inner, 0) == 0);
        lemma_skip_elements(s, c.offset + 12, inner, element, 0);
        let t = moved(s, tail_len(inner, 0), tail_work(inner, 0));
        assert(t == moved(c, value_bytes(v).len(), work_of(v)));
        lemma_skip_elements(t, base, items, code, k + 1);
        assert(moved(t, tail_len(items, k + 1), tail_work(items, k + 1)) == moved(
            c,
            tail_len(items, k),
            tail_work(items, k),
        ));
    } else {
        assert(moved(c, 0, 0) == c);
    }
}

/// The types of all array elements are among the known ones.
pub open spec fn bounded_codes(v: FileValue) -> bool
    decreases v,
{
    match v {
        FileValue::Array(element, items) => element <= 12 && forall|i: int|
            0 <= i < items.len() ==> bounded_codes(#[trigger] items[i]),
        _ => true,
    }
}

proof fn lemma_skip(c: CursorView, v: FileValue)
    requires
        ready(c),
        is_uniform(v),
        bounded_codes(v),
        stands(c.bytes, c.offset, value_bytes(v)),
        c.work + work_of(v) <= u64::MAX,
    ensures
        c.skip(value_code(v)) == (
            moved(c, value_bytes(v).len(), work_of(v)),
            Ok::<(), ErrorView>(()),
        ),
        ready(moved(c, value_bytes(v).len(), work_of(v))),
{
    match v {
        FileValue::Array(element, items) => {
            lemma_array_header(c, element, items);
            let s = moved(c, 12, items.len());
            assert(items_bytes(items, 0).len() == 0 && items_work(items, 0) == 0);
            lemma_skip_elements(s, c.offset + 12, items, element, 0);
            assert(moved(s, tail_len(items, 0), tail_work(items, 0)) == moved(
                c,
                value_bytes(v).len(),
                work_of(v),
            ));
        },
        _ => {
            lemma_skip_scalar(c, v);
            assert(c.advance(value_bytes(v).len() as int) == moved(c, value_bytes(v).len(), 0));
        },
    }
}

/// An integer that is not negative.
pub open spec fn size_word(v: FileValue) -> Option<u64> {
    match v {
        FileValue::I8(n) => if n < 0 {
            None
        } else {
            Some(n as u64)
        },
        FileValue::I16(n) => if n < 0 {
            None
        } else {
            Some(n as u64)
        },
        FileValue::I32(n) => if n < 0 {
            None
        } else {
            Some(n as u64)
        },
        FileValue::I64(n) => if n < 0 {
            None
        } else {
            Some(n as u64)
        },
        _ => value_word(v),
    }
}

proof fn lemma_layout_size(c: CursorView, v: FileValue)
    requires
        ready(c),
        size_word(v) is Some,
        size_word(v)->Some_0 <= usize::MAX,
        stands(c.bytes, c.offset, value_bytes(v)),
    ensures
        c.read_layout_size(value_code(v)) == (
            c.advance(value_bytes(v).len() as int),
            Ok::<usize, ErrorView>(size_word(v)->Some_0 as usize),
        ),
        ready(c.advance(value_bytes(v).len() as int)),
        size_word(v) == value_word(v),
{
    lemma_ranges();
    let (n, k): (nat, nat) = match v {
        FileValue::U8(n) => (n as nat, 1),
        FileValue::I8(n) => (n as nat, 1),
        FileValue::U16(n) => (n as nat, 2),
        FileValue::I16(n) => (n as nat, 2),
        FileValue::U32(n) => (n as nat, 4),
        FileValue::I32(n) => (n as nat, 4),
        FileValue::Bool(b) => (
            if b {
                1
            } else {
                0
            },
            1,
        ),
        FileValue::U64(n) => (n as nat, 8),
        FileValue::I64(n) => (n as nat, 8),
        _ => (0, 0),
    };
    assert(value_bytes(v) == number_bytes(n, k));
    lemma_word(c, n, k);
    lemma_number_length(n, k);
}

// ---------------------------------------------------------------------------
// Metadata
// ---------------------------------------------------------------------------
/// The arrays inside the value are uniform and of known types, and what stands under
/// `general.alignment` is a size.
pub open spec fn valid_pair(key: Seq<char>, v: FileValue) -> bool {
    &&& is_uniform(v)
    &&& bounded_codes(v)
    &&& key == "general.alignment"@ ==> size_word(v) is Some && size_word(v)->Some_0 <= usize::MAX
}

/// The pairs are valid.
pub open spec fn valid_pairs(pairs: Seq<(Seq<char>, FileValue)>) -> bool {
    forall|i: int| 0 <= i < pairs.len() ==> valid_pair((#[trigger] pairs[i]).0, pairs[i].1)
}

/// The alignment after the first `n` pairs: 32 unless one of them states it, and at least 1.
pub open spec fn stated_alignment(pairs: Seq<(Seq<char>, FileValue)>, n: nat) -> nat
    decreases n,
{
    if n == 0 || n > pairs.len() {
        32
    } else if pairs[n - 1].0 == "general.alignment"@ {
        let stated = size_word(pairs[n - 1].1)->Some_0 as nat;
        if stated == 0 {
            1
        } else {
            stated
        }
    } else {
        stated_alignment(pairs, (n - 1) as nat)
    }
}

/// Texts, numbers and floats are kept apart; anything else is not kept.
pub open spec fn kept_as(v: FileValue) -> nat {
    if v is Text {
        1
    } else if value_word(v) is Some {
        2
    } else if v is F32 {
        3
    } else {
        0
    }
}

/// One of the first `n` pairs has the key, with a value that is kept as `kind` says.
pub open spec fn listed(
    pairs: Seq<(Seq<char>, FileValue)>,
    n: nat,
    key: Seq<char>,
    kind: nat,
) -> bool {
    exists|i: int| 0 <= i < n && (#[trigger] pairs[i]).0 == key && kept_as(pairs[i].1) == kind
}

/// No later one of the first `n` pairs takes the place of pair `i`.
pub open spec fn is_latest(pairs: Seq<(Seq<char>, FileValue)>, n: nat, i: int) -> bool {
    forall|j: int|
        i < j < n ==> (#[trigger] pairs[j]).0 != pairs[i].0 || kept_as(pairs[j].1) != kept_as(
            pairs[i].1,
        )
}

/// The metadata holds what the pair says.
pub open spec fn holds(m: layout::MetadataView, key: Seq<char>, v: FileValue) -> bool {
    &&& v is Text ==> m.strings.contains_key(key) && m.strings[key] == v->Text_0
    &&& value_word(v) is Some ==> m.numerics.contains_key(key) && m.numerics[key] == value_word(
        v,
    )->Some_0
    &&& v is F32 ==> m.float32_bits.contains_key(key) && m.float32_bits[key] == v->F32_0
}

/// The metadata is what the first `n` pairs say, a later one taking the place of an
/// earlier one with the same key and the same kind of value.
pub open spec fn says(
    m: layout::MetadataView,
    pairs: Seq<(Seq<char>, FileValue)>,
    n: nat,
) -> bool {
    &&& forall|i: int|
        0 <= i < n && is_latest(pairs, n, i) ==> holds(m, (#[trigger] pairs[i]).0, pairs[i].1)
    &&& forall|key: Seq<char>| #[trigger]
        m.strings.contains_key(key) ==> listed(pairs, n, key, 1)
    &&& forall|key: Seq<char>| #[trigger]
        m.numerics.contains_key(key) ==> listed(pairs, n, key, 2)
    &&& forall|key: Seq<char>| #[trigger]
        m.float32_bits.contains_key(key) ==> listed(pairs, n, key, 3)
}

spec fn after_pair(state: KvState, key: Seq<char>, v: FileValue) -> KvState {
    if key == "general.alignment"@ {
        let n = size_word(v)->Some_0;
        KvState {
            alignment: if n == 0 {
                1
            } else {
                n as usize
            },
            ..state.with_number(key, n)
        }
    } else {
        match v {
            FileValue::Text(s) => state.with_string(key, s),
            FileValue::F32(bits) => state.with_float(key, bits),
            _ => match value_word(v) {
                Some(n) => state.with_number(key, n),
                None => state,
            },
        }
    }
}

#[verifier::rlimit(40)]
proof fn lemma_pair(c: CursorView, state: KvState, key: Seq<char>, v: FileValue)
    requires
        ready(c),
        valid_pair(key, v),
        stands(c.bytes, c.offset, pair_bytes(key, v)),
        c.work + work_of(v) <= u64::MAX,
    ensures
        layout::read_kv(c, state) == (
            moved(c, pair_bytes(key, v).len(), work_of(v)),
            Ok::<KvState, ErrorView>(after_pair(state, key, v)),
        ),
        ready(moved(c, pair_bytes(key, v).len(), work_of(v))),
{
    lemma_ranges();
    let a = text_bytes(key);
    let code = value_code(v);
    let b = number_bytes(code as nat, 4);
    let body = value_bytes(v);
    lemma_split(c.bytes, c.offset, a + b, body);
    lemma_split(c.bytes, c.offset, a, b);
    lemma_text(c, key);
    let d = c.advance(a.len() as int);
    lemma_number_length(code as nat, 4);
    lemma_word(d, code as nat, 4);
    let e = d.advance(4);
    assert(e == c.advance(a.len() as int + 4));
    assert(moved(c, pair_bytes(key, v).len(), work_of(v)) == moved(e, body.len(), work_of(v)));
    if key == "general.alignment"@ {
        lemma_layout_size(e, v);
        assert(e.advance(body.len() as int) == moved(e, body.len(), 0));
    } else if v is Text {
        lemma_text(e, v->Text_0);
        assert(e.advance(body.len() as int) == moved(e, body.len(), 0));
    } else if value_word(v) is Some {
        lemma_numeric(e, v);
        assert(e.advance(body.len() as int) == moved(e, body.len(), 0));
    } else if v is F32 {
        lemma_word(e, v->F32_0 as nat, 4);
        lemma_number_length(v->F32_0 as nat, 4);
        assert(e.advance(body.len() as int) == moved(e, body.len(), 0));
    } else {
        lemma_skip(e, v);
    }
}

spec fn pairs_work(pairs: Seq<(Seq<char>, FileValue)>, n: nat) -> nat
    decreases n,
{
    if n == 0 || n > pairs.len() {
        0
    } else {
        pairs_work(pairs, (n - 1) as nat) + work_of(pairs[n - 1].1)
    }
}

proof fn lemma_pairs_work(pairs: Seq<(Seq<char>, FileValue)>, n: nat)
    requires
        n <= pairs.len(),
    ensures
        n + pairs_work(pairs, n) <= pairs_bytes(pairs, n).len(),
    decreases n,
{
    if n > 0 {
        lemma_pairs_work(pairs, (n - 1) as nat);
        lemma_work(pairs[n - 1].1);
    }
}

/// The pairs up to `n` stand where those up to `m` do.
proof fn lemma_pairs_front(bytes: Seq<u8>, i: int, pairs: Seq<(Seq<char>, FileValue)>, n: nat)
    requires
        n <= pairs.len(),
        stands(bytes, i, pairs_bytes(pairs, pairs.len())),
    ensures
        stands(bytes, i, pairs_bytes(pairs, n)),
    decreases pairs.len() - n,
{
    if n < pairs.len() {
        lemma_pairs_front(bytes, i, pairs, n + 1);
        lemma_split(bytes, i, pairs_bytes(pairs, n), pair_bytes(pairs[n as int].0, pairs[n as int].1));
    }
}

/// Reading `m` pairs and then `n` more is reading `m + n`.
proof fn lemma_kvs_in_turn(c: CursorView, state: KvState, m: nat, n: nat)
    requires
        layout::read_kvs(c, state, m).1 is Ok,
    ensures
        layout::read_kvs(c, state, m + n) == layout::read_kvs(
            layout::read_kvs(c, state, m).0,
            layout::read_kvs(c, state, m).1->Ok_0,
            n,
        ),
    decreases m,
{
    if m > 0 {
        let (s, r) = layout::read_kv(c, state);
        lemma_kvs_in_turn(s, r->Ok_0, (m - 1) as nat, n);
    }
}

#[verifier::rlimit(40)]
proof fn lemma_pairs(c: CursorView, pairs: Seq<(Seq<char>, FileValue)>, n: nat)
    requires
        ready(c),
        valid_pairs(pairs),
        n <= pairs.len(),
        c.work == 0,
        stands(c.bytes, c.offset, pairs_bytes(pairs, pairs.len())),
    ensures
        ({
            let (d, r) = layout::read_kvs(c, KvState::start(), n);
            &&& d == moved(c, pairs_bytes(pairs, n).len(), pairs_work(pairs, n))
            &&& ready(d)
            &&& r is Ok
            &&& says(r->Ok_0.metadata, pairs, n)
            &&& r->Ok_0.alignment == stated_alignment(pairs, n)
        }),
    decreases n,
{
    lemma_pairs_front(c.bytes, c.offset, pairs, n);
    lemma_pairs_work(pairs, n);
    if n == 0 {
        assert(moved(c, 0, 0) == c);
    } else {
        let m = (n - 1) as nat;
        lemma_pairs(c, pairs, m);
        let (d, r) = layout::read_kvs(c, KvState::start(), m);
        let before = r->Ok_0;
        let key = pairs[m as int].0;
        let v = pairs[m as int].1;
        assert(valid_pair(key, v));
        lemma_split(c.bytes, c.offset, pairs_bytes(pairs, m), pair_bytes(key, v));
        lemma_pair(d, before, key, v);
        lemma_kvs_in_turn(c, KvState::start(), m, 1);
        let (e, q) = layout::read_kv(d, before);
        let after = after_pair(before, key, v);
        assert(layout::read_kvs(e, after, 0) == (e, Ok::<KvState, ErrorView>(after)));
        assert(layout::read_kvs(d, before, 1) == (e, Ok::<KvState, ErrorView>(after)));
        lemma_pair_is_said(before, pairs, m);
    }
}

proof fn lemma_pair_is_said(before: KvState, pairs: Seq<(Seq<char>, FileValue)>, m: nat)
    requires
        valid_pairs(pairs),
        m < pairs.len(),
        says(before.metadata, pairs, m),
        before.alignment == stated_alignment(pairs, m),
    ensures
        ({
            let after = after_pair(before, pairs[m as int].0, pairs[m as int].1);
            &&& says(after.metadata, pairs, m + 1)
            &&& after.alignment == stated_alignment(pairs, m + 1)
        }),
{
    let n = m + 1;
    let key = pairs[m as int].0;
    let v = pairs[m as int].1;
    let after = after_pair(before, key, v);
    assert(valid_pair(key, v));
    if key == "general.alignment"@ {
        assert(size_word(v) == value_word(v));
    }
    assert(holds(after.metadata, key, v));
    assert forall|i: int| 0 <= i < n && is_latest(pairs, n, i) implies holds(
        after.metadata,
        (#[trigger] pairs[i]).0,
        pairs[i].1,
    ) by {
        if i < m {
            assert(pairs[m as int].0 != pairs[i].0 || kept_as(v) != kept_as(pairs[i].1));
            assert(is_latest(pairs, m, i));
            assert(holds(before.metadata, pairs[i].0, pairs[i].1));
        }
    }
    assert forall|k: Seq<char>| #[trigger] after.metadata.strings.contains_key(k) implies listed(
        pairs,
        n,
        k,
        1,
    ) by {
        lemma_listed_on(pairs, m, k, 1);
    }
    assert forall|k: Seq<char>| #[trigger] after.metadata.numerics.contains_key(k) implies listed(
        pairs,
        n,
        k,
        2,
    ) by {
        lemma_listed_on(pairs, m, k, 2);
    }
    assert forall|k: Seq<char>| #[trigger]
        after.metadata.float32_bits.contains_key(k) implies listed(pairs, n, k, 3) by {
        lemma_listed_on(pairs, m, k, 3);
    }
}

proof fn lemma_listed_on(
    pairs: Seq<(Seq<char>, FileValue)>,
    m: nat,
    key: Seq<char>,
    kind: nat,
)
    requires
        m < pairs.len(),
    ensures
        listed(pairs, m, key, kind) ==> listed(pairs, m + 1, key, kind),
        pairs[m as int].0 == key && kept_as(pairs[m as int].1) == kind ==> listed(
            pairs,
            m + 1,
            key,
            kind,
        ),
{
    if listed(pairs, m, key, kind) {
        let i = choose|i: int|
            0 <= i < m && (#[trigger] pairs[i]).0 == key && kept_as(pairs[i].1) == kind;
        assert(pairs[i].0 == key);
    }
}

// ---------------------------------------------------------------------------
// Directory
// ---------------------------------------------------------------------------
/// The product of the first `n` dimensions.
pub open spec fn elements(dims: Seq<usize>, n: nat) -> nat
    decreases n,
{
    if n == 0 || n > dims.len() {
        1
    } else {
        elements(dims, (n - 1) as nat) * dims[n - 1] as nat
    }
}

proof fn lemma_elements(dims: Seq<usize>, n: nat)
    requires
        n <= dims.len(),
        forall|k: nat| k <= n ==> #[trigger] elements(dims, k) <= usize::MAX,
    ensures
        dequant::size_product(dims.take(n as int)) == Some(elements(dims, n)),
    decreases n,
{
    if n > 0 {
        lemma_elements(dims, (n - 1) as nat);
        assert(dims.take(n as int).drop_last() =~= dims.take(n - 1));
        assert(dims.take(n as int).last() == dims[n - 1]);
        assert(elements(dims, n) <= usize::MAX);
    } else {
        assert(dims.take(0) =~= Seq::empty());
    }
}

/// The entry has a countable shape in whole blocks of its type, and lies in a file of
/// `len` bytes with the data section at `data`.
pub open spec fn valid_tensor(t: FileTensor, data: nat, len: nat) -> bool {
    let n = elements(t.dims, t.dims.len());
    let dtype = tensor::code_dtype(t.code);
    &&& forall|k: nat| k <= t.dims.len() ==> #[trigger] elements(t.dims, k) <= usize::MAX
    &&& tensor::packed_len(dtype, n) is Some
    &&& t.dims.len() > 0 ==> t.dims[0] as nat % tensor::block_layout(dtype)->Some_0.0 == 0
    &&& data + t.offset + tensor::packed_len(dtype, n)->Some_0 <= len
    &&& t.dims.len() <= u32::MAX
}

/// What is known of a tensor once the start of the data section is.
pub open spec fn tensor_at(t: FileTensor, start: nat) -> TensorView {
    let n = elements(t.dims, t.dims.len());
    TensorView {
        name: t.name,
        dims: t.dims,
        dtype: tensor::code_dtype(t.code),
        ggml_type: t.code,
        n_elements: n as usize,
        byte_len: tensor::packed_len(tensor::code_dtype(t.code), n)->Some_0 as usize,
        relative_offset: t.offset,
        absolute_offset: start as usize,
    }
}

proof fn lemma_dims(c: CursorView, base: int, dims: Seq<usize>, k: nat)
    requires
        ready(c),
        k <= dims.len(),
        stands(c.bytes, base, dims_bytes(dims, dims.len())),
        c.offset == base + dims_bytes(dims, k).len(),
    ensures
        layout::read_dims(c, dims.take(k as int), (dims.len() - k) as nat) == (
            c.advance(dims_bytes(dims, dims.len()).len() - dims_bytes(dims, k).len()),
            Ok::<Seq<usize>, ErrorView>(dims),
        ),
        ready(c.advance(dims_bytes(dims, dims.len()).len() - dims_bytes(dims, k).len())),
    decreases dims.len() - k,
{
    if k < dims.len() {
        let n = dims[k as int] as nat;
        lemma_ranges();
        lemma_dims_front(c.bytes, base, dims, k + 1);
        lemma_split(c.bytes, base, dims_bytes(dims, k), number_bytes(n, 8));
        lemma_number_length(n, 8);
        lemma_word(c, n, 8);
        let d = c.advance(8);
        assert(dims.take(k as int).push(dims[k as int]) =~= dims.take(k as int + 1));
        lemma_dims(d, base, dims, k + 1);
        let whole = dims_bytes(dims, dims.len()).len();
        assert(d.advance(whole - dims_bytes(dims, k + 1).len()) == c.advance(
            whole - dims_bytes(dims, k).len(),
        ));
    } else {
        assert(dims.take(k as int) =~= dims);
        assert(c.advance(0) == c);
    }
}

proof fn lemma_dims_front(bytes: Seq<u8>, i: int, dims: Seq<usize>, n: nat)
    requires
        n <= dims.len(),
        stands(bytes, i, dims_bytes(dims, dims.len())),
    ensures
        stands(bytes, i, dims_bytes(dims, n)),
    decreases dims.len() - n,
{
    if n < dims.len() {
        lemma_dims_front(bytes, i, dims, n + 1);
        lemma_split(bytes, i, dims_bytes(dims, n), number_bytes(dims[n as int] as nat, 8));
    }
}

#[verifier::rlimit(40)]
proof fn lemma_entry(c: CursorView, t: FileTensor, data: nat, len: nat)
    requires
        ready(c),
        valid_tensor(t, data, len),
        stands(c.bytes, c.offset, entry_bytes(t)),
    ensures
        layout::read_entry(c) == (
            c.advance(entry_bytes(t).len() as int),
            Ok::<TensorView, ErrorView>(tensor_at(t, 0)),
        ),
        ready(c.advance(entry_bytes(t).len() as int)),
        entry_bytes(t).len() >= 1,
{
    lemma_ranges();
    let name = text_bytes(t.name);
    let rank = number_bytes(t.dims.len(), 4);
    let dims = dims_bytes(t.dims, t.dims.len());
    let code = number_bytes(t.code as nat, 4);
    let offset = number_bytes(t.offset as nat, 8);
    lemma_number_length(t.dims.len(), 4);
    lemma_number_length(t.code as nat, 4);
    lemma_number_length(t.offset as nat, 8);
    lemma_split(c.bytes, c.offset, name + rank + dims + code, offset);
    lemma_split(c.bytes, c.offset, name + rank + dims, code);
    lemma_split(c.bytes, c.offset, name + rank, dims);
    lemma_split(c.bytes, c.offset, name, rank);
    lemma_text(c, t.name);
    let c1 = c.advance(name.len() as int);
    lemma_word(c1, t.dims.len(), 4);
    let c2 = c1.advance(4);
    assert(t.dims.take(0) =~= Seq::empty());
    assert(dims_bytes(t.dims, 0).len() == 0);
    lemma_dims(c2, c2.offset, t.dims, 0);
    let c3 = c2.advance(dims.len() as int);
    lemma_word(c3, t.code as nat, 4);
    let c4 = c3.advance(4);
    lemma_word(c4, t.offset as nat, 8);
    let c5 = c4.advance(8);
    assert(c5 == c.advance(entry_bytes(t).len() as int));
    lemma_elements(t.dims, t.dims.len());
    assert(t.dims.take(t.dims.len() as int) =~= t.dims);
}

proof fn lemma_entries_front(bytes: Seq<u8>, i: int, tensors: Seq<FileTensor>, n: nat)
    requires
        n <= tensors.len(),
        stands(bytes, i, entries_bytes(tensors, tensors.len())),
    ensures
        stands(bytes, i, entries_bytes(tensors, n)),
    decreases tensors.len() - n,
{
    if n < tensors.len() {
        lemma_entries_front(bytes, i, tensors, n + 1);
        lemma_split(bytes, i, entries_bytes(tensors, n), entry_bytes(tensors[n as int]));
    }
}

spec fn unplaced(tensors: Seq<FileTensor>, n: nat) -> Seq<TensorView> {
    Seq::new(n, |i: int| tensor_at(tensors[i], 0))
}

proof fn lemma_entries(
    c: CursorView,
    base: int,
    tensors: Seq<FileTensor>,
    k: nat,
    data: nat,
    len: nat,
)
    requires
        ready(c),
        k <= tensors.len(),
        stands(c.bytes, base, entries_bytes(tensors, tensors.len())),
        c.offset == base + entries_bytes(tensors, k).len(),
        forall|i: int| 0 <= i < tensors.len() ==> valid_tensor(#[trigger] tensors[i], data, len),
    ensures
        ({
            let whole = entries_bytes(tensors, tensors.len()).len();
            &&& layout::read_entries(c, unplaced(tensors, k), (tensors.len() - k) as nat) == (
                c.advance(whole - entries_bytes(tensors, k).len()),
                Ok::<Seq<TensorView>, ErrorView>(unplaced(tensors, tensors.len())),
            )
            &&& ready(c.advance(whole - entries_bytes(tensors, k).len()))
            &&& tensors.len() - k <= whole - entries_bytes(tensors, k).len()
        }),
    decreases tensors.len() - k,
{
    if k < tensors.len() {
        let t = tensors[k as int];
        lemma_entries_front(c.bytes, base, tensors, k + 1);
        lemma_split(c.bytes, base, entries_bytes(tensors, k), entry_bytes(t));
        lemma_entry(c, t, data, len);
        let d = c.advance(entry_bytes(t).len() as int);
        assert(unplaced(tensors, k).push(tensor_at(t, 0)) =~= unplaced(tensors, k + 1));
        lemma_entries(d, base, tensors, k + 1, data, len);
        let whole = entries_bytes(tensors, tensors.len()).len();
        assert(d.advance(whole - entries_bytes(tensors, k + 1).len()) == c.advance(
            whole - entries_bytes(tensors, k).len(),
        ));
    } else {
        assert(c.advance(0) == c);
    }
}

/// No later entry has the name of entry `i`.
spec fn is_last_entry(entries: Seq<TensorView>, i: int) -> bool {
    forall|j: int| i < j < entries.len() ==> (#[trigger] entries[j]).name != entries[i].name
}

spec fn placed_at(t: TensorView, data: nat) -> TensorView {
    TensorView { absolute_offset: (data + t.relative_offset) as usize, ..t }
}

#[verifier::rlimit(40)]
proof fn lemma_place(
    directory: Map<Seq<char>, TensorView>,
    entries: Seq<TensorView>,
    path: Seq<char>,
    data: nat,
    len: nat,
)
    requires
        len <= usize::MAX,
        forall|i: int|
            0 <= i < entries.len() ==> data + (#[trigger] entries[i]).relative_offset
                + entries[i].byte_len <= len,
    ensures
        ({
            let r = layout::place_tensors(directory, entries, path, data, len);
            &&& r is Ok
            &&& forall|i: int|
                0 <= i < entries.len() && is_last_entry(entries, i) ==> {
                    &&& r->Ok_0.contains_key((#[trigger] entries[i]).name)
                    &&& r->Ok_0[entries[i].name] == placed_at(entries[i], data)
                }
            &&& forall|name: Seq<char>| #[trigger]
                r->Ok_0.contains_key(name) ==> directory.contains_key(name) || exists|i: int|
                    0 <= i < entries.len() && (#[trigger] entries[i]).name == name
            &&& forall|name: Seq<char>| #[trigger]
                directory.contains_key(name) && (forall|i: int|
                    0 <= i < entries.len() ==> (#[trigger] entries[i]).name != name)
                    ==> r->Ok_0.contains_key(name) && r->Ok_0[name] == directory[name]
        }),
    decreases entries.len(),
{
    if entries.len() > 0 {
        let first = entries[0];
        let placed = placed_at(first, data);
        assert(layout::place_tensor(first, path, data, len) == Ok::<TensorView, ErrorView>(placed));
        let next = directory.insert(first.name, placed);
        let rest = entries.skip(1);
        assert forall|i: int| 0 <= i < rest.len() implies data + (
        #[trigger] rest[i]).relative_offset + rest[i].byte_len <= len by {
            assert(rest[i] == entries[i + 1]);
        }
        lemma_place(next, rest, path, data, len);
        let r = layout::place_tensors(next, rest, path, data, len);
        assert(layout::place_tensors(directory, entries, path, data, len) == r);
        assert forall|i: int|
            0 <= i < entries.len() && is_last_entry(entries, i) implies r->Ok_0.contains_key((#[trigger] entries[i]).name)
            && r->Ok_0[entries[i].name] == placed_at(entries[i], data) by {
            assert forall|j: int| i - 1 < j < rest.len() && 0 <= j implies (
            #[trigger] rest[j]).name != entries[i].name by {
                assert(rest[j] == entries[j + 1]);
            }
            if i > 0 {
                assert(rest[i - 1] == entries[i]);
                assert(is_last_entry(rest, i - 1));
            } else {
                assert(next.contains_key(first.name));
            }
        }
        assert forall|name: Seq<char>| #[trigger]
            r->Ok_0.contains_key(name) implies directory.contains_key(name) || exists|i: int|
            0 <= i < entries.len() && (#[trigger] entries[i]).name == name by {
            if next.contains_key(name) {
                if name == first.name {
                    assert(entries[0].name == name);
                }
            } else {
                let i = choose|i: int| 0 <= i < rest.len() && (#[trigger] rest[i]).name == name;
                assert(entries[i + 1].name == name);
            }
        }
        assert forall|name: Seq<char>| #[trigger]
            directory.contains_key(name) && (forall|i: int|
                0 <= i < entries.len() ==> (#[trigger] entries[i]).name
                    != name) implies r->Ok_0.contains_key(name) && r->Ok_0[name]
            == directory[name] by {
            assert(entries[0].name != name);
            assert(next.contains_key(name));
            assert forall|i: int| 0 <= i < rest.len() implies (#[trigger] rest[i]).name != name by {
                assert(rest[i] == entries[i + 1]);
            }
        }
    }
}

// ---------------------------------------------------------------------------
// Files
// ---------------------------------------------------------------------------
/// The start of the data section: the least multiple of the alignment behind the head.
pub open spec fn is_data_start(data: nat, head: nat, alignment: nat) -> bool {
    data % alignment == 0 && head <= data < head + alignment
}

proof fn lemma_data_start(data: nat, head: nat, alignment: nat)
    requires
        alignment >= 1,
        is_data_start(data, head, alignment),
    ensures
        limits::align_up(head, alignment) == data,
{
    limits::law_align_up_is_least_multiple(head, alignment, data);
    let up = limits::align_up(head, alignment) as int;
    let a = alignment as int;
    if up < data {
        vstd::arithmetic::div_mod::lemma_fundamental_div_mod(up, a);
        vstd::arithmetic::div_mod::lemma_fundamental_div_mod(data as int, a);
        let q = up / a;
        let k = data as int / a;
        assert(up == a * q && data == a * k);
        assert(a * k >= a * q + a) by (nonlinear_arith)
            requires
                a * k > a * q,
                a >= 1,
        ;
    }
}

/// No later tensor has the name of tensor `i`.
pub open spec fn is_last(tensors: Seq<FileTensor>, i: int) -> bool {
    forall|j: int| i < j < tensors.len() ==> (#[trigger] tensors[j]).name != tensors[i].name
}

/// The directory has each tensor under its name, as written and placed, and no others. Of
/// several tensors with one name it has the last.
pub open spec fn lists(
    directory: Map<Seq<char>, TensorView>,
    tensors: Seq<FileTensor>,
    data: nat,
) -> bool {
    &&& forall|i: int|
        0 <= i < tensors.len() && is_last(tensors, i) ==> {
            &&& directory.contains_key((#[trigger] tensors[i]).name)
            &&& directory[tensors[i].name] == tensor_at(tensors[i], data + tensors[i].offset as nat)
        }
    &&& forall|name: Seq<char>| #[trigger]
        directory.contains_key(name) ==> exists|i: int|
            0 <= i < tensors.len() && (#[trigger] tensors[i]).name == name
}

/// A file is read back as it was written: bytes that begin with the head of a description
/// parse, when no budget is set, to the pairs and the tensors of the description. The data
/// section starts at the next multiple of the stated alignment, 32 unless stated.
#[verifier::rlimit(40)]
pub proof fn law_written_files_are_read_back(
    bytes: Seq<u8>,
    path: Seq<char>,
    limits: ParseLimits,
    pairs: Seq<(Seq<char>, FileValue)>,
    tensors: Seq<FileTensor>,
    data: nat,
)
    requires
        unlimited(limits),
        bytes.len() <= usize::MAX,
        head_bytes(pairs, tensors).is_prefix_of(bytes),
        valid_pairs(pairs),
        is_data_start(
            data,
            head_bytes(pairs, tensors).len(),
            stated_alignment(pairs, pairs.len()),
        ),
        head_bytes(pairs, tensors).len() + stated_alignment(pairs, pairs.len()) <= usize::MAX,
        forall|i: int|
            0 <= i < tensors.len() ==> valid_tensor(#[trigger] tensors[i], data, bytes.len()),
    ensures
        ({
            let r = layout::parsed_layout(bytes, path, limits);
            &&& r is Ok
            &&& says(r->Ok_0.metadata, pairs, pairs.len())
            &&& lists(r->Ok_0.tensors, tensors, data)
            &&& r->Ok_0.alignment == stated_alignment(pairs, pairs.len())
            &&& r->Ok_0.data_offset == data
        }),
{
    lemma_head(bytes, path, limits, pairs, tensors);
    let kvs = pairs_bytes(pairs, pairs.len());
    let entries = entries_bytes(tensors, tensors.len());
    let head = head_bytes(pairs, tensors);
    let c = layout::start_cursor(bytes, path, limits).advance(24);
    let section = CursorView { origin: Some(c.offset), ..c };
    lemma_pairs(section, pairs, pairs.len());
    let (d, state) = layout::read_kvs(section, KvState::start(), pairs.len());
    let start = CursorView { origin: None, ..d };
    assert(unplaced(tensors, 0) =~= Seq::empty());
    assert(entries_bytes(tensors, 0).len() == 0);
    lemma_entries(start, start.offset, tensors, 0, data, bytes.len());
    let f = start.advance(entries.len() as int);
    assert(f.offset == head.len());
    lemma_alignment_positive(pairs, pairs.len());
    lemma_data_start(data, head.len(), stated_alignment(pairs, pairs.len()));
    let all = unplaced(tensors, tensors.len());
    lemma_directory(tensors, path, data, bytes.len());
    let placed = layout::place_tensors(Map::empty(), all, path, data, bytes.len());
    assert(layout::finish_layout(f, state->Ok_0, all) == Ok::<LayoutView, ErrorView>(
        LayoutView {
            metadata: state->Ok_0.metadata,
            tensors: placed->Ok_0,
            alignment: state->Ok_0.alignment,
            data_offset: data as usize,
        },
    ));
}

#[verifier::rlimit(40)]
proof fn lemma_directory(tensors: Seq<FileTensor>, path: Seq<char>, data: nat, len: nat)
    requires
        len <= usize::MAX,
        forall|i: int| 0 <= i < tensors.len() ==> valid_tensor(#[trigger] tensors[i], data, len),
    ensures
        ({
            let r = layout::place_tensors(
                Map::empty(),
                unplaced(tensors, tensors.len()),
                path,
                data,
                len,
            );
            r is Ok && lists(r->Ok_0, tensors, data)
        }),
{
    let all = unplaced(tensors, tensors.len());
    assert forall|i: int| 0 <= i < all.len() implies data + (#[trigger] all[i]).relative_offset
        + all[i].byte_len <= len by {
        assert(valid_tensor(tensors[i], data, len));
    }
    lemma_place(Map::empty(), all, path, data, len);
    let placed = layout::place_tensors(Map::empty(), all, path, data, len);
    assert forall|i: int|
        0 <= i < tensors.len() && is_last(tensors, i) implies placed->Ok_0.contains_key((#[trigger] tensors[i]).name)
        && placed->Ok_0[tensors[i].name] == tensor_at(
        tensors[i],
        data + tensors[i].offset as nat,
    ) by {
        assert(all[i].name == tensors[i].name);
        assert forall|j: int| i < j < all.len() implies (#[trigger] all[j]).name
            != all[i].name by {
            assert(tensors[j].name != tensors[i].name);
        }
        assert(is_last_entry(all, i));
        assert(placed_at(all[i], data) == tensor_at(tensors[i], data + tensors[i].offset as nat));
    }
    assert forall|name: Seq<char>| #[trigger] placed->Ok_0.contains_key(name) implies exists|i: int|
        0 <= i < tensors.len() && (#[trigger] tensors[i]).name == name by {
        let i = choose|i: int| 0 <= i < all.len() && (#[trigger] all[i]).name == name;
        assert(tensors[i].name == name);
    }
}

proof fn lemma_head(
    bytes: Seq<u8>,
    path: Seq<char>,
    limits: ParseLimits,
    pairs: Seq<(Seq<char>, FileValue)>,
    tensors: Seq<FileTensor>,
)
    requires
        unlimited(limits),
        bytes.len() <= usize::MAX,
        head_bytes(pairs, tensors).is_prefix_of(bytes),
    ensures
        ({
            let c = layout::start_cursor(bytes, path, limits);
            let kvs = pairs_bytes(pairs, pairs.len());
            let entries = entries_bytes(tensors, tensors.len());
            &&& layout::read_header(c) == (
                c.advance(24),
                Ok::<(usize, usize), ErrorView>((tensors.len() as usize, pairs.len() as usize)),
            )
            &&& ready(c.advance(24))
            &&& tensors.len() <= usize::MAX
            &&& pairs.len() <= usize::MAX
            &&& stands(bytes, 24, kvs)
            &&& stands(bytes, 24 + kvs.len() as int, entries)
            &&& head_bytes(pairs, tensors).len() == 24 + kvs.len() + entries.len()
        }),
{
    lemma_ranges();
    let magic = seq![0x47u8, 0x47u8, 0x55u8, 0x46u8];
    let version = number_bytes(3, 4);
    let tensor_count = number_bytes(tensors.len(), 8);
    let kv_count = number_bytes(pairs.len(), 8);
    let kvs = pairs_bytes(pairs, pairs.len());
    let entries = entries_bytes(tensors, tensors.len());
    let head = head_bytes(pairs, tensors);
    lemma_number_length(3, 4);
    lemma_number_length(tensors.len(), 8);
    lemma_number_length(pairs.len(), 8);
    assert(bytes.subrange(0, head.len() as int) =~= head);
    assert(stands(bytes, 0, head));
    lemma_split(bytes, 0, magic + version + tensor_count + kv_count + kvs, entries);
    lemma_split(bytes, 0, magic + version + tensor_count + kv_count, kvs);
    lemma_split(bytes, 0, magic + version + tensor_count, kv_count);
    lemma_split(bytes, 0, magic + version, tensor_count);
    lemma_split(bytes, 0, magic, version);
    let c = layout::start_cursor(bytes, path, limits);
    lemma_pairs_work(pairs, pairs.len());
    lemma_entries_count(tensors, tensors.len());
    lemma_take(c, magic);
    let c1 = c.advance(4);
    lemma_word(c1, 3, 4);
    let c2 = c1.advance(4);
    lemma_word(c2, tensors.len(), 8);
    let c3 = c2.advance(8);
    lemma_word(c3, pairs.len(), 8);
    assert(c3.advance(8) == c.advance(24));
}

proof fn lemma_entries_count(tensors: Seq<FileTensor>, n: nat)
    requires
        n <= tensors.len(),
    ensures
        n <= entries_bytes(tensors, n).len(),
    decreases n,
{
    if n > 0 {
        lemma_entries_count(tensors, (n - 1) as nat);
        lemma_number_length(tensors[n - 1].code as nat, 4);
    }
}

proof fn lemma_alignment_positive(pairs: Seq<(Seq<char>, FileValue)>, n: nat)
    ensures
        stated_alignment(pairs, n) >= 1,
    decreases n,
{
    if n > 0 {
        lemma_alignment_positive(pairs, (n - 1) as nat);
    }
}

// ---------------------------------------------------------------------------
// Single values, and what is refused
// ---------------------------------------------------------------------------
/// A cursor over bytes that begin, at its position, with a value reads the value: an
/// integer or a boolean as the numeral of its word, a text as it is, a float as its bits.
/// An array is no scalar.
pub proof fn law_scalars_are_read_back(c: CursorView, v: FileValue)
    requires
        unlimited(c.limits),
        c.well_formed(),
        c.offset + value_bytes(v).len() <= c.bytes.len(),
        c.bytes.subrange(c.offset, c.offset + value_bytes(v).len()) == value_bytes(v),
    ensures
        ({
            let (d, r) = c.read_scalar(value_code(v));
            &&& !(v is Array) ==> d == c.advance(value_bytes(v).len() as int)
            &&& r == match v {
                FileValue::Text(s) => Ok(ScalarView::Text(s)),
                FileValue::F32(bits) => Ok(ScalarView::Float32(bits)),
                FileValue::F64(bits) => Ok(ScalarView::Float64(bits)),
                FileValue::Array(_, _) => Err(
                    ErrorView::UnsupportedFormat {
                        path: c.path,
                        reason: "unexpected scalar GGUF value type 9"@,
                    },
                ),
                _ => Ok(ScalarView::Text(text::decimal(value_word(v)->Some_0 as nat))),
            }
        }),
{
    lemma_ranges();
    if value_word(v) is Some {
        lemma_numeric(c, v);
    } else if v is Text {
        lemma_text(c, v->Text_0);
    } else if v is F32 {
        lemma_word(c, v->F32_0 as nat, 4);
        lemma_number_length(v->F32_0 as nat, 4);
    } else if v is F64 {
        lemma_word(c, v->F64_0 as nat, 8);
        lemma_number_length(v->F64_0 as nat, 8);
    } else {
        reveal_strlit("unexpected scalar GGUF value type ");
        reveal_strlit("unexpected scalar GGUF value type 9");
        assert(text::decimal(9) =~= seq!['9']);
        assert("unexpected scalar GGUF value type "@ + seq!['9']
            =~= "unexpected scalar GGUF value type 9"@);
    }
}

/// A size that is stated as a negative number is refused, whatever its width.
pub proof fn law_negative_sizes_are_refused(c: CursorView, v: FileValue)
    requires
        unlimited(c.limits),
        c.well_formed(),
        c.offset + value_bytes(v).len() <= c.bytes.len(),
        c.bytes.subrange(c.offset, c.offset + value_bytes(v).len()) == value_bytes(v),
        value_word(v) is Some,
        size_word(v) is None,
    ensures
        c.read_layout_size(value_code(v)).1 is Err,
        c.read_layout_size(value_code(v)).1->Err_0 is InvalidLayout,
{
    lemma_ranges();
    let (n, k): (nat, nat) = match v {
        FileValue::I8(n) => (wrapped(n as int, 0x100), 1),
        FileValue::I16(n) => (wrapped(n as int, 0x1_0000), 2),
        FileValue::I32(n) => (wrapped(n as int, 0x1_0000_0000), 4),
        FileValue::I64(n) => (wrapped(n as int, 0x1_0000_0000_0000_0000), 8),
        _ => (0, 0),
    };
    assert(value_bytes(v) == number_bytes(n, k));
    lemma_word(c, n, k);
}

/// A file that parses begins with `GGUF` and a version of 3, and states, with eight bytes
/// each, no more tensors and pairs than its budgets admit.
pub proof fn law_parsed_files_begin_as_they_should(
    bytes: Seq<u8>,
    path: Seq<char>,
    limits: ParseLimits,
)
    requires
        layout::parsed_layout(bytes, path, limits) is Ok,
    ensures
        bytes.len() >= 24,
        bytes[0] == 0x47 && bytes[1] == 0x47 && bytes[2] == 0x55 && bytes[3] == 0x46,
        bytes[4] == 3 && bytes[5] == 0 && bytes[6] == 0 && bytes[7] == 0,
        bytes[8] + 0x100 * bytes[9] + 0x1_0000 * bytes[10] + 0x100_0000 * bytes[11] + 0x1_0000_0000
            * bytes[12] + 0x100_0000_0000 * bytes[13] + 0x1_0000_0000_0000 * bytes[14]
            + 0x100_0000_0000_0000 * bytes[15] <= limits.max_tensor_count,
        bytes[16] + 0x100 * bytes[17] + 0x1_0000 * bytes[18] + 0x100_0000 * bytes[19]
            + 0x1_0000_0000 * bytes[20] + 0x100_0000_0000 * bytes[21] + 0x1_0000_0000_0000
            * bytes[22] + 0x100_0000_0000_0000 * bytes[23] <= limits.max_kv_count,
{
    let magic = bytes.subrange(0, 4);
    let version = bytes.subrange(4, 8);
    let tensors = bytes.subrange(8, 16);
    let pairs = bytes.subrange(16, 24);
    assert(magic[0] == bytes[0] && magic[1] == bytes[1] && magic[2] == bytes[2] && magic[3]
        == bytes[3]);
    le::lemma_four_bytes(version);
    le::lemma_eight_bytes(tensors);
    le::lemma_eight_bytes(pairs);
}

// ---------------------------------------------------------------------------
// What the metadata is asked for
// ---------------------------------------------------------------------------
/// The architecture is what stands under `general.architecture`, and the numbers of the
/// model are those under keys that begin with it. The quantization is what stands under
/// `general.quantization_type`; without that it is told by the number under
/// `general.file_type`.
pub proof fn law_metadata_is_found_under_its_keys(
    m: layout::MetadataView,
    pairs: Seq<(Seq<char>, FileValue)>,
    i: int,
    suffix: Seq<char>,
)
    requires
        says(m, pairs, pairs.len()),
        0 <= i < pairs.len(),
        is_latest(pairs, pairs.len(), i),
    ensures
        ({
            let (key, v) = pairs[i];
            &&& key == "general.architecture"@ && v is Text ==> m.arch() == v->Text_0
            &&& key == m.arch() + suffix && value_word(v) is Some ==> m.arch_number(suffix)
                == value_word(v)
            &&& key == "general.quantization_type"@ && v is Text ==> m.quant() == v->Text_0
            &&& key == "general.file_type"@ && value_word(v) is Some && !listed(
                pairs,
                pairs.len(),
                "general.quantization_type"@,
                1,
            ) ==> m.quant() == (if value_word(v)->Some_0 == 0 {
                "F32"@
            } else {
                "GGUF("@ + text::decimal(value_word(v)->Some_0 as nat) + ")"@
            })
        }),
        !listed(pairs, pairs.len(), "general.architecture"@, 1) ==> m.arch() == "unknown"@,
        !listed(pairs, pairs.len(), m.arch() + suffix, 2) ==> m.arch_number(suffix) is None,
        !listed(pairs, pairs.len(), "general.quantization_type"@, 1) && !listed(
            pairs,
            pairs.len(),
            "general.file_type"@,
            2,
        ) ==> m.quant() == "unknown"@,
{
    let (key, v) = pairs[i];
    assert(holds(m, key, v));
}

// ---------------------------------------------------------------------------
// Refusals and budgets
// ---------------------------------------------------------------------------
/// A text whose bytes are not UTF-8 is refused, whether it is read or skipped.
pub proof fn law_texts_must_be_utf8(c: CursorView, body: Seq<u8>)
    requires
        unlimited(c.limits),
        c.well_formed(),
        !vstd::utf8::valid_utf8(body),
        c.offset + 8 + body.len() <= c.bytes.len(),
        c.bytes.subrange(c.offset, c.offset + 8 + body.len()) == number_bytes(body.len(), 8) + body,
    ensures
        c.read_text().1 is Err,
        c.skip(8).1 is Err,
        c.read_scalar(8).1 is Err,
{
    lemma_ranges();
    lemma_number_length(body.len(), 8);
    lemma_split(c.bytes, c.offset, number_bytes(body.len(), 8), body);
    lemma_word(c, body.len(), 8);
    lemma_take(c.advance(8), body);
}

/// There are no types beyond the thirteenth: such a value is neither read nor skipped, and
/// neither is an array that has such elements.
pub proof fn law_unknown_types_are_refused(c: CursorView, value_type: u32, count: u64)
    requires
        value_type > 12,
        count > 0,
    ensures
        c.skip(value_type).1 is Err,
        c.skip_elements(value_type, count).1 is Err,
        c.read_scalar(value_type).1 is Err,
        c.read_numeric(value_type).1 is Err,
        c.read_layout_size(value_type).1 is Err,
{
}

/// What is read stays within its budget: no text is longer than the limits admit, no array
/// brings the elements charged above theirs, and no byte of the metadata is read beyond
/// theirs.
pub proof fn law_reads_stay_within_budget(c: CursorView, n: int)
    requires
        c.well_formed(),
        0 <= n,
    ensures
        c.read_text().1 is Ok ==> c.read_text().0.offset - c.offset - 8
            <= c.limits.max_string_bytes,
        c.read_array_header().1 is Ok ==> {
            let (d, r) = c.read_array_header();
            d.work == c.work + r->Ok_0.1 && d.work <= c.limits.max_array_work_items
        },
        c.take(n).1 is Ok && c.origin is Some ==> c.offset + n - c.origin->Some_0
            <= c.limits.max_metadata_bytes,
{
    match c.read_word(8) {
        (d, Ok(len)) => {
            le::lemma_le_value_bound(c.bytes.subrange(c.offset, c.offset + 8));
        },
        (d, Err(_)) => {},
    }
}

} // verus!
