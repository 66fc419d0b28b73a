//! Safetensors byte-range validation.

use crate::error::{ErrorView, ParserError};
use crate::gguf::dequant;
use crate::gguf::layout::element_count;
use crate::gguf::limits;
use crate::safetensors::record;
use crate::safetensors::record::{RecordView, SafetensorsTensorRecord};
use crate::sorting;
use crate::sorting::{KeyView, SortKey};
use crate::text;
use vstd::prelude::*;

verus! {

/// The error of a checkpoint that cannot be loaded.
pub open spec fn load_error(path: Seq<char>, reason: Seq<char>) -> ErrorView {
    ErrorView::InvalidLayout { path, reason }
}

/// The error of a tensor that cannot be loaded.
pub open spec fn tensor_load_error(path: Seq<char>, name: Seq<char>, problem: Seq<char>) -> ErrorView {
    load_error(path, "tensor '"@ + name + "'"@ + problem)
}

/// A checkpoint cannot be loaded.
pub fn model_load(path: &str, reason: String) -> (r: ParserError)
    ensures
        r@ == load_error(path@, reason@),
{
    crate::error::invalid_layout(path, reason)
}

/// A tensor cannot be loaded.
pub fn tensor_load(path: &str, name: &str, problem: &str) -> (r: ParserError)
    ensures
        r@ == tensor_load_error(path@, name@, problem@),
{
    model_load(path, text::concat4("tensor '", name, "'", problem))
}

// ---------------------------------------------------------------------------
// Element sizes
// ---------------------------------------------------------------------------
/// Bytes of one element of a Safetensors dtype.
pub open spec fn dtype_width(dtype: Seq<char>) -> Option<usize> {
    if dtype == "C128"@ {
        Some(16)
    } else if dtype == "F64"@ || dtype == "I64"@ || dtype == "U64"@ || dtype == "C64"@ {
        Some(8)
    } else if dtype == "F32"@ || dtype == "TF32"@ || dtype == "I32"@ || dtype == "U32"@ {
        Some(4)
    } else if dtype == "F16"@ || dtype == "BF16"@ || dtype == "I16"@ || dtype == "U16"@ {
        Some(2)
    } else if dtype == "F8_E5M2"@ || dtype == "F8_E4M3"@ || dtype == "F8_E8M0"@ || dtype == "I8"@
        || dtype == "U8"@ || dtype == "BOOL"@ {
        Some(1)
    } else {
        None
    }
}

/// The dtype packs two elements into a byte.
pub open spec fn packed_dtype(dtype: Seq<char>) -> bool {
    dtype == "INT4"@ || dtype == "I4"@ || dtype == "U4"@
}

proof fn lemma_packed_has_no_width(dtype: Seq<char>)
    requires
        packed_dtype(dtype),
    ensures
        dtype_width(dtype) is None,
{
    reveal_strlit("INT4");
    reveal_strlit("I4");
    reveal_strlit("U4");
    reveal_strlit("C128");
    reveal_strlit("F64");
    reveal_strlit("I64");
    reveal_strlit("U64");
    reveal_strlit("C64");
    reveal_strlit("F32");
    reveal_strlit("TF32");
    reveal_strlit("I32");
    reveal_strlit("U32");
    reveal_strlit("F16");
    reveal_strlit("BF16");
    reveal_strlit("I16");
    reveal_strlit("U16");
    reveal_strlit("F8_E5M2");
    reveal_strlit("F8_E4M3");
    reveal_strlit("F8_E8M0");
    reveal_strlit("I8");
    reveal_strlit("U8");
    reveal_strlit("BOOL");
    assert("INT4"@[0] != "C128"@[0]);
    assert("INT4"@[0] != "TF32"@[0]);
    assert("INT4"@[0] != "BF16"@[0]);
    assert("I4"@[1] != "I8"@[1]);
    assert("U4"@[0] != "I8"@[0]);
    assert("I4"@[0] != "U8"@[0]);
    assert("U4"@[1] != "U8"@[1]);
    assert("INT4"@[0] != "BOOL"@[0]);
    assert(dtype.len() == 2 || dtype.len() == 4);
}

/// Byte width of a Safetensors dtype, or `None` for packed/unknown types.
///
/// Packed 4-bit types (`INT4`/`I4`/`U4`) return `None`; callers must round half the
/// element count up instead of multiplying by a width.
pub fn dtype_size_bytes(dtype: &str) -> (r: Option<usize>)
    ensures
        r == dtype_width(dtype@),
        packed_dtype(dtype@) ==> r is None,
{
    proof {
        if packed_dtype(dtype@) {
            lemma_packed_has_no_width(dtype@);
        }
    }
    if text::equal(dtype, "C128") {
        Some(16)
    } else if text::equal(dtype, "F64") || text::equal(dtype, "I64") || text::equal(dtype, "U64")
        || text::equal(dtype, "C64") {
        Some(8)
    } else if text::equal(dtype, "F32") || text::equal(dtype, "TF32") || text::equal(dtype, "I32")
        || text::equal(dtype, "U32") {
        Some(4)
    } else if text::equal(dtype, "F16") || text::equal(dtype, "BF16") || text::equal(dtype, "I16")
        || text::equal(dtype, "U16") {
        Some(2)
    } else if text::equal(dtype, "F8_E5M2") || text::equal(dtype, "F8_E4M3") || text::equal(
        dtype,
        "F8_E8M0",
    ) || text::equal(dtype, "I8") || text::equal(dtype, "U8") || text::equal(dtype, "BOOL") {
        Some(1)
    } else {
        None
    }
}

/// Bytes that a tensor of the given type and shape takes.
pub open spec fn expected_size(
    dtype: Seq<char>,
    shape: Seq<usize>,
    path: Seq<char>,
    name: Seq<char>,
) -> Result<usize, ErrorView> {
    match dequant::size_product(shape) {
        None => Err(tensor_load_error(path, name, " shape element count overflow"@)),
        Some(n) => if packed_dtype(dtype) {
            Ok(((n + 1) / 2) as usize)
        } else {
            match dtype_width(dtype) {
                None => Err(
                    tensor_load_error(
                        path,
                        name,
                        " has unsupported Safetensors dtype '"@ + dtype + "'"@,
                    ),
                ),
                Some(width) => if n * width > usize::MAX {
                    Err(tensor_load_error(path, name, " byte size overflow"@))
                } else {
                    Ok((n * width) as usize)
                },
            }
        },
    }
}

/// Bytes that a tensor of the given type and shape takes.
pub fn expected_tensor_byte_size(
    dtype: &str,
    shape: &[usize],
    path: &str,
    tensor_name: &str,
) -> (r: Result<usize, ParserError>)
    ensures
        limits::outcome(r) == expected_size(dtype@, shape@, path@, tensor_name@),
{
    let elements: usize = match element_count(shape) {
        None => {
            return Err(tensor_load(path, tensor_name, " shape element count overflow"));
        },
        Some(n) => n,
    };
    if text::equal(dtype, "INT4") || text::equal(dtype, "I4") || text::equal(dtype, "U4") {
        return Ok(elements / 2 + elements % 2);
    }
    match dtype_size_bytes(dtype) {
        None => {
            let problem = text::concat3(" has unsupported Safetensors dtype '", dtype, "'");
            Err(tensor_load(path, tensor_name, problem.as_str()))
        },
        Some(width) => match elements.checked_mul(width) {
            None => Err(tensor_load(path, tensor_name, " byte size overflow")),
            Some(n) => Ok(n),
        },
    }
}

// ---------------------------------------------------------------------------
// Data ranges
// ---------------------------------------------------------------------------
/// What data ranges are sorted by: start, end, name.
pub open spec fn range_keys(tensors: Seq<RecordView>) -> Seq<KeyView> {
    Seq::new(
        tensors.len(),
        |i: int|
            KeyView {
                first: tensors[i].start as u64,
                second: tensors[i].end as u64,
                name: tensors[i].name,
                shard: Seq::empty(),
            },
    )
}

/// The tensors in the order of their data ranges.
pub open spec fn by_range(tensors: Seq<RecordView>) -> Seq<RecordView> {
    sorting::arranged(tensors, sorting::stable_order(range_keys(tensors)))
}

/// The ranges from `i` on: each must start where the one before ends, the last must end
/// with the data.
pub open spec fn check_ranges(
    path: Seq<char>,
    sorted: Seq<RecordView>,
    i: int,
    expected: nat,
    data_len: nat,
) -> Result<(), ErrorView>
    decreases sorted.len() - i,
{
    if i < 0 || i >= sorted.len() {
        if expected != data_len {
            Err(
                load_error(
                    path,
                    "Safetensors tensor data ranges end at "@ + text::decimal(expected)
                        + ", but data section is "@ + text::decimal(data_len) + " bytes"@,
                ),
            )
        } else {
            Ok(())
        }
    } else if sorted[i].start < expected {
        Err(
            tensor_load_error(
                path,
                sorted[i].name,
                " data range overlaps tensor '"@ + (if i > 0 {
                    sorted[i - 1].name
                } else {
                    "<unknown>"@
                }) + "'"@,
            ),
        )
    } else if sorted[i].start > expected {
        Err(
            tensor_load_error(
                path,
                sorted[i].name,
                " data range leaves a gap from "@ + text::decimal(expected) + " to "@
                    + text::decimal(sorted[i].start as nat),
            ),
        )
    } else {
        check_ranges(path, sorted, i + 1, sorted[i].end as nat, data_len)
    }
}

/// The data ranges of a shard: without overlap, gap or trailing bytes.
pub open spec fn data_ranges(path: Seq<char>, tensors: Seq<RecordView>, data_len: u64) -> Result<
    (),
    ErrorView,
> {
    if data_len > usize::MAX {
        Err(
            load_error(
                path,
                "Safetensors data section length "@ + text::decimal(data_len as nat)
                    + " does not fit in usize"@,
            ),
        )
    } else {
        check_ranges(path, by_range(tensors), 0, 0, data_len as nat)
    }
}

/// Reject data ranges that overlap, leave gaps or do not end with the data section.
pub fn reject_tensor_data_ranges(
    path: &str,
    tensors: &Vec<SafetensorsTensorRecord>,
    data_len: u64,
) -> (r: Result<(), ParserError>)
    ensures
        limits::outcome(r) == data_ranges(path@, record::record_views(tensors@), data_len),
{
    if data_len > usize::MAX as u64 {
        return Err(
            model_load(
                path,
                text::concat3(
                    "Safetensors data section length ",
                    text::decimal_string(data_len).as_str(),
                    " does not fit in usize",
                ),
            ),
        );
    }
    let ghost all = record::record_views(tensors@);
    let mut keys: Vec<SortKey> = Vec::new();
    let mut i: usize = 0;
    proof {
        reveal_strlit("");
    }
    while i < tensors.len()
        invariant
            i <= tensors@.len(),
            all == record::record_views(tensors@),
            ""@ =~= Seq::<char>::empty(),
            sorting::key_views(keys@) =~= range_keys(all).take(i as int),
        decreases tensors@.len() - i,
    {
        let ghost before = sorting::key_views(keys@);
        let key = SortKey {
            first: tensors[i].data_offsets[0] as u64,
            second: tensors[i].data_offsets[1] as u64,
            name: tensors[i].name.clone(),
            shard: "".to_owned(),
        };
        assert(key@ =~= range_keys(all)[i as int]);
        keys.push(key);
        assert(sorting::key_views(keys@) =~= before.push(key@));
        i += 1;
    }
    assert(sorting::key_views(keys@) =~= range_keys(all));
    let order = sorting::sort_positions(&keys);
    let ghost sorted = by_range(all);
    let mut expected: usize = 0;
    let mut k: usize = 0;
    while k < order.len()
        invariant
            k <= order@.len(),
            all == record::record_views(tensors@),
            order@.len() == tensors@.len(),
            forall|j: int| 0 <= j < order@.len() ==> #[trigger] order@[j] < tensors@.len(),
            sorted == sorting::arranged(all, sorting::positions(order@)),
            sorted == by_range(all),
            data_len <= usize::MAX,
            check_ranges(path@, sorted, 0, 0, data_len as nat) == check_ranges(
                path@,
                sorted,
                k as int,
                expected as nat,
                data_len as nat,
            ),
        decreases order@.len() - k,
    {
        let tensor = &tensors[order[k]];
        assert(sorted[k as int] == tensor@);
        let start: usize = tensor.data_offsets[0];
        if start < expected {
            let previous = if k > 0 {
                let p = tensors[order[k - 1]].name.as_str();
                assert(sorted[k - 1].name == p@);
                p
            } else {
                "<unknown>"
            };
            let problem = text::concat3(" data range overlaps tensor '", previous, "'");
            return Err(tensor_load(path, tensor.name.as_str(), problem.as_str()));
        }
        if start > expected {
            let problem = text::concat4(
                " data range leaves a gap from ",
                text::decimal_string(expected as u64).as_str(),
                " to ",
                text::decimal_string(start as u64).as_str(),
            );
            return Err(tensor_load(path, tensor.name.as_str(), problem.as_str()));
        }
        expected = tensor.data_offsets[1];
        k += 1;
    }
    if expected as u64 != data_len {
        return Err(
            model_load(
                path,
                text::concat5(
                    "Safetensors tensor data ranges end at ",
                    text::decimal_string(expected as u64).as_str(),
                    ", but data section is ",
                    text::decimal_string(data_len).as_str(),
                    " bytes",
                ),
            ),
        );
    }
    Ok(())
}

/// The byte belongs to the tensor.
pub open spec fn covers(t: RecordView, byte: int) -> bool {
    t.start <= byte < t.end
}

proof fn lemma_ranges_tile(
    path: Seq<char>,
    sorted: Seq<RecordView>,
    i: int,
    expected: nat,
    data_len: nat,
    byte: int,
)
    requires
        0 <= i <= sorted.len(),
        check_ranges(path, sorted, i, expected, data_len) is Ok,
        forall|k: int| 0 <= k < sorted.len() ==> (#[trigger] sorted[k]).start <= sorted[k].end,
        expected <= byte < data_len,
    ensures
        exists|k: int| i <= k < sorted.len() && covers(#[trigger] sorted[k], byte),
    decreases sorted.len() - i,
{
    if i < sorted.len() {
        if byte < sorted[i].end {
            assert(covers(sorted[i], byte));
        } else {
            lemma_ranges_tile(path, sorted, i + 1, sorted[i].end as nat, data_len, byte);
        }
    }
}

proof fn lemma_ranges_disjoint(
    path: Seq<char>,
    sorted: Seq<RecordView>,
    i: int,
    expected: nat,
    data_len: nat,
    k: int,
)
    requires
        0 <= i <= k < sorted.len(),
        check_ranges(path, sorted, i, expected, data_len) is Ok,
        forall|m: int| 0 <= m < sorted.len() ==> (#[trigger] sorted[m]).start <= sorted[m].end,
    ensures
        expected <= sorted[k].start,
        sorted[k].end <= data_len,
    decreases sorted.len() - i,
{
    assert(sorted[i].start <= sorted[i].end);
    if i < k {
        lemma_ranges_disjoint(path, sorted, i + 1, sorted[i].end as nat, data_len, k);
    } else if i + 1 < sorted.len() {
        lemma_ranges_disjoint(path, sorted, i + 1, sorted[i].end as nat, data_len, i + 1);
        lemma_ends_in_order(path, sorted, i + 1, sorted[i].end as nat, data_len);
    }
}

proof fn lemma_ends_in_order(
    path: Seq<char>,
    sorted: Seq<RecordView>,
    i: int,
    expected: nat,
    data_len: nat,
)
    requires
        0 <= i <= sorted.len(),
        check_ranges(path, sorted, i, expected, data_len) is Ok,
        forall|m: int| 0 <= m < sorted.len() ==> (#[trigger] sorted[m]).start <= sorted[m].end,
    ensures
        expected <= data_len,
    decreases sorted.len() - i,
{
    if i < sorted.len() {
        assert(sorted[i].start <= sorted[i].end);
        lemma_ends_in_order(path, sorted, i + 1, sorted[i].end as nat, data_len);
    }
}

/// Accepted data ranges tile the data section: every byte of it belongs to a tensor, and
/// no byte to two of them.
pub proof fn law_ranges_tile_the_data_section(
    path: Seq<char>,
    tensors: Seq<RecordView>,
    data_len: u64,
    byte: int,
)
    requires
        data_ranges(path, tensors, data_len) is Ok,
        forall|i: int| 0 <= i < tensors.len() ==> (#[trigger] tensors[i]).start <= tensors[i].end,
    ensures
        0 <= byte < data_len ==> exists|i: int|
            0 <= i < tensors.len() && covers(#[trigger] tensors[i], byte),
        forall|i: int, j: int|
            0 <= i < tensors.len() && 0 <= j < tensors.len() && covers(#[trigger] tensors[i], byte)
                && covers(#[trigger] tensors[j], byte) ==> i == j && byte < data_len,
{
    let keys = range_keys(tensors);
    let order = sorting::stable_order(keys);
    sorting::lemma_stable_order_exists(keys);
    let sorted = by_range(tensors);
    assert forall|k: int| 0 <= k < sorted.len() implies (#[trigger] sorted[k]).start
        <= sorted[k].end by {
        assert(0 <= order[k] < tensors.len());
        assert(sorted[k] == tensors[order[k]]);
    }
    if 0 <= byte < data_len {
        lemma_ranges_tile(path, sorted, 0, 0, data_len as nat, byte);
        let k = choose|k: int| 0 <= k < sorted.len() && covers(#[trigger] sorted[k], byte);
        assert(0 <= order[k] < tensors.len());
        assert(covers(tensors[order[k]], byte));
    }
    assert forall|i: int, j: int|
        0 <= i < tensors.len() && 0 <= j < tensors.len() && covers(#[trigger] tensors[i], byte)
            && covers(#[trigger] tensors[j], byte) implies i == j && byte < data_len by {
        assert(order.contains(i));
        assert(order.contains(j));
        let a = order.index_of(i);
        let b = order.index_of(j);
        assert(sorted[a] == tensors[i]);
        assert(sorted[b] == tensors[j]);
        lemma_ranges_disjoint(path, sorted, 0, 0, data_len as nat, a);
        if a < b {
            lemma_later_ranges(path, sorted, 0, 0, data_len as nat, a, b);
        } else if b < a {
            lemma_later_ranges(path, sorted, 0, 0, data_len as nat, b, a);
        }
    }
}

proof fn lemma_later_ranges(
    path: Seq<char>,
    sorted: Seq<RecordView>,
    i: int,
    expected: nat,
    data_len: nat,
    a: int,
    b: int,
)
    requires
        0 <= i <= a < b < sorted.len(),
        check_ranges(path, sorted, i, expected, data_len) is Ok,
        forall|m: int| 0 <= m < sorted.len() ==> (#[trigger] sorted[m]).start <= sorted[m].end,
    ensures
        sorted[a].end <= sorted[b].start,
    decreases sorted.len() - i,
{
    if i < a {
        lemma_later_ranges(path, sorted, i + 1, sorted[i].end as nat, data_len, a, b);
    } else {
        lemma_ranges_disjoint(path, sorted, i + 1, sorted[i].end as nat, data_len, b);
    }
}

/// Where the first `i` ranges end.
pub open spec fn end_of(sorted: Seq<RecordView>, i: int) -> int {
    if i == 0 {
        0
    } else {
        sorted[i - 1].end as int
    }
}

/// The ranges follow on one another from the start of the data to its end.
pub open spec fn chains(sorted: Seq<RecordView>, data_len: nat) -> bool {
    &&& forall|i: int| 0 <= i < sorted.len() ==> sorted[i].start == #[trigger] end_of(sorted, i)
    &&& data_len == end_of(sorted, sorted.len() as int)
}

/// The data range of each record.
spec fn bounds(tensors: Seq<RecordView>) -> Seq<(int, int)> {
    tensors.map_values(|t: RecordView| (t.start as int, t.end as int))
}

spec fn bound_le(a: (int, int), b: (int, int)) -> bool {
    a.0 < b.0 || (a.0 == b.0 && a.1 <= b.1)
}

proof fn lemma_same_bounds(a: Seq<RecordView>, b: Seq<RecordView>)
    requires
        a.to_multiset() == b.to_multiset(),
    ensures
        bounds(a).to_multiset() == bounds(b).to_multiset(),
    decreases a.len(),
{
    broadcast use vstd::seq_lib::group_to_multiset_ensures;

    assert(a.len() == a.to_multiset().len());
    assert(b.len() == b.to_multiset().len());
    if a.len() == 0 {
        assert(bounds(a) =~= bounds(b));
    } else {
        let t = a.last();
        let front = a.drop_last();
        assert(a =~= front.push(t));
        assert(a.contains(a[a.len() - 1]));
        assert(a.to_multiset().count(t) > 0);
        assert(b.contains(t));
        let j = b.index_of(t);
        let rest = b.remove(j);
        assert(front =~= a.remove(a.len() - 1));
        lemma_same_bounds(front, rest);
        assert(bounds(a) =~= bounds(front).push(bounds(a).last()));
        assert(bounds(b) =~= bounds(rest).insert(j, bounds(a).last()));
        vstd::seq_lib::to_multiset_insert(bounds(rest), j, bounds(a).last());
    }
}

proof fn lemma_chain_is_accepted(
    path: Seq<char>,
    sorted: Seq<RecordView>,
    i: int,
    expected: nat,
    data_len: nat,
)
    requires
        chains(sorted, data_len),
        0 <= i <= sorted.len(),
        expected == end_of(sorted, i),
    ensures
        check_ranges(path, sorted, i, expected, data_len) is Ok,
    decreases sorted.len() - i,
{
    if i < sorted.len() {
        assert(sorted[i].start == expected);
        lemma_chain_is_accepted(path, sorted, i + 1, sorted[i].end as nat, data_len);
    }
}

proof fn lemma_accepted_chain(
    path: Seq<char>,
    sorted: Seq<RecordView>,
    i: int,
    expected: nat,
    data_len: nat,
)
    requires
        0 <= i <= sorted.len(),
        check_ranges(path, sorted, i, expected, data_len) is Ok,
        expected == end_of(sorted, i),
        forall|k: int| 0 <= k < i ==> sorted[k].start == #[trigger] end_of(sorted, k),
    ensures
        chains(sorted, data_len),
    decreases sorted.len() - i,
{
    if i < sorted.len() {
        lemma_accepted_chain(path, sorted, i + 1, sorted[i].end as nat, data_len);
    }
}

proof fn lemma_chain_starts_in_order(sorted: Seq<RecordView>, data_len: nat, i: int, j: int)
    requires
        chains(sorted, data_len),
        forall|k: int| 0 <= k < sorted.len() ==> (#[trigger] sorted[k]).start <= sorted[k].end,
        0 <= i < j < sorted.len(),
    ensures
        sorted[i].end <= sorted[j].start,
    decreases j - i,
{
    assert(sorted[j].start == end_of(sorted, j));
    if i < j - 1 {
        lemma_chain_starts_in_order(sorted, data_len, i, j - 1);
        assert(sorted[j - 1].start <= sorted[j - 1].end);
    }
}

proof fn lemma_chain_is_sorted(sorted: Seq<RecordView>, data_len: nat)
    requires
        chains(sorted, data_len),
        forall|k: int| 0 <= k < sorted.len() ==> (#[trigger] sorted[k]).start <= sorted[k].end,
    ensures
        vstd::relations::sorted_by(bounds(sorted), |a: (int, int), b: (int, int)| bound_le(a, b)),
{
    let all = bounds(sorted);
    assert forall|i: int, j: int| 0 <= i < j < all.len() implies bound_le(
        #[trigger] all[i],
        #[trigger] all[j],
    ) by {
        lemma_chain_starts_in_order(sorted, data_len, i, j);
        assert(sorted[i].start <= sorted[i].end);
        assert(sorted[j].start <= sorted[j].end);
    }
}

proof fn lemma_by_range(tensors: Seq<RecordView>)
    ensures
        by_range(tensors).to_multiset() == tensors.to_multiset(),
        vstd::relations::sorted_by(
            bounds(by_range(tensors)),
            |a: (int, int), b: (int, int)| bound_le(a, b),
        ),
{
    let keys = range_keys(tensors);
    let order = sorting::stable_order(keys);
    sorting::lemma_stable_order_exists(keys);
    sorting::law_stable_order_is_permutation(keys, order);
    sorting::lemma_arranging_keeps_the_items(tensors, order);
    let sorted = by_range(tensors);
    let all = bounds(sorted);
    assert forall|i: int, j: int| 0 <= i < j < all.len() implies bound_le(
        #[trigger] all[i],
        #[trigger] all[j],
    ) by {
        assert(sorting::before(keys, order[i], order[j]));
        assert(sorted[i] == tensors[order[i]]);
        assert(sorted[j] == tensors[order[j]]);
    }
}

/// Accepted data ranges, sorted by start and end, follow on one another from the start of
/// the data to its end.
pub proof fn law_accepted_ranges_chain(path: Seq<char>, tensors: Seq<RecordView>, data_len: u64)
    requires
        data_ranges(path, tensors, data_len) is Ok,
    ensures
        by_range(tensors).to_multiset() == tensors.to_multiset(),
        chains(by_range(tensors), data_len as nat),
{
    lemma_by_range(tensors);
    lemma_accepted_chain(path, by_range(tensors), 0, 0, data_len as nat);
}

/// Data ranges that follow on one another from the start of the data to its end, in
/// whatever order they are listed, are accepted.
pub proof fn law_chaining_ranges_are_accepted(
    path: Seq<char>,
    tensors: Seq<RecordView>,
    chained: Seq<RecordView>,
    data_len: u64,
)
    requires
        forall|i: int| 0 <= i < tensors.len() ==> (#[trigger] tensors[i]).start <= tensors[i].end,
        chained.to_multiset() == tensors.to_multiset(),
        chains(chained, data_len as nat),
    ensures
        data_ranges(path, tensors, data_len) is Ok,
{
    broadcast use vstd::seq_lib::group_to_multiset_ensures;

    let sorted = by_range(tensors);
    let le = |a: (int, int), b: (int, int)| bound_le(a, b);
    assert forall|k: int| 0 <= k < chained.len() implies (#[trigger] chained[k]).start
        <= chained[k].end by {
        assert(chained.contains(chained[k]));
        assert(chained.to_multiset().count(chained[k]) > 0);
        assert(tensors.contains(chained[k]));
        assert(tensors[tensors.index_of(chained[k])] == chained[k]);
    }
    lemma_by_range(tensors);
    lemma_chain_is_sorted(chained, data_len as nat);
    lemma_same_bounds(sorted, chained);
    assert(vstd::relations::total_ordering(le));
    vstd::seq_lib::lemma_sorted_unique(bounds(sorted), bounds(chained), le);
    assert(sorted.len() == bounds(sorted).len());
    assert(chained.len() == bounds(chained).len());
    assert forall|i: int| 0 <= i < sorted.len() implies (#[trigger] sorted[i]).start
        == chained[i].start && sorted[i].end == chained[i].end by {
        assert(bounds(sorted)[i] == bounds(chained)[i]);
    }
    assert(chains(sorted, data_len as nat)) by {
        assert forall|i: int| 0 <= i < sorted.len() implies sorted[i].start == #[trigger] end_of(
            sorted,
            i,
        ) by {
            assert(chained[i].start == end_of(chained, i));
            assert(sorted[i].start == chained[i].start);
            if i > 0 {
                assert(sorted[i - 1].end == chained[i - 1].end);
            }
        }
        if sorted.len() > 0 {
            assert(sorted[sorted.len() - 1].end == chained[sorted.len() - 1].end);
        }
    }
    lemma_chain_is_accepted(path, sorted, 0, 0, data_len as nat);
}

// ---------------------------------------------------------------------------
// Element sizes in numbers
// ---------------------------------------------------------------------------
#[verifier::rlimit(40)]
proof fn lemma_dtype_names_differ(dtype: Seq<char>)
    ensures
        dtype == "C128"@ ==> dtype_width(dtype) == Some(16usize) && !packed_dtype(dtype),
        dtype == "F64"@ || dtype == "I64"@ || dtype == "U64"@
            || dtype == "C64"@ ==> dtype_width(dtype) == Some(8usize) && !packed_dtype(dtype),
        dtype == "F32"@ || dtype == "TF32"@ || dtype == "I32"@
            || dtype == "U32"@ ==> dtype_width(dtype) == Some(4usize) && !packed_dtype(dtype),
        dtype == "F16"@ || dtype == "BF16"@ || dtype == "I16"@
            || dtype == "U16"@ ==> dtype_width(dtype) == Some(2usize) && !packed_dtype(dtype),
        dtype == "F8_E5M2"@ || dtype == "F8_E4M3"@ || dtype == "F8_E8M0"@ || dtype == "I8"@
            || dtype == "U8"@
            || dtype == "BOOL"@ ==> dtype_width(dtype) == Some(1usize) && !packed_dtype(dtype),
{
    reveal_strlit("C128");
    reveal_strlit("F64");
    reveal_strlit("I64");
    reveal_strlit("U64");
    reveal_strlit("C64");
    reveal_strlit("F32");
    reveal_strlit("TF32");
    reveal_strlit("I32");
    reveal_strlit("U32");
    reveal_strlit("F16");
    reveal_strlit("BF16");
    reveal_strlit("I16");
    reveal_strlit("U16");
    reveal_strlit("F8_E5M2");
    reveal_strlit("F8_E4M3");
    reveal_strlit("F8_E8M0");
    reveal_strlit("I8");
    reveal_strlit("U8");
    reveal_strlit("BOOL");
    reveal_strlit("INT4");
    reveal_strlit("I4");
    reveal_strlit("U4");
    assert("C128"@[0] == 'C' && "C128"@[1] == '1' && "C128"@.len() == 4);
    assert("F64"@[0] == 'F' && "F64"@[1] == '6' && "F64"@.len() == 3);
    assert("I64"@[0] == 'I' && "I64"@[1] == '6' && "I64"@.len() == 3);
    assert("U64"@[0] == 'U' && "U64"@[1] == '6' && "U64"@.len() == 3);
    assert("C64"@[0] == 'C' && "C64"@[1] == '6' && "C64"@.len() == 3);
    assert("F32"@[0] == 'F' && "F32"@[1] == '3' && "F32"@.len() == 3);
    assert("TF32"@[0] == 'T' && "TF32"@[1] == 'F' && "TF32"@.len() == 4);
    assert("I32"@[0] == 'I' && "I32"@[1] == '3' && "I32"@.len() == 3);
    assert("U32"@[0] == 'U' && "U32"@[1] == '3' && "U32"@.len() == 3);
    assert("F16"@[0] == 'F' && "F16"@[1] == '1' && "F16"@.len() == 3);
    assert("BF16"@[0] == 'B' && "BF16"@[1] == 'F' && "BF16"@.len() == 4);
    assert("I16"@[0] == 'I' && "I16"@[1] == '1' && "I16"@.len() == 3);
    assert("U16"@[0] == 'U' && "U16"@[1] == '1' && "U16"@.len() == 3);
    assert("F8_E5M2"@[0] == 'F' && "F8_E5M2"@[1] == '8' && "F8_E5M2"@.len() == 7);
    assert("F8_E4M3"@[0] == 'F' && "F8_E4M3"@[1] == '8' && "F8_E4M3"@.len() == 7);
    assert("F8_E8M0"@[0] == 'F' && "F8_E8M0"@[1] == '8' && "F8_E8M0"@.len() == 7);
    assert("I8"@[0] == 'I' && "I8"@[1] == '8' && "I8"@.len() == 2);
    assert("U8"@[0] == 'U' && "U8"@[1] == '8' && "U8"@.len() == 2);
    assert("BOOL"@[0] == 'B' && "BOOL"@[1] == 'O' && "BOOL"@.len() == 4);
    assert("INT4"@[0] == 'I' && "INT4"@[1] == 'N' && "INT4"@.len() == 4);
    assert("I4"@[0] == 'I' && "I4"@[1] == '4' && "I4"@.len() == 2);
    assert("U4"@[0] == 'U' && "U4"@[1] == '4' && "U4"@.len() == 2);
    assert(dtype[0] == dtype[0] && dtype[1] == dtype[1]);
}

/// How many bytes a tensor of `n` elements takes: 16, 8, 4, 2 or 1 for each, as the digits in
/// the name of the dtype tell, or half a byte, rounded up in all. Other dtypes are refused.
#[verifier::rlimit(40)]
pub proof fn law_dtypes_have_their_widths(
    dtype: Seq<char>,
    shape: Seq<usize>,
    path: Seq<char>,
    name: Seq<char>,
    size: usize,
)
    requires
        dequant::size_product(shape) is Some,
    ensures
        ({
            let n = dequant::size_product(shape)->Some_0;
            let takes = expected_size(dtype, shape, path, name) == Ok::<usize, ErrorView>(size);
            &&& dtype == "C128"@ ==> (takes <==> size == 16 * n)
            &&& dtype == "F64"@ ==> (takes <==> size == 8 * n)
            &&& dtype == "I64"@ ==> (takes <==> size == 8 * n)
            &&& dtype == "U64"@ ==> (takes <==> size == 8 * n)
            &&& dtype == "C64"@ ==> (takes <==> size == 8 * n)
            &&& dtype == "F32"@ ==> (takes <==> size == 4 * n)
            &&& dtype == "TF32"@ ==> (takes <==> size == 4 * n)
            &&& dtype == "I32"@ ==> (takes <==> size == 4 * n)
            &&& dtype == "U32"@ ==> (takes <==> size == 4 * n)
            &&& dtype == "F16"@ ==> (takes <==> size == 2 * n)
            &&& dtype == "BF16"@ ==> (takes <==> size == 2 * n)
            &&& dtype == "I16"@ ==> (takes <==> size == 2 * n)
            &&& dtype == "U16"@ ==> (takes <==> size == 2 * n)
            &&& dtype == "F8_E5M2"@ ==> (takes <==> size == 1 * n)
            &&& dtype == "F8_E4M3"@ ==> (takes <==> size == 1 * n)
            &&& dtype == "F8_E8M0"@ ==> (takes <==> size == 1 * n)
            &&& dtype == "I8"@ ==> (takes <==> size == 1 * n)
            &&& dtype == "U8"@ ==> (takes <==> size == 1 * n)
            &&& dtype == "BOOL"@ ==> (takes <==> size == 1 * n)
            &&& dtype == "INT4"@ ==> (takes <==> n <= 2 * size <= n + 1)
            &&& dtype == "I4"@ ==> (takes <==> n <= 2 * size <= n + 1)
            &&& dtype == "U4"@ ==> (takes <==> n <= 2 * size <= n + 1)
            &&& takes ==> dtype == "C128"@ || dtype == "F64"@ || dtype == "I64"@
                || dtype == "U64"@ || dtype == "C64"@ || dtype == "F32"@ || dtype == "TF32"@
                || dtype == "I32"@ || dtype == "U32"@ || dtype == "F16"@ || dtype == "BF16"@
                || dtype == "I16"@ || dtype == "U16"@ || dtype == "F8_E5M2"@
                || dtype == "F8_E4M3"@ || dtype == "F8_E8M0"@ || dtype == "I8"@ || dtype == "U8"@
                || dtype == "BOOL"@ || dtype == "INT4"@ || dtype == "I4"@ || dtype == "U4"@
        }),
        dtype == "C128"@ ==> dtype_width(dtype) == Some(16usize),
        dtype == "F64"@ ==> dtype_width(dtype) == Some(8usize),
        dtype == "I64"@ ==> dtype_width(dtype) == Some(8usize),
        dtype == "U64"@ ==> dtype_width(dtype) == Some(8usize),
        dtype == "C64"@ ==> dtype_width(dtype) == Some(8usize),
        dtype == "F32"@ ==> dtype_width(dtype) == Some(4usize),
        dtype == "TF32"@ ==> dtype_width(dtype) == Some(4usize),
        dtype == "I32"@ ==> dtype_width(dtype) == Some(4usize),
        dtype == "U32"@ ==> dtype_width(dtype) == Some(4usize),
        dtype == "F16"@ ==> dtype_width(dtype) == Some(2usize),
        dtype == "BF16"@ ==> dtype_width(dtype) == Some(2usize),
        dtype == "I16"@ ==> dtype_width(dtype) == Some(2usize),
        dtype == "U16"@ ==> dtype_width(dtype) == Some(2usize),
        dtype == "F8_E5M2"@ ==> dtype_width(dtype) == Some(1usize),
        dtype == "F8_E4M3"@ ==> dtype_width(dtype) == Some(1usize),
        dtype == "F8_E8M0"@ ==> dtype_width(dtype) == Some(1usize),
        dtype == "I8"@ ==> dtype_width(dtype) == Some(1usize),
        dtype == "U8"@ ==> dtype_width(dtype) == Some(1usize),
        dtype == "BOOL"@ ==> dtype_width(dtype) == Some(1usize),
{
    lemma_dtype_names_differ(dtype);
    match dtype_width(dtype) {
        Some(width) => {
            if !packed_dtype(dtype) {
                lemma_wide(dtype, shape, path, name, size, width);
            }
        },
        None => {},
    }
    if packed_dtype(dtype) {
        lemma_halved(dtype, shape, path, name, size);
    }
}

proof fn lemma_wide(
    dtype: Seq<char>,
    shape: Seq<usize>,
    path: Seq<char>,
    name: Seq<char>,
    size: usize,
    width: usize,
)
    requires
        dequant::size_product(shape) is Some,
        dtype_width(dtype) == Some(width),
        !packed_dtype(dtype),
    ensures
        expected_size(dtype, shape, path, name) == Ok::<usize, ErrorView>(size) <==> size == width
            * dequant::size_product(shape)->Some_0,
{
    let n = dequant::size_product(shape)->Some_0;
    assert(n * width == width * n) by (nonlinear_arith);
}

proof fn lemma_halved(
    dtype: Seq<char>,
    shape: Seq<usize>,
    path: Seq<char>,
    name: Seq<char>,
    size: usize,
)
    requires
        dequant::size_product(shape) is Some,
        packed_dtype(dtype),
    ensures
        ({
            let n = dequant::size_product(shape)->Some_0;
            expected_size(dtype, shape, path, name) == Ok::<usize, ErrorView>(size) <==> n <= 2
                * size <= n + 1
        }),
{
    let n = dequant::size_product(shape)->Some_0;
    assert(n <= usize::MAX) by {
        if shape.len() > 0 {
            assert(dequant::size_product(shape.drop_last()) is Some);
        }
    }
    assert((n + 1) / 2 <= usize::MAX);
}

} // verus!
