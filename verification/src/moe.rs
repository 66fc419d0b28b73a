//! Raw expert weights of Mixture of Experts checkpoints.
//!
//! Two storage conventions are understood. A stacked tensor
//! (`blk.0.ffn_gate_exps.weight`) holds all experts of a block along its outermost
//! dimension; otherwise each expert has tensors of its own (`blk.0.ffn_gate.3.weight` or
//! `blk.0.ffn_gate_3.weight`).

use crate::error;
use crate::error::{ErrorView, ParserError};
use crate::gguf::dequant;
use crate::gguf::layout;
use crate::gguf::layout::{tensor_problem, GgufLayout};
use crate::gguf::tensor;
use crate::gguf::tensor::{DType, Tensor, TensorView};
use crate::ordered;
use crate::sorting;
use crate::sorting::{KeyView, SortKey};
use crate::text;
use vstd::prelude::*;

verus! {

// ---------------------------------------------------------------------------
// Tensor names
// ---------------------------------------------------------------------------
/// Projection of a feed-forward expert.
#[derive(Debug, Clone, Copy, PartialEq, Eq, Structural)]
pub enum ExpertRole {
    Gate,
    Up,
    Down,
}

/// How a tensor name says which expert it belongs to.
#[derive(Debug, Clone, Copy, PartialEq, Eq, Structural)]
pub enum ExpertForm {
    /// All experts of the block in one tensor.
    Stacked,
    /// One expert, its number behind a dot.
    Dotted(usize),
    /// One expert, its number behind an underscore.
    Underscored(usize),
}

/// What the name of an expert tensor says.
#[derive(Debug, Clone, Copy, PartialEq, Eq, Structural)]
pub struct ExpertName {
    pub block: usize,
    pub role: ExpertRole,
    pub form: ExpertForm,
}

/// The middle of a tensor name.
pub open spec fn role_text(role: ExpertRole) -> Seq<char> {
    match role {
        ExpertRole::Gate => ".ffn_gate"@,
        ExpertRole::Up => ".ffn_up"@,
        ExpertRole::Down => ".ffn_down"@,
    }
}

/// The end of a tensor name.
pub open spec fn form_text(form: ExpertForm) -> Seq<char> {
    match form {
        ExpertForm::Stacked => "_exps.weight"@,
        ExpertForm::Dotted(expert) => "."@ + text::decimal(expert as nat) + ".weight"@,
        ExpertForm::Underscored(expert) => "_"@ + text::decimal(expert as nat) + ".weight"@,
    }
}

/// The name of an expert tensor.
pub open spec fn name_of(name: ExpertName) -> Seq<char> {
    "blk."@ + text::decimal(name.block as nat) + role_text(name.role) + form_text(name.form)
}

/// The name of an expert tensor.
pub fn expert_tensor_name(name: ExpertName) -> (r: String)
    ensures
        r@ == name_of(name),
{
    let role = match name.role {
        ExpertRole::Gate => ".ffn_gate",
        ExpertRole::Up => ".ffn_up",
        ExpertRole::Down => ".ffn_down",
    };
    let form = match name.form {
        ExpertForm::Stacked => "_exps.weight".to_owned(),
        ExpertForm::Dotted(expert) => text::concat3(
            ".",
            text::decimal_string(expert as u64).as_str(),
            ".weight",
        ),
        ExpertForm::Underscored(expert) => text::concat3(
            "_",
            text::decimal_string(expert as u64).as_str(),
            ".weight",
        ),
    };
    text::concat4("blk.", text::decimal_string(name.block as u64).as_str(), role, form.as_str())
}

/// The end of the digits at `i`.
spec fn digits_end(s: Seq<char>, i: int) -> int
    decreases s.len() - i,
{
    if 0 <= i < s.len() && text::digit_value(s[i]) is Some {
        digits_end(s, i + 1)
    } else {
        i
    }
}

/// The number at `i`, and its end.
spec fn number_at(s: Seq<char>, i: int) -> Option<(usize, int)> {
    let end = digits_end(s, i);
    let value = text::digits_value(s.subrange(i, end));
    if end == i || value > usize::MAX {
        None
    } else {
        Some((value as usize, end))
    }
}

/// The role at `i`, and its end.
spec fn role_at(s: Seq<char>, i: int) -> Option<(ExpertRole, int)> {
    if text::occurs_at(s, i, ".ffn_gate"@) {
        Some((ExpertRole::Gate, i + 9))
    } else if text::occurs_at(s, i, ".ffn_up"@) {
        Some((ExpertRole::Up, i + 7))
    } else if text::occurs_at(s, i, ".ffn_down"@) {
        Some((ExpertRole::Down, i + 9))
    } else {
        None
    }
}

/// The form at `i`.
spec fn form_at(s: Seq<char>, i: int) -> Option<ExpertForm> {
    if 0 <= i && i + 1 < s.len() && text::digit_value(s[i + 1]) is Some && (s[i] == '.' || s[i]
        == '_') {
        match number_at(s, i + 1) {
            Some((expert, _)) => if s[i] == '.' {
                Some(ExpertForm::Dotted(expert))
            } else {
                Some(ExpertForm::Underscored(expert))
            },
            None => None,
        }
    } else {
        Some(ExpertForm::Stacked)
    }
}

/// The only name that the text can be.
spec fn candidate(s: Seq<char>) -> Option<ExpertName> {
    if !text::occurs_at(s, 0, "blk."@) {
        None
    } else {
        match number_at(s, 4) {
            None => None,
            Some((block, d)) => match role_at(s, d) {
                None => None,
                Some((role, t)) => match form_at(s, t) {
                    None => None,
                    Some(form) => Some(ExpertName { block, role, form }),
                },
            },
        }
    }
}

proof fn lemma_digits_end(s: Seq<char>, i: int, end: int)
    requires
        0 <= i <= end <= s.len(),
        forall|k: int| i <= k < end ==> text::digit_value(#[trigger] s[k]) is Some,
        end < s.len() ==> text::digit_value(s[end]) is None,
    ensures
        digits_end(s, i) == end,
    decreases end - i,
{
    if i < end {
        lemma_digits_end(s, i + 1, end);
    }
}

proof fn lemma_number_at(s: Seq<char>, i: int, n: usize)
    requires
        text::occurs_at(s, i, text::decimal(n as nat)),
        i + text::decimal(n as nat).len() < s.len(),
        text::digit_value(s[i + text::decimal(n as nat).len()]) is None,
    ensures
        number_at(s, i) == Some((n, i + text::decimal(n as nat).len())),
        text::digit_value(s[i]) is Some,
{
    let digits = text::decimal(n as nat);
    text::lemma_decimal(n as nat);
    let end = i + digits.len();
    assert forall|k: int| i <= k < end implies text::digit_value(#[trigger] s[k]) is Some by {
        assert(s.subrange(i, end)[k - i] == s[k]);
        assert(text::digit_value(digits[k - i]) is Some);
    }
    lemma_digits_end(s, i, end);
}

proof fn lemma_form_at(before: Seq<char>, form: ExpertForm)
    ensures
        form_at(before + form_text(form), before.len() as int) == Some(form),
{
    let s = before + form_text(form);
    let i = before.len() as int;
    reveal_strlit("_exps.weight");
    reveal_strlit(".");
    reveal_strlit("_");
    reveal_strlit(".weight");
    match form {
        ExpertForm::Stacked => {
            assert(s[i + 1] == 'e');
        },
        ExpertForm::Dotted(expert) => {
            let digits = text::decimal(expert as nat);
            text::lemma_decimal(expert as nat);
            assert(s.subrange(i + 1, i + 1 + digits.len()) =~= digits);
            assert(s[i + 1 + digits.len()] == '.');
            lemma_number_at(s, i + 1, expert);
            assert(s[i] == '.');
        },
        ExpertForm::Underscored(expert) => {
            let digits = text::decimal(expert as nat);
            text::lemma_decimal(expert as nat);
            assert(s.subrange(i + 1, i + 1 + digits.len()) =~= digits);
            assert(s[i + 1 + digits.len()] == '.');
            lemma_number_at(s, i + 1, expert);
            assert(s[i] == '_');
        },
    }
}

proof fn lemma_role_at(before: Seq<char>, role: ExpertRole, after: Seq<char>)
    ensures
        role_at(before + role_text(role) + after, before.len() as int) == Some(
            (role, (before + role_text(role)).len() as int),
        ),
{
    let s = before + role_text(role) + after;
    let i = before.len() as int;
    reveal_strlit(".ffn_gate");
    reveal_strlit(".ffn_up");
    reveal_strlit(".ffn_down");
    assert(s.subrange(i, i + role_text(role).len()) =~= role_text(role));
    assert(s[i + 5] == role_text(role)[5]);
    if text::occurs_at(s, i, ".ffn_gate"@) {
        assert(s.subrange(i, i + 9)[5] == s[i + 5]);
    }
    if text::occurs_at(s, i, ".ffn_up"@) {
        assert(s.subrange(i, i + 7)[5] == s[i + 5]);
    }
}

proof fn lemma_candidate(name: ExpertName)
    ensures
        candidate(name_of(name)) == Some(name),
{
    let s = name_of(name);
    let digits = text::decimal(name.block as nat);
    let head = "blk."@ + digits;
    reveal_strlit("blk.");
    reveal_strlit(".ffn_gate");
    reveal_strlit(".ffn_up");
    reveal_strlit(".ffn_down");
    assert(s.subrange(0, 4) =~= "blk."@);
    assert(s.subrange(4, 4int + digits.len()) =~= digits);
    assert(s[4int + digits.len()] == role_text(name.role)[0]);
    lemma_number_at(s, 4, name.block);
    lemma_role_at(head, name.role, form_text(name.form));
    lemma_form_at(head + role_text(name.role), name.form);
}

/// The name of an expert tensor says one thing only.
pub proof fn law_expert_names_are_unambiguous(a: ExpertName, b: ExpertName)
    requires
        name_of(a) == name_of(b),
    ensures
        a == b,
{
    lemma_candidate(a);
    lemma_candidate(b);
}

fn is_digit(c: char) -> (r: bool)
    ensures
        r == (text::digit_value(c) is Some),
{
    '0' <= c && c <= '9'
}

fn read_number(chars: &Vec<char>, i: usize) -> (r: Option<(usize, usize)>)
    requires
        i <= chars@.len(),
    ensures
        match r {
            Some((n, end)) => number_at(chars@, i as int) == Some((n, end as int)) && i <= end
                <= chars@.len(),
            None => number_at(chars@, i as int) is None,
        },
{
    let mut end: usize = i;
    while end < chars.len() && is_digit(chars[end])
        invariant
            i <= end <= chars@.len(),
            digits_end(chars@, i as int) == digits_end(chars@, end as int),
            forall|k: int| i <= k < end ==> text::digit_value(#[trigger] chars@[k]) is Some,
        decreases chars@.len() - end,
    {
        end += 1;
    }
    let ghost body = chars@.subrange(i as int, end as int);
    assert(text::all_digits(body));
    if end == i {
        return None;
    }
    match text::digits_number(chars.as_slice(), i, end) {
        Some(n) => if n > usize::MAX as u64 {
            None
        } else {
            Some((n as usize, end))
        },
        None => None,
    }
}

fn read_role(chars: &Vec<char>, i: usize) -> (r: Option<(ExpertRole, usize)>)
    requires
        i <= chars@.len(),
    ensures
        match r {
            Some((role, end)) => role_at(chars@, i as int) == Some((role, end as int)) && end
                <= chars@.len(),
            None => role_at(chars@, i as int) is None,
        },
{
    proof {
        reveal_strlit(".ffn_gate");
        reveal_strlit(".ffn_up");
        reveal_strlit(".ffn_down");
    }
    assert(chars.len() == chars@.len());
    if text::occurs(chars.as_slice(), i, ".ffn_gate") {
        Some((ExpertRole::Gate, i + 9))
    } else if text::occurs(chars.as_slice(), i, ".ffn_up") {
        Some((ExpertRole::Up, i + 7))
    } else if text::occurs(chars.as_slice(), i, ".ffn_down") {
        Some((ExpertRole::Down, i + 9))
    } else {
        None
    }
}

fn read_form(chars: &Vec<char>, i: usize) -> (r: Option<ExpertForm>)
    requires
        i <= chars@.len(),
    ensures
        r == form_at(chars@, i as int),
{
    if chars.len() - i >= 2 && is_digit(chars[i + 1]) && (chars[i] == '.' || chars[i] == '_') {
        match read_number(chars, i + 1) {
            Some((expert, _)) => if chars[i] == '.' {
                Some(ExpertForm::Dotted(expert))
            } else {
                Some(ExpertForm::Underscored(expert))
            },
            None => None,
        }
    } else {
        Some(ExpertForm::Stacked)
    }
}

fn read_candidate(chars: &Vec<char>) -> (r: Option<ExpertName>)
    ensures
        r == candidate(chars@),
{
    proof {
        reveal_strlit("blk.");
    }
    if !text::occurs(chars.as_slice(), 0, "blk.") {
        return None;
    }
    let (block, d): (usize, usize) = match read_number(chars, 4) {
        Some(found) => found,
        None => {
            return None;
        },
    };
    let (role, t): (ExpertRole, usize) = match read_role(chars, d) {
        Some(found) => found,
        None => {
            return None;
        },
    };
    match read_form(chars, t) {
        Some(form) => Some(ExpertName { block, role, form }),
        None => None,
    }
}

/// Read the name of an expert tensor; `None` for any other name.
pub fn parse_expert_name(name: &str) -> (r: Option<ExpertName>)
    ensures
        match r {
            Some(parts) => name_of(parts) == name@,
            None => forall|parts: ExpertName| #[trigger] name_of(parts) != name@,
        },
{
    let chars = text::chars_of(name);
    let found = read_candidate(&chars);
    proof {
        assert forall|parts: ExpertName| #[trigger] name_of(parts) == name@ implies candidate(name@)
            == Some(parts) by {
            lemma_candidate(parts);
        }
    }
    match found {
        Some(parts) => {
            let spelled = expert_tensor_name(parts);
            if text::equal(spelled.as_str(), name) {
                Some(parts)
            } else {
                None
            }
        },
        None => None,
    }
}

// ---------------------------------------------------------------------------
// Listing
// ---------------------------------------------------------------------------
/// The number of experts along the outermost dimension of a stacked tensor.
pub open spec fn stacked_experts(t: TensorView) -> nat {
    if t.dims.len() >= 2 {
        t.dims.last() as nat
    } else {
        0
    }
}

/// The tensor of the given name has weights of the expert.
pub open spec fn holds_expert(name: ExpertName, t: TensorView, block: usize, expert: usize) -> bool {
    name.block == block && match name.form {
        ExpertForm::Stacked => expert < stacked_experts(t),
        ExpertForm::Dotted(e) => e == expert,
        ExpertForm::Underscored(e) => e == expert,
    }
}

/// Some tensor has weights of the expert.
pub open spec fn has_expert(
    tensors: Map<Seq<char>, TensorView>,
    block: usize,
    expert: usize,
) -> bool {
    exists|name: ExpertName|
        tensors.contains_key(#[trigger] name_of(name)) && holds_expert(
            name,
            tensors[name_of(name)],
            block,
            expert,
        )
}

/// The order of pairs: by block, then by expert.
pub open spec fn pair_less(a: (usize, usize), b: (usize, usize)) -> bool {
    a.0 < b.0 || (a.0 == b.0 && a.1 < b.1)
}

fn add_experts(
    pairs: &mut Vec<(usize, usize)>,
    name: ExpertName,
    tensor: &Tensor,
)
    ensures
        forall|p: (usize, usize)| #[trigger]
            final(pairs)@.contains(p) <==> old(pairs)@.contains(p) || holds_expert(
                name,
                tensor@,
                p.0,
                p.1,
            ),
{
    let ghost before = pairs@;
    let (first, last): (usize, usize) = match name.form {
        ExpertForm::Stacked => if tensor.dims.len() >= 2 {
            (0, tensor.dims[tensor.dims.len() - 1])
        } else {
            (0, 0)
        },
        ExpertForm::Dotted(e) | ExpertForm::Underscored(e) => {
            pairs.push((name.block, e));
            (0, 0)
        },
    };
    let ghost start = pairs@;
    proof {
        assert forall|p: (usize, usize)| #[trigger] start.contains(p) <==> before.contains(p) || (
        !(name.form is Stacked) && holds_expert(name, tensor@, p.0, p.1)) by {
            if name.form is Stacked {
                assert(start == before);
            } else {
                let q = start.last();
                if before.contains(p) {
                    let k = before.index_of(p);
                    assert(start[k] == p);
                }
                if p == q {
                    assert(start[before.len() as int] == p);
                }
                if start.contains(p) {
                    let k = start.index_of(p);
                    if k < before.len() {
                        assert(before[k] == p);
                    }
                }
            }
        }
    }
    let mut e: usize = first;
    while e < last
        invariant
            e <= last,
            name.form is Stacked || last == 0,
            forall|p: (usize, usize)| #[trigger]
                pairs@.contains(p) <==> start.contains(p) || (p.0 == name.block && p.1 < e),
        decreases last - e,
    {
        let ghost seen = pairs@;
        pairs.push((name.block, e));
        assert forall|p: (usize, usize)| #[trigger] pairs@.contains(p) <==> start.contains(p) || (
        p.0 == name.block && p.1 < e + 1) by {
            assert(seen.contains(p) <==> start.contains(p) || (p.0 == name.block && p.1 < e));
            if seen.contains(p) {
                let k = seen.index_of(p);
                assert(pairs@[k] == p);
            }
            if p == (name.block, e) {
                assert(pairs@[seen.len() as int] == p);
            }
            if pairs@.contains(p) {
                let k = pairs@.index_of(p);
                if k < seen.len() {
                    assert(seen[k] == p);
                }
            }
        }
        e += 1;
    }
}

fn sort_pairs(pairs: &Vec<(usize, usize)>) -> (r: Vec<(usize, usize)>)
    ensures
        forall|i: int, j: int|
            0 <= i < j < r@.len() ==> pair_less(#[trigger] r@[i], #[trigger] r@[j]),
        forall|p: (usize, usize)| #[trigger] r@.contains(p) <==> pairs@.contains(p),
{
    let ghost wanted = Seq::new(
        pairs@.len(),
        |i: int|
            KeyView {
                first: pairs@[i].0 as u64,
                second: pairs@[i].1 as u64,
                name: Seq::<char>::empty(),
                shard: Seq::<char>::empty(),
            },
    );
    proof {
        reveal_strlit("");
        assert(""@ =~= Seq::<char>::empty());
    }
    let mut keys: Vec<SortKey> = Vec::new();
    let mut i: usize = 0;
    while i < pairs.len()
        invariant
            i <= pairs@.len(),
            ""@ == Seq::<char>::empty(),
            wanted == Seq::new(
                pairs@.len(),
                |i: int|
                    KeyView {
                        first: pairs@[i].0 as u64,
                        second: pairs@[i].1 as u64,
                        name: Seq::<char>::empty(),
                        shard: Seq::<char>::empty(),
                    },
            ),
            sorting::key_views(keys@) =~= wanted.take(i as int),
        decreases pairs@.len() - i,
    {
        let ghost before = sorting::key_views(keys@);
        let key = SortKey {
            first: pairs[i].0 as u64,
            second: pairs[i].1 as u64,
            name: "".to_owned(),
            shard: "".to_owned(),
        };
        assert(key@ == wanted[i as int]);
        keys.push(key);
        assert(sorting::key_views(keys@) =~= before.push(key@));
        i += 1;
    }
    assert(sorting::key_views(keys@) =~= wanted);
    let order = sorting::sort_positions(&keys);
    let ghost positions = sorting::positions(order@);
    let mut r: Vec<(usize, usize)> = Vec::new();
    let mut k: usize = 0;
    while k < order.len()
        invariant
            k <= order@.len(),
            order@.len() == pairs@.len(),
            positions == sorting::positions(order@),
            forall|j: int| 0 <= j < order@.len() ==> #[trigger] order@[j] < pairs@.len(),
            forall|i: int, j: int|
                0 <= i < j < positions.len() ==> sorting::before(
                    wanted,
                    #[trigger] positions[i],
                    #[trigger] positions[j],
                ),
            wanted.len() == pairs@.len(),
            forall|i: int|
                0 <= i < pairs@.len() ==> (#[trigger] wanted[i]).first == pairs@[i].0
                    && wanted[i].second == pairs@[i].1 && wanted[i].name == Seq::<char>::empty()
                    && wanted[i].shard == Seq::<char>::empty(),
            r@.len() == 0 <==> k == 0,
            k > 0 ==> r@.last() == pairs@[positions[k - 1]],
            forall|i: int, j: int|
                0 <= i < j < r@.len() ==> pair_less(#[trigger] r@[i], #[trigger] r@[j]),
            forall|p: (usize, usize)| #[trigger]
                r@.contains(p) <==> exists|j: int|
                    0 <= j < k && pairs@[#[trigger] positions[j]] == p,
        decreases order@.len() - k,
    {
        let pair: (usize, usize) = pairs[order[k]];
        assert(positions[k as int] == order@[k as int]);
        let fresh = if r.len() == 0 {
            true
        } else {
            let last: (usize, usize) = r[r.len() - 1];
            last.0 != pair.0 || last.1 != pair.1
        };
        let ghost before = r@;
        proof {
            text::lemma_less_total_order();
            if k > 0 {
                assert(sorting::before(wanted, positions[k - 1], positions[k as int]));
                assert(wanted[positions[k - 1]].first == pairs@[positions[k - 1]].0);
                assert(wanted[positions[k as int]].first == pairs@[positions[k as int]].0);
            }
        }
        if fresh {
            r.push(pair);
            assert forall|i: int, j: int| 0 <= i < j < r@.len() implies pair_less(
                #[trigger] r@[i],
                #[trigger] r@[j],
            ) by {
                if j == before.len() {
                    assert(pair_less(before.last(), pair));
                    if i < before.len() - 1 {
                        assert(pair_less(before[i], before[before.len() - 1]));
                    }
                } else {
                    assert(pair_less(before[i], before[j]));
                }
            }
        }
        assert forall|p: (usize, usize)| #[trigger] r@.contains(p) <==> exists|j: int|
            0 <= j < k + 1 && pairs@[#[trigger] positions[j]] == p by {
            if r@.contains(p) {
                let m = r@.index_of(p);
                if m < before.len() {
                    assert(before[m] == p);
                    assert(before.contains(p));
                    let j = choose|j: int| 0 <= j < k && pairs@[#[trigger] positions[j]] == p;
                    assert(pairs@[positions[j]] == p);
                } else {
                    assert(pairs@[positions[k as int]] == p);
                }
            }
            if exists|j: int| 0 <= j < k + 1 && pairs@[#[trigger] positions[j]] == p {
                let j = choose|j: int| 0 <= j < k + 1 && pairs@[#[trigger] positions[j]] == p;
                if j < k {
                    assert(before.contains(p));
                    let m = before.index_of(p);
                    assert(r@[m] == p);
                } else {
                    assert(r@[r@.len() - 1] == p);
                }
            }
        }
        k += 1;
    }
    assert forall|p: (usize, usize)| #[trigger] r@.contains(p) <==> pairs@.contains(p) by {
        if r@.contains(p) {
            let j = choose|j: int| 0 <= j < k && pairs@[#[trigger] positions[j]] == p;
            assert(pairs@[positions[j]] == p);
        }
        if pairs@.contains(p) {
            let i = pairs@.index_of(p);
            assert(positions.contains(i));
            let j = positions.index_of(i);
            assert(pairs@[positions[j]] == p);
        }
    }
    r
}

/// All `(block, expert)` pairs that some tensor has weights of, in order, each once.
pub fn list_experts(layout: &GgufLayout) -> (r: Vec<(usize, usize)>)
    ensures
        forall|i: int, j: int|
            0 <= i < j < r@.len() ==> pair_less(#[trigger] r@[i], #[trigger] r@[j]),
        forall|p: (usize, usize)| #[trigger]
            r@.contains(p) <==> has_expert(layout.header().tensors, p.0, p.1),
{
    let ghost tensors = layout.header().tensors;
    let keys = layout.tensors.keys();
    let ghost names = text::views(keys@);
    let mut pairs: Vec<(usize, usize)> = Vec::new();
    let mut i: usize = 0;
    while i < keys.len()
        invariant
            i <= keys@.len(),
            tensors == ordered::value_views(layout.tensors@),
            names == text::views(keys@),
            forall|k: Seq<char>| #[trigger] names.contains(k) <==> layout.tensors@.contains_key(k),
            forall|p: (usize, usize)| #[trigger]
                pairs@.contains(p) <==> exists|j: int, name: ExpertName|
                    0 <= j < i && #[trigger] names[j] == #[trigger] name_of(name) && holds_expert(
                        name,
                        tensors[names[j]],
                        p.0,
                        p.1,
                    ),
        decreases keys@.len() - i,
    {
        let ghost before = pairs@;
        assert(names[i as int] == keys@[i as int]@);
        assert(names.contains(names[i as int]));
        let parsed = parse_expert_name(keys[i].as_str());
        match parsed {
            Some(name) => match layout.tensors.get(keys[i].as_str()) {
                Some(tensor) => {
                    assert(tensors[names[i as int]] == tensor@);
                    add_experts(&mut pairs, name, tensor);
                },
                None => {
                    assert(false);
                },
            },
            None => {},
        }
        assert forall|p: (usize, usize)| #[trigger] pairs@.contains(p) <==> exists|
            j: int,
            name: ExpertName,
        |
            0 <= j < i + 1 && #[trigger] names[j] == #[trigger] name_of(name) && holds_expert(
                name,
                tensors[names[j]],
                p.0,
                p.1,
            ) by {
            if pairs@.contains(p) {
                if before.contains(p) {
                    let (j, name) = choose|j: int, name: ExpertName|
                        0 <= j < i && #[trigger] names[j] == #[trigger] name_of(name)
                            && holds_expert(name, tensors[names[j]], p.0, p.1);
                    assert(names[j] == name_of(name));
                } else {
                    let name = parsed->Some_0;
                    assert(names[i as int] == name_of(name));
                }
            }
            if exists|j: int, name: ExpertName|
                0 <= j < i + 1 && #[trigger] names[j] == #[trigger] name_of(name) && holds_expert(
                    name,
                    tensors[names[j]],
                    p.0,
                    p.1,
                ) {
                let (j, name) = choose|j: int, name: ExpertName|
                    0 <= j < i + 1 && #[trigger] names[j] == #[trigger] name_of(name)
                        && holds_expert(name, tensors[names[j]], p.0, p.1);
                if j < i {
                    assert(before.contains(p));
                } else {
                    assert(name_of(name) == names[i as int]);
                    law_expert_names_are_unambiguous(name, parsed->Some_0);
                }
            }
        }
        i += 1;
    }
    let r = sort_pairs(&pairs);
    assert forall|p: (usize, usize)| #[trigger] r@.contains(p) <==> has_expert(
        tensors,
        p.0,
        p.1,
    ) by {
        assert(r@.contains(p) <==> pairs@.contains(p));
        if pairs@.contains(p) {
            let (j, name) = choose|j: int, name: ExpertName|
                0 <= j < i && #[trigger] names[j] == #[trigger] name_of(name) && holds_expert(
                    name,
                    tensors[names[j]],
                    p.0,
                    p.1,
                );
            assert(names.contains(names[j]));
            assert(tensors.contains_key(name_of(name)));
        }
        if has_expert(tensors, p.0, p.1) {
            let name = choose|name: ExpertName|
                tensors.contains_key(#[trigger] name_of(name)) && holds_expert(
                    name,
                    tensors[name_of(name)],
                    p.0,
                    p.1,
                );
            assert(names.contains(name_of(name)));
            let j = names.index_of(name_of(name));
            assert(names[j] == name_of(name));
        }
    }
    r
}

// ---------------------------------------------------------------------------
// Extraction
// ---------------------------------------------------------------------------
/// Raw bytes and shape of one projection of an expert.
#[derive(Debug, Clone, PartialEq, Eq)]
pub struct RawTensor {
    /// Name of the tensor that the bytes were taken from.
    pub source_name: String,
    /// Shape of the projection (GGML innermost-first order).
    pub dims: Vec<usize>,
    /// Element type.
    pub dtype: DType,
    /// Packed payload.
    pub bytes: Vec<u8>,
    /// Whether the bytes are a slice of a stacked tensor.
    pub stacked_slice: bool,
}

/// What a [`RawTensor`] says.
#[verifier::ext_equal]
pub struct RawView {
    pub source_name: Seq<char>,
    pub dims: Seq<usize>,
    pub dtype: DType,
    pub bytes: Seq<u8>,
    pub stacked_slice: bool,
}

impl View for RawTensor {
    type V = RawView;

    open spec fn view(&self) -> RawView {
        RawView {
            source_name: self.source_name@,
            dims: self.dims@,
            dtype: self.dtype,
            bytes: self.bytes@,
            stacked_slice: self.stacked_slice,
        }
    }
}

/// Raw weights of one expert.
#[derive(Debug, Clone, PartialEq, Eq)]
pub struct MoeExpertWeights {
    /// Block index.
    pub block: usize,
    /// Expert index within the block.
    pub expert: usize,
    /// Gate projection, where the checkpoint has it.
    pub gate: Option<RawTensor>,
    /// Up projection, where the checkpoint has it.
    pub up: Option<RawTensor>,
    /// Down projection, where the checkpoint has it.
    pub down: Option<RawTensor>,
}

/// What [`MoeExpertWeights`] say.
#[verifier::ext_equal]
pub struct ExpertWeightsView {
    pub block: usize,
    pub expert: usize,
    pub gate: Option<RawView>,
    pub up: Option<RawView>,
    pub down: Option<RawView>,
}

/// What a projection says, if there is one.
pub open spec fn raw_view(t: Option<RawTensor>) -> Option<RawView> {
    match t {
        Some(t) => Some(t@),
        None => None,
    }
}

impl View for MoeExpertWeights {
    type V = ExpertWeightsView;

    open spec fn view(&self) -> ExpertWeightsView {
        ExpertWeightsView {
            block: self.block,
            expert: self.expert,
            gate: raw_view(self.gate),
            up: raw_view(self.up),
            down: raw_view(self.down),
        }
    }
}

impl MoeExpertWeights {
    /// All three projections are there.
    pub fn is_complete(&self) -> (r: bool)
        ensures
            r == (self.gate is Some && self.up is Some && self.down is Some),
    {
        self.gate.is_some() && self.up.is_some() && self.down.is_some()
    }
}

/// The slice of an expert in a stacked tensor.
pub open spec fn stacked_slice(
    bytes: Seq<u8>,
    path: Seq<char>,
    t: TensorView,
    block: usize,
    expert: usize,
) -> Result<RawView, ErrorView> {
    if t.dims.len() < 2 {
        Err(layout::tensor_error(path, t.name, "has no expert axis"@))
    } else if expert >= t.dims.last() {
        Err(ErrorView::ExpertOutOfRange { block, expert, available: t.dims.last() })
    } else {
        match layout::payload(bytes, path, t) {
            Err(e) => Err(e),
            Ok(data) => {
                let share = data.len() as int / t.dims.last() as int;
                if data.len() as int % t.dims.last() as int != 0 {
                    Err(layout::tensor_error(path, t.name, "does not split evenly into experts"@))
                } else {
                    Ok(
                        RawView {
                            source_name: t.name,
                            dims: t.dims.drop_last(),
                            dtype: t.dtype,
                            bytes: data.subrange(expert * share, (expert + 1) * share),
                            stacked_slice: true,
                        },
                    )
                }
            },
        }
    }
}

/// The whole of a tensor that belongs to one expert.
pub open spec fn whole_tensor(bytes: Seq<u8>, path: Seq<char>, t: TensorView) -> Result<
    RawView,
    ErrorView,
> {
    match layout::payload(bytes, path, t) {
        Err(e) => Err(e),
        Ok(data) => Ok(
            RawView {
                source_name: t.name,
                dims: t.dims,
                dtype: t.dtype,
                bytes: data,
                stacked_slice: false,
            },
        ),
    }
}

/// One projection of an expert: a slice of the stacked tensor where there is one,
/// otherwise the expert's own tensor.
pub open spec fn projection(
    bytes: Seq<u8>,
    path: Seq<char>,
    tensors: Map<Seq<char>, TensorView>,
    block: usize,
    expert: usize,
    role: ExpertRole,
) -> Result<Option<RawView>, ErrorView> {
    let stacked = name_of(ExpertName { block, role, form: ExpertForm::Stacked });
    let dotted = name_of(ExpertName { block, role, form: ExpertForm::Dotted(expert) });
    let underscored = name_of(ExpertName { block, role, form: ExpertForm::Underscored(expert) });
    if tensors.contains_key(stacked) {
        optional(stacked_slice(bytes, path, tensors[stacked], block, expert))
    } else if tensors.contains_key(dotted) {
        optional(whole_tensor(bytes, path, tensors[dotted]))
    } else if tensors.contains_key(underscored) {
        optional(whole_tensor(bytes, path, tensors[underscored]))
    } else {
        Ok(None)
    }
}

/// A projection that is there.
pub open spec fn optional(r: Result<RawView, ErrorView>) -> Result<Option<RawView>, ErrorView> {
    match r {
        Ok(v) => Ok(Some(v)),
        Err(e) => Err(e),
    }
}

/// The raw weights of an expert: the first projection that is refused decides, and one of
/// the three must be there.
pub open spec fn expert_weights(
    bytes: Seq<u8>,
    path: Seq<char>,
    tensors: Map<Seq<char>, TensorView>,
    block: usize,
    expert: usize,
) -> Result<ExpertWeightsView, ErrorView> {
    match projection(bytes, path, tensors, block, expert, ExpertRole::Gate) {
        Err(e) => Err(e),
        Ok(gate) => match projection(bytes, path, tensors, block, expert, ExpertRole::Up) {
            Err(e) => Err(e),
            Ok(up) => match projection(bytes, path, tensors, block, expert, ExpertRole::Down) {
                Err(e) => Err(e),
                Ok(down) => if gate is None && up is None && down is None {
                    Err(
                        ErrorView::MissingTensor {
                            name: name_of(
                                ExpertName {
                                    block,
                                    role: ExpertRole::Gate,
                                    form: ExpertForm::Stacked,
                                },
                            ),
                            path,
                        },
                    )
                } else {
                    Ok(ExpertWeightsView { block, expert, gate, up, down })
                },
            },
        },
    }
}

/// What extracting a projection gave.
pub open spec fn projection_outcome(r: Result<Option<RawTensor>, ParserError>) -> Result<
    Option<RawView>,
    ErrorView,
> {
    match r {
        Ok(t) => Ok(raw_view(t)),
        Err(e) => Err(e@),
    }
}

fn copy_bytes(bytes: &[u8]) -> (r: Vec<u8>)
    ensures
        r@ == bytes@,
{
    let mut r: Vec<u8> = Vec::new();
    r.extend_from_slice(bytes);
    assert(r@ =~= bytes@);
    r
}

fn copy_dims(dims: &[usize]) -> (r: Vec<usize>)
    ensures
        r@ == dims@,
{
    let mut r: Vec<usize> = Vec::new();
    r.extend_from_slice(dims);
    assert(r@ =~= dims@);
    r
}

fn extract_slice(layout: &GgufLayout, tensor: &Tensor, block: usize, expert: usize) -> (r: Result<
    RawTensor,
    ParserError,
>)
    ensures
        error::viewed(r) == stacked_slice(layout.bytes@, layout.path@, tensor@, block, expert),
{
    let rank: usize = tensor.dims.len();
    if rank < 2 {
        return Err(tensor_problem(layout.path.as_str(), tensor.name.as_str(), "has no expert axis"));
    }
    let available: usize = tensor.dims[rank - 1];
    if expert >= available {
        return Err(ParserError::ExpertOutOfRange { block, expert, available });
    }
    let data = match layout.tensor_bytes(tensor) {
        Ok(data) => data,
        Err(e) => {
            return Err(e);
        },
    };
    let total: usize = data.len();
    let share: usize = total / available;
    if total % available != 0 {
        return Err(
            tensor_problem(
                layout.path.as_str(),
                tensor.name.as_str(),
                "does not split evenly into experts",
            ),
        );
    }
    proof {
        assert(total == share * available) by (nonlinear_arith)
            requires
                total as int % available as int == 0,
                share == total as int / available as int,
                available > 0,
        ;
        assert((expert + 1) * share <= available * share) by (nonlinear_arith)
            requires
                expert + 1 <= available,
                share >= 0,
        ;
        assert(available * share == share * available) by (nonlinear_arith);
        assert((expert + 1) * share == expert * share + share) by (nonlinear_arith);
        assert(expert * share >= 0) by (nonlinear_arith)
            requires
                expert >= 0,
                share >= 0,
        ;
    }
    let start: usize = expert * share;
    let slice = vstd::slice::slice_subrange(data, start, start + share);
    let dims = copy_dims(vstd::slice::slice_subrange(tensor.dims.as_slice(), 0, rank - 1));
    assert(dims@ =~= tensor@.dims.drop_last());
    Ok(
        RawTensor {
            source_name: tensor.name.clone(),
            dims,
            dtype: tensor.dtype,
            bytes: copy_bytes(slice),
            stacked_slice: true,
        },
    )
}

fn extract_whole(layout: &GgufLayout, tensor: &Tensor) -> (r: Result<RawTensor, ParserError>)
    ensures
        error::viewed(r) == whole_tensor(layout.bytes@, layout.path@, tensor@),
{
    match layout.tensor_bytes(tensor) {
        Err(e) => Err(e),
        Ok(data) => Ok(
            RawTensor {
                source_name: tensor.name.clone(),
                dims: copy_dims(tensor.dims.as_slice()),
                dtype: tensor.dtype,
                bytes: copy_bytes(data),
                stacked_slice: false,
            },
        ),
    }
}

fn extract_projection(layout: &GgufLayout, block: usize, expert: usize, role: ExpertRole) -> (r:
    Result<Option<RawTensor>, ParserError>)
    ensures
        projection_outcome(r) == projection(
            layout.bytes@,
            layout.path@,
            layout.header().tensors,
            block,
            expert,
            role,
        ),
{
    let stacked = expert_tensor_name(ExpertName { block, role, form: ExpertForm::Stacked });
    if let Some(tensor) = layout.tensors.get(stacked.as_str()) {
        return match extract_slice(layout, tensor, block, expert) {
            Ok(t) => Ok(Some(t)),
            Err(e) => Err(e),
        };
    }
    let dotted = expert_tensor_name(ExpertName { block, role, form: ExpertForm::Dotted(expert) });
    if let Some(tensor) = layout.tensors.get(dotted.as_str()) {
        return match extract_whole(layout, tensor) {
            Ok(t) => Ok(Some(t)),
            Err(e) => Err(e),
        };
    }
    let underscored = expert_tensor_name(
        ExpertName { block, role, form: ExpertForm::Underscored(expert) },
    );
    if let Some(tensor) = layout.tensors.get(underscored.as_str()) {
        return match extract_whole(layout, tensor) {
            Ok(t) => Ok(Some(t)),
            Err(e) => Err(e),
        };
    }
    Ok(None)
}

/// Extract the raw weights of one expert.
///
/// Fails where the expert is out of range of a stacked tensor, or where no tensor has
/// weights of it.
pub fn extract_expert(layout: &GgufLayout, block: usize, expert: usize) -> (r: Result<
    MoeExpertWeights,
    ParserError,
>)
    ensures
        error::viewed(r) == expert_weights(
            layout.bytes@,
            layout.path@,
            layout.header().tensors,
            block,
            expert,
        ),
{
    let gate = match extract_projection(layout, block, expert, ExpertRole::Gate) {
        Ok(t) => t,
        Err(e) => {
            return Err(e);
        },
    };
    let up = match extract_projection(layout, block, expert, ExpertRole::Up) {
        Ok(t) => t,
        Err(e) => {
            return Err(e);
        },
    };
    let down = match extract_projection(layout, block, expert, ExpertRole::Down) {
        Ok(t) => t,
        Err(e) => {
            return Err(e);
        },
    };
    if gate.is_none() && up.is_none() && down.is_none() {
        let name = expert_tensor_name(
            ExpertName { block, role: ExpertRole::Gate, form: ExpertForm::Stacked },
        );
        return Err(ParserError::MissingTensor { name, path: layout.path.clone() });
    }
    Ok(MoeExpertWeights { block, expert, gate, up, down })
}

// ---------------------------------------------------------------------------
// Laws
// ---------------------------------------------------------------------------
/// The payload of the tensor lies in the file and splits evenly into its experts.
pub open spec fn splits(bytes: Seq<u8>, path: Seq<char>, t: TensorView) -> bool {
    layout::payload(bytes, path, t) is Ok && (stacked_experts(t) > 0 ==> t.byte_len as int
        % stacked_experts(t) as int == 0)
}

/// The stacked tensors of a block, where there are any, have the expert.
pub open spec fn stacks_reach(
    tensors: Map<Seq<char>, TensorView>,
    block: usize,
    expert: usize,
) -> bool {
    forall|role: ExpertRole|
        tensors.contains_key(
            #[trigger] name_of(ExpertName { block, role, form: ExpertForm::Stacked }),
        ) ==> expert < stacked_experts(
            tensors[name_of(ExpertName { block, role, form: ExpertForm::Stacked })],
        )
}

proof fn lemma_projection_is_ok(
    bytes: Seq<u8>,
    path: Seq<char>,
    tensors: Map<Seq<char>, TensorView>,
    block: usize,
    expert: usize,
    role: ExpertRole,
)
    requires
        forall|name: Seq<char>| #[trigger]
            tensors.contains_key(name) ==> splits(bytes, path, tensors[name]),
        stacks_reach(tensors, block, expert),
    ensures
        projection(bytes, path, tensors, block, expert, role) is Ok,
{
    let stacked = name_of(ExpertName { block, role, form: ExpertForm::Stacked });
    if tensors.contains_key(stacked) {
        assert(splits(bytes, path, tensors[stacked]));
        assert(expert < stacked_experts(tensors[stacked]));
    }
}

proof fn lemma_product_in_blocks(sizes: Seq<usize>, block: nat)
    requires
        block > 0,
        sizes.len() > 0,
        sizes[0] as nat % block == 0,
        dequant::size_product(sizes) is Some,
    ensures
        dequant::size_product(sizes)->Some_0 % block == 0,
    decreases sizes.len(),
{
    let front = sizes.drop_last();
    if sizes.len() == 1 {
        assert(front =~= Seq::empty());
        assert(dequant::size_product(front) == Some(1nat));
        vstd::arithmetic::mul::lemma_mul_basics_4(sizes[0] as int);
        assert(1nat * sizes.last() as nat == sizes[0] as nat);
        assert(dequant::size_product(sizes) == Some(sizes[0] as nat));
    } else {
        assert(front[0] == sizes[0]);
        assert(dequant::size_product(front) is Some);
        let p = dequant::size_product(front)->Some_0;
        let last = sizes.last() as nat;
        let q = p / block;
        lemma_product_in_blocks(front, block);
        vstd::arithmetic::div_mod::lemma_fundamental_div_mod(p as int, block as int);
        assert(p == block * q);
        vstd::arithmetic::mul::lemma_mul_is_associative(block as int, q as int, last as int);
        vstd::arithmetic::mul::lemma_mul_is_commutative(block as int, (q * last) as int);
        assert(p * last == (q * last) * block);
        vstd::arithmetic::div_mod::lemma_mod_multiples_basic((q * last) as int, block as int);
        assert(dequant::size_product(sizes) == Some(p * last));
    }
}

/// A stacked tensor with the sizes that parsing gives splits evenly, and the share of an
/// expert is the packed length of the projection's own shape.
pub proof fn law_parsed_stacks_split_evenly(t: TensorView)
    requires
        layout::sizes_agree(t),
        stacked_experts(t) > 0,
    ensures
        t.byte_len as int % stacked_experts(t) as int == 0,
        dequant::size_product(t.dims.drop_last()) is Some,
        tensor::packed_len(t.dtype, dequant::size_product(t.dims.drop_last())->Some_0) == Some(
            (t.byte_len as int / stacked_experts(t) as int) as nat,
        ),
{
    let (block, size) = tensor::block_layout(t.dtype)->Some_0;
    let n = t.n_elements as nat;
    let m = stacked_experts(t);
    let inner = t.dims.drop_last();
    let p = dequant::size_product(inner)->Some_0;
    assert(inner[0] == t.dims[0]);
    assert(block > 0);
    lemma_product_in_blocks(inner, block);
    let q = p / block;
    assert(p == block * q) by (nonlinear_arith)
        requires
            p % block == 0,
            q == p / block,
            block > 0,
    ;
    assert(n == p * m);
    assert(n / block == q * m) by (nonlinear_arith)
        requires
            n == p * m,
            p == block * q,
            block > 0,
    {
        assert(p * m == (q * m) * block);
        vstd::arithmetic::div_mod::lemma_div_multiples_vanish((q * m) as int, block as int);
        assert(block * (q * m) == (q * m) * block);
    }
    let share = q * size;
    assert((q * m) * size == share * m) by (nonlinear_arith)
        requires
            share == q * size,
    ;
    assert(t.byte_len == share * m);
    assert((share * m) as int % m as int == 0 && (share * m) as int / m as int == share)
        by (nonlinear_arith)
        requires
            m > 0,
    {
        vstd::arithmetic::div_mod::lemma_mod_multiples_basic(share as int, m as int);
        vstd::arithmetic::div_mod::lemma_div_multiples_vanish(share as int, m as int);
        assert(m * share == share * m);
    }
    assert(share <= share * m) by (nonlinear_arith)
        requires
            m > 0,
    ;
}

/// Every listed expert can be extracted, as long as the tensors lie in the file, split
/// evenly, and the stacked tensors of a block agree on how many experts there are.
pub proof fn law_listed_experts_can_be_extracted(
    bytes: Seq<u8>,
    path: Seq<char>,
    tensors: Map<Seq<char>, TensorView>,
    block: usize,
    expert: usize,
)
    requires
        forall|name: Seq<char>| #[trigger]
            tensors.contains_key(name) ==> splits(bytes, path, tensors[name]),
        stacks_reach(tensors, block, expert),
        has_expert(tensors, block, expert),
    ensures
        expert_weights(bytes, path, tensors, block, expert) is Ok,
{
    lemma_projection_is_ok(bytes, path, tensors, block, expert, ExpertRole::Gate);
    lemma_projection_is_ok(bytes, path, tensors, block, expert, ExpertRole::Up);
    lemma_projection_is_ok(bytes, path, tensors, block, expert, ExpertRole::Down);
    let name = choose|name: ExpertName|
        tensors.contains_key(#[trigger] name_of(name)) && holds_expert(
            name,
            tensors[name_of(name)],
            block,
            expert,
        );
    assert(name == (ExpertName { block, role: name.role, form: name.form }));
    assert(projection(bytes, path, tensors, block, expert, name.role)->Ok_0 is Some);
}

/// Whatever is extracted was listed.
pub proof fn law_extracted_experts_are_listed(
    bytes: Seq<u8>,
    path: Seq<char>,
    tensors: Map<Seq<char>, TensorView>,
    block: usize,
    expert: usize,
)
    requires
        expert_weights(bytes, path, tensors, block, expert) is Ok,
    ensures
        has_expert(tensors, block, expert),
{
    let w = expert_weights(bytes, path, tensors, block, expert)->Ok_0;
    let role = if w.gate is Some {
        ExpertRole::Gate
    } else if w.up is Some {
        ExpertRole::Up
    } else {
        ExpertRole::Down
    };
    assert(projection(bytes, path, tensors, block, expert, role)->Ok_0 is Some);
    let stacked = ExpertName { block, role, form: ExpertForm::Stacked };
    let dotted = ExpertName { block, role, form: ExpertForm::Dotted(expert) };
    let underscored = ExpertName { block, role, form: ExpertForm::Underscored(expert) };
    if tensors.contains_key(name_of(stacked)) {
        assert(holds_expert(stacked, tensors[name_of(stacked)], block, expert));
    } else if tensors.contains_key(name_of(dotted)) {
        assert(holds_expert(dotted, tensors[name_of(dotted)], block, expert));
    } else {
        assert(holds_expert(underscored, tensors[name_of(underscored)], block, expert));
    }
}

/// The slices of a stacked tensor, one after the other, are its payload: byte `k` of the
/// payload is in the slice of expert `k / share`, at `k % share`.
pub proof fn law_slices_tile_the_payload(
    bytes: Seq<u8>,
    path: Seq<char>,
    t: TensorView,
    block: usize,
    expert: usize,
    k: int,
)
    requires
        stacked_slice(bytes, path, t, block, expert) is Ok,
        0 <= k < stacked_slice(bytes, path, t, block, expert)->Ok_0.bytes.len(),
    ensures
        ({
            let data = layout::payload(bytes, path, t)->Ok_0;
            let slice = stacked_slice(bytes, path, t, block, expert)->Ok_0.bytes;
            &&& slice.len() * t.dims.last() == data.len()
            &&& slice[k] == data[expert * slice.len() + k]
        }),
{
    let data = layout::payload(bytes, path, t)->Ok_0;
    let n = t.dims.last() as int;
    let total = data.len() as int;
    let share = total / n;
    assert(total == share * n && share >= 0) by (nonlinear_arith)
        requires
            total % n == 0,
            share == total / n,
            n > 0,
            total >= 0,
    ;
    assert((expert + 1) * share <= n * share) by (nonlinear_arith)
        requires
            expert + 1 <= n,
            share >= 0,
    ;
    assert(n * share == share * n) by (nonlinear_arith);
    assert((expert + 1) * share == expert * share + share) by (nonlinear_arith);
    assert(expert * share >= 0) by (nonlinear_arith)
        requires
            expert >= 0,
            share >= 0,
    ;
    let slice = data.subrange(expert * share, (expert + 1) * share);
    assert(slice.len() == share);
}

// ---------------------------------------------------------------------------
// What is listed and extracted, by the names and bytes of the file
// ---------------------------------------------------------------------------
/// The name of a tensor: the number of its block, then what follows it.
pub open spec fn spelled(block: usize, middle: Seq<char>) -> Seq<char> {
    "blk."@ + text::decimal(block as nat) + middle
}

/// The text with the number of an expert between two parts.
pub open spec fn numbered(before: Seq<char>, expert: usize) -> Seq<char> {
    before + text::decimal(expert as nat) + ".weight"@
}

/// How the tensors of experts are named.
pub proof fn law_expert_tensor_names(block: usize, expert: usize)
    ensures
        name_of(ExpertName { block, role: ExpertRole::Gate, form: ExpertForm::Stacked }) == spelled(
            block,
            ".ffn_gate_exps.weight"@,
        ),
        name_of(ExpertName { block, role: ExpertRole::Gate, form: ExpertForm::Dotted(expert) })
            == spelled(block, numbered(".ffn_gate."@, expert)),
        name_of(ExpertName { block, role: ExpertRole::Gate, form: ExpertForm::Underscored(expert) })
            == spelled(block, numbered(".ffn_gate_"@, expert)),
        name_of(ExpertName { block, role: ExpertRole::Up, form: ExpertForm::Stacked }) == spelled(
            block,
            ".ffn_up_exps.weight"@,
        ),
        name_of(ExpertName { block, role: ExpertRole::Up, form: ExpertForm::Dotted(expert) })
            == spelled(block, numbered(".ffn_up."@, expert)),
        name_of(ExpertName { block, role: ExpertRole::Up, form: ExpertForm::Underscored(expert) })
            == spelled(block, numbered(".ffn_up_"@, expert)),
        name_of(ExpertName { block, role: ExpertRole::Down, form: ExpertForm::Stacked }) == spelled(
            block,
            ".ffn_down_exps.weight"@,
        ),
        name_of(ExpertName { block, role: ExpertRole::Down, form: ExpertForm::Dotted(expert) })
            == spelled(block, numbered(".ffn_down."@, expert)),
        name_of(ExpertName { block, role: ExpertRole::Down, form: ExpertForm::Underscored(expert) })
            == spelled(block, numbered(".ffn_down_"@, expert)),
{
    reveal_strlit("_exps.weight");
    reveal_strlit(".");
    reveal_strlit("_");
    reveal_strlit(".ffn_gate");
    reveal_strlit(".ffn_gate_exps.weight");
    reveal_strlit(".ffn_gate.");
    reveal_strlit(".ffn_gate_");
    reveal_strlit(".ffn_up");
    reveal_strlit(".ffn_up_exps.weight");
    reveal_strlit(".ffn_up.");
    reveal_strlit(".ffn_up_");
    reveal_strlit(".ffn_down");
    reveal_strlit(".ffn_down_exps.weight");
    reveal_strlit(".ffn_down.");
    reveal_strlit(".ffn_down_");
    assert(".ffn_gate_exps.weight"@ =~= ".ffn_gate"@ + "_exps.weight"@);
    assert(".ffn_gate."@ =~= ".ffn_gate"@ + "."@);
    assert(".ffn_gate_"@ =~= ".ffn_gate"@ + "_"@);
    assert(name_of(ExpertName { block, role: ExpertRole::Gate, form: ExpertForm::Stacked })
        =~= spelled(block, ".ffn_gate_exps.weight"@));
    assert(name_of(ExpertName { block, role: ExpertRole::Gate, form: ExpertForm::Dotted(expert) })
        =~= spelled(block, numbered(".ffn_gate."@, expert)));
    assert(name_of(
        ExpertName { block, role: ExpertRole::Gate, form: ExpertForm::Underscored(expert) },
    ) =~= spelled(block, numbered(".ffn_gate_"@, expert)));
    assert(".ffn_up_exps.weight"@ =~= ".ffn_up"@ + "_exps.weight"@);
    assert(".ffn_up."@ =~= ".ffn_up"@ + "."@);
    assert(".ffn_up_"@ =~= ".ffn_up"@ + "_"@);
    assert(name_of(ExpertName { block, role: ExpertRole::Up, form: ExpertForm::Stacked })
        =~= spelled(block, ".ffn_up_exps.weight"@));
    assert(name_of(ExpertName { block, role: ExpertRole::Up, form: ExpertForm::Dotted(expert) })
        =~= spelled(block, numbered(".ffn_up."@, expert)));
    assert(name_of(
        ExpertName { block, role: ExpertRole::Up, form: ExpertForm::Underscored(expert) },
    ) =~= spelled(block, numbered(".ffn_up_"@, expert)));
    assert(".ffn_down_exps.weight"@ =~= ".ffn_down"@ + "_exps.weight"@);
    assert(".ffn_down."@ =~= ".ffn_down"@ + "."@);
    assert(".ffn_down_"@ =~= ".ffn_down"@ + "_"@);
    assert(name_of(ExpertName { block, role: ExpertRole::Down, form: ExpertForm::Stacked })
        =~= spelled(block, ".ffn_down_exps.weight"@));
    assert(name_of(ExpertName { block, role: ExpertRole::Down, form: ExpertForm::Dotted(expert) })
        =~= spelled(block, numbered(".ffn_down."@, expert)));
    assert(name_of(
        ExpertName { block, role: ExpertRole::Down, form: ExpertForm::Underscored(expert) },
    ) =~= spelled(block, numbered(".ffn_down_"@, expert)));
}

/// The raw bytes are the whole payload of the tensor, under its own shape and type.
pub open spec fn is_whole(raw: RawView, bytes: Seq<u8>, t: TensorView) -> bool {
    &&& raw.bytes == bytes.subrange(t.absolute_offset as int, t.absolute_offset + t.byte_len)
    &&& raw.bytes.len() == t.byte_len
    &&& raw.dims == t.dims
    &&& raw.dtype == t.dtype
    &&& raw.source_name == t.name
    &&& !raw.stacked_slice
}

/// The raw bytes are the part of one expert in a stacked tensor: the outermost dimension
/// counts equal parts, and the part has the other dimensions.
pub open spec fn is_part(raw: RawView, bytes: Seq<u8>, t: TensorView, expert: usize) -> bool {
    let share = raw.bytes.len() as int;
    let start = t.absolute_offset + expert * share;
    &&& t.dims.len() >= 2
    &&& t.dims == raw.dims.push(t.dims.last())
    &&& expert < t.dims.last()
    &&& share * t.dims.last() == t.byte_len
    &&& raw.bytes == bytes.subrange(start, start + share)
    &&& raw.dtype == t.dtype
    &&& raw.source_name == t.name
    &&& raw.stacked_slice
}

/// The projection is taken from the stacked tensor where there is one, else from the
/// expert's own tensor under the dotted or the underscored name, else it is not there.
pub open spec fn is_taken(
    raw: Option<RawView>,
    bytes: Seq<u8>,
    tensors: Map<Seq<char>, TensorView>,
    expert: usize,
    stacked: Seq<char>,
    dotted: Seq<char>,
    underscored: Seq<char>,
) -> bool {
    if tensors.contains_key(stacked) {
        raw is Some && is_part(raw->Some_0, bytes, tensors[stacked], expert)
    } else if tensors.contains_key(dotted) {
        raw is Some && is_whole(raw->Some_0, bytes, tensors[dotted])
    } else if tensors.contains_key(underscored) {
        raw is Some && is_whole(raw->Some_0, bytes, tensors[underscored])
    } else {
        raw is None
    }
}

proof fn lemma_part(bytes: Seq<u8>, path: Seq<char>, t: TensorView, block: usize, expert: usize)
    requires
        stacked_slice(bytes, path, t, block, expert) is Ok,
    ensures
        is_part(stacked_slice(bytes, path, t, block, expert)->Ok_0, bytes, t, expert),
{
    let raw = stacked_slice(bytes, path, t, block, expert)->Ok_0;
    let data = layout::payload(bytes, path, t)->Ok_0;
    let n = t.dims.last() as int;
    let total = data.len() as int;
    let share = total / n;
    assert(total == share * n && share >= 0) by (nonlinear_arith)
        requires
            total % n == 0,
            share == total / n,
            n > 0,
            total >= 0,
    ;
    assert((expert + 1) * share <= n * share) by (nonlinear_arith)
        requires
            expert + 1 <= n,
            share >= 0,
    ;
    assert(n * share == share * n) by (nonlinear_arith);
    assert((expert + 1) * share == expert * share + share) by (nonlinear_arith);
    assert(expert * share >= 0) by (nonlinear_arith)
        requires
            expert >= 0,
            share >= 0,
    ;
    assert(raw.bytes.len() == share);
    let start = t.absolute_offset + expert * share;
    assert(raw.bytes =~= bytes.subrange(start, start + share));
    assert(t.dims =~= raw.dims.push(t.dims.last()));
}

proof fn lemma_taken(
    bytes: Seq<u8>,
    path: Seq<char>,
    tensors: Map<Seq<char>, TensorView>,
    block: usize,
    expert: usize,
    role: ExpertRole,
)
    requires
        projection(bytes, path, tensors, block, expert, role) is Ok,
    ensures
        is_taken(
            projection(bytes, path, tensors, block, expert, role)->Ok_0,
            bytes,
            tensors,
            expert,
            name_of(ExpertName { block, role, form: ExpertForm::Stacked }),
            name_of(ExpertName { block, role, form: ExpertForm::Dotted(expert) }),
            name_of(ExpertName { block, role, form: ExpertForm::Underscored(expert) }),
        ),
{
    let stacked = name_of(ExpertName { block, role, form: ExpertForm::Stacked });
    if tensors.contains_key(stacked) {
        lemma_part(bytes, path, tensors[stacked], block, expert);
    }
}

/// The weights of an expert are the bytes that the file has for it: the expert's part of a
/// stacked tensor, or the whole payload of the expert's own tensor.
#[verifier::rlimit(40)]
pub proof fn law_weights_are_the_bytes_of_the_file(
    bytes: Seq<u8>,
    path: Seq<char>,
    tensors: Map<Seq<char>, TensorView>,
    block: usize,
    expert: usize,
)
    requires
        expert_weights(bytes, path, tensors, block, expert) is Ok,
    ensures
        ({
            let w = expert_weights(bytes, path, tensors, block, expert)->Ok_0;
            &&& w.block == block
            &&& w.expert == expert
            &&& w.gate is Some || w.up is Some || w.down is Some
            &&& is_taken(
                w.gate,
                bytes,
                tensors,
                expert,
                spelled(block, ".ffn_gate_exps.weight"@),
                spelled(block, numbered(".ffn_gate."@, expert)),
                spelled(block, numbered(".ffn_gate_"@, expert)),
            )
            &&& is_taken(
                w.up,
                bytes,
                tensors,
                expert,
                spelled(block, ".ffn_up_exps.weight"@),
                spelled(block, numbered(".ffn_up."@, expert)),
                spelled(block, numbered(".ffn_up_"@, expert)),
            )
            &&& is_taken(
                w.down,
                bytes,
                tensors,
                expert,
                spelled(block, ".ffn_down_exps.weight"@),
                spelled(block, numbered(".ffn_down."@, expert)),
                spelled(block, numbered(".ffn_down_"@, expert)),
            )
        }),
{
    law_expert_tensor_names(block, expert);
    lemma_taken(bytes, path, tensors, block, expert, ExpertRole::Gate);
    lemma_taken(bytes, path, tensors, block, expert, ExpertRole::Up);
    lemma_taken(bytes, path, tensors, block, expert, ExpertRole::Down);
}

proof fn lemma_taken_fills(
    raw: RawView,
    bytes: Seq<u8>,
    t: TensorView,
    expert: usize,
)
    requires
        layout::sizes_agree(t),
        is_whole(raw, bytes, t) || is_part(raw, bytes, t, expert),
    ensures
        dequant::size_product(raw.dims) is Some,
        tensor::packed_len(raw.dtype, dequant::size_product(raw.dims)->Some_0) == Some(
            raw.bytes.len(),
        ),
{
    if is_part(raw, bytes, t, expert) {
        law_parsed_stacks_split_evenly(t);
        assert(t.dims.drop_last() =~= raw.dims);
        let share = raw.bytes.len() as int;
        let n = t.dims.last() as int;
        assert((share * n) / n == share) by (nonlinear_arith)
            requires
                n > 0,
        {
            vstd::arithmetic::div_mod::lemma_div_multiples_vanish(share, n);
            assert(n * share == share * n);
        }
    }
}

/// The bytes of each extracted projection are as many as its type and its shape take.
pub proof fn law_weights_fill_their_shapes(
    bytes: Seq<u8>,
    path: Seq<char>,
    tensors: Map<Seq<char>, TensorView>,
    block: usize,
    expert: usize,
)
    requires
        expert_weights(bytes, path, tensors, block, expert) is Ok,
        forall|name: Seq<char>| #[trigger]
            tensors.contains_key(name) ==> layout::sizes_agree(tensors[name]),
    ensures
        ({
            let w = expert_weights(bytes, path, tensors, block, expert)->Ok_0;
            forall|raw: RawView|
                #![trigger raw.bytes]
                w.gate == Some(raw) || w.up == Some(raw) || w.down == Some(raw) ==> {
                    &&& dequant::size_product(raw.dims) is Some
                    &&& tensor::packed_len(raw.dtype, dequant::size_product(raw.dims)->Some_0)
                        == Some(raw.bytes.len())
                }
        }),
{
    law_weights_are_the_bytes_of_the_file(bytes, path, tensors, block, expert);
    let w = expert_weights(bytes, path, tensors, block, expert)->Ok_0;
    assert forall|raw: RawView|
        #![trigger raw.bytes]
        w.gate == Some(raw) || w.up == Some(raw) || w.down == Some(raw) implies {
        &&& dequant::size_product(raw.dims) is Some
        &&& tensor::packed_len(raw.dtype, dequant::size_product(raw.dims)->Some_0) == Some(
            raw.bytes.len(),
        )
    } by {
        if w.gate == Some(raw) {
            let a = spelled(block, ".ffn_gate_exps.weight"@);
            let b = spelled(block, numbered(".ffn_gate."@, expert));
            let c = spelled(block, numbered(".ffn_gate_"@, expert));
            let t = if tensors.contains_key(a) {
                tensors[a]
            } else if tensors.contains_key(b) {
                tensors[b]
            } else {
                tensors[c]
            };
            lemma_taken_fills(raw, bytes, t, expert);
        }
        if w.up == Some(raw) {
            let a = spelled(block, ".ffn_up_exps.weight"@);
            let b = spelled(block, numbered(".ffn_up."@, expert));
            let c = spelled(block, numbered(".ffn_up_"@, expert));
            let t = if tensors.contains_key(a) {
                tensors[a]
            } else if tensors.contains_key(b) {
                tensors[b]
            } else {
                tensors[c]
            };
            lemma_taken_fills(raw, bytes, t, expert);
        }
        if w.down == Some(raw) {
            let a = spelled(block, ".ffn_down_exps.weight"@);
            let b = spelled(block, numbered(".ffn_down."@, expert));
            let c = spelled(block, numbered(".ffn_down_"@, expert));
            let t = if tensors.contains_key(a) {
                tensors[a]
            } else if tensors.contains_key(b) {
                tensors[b]
            } else {
                tensors[c]
            };
            lemma_taken_fills(raw, bytes, t, expert);
        }
    }
}

/// An expert beyond the outermost dimension of the first stacked tensor is refused, with the
/// number of experts there are.
pub proof fn law_experts_out_of_range_are_refused(
    bytes: Seq<u8>,
    path: Seq<char>,
    tensors: Map<Seq<char>, TensorView>,
    block: usize,
    expert: usize,
)
    requires
        tensors.contains_key(spelled(block, ".ffn_gate_exps.weight"@)),
        tensors[spelled(block, ".ffn_gate_exps.weight"@)].dims.len() >= 2,
        expert >= tensors[spelled(block, ".ffn_gate_exps.weight"@)].dims.last(),
    ensures
        expert_weights(bytes, path, tensors, block, expert) == Err::<ExpertWeightsView, _>(
            ErrorView::ExpertOutOfRange {
                block,
                expert,
                available: tensors[spelled(block, ".ffn_gate_exps.weight"@)].dims.last(),
            },
        ),
{
    law_expert_tensor_names(block, expert);
}

/// Which experts there are: those that the outermost dimension of a stacked tensor counts,
/// and those that have tensors of their own.
#[verifier::rlimit(40)]
pub proof fn law_listed_experts_are_those_of_the_file(
    tensors: Map<Seq<char>, TensorView>,
    block: usize,
    expert: usize,
)
    ensures
        has_expert(tensors, block, expert) <==> {
            ||| counts_expert(tensors, spelled(block, ".ffn_gate_exps.weight"@), expert)
            ||| tensors.contains_key(spelled(block, numbered(".ffn_gate."@, expert)))
            ||| tensors.contains_key(spelled(block, numbered(".ffn_gate_"@, expert)))
            ||| counts_expert(tensors, spelled(block, ".ffn_up_exps.weight"@), expert)
            ||| tensors.contains_key(spelled(block, numbered(".ffn_up."@, expert)))
            ||| tensors.contains_key(spelled(block, numbered(".ffn_up_"@, expert)))
            ||| counts_expert(tensors, spelled(block, ".ffn_down_exps.weight"@), expert)
            ||| tensors.contains_key(spelled(block, numbered(".ffn_down."@, expert)))
            ||| tensors.contains_key(spelled(block, numbered(".ffn_down_"@, expert)))
        },
{
    law_expert_tensor_names(block, expert);
    if has_expert(tensors, block, expert) {
        let name = choose|name: ExpertName|
            tensors.contains_key(#[trigger] name_of(name)) && holds_expert(
                name,
                tensors[name_of(name)],
                block,
                expert,
            );
        assert(name == (ExpertName { block, role: name.role, form: name.form }));
    }
    lemma_held(tensors, block, expert, ExpertRole::Gate);
    lemma_held(tensors, block, expert, ExpertRole::Up);
    lemma_held(tensors, block, expert, ExpertRole::Down);
}

/// The outermost of at least two dimensions of the tensor counts the expert.
pub open spec fn counts_expert(
    tensors: Map<Seq<char>, TensorView>,
    name: Seq<char>,
    expert: usize,
) -> bool {
    tensors.contains_key(name) && tensors[name].dims.len() >= 2 && expert
        < tensors[name].dims.last()
}

proof fn lemma_held(
    tensors: Map<Seq<char>, TensorView>,
    block: usize,
    expert: usize,
    role: ExpertRole,
)
    ensures
        counts_expert(
            tensors,
            name_of(ExpertName { block, role, form: ExpertForm::Stacked }),
            expert,
        ) ==> has_expert(tensors, block, expert),
        tensors.contains_key(
            name_of(ExpertName { block, role, form: ExpertForm::Dotted(expert) }),
        ) ==> has_expert(tensors, block, expert),
        tensors.contains_key(
            name_of(ExpertName { block, role, form: ExpertForm::Underscored(expert) }),
        ) ==> has_expert(tensors, block, expert),
{
    let a = ExpertName { block, role, form: ExpertForm::Stacked };
    let b = ExpertName { block, role, form: ExpertForm::Dotted(expert) };
    let c = ExpertName { block, role, form: ExpertForm::Underscored(expert) };
    if counts_expert(tensors, name_of(a), expert) {
        assert(holds_expert(a, tensors[name_of(a)], block, expert));
    }
    if tensors.contains_key(name_of(b)) {
        assert(holds_expert(b, tensors[name_of(b)], block, expert));
    }
    if tensors.contains_key(name_of(c)) {
        assert(holds_expert(c, tensors[name_of(c)], block, expert));
    }
}

/// An expert without any of its tensors is missing: the refusal names the tensor in which
/// the gates of the block's experts would be stacked.
pub proof fn law_experts_without_tensors_are_missing(
    bytes: Seq<u8>,
    path: Seq<char>,
    tensors: Map<Seq<char>, TensorView>,
    block: usize,
    expert: usize,
)
    requires
        !tensors.contains_key(spelled(block, ".ffn_gate_exps.weight"@)),
        !tensors.contains_key(spelled(block, numbered(".ffn_gate."@, expert))),
        !tensors.contains_key(spelled(block, numbered(".ffn_gate_"@, expert))),
        !tensors.contains_key(spelled(block, ".ffn_up_exps.weight"@)),
        !tensors.contains_key(spelled(block, numbered(".ffn_up."@, expert))),
        !tensors.contains_key(spelled(block, numbered(".ffn_up_"@, expert))),
        !tensors.contains_key(spelled(block, ".ffn_down_exps.weight"@)),
        !tensors.contains_key(spelled(block, numbered(".ffn_down."@, expert))),
        !tensors.contains_key(spelled(block, numbered(".ffn_down_"@, expert))),
    ensures
        expert_weights(bytes, path, tensors, block, expert) == Err::<ExpertWeightsView, ErrorView>(
            ErrorView::MissingTensor { name: spelled(block, ".ffn_gate_exps.weight"@), path },
        ),
{
    law_expert_tensor_names(block, expert);
}

} // verus!
