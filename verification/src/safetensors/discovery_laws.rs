//! What holds of every candidate summary.

use crate::safetensors::discovery;
use crate::safetensors::discovery::{ExpertView, GroupView, SummaryView};
use crate::safetensors::record::RecordView;
use crate::sorting;
use crate::text;
use vstd::prelude::*;

verus! {

/// The labels of a tensor say what discovery takes it for: an expert, a router or
/// neither, never both.
pub proof fn law_labels_agree_with_discovery(t: RecordView)
    ensures
        discovery::tensor_labels(t.name, t.shape).contains("moe_expert_candidate"@)
            <==> discovery::is_expert(t),
        discovery::tensor_labels(t.name, t.shape).contains("moe_router_candidate"@)
            <==> discovery::is_router(t),
        !(discovery::is_expert(t) && discovery::is_router(t)),
{
    let labels = discovery::tensor_labels(t.name, t.shape);
    reveal_strlit("moe_expert_candidate");
    reveal_strlit("moe_router_candidate");
    reveal_strlit("possible_moe_router_shape");
    assert("moe_expert_candidate"@[4] != "moe_router_candidate"@[4]);
    assert("possible_moe_router_shape"@[0] != "moe_router_candidate"@[0]);
    assert("possible_moe_router_shape"@[0] != "moe_expert_candidate"@[0]);
    if labels.len() > 0 {
        assert(labels[0] == labels[0]);
        assert(labels.contains(labels[0]));
    }
}

/// A layout family is named exactly when there are both a router and an expert.
pub proof fn law_family_needs_router_and_expert(tensors: Seq<RecordView>)
    ensures
        discovery::layout_family(tensors) is Some <==> discovery::some_router(tensors)
            && discovery::some_expert(tensors),
{
}

proof fn lemma_routers_origin(tensors: Seq<RecordView>, i: int)
    requires
        0 <= i < discovery::routers_of(tensors).len(),
    ensures
        exists|k: int|
            0 <= k < tensors.len() && discovery::is_router(#[trigger] tensors[k])
                && discovery::routers_of(tensors)[i] == discovery::router_of(tensors[k]),
    decreases tensors.len(),
{
    let rest = tensors.drop_last();
    let before = discovery::routers_of(rest);
    if i < before.len() {
        lemma_routers_origin(rest, i);
        let k = choose|k: int|
            0 <= k < rest.len() && discovery::is_router(#[trigger] rest[k]) && before[i]
                == discovery::router_of(rest[k]);
        assert(tensors[k] == rest[k]);
    } else {
        assert(discovery::is_router(tensors[tensors.len() - 1]));
    }
}

/// Every router candidate comes from a tensor that is no expert.
pub proof fn law_routers_are_not_experts(summary: SummaryView, tensors: Seq<RecordView>, i: int)
    requires
        discovery::summarizes(summary, tensors),
        0 <= i < summary.router_candidates.len(),
    ensures
        exists|k: int|
            0 <= k < tensors.len() && #[trigger] summary.router_candidates[i]
                == discovery::router_of(#[trigger] tensors[k]) && !discovery::is_expert(
                tensors[k],
            ),
{
    let routers = discovery::routers_of(tensors);
    let keys = discovery::router_keys(routers);
    let order = sorting::stable_order(keys);
    sorting::lemma_stable_order_exists(keys);
    assert(0 <= order[i] < keys.len());
    lemma_routers_origin(tensors, order[i]);
}

proof fn lemma_member(experts: Seq<ExpertView>, i: int)
    requires
        0 <= i < experts.len(),
    ensures
        discovery::group_members(experts, experts[i].group_key).contains(experts[i]),
    decreases experts.len(),
{
    let key = experts[i].group_key;
    let members = discovery::group_members(experts, key);
    if i == experts.len() - 1 {
        assert(members[members.len() - 1] == experts[i]);
    } else {
        let rest = experts.drop_last();
        assert(rest[i] == experts[i]);
        lemma_member(rest, i);
        let before = discovery::group_members(rest, key);
        let k = before.index_of(experts[i]);
        assert(members[k] == experts[i]);
    }
}

/// Every expert tensor is listed in the group of its own key.
pub proof fn law_every_expert_is_grouped(summary: SummaryView, tensors: Seq<RecordView>, i: int)
    requires
        discovery::summarizes(summary, tensors),
        0 <= i < discovery::experts_of(tensors).len(),
    ensures
        exists|g: int|
            0 <= g < summary.expert_groups.len() && (#[trigger] summary.expert_groups[g]).group_key
                == discovery::experts_of(tensors)[i].group_key
                && summary.expert_groups[g].tensor_names.contains(
                discovery::experts_of(tensors)[i].name,
            ),
{
    let experts = discovery::experts_of(tensors);
    let e = experts[i];
    let keys = discovery::expert_keys(experts);
    assert(keys[i] == e.group_key);
    assert(keys.contains(e.group_key));
    let group_keys = discovery::group_keys(summary.expert_groups);
    assert(group_keys.contains(e.group_key));
    let g = group_keys.index_of(e.group_key);
    let group = summary.expert_groups[g];
    assert(group.group_key == e.group_key);
    assert(discovery::describes_group(group, experts));
    lemma_member(experts, i);
    let members = discovery::group_members(experts, e.group_key);
    let k = members.index_of(e);
    let names = discovery::expert_names(members);
    assert(names[k] == e.name);
    let sort_keys = discovery::text_keys(names);
    sorting::lemma_stable_order_exists(sort_keys);
    let order = sorting::stable_order(sort_keys);
    assert(order.contains(k));
    let m = order.index_of(k);
    assert(group.tensor_names[m] == e.name);
}

proof fn lemma_indices_unique(a: Seq<usize>, b: Seq<usize>)
    requires
        forall|i: int, j: int| 0 <= i < j < a.len() ==> #[trigger] a[i] < #[trigger] a[j],
        forall|i: int, j: int| 0 <= i < j < b.len() ==> #[trigger] b[i] < #[trigger] b[j],
        forall|n: usize|
            #![trigger a.contains(n)]
            #![trigger b.contains(n)]
            a.contains(n) <==> b.contains(n),
    ensures
        a == b,
    decreases a.len(),
{
    if a.len() == 0 {
        if b.len() > 0 {
            assert(b.contains(b[0]));
        }
        assert(a =~= b);
    } else {
        assert(a.contains(a.last()));
        let j = b.index_of(a.last());
        assert(b.contains(b.last()));
        let i = a.index_of(b.last());
        assert(a[i] <= a[a.len() - 1] && b[j] <= b[b.len() - 1]);
        assert(a.last() == b.last());
        let a0 = a.drop_last();
        let b0 = b.drop_last();
        assert forall|n: usize|
            #![trigger a0.contains(n)]
            #![trigger b0.contains(n)]
            a0.contains(n) <==> b0.contains(n) by {
            if a0.contains(n) {
                let m = a0.index_of(n);
                assert(a[m] == n && a[m] < a[a.len() - 1]);
                assert(a.contains(n));
                assert(b.contains(n));
                let k = b.index_of(n);
                assert(b0[k] == n);
            }
            if b0.contains(n) {
                let m = b0.index_of(n);
                assert(b[m] == n && b[m] < b[b.len() - 1]);
                assert(b.contains(n));
                assert(a.contains(n));
                let k = a.index_of(n);
                assert(a0[k] == n);
            }
        }
        lemma_indices_unique(a0, b0);
        assert(a =~= a0.push(a.last()));
        assert(b =~= b0.push(b.last()));
    }
}

proof fn lemma_lists_unique(a: Seq<Seq<char>>, b: Seq<Seq<char>>, source: Seq<Seq<char>>)
    requires
        text::lists(a, source),
        text::lists(b, source),
    ensures
        a == b,
{
    assert forall|k: Seq<char>|
        #![trigger a.contains(k)]
        #![trigger b.contains(k)]
        a.contains(k) <==> b.contains(k) by {
        assert(a.contains(k) <==> source.contains(k));
        assert(b.contains(k) <==> source.contains(k));
    }
    text::lemma_increasing_unique(a, b);
}

proof fn lemma_group_unique(a: GroupView, b: GroupView, experts: Seq<ExpertView>)
    requires
        discovery::describes_group(a, experts),
        discovery::describes_group(b, experts),
        a.group_key == b.group_key,
    ensures
        a == b,
{
    let members = discovery::group_members(experts, a.group_key);
    lemma_lists_unique(a.source_shards, b.source_shards, discovery::expert_shards(members));
    lemma_lists_unique(a.weight_kinds, b.weight_kinds, discovery::expert_kinds(members));
    assert forall|n: usize|
        #![trigger a.expert_indices.contains(n)]
        #![trigger b.expert_indices.contains(n)]
        a.expert_indices.contains(n) <==> b.expert_indices.contains(n) by {
        let found = exists|i: int|
            0 <= i < members.len() && (#[trigger] members[i]).expert_index == Some(n as nat);
        assert(a.expert_indices.contains(n) <==> found);
        assert(b.expert_indices.contains(n) <==> found);
    }
    lemma_indices_unique(a.expert_indices, b.expert_indices);
}

/// The summary is determined by the tensors: discovery is deterministic.
pub proof fn law_summary_is_determined(a: SummaryView, b: SummaryView, tensors: Seq<RecordView>)
    requires
        discovery::summarizes(a, tensors),
        discovery::summarizes(b, tensors),
    ensures
        a == b,
{
    let experts = discovery::experts_of(tensors);
    let left = discovery::group_keys(a.expert_groups);
    let right = discovery::group_keys(b.expert_groups);
    lemma_lists_unique(left, right, discovery::expert_keys(experts));
    assert(left.len() == a.expert_groups.len());
    assert(right.len() == b.expert_groups.len());
    assert forall|i: int| 0 <= i < a.expert_groups.len() implies a.expert_groups[i]
        == b.expert_groups[i] by {
        assert(left[i] == a.expert_groups[i].group_key);
        assert(right[i] == b.expert_groups[i].group_key);
        lemma_group_unique(a.expert_groups[i], b.expert_groups[i], experts);
    }
    assert(a.expert_groups =~= b.expert_groups);
}

// ---------------------------------------------------------------------------
// The rules of discovery, by the names and shapes of the tensors
// ---------------------------------------------------------------------------
/// `word` stands in the name between dots, slashes or the ends of the name.
pub open spec fn has_word(lower: Seq<char>, word: Seq<char>) -> bool {
    exists|i: int| #[trigger] word_at(lower, i, word)
}

/// `word` stands at `i`, between dots, slashes or the ends of the name.
pub open spec fn word_at(lower: Seq<char>, i: int, word: Seq<char>) -> bool {
    &&& 0 <= i <= lower.len() - word.len()
    &&& forall|k: int| 0 <= k < word.len() ==> lower[i + k] == #[trigger] word[k]
    &&& i == 0 || lower[i - 1] == '.' || lower[i - 1] == '/'
    &&& i + word.len() == lower.len() || lower[i + word.len()] == '.' || lower[i + word.len()]
        == '/'
}

proof fn lemma_separator(c: char, separators: Seq<char>)
    requires
        separators == seq!['.', '/'] || separators == seq!['.', '/', '_'],
    ensures
        separators.contains(c) ==> c == '.' || c == '/' || c == '_',
        separators == seq!['.', '/'] ==> (separators.contains(c) <==> c == '.' || c == '/'),
        separators.contains('.'),
{
    assert(separators[0] == '.' && separators[1] == '/');
    if separators.contains(c) {
        let i = separators.index_of(c);
        assert(separators[i] == c);
    }
}

proof fn lemma_has_word(lower: Seq<char>, word: Seq<char>)
    requires
        word.len() > 0,
        forall|k: int| 0 <= k < word.len() ==> #[trigger] word[k] != '.' && word[k] != '/',
    ensures
        discovery::path_segments(lower).contains(word) <==> has_word(lower, word),
{
    let separators = seq!['.', '/'];
    assert forall|k: int| 0 <= k < word.len() implies !separators.contains(#[trigger] word[k]) by {
        lemma_separator(word[k], separators);
    }
    text::law_pieces_are_words(lower, separators, word);
    assert forall|i: int|
        #![trigger word_at(lower, i, word)]
        #![trigger text::is_word_at(lower, separators, i, word)]
        word_at(lower, i, word) == text::is_word_at(lower, separators, i, word) by {
        if 0 < i <= lower.len() {
            lemma_separator(lower[i - 1], separators);
        }
        if 0 <= i + word.len() < lower.len() {
            lemma_separator(lower[i + word.len()], separators);
        }
    }
}

proof fn lemma_expert_words(lower: Seq<char>)
    ensures
        discovery::path_segments(lower).contains("experts"@) <==> has_word(lower, "experts"@),
        discovery::path_segments(lower).contains("expert"@) <==> has_word(lower, "expert"@),
{
    reveal_strlit("experts");
    reveal_strlit("expert");
    lemma_has_word(lower, "experts"@);
    lemma_has_word(lower, "expert"@);
}

/// A tensor is an expert exactly if `experts` or `expert` is a word of its name.
pub proof fn law_experts_are_named(name: Seq<char>, shape: Seq<usize>)
    ensures
        discovery::tensor_labels(name, shape) == seq!["moe_expert_candidate"@] <==> has_word(
            text::lowered(name),
            "experts"@,
        ) || has_word(text::lowered(name), "expert"@),
{
    let lower = text::lowered(name);
    lemma_expert_words(lower);
    let labels = discovery::tensor_labels(name, shape);
    reveal_strlit("moe_expert_candidate");
    reveal_strlit("moe_router_candidate");
    reveal_strlit("possible_moe_router_shape");
    assert("moe_expert_candidate"@[4] == 'e' && "moe_router_candidate"@[4] == 'r'
        && "possible_moe_router_shape"@[4] == 'i');
    if labels == seq!["moe_expert_candidate"@] {
        assert(labels[0] == "moe_expert_candidate"@);
    }
}

/// Points, where they are due.
pub open spec fn due(points: nat, applies: bool) -> nat {
    if applies {
        points
    } else {
        0
    }
}

/// One side of the shape is 2 to 512, the other at least 512.
pub open spec fn sides_of_a_router(shape: Seq<usize>) -> bool {
    shape.len() == 2 && ((2 <= shape[0] <= 512 && 512 <= shape[1]) || (2 <= shape[1] <= 512 && 512
        <= shape[0]))
}

/// The points of a name and a shape as a router.
pub open spec fn points(lower: Seq<char>, shape: Seq<usize>) -> nat {
    let moe = text::contains_text(lower, "moe"@) || has_word(lower, "experts"@) || has_word(
        lower,
        "expert"@,
    );
    let shaped = sides_of_a_router(shape);
    let gate = text::ends_with_text(lower, ".gate.weight"@) || text::ends_with_text(
        lower,
        "/gate/weight"@,
    );
    due(80, text::contains_text(lower, "router"@)) + due(
        80,
        text::contains_text(lower, "gate_inp"@),
    ) + due(
        90,
        text::contains_text(lower, "block_sparse_moe.gate.weight"@) || text::contains_text(
            lower,
            "block_sparse_moe/gate/weight"@,
        ),
    ) + due(
        70,
        text::contains_text(lower, "moe.gate.weight"@) || text::contains_text(
            lower,
            "moe/gate/weight"@,
        ) || text::contains_text(lower, "feed_forward.gate.weight"@) || text::contains_text(
            lower,
            "feed_forward/gate/weight"@,
        ) || text::contains_text(lower, "ffn.gate.weight"@) || text::contains_text(
            lower,
            "ffn/gate/weight"@,
        ),
    ) + due(
        65,
        (text::contains_text(lower, "gating.weight"@) || text::contains_text(
            lower,
            "gating/weight"@,
        )) && (moe || shaped),
    ) + due(60, gate && moe) + due(45, gate && !moe && shaped) + due(30, shaped)
}

proof fn lemma_points_add(a: Seq<(nat, Seq<char>)>, b: Seq<(nat, Seq<char>)>)
    ensures
        discovery::total_points(a + b) == discovery::total_points(a) + discovery::total_points(b),
    decreases b.len(),
{
    if b.len() == 0 {
        assert(a + b =~= a);
    } else {
        lemma_points_add(a, b.drop_last());
        assert((a + b).drop_last() =~= a + b.drop_last());
        assert((a + b).last() == b.last());
    }
}

proof fn lemma_mark_points(applies: bool, n: nat, reason: Seq<char>)
    ensures
        discovery::total_points(discovery::mark(applies, n, reason)) == due(n, applies),
{
    let m = discovery::mark(applies, n, reason);
    if applies {
        assert(m.drop_last() =~= Seq::empty());
        assert(discovery::total_points(m.drop_last()) == 0);
    }
}

proof fn lemma_points(lower: Seq<char>, shape: Seq<usize>)
    ensures
        discovery::total_points(discovery::router_marks(lower, shape)) == points(lower, shape),
        discovery::router_shape(shape) == sides_of_a_router(shape),
{
    lemma_expert_words(lower);
    let moe = discovery::moe_context(lower);
    let shaped = discovery::router_shape(shape);
    assert(shaped == sides_of_a_router(shape));
    let gate = text::ends_with_text(lower, ".gate.weight"@) || text::ends_with_text(
        lower,
        "/gate/weight"@,
    );
    let c1 = text::contains_text(lower, "router"@);
    let c2 = text::contains_text(lower, "gate_inp"@);
    let c3 = text::contains_text(lower, "block_sparse_moe.gate.weight"@) || text::contains_text(
        lower,
        "block_sparse_moe/gate/weight"@,
    );
    let c4 = text::contains_text(lower, "moe.gate.weight"@) || text::contains_text(
        lower,
        "moe/gate/weight"@,
    ) || text::contains_text(lower, "feed_forward.gate.weight"@) || text::contains_text(
        lower,
        "feed_forward/gate/weight"@,
    ) || text::contains_text(lower, "ffn.gate.weight"@) || text::contains_text(
        lower,
        "ffn/gate/weight"@,
    );
    let c5 = (text::contains_text(lower, "gating.weight"@) || text::contains_text(
        lower,
        "gating/weight"@,
    )) && (moe || shaped);
    let m1 = discovery::mark(c1, 80, "router_name"@);
    let m2 = discovery::mark(c2, 80, "gate_inp_name"@);
    let m3 = discovery::mark(c3, 90, "deepseek_v3_family_block_sparse_moe_gate"@);
    let m4 = discovery::mark(c4, 70, "moe_gate_name"@);
    let m5 = discovery::mark(c5, 65, "gating_name"@);
    let m6 = discovery::mark(gate && moe, 60, "moe_context_gate_weight"@);
    let m7 = discovery::mark(gate && !moe && shaped, 45, "shape_guarded_gate_weight"@);
    let m8 = discovery::mark(shaped, 30, "router_shape"@);
    lemma_mark_points(c1, 80, "router_name"@);
    lemma_mark_points(c2, 80, "gate_inp_name"@);
    lemma_mark_points(c3, 90, "deepseek_v3_family_block_sparse_moe_gate"@);
    lemma_mark_points(c4, 70, "moe_gate_name"@);
    lemma_mark_points(c5, 65, "gating_name"@);
    lemma_mark_points(gate && moe, 60, "moe_context_gate_weight"@);
    lemma_mark_points(gate && !moe && shaped, 45, "shape_guarded_gate_weight"@);
    lemma_mark_points(shaped, 30, "router_shape"@);
    lemma_points_add(m1, m2);
    lemma_points_add(m1 + m2, m3);
    lemma_points_add(m1 + m2 + m3, m4);
    lemma_points_add(m1 + m2 + m3 + m4, m5);
    lemma_points_add(m1 + m2 + m3 + m4 + m5, m6);
    lemma_points_add(m1 + m2 + m3 + m4 + m5 + m6, m7);
    lemma_points_add(m1 + m2 + m3 + m4 + m5 + m6 + m7, m8);
    assert(discovery::router_marks(lower, shape) == m1 + m2 + m3 + m4 + m5 + m6 + m7 + m8);
}

/// A tensor that is no expert is a router exactly if it has at least 60 points; without
/// them, a router's sides are still told.
pub proof fn law_routers_have_sixty_points(name: Seq<char>, shape: Seq<usize>)
    ensures
        ({
            let lower = text::lowered(name);
            let labels = discovery::tensor_labels(name, shape);
            let expert = has_word(lower, "experts"@) || has_word(lower, "expert"@);
            &&& !expert && points(lower, shape) >= 60 ==> labels == seq!["moe_router_candidate"@]
            &&& !expert && points(lower, shape) < 60 && sides_of_a_router(shape) ==> labels == seq![
                "possible_moe_router_shape"@,
            ]
            &&& !expert && points(lower, shape) < 60 && !sides_of_a_router(shape) ==> labels.len()
                == 0
        }),
{
    let lower = text::lowered(name);
    lemma_points(lower, shape);
    lemma_expert_words(lower);
    let marks = discovery::router_marks(lower, shape);
    if marks.len() == 0 {
        assert(discovery::total_points(marks) == 0);
    }
}

/// A matrix with one side of 2 to 512 and the other of at least 512, whose name ends in
/// `.gate.weight` and that is no expert, is a router.
pub proof fn law_gates_with_the_sides_of_a_router_are_routers(
    name: Seq<char>,
    shape: Seq<usize>,
)
    requires
        text::ends_with_text(text::lowered(name), ".gate.weight"@) || text::ends_with_text(
            text::lowered(name),
            "/gate/weight"@,
        ),
        !has_word(text::lowered(name), "experts"@),
        !has_word(text::lowered(name), "expert"@),
        shape.len() == 2,
        (2 <= shape[0] <= 512 && shape[1] >= 512) || (2 <= shape[1] <= 512 && shape[0] >= 512),
    ensures
        discovery::tensor_labels(name, shape) == seq!["moe_router_candidate"@],
        discovery::router_score(text::lowered(name), shape) is Some,
        discovery::router_score(text::lowered(name), shape)->Some_0.0 >= 60,
{
    law_routers_have_sixty_points(name, shape);
    lemma_points(text::lowered(name), shape);
    lemma_expert_words(text::lowered(name));
    let lower = text::lowered(name);
    let marks = discovery::router_marks(lower, shape);
    if marks.len() == 0 {
        assert(discovery::total_points(marks) == 0);
    }
}

proof fn lemma_router_entry(tensors: Seq<RecordView>, k: int)
    requires
        0 <= k < tensors.len(),
        discovery::is_router(tensors[k]),
    ensures
        discovery::routers_of(tensors).contains(discovery::router_of(tensors[k])),
    decreases tensors.len(),
{
    let routers = discovery::routers_of(tensors);
    let r = discovery::router_of(tensors[k]);
    if k == tensors.len() - 1 {
        assert(routers[routers.len() - 1] == r);
    } else {
        let front = tensors.drop_last();
        assert(front[k] == tensors[k]);
        lemma_router_entry(front, k);
        let j = discovery::routers_of(front).index_of(r);
        assert(routers[j] == r);
    }
}

/// Every tensor that is labelled a router is a candidate of the summary, under its own name,
/// shard and shape, with its points as the score.
pub proof fn law_labelled_routers_are_candidates(
    summary: SummaryView,
    tensors: Seq<RecordView>,
    k: int,
)
    requires
        discovery::summarizes(summary, tensors),
        0 <= k < tensors.len(),
        discovery::tensor_labels(tensors[k].name, tensors[k].shape) == seq![
            "moe_router_candidate"@,
        ],
    ensures
        exists|i: int|
            {
                &&& 0 <= i < summary.router_candidates.len()
                &&& (#[trigger] summary.router_candidates[i]).name == tensors[k].name
                &&& summary.router_candidates[i].source_shard == tensors[k].source_shard
                &&& summary.router_candidates[i].shape == tensors[k].shape
                &&& summary.router_candidates[i].score == points(
                    text::lowered(tensors[k].name),
                    tensors[k].shape,
                )
                &&& summary.router_tensors[i] == tensors[k].name
            },
{
    let t = tensors[k];
    let lower = text::lowered(t.name);
    assert(discovery::tensor_labels(t.name, t.shape).contains("moe_router_candidate"@)) by {
        assert(discovery::tensor_labels(t.name, t.shape)[0] == "moe_router_candidate"@);
    }
    law_labels_agree_with_discovery(t);
    lemma_points(lower, t.shape);
    lemma_router_entry(tensors, k);
    let routers = discovery::routers_of(tensors);
    let r = discovery::router_of(t);
    let keys = discovery::router_keys(routers);
    let order = sorting::stable_order(keys);
    sorting::lemma_stable_order_exists(keys);
    let j = routers.index_of(r);
    assert(order.contains(j));
    let i = order.index_of(j);
    assert(summary.router_candidates[i] == r);
}

/// Router candidates come best first: by score, then by name, then by shard.
pub proof fn law_routers_come_best_first(
    summary: SummaryView,
    tensors: Seq<RecordView>,
    i: int,
    j: int,
)
    requires
        discovery::summarizes(summary, tensors),
        0 <= i < j < summary.router_candidates.len(),
    ensures
        ({
            let a = summary.router_candidates[i];
            let b = summary.router_candidates[j];
            &&& a.score >= b.score
            &&& a.score == b.score ==> a.name == b.name || text::less(a.name, b.name)
            &&& a.score == b.score && a.name == b.name ==> a.source_shard == b.source_shard
                || text::less(a.source_shard, b.source_shard)
        }),
        summary.router_tensors.len() == summary.router_candidates.len(),
{
    let routers = discovery::routers_of(tensors);
    let keys = discovery::router_keys(routers);
    let order = sorting::stable_order(keys);
    sorting::lemma_stable_order_exists(keys);
    assert(sorting::before(keys, order[i], order[j]));
    assert(summary.router_candidates[i] == routers[order[i]]);
    assert(summary.router_candidates[j] == routers[order[j]]);
}

proof fn lemma_experts_filtered(tensors: Seq<RecordView>)
    ensures
        discovery::expert_names(discovery::experts_of(tensors)) == tensors.filter(
            |t: RecordView|
                discovery::tensor_labels(t.name, t.shape) == seq!["moe_expert_candidate"@],
        ).map_values(|t: RecordView| t.name),
    decreases tensors.len(),
{
    reveal(Seq::filter);
    let pick = |t: RecordView|
        discovery::tensor_labels(t.name, t.shape) == seq!["moe_expert_candidate"@];
    let name = |t: RecordView| t.name;
    if tensors.len() > 0 {
        let front = tensors.drop_last();
        let last = tensors.last();
        lemma_experts_filtered(front);
        law_experts_are_named(last.name, last.shape);
        lemma_expert_words(text::lowered(last.name));
        let before = discovery::experts_of(front);
        if discovery::is_expert(last) {
            assert(discovery::expert_names(discovery::experts_of(tensors))
                =~= discovery::expert_names(before).push(last.name));
            assert(front.filter(pick).push(last).map_values(name) =~= front.filter(pick).map_values(
                name,
            ).push(last.name));
        }
    } else {
        assert(discovery::expert_names(discovery::experts_of(tensors)) =~= Seq::empty());
        assert(tensors.filter(pick).map_values(name) =~= Seq::empty());
    }
}

/// The expert tensors of a summary are the names of the tensors that are labelled so, in
/// the order of the tensors.
pub proof fn law_labelled_experts_are_listed(summary: SummaryView, tensors: Seq<RecordView>)
    requires
        discovery::summarizes(summary, tensors),
    ensures
        summary.expert_tensors == tensors.filter(
            |t: RecordView|
                discovery::tensor_labels(t.name, t.shape) == seq!["moe_expert_candidate"@],
        ).map_values(|t: RecordView| t.name),
{
    lemma_experts_filtered(tensors);
}

/// The reason, where it is due.
pub open spec fn told(reason: Seq<char>, applies: bool) -> Seq<Seq<char>> {
    if applies {
        seq![reason]
    } else {
        Seq::empty()
    }
}

proof fn lemma_reasons_add(a: Seq<(nat, Seq<char>)>, b: Seq<(nat, Seq<char>)>)
    ensures
        discovery::mark_reasons(a + b) == discovery::mark_reasons(a) + discovery::mark_reasons(b),
{
    assert(discovery::mark_reasons(a + b) =~= discovery::mark_reasons(a) + discovery::mark_reasons(
        b,
    ));
}

proof fn lemma_mark_reason(applies: bool, n: nat, reason: Seq<char>)
    ensures
        discovery::mark_reasons(discovery::mark(applies, n, reason)) == told(reason, applies),
{
    assert(discovery::mark_reasons(discovery::mark(applies, n, reason)) =~= told(reason, applies));
}

/// The reasons of a router candidate are the rules that gave it points.
#[verifier::rlimit(40)]
pub proof fn law_reasons_are_the_rules_that_apply(lower: Seq<char>, shape: Seq<usize>)
    requires
        discovery::router_score(lower, shape) is Some,
    ensures
        ({
            let moe = text::contains_text(lower, "moe"@) || has_word(lower, "experts"@) || has_word(
                lower,
                "expert"@,
            );
            let shaped = sides_of_a_router(shape);
            let gate = text::ends_with_text(lower, ".gate.weight"@) || text::ends_with_text(
                lower,
                "/gate/weight"@,
            );
            discovery::router_score(lower, shape)->Some_0.1 == told("router_name"@, text::contains_text(lower, "router"@))
                + told("gate_inp_name"@, text::contains_text(lower, "gate_inp"@))
                + told("deepseek_v3_family_block_sparse_moe_gate"@, text::contains_text(lower, "block_sparse_moe.gate.weight"@) || text::contains_text(lower, "block_sparse_moe/gate/weight"@))
                + told("moe_gate_name"@, text::contains_text(lower, "moe.gate.weight"@) || text::contains_text(lower, "moe/gate/weight"@) || text::contains_text(lower, "feed_forward.gate.weight"@) || text::contains_text(lower, "feed_forward/gate/weight"@) || text::contains_text(lower, "ffn.gate.weight"@) || text::contains_text(lower, "ffn/gate/weight"@))
                + told("gating_name"@, (text::contains_text(lower, "gating.weight"@) || text::contains_text(lower, "gating/weight"@)) && (moe || shaped))
                + told("moe_context_gate_weight"@, gate && moe)
                + told("shape_guarded_gate_weight"@, gate && !moe && shaped)
                + told("router_shape"@, shaped)
        }),
{
    lemma_expert_words(lower);
    let moe = discovery::moe_context(lower);
    let shaped = discovery::router_shape(shape);
    assert(shaped == sides_of_a_router(shape));
    let gate = text::ends_with_text(lower, ".gate.weight"@) || text::ends_with_text(
        lower,
        "/gate/weight"@,
    );
    let c1 = text::contains_text(lower, "router"@);
    let c2 = text::contains_text(lower, "gate_inp"@);
    let c3 = text::contains_text(lower, "block_sparse_moe.gate.weight"@) || text::contains_text(
        lower,
        "block_sparse_moe/gate/weight"@,
    );
    let c4 = text::contains_text(lower, "moe.gate.weight"@) || text::contains_text(
        lower,
        "moe/gate/weight"@,
    ) || text::contains_text(lower, "feed_forward.gate.weight"@) || text::contains_text(
        lower,
        "feed_forward/gate/weight"@,
    ) || text::contains_text(lower, "ffn.gate.weight"@) || text::contains_text(
        lower,
        "ffn/gate/weight"@,
    );
    let c5 = (text::contains_text(lower, "gating.weight"@) || text::contains_text(
        lower,
        "gating/weight"@,
    )) && (moe || shaped);
    let m1 = discovery::mark(c1, 80, "router_name"@);
    let m2 = discovery::mark(c2, 80, "gate_inp_name"@);
    let m3 = discovery::mark(c3, 90, "deepseek_v3_family_block_sparse_moe_gate"@);
    let m4 = discovery::mark(c4, 70, "moe_gate_name"@);
    let m5 = discovery::mark(c5, 65, "gating_name"@);
    let m6 = discovery::mark(gate && moe, 60, "moe_context_gate_weight"@);
    let m7 = discovery::mark(gate && !moe && shaped, 45, "shape_guarded_gate_weight"@);
    let m8 = discovery::mark(shaped, 30, "router_shape"@);
    lemma_mark_reason(c1, 80, "router_name"@);
    lemma_mark_reason(c2, 80, "gate_inp_name"@);
    lemma_mark_reason(c3, 90, "deepseek_v3_family_block_sparse_moe_gate"@);
    lemma_mark_reason(c4, 70, "moe_gate_name"@);
    lemma_mark_reason(c5, 65, "gating_name"@);
    lemma_mark_reason(gate && moe, 60, "moe_context_gate_weight"@);
    lemma_mark_reason(gate && !moe && shaped, 45, "shape_guarded_gate_weight"@);
    lemma_mark_reason(shaped, 30, "router_shape"@);
    lemma_reasons_add(m1, m2);
    lemma_reasons_add(m1 + m2, m3);
    lemma_reasons_add(m1 + m2 + m3, m4);
    lemma_reasons_add(m1 + m2 + m3 + m4, m5);
    lemma_reasons_add(m1 + m2 + m3 + m4 + m5, m6);
    lemma_reasons_add(m1 + m2 + m3 + m4 + m5 + m6, m7);
    lemma_reasons_add(m1 + m2 + m3 + m4 + m5 + m6 + m7, m8);
    assert(discovery::router_marks(lower, shape) == m1 + m2 + m3 + m4 + m5 + m6 + m7 + m8);
}

/// Some tensor is labelled so.
pub open spec fn some_labelled(tensors: Seq<RecordView>, label: Seq<char>) -> bool {
    exists|i: int|
        0 <= i < tensors.len() && discovery::tensor_labels(
            (#[trigger] tensors[i]).name,
            tensors[i].shape,
        ) == seq![label]
}

/// Some name holds the word, in capitals or not.
pub open spec fn some_name_holds(tensors: Seq<RecordView>, word: Seq<char>) -> bool {
    exists|i: int|
        0 <= i < tensors.len() && text::contains_text(
            text::lowered((#[trigger] tensors[i]).name),
            word,
        )
}

proof fn lemma_some_labelled(tensors: Seq<RecordView>)
    ensures
        some_labelled(tensors, "moe_router_candidate"@) == discovery::some_router(tensors),
        some_labelled(tensors, "moe_expert_candidate"@) == discovery::some_expert(tensors),
{
    assert forall|i: int| 0 <= i < tensors.len() implies {
        &&& (discovery::tensor_labels((#[trigger] tensors[i]).name, tensors[i].shape) == seq![
            "moe_router_candidate"@,
        ]) == discovery::is_router(tensors[i])
        &&& (discovery::tensor_labels(tensors[i].name, tensors[i].shape) == seq![
            "moe_expert_candidate"@,
        ]) == discovery::is_expert(tensors[i])
    } by {
        let labels = discovery::tensor_labels(tensors[i].name, tensors[i].shape);
        law_labels_agree_with_discovery(tensors[i]);
        if labels == seq!["moe_router_candidate"@] {
            assert(labels[0] == "moe_router_candidate"@);
        }
        if labels == seq!["moe_expert_candidate"@] {
            assert(labels[0] == "moe_expert_candidate"@);
        }
    }
}

proof fn lemma_some_mention(tensors: Seq<RecordView>, a: Seq<char>, b: Seq<char>)
    ensures
        discovery::some_mention(tensors, a, b) == (some_name_holds(tensors, a) || some_name_holds(
            tensors,
            b,
        )),
{
    if some_name_holds(tensors, a) {
        let i = choose|i: int|
            0 <= i < tensors.len() && text::contains_text(
                text::lowered((#[trigger] tensors[i]).name),
                a,
            );
        assert(discovery::mentions_either(tensors[i], a, b));
    }
    if some_name_holds(tensors, b) {
        let i = choose|i: int|
            0 <= i < tensors.len() && text::contains_text(
                text::lowered((#[trigger] tensors[i]).name),
                b,
            );
        assert(discovery::mentions_either(tensors[i], a, b));
    }
}

/// The layout family: none without both a router and an expert; otherwise the first whose
/// word a name holds, or the generic one.
#[verifier::rlimit(40)]
pub proof fn law_families_are_named_in_the_tensors(summary: SummaryView, tensors: Seq<RecordView>)
    requires
        discovery::summarizes(summary, tensors),
    ensures
        ({
            let both = some_labelled(tensors, "moe_router_candidate"@) && some_labelled(
                tensors,
                "moe_expert_candidate"@,
            );
            let f1 = some_name_holds(tensors, "phimoe"@) || some_name_holds(tensors, "phi_moe"@);
            let f2 = some_name_holds(tensors, "granitemoe"@) || some_name_holds(tensors, "granite_moe"@);
            let f3 = some_name_holds(tensors, "afmoe"@) || some_name_holds(tensors, "af_moe"@);
            let f4 = some_name_holds(tensors, "lfm2_moe"@) || some_name_holds(tensors, "lfm2moe"@);
            let f5 = some_name_holds(tensors, "moonlight"@) || some_name_holds(tensors, "block_sparse_moe"@);
            &&& !both ==> summary.family is None
            &&& both && f1 ==> summary.family == Some("phimoe"@)
            &&& both && !f1 && f2 ==> summary.family == Some("granitemoe"@)
            &&& both && !f1 && !f2 && f3 ==> summary.family == Some("afmoe"@)
            &&& both && !f1 && !f2 && !f3 && f4 ==> summary.family == Some("lfm2_moe"@)
            &&& both && !f1 && !f2 && !f3 && !f4 && f5 ==> summary.family == Some("deepseek_v3_family"@)
            &&& both && !f1 && !f2 && !f3 && !f4 && !f5 ==> summary.family == Some("generic_moe"@)
        }),
{
    lemma_some_labelled(tensors);
    lemma_some_mention(tensors, "phimoe"@, "phi_moe"@);
    lemma_some_mention(tensors, "granitemoe"@, "granite_moe"@);
    lemma_some_mention(tensors, "afmoe"@, "af_moe"@);
    lemma_some_mention(tensors, "lfm2_moe"@, "lfm2moe"@);
    lemma_some_mention(tensors, "moonlight"@, "block_sparse_moe"@);
}

/// The kind of an expert's weight is the first of the known kinds that is a word of the
/// name, or `unknown`.
#[verifier::rlimit(40)]
pub proof fn law_weight_kinds_are_words(lower: Seq<char>, i: int)
    ensures
        ({
            let kinds = seq![
                "gate_proj"@,
                "up_proj"@,
                "down_proj"@,
                "ffn_up"@,
                "ffn_down"@,
                "linear_1"@,
                "linear_2"@,
                "linear_3"@,
                "fc1"@,
                "fc2"@,
                "fc3"@,
                "w1"@,
                "w2"@,
                "w3"@,
            ];
            let known = |k: int| has_word(lower, kinds[k]);
            &&& 0 <= i < 14 && known(i) && (forall|k: int| 0 <= k < i ==> !#[trigger] known(k))
                ==> discovery::weight_kind(lower) == kinds[i]
            &&& (forall|k: int| 0 <= k < 14 ==> !#[trigger] known(k)) ==> discovery::weight_kind(
                lower,
            ) == "unknown"@
        }),
{
    let kinds = seq![
        "gate_proj"@,
        "up_proj"@,
        "down_proj"@,
        "ffn_up"@,
        "ffn_down"@,
        "linear_1"@,
        "linear_2"@,
        "linear_3"@,
        "fc1"@,
        "fc2"@,
        "fc3"@,
        "w1"@,
        "w2"@,
        "w3"@,
    ];
    let known = |k: int| has_word(lower, kinds[k]);
    reveal_strlit("gate_proj");
    lemma_has_word(lower, "gate_proj"@);
    assert(kinds[0] == "gate_proj"@);
    assert(known(0) == has_word(lower, "gate_proj"@));
    reveal_strlit("up_proj");
    lemma_has_word(lower, "up_proj"@);
    assert(kinds[1] == "up_proj"@);
    assert(known(1) == has_word(lower, "up_proj"@));
    reveal_strlit("down_proj");
    lemma_has_word(lower, "down_proj"@);
    assert(kinds[2] == "down_proj"@);
    assert(known(2) == has_word(lower, "down_proj"@));
    reveal_strlit("ffn_up");
    lemma_has_word(lower, "ffn_up"@);
    assert(kinds[3] == "ffn_up"@);
    assert(known(3) == has_word(lower, "ffn_up"@));
    reveal_strlit("ffn_down");
    lemma_has_word(lower, "ffn_down"@);
    assert(kinds[4] == "ffn_down"@);
    assert(known(4) == has_word(lower, "ffn_down"@));
    reveal_strlit("linear_1");
    lemma_has_word(lower, "linear_1"@);
    assert(kinds[5] == "linear_1"@);
    assert(known(5) == has_word(lower, "linear_1"@));
    reveal_strlit("linear_2");
    lemma_has_word(lower, "linear_2"@);
    assert(kinds[6] == "linear_2"@);
    assert(known(6) == has_word(lower, "linear_2"@));
    reveal_strlit("linear_3");
    lemma_has_word(lower, "linear_3"@);
    assert(kinds[7] == "linear_3"@);
    assert(known(7) == has_word(lower, "linear_3"@));
    reveal_strlit("fc1");
    lemma_has_word(lower, "fc1"@);
    assert(kinds[8] == "fc1"@);
    assert(known(8) == has_word(lower, "fc1"@));
    reveal_strlit("fc2");
    lemma_has_word(lower, "fc2"@);
    assert(kinds[9] == "fc2"@);
    assert(known(9) == has_word(lower, "fc2"@));
    reveal_strlit("fc3");
    lemma_has_word(lower, "fc3"@);
    assert(kinds[10] == "fc3"@);
    assert(known(10) == has_word(lower, "fc3"@));
    reveal_strlit("w1");
    lemma_has_word(lower, "w1"@);
    assert(kinds[11] == "w1"@);
    assert(known(11) == has_word(lower, "w1"@));
    reveal_strlit("w2");
    lemma_has_word(lower, "w2"@);
    assert(kinds[12] == "w2"@);
    assert(known(12) == has_word(lower, "w2"@));
    reveal_strlit("w3");
    lemma_has_word(lower, "w3"@);
    assert(kinds[13] == "w3"@);
    assert(known(13) == has_word(lower, "w3"@));
}

/// The segment is a word that a layer number follows.
pub open spec fn announces_layer(word: Seq<char>) -> bool {
    word == "layers"@ || word == "layer"@ || word == "blocks"@ || word == "block"@ || word == "h"@
}

proof fn lemma_number_behind(segments: Seq<Seq<char>>, i: int, k: int, n: nat, layers: bool)
    requires
        0 <= i <= k,
        k + 1 < segments.len(),
        segments[k + 1] == text::decimal(n),
        n <= usize::MAX,
        if layers {
            discovery::layer_marker(segments[k])
        } else {
            discovery::expert_marker(segments[k])
        },
        forall|j: int|
            i <= j < k ==> !(if layers {
                discovery::layer_marker(#[trigger] segments[j])
            } else {
                discovery::expert_marker(segments[j])
            }),
    ensures
        discovery::number_behind(segments, i, layers) == Some(n),
    decreases k - i,
{
    if i < k {
        assert(segments[i] == segments[i]);
        lemma_number_behind(segments, i + 1, k, n, layers);
    } else {
        text::law_numerals_are_read_back(n, usize::MAX as nat);
    }
}

proof fn lemma_no_number(segments: Seq<Seq<char>>, i: int, layers: bool)
    requires
        0 <= i,
        forall|j: int|
            0 <= j < segments.len() ==> !(if layers {
                discovery::layer_marker(#[trigger] segments[j])
            } else {
                discovery::expert_marker(segments[j])
            }),
    ensures
        discovery::number_behind(segments, i, layers) is None,
    decreases segments.len() - i,
{
    if i + 1 < segments.len() {
        assert(segments[i] == segments[i]);
        lemma_no_number(segments, i + 1, layers);
    }
}

/// The layer and the expert that a name mentions: the number behind the first word that
/// announces one. The words of the name stand between dots, slashes and underscores.
#[verifier::rlimit(40)]
pub proof fn law_numbers_follow_their_words(lower: Seq<char>, k: int, n: nat)
    ensures
        ({
            let words = text::pieces(lower, seq!['.', '/', '_']);
            let numbered = 0 <= k < words.len() - 1 && words[k + 1] == text::decimal(n) && n
                <= usize::MAX;
            &&& numbered && announces_layer(words[k]) && (forall|j: int|
                0 <= j < k ==> !announces_layer(#[trigger] words[j])) ==> discovery::layer_hint(
                lower,
            ) == Some(n)
            &&& (forall|j: int| 0 <= j < words.len() ==> !announces_layer(#[trigger] words[j]))
                ==> discovery::layer_hint(lower) is None
            &&& numbered && (words[k] == "experts"@ || words[k] == "expert"@) && (forall|j: int|
                0 <= j < k ==> #[trigger] words[j] != "experts"@ && words[j] != "expert"@)
                ==> discovery::expert_index(lower) == Some(n)
            &&& (forall|j: int|
                0 <= j < words.len() ==> #[trigger] words[j] != "experts"@ && words[j]
                    != "expert"@) ==> discovery::expert_index(lower) is None
        }),
{
    let words = text::pieces(lower, seq!['.', '/', '_']);
    let numbered = 0 <= k < words.len() - 1 && words[k + 1] == text::decimal(n) && n <= usize::MAX;
    if numbered && announces_layer(words[k]) && (forall|j: int|
        0 <= j < k ==> !announces_layer(#[trigger] words[j])) {
        lemma_number_behind(words, 0, k, n, true);
    }
    if forall|j: int| 0 <= j < words.len() ==> !announces_layer(#[trigger] words[j]) {
        lemma_no_number(words, 0, true);
    }
    if numbered && (words[k] == "experts"@ || words[k] == "expert"@) && (forall|j: int|
        0 <= j < k ==> #[trigger] words[j] != "experts"@ && words[j] != "expert"@) {
        lemma_number_behind(words, 0, k, n, false);
    }
    if forall|j: int|
        0 <= j < words.len() ==> #[trigger] words[j] != "experts"@ && words[j] != "expert"@ {
        lemma_no_number(words, 0, false);
    }
}

proof fn lemma_first_position(segments: Seq<Seq<char>>, word: Seq<char>, p: int)
    requires
        0 <= p < segments.len(),
        segments[p] == word,
        forall|j: int| 0 <= j < p ==> #[trigger] segments[j] != word,
    ensures
        discovery::first_position(segments, word) == p,
    decreases p,
{
    if p > 0 {
        assert(segments[0] != word);
        let rest = segments.skip(1);
        assert forall|j: int| 0 <= j < p - 1 implies #[trigger] rest[j] != word by {
            assert(rest[j] == segments[j + 1]);
        }
        lemma_first_position(rest, word, p - 1);
    }
}

/// The group of an expert is the path in front of its `experts` word, or of its `expert`
/// word where there is no other; without a path it is the word itself.
pub proof fn law_experts_are_grouped_by_their_path(
    path: Seq<Seq<char>>,
    word: Seq<char>,
    rest: Seq<Seq<char>>,
)
    requires
        word == "experts"@ || (word == "expert"@ && !path.contains("experts"@) && !rest.contains(
            "experts"@,
        )),
        !path.contains(word),
        forall|i: int|
            0 <= i < path.len() ==> (#[trigger] path[i]).len() > 0 && text::unbroken(
                path[i],
                seq!['.', '/'],
            ),
        forall|i: int|
            0 <= i < rest.len() ==> (#[trigger] rest[i]).len() > 0 && text::unbroken(
                rest[i],
                seq!['.', '/'],
            ),
    ensures
        ({
            let lower = text::joined(path + seq![word] + rest, seq!['.']);
            discovery::expert_group(lower) == Some(
                if path.len() == 0 {
                    word
                } else {
                    text::joined(path, seq!['.'])
                },
            )
        }),
{
    let separators = seq!['.', '/'];
    let words = path + seq![word] + rest;
    let lower = text::joined(words, seq!['.']);
    reveal_strlit("experts");
    reveal_strlit("expert");
    reveal_strlit(".");
    assert("."@ =~= seq!['.']);
    assert("experts"@.len() == 7 && "expert"@.len() == 6);
    assert(separators[0] == '.');
    assert(separators.contains('.'));
    assert forall|k: int| 0 <= k < word.len() implies !separators.contains(#[trigger] word[k]) by {
        lemma_separator(word[k], separators);
    }
    assert forall|i: int| 0 <= i < words.len() implies (#[trigger] words[i]).len() > 0
        && text::unbroken(words[i], separators) by {
        if i < path.len() {
            assert(words[i] == path[i]);
        } else if i > path.len() {
            assert(words[i] == rest[i - path.len() - 1]);
        }
    }
    text::law_joined_words_come_apart(words, separators, '.');
    assert(discovery::path_segments(lower) == words);
    assert(words[path.len() as int] == word);
    assert(words.contains(word));
    assert forall|j: int| 0 <= j < path.len() implies #[trigger] words[j] != word by {
        assert(words[j] == path[j]);
        assert(path.contains(path[j]));
    }
    lemma_first_position(words, word, path.len() as int);
    assert(words.take(path.len() as int) =~= path);
    if word == "expert"@ {
        assert(!words.contains("experts"@)) by {
            if words.contains("experts"@) {
                let j = words.index_of("experts"@);
                if j < path.len() {
                    assert(path[j] == "experts"@);
                } else if j > path.len() {
                    assert(rest[j - path.len() - 1] == "experts"@);
                }
            }
        }
    }
}

proof fn lemma_expert_entry(tensors: Seq<RecordView>, k: int)
    requires
        0 <= k < tensors.len(),
        discovery::is_expert(tensors[k]),
    ensures
        discovery::experts_of(tensors).contains(discovery::expert_of(tensors[k])),
    decreases tensors.len(),
{
    let experts = discovery::experts_of(tensors);
    let e = discovery::expert_of(tensors[k]);
    if k == tensors.len() - 1 {
        assert(experts[experts.len() - 1] == e);
    } else {
        let front = tensors.drop_last();
        assert(front[k] == tensors[k]);
        lemma_expert_entry(front, k);
        let j = discovery::experts_of(front).index_of(e);
        assert(experts[j] == e);
    }
}

proof fn lemma_number_fits(segments: Seq<Seq<char>>, i: int, layers: bool)
    ensures
        discovery::number_behind(segments, i, layers) is Some ==> discovery::number_behind(
            segments,
            i,
            layers,
        )->Some_0 <= usize::MAX,
    decreases segments.len() - i,
{
    if 0 <= i && i + 1 < segments.len() {
        lemma_number_fits(segments, i + 1, layers);
    }
}

/// Every tensor that is labelled an expert is in one group: under its own group key, with its
/// name, its shard, the kind of its weight and the number of its expert.
pub proof fn law_labelled_experts_are_in_their_group(
    summary: SummaryView,
    tensors: Seq<RecordView>,
    k: int,
)
    requires
        discovery::summarizes(summary, tensors),
        0 <= k < tensors.len(),
        discovery::tensor_labels(tensors[k].name, tensors[k].shape) == seq![
            "moe_expert_candidate"@,
        ],
    ensures
        ({
            let t = tensors[k];
            let lower = text::lowered(t.name);
            exists|g: int|
                {
                    &&& 0 <= g < summary.expert_groups.len()
                    &&& Some((#[trigger] summary.expert_groups[g]).group_key)
                        == discovery::expert_group(lower)
                    &&& summary.expert_groups[g].tensor_names.contains(t.name)
                    &&& summary.expert_groups[g].source_shards.contains(t.source_shard)
                    &&& summary.expert_groups[g].weight_kinds.contains(
                        discovery::weight_kind(lower),
                    )
                    &&& discovery::expert_index(lower) is Some
                        ==> summary.expert_groups[g].expert_indices.contains(
                        discovery::expert_index(lower)->Some_0 as usize,
                    )
                }
        }),
{
    let t = tensors[k];
    let lower = text::lowered(t.name);
    law_labels_agree_with_discovery(t);
    assert(discovery::tensor_labels(t.name, t.shape)[0] == "moe_expert_candidate"@);
    assert(discovery::is_expert(t));
    lemma_expert_entry(tensors, k);
    let experts = discovery::experts_of(tensors);
    let e = discovery::expert_of(t);
    let i = experts.index_of(e);
    law_every_expert_is_grouped(summary, tensors, i);
    let g = choose|g: int|
        0 <= g < summary.expert_groups.len() && (#[trigger] summary.expert_groups[g]).group_key
            == experts[i].group_key && summary.expert_groups[g].tensor_names.contains(
            experts[i].name,
        );
    let group = summary.expert_groups[g];
    assert(discovery::describes_group(group, experts));
    lemma_member(experts, i);
    let members = discovery::group_members(experts, e.group_key);
    let m = members.index_of(e);
    assert(discovery::expert_shards(members)[m] == e.source_shard);
    assert(discovery::expert_shards(members).contains(e.source_shard));
    assert(discovery::expert_kinds(members)[m] == e.weight_kind);
    assert(discovery::expert_kinds(members).contains(e.weight_kind));
    lemma_number_fits(discovery::all_segments(lower), 0, false);
    if e.expert_index is Some {
        assert(members[m].expert_index == Some(e.expert_index->Some_0 as usize as nat));
    }
}

/// The tensor is an expert of the group with this key.
pub open spec fn in_group(t: RecordView, key: Seq<char>) -> bool {
    discovery::expert_group(text::lowered(t.name)) == Some(key)
}

proof fn lemma_members_origin(tensors: Seq<RecordView>, key: Seq<char>)
    ensures
        ({
            let members = discovery::group_members(discovery::experts_of(tensors), key);
            &&& forall|m: int|
                0 <= m < members.len() ==> exists|k: int|
                    0 <= k < tensors.len() && in_group(#[trigger] tensors[k], key)
                        && #[trigger] members[m] == discovery::expert_of(tensors[k])
            &&& members.len() > 0 ==> exists|k: int|
                {
                    &&& 0 <= k < tensors.len()
                    &&& in_group(#[trigger] tensors[k], key)
                    &&& members[0] == discovery::expert_of(tensors[k])
                    &&& forall|j: int| 0 <= j < k ==> !in_group(#[trigger] tensors[j], key)
                }
            &&& members.len() == 0 ==> forall|k: int|
                0 <= k < tensors.len() ==> !in_group(#[trigger] tensors[k], key)
        }),
    decreases tensors.len(),
{
    let members = discovery::group_members(discovery::experts_of(tensors), key);
    if tensors.len() > 0 {
        let front = tensors.drop_last();
        let last = tensors.last();
        let end = tensors.len() - 1;
        lemma_members_origin(front, key);
        let before = discovery::group_members(discovery::experts_of(front), key);
        if discovery::is_expert(last) {
            let grown = discovery::experts_of(tensors);
            assert(grown.drop_last() =~= discovery::experts_of(front));
        }
        assert(members == if in_group(last, key) {
            before.push(discovery::expert_of(last))
        } else {
            before
        });
        assert forall|m: int| 0 <= m < members.len() implies exists|k: int|
            0 <= k < tensors.len() && in_group(#[trigger] tensors[k], key) && #[trigger] members[m]
                == discovery::expert_of(tensors[k]) by {
            if m < before.len() {
                let k = choose|k: int|
                    0 <= k < front.len() && in_group(#[trigger] front[k], key) && before[m]
                        == discovery::expert_of(front[k]);
                assert(tensors[k] == front[k]);
                assert(in_group(tensors[k], key));
            } else {
                assert(in_group(tensors[end], key));
            }
        }
        if before.len() > 0 {
            let k = choose|k: int|
                {
                    &&& 0 <= k < front.len()
                    &&& in_group(#[trigger] front[k], key)
                    &&& before[0] == discovery::expert_of(front[k])
                    &&& forall|j: int| 0 <= j < k ==> !in_group(#[trigger] front[j], key)
                };
            assert forall|j: int| 0 <= j < k implies !in_group(#[trigger] tensors[j], key) by {
                assert(front[j] == tensors[j]);
            }
            assert(in_group(tensors[k], key));
        } else {
            assert forall|j: int| 0 <= j < end implies !in_group(#[trigger] tensors[j], key) by {
                assert(front[j] == tensors[j]);
            }
            if members.len() > 0 {
                assert(in_group(tensors[end], key));
            }
        }
    }
}

/// A group holds nothing but its experts: each of its names, shards, kinds and numbers is
/// that of a tensor of the group, and its layer is that of the first of them.
pub proof fn law_groups_hold_their_experts_alone(
    summary: SummaryView,
    tensors: Seq<RecordView>,
    g: int,
)
    requires
        discovery::summarizes(summary, tensors),
        0 <= g < summary.expert_groups.len(),
    ensures
        ({
            let group = summary.expert_groups[g];
            let key = group.group_key;
            &&& exists|k: int|
                {
                    &&& 0 <= k < tensors.len()
                    &&& in_group(#[trigger] tensors[k], key)
                    &&& forall|j: int| 0 <= j < k ==> !in_group(#[trigger] tensors[j], key)
                    &&& group.layer_hint is Some <==> discovery::layer_hint(
                        text::lowered(tensors[k].name),
                    ) is Some
                    &&& group.layer_hint is Some ==> group.layer_hint->Some_0
                        == discovery::layer_hint(text::lowered(tensors[k].name))->Some_0
                }
            &&& forall|i: int|
                0 <= i < group.tensor_names.len() ==> exists|k: int|
                    0 <= k < tensors.len() && in_group(#[trigger] tensors[k], key)
                        && tensors[k].name == #[trigger] group.tensor_names[i]
            &&& forall|i: int|
                0 <= i < group.source_shards.len() ==> exists|k: int|
                    0 <= k < tensors.len() && in_group(#[trigger] tensors[k], key)
                        && tensors[k].source_shard == #[trigger] group.source_shards[i]
            &&& forall|i: int|
                0 <= i < group.weight_kinds.len() ==> exists|k: int|
                    0 <= k < tensors.len() && in_group(#[trigger] tensors[k], key)
                        && discovery::weight_kind(text::lowered(tensors[k].name))
                        == #[trigger] group.weight_kinds[i]
            &&& forall|i: int|
                0 <= i < group.expert_indices.len() ==> exists|k: int|
                    0 <= k < tensors.len() && in_group(#[trigger] tensors[k], key)
                        && discovery::expert_index(text::lowered(tensors[k].name)) == Some(
                        #[trigger] group.expert_indices[i] as nat,
                    )
        }),
{
    let group = summary.expert_groups[g];
    let key = group.group_key;
    let experts = discovery::experts_of(tensors);
    let members = discovery::group_members(experts, key);
    assert(discovery::describes_group(group, experts));
    lemma_members_origin(tensors, key);
    let first = choose|k: int|
        {
            &&& 0 <= k < tensors.len()
            &&& in_group(#[trigger] tensors[k], key)
            &&& members[0] == discovery::expert_of(tensors[k])
            &&& forall|j: int| 0 <= j < k ==> !in_group(#[trigger] tensors[j], key)
        };
    lemma_number_fits(discovery::all_segments(text::lowered(tensors[first].name)), 0, true);
    assert(in_group(tensors[first], key));
    let names = discovery::expert_names(members);
    let keys = discovery::text_keys(names);
    let order = sorting::stable_order(keys);
    sorting::lemma_stable_order_exists(keys);
    assert forall|i: int| 0 <= i < group.tensor_names.len() implies exists|k: int|
        0 <= k < tensors.len() && in_group(#[trigger] tensors[k], key) && tensors[k].name
            == #[trigger] group.tensor_names[i] by {
        let m = order[i];
        assert(members[m] == members[m]);
        let k = choose|k: int|
            0 <= k < tensors.len() && in_group(#[trigger] tensors[k], key) && members[m]
                == discovery::expert_of(tensors[k]);
        assert(tensors[k].name == group.tensor_names[i]);
    }
    assert forall|i: int| 0 <= i < group.source_shards.len() implies exists|k: int|
        0 <= k < tensors.len() && in_group(#[trigger] tensors[k], key) && tensors[k].source_shard
            == #[trigger] group.source_shards[i] by {
        let shards = discovery::expert_shards(members);
        assert(group.source_shards.contains(group.source_shards[i]));
        assert(shards.contains(group.source_shards[i]));
        let m = shards.index_of(group.source_shards[i]);
        assert(members[m].source_shard == group.source_shards[i]);
        let k = choose|k: int|
            0 <= k < tensors.len() && in_group(#[trigger] tensors[k], key) && members[m]
                == discovery::expert_of(tensors[k]);
        assert(tensors[k].source_shard == group.source_shards[i]);
    }
    assert forall|i: int| 0 <= i < group.weight_kinds.len() implies exists|k: int|
        0 <= k < tensors.len() && in_group(#[trigger] tensors[k], key) && discovery::weight_kind(
            text::lowered(tensors[k].name),
        ) == #[trigger] group.weight_kinds[i] by {
        let kinds = discovery::expert_kinds(members);
        assert(group.weight_kinds.contains(group.weight_kinds[i]));
        assert(kinds.contains(group.weight_kinds[i]));
        let m = kinds.index_of(group.weight_kinds[i]);
        assert(members[m].weight_kind == group.weight_kinds[i]);
        let k = choose|k: int|
            0 <= k < tensors.len() && in_group(#[trigger] tensors[k], key) && members[m]
                == discovery::expert_of(tensors[k]);
        assert(discovery::weight_kind(text::lowered(tensors[k].name)) == group.weight_kinds[i]);
    }
    assert forall|i: int| 0 <= i < group.expert_indices.len() implies exists|k: int|
        0 <= k < tensors.len() && in_group(#[trigger] tensors[k], key) && discovery::expert_index(
            text::lowered(tensors[k].name),
        ) == Some(#[trigger] group.expert_indices[i] as nat) by {
        let n = group.expert_indices[i];
        assert(group.expert_indices.contains(n));
        let m = choose|m: int|
            0 <= m < members.len() && (#[trigger] members[m]).expert_index == Some(n as nat);
        let k = choose|k: int|
            0 <= k < tensors.len() && in_group(#[trigger] tensors[k], key) && members[m]
                == discovery::expert_of(tensors[k]);
        assert(discovery::expert_index(text::lowered(tensors[k].name)) == Some(n as nat));
    }
}

} // verus!
