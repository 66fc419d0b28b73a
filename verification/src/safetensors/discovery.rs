//! Name/shape heuristics for MoE router and expert candidate discovery.

use crate::ordered;
use crate::ordered::StringMap;
use crate::safetensors::record;
use crate::safetensors::record::{RecordView, SafetensorsTensorRecord};
use crate::sorting;
use crate::sorting::{KeyView, SortKey};
use crate::text;
use vstd::prelude::*;

verus! {

/// Layout-family guess plus scored router/expert candidates.
#[derive(Debug, Clone, PartialEq, Eq)]
pub struct SafetensorsCandidateSummary {
    /// Inferred family when both router and expert evidence is present.
    pub detected_layout_family: Option<&'static str>,
    /// Router tensor names, score-then-name ordered.
    pub router_tensors: Vec<String>,
    /// Expert tensor names in discovery order.
    pub expert_tensors: Vec<String>,
    /// Scored router candidates.
    pub router_candidates: Vec<SafetensorsRouterCandidate>,
    /// Expert groups keyed by the path prefix before `experts`/`expert`.
    pub expert_groups: Vec<SafetensorsExpertGroup>,
}

/// A tensor whose name/shape looks like a MoE router / gate.
#[derive(Debug, Clone, PartialEq, Eq)]
pub struct SafetensorsRouterCandidate {
    /// Tensor name from the Safetensors header.
    pub name: String,
    /// Layer index parsed from the name, if present.
    pub layer_hint: Option<usize>,
    /// Relative shard path that owns this tensor.
    pub source_shard: String,
    /// Tensor shape from the header.
    pub shape: Vec<usize>,
    /// Heuristic score (higher is more router-like).
    pub score: u32,
    /// Human-readable score reasons.
    pub reasons: Vec<&'static str>,
}

/// A group of expert tensors that share a path prefix.
#[derive(Debug, Clone, PartialEq, Eq)]
pub struct SafetensorsExpertGroup {
    /// Path prefix up to (but not including) `experts`/`expert`.
    pub group_key: String,
    /// Layer index parsed from the name, if present.
    pub layer_hint: Option<usize>,
    /// Distinct expert indices observed in this group.
    pub expert_indices: Vec<usize>,
    /// Tensor names in this group, sorted.
    pub tensor_names: Vec<String>,
    /// Shards contributing tensors to this group, sorted.
    pub source_shards: Vec<String>,
    /// Weight-kind labels (`w1`, `gate_proj`, `unknown`, ...), sorted.
    pub weight_kinds: Vec<&'static str>,
}

// ---------------------------------------------------------------------------
// Names
// ---------------------------------------------------------------------------
/// The segments of a lower-case name between dots and slashes.
pub open spec fn path_segments(lower: Seq<char>) -> Seq<Seq<char>> {
    text::pieces(lower, seq!['.', '/'])
}

/// The segments of a lower-case name between dots, slashes and underscores.
pub open spec fn all_segments(lower: Seq<char>) -> Seq<Seq<char>> {
    text::pieces(lower, seq!['.', '/', '_'])
}

/// The name speaks of a mixture of experts.
pub open spec fn moe_context(lower: Seq<char>) -> bool {
    ||| text::contains_text(lower, "moe"@)
    ||| path_segments(lower).contains("experts"@)
    ||| path_segments(lower).contains("expert"@)
}

/// Two dimensions, the smaller of 2 to 512 and the greater at least 512.
pub open spec fn router_shape(shape: Seq<usize>) -> bool {
    &&& shape.len() == 2
    &&& ({
        let (low, high) = if shape[0] <= shape[1] {
            (shape[0], shape[1])
        } else {
            (shape[1], shape[0])
        };
        2 <= low <= 512 && high >= 512
    })
}

/// One reason and its points, where it applies.
pub open spec fn mark(applies: bool, points: nat, reason: Seq<char>) -> Seq<(nat, Seq<char>)> {
    if applies {
        seq![(points, reason)]
    } else {
        Seq::empty()
    }
}

/// The reasons why a tensor may be a router, with their points.
pub open spec fn router_marks(lower: Seq<char>, shape: Seq<usize>) -> Seq<(nat, Seq<char>)> {
    let moe = moe_context(lower);
    let shaped = router_shape(shape);
    let gate_weight = text::ends_with_text(lower, ".gate.weight"@) || text::ends_with_text(
        lower,
        "/gate/weight"@,
    );
    mark(text::contains_text(lower, "router"@), 80, "router_name"@) + mark(
        text::contains_text(lower, "gate_inp"@),
        80,
        "gate_inp_name"@,
    ) + mark(
        text::contains_text(lower, "block_sparse_moe.gate.weight"@) || text::contains_text(
            lower,
            "block_sparse_moe/gate/weight"@,
        ),
        90,
        "deepseek_v3_family_block_sparse_moe_gate"@,
    ) + mark(
        text::contains_text(lower, "moe.gate.weight"@) || text::contains_text(
            lower,
            "moe/gate/weight"@,
        ) || text::contains_text(lower, "feed_forward.gate.weight"@) || text::contains_text(
            lower,
            "feed_forward/gate/weight"@,
        ) || text::contains_text(lower, "ffn.gate.weight"@) || text::contains_text(
            lower,
            "ffn/gate/weight"@,
        ),
        70,
        "moe_gate_name"@,
    ) + mark(
        (text::contains_text(lower, "gating.weight"@) || text::contains_text(
            lower,
            "gating/weight"@,
        )) && (moe || shaped),
        65,
        "gating_name"@,
    ) + mark(gate_weight && moe, 60, "moe_context_gate_weight"@) + mark(
        gate_weight && !moe && shaped,
        45,
        "shape_guarded_gate_weight"@,
    ) + mark(shaped, 30, "router_shape"@)
}

/// The sum of the points.
pub open spec fn total_points(marks: Seq<(nat, Seq<char>)>) -> nat
    decreases marks.len(),
{
    if marks.len() == 0 {
        0
    } else {
        total_points(marks.drop_last()) + marks.last().0
    }
}

/// The reasons alone.
pub open spec fn mark_reasons(marks: Seq<(nat, Seq<char>)>) -> Seq<Seq<char>> {
    Seq::new(marks.len(), |i: int| marks[i].1)
}

/// Score and reasons of a tensor that counts as a router candidate: at least 60 points.
pub open spec fn router_score(lower: Seq<char>, shape: Seq<usize>) -> Option<
    (nat, Seq<Seq<char>>),
> {
    let marks = router_marks(lower, shape);
    if marks.len() > 0 && total_points(marks) >= 60 {
        Some((total_points(marks), mark_reasons(marks)))
    } else {
        None
    }
}

/// The position of the first segment that is `word`.
pub open spec fn first_position(segments: Seq<Seq<char>>, word: Seq<char>) -> int
    decreases segments.len(),
{
    if segments.len() == 0 || segments[0] == word {
        0
    } else {
        1 + first_position(segments.skip(1), word)
    }
}

/// The segments before the first `word`, joined by dots, or `word` itself at the front.
pub open spec fn prefix_before(segments: Seq<Seq<char>>, word: Seq<char>) -> Seq<char> {
    let p = first_position(segments, word);
    if p == 0 {
        word
    } else {
        text::joined(segments.take(p), "."@)
    }
}

/// The group of an expert tensor: what stands before its `experts` or else its `expert`
/// segment.
pub open spec fn expert_group(lower: Seq<char>) -> Option<Seq<char>> {
    let segments = path_segments(lower);
    if !moe_context(lower) {
        None
    } else if segments.contains("experts"@) {
        Some(prefix_before(segments, "experts"@))
    } else if segments.contains("expert"@) {
        Some(prefix_before(segments, "expert"@))
    } else {
        None
    }
}

/// The segment announces the number of a layer.
pub open spec fn layer_marker(segment: Seq<char>) -> bool {
    segment == "layers"@ || segment == "layer"@ || segment == "blocks"@ || segment == "block"@
        || segment == "h"@
}

/// The segment announces the number of an expert.
pub open spec fn expert_marker(segment: Seq<char>) -> bool {
    segment == "experts"@ || segment == "expert"@
}

/// The first number from `i` on that stands directly behind a marker.
pub open spec fn number_behind(segments: Seq<Seq<char>>, i: int, layers: bool) -> Option<nat>
    decreases segments.len() - i,
{
    if i < 0 || i + 1 >= segments.len() {
        None
    } else {
        let marked = if layers {
            layer_marker(segments[i])
        } else {
            expert_marker(segments[i])
        };
        let number = text::parsed_unsigned(segments[i + 1], usize::MAX as nat);
        if marked && number is Some {
            number
        } else {
            number_behind(segments, i + 1, layers)
        }
    }
}

/// The layer that the name mentions.
pub open spec fn layer_hint(lower: Seq<char>) -> Option<nat> {
    number_behind(all_segments(lower), 0, true)
}

/// The expert that the name mentions.
pub open spec fn expert_index(lower: Seq<char>) -> Option<nat> {
    number_behind(all_segments(lower), 0, false)
}

/// The kind of an expert's weight: the first of the known kinds that is a segment.
pub open spec fn weight_kind(lower: Seq<char>) -> Seq<char> {
    let segments = path_segments(lower);
    if segments.contains("gate_proj"@) {
        "gate_proj"@
    } else if segments.contains("up_proj"@) {
        "up_proj"@
    } else if segments.contains("down_proj"@) {
        "down_proj"@
    } else if segments.contains("ffn_up"@) {
        "ffn_up"@
    } else if segments.contains("ffn_down"@) {
        "ffn_down"@
    } else if segments.contains("linear_1"@) {
        "linear_1"@
    } else if segments.contains("linear_2"@) {
        "linear_2"@
    } else if segments.contains("linear_3"@) {
        "linear_3"@
    } else if segments.contains("fc1"@) {
        "fc1"@
    } else if segments.contains("fc2"@) {
        "fc2"@
    } else if segments.contains("fc3"@) {
        "fc3"@
    } else if segments.contains("w1"@) {
        "w1"@
    } else if segments.contains("w2"@) {
        "w2"@
    } else if segments.contains("w3"@) {
        "w3"@
    } else {
        "unknown"@
    }
}

/// The labels of a tensor: expert, else router, else the shape of a router.
pub open spec fn tensor_labels(name: Seq<char>, shape: Seq<usize>) -> Seq<Seq<char>> {
    let lower = text::lowered(name);
    if expert_group(lower) is Some {
        seq!["moe_expert_candidate"@]
    } else if router_score(lower, shape) is Some {
        seq!["moe_router_candidate"@]
    } else if router_shape(shape) {
        seq!["possible_moe_router_shape"@]
    } else {
        Seq::empty()
    }
}

struct TensorNameParts {
    lower: Vec<char>,
    path_segments: Vec<Vec<char>>,
    all_segments: Vec<Vec<char>>,
}

impl TensorNameParts {
    spec fn well_formed(self) -> bool {
        &&& text::piece_views(self.path_segments@) == path_segments(self.lower@)
        &&& text::piece_views(self.all_segments@) == all_segments(self.lower@)
    }

    fn new(name: &str) -> (r: TensorNameParts)
        ensures
            r.well_formed(),
            r.lower@ == text::lowered(name@),
    {
        let lower = text::lowercase_chars(name);
        let dots: [char; 2] = ['.', '/'];
        let all: [char; 3] = ['.', '/', '_'];
        let path = text::split(lower.as_slice(), &dots);
        let every = text::split(lower.as_slice(), &all);
        assert(dots@ =~= seq!['.', '/']);
        assert(all@ =~= seq!['.', '/', '_']);
        TensorNameParts { lower, path_segments: path, all_segments: every }
    }

    fn contains(&self, word: &str) -> (r: bool)
        ensures
            r == text::contains_text(self.lower@, word@),
    {
        text::contains(self.lower.as_slice(), word)
    }

    fn ends_with(&self, word: &str) -> (r: bool)
        ensures
            r == text::ends_with_text(self.lower@, word@),
    {
        text::ends_with(self.lower.as_slice(), word)
    }

    /// The position of the first path segment that is `word`.
    fn path_position(&self, word: &str) -> (r: Option<usize>)
        requires
            self.well_formed(),
        ensures
            match r {
                Some(i) => {
                    &&& path_segments(self.lower@).contains(word@)
                    &&& i == first_position(path_segments(self.lower@), word@)
                    &&& i < self.path_segments@.len()
                },
                None => !path_segments(self.lower@).contains(word@),
            },
    {
        let ghost segments = path_segments(self.lower@);
        let mut i: usize = 0;
        assert(segments.skip(0) =~= segments);
        while i < self.path_segments.len()
            invariant
                i <= self.path_segments@.len(),
                segments == path_segments(self.lower@),
                segments == text::piece_views(self.path_segments@),
                forall|k: int| 0 <= k < i ==> #[trigger] segments[k] != word@,
                first_position(segments, word@) == i + first_position(
                    segments.skip(i as int),
                    word@,
                ),
            decreases self.path_segments@.len() - i,
        {
            assert(segments.skip(i as int)[0] == segments[i as int]);
            assert(segments.skip(i as int).skip(1) =~= segments.skip(i + 1));
            if text::spells(self.path_segments[i].as_slice(), word) {
                assert(segments[i as int] == word@);
                return Some(i);
            }
            i += 1;
        }
        None
    }

    fn has_path_segment(&self, word: &str) -> (r: bool)
        requires
            self.well_formed(),
        ensures
            r == path_segments(self.lower@).contains(word@),
    {
        match self.path_position(word) {
            Some(_) => true,
            None => false,
        }
    }
}

fn has_moe_context(parts: &TensorNameParts) -> (r: bool)
    requires
        parts.well_formed(),
    ensures
        r == moe_context(parts.lower@),
{
    parts.contains("moe") || parts.has_path_segment("experts") || parts.has_path_segment("expert")
}

fn router_shape_hint(shape: &[usize]) -> (r: bool)
    ensures
        r == router_shape(shape@),
{
    if shape.len() != 2 {
        return false;
    }
    let (low, high): (usize, usize) = if shape[0] <= shape[1] {
        (shape[0], shape[1])
    } else {
        (shape[1], shape[0])
    };
    2 <= low && low <= 512 && high >= 512
}

/// Points and reasons collected so far.
struct ScoreSheet {
    score: u32,
    reasons: Vec<&'static str>,
    marks: Ghost<Seq<(nat, Seq<char>)>>,
}

impl ScoreSheet {
    spec fn well_formed(self) -> bool {
        &&& self.score == total_points(self.marks@)
        &&& text::slice_views(self.reasons@) == mark_reasons(self.marks@)
    }

    fn add(&mut self, applies: bool, points: u32, reason: &'static str)
        requires
            old(self).well_formed(),
            old(self).score + points <= u32::MAX,
        ensures
            final(self).well_formed(),
            final(self).marks@ == old(self).marks@ + mark(applies, points as nat, reason@),
            final(self).score <= old(self).score + points,
    {
        let ghost before = self.marks@;
        let ghost reasons = text::slice_views(self.reasons@);
        if applies {
            self.score = self.score + points;
            self.reasons.push(reason);
            self.marks = Ghost(before.push((points as nat, reason@)));
            proof {
                let after = before.push((points as nat, reason@));
                assert(after.drop_last() =~= before);
                assert(after =~= before + mark(applies, points as nat, reason@));
                assert(text::slice_views(self.reasons@) =~= reasons.push(reason@));
                assert(mark_reasons(after) =~= mark_reasons(before).push(reason@));
            }
        } else {
            assert(before =~= before + mark(applies, points as nat, reason@));
        }
    }
}

fn router_candidate_score(parts: &TensorNameParts, shape: &[usize]) -> (r: Option<
    (u32, Vec<&'static str>),
>)
    requires
        parts.well_formed(),
    ensures
        match r {
            Some((score, reasons)) => router_score(parts.lower@, shape@) == Some(
                (score as nat, text::slice_views(reasons@)),
            ),
            None => router_score(parts.lower@, shape@) is None,
        },
{
    let has_moe = has_moe_context(parts);
    let has_router_shape = router_shape_hint(shape);
    let mut sheet = ScoreSheet { score: 0, reasons: Vec::new(), marks: Ghost(Seq::empty()) };
    assert(text::slice_views(sheet.reasons@) =~= mark_reasons(sheet.marks@));
    sheet.add(parts.contains("router"), 80, "router_name");
    sheet.add(parts.contains("gate_inp"), 80, "gate_inp_name");
    sheet.add(
        parts.contains("block_sparse_moe.gate.weight") || parts.contains(
            "block_sparse_moe/gate/weight",
        ),
        90,
        "deepseek_v3_family_block_sparse_moe_gate",
    );
    sheet.add(
        parts.contains("moe.gate.weight") || parts.contains("moe/gate/weight") || parts.contains(
            "feed_forward.gate.weight",
        ) || parts.contains("feed_forward/gate/weight") || parts.contains("ffn.gate.weight")
            || parts.contains("ffn/gate/weight"),
        70,
        "moe_gate_name",
    );
    sheet.add(
        (parts.contains("gating.weight") || parts.contains("gating/weight")) && (has_moe
            || has_router_shape),
        65,
        "gating_name",
    );
    let gate_weight_suffix = parts.ends_with(".gate.weight") || parts.ends_with("/gate/weight");
    sheet.add(gate_weight_suffix && has_moe, 60, "moe_context_gate_weight");
    sheet.add(
        gate_weight_suffix && !has_moe && has_router_shape,
        45,
        "shape_guarded_gate_weight",
    );
    sheet.add(has_router_shape, 30, "router_shape");
    proof {
        assert(sheet.marks@ =~= router_marks(parts.lower@, shape@));
        assert(sheet.reasons@.len() == sheet.marks@.len()) by {
            assert(text::slice_views(sheet.reasons@).len() == mark_reasons(sheet.marks@).len());
        }
    }
    if sheet.reasons.len() > 0 && sheet.score >= 60 {
        Some((sheet.score, sheet.reasons))
    } else {
        None
    }
}

// ---------------------------------------------------------------------------
// Experts
// ---------------------------------------------------------------------------
/// What discovery keeps of an expert tensor.
#[verifier::ext_equal]
pub struct ExpertView {
    pub name: Seq<char>,
    pub source_shard: Seq<char>,
    pub layer_hint: Option<nat>,
    pub expert_index: Option<nat>,
    pub group_key: Seq<char>,
    pub weight_kind: Seq<char>,
}

/// The tensor is an expert candidate.
pub open spec fn is_expert(t: RecordView) -> bool {
    expert_group(text::lowered(t.name)) is Some
}

/// What discovery keeps of an expert tensor.
pub open spec fn expert_of(t: RecordView) -> ExpertView {
    let lower = text::lowered(t.name);
    ExpertView {
        name: t.name,
        source_shard: t.source_shard,
        layer_hint: layer_hint(lower),
        expert_index: expert_index(lower),
        group_key: expert_group(lower)->Some_0,
        weight_kind: weight_kind(lower),
    }
}

/// The expert tensors, in order.
pub open spec fn experts_of(tensors: Seq<RecordView>) -> Seq<ExpertView>
    decreases tensors.len(),
{
    if tensors.len() == 0 {
        Seq::empty()
    } else if is_expert(tensors.last()) {
        experts_of(tensors.drop_last()).push(expert_of(tensors.last()))
    } else {
        experts_of(tensors.drop_last())
    }
}

/// The expert tensors of one group, in order.
pub open spec fn group_members(experts: Seq<ExpertView>, key: Seq<char>) -> Seq<ExpertView>
    decreases experts.len(),
{
    if experts.len() == 0 {
        Seq::empty()
    } else if experts.last().group_key == key {
        group_members(experts.drop_last(), key).push(experts.last())
    } else {
        group_members(experts.drop_last(), key)
    }
}

/// The names of expert tensors, in order.
pub open spec fn expert_names(experts: Seq<ExpertView>) -> Seq<Seq<char>> {
    Seq::new(experts.len(), |i: int| experts[i].name)
}

/// The shards of expert tensors, in order.
pub open spec fn expert_shards(experts: Seq<ExpertView>) -> Seq<Seq<char>> {
    Seq::new(experts.len(), |i: int| experts[i].source_shard)
}

/// The weight kinds of expert tensors, in order.
pub open spec fn expert_kinds(experts: Seq<ExpertView>) -> Seq<Seq<char>> {
    Seq::new(experts.len(), |i: int| experts[i].weight_kind)
}

/// The group keys of expert tensors, in order.
pub open spec fn expert_keys(experts: Seq<ExpertView>) -> Seq<Seq<char>> {
    Seq::new(experts.len(), |i: int| experts[i].group_key)
}

/// What texts are sorted by.
pub open spec fn text_keys(texts: Seq<Seq<char>>) -> Seq<KeyView> {
    Seq::new(
        texts.len(),
        |i: int| KeyView { first: 0, second: 0, name: texts[i], shard: Seq::empty() },
    )
}

/// The texts in increasing order, repetitions kept.
pub open spec fn sorted_texts(texts: Seq<Seq<char>>) -> Seq<Seq<char>> {
    sorting::arranged(texts, sorting::stable_order(text_keys(texts)))
}

/// What an expert group says.
#[verifier::ext_equal]
pub struct GroupView {
    pub group_key: Seq<char>,
    pub layer_hint: Option<usize>,
    pub expert_indices: Seq<usize>,
    pub tensor_names: Seq<Seq<char>>,
    pub source_shards: Seq<Seq<char>>,
    pub weight_kinds: Seq<Seq<char>>,
}

impl View for SafetensorsExpertGroup {
    type V = GroupView;

    open spec fn view(&self) -> GroupView {
        GroupView {
            group_key: self.group_key@,
            layer_hint: self.layer_hint,
            expert_indices: self.expert_indices@,
            tensor_names: text::views(self.tensor_names@),
            source_shards: text::views(self.source_shards@),
            weight_kinds: text::slice_views(self.weight_kinds@),
        }
    }
}

/// A hint as it is stored.
pub open spec fn stored(hint: Option<nat>) -> Option<usize> {
    match hint {
        Some(n) => Some(n as usize),
        None => None,
    }
}

/// `indices` are the expert numbers that the members mention, in increasing order, each
/// once.
pub open spec fn lists_indices(indices: Seq<usize>, members: Seq<ExpertView>) -> bool {
    &&& forall|i: int, j: int|
        0 <= i < j < indices.len() ==> #[trigger] indices[i] < #[trigger] indices[j]
    &&& forall|n: usize| #[trigger]
        indices.contains(n) <==> exists|i: int|
            0 <= i < members.len() && (#[trigger] members[i]).expert_index == Some(n as nat)
}

/// The group is made of the expert tensors with its key.
pub open spec fn describes_group(group: GroupView, experts: Seq<ExpertView>) -> bool {
    let members = group_members(experts, group.group_key);
    &&& members.len() > 0
    &&& group.layer_hint == stored(members[0].layer_hint)
    &&& lists_indices(group.expert_indices, members)
    &&& group.tensor_names == sorted_texts(expert_names(members))
    &&& text::lists(group.source_shards, expert_shards(members))
    &&& text::lists(group.weight_kinds, expert_kinds(members))
}

/// The views of the groups, in order.
pub open spec fn group_views(groups: Seq<SafetensorsExpertGroup>) -> Seq<GroupView> {
    Seq::new(groups.len(), |i: int| groups[i]@)
}

/// The keys of the groups, in order.
pub open spec fn group_keys(groups: Seq<GroupView>) -> Seq<Seq<char>> {
    Seq::new(groups.len(), |i: int| groups[i].group_key)
}

/// One group for every key of an expert tensor, in the order of the keys.
pub open spec fn describes_groups(groups: Seq<GroupView>, experts: Seq<ExpertView>) -> bool {
    &&& text::lists(group_keys(groups), expert_keys(experts))
    &&& forall|i: int| 0 <= i < groups.len() ==> describes_group(#[trigger] groups[i], experts)
}

struct ExpertRecord {
    name: String,
    source_shard: String,
    layer_hint: Option<usize>,
    expert_index: Option<usize>,
    group_key: String,
    weight_kind: &'static str,
}

/// A stored number as a mathematical one.
spec fn hint_view(hint: Option<usize>) -> Option<nat> {
    match hint {
        Some(n) => Some(n as nat),
        None => None,
    }
}

impl View for ExpertRecord {
    type V = ExpertView;

    closed spec fn view(&self) -> ExpertView {
        ExpertView {
            name: self.name@,
            source_shard: self.source_shard@,
            layer_hint: hint_view(self.layer_hint),
            expert_index: hint_view(self.expert_index),
            group_key: self.group_key@,
            weight_kind: self.weight_kind@,
        }
    }
}

spec fn expert_views(records: Seq<ExpertRecord>) -> Seq<ExpertView> {
    Seq::new(records.len(), |i: int| records[i]@)
}

fn is_layer_marker(segment: &[char]) -> (r: bool)
    ensures
        r == layer_marker(segment@),
{
    text::spells(segment, "layers") || text::spells(segment, "layer") || text::spells(
        segment,
        "blocks",
    ) || text::spells(segment, "block") || text::spells(segment, "h")
}

fn is_expert_marker(segment: &[char]) -> (r: bool)
    ensures
        r == expert_marker(segment@),
{
    text::spells(segment, "experts") || text::spells(segment, "expert")
}

fn number_after_any_segment(parts: &TensorNameParts, layers: bool) -> (r: Option<usize>)
    requires
        parts.well_formed(),
    ensures
        hint_view(r) == number_behind(all_segments(parts.lower@), 0, layers),
{
    let ghost segments = all_segments(parts.lower@);
    let n: usize = parts.all_segments.len();
    assert(segments.len() == n);
    let mut i: usize = 0;
    while i < n && n - i > 1
        invariant
            i <= n,
            n == parts.all_segments@.len(),
            segments == text::piece_views(parts.all_segments@),
            segments == all_segments(parts.lower@),
            number_behind(segments, 0, layers) == number_behind(segments, i as int, layers),
        decreases n - i,
    {
        let segment = parts.all_segments[i].as_slice();
        let marked = if layers {
            is_layer_marker(segment)
        } else {
            is_expert_marker(segment)
        };
        if marked {
            match text::parse_usize(parts.all_segments[i + 1].as_slice()) {
                Some(number) => {
                    return Some(number);
                },
                None => {},
            }
        }
        i += 1;
    }
    None
}

fn expert_weight_kind(parts: &TensorNameParts) -> (r: &'static str)
    requires
        parts.well_formed(),
    ensures
        r@ == weight_kind(parts.lower@),
{
    if parts.has_path_segment("gate_proj") {
        "gate_proj"
    } else if parts.has_path_segment("up_proj") {
        "up_proj"
    } else if parts.has_path_segment("down_proj") {
        "down_proj"
    } else if parts.has_path_segment("ffn_up") {
        "ffn_up"
    } else if parts.has_path_segment("ffn_down") {
        "ffn_down"
    } else if parts.has_path_segment("linear_1") {
        "linear_1"
    } else if parts.has_path_segment("linear_2") {
        "linear_2"
    } else if parts.has_path_segment("linear_3") {
        "linear_3"
    } else if parts.has_path_segment("fc1") {
        "fc1"
    } else if parts.has_path_segment("fc2") {
        "fc2"
    } else if parts.has_path_segment("fc3") {
        "fc3"
    } else if parts.has_path_segment("w1") {
        "w1"
    } else if parts.has_path_segment("w2") {
        "w2"
    } else if parts.has_path_segment("w3") {
        "w3"
    } else {
        "unknown"
    }
}

fn prefix_string(parts: &TensorNameParts, position: usize, word: &str) -> (r: String)
    requires
        parts.well_formed(),
        position < parts.path_segments@.len(),
        position == first_position(path_segments(parts.lower@), word@),
    ensures
        r@ == prefix_before(path_segments(parts.lower@), word@),
{
    if position == 0 {
        return word.to_owned();
    }
    let ghost segments = path_segments(parts.lower@);
    let mut names: Vec<String> = Vec::new();
    let mut i: usize = 0;
    while i < position
        invariant
            i <= position < parts.path_segments@.len(),
            segments == text::piece_views(parts.path_segments@),
            text::views(names@) =~= segments.take(i as int),
        decreases position - i,
    {
        let ghost before = text::views(names@);
        names.push(text::string_of(parts.path_segments[i].as_slice()));
        assert(text::views(names@) =~= before.push(segments[i as int]));
        i += 1;
    }
    text::join(&names, ".")
}

fn expert_group_prefix(parts: &TensorNameParts) -> (r: Option<String>)
    requires
        parts.well_formed(),
    ensures
        match r {
            Some(s) => expert_group(parts.lower@) == Some(s@),
            None => expert_group(parts.lower@) is None,
        },
{
    if !has_moe_context(parts) {
        return None;
    }
    match parts.path_position("experts") {
        Some(i) => Some(prefix_string(parts, i, "experts")),
        None => match parts.path_position("expert") {
            Some(i) => Some(prefix_string(parts, i, "expert")),
            None => None,
        },
    }
}

/// Classify one tensor name/shape as expert, router, or possible router shape.
pub fn classify_tensor(name: &str, shape: &[usize]) -> (r: Vec<&'static str>)
    ensures
        text::slice_views(r@) == tensor_labels(name@, shape@),
{
    let parts = TensorNameParts::new(name);
    let mut labels: Vec<&'static str> = Vec::new();
    if expert_group_prefix(&parts).is_some() {
        labels.push("moe_expert_candidate");
    } else if router_candidate_score(&parts, shape).is_some() {
        labels.push("moe_router_candidate");
    } else if router_shape_hint(shape) {
        labels.push("possible_moe_router_shape");
    }
    assert(text::slice_views(labels@) =~= tensor_labels(name@, shape@));
    labels
}

fn insert_index(indices: &mut Vec<usize>, n: usize)
    requires
        forall|i: int, j: int|
            0 <= i < j < old(indices)@.len() ==> #[trigger] old(indices)@[i]
                < #[trigger] old(indices)@[j],
    ensures
        forall|i: int, j: int|
            0 <= i < j < final(indices)@.len() ==> #[trigger] final(indices)@[i]
                < #[trigger] final(indices)@[j],
        forall|m: usize| #[trigger]
            final(indices)@.contains(m) <==> old(indices)@.contains(m) || m == n,
{
    let ghost before = indices@;
    let mut p: usize = indices.len();
    while p > 0 && indices[p - 1] > n
        invariant
            p <= indices@.len(),
            indices@ == before,
            forall|j: int| p <= j < indices@.len() ==> n < #[trigger] indices@[j],
        decreases p,
    {
        p -= 1;
    }
    if p > 0 && indices[p - 1] == n {
        assert(before.contains(before[p - 1]));
        return;
    }
    indices.insert(p, n);
    proof {
        let after = indices@;
        assert(after == before.insert(p as int, n));
        assert forall|m: usize| #[trigger] after.contains(m) <==> before.contains(m) || m == n by {
            if before.contains(m) {
                let i = before.index_of(m);
                let i1 = if i < p {
                    i
                } else {
                    i + 1
                };
                assert(after[i1] == m);
            }
            if after.contains(m) {
                let i = after.index_of(m);
                if i != p {
                    let i0 = if i < p {
                        i
                    } else {
                        i - 1
                    };
                    assert(before[i0] == m);
                }
            }
            assert(after[p as int] == n);
        }
        assert forall|i: int, j: int| 0 <= i < j < after.len() implies #[trigger] after[i]
            < #[trigger] after[j] by {
            let i0 = if i < p {
                i
            } else {
                i - 1
            };
            let j0 = if j < p {
                j
            } else {
                j - 1
            };
            if i != p && j != p {
                assert(before[i0] < before[j0]);
            } else if j == p {
                assert(before[i0] <= before[p - 1]);
            }
        }
    }
}

fn insert_kind(kinds: &mut Vec<&'static str>, kind: &'static str)
    requires
        text::increasing(text::slice_views(old(kinds)@)),
    ensures
        text::increasing(text::slice_views(final(kinds)@)),
        forall|k: Seq<char>| #[trigger]
            text::slice_views(final(kinds)@).contains(k) <==> text::slice_views(
                old(kinds)@,
            ).contains(k) || k == kind@,
{
    let ghost before = text::slice_views(kinds@);
    proof {
        text::lemma_less_total_order();
    }
    let mut p: usize = kinds.len();
    while p > 0
        invariant
            p <= kinds@.len(),
            text::slice_views(kinds@) == before,
            before == text::slice_views(old(kinds)@),
            text::increasing(before),
            forall|j: int| p <= j < before.len() ==> text::less(kind@, #[trigger] before[j]),
            forall|a: Seq<char>, b: Seq<char>, c: Seq<char>| #[trigger]
                text::less(a, b) && #[trigger] text::less(b, c) ==> text::less(a, c),
        decreases p,
    {
        assert(before[p - 1] == kinds@[p - 1]@);
        match text::compare(kinds[p - 1], kind) {
            text::Order::Equal => {
                assert(before.contains(before[p - 1]));
                return;
            },
            text::Order::Less => {
                assert forall|j: int| 0 <= j < p implies text::less(#[trigger] before[j], kind@) by {
                    if j < p - 1 {
                        assert(text::less(before[j], before[p - 1]));
                    }
                }
                kinds.insert(p, kind);
                proof {
                    text::lemma_insert_increasing(before, p as int, kind@);
                    assert(text::slice_views(kinds@) =~= before.insert(p as int, kind@));
                }
                return;
            },
            text::Order::Greater => {
                p -= 1;
            },
        }
    }
    kinds.insert(0, kind);
    proof {
        text::lemma_insert_increasing(before, 0, kind@);
        assert(text::slice_views(kinds@) =~= before.insert(0, kind@));
    }
}

/// Sort texts, repetitions kept.
fn sort_texts(texts: Vec<String>) -> (r: Vec<String>)
    ensures
        text::views(r@) == sorted_texts(text::views(texts@)),
{
    let ghost all = text::views(texts@);
    let mut keys: Vec<SortKey> = Vec::new();
    let mut i: usize = 0;
    proof {
        reveal_strlit("");
    }
    while i < texts.len()
        invariant
            i <= texts@.len(),
            all == text::views(texts@),
            ""@ =~= Seq::<char>::empty(),
            sorting::key_views(keys@) =~= text_keys(all).take(i as int),
        decreases texts@.len() - i,
    {
        let ghost before = sorting::key_views(keys@);
        let key = SortKey { first: 0, second: 0, name: texts[i].clone(), shard: "".to_owned() };
        assert(key@ =~= text_keys(all)[i as int]);
        keys.push(key);
        assert(sorting::key_views(keys@) =~= before.push(key@));
        i += 1;
    }
    assert(sorting::key_views(keys@) =~= text_keys(all));
    let order = sorting::sort_positions(&keys);
    proof {
        sorting::law_stable_order_is_permutation(
            sorting::key_views(keys@),
            sorting::positions(order@),
        );
    }
    let r = sorting::arrange(texts, &order);
    assert(text::views(r@) =~= sorted_texts(all));
    r
}

proof fn lemma_group_members_found(experts: Seq<ExpertView>, key: Seq<char>)
    requires
        expert_keys(experts).contains(key),
    ensures
        group_members(experts, key).len() > 0,
    decreases experts.len(),
{
    let i = expert_keys(experts).index_of(key);
    if experts.last().group_key != key {
        let rest = experts.drop_last();
        assert(expert_keys(rest)[i] == key);
        lemma_group_members_found(rest, key);
    }
}

fn build_group(records: &Vec<ExpertRecord>, key: &String) -> (r: SafetensorsExpertGroup)
    requires
        expert_keys(expert_views(records@)).contains(key@),
    ensures
        describes_group(r@, expert_views(records@)),
        r.group_key@ == key@,
{
    let ghost experts = expert_views(records@);
    let mut hint: Option<usize> = None;
    let mut indices: Vec<usize> = Vec::new();
    let mut names: Vec<String> = Vec::new();
    let mut shards: StringMap<()> = StringMap::new();
    let mut kinds: Vec<&'static str> = Vec::new();
    let mut i: usize = 0;
    while i < records.len()
        invariant
            i <= records@.len(),
            experts == expert_views(records@),
            ({
                let members = group_members(experts.take(i as int), key@);
                &&& members.len() > 0 ==> hint_view(hint) == members[0].layer_hint
                &&& lists_indices(indices@, members)
                &&& text::views(names@) == expert_names(members)
                &&& forall|k: Seq<char>| #[trigger]
                    shards@.contains_key(k) <==> expert_shards(members).contains(k)
                &&& text::lists(text::slice_views(kinds@), expert_kinds(members))
            }),
        decreases records@.len() - i,
    {
        let ghost before = group_members(experts.take(i as int), key@);
        let ghost after = group_members(experts.take(i + 1), key@);
        assert(experts.take(i + 1).drop_last() =~= experts.take(i as int));
        assert(experts.take(i + 1).last() == records@[i as int]@);
        let record = &records[i];
        if text::equal(record.group_key.as_str(), key.as_str()) {
            let ghost names_before = text::views(names@);
            let ghost indices_before = indices@;
            assert(after == before.push(record@));
            if names.len() == 0 {
                assert(text::views(names@).len() == expert_names(before).len());
                hint = record.layer_hint;
            }
            assert(names@.len() == before.len()) by {
                assert(text::views(names@).len() == expert_names(before).len());
            }
            match record.expert_index {
                Some(n) => {
                    insert_index(&mut indices, n);
                },
                None => {},
            }
            names.push(record.name.clone());
            shards.insert(record.source_shard.clone(), ());
            insert_kind(&mut kinds, record.weight_kind);
            proof {
                lemma_indices_push(indices_before, indices@, before, record@);
                assert(text::views(names@) =~= names_before.push(record@.name));
                assert(expert_names(after) =~= expert_names(before).push(record@.name));
                lemma_push_contains(expert_shards(before), record@.source_shard);
                assert(expert_shards(after) =~= expert_shards(before).push(record@.source_shard));
                lemma_push_contains(expert_kinds(before), record@.weight_kind);
                assert(expert_kinds(after) =~= expert_kinds(before).push(record@.weight_kind));
                assert(after.len() > 0 && hint_view(hint) == after[0].layer_hint);
            }
        }
        i += 1;
    }
    assert(experts.take(i as int) =~= experts);
    proof {
        lemma_group_members_found(experts, key@);
    }
    let source_shards = shards.keys();
    SafetensorsExpertGroup {
        group_key: key.clone(),
        layer_hint: hint,
        expert_indices: indices,
        tensor_names: sort_texts(names),
        source_shards,
        weight_kinds: kinds,
    }
}

proof fn lemma_push_contains(s: Seq<Seq<char>>, t: Seq<char>)
    ensures
        forall|k: Seq<char>| #[trigger] s.push(t).contains(k) <==> s.contains(k) || k == t,
{
    assert forall|k: Seq<char>| #[trigger] s.push(t).contains(k) <==> s.contains(k) || k == t by {
        if s.contains(k) {
            assert(s.push(t)[s.index_of(k)] == k);
        }
        if s.push(t).contains(k) {
            let i = s.push(t).index_of(k);
            if i < s.len() {
                assert(s[i] == k);
            }
        }
        assert(s.push(t)[s.len() as int] == t);
    }
}

proof fn lemma_indices_push(
    before: Seq<usize>,
    after: Seq<usize>,
    members: Seq<ExpertView>,
    e: ExpertView,
)
    requires
        lists_indices(before, members),
        forall|i: int, j: int|
            0 <= i < j < after.len() ==> #[trigger] after[i] < #[trigger] after[j],
        forall|n: usize| #[trigger]
            after.contains(n) <==> before.contains(n) || e.expert_index == Some(n as nat),
    ensures
        lists_indices(after, members.push(e)),
{
    let all = members.push(e);
    assert forall|n: usize| #[trigger] after.contains(n) <==> exists|i: int|
        0 <= i < all.len() && (#[trigger] all[i]).expert_index == Some(n as nat) by {
        if before.contains(n) {
            let i = choose|i: int|
                0 <= i < members.len() && (#[trigger] members[i]).expert_index == Some(n as nat);
            assert(all[i].expert_index == Some(n as nat));
        }
        if e.expert_index == Some(n as nat) {
            assert(all[members.len() as int].expert_index == Some(n as nat));
        }
        if exists|i: int| 0 <= i < all.len() && (#[trigger] all[i]).expert_index == Some(n as nat) {
            let i = choose|i: int|
                0 <= i < all.len() && (#[trigger] all[i]).expert_index == Some(n as nat);
            if i < members.len() {
                assert(members[i].expert_index == Some(n as nat));
            }
        }
    }
}

fn discover_expert_groups(records: &Vec<ExpertRecord>) -> (r: Vec<SafetensorsExpertGroup>)
    ensures
        describes_groups(group_views(r@), expert_views(records@)),
{
    let ghost experts = expert_views(records@);
    let mut set: StringMap<()> = StringMap::new();
    let mut i: usize = 0;
    while i < records.len()
        invariant
            i <= records@.len(),
            experts == expert_views(records@),
            forall|k: Seq<char>| #[trigger]
                set@.contains_key(k) <==> expert_keys(experts.take(i as int)).contains(k),
        decreases records@.len() - i,
    {
        proof {
            lemma_push_contains(expert_keys(experts.take(i as int)), records@[i as int]@.group_key);
            assert(expert_keys(experts.take(i + 1)) =~= expert_keys(experts.take(i as int)).push(
                records@[i as int]@.group_key,
            ));
        }
        set.insert(records[i].group_key.clone(), ());
        i += 1;
    }
    assert(experts.take(i as int) =~= experts);
    let keys = set.keys();
    let ghost all_keys = text::views(keys@);
    let mut groups: Vec<SafetensorsExpertGroup> = Vec::new();
    let mut j: usize = 0;
    while j < keys.len()
        invariant
            j <= keys@.len(),
            all_keys == text::views(keys@),
            experts == expert_views(records@),
            forall|k: Seq<char>| #[trigger]
                all_keys.contains(k) <==> expert_keys(experts).contains(k),
            groups@.len() == j,
            forall|k: int|
                0 <= k < j ==> describes_group((#[trigger] groups@[k])@, experts)
                    && groups@[k].group_key@ == all_keys[k],
        decreases keys@.len() - j,
    {
        assert(all_keys[j as int] == keys@[j as int]@);
        assert(all_keys.contains(all_keys[j as int]));
        groups.push(build_group(records, &keys[j]));
        j += 1;
    }
    proof {
        let views = group_views(groups@);
        assert(group_keys(views) =~= all_keys);
        assert forall|k: int| 0 <= k < views.len() implies describes_group(
            #[trigger] views[k],
            experts,
        ) by {
            assert(views[k] == groups@[k]@);
        }
    }
    groups
}

// ---------------------------------------------------------------------------
// Routers
// ---------------------------------------------------------------------------
/// What a router candidate says.
#[verifier::ext_equal]
pub struct RouterView {
    pub name: Seq<char>,
    pub layer_hint: Option<usize>,
    pub source_shard: Seq<char>,
    pub shape: Seq<usize>,
    pub score: u32,
    pub reasons: Seq<Seq<char>>,
}

impl View for SafetensorsRouterCandidate {
    type V = RouterView;

    open spec fn view(&self) -> RouterView {
        RouterView {
            name: self.name@,
            layer_hint: self.layer_hint,
            source_shard: self.source_shard@,
            shape: self.shape@,
            score: self.score,
            reasons: text::slice_views(self.reasons@),
        }
    }
}

/// The tensor is a router candidate: no expert, and with enough points.
pub open spec fn is_router(t: RecordView) -> bool {
    !is_expert(t) && router_score(text::lowered(t.name), t.shape) is Some
}

/// The router candidate that a tensor is.
pub open spec fn router_of(t: RecordView) -> RouterView {
    let lower = text::lowered(t.name);
    let (score, reasons) = router_score(lower, t.shape)->Some_0;
    RouterView {
        name: t.name,
        layer_hint: stored(layer_hint(lower)),
        source_shard: t.source_shard,
        shape: t.shape,
        score: score as u32,
        reasons,
    }
}

/// The router candidates, in order.
pub open spec fn routers_of(tensors: Seq<RecordView>) -> Seq<RouterView>
    decreases tensors.len(),
{
    if tensors.len() == 0 {
        Seq::empty()
    } else if is_router(tensors.last()) {
        routers_of(tensors.drop_last()).push(router_of(tensors.last()))
    } else {
        routers_of(tensors.drop_last())
    }
}

/// What router candidates are sorted by: greatest score first, then name, then shard.
pub open spec fn router_keys(routers: Seq<RouterView>) -> Seq<KeyView> {
    Seq::new(
        routers.len(),
        |i: int|
            KeyView {
                first: (u32::MAX - routers[i].score) as u64,
                second: 0,
                name: routers[i].name,
                shard: routers[i].source_shard,
            },
    )
}

/// The router candidates, best first.
pub open spec fn sorted_routers(routers: Seq<RouterView>) -> Seq<RouterView> {
    sorting::arranged(routers, sorting::stable_order(router_keys(routers)))
}

/// The views of the router candidates, in order.
pub open spec fn router_views(routers: Seq<SafetensorsRouterCandidate>) -> Seq<RouterView> {
    Seq::new(routers.len(), |i: int| routers[i]@)
}

/// The names of router candidates, in order.
pub open spec fn router_names(routers: Seq<RouterView>) -> Seq<Seq<char>> {
    Seq::new(routers.len(), |i: int| routers[i].name)
}

fn sort_routers(routers: Vec<SafetensorsRouterCandidate>) -> (r: Vec<SafetensorsRouterCandidate>)
    ensures
        router_views(r@) == sorted_routers(router_views(routers@)),
{
    let ghost all = router_views(routers@);
    let mut keys: Vec<SortKey> = Vec::new();
    let mut i: usize = 0;
    while i < routers.len()
        invariant
            i <= routers@.len(),
            all == router_views(routers@),
            sorting::key_views(keys@) =~= router_keys(all).take(i as int),
        decreases routers@.len() - i,
    {
        let ghost before = sorting::key_views(keys@);
        let key = SortKey {
            first: (u32::MAX - routers[i].score) as u64,
            second: 0,
            name: routers[i].name.clone(),
            shard: routers[i].source_shard.clone(),
        };
        assert(key@ =~= router_keys(all)[i as int]);
        keys.push(key);
        assert(sorting::key_views(keys@) =~= before.push(key@));
        i += 1;
    }
    assert(sorting::key_views(keys@) =~= router_keys(all));
    let order = sorting::sort_positions(&keys);
    proof {
        sorting::law_stable_order_is_permutation(
            sorting::key_views(keys@),
            sorting::positions(order@),
        );
    }
    let r = sorting::arrange(routers, &order);
    assert(router_views(r@) =~= sorted_routers(all));
    r
}

// ---------------------------------------------------------------------------
// Layout family
// ---------------------------------------------------------------------------
/// One of the two words stands in the tensor's name.
pub open spec fn mentions_either(t: RecordView, a: Seq<char>, b: Seq<char>) -> bool {
    text::contains_text(text::lowered(t.name), a) || text::contains_text(text::lowered(t.name), b)
}

/// Some tensor's name holds one of the two words.
pub open spec fn some_mention(tensors: Seq<RecordView>, a: Seq<char>, b: Seq<char>) -> bool {
    exists|i: int| 0 <= i < tensors.len() && mentions_either(#[trigger] tensors[i], a, b)
}

/// Some tensor is a router candidate.
pub open spec fn some_router(tensors: Seq<RecordView>) -> bool {
    exists|i: int| 0 <= i < tensors.len() && is_router(#[trigger] tensors[i])
}

/// Some tensor is an expert candidate.
pub open spec fn some_expert(tensors: Seq<RecordView>) -> bool {
    exists|i: int| 0 <= i < tensors.len() && is_expert(#[trigger] tensors[i])
}

/// The layout family: named only where there are both routers and experts.
pub open spec fn layout_family(tensors: Seq<RecordView>) -> Option<Seq<char>> {
    if !(some_router(tensors) && some_expert(tensors)) {
        None
    } else if some_mention(tensors, "phimoe"@, "phi_moe"@) {
        Some("phimoe"@)
    } else if some_mention(tensors, "granitemoe"@, "granite_moe"@) {
        Some("granitemoe"@)
    } else if some_mention(tensors, "afmoe"@, "af_moe"@) {
        Some("afmoe"@)
    } else if some_mention(tensors, "lfm2_moe"@, "lfm2moe"@) {
        Some("lfm2_moe"@)
    } else if some_mention(tensors, "moonlight"@, "block_sparse_moe"@) {
        Some("deepseek_v3_family"@)
    } else {
        Some("generic_moe"@)
    }
}

proof fn lemma_mention_step(tensors: Seq<RecordView>, i: int, a: Seq<char>, b: Seq<char>)
    requires
        0 <= i < tensors.len(),
    ensures
        some_mention(tensors.take(i + 1), a, b) == (some_mention(tensors.take(i), a, b)
            || mentions_either(tensors[i], a, b)),
{
    let after = tensors.take(i + 1);
    let before = tensors.take(i);
    if some_mention(before, a, b) {
        let k = choose|k: int| 0 <= k < before.len() && mentions_either(#[trigger] before[k], a, b);
        assert(mentions_either(after[k], a, b));
    }
    if mentions_either(tensors[i], a, b) {
        assert(mentions_either(after[i], a, b));
    }
    if some_mention(after, a, b) {
        let k = choose|k: int| 0 <= k < after.len() && mentions_either(#[trigger] after[k], a, b);
        if k < i {
            assert(mentions_either(before[k], a, b));
        }
    }
}

proof fn lemma_evidence_step(tensors: Seq<RecordView>, i: int)
    requires
        0 <= i < tensors.len(),
    ensures
        some_router(tensors.take(i + 1)) == (some_router(tensors.take(i)) || is_router(tensors[i])),
        some_expert(tensors.take(i + 1)) == (some_expert(tensors.take(i)) || is_expert(tensors[i])),
{
    let after = tensors.take(i + 1);
    let before = tensors.take(i);
    if some_router(before) {
        let k = choose|k: int| 0 <= k < before.len() && is_router(#[trigger] before[k]);
        assert(is_router(after[k]));
    }
    if some_expert(before) {
        let k = choose|k: int| 0 <= k < before.len() && is_expert(#[trigger] before[k]);
        assert(is_expert(after[k]));
    }
    assert(after[i] == tensors[i]);
    if some_router(after) {
        let k = choose|k: int| 0 <= k < after.len() && is_router(#[trigger] after[k]);
        if k < i {
            assert(is_router(before[k]));
        }
    }
    if some_expert(after) {
        let k = choose|k: int| 0 <= k < after.len() && is_expert(#[trigger] after[k]);
        if k < i {
            assert(is_expert(before[k]));
        }
    }
}

struct LayoutFamilyEvidence {
    seen_phimoe: bool,
    seen_granitemoe: bool,
    seen_afmoe: bool,
    seen_lfm2_moe: bool,
    seen_deepseek_v3_family: bool,
    has_router: bool,
    has_expert: bool,
}

impl LayoutFamilyEvidence {
    spec fn summarizes(self, tensors: Seq<RecordView>) -> bool {
        &&& self.seen_phimoe == some_mention(tensors, "phimoe"@, "phi_moe"@)
        &&& self.seen_granitemoe == some_mention(tensors, "granitemoe"@, "granite_moe"@)
        &&& self.seen_afmoe == some_mention(tensors, "afmoe"@, "af_moe"@)
        &&& self.seen_lfm2_moe == some_mention(tensors, "lfm2_moe"@, "lfm2moe"@)
        &&& self.seen_deepseek_v3_family == some_mention(
            tensors,
            "moonlight"@,
            "block_sparse_moe"@,
        )
        &&& self.has_router == some_router(tensors)
        &&& self.has_expert == some_expert(tensors)
    }

    fn observe(
        &mut self,
        parts: &TensorNameParts,
        router: bool,
        expert: bool,
        Ghost(tensors): Ghost<Seq<RecordView>>,
        Ghost(i): Ghost<int>,
    )
        requires
            0 <= i < tensors.len(),
            old(self).summarizes(tensors.take(i)),
            parts.lower@ == text::lowered(tensors[i].name),
            router == is_router(tensors[i]),
            expert == is_expert(tensors[i]),
        ensures
            final(self).summarizes(tensors.take(i + 1)),
    {
        self.seen_phimoe = self.seen_phimoe || parts.contains("phimoe") || parts.contains(
            "phi_moe",
        );
        self.seen_granitemoe = self.seen_granitemoe || parts.contains("granitemoe")
            || parts.contains("granite_moe");
        self.seen_afmoe = self.seen_afmoe || parts.contains("afmoe") || parts.contains("af_moe");
        self.seen_lfm2_moe = self.seen_lfm2_moe || parts.contains("lfm2_moe") || parts.contains(
            "lfm2moe",
        );
        self.seen_deepseek_v3_family = self.seen_deepseek_v3_family || parts.contains("moonlight")
            || parts.contains("block_sparse_moe");
        self.has_router = self.has_router || router;
        self.has_expert = self.has_expert || expert;
        proof {
            lemma_mention_step(tensors, i, "phimoe"@, "phi_moe"@);
            lemma_mention_step(tensors, i, "granitemoe"@, "granite_moe"@);
            lemma_mention_step(tensors, i, "afmoe"@, "af_moe"@);
            lemma_mention_step(tensors, i, "lfm2_moe"@, "lfm2moe"@);
            lemma_mention_step(tensors, i, "moonlight"@, "block_sparse_moe"@);
            lemma_evidence_step(tensors, i);
        }
    }

    fn detected_layout_family(&self, Ghost(tensors): Ghost<Seq<RecordView>>) -> (r: Option<
        &'static str,
    >)
        requires
            self.summarizes(tensors),
        ensures
            family_view(r) == layout_family(tensors),
    {
        if !(self.has_router && self.has_expert) {
            return None;
        }
        if self.seen_phimoe {
            return Some("phimoe");
        }
        if self.seen_granitemoe {
            return Some("granitemoe");
        }
        if self.seen_afmoe {
            return Some("afmoe");
        }
        if self.seen_lfm2_moe {
            return Some("lfm2_moe");
        }
        if self.seen_deepseek_v3_family {
            return Some("deepseek_v3_family");
        }
        Some("generic_moe")
    }
}

// ---------------------------------------------------------------------------
// Discovery
// ---------------------------------------------------------------------------
/// A family name as a character sequence.
pub open spec fn family_view(family: Option<&'static str>) -> Option<Seq<char>> {
    match family {
        Some(name) => Some(name@),
        None => None,
    }
}

/// What a candidate summary says.
#[verifier::ext_equal]
pub struct SummaryView {
    pub family: Option<Seq<char>>,
    pub router_tensors: Seq<Seq<char>>,
    pub expert_tensors: Seq<Seq<char>>,
    pub router_candidates: Seq<RouterView>,
    pub expert_groups: Seq<GroupView>,
}

impl View for SafetensorsCandidateSummary {
    type V = SummaryView;

    open spec fn view(&self) -> SummaryView {
        SummaryView {
            family: family_view(self.detected_layout_family),
            router_tensors: text::views(self.router_tensors@),
            expert_tensors: text::views(self.expert_tensors@),
            router_candidates: router_views(self.router_candidates@),
            expert_groups: group_views(self.expert_groups@),
        }
    }
}

/// The summary is the one of the tensors.
pub open spec fn summarizes(summary: SummaryView, tensors: Seq<RecordView>) -> bool {
    &&& summary.family == layout_family(tensors)
    &&& summary.router_candidates == sorted_routers(routers_of(tensors))
    &&& summary.router_tensors == router_names(summary.router_candidates)
    &&& summary.expert_tensors == expert_names(experts_of(tensors))
    &&& describes_groups(summary.expert_groups, experts_of(tensors))
}

fn copy_sizes(sizes: &Vec<usize>) -> (r: Vec<usize>)
    ensures
        r@ == sizes@,
{
    let mut r: Vec<usize> = Vec::new();
    r.extend_from_slice(sizes.as_slice());
    assert(r@ =~= sizes@);
    r
}

/// Discover MoE router/expert candidates from header metadata only.
pub fn discover_candidates(tensors: &[SafetensorsTensorRecord]) -> (r: SafetensorsCandidateSummary)
    ensures
        summarizes(r@, record::record_views(tensors@)),
{
    let ghost all = record::record_views(tensors@);
    let mut routers: Vec<SafetensorsRouterCandidate> = Vec::new();
    let mut experts: Vec<ExpertRecord> = Vec::new();
    let mut evidence = LayoutFamilyEvidence {
        seen_phimoe: false,
        seen_granitemoe: false,
        seen_afmoe: false,
        seen_lfm2_moe: false,
        seen_deepseek_v3_family: false,
        has_router: false,
        has_expert: false,
    };
    let mut i: usize = 0;
    assert(router_views(routers@) =~= routers_of(all.take(0)));
    assert(expert_views(experts@) =~= experts_of(all.take(0)));
    while i < tensors.len()
        invariant
            i <= tensors@.len(),
            all == record::record_views(tensors@),
            router_views(routers@) == routers_of(all.take(i as int)),
            expert_views(experts@) == experts_of(all.take(i as int)),
            evidence.summarizes(all.take(i as int)),
        decreases tensors@.len() - i,
    {
        let tensor = &tensors[i];
        let ghost t = all[i as int];
        assert(t == tensor@);
        assert(all.take(i + 1).drop_last() =~= all.take(i as int));
        assert(all.take(i + 1).last() == t);
        let parts = TensorNameParts::new(tensor.name.as_str());
        let group = expert_group_prefix(&parts);
        let ghost routers_before = router_views(routers@);
        let ghost experts_before = expert_views(experts@);
        match group {
            Some(group_key) => {
                let e = ExpertRecord {
                    name: tensor.name.clone(),
                    source_shard: tensor.source_shard.clone(),
                    layer_hint: number_after_any_segment(&parts, true),
                    expert_index: number_after_any_segment(&parts, false),
                    group_key,
                    weight_kind: expert_weight_kind(&parts),
                };
                evidence.observe(&parts, false, true, Ghost(all), Ghost(i as int));
                assert(e@ =~= expert_of(t));
                experts.push(e);
                assert(expert_views(experts@) =~= experts_before.push(e@));
            },
            None => {
                let scoring = router_candidate_score(&parts, tensor.shape.as_slice());
                evidence.observe(
                    &parts,
                    scoring.is_some(),
                    false,
                    Ghost(all),
                    Ghost(i as int),
                );
                match scoring {
                    Some((score, reasons)) => {
                        let candidate = SafetensorsRouterCandidate {
                            name: tensor.name.clone(),
                            layer_hint: number_after_any_segment(&parts, true),
                            source_shard: tensor.source_shard.clone(),
                            shape: copy_sizes(&tensor.shape),
                            score,
                            reasons,
                        };
                        assert(candidate@ =~= router_of(t));
                        routers.push(candidate);
                        assert(router_views(routers@) =~= routers_before.push(candidate@));
                    },
                    None => {},
                }
            },
        }
        i += 1;
    }
    assert(all.take(i as int) =~= all);
    let router_candidates = sort_routers(routers);
    let mut router_tensors: Vec<String> = Vec::new();
    let mut j: usize = 0;
    while j < router_candidates.len()
        invariant
            j <= router_candidates@.len(),
            router_tensors@.len() == j,
            forall|k: int|
                0 <= k < j ==> (#[trigger] router_tensors@[k])@ == router_candidates@[k].name@,
        decreases router_candidates@.len() - j,
    {
        router_tensors.push(router_candidates[j].name.clone());
        j += 1;
    }
    assert(text::views(router_tensors@) =~= router_names(router_views(router_candidates@)));
    let expert_groups = discover_expert_groups(&experts);
    let mut expert_tensors: Vec<String> = Vec::new();
    let mut k: usize = 0;
    while k < experts.len()
        invariant
            k <= experts@.len(),
            expert_tensors@.len() == k,
            forall|n: int|
                0 <= n < k ==> (#[trigger] expert_tensors@[n])@ == expert_views(experts@)[n].name,
        decreases experts@.len() - k,
    {
        expert_tensors.push(experts[k].name.clone());
        k += 1;
    }
    assert(text::views(expert_tensors@) =~= expert_names(expert_views(experts@)));
    SafetensorsCandidateSummary {
        detected_layout_family: evidence.detected_layout_family(Ghost(all)),
        router_tensors,
        expert_tensors,
        router_candidates,
        expert_groups,
    }
}

} // verus!
