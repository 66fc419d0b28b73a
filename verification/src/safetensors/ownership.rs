//! Which shards claim which tensors.

use crate::error::{ErrorView, ParserError};
use crate::sorting;
use crate::sorting::{KeyView, SortKey};
use crate::text;
use vstd::prelude::*;

verus! {

/// A shard claims a tensor.
pub struct Claim {
    pub name: String,
    pub shard: String,
}

/// What a [`Claim`] says.
#[verifier::ext_equal]
pub struct ClaimView {
    pub name: Seq<char>,
    pub shard: Seq<char>,
}

impl View for Claim {
    type V = ClaimView;

    open spec fn view(&self) -> ClaimView {
        ClaimView { name: self.name@, shard: self.shard@ }
    }
}

/// What the claims say, in order.
pub open spec fn claim_views(claims: Seq<Claim>) -> Seq<ClaimView> {
    Seq::new(claims.len(), |i: int| claims[i]@)
}

/// What claims are sorted by.
pub open spec fn claim_key(c: ClaimView) -> KeyView {
    KeyView { first: 0, second: 0, name: c.name, shard: c.shard }
}

/// The claims are in the order of their names, those of one name in that of their shards.
pub open spec fn in_order(claims: Seq<ClaimView>) -> bool {
    forall|i: int, j: int|
        0 <= i < j < claims.len() ==> #[trigger] claims[i] == #[trigger] claims[j]
            || sorting::key_less(claim_key(claims[i]), claim_key(claims[j]))
}

/// The shards that claim the tensor, in the order of the claims.
pub open spec fn holders(claims: Seq<ClaimView>, name: Seq<char>) -> Seq<Seq<char>>
    decreases claims.len(),
{
    if claims.len() == 0 {
        Seq::empty()
    } else if claims.last().name == name {
        holders(claims.drop_last(), name).push(claims.last().shard)
    } else {
        holders(claims.drop_last(), name)
    }
}

/// The shard claims the tensor.
pub open spec fn holds(claims: Seq<ClaimView>, name: Seq<char>, shard: Seq<char>) -> bool {
    claims.contains(ClaimView { name, shard })
}

/// A shard is among the holders of a tensor exactly if it claims the tensor.
pub proof fn lemma_holders(claims: Seq<ClaimView>, name: Seq<char>)
    ensures
        forall|shard: Seq<char>| #[trigger]
            holders(claims, name).contains(shard) <==> holds(claims, name, shard),
    decreases claims.len(),
{
    if claims.len() > 0 {
        let rest = claims.drop_last();
        lemma_holders(rest, name);
        assert forall|shard: Seq<char>| #[trigger]
            holders(claims, name).contains(shard) <==> holds(claims, name, shard) by {
            let c = ClaimView { name, shard };
            assert(holders(rest, name).contains(shard) <==> rest.contains(c));
            if claims.contains(c) {
                let i = claims.index_of(c);
                if i < rest.len() {
                    assert(rest[i] == c);
                    let k = holders(rest, name).index_of(shard);
                    assert(holders(claims, name)[k] == shard);
                } else {
                    assert(holders(claims, name).last() == shard);
                }
            }
            if holders(claims, name).contains(shard) {
                let k = holders(claims, name).index_of(shard);
                if k < holders(rest, name).len() {
                    assert(holders(rest, name)[k] == shard);
                    let i = rest.index_of(c);
                    assert(claims[i] == c);
                } else {
                    assert(claims.last() == c);
                }
            }
        }
    }
}

/// More than one shard claims the tensor.
pub open spec fn contested(claims: Seq<ClaimView>, name: Seq<char>) -> bool {
    exists|a: Seq<char>, b: Seq<char>|
        a != b && #[trigger] holds(claims, name, a) && #[trigger] holds(claims, name, b)
}

/// Sort the claims.
pub fn sort_claims(claims: Vec<Claim>) -> (r: Vec<Claim>)
    ensures
        in_order(claim_views(r@)),
        r@.len() == claims@.len(),
        forall|c: ClaimView|
            #![trigger claim_views(r@).contains(c)]
            #![trigger claim_views(claims@).contains(c)]
            claim_views(r@).contains(c) <==> claim_views(claims@).contains(c),
{
    let ghost all = claim_views(claims@);
    let ghost wanted = Seq::new(all.len(), |i: int| claim_key(all[i]));
    let mut keys: Vec<SortKey> = Vec::new();
    let mut i: usize = 0;
    while i < claims.len()
        invariant
            i <= claims@.len(),
            all == claim_views(claims@),
            wanted == Seq::new(all.len(), |i: int| claim_key(all[i])),
            sorting::key_views(keys@) =~= wanted.take(i as int),
        decreases claims@.len() - i,
    {
        let ghost before = sorting::key_views(keys@);
        let key = SortKey {
            first: 0,
            second: 0,
            name: claims[i].name.clone(),
            shard: claims[i].shard.clone(),
        };
        assert(key@ == wanted[i as int]);
        keys.push(key);
        assert(sorting::key_views(keys@) =~= before.push(key@));
        i += 1;
    }
    assert(sorting::key_views(keys@) =~= wanted);
    let order = sorting::sort_positions(&keys);
    let ghost positions = sorting::positions(order@);
    proof {
        sorting::law_stable_order_is_permutation(wanted, positions);
    }
    let r = sorting::arrange(claims, &order);
    proof {
        let sorted = claim_views(r@);
        assert(forall|k: int| 0 <= k < r@.len() ==> #[trigger] sorted[k] == all[positions[k]]);
        assert forall|i: int, j: int| 0 <= i < j < sorted.len() implies #[trigger] sorted[i]
            == #[trigger] sorted[j] || sorting::key_less(
            claim_key(sorted[i]),
            claim_key(sorted[j]),
        ) by {
            assert(sorting::before(wanted, positions[i], positions[j]));
            assert(wanted[positions[i]] == claim_key(sorted[i]));
            assert(wanted[positions[j]] == claim_key(sorted[j]));
        }
        assert forall|c: ClaimView|
            #![trigger sorted.contains(c)]
            #![trigger all.contains(c)]
            sorted.contains(c) <==> all.contains(c) by {
            if sorted.contains(c) {
                let k = sorted.index_of(c);
                assert(0 <= positions[k] < all.len());
                assert(all[positions[k]] == c);
            }
            if all.contains(c) {
                let p = all.index_of(c);
                assert(positions.contains(p));
                let k = positions.index_of(p);
                assert(sorted[k] == c);
            }
        }
    }
    r
}

fn run_start(claims: &Vec<Claim>, name: &str) -> (r: usize)
    requires
        in_order(claim_views(claims@)),
    ensures
        r <= claims@.len(),
        forall|i: int| 0 <= i < r ==> text::less(#[trigger] claims@[i].name@, name@),
        forall|i: int| r <= i < claims@.len() ==> !text::less(#[trigger] claims@[i].name@, name@),
{
    let ghost all = claim_views(claims@);
    let mut low: usize = 0;
    let mut high: usize = claims.len();
    while low < high
        invariant
            low <= high <= claims@.len(),
            all == claim_views(claims@),
            in_order(all),
            forall|i: int| 0 <= i < low ==> text::less(#[trigger] claims@[i].name@, name@),
            forall|i: int|
                high <= i < claims@.len() ==> !text::less(#[trigger] claims@[i].name@, name@),
        decreases high - low,
    {
        let mid: usize = low + (high - low) / 2;
        proof {
            text::lemma_less_total_order();
            assert forall|i: int, j: int| 0 <= i < j < claims@.len() implies !text::less(
                #[trigger] claims@[j].name@,
                #[trigger] claims@[i].name@,
            ) by {
                assert(all[i] == all[j] || sorting::key_less(claim_key(all[i]), claim_key(all[j])));
            }
        }
        match text::compare(claims[mid].name.as_str(), name) {
            text::Order::Less => {
                assert forall|i: int| 0 <= i < mid + 1 implies text::less(
                    #[trigger] claims@[i].name@,
                    name@,
                ) by {
                    if i < mid {
                        assert(!text::less(claims@[mid as int].name@, claims@[i].name@));
                    }
                }
                low = mid + 1;
            },
            _ => {
                assert forall|i: int| mid <= i < claims@.len() implies !text::less(
                    #[trigger] claims@[i].name@,
                    name@,
                ) by {
                    if i > mid {
                        assert(!text::less(claims@[i].name@, claims@[mid as int].name@));
                    }
                }
                high = mid;
            },
        }
    }
    low
}

/// The shards that claim the tensor, in increasing order; the claims are in order.
pub fn claiming_shards(claims: &Vec<Claim>, name: &str) -> (r: Vec<String>)
    requires
        in_order(claim_views(claims@)),
    ensures
        text::increasing(text::views(r@)),
        forall|shard: Seq<char>| #[trigger]
            text::views(r@).contains(shard) <==> holds(claim_views(claims@), name@, shard),
{
    let ghost all = claim_views(claims@);
    let start: usize = run_start(claims, name);
    let mut i: usize = start;
    let mut r: Vec<String> = Vec::new();
    proof {
        text::lemma_less_total_order();
    }
    while i < claims.len() && text::equal(claims[i].name.as_str(), name)
        invariant
            start <= i <= claims@.len(),
            all == claim_views(claims@),
            in_order(all),
            forall|k: int| start <= k < i ==> #[trigger] claims@[k].name@ == name@,
            text::increasing(text::views(r@)),
            r@.len() == 0 <==> i == start,
            r@.len() > 0 ==> r@.last()@ == claims@[i - 1].shard@,
            forall|shard: Seq<char>| #[trigger]
                text::views(r@).contains(shard) <==> exists|k: int|
                    start <= k < i && (#[trigger] claims@[k]).shard@ == shard,
        decreases claims@.len() - i,
    {
        let shard = claims[i].shard.as_str();
        let fresh = if r.len() == 0 {
            true
        } else {
            !text::equal(r[r.len() - 1].as_str(), shard)
        };
        let ghost before = text::views(r@);
        proof {
            text::lemma_less_total_order();
            if before.len() > 0 {
                assert(before.last() == r@.last()@);
                assert(all[i - 1] == claims@[i - 1]@ && all[i as int] == claims@[i as int]@);
                assert(all[i - 1] == all[i as int] || sorting::key_less(
                    claim_key(all[i - 1]),
                    claim_key(all[i as int]),
                ));
            }
        }
        if fresh {
            r.push(shard.to_owned());
            let ghost after = text::views(r@);
            assert(after =~= before.push(shard@));
            proof {
                assert forall|a: int, b: int| 0 <= a < b < after.len() implies text::less(
                    #[trigger] after[a],
                    #[trigger] after[b],
                ) by {
                    if b == before.len() {
                        assert(text::less(before.last(), shard@));
                        if a < before.len() - 1 {
                            assert(text::less(before[a], before[before.len() - 1]));
                        }
                    } else {
                        assert(text::less(before[a], before[b]));
                    }
                }
            }
        }
        let ghost after = text::views(r@);
        assert forall|s: Seq<char>| #[trigger] after.contains(s) <==> exists|k: int|
            start <= k < i + 1 && (#[trigger] claims@[k]).shard@ == s by {
            if after.contains(s) {
                let p = after.index_of(s);
                if p < before.len() {
                    assert(before[p] == s);
                    assert(before.contains(s));
                    let k = choose|k: int| start <= k < i && (#[trigger] claims@[k]).shard@ == s;
                    assert(claims@[k].shard@ == s);
                } else {
                    assert(claims@[i as int].shard@ == s);
                }
            }
            if exists|k: int| start <= k < i + 1 && (#[trigger] claims@[k]).shard@ == s {
                let k = choose|k: int| start <= k < i + 1 && (#[trigger] claims@[k]).shard@ == s;
                if k < i {
                    assert(before.contains(s));
                    let p = before.index_of(s);
                    assert(after[p] == s);
                } else if fresh {
                    assert(after[before.len() as int] == s);
                } else {
                    assert(after[before.len() - 1] == s);
                }
            }
        }
        i += 1;
    }
    proof {
        text::lemma_less_total_order();
        let listed = text::views(r@);
        assert forall|shard: Seq<char>| #[trigger] listed.contains(shard) <==> holds(
            all,
            name@,
            shard,
        ) by {
            let c = ClaimView { name: name@, shard };
            if listed.contains(shard) {
                let k = choose|k: int| start <= k < i && (#[trigger] claims@[k]).shard@ == shard;
                assert(all[k] == c);
            }
            if all.contains(c) {
                let k = all.index_of(c);
                assert(claims@[k]@ == c);
                if k < start {
                    assert(text::less(claims@[k].name@, name@));
                } else if k >= i {
                    assert(all[i as int] == claims@[i as int]@);
                    if k > i {
                        assert(all[i as int] == all[k] || sorting::key_less(
                            claim_key(all[i as int]),
                            claim_key(all[k]),
                        ));
                    }
                    assert(!text::less(claims@[i as int].name@, name@));
                    assert(false);
                }
                assert(claims@[k].shard@ == shard);
            }
        }
    }
    r
}

// ---------------------------------------------------------------------------
// Refusals
// ---------------------------------------------------------------------------
/// The error of a tensor that several shards claim.
pub open spec fn duplicate_error(name: Seq<char>, shards: Seq<Seq<char>>, path: Seq<char>) -> ErrorView {
    ErrorView::DuplicateTensorOwnership { name, shards, path }
}

/// The first contested name in order is refused, with all the shards that claim it.
pub open spec fn refuses_contested(e: ErrorView, claims: Seq<ClaimView>, path: Seq<char>) -> bool {
    exists|name: Seq<char>, shards: Seq<Seq<char>>|
        {
            &&& #[trigger] contested(claims, name)
            &&& forall|other: Seq<char>|
                text::less(other, name) ==> !#[trigger] contested(claims, other)
            &&& text::lists(shards, holders(claims, name))
            &&& e == #[trigger] duplicate_error(name, shards, path)
        }
}

proof fn lemma_same_claims(a: Seq<ClaimView>, b: Seq<ClaimView>)
    requires
        forall|c: ClaimView|
            #![trigger a.contains(c)]
            #![trigger b.contains(c)]
            a.contains(c) <==> b.contains(c),
    ensures
        forall|name: Seq<char>, shard: Seq<char>|
            #![trigger holds(a, name, shard)]
            #![trigger holds(b, name, shard)]
            holds(a, name, shard) == holds(b, name, shard),
        forall|name: Seq<char>|
            #![trigger contested(a, name)]
            #![trigger contested(b, name)]
            contested(a, name) == contested(b, name),
{
    assert forall|name: Seq<char>, shard: Seq<char>|
        #![trigger holds(a, name, shard)]
        #![trigger holds(b, name, shard)]
        holds(a, name, shard) == holds(b, name, shard) by {
        assert(a.contains(ClaimView { name, shard }) == b.contains(ClaimView { name, shard }));
    }
    assert forall|name: Seq<char>|
        #![trigger contested(a, name)]
        #![trigger contested(b, name)]
        contested(a, name) == contested(b, name) by {
        if contested(a, name) {
            let (x, y) = choose|x: Seq<char>, y: Seq<char>|
                x != y && #[trigger] holds(a, name, x) && #[trigger] holds(a, name, y);
            assert(holds(b, name, x) && holds(b, name, y));
        }
        if contested(b, name) {
            let (x, y) = choose|x: Seq<char>, y: Seq<char>|
                x != y && #[trigger] holds(b, name, x) && #[trigger] holds(b, name, y);
            assert(holds(a, name, x) && holds(a, name, y));
        }
    }
}

proof fn lemma_uncontested_prefix(all: Seq<ClaimView>, k: int, name: Seq<char>)
    requires
        0 <= k <= all.len(),
        forall|a: int, b: int|
            0 <= a < b < k && (#[trigger] all[a]).name == (#[trigger] all[b]).name ==> all[a].shard
                == all[b].shard,
        forall|i: int| k <= i < all.len() ==> (#[trigger] all[i]).name != name,
    ensures
        !contested(all, name),
{
    if contested(all, name) {
        let (x, y) = choose|x: Seq<char>, y: Seq<char>|
            x != y && #[trigger] holds(all, name, x) && #[trigger] holds(all, name, y);
        let i = all.index_of(ClaimView { name, shard: x });
        let j = all.index_of(ClaimView { name, shard: y });
        assert(all[i].name == name && all[j].name == name);
        if i < j {
            assert(all[i].shard == all[j].shard);
        } else {
            assert(all[j].shard == all[i].shard);
        }
    }
}

/// Refuse claims of one tensor by several shards.
pub fn reject_contested(path: &str, claims: Vec<Claim>) -> (r: Result<(), ParserError>)
    ensures
        match r {
            Ok(_) => forall|name: Seq<char>| !#[trigger] contested(claim_views(claims@), name),
            Err(e) => refuses_contested(e@, claim_views(claims@), path@),
        },
{
    let ghost given = claim_views(claims@);
    let sorted = sort_claims(claims);
    let ghost all = claim_views(sorted@);
    proof {
        lemma_same_claims(all, given);
    }
    let mut k: usize = 0;
    while k < sorted.len()
        invariant
            k <= sorted@.len(),
            all == claim_views(sorted@),
            in_order(all),
            forall|name: Seq<char>, shard: Seq<char>|
                #![trigger holds(all, name, shard)]
                #![trigger holds(given, name, shard)]
                holds(all, name, shard) == holds(given, name, shard),
            forall|name: Seq<char>|
                #![trigger contested(all, name)]
                #![trigger contested(given, name)]
                contested(all, name) == contested(given, name),
            given == claim_views(claims@),
            forall|a: int, b: int|
                0 <= a < b < k && (#[trigger] all[a]).name == (#[trigger] all[b]).name
                    ==> all[a].shard == all[b].shard,
        decreases sorted@.len() - k,
    {
        proof {
            text::lemma_less_total_order();
            assert(all[k as int] == sorted@[k as int]@);
        }
        if k > 0 && text::equal(sorted[k - 1].name.as_str(), sorted[k].name.as_str())
            && !text::equal(sorted[k - 1].shard.as_str(), sorted[k].shard.as_str()) {
            let name = sorted[k].name.clone();
            let shards = claiming_shards(&sorted, name.as_str());
            let ghost listed = text::views(shards@);
            proof {
                let x = all[k - 1];
                let y = all[k as int];
                assert(x == sorted@[k - 1]@);
                assert(all.contains(x) && all.contains(y));
                assert(holds(all, name@, x.shard) && holds(all, name@, y.shard));
                assert(contested(all, name@));
                assert(contested(given, name@));
                assert forall|other: Seq<char>| text::less(other, name@) implies !#[trigger] contested(
                    given,
                    other,
                ) by {
                    assert forall|i: int| k <= i < all.len() implies (#[trigger] all[i]).name
                        != other by {
                        if i > k {
                            assert(all[k as int] == all[i] || sorting::key_less(
                                claim_key(all[k as int]),
                                claim_key(all[i]),
                            ));
                        }
                    }
                    lemma_uncontested_prefix(all, k as int, other);
                }
                lemma_holders(given, name@);
                assert forall|s: Seq<char>|
                    #![trigger listed.contains(s)]
                    #![trigger holders(given, name@).contains(s)]
                    listed.contains(s) <==> holders(given, name@).contains(s) by {
                    assert(listed.contains(s) == holds(all, name@, s));
                    assert(holders(given, name@).contains(s) == holds(given, name@, s));
                }
            }
            let e = ParserError::DuplicateTensorOwnership { name, shards, path: path.to_owned() };
            assert(e@ == duplicate_error(name@, listed, path@));
            return Err(e);
        }
        assert forall|a: int, b: int|
            0 <= a < b < k + 1 && (#[trigger] all[a]).name == (#[trigger] all[b]).name implies all[a].shard
            == all[b].shard by {
            if b == k {
                assert(all[k - 1] == sorted@[k - 1]@);
                assert(all[k - 1] == all[k as int] || sorting::key_less(
                    claim_key(all[k - 1]),
                    claim_key(all[k as int]),
                ));
                if a < k - 1 {
                    assert(all[a] == all[k - 1] || sorting::key_less(
                        claim_key(all[a]),
                        claim_key(all[k - 1]),
                    ));
                    assert(all[a].name == all[k - 1].name);
                }
            }
        }
        k += 1;
    }
    assert forall|name: Seq<char>| !#[trigger] contested(given, name) by {
        lemma_uncontested_prefix(all, all.len() as int, name);
        assert(contested(all, name) == contested(given, name));
    }
    Ok(())
}

/// The claimed tensor is held by another shard.
pub open spec fn misplaced(
    claims: Seq<ClaimView>,
    holdings: Seq<ClaimView>,
    c: ClaimView,
) -> bool {
    claims.contains(c) && exists|h: Seq<char>| h != c.shard && #[trigger] holds(holdings, c.name, h)
}

/// The shards that a refusal names: those that hold the tensor, and with a single one of
/// them the one that should.
pub open spec fn parties(holdings: Seq<ClaimView>, c: ClaimView) -> Seq<Seq<char>> {
    if contested(holdings, c.name) {
        holders(holdings, c.name)
    } else {
        holders(holdings, c.name).push(c.shard)
    }
}

/// The first misplaced claim in the order of names is refused.
pub open spec fn refuses_misplaced(
    e: ErrorView,
    claims: Seq<ClaimView>,
    holdings: Seq<ClaimView>,
    path: Seq<char>,
) -> bool {
    exists|c: ClaimView, shards: Seq<Seq<char>>|
        {
            &&& #[trigger] misplaced(claims, holdings, c)
            &&& forall|other: ClaimView|
                text::less(other.name, c.name) ==> !#[trigger] misplaced(claims, holdings, other)
            &&& text::lists(shards, parties(holdings, c))
            &&& e == #[trigger] duplicate_error(c.name, shards, path)
        }
}

/// Refuse tensors that are held by another shard than the one that they are claimed for.
pub fn reject_misplaced(path: &str, claims: Vec<Claim>, holdings: Vec<Claim>) -> (r: Result<
    (),
    ParserError,
>)
    ensures
        match r {
            Ok(_) => forall|c: ClaimView|
                !#[trigger] misplaced(claim_views(claims@), claim_views(holdings@), c),
            Err(e) => refuses_misplaced(
                e@,
                claim_views(claims@),
                claim_views(holdings@),
                path@,
            ),
        },
{
    let ghost asked = claim_views(claims@);
    let ghost held = claim_views(holdings@);
    let wanted = sort_claims(claims);
    let found = sort_claims(holdings);
    let ghost all = claim_views(wanted@);
    proof {
        lemma_same_claims(claim_views(found@), held);
    }
    let mut k: usize = 0;
    while k < wanted.len()
        invariant
            k <= wanted@.len(),
            asked == claim_views(claims@),
            held == claim_views(holdings@),
            all == claim_views(wanted@),
            in_order(all),
            in_order(claim_views(found@)),
            forall|c: ClaimView|
                #![trigger all.contains(c)]
                #![trigger asked.contains(c)]
                all.contains(c) <==> asked.contains(c),
            forall|name: Seq<char>, shard: Seq<char>|
                #![trigger holds(claim_views(found@), name, shard)]
                #![trigger holds(held, name, shard)]
                holds(claim_views(found@), name, shard) == holds(held, name, shard),
            forall|i: int| 0 <= i < k ==> !misplaced(asked, held, #[trigger] all[i]),
        decreases wanted@.len() - k,
    {
        let name = wanted[k].name.as_str();
        let shard = wanted[k].shard.as_str();
        let shards = claiming_shards(&found, name);
        let ghost c = all[k as int];
        let ghost listed = text::views(shards@);
        proof {
            text::lemma_less_total_order();
            assert(c == wanted@[k as int]@);
            assert(all.contains(c));
            assert(asked.contains(c));
            lemma_holders(held, c.name);
            assert(forall|s: Seq<char>| #[trigger]
                listed.contains(s) <==> holds(held, c.name, s));
            assert forall|other: ClaimView| text::less(other.name, c.name) implies !#[trigger] misplaced(
                asked,
                held,
                other,
            ) by {
                if asked.contains(other) {
                    assert(all.contains(other));
                    let i = all.index_of(other);
                    if i > k {
                        assert(all[k as int] == all[i] || sorting::key_less(
                            claim_key(all[k as int]),
                            claim_key(all[i]),
                        ));
                    }
                    assert(!misplaced(asked, held, all[i]));
                }
            }
        }
        if shards.len() > 1 {
            proof {
                assert(listed.contains(listed[0]) && listed.contains(listed[1]));
                assert(text::less(listed[0], listed[1]));
                assert(holds(held, c.name, listed[0]) && holds(held, c.name, listed[1]));
                assert(contested(held, c.name));
                assert(misplaced(asked, held, c));
                let source = parties(held, c);
                assert forall|s: Seq<char>|
                    #![trigger listed.contains(s)]
                    #![trigger source.contains(s)]
                    listed.contains(s) <==> source.contains(s) by {
                    assert(holders(held, c.name).contains(s) == holds(held, c.name, s));
                }
            }
            let e = ParserError::DuplicateTensorOwnership {
                name: name.to_owned(),
                shards,
                path: path.to_owned(),
            };
            assert(e@ == duplicate_error(c.name, listed, path@));
            return Err(e);
        }
        if shards.len() == 1 && !text::equal(shards[0].as_str(), shard) {
            let holder = shards[0].clone();
            let pair: Vec<String> = match text::compare(holder.as_str(), shard) {
                text::Order::Less => vec![holder, shard.to_owned()],
                _ => vec![shard.to_owned(), holder],
            };
            let ghost both = text::views(pair@);
            proof {
                assert(listed[0] == shards@[0]@);
                assert(listed.contains(listed[0]));
                assert(holds(held, c.name, listed[0]));
                assert(misplaced(asked, held, c));
                assert(!contested(held, c.name)) by {
                    if contested(held, c.name) {
                        let (x, y) = choose|x: Seq<char>, y: Seq<char>|
                            x != y && #[trigger] holds(held, c.name, x) && #[trigger] holds(
                                held,
                                c.name,
                                y,
                            );
                        assert(listed.contains(x) && listed.contains(y));
                        assert(listed.index_of(x) == 0 && listed.index_of(y) == 0);
                        assert(listed[0] == x && listed[0] == y);
                    }
                }
                let source = parties(held, c);
                let rest = holders(held, c.name);
                assert(source =~= rest.push(c.shard));
                assert(both.len() == 2);
                assert((both[0] == listed[0] && both[1] == c.shard) || (both[1] == listed[0]
                    && both[0] == c.shard));
                assert forall|s: Seq<char>|
                    #![trigger both.contains(s)]
                    #![trigger source.contains(s)]
                    both.contains(s) <==> source.contains(s) by {
                    assert(rest.contains(s) == holds(held, c.name, s));
                    assert(listed.contains(s) == holds(held, c.name, s));
                    if both.contains(s) {
                        if s == listed[0] {
                            let i = rest.index_of(s);
                            assert(source[i] == s);
                        } else {
                            assert(s == c.shard);
                            assert(source.last() == s);
                        }
                    }
                    if source.contains(s) {
                        let i = source.index_of(s);
                        if i < rest.len() {
                            assert(rest[i] == s);
                            assert(rest.contains(s));
                            assert(listed.contains(s));
                            assert(listed[0] == s);
                        } else {
                            assert(s == c.shard);
                        }
                        assert(both[0] == s || both[1] == s);
                    }
                }
                assert(text::lists(both, source));
            }
            let e = ParserError::DuplicateTensorOwnership {
                name: name.to_owned(),
                shards: pair,
                path: path.to_owned(),
            };
            assert(e@ == duplicate_error(c.name, both, path@));
            return Err(e);
        }
        assert(!misplaced(asked, held, c)) by {
            if misplaced(asked, held, c) {
                let h = choose|h: Seq<char>| h != c.shard && #[trigger] holds(held, c.name, h);
                assert(listed.contains(h));
                assert(listed.index_of(h) == 0);
                assert(listed[0] == shards@[0]@);
            }
        }
        k += 1;
    }
    assert forall|c: ClaimView| !#[trigger] misplaced(asked, held, c) by {
        if asked.contains(c) {
            assert(all.contains(c));
            let i = all.index_of(c);
            assert(!misplaced(asked, held, all[i]));
        }
    }
    Ok(())
}

/// The refusal of a contested tensor names a tensor that several shards claim, and lists
/// the shards that do, no others, in order.
pub proof fn law_refusals_list_the_claiming_shards(
    e: ErrorView,
    claims: Seq<ClaimView>,
    path: Seq<char>,
)
    requires
        refuses_contested(e, claims, path),
    ensures
        e is DuplicateTensorOwnership,
        e->DuplicateTensorOwnership_path == path,
        e->DuplicateTensorOwnership_shards.len() >= 2,
        text::increasing(e->DuplicateTensorOwnership_shards),
        forall|shard: Seq<char>| #[trigger]
            e->DuplicateTensorOwnership_shards.contains(shard) <==> claims.contains(
                ClaimView { name: e->DuplicateTensorOwnership_name, shard },
            ),
{
    let (name, shards) = choose|name: Seq<char>, shards: Seq<Seq<char>>|
        {
            &&& #[trigger] contested(claims, name)
            &&& forall|other: Seq<char>|
                text::less(other, name) ==> !#[trigger] contested(claims, other)
            &&& text::lists(shards, holders(claims, name))
            &&& e == #[trigger] duplicate_error(name, shards, path)
        };
    lemma_holders(claims, name);
    assert forall|shard: Seq<char>| #[trigger] shards.contains(shard) <==> claims.contains(
        ClaimView { name, shard },
    ) by {
        assert(shards.contains(shard) <==> holders(claims, name).contains(shard));
        assert(holders(claims, name).contains(shard) <==> holds(claims, name, shard));
    }
    let (a, b) = choose|a: Seq<char>, b: Seq<char>|
        a != b && #[trigger] holds(claims, name, a) && #[trigger] holds(claims, name, b);
    assert(holds(claims, name, a) && holds(claims, name, b));
    assert(shards.contains(a) && shards.contains(b));
    let i = shards.index_of(a);
    let j = shards.index_of(b);
    assert(i != j);
}

/// The refusal of a misplaced tensor names a tensor that another shard holds than the one
/// that claims it, and lists every shard that holds it.
pub proof fn law_refusals_list_the_holding_shards(
    e: ErrorView,
    claims: Seq<ClaimView>,
    holdings: Seq<ClaimView>,
    path: Seq<char>,
)
    requires
        refuses_misplaced(e, claims, holdings, path),
    ensures
        e is DuplicateTensorOwnership,
        e->DuplicateTensorOwnership_path == path,
        text::increasing(e->DuplicateTensorOwnership_shards),
        forall|shard: Seq<char>| #[trigger]
            holdings.contains(ClaimView { name: e->DuplicateTensorOwnership_name, shard })
                ==> e->DuplicateTensorOwnership_shards.contains(shard),
        exists|asked: Seq<char>, held: Seq<char>|
            asked != held && #[trigger] claims.contains(
                ClaimView { name: e->DuplicateTensorOwnership_name, shard: asked },
            ) && #[trigger] holdings.contains(
                ClaimView { name: e->DuplicateTensorOwnership_name, shard: held },
            ),
{
    let (c, shards) = choose|c: ClaimView, shards: Seq<Seq<char>>|
        {
            &&& #[trigger] misplaced(claims, holdings, c)
            &&& forall|other: ClaimView|
                text::less(other.name, c.name) ==> !#[trigger] misplaced(claims, holdings, other)
            &&& text::lists(shards, parties(holdings, c))
            &&& e == #[trigger] duplicate_error(c.name, shards, path)
        };
    lemma_holders(holdings, c.name);
    let all = holders(holdings, c.name);
    assert forall|shard: Seq<char>| #[trigger]
        holdings.contains(ClaimView { name: c.name, shard }) implies shards.contains(shard) by {
        assert(holds(holdings, c.name, shard));
        assert(all.contains(shard));
        let i = all.index_of(shard);
        assert(parties(holdings, c)[i] == shard);
        assert(parties(holdings, c).contains(shard));
    }
    assert(misplaced(claims, holdings, c));
    let h = choose|h: Seq<char>| h != c.shard && #[trigger] holds(holdings, c.name, h);
    assert(holds(holdings, c.name, h));
    let name = e->DuplicateTensorOwnership_name;
    assert(name == c.name);
    assert(ClaimView { name, shard: c.shard } == c);
    assert(claims.contains(ClaimView { name, shard: c.shard }));
    assert(holdings.contains(ClaimView { name, shard: h }));
}

} // verus!
