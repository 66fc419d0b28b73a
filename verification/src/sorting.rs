//! Stable sorting by numbers and texts.

use crate::text;
use crate::text::Order;
use vstd::prelude::*;

verus! {

/// What items are sorted by: two numbers, then two texts.
pub struct SortKey {
    pub first: u64,
    pub second: u64,
    pub name: String,
    pub shard: String,
}

/// A key with its texts as character sequences.
#[verifier::ext_equal]
pub struct KeyView {
    pub first: u64,
    pub second: u64,
    pub name: Seq<char>,
    pub shard: Seq<char>,
}

impl View for SortKey {
    type V = KeyView;

    open spec fn view(&self) -> KeyView {
        KeyView {
            first: self.first,
            second: self.second,
            name: self.name@,
            shard: self.shard@,
        }
    }
}

/// The order of keys: by the first number, then the second, the name and the shard.
pub open spec fn key_less(a: KeyView, b: KeyView) -> bool {
    if a.first != b.first {
        a.first < b.first
    } else if a.second != b.second {
        a.second < b.second
    } else if a.name != b.name {
        text::less(a.name, b.name)
    } else {
        text::less(a.shard, b.shard)
    }
}

/// Item `i` comes before item `j`: its key is less, or the keys are equal and it stood
/// before it.
pub open spec fn before(keys: Seq<KeyView>, i: int, j: int) -> bool {
    key_less(keys[i], keys[j]) || (keys[i] == keys[j] && i < j)
}

/// `order` lists the positions `low..high`, each before the next.
pub open spec fn orders_range(keys: Seq<KeyView>, order: Seq<int>, low: int, high: int) -> bool {
    &&& forall|i: int| 0 <= i < order.len() ==> low <= #[trigger] order[i] < high
    &&& forall|i: int, j: int|
        0 <= i < j < order.len() ==> before(keys, #[trigger] order[i], #[trigger] order[j])
    &&& forall|p: int| low <= p < high ==> #[trigger] order.contains(p)
}

/// `order` lists all positions of the items in the order of the keys; items with equal
/// keys keep their order.
pub open spec fn is_stable_order(keys: Seq<KeyView>, order: Seq<int>) -> bool {
    orders_range(keys, order, 0, keys.len() as int)
}

/// The stable order of the items.
pub open spec fn stable_order(keys: Seq<KeyView>) -> Seq<int> {
    choose|order: Seq<int>| is_stable_order(keys, order)
}

/// The items in the given order.
pub open spec fn arranged<T>(items: Seq<T>, order: Seq<int>) -> Seq<T> {
    Seq::new(order.len(), |i: int| items[order[i]])
}

/// The views of the keys, in order.
pub open spec fn key_views(keys: Seq<SortKey>) -> Seq<KeyView> {
    Seq::new(keys.len(), |i: int| keys[i]@)
}

/// Positions as mathematical integers.
pub open spec fn positions(order: Seq<usize>) -> Seq<int> {
    Seq::new(order.len(), |i: int| order[i] as int)
}

proof fn lemma_before_total_order(keys: Seq<KeyView>)
    ensures
        forall|i: int| !#[trigger] before(keys, i, i),
        forall|i: int, j: int, k: int| #[trigger]
            before(keys, i, j) && #[trigger] before(keys, j, k) ==> before(keys, i, k),
        forall|i: int, j: int| i != j && !#[trigger] before(keys, i, j) ==> before(keys, j, i),
{
    text::lemma_less_total_order();
}

proof fn lemma_order_unique(keys: Seq<KeyView>, a: Seq<int>, b: Seq<int>)
    requires
        forall|i: int, j: int|
            0 <= i < j < a.len() ==> before(keys, #[trigger] a[i], #[trigger] a[j]),
        forall|i: int, j: int|
            0 <= i < j < b.len() ==> before(keys, #[trigger] b[i], #[trigger] b[j]),
        forall|p: int|
            #![trigger a.contains(p)]
            #![trigger b.contains(p)]
            a.contains(p) <==> b.contains(p),
    ensures
        a == b,
    decreases a.len(),
{
    lemma_before_total_order(keys);
    if a.len() == 0 {
        if b.len() > 0 {
            assert(b.contains(b[0]));
        }
        assert(a =~= b);
    } else {
        assert(a.contains(a.last()));
        let j = b.index_of(a.last());
        assert(b.contains(b.last()));
        let i = a.index_of(b.last());
        if a.last() != b.last() {
            assert(before(keys, b[j], b[b.len() - 1]));
            assert(before(keys, a[i], a[a.len() - 1]));
            assert(false);
        }
        let a0 = a.drop_last();
        let b0 = b.drop_last();
        assert forall|p: int|
            #![trigger a0.contains(p)]
            #![trigger b0.contains(p)]
            a0.contains(p) <==> b0.contains(p) by {
            if a0.contains(p) {
                let m = a0.index_of(p);
                assert(a[m] == p && before(keys, a[m], a[a.len() - 1]));
                assert(a.contains(p));
                assert(b.contains(p));
                let n = b.index_of(p);
                assert(n < b.len() - 1);
                assert(b0[n] == p);
            }
            if b0.contains(p) {
                let m = b0.index_of(p);
                assert(b[m] == p && before(keys, b[m], b[b.len() - 1]));
                assert(b.contains(p));
                assert(a.contains(p));
                let n = a.index_of(p);
                assert(n < a.len() - 1);
                assert(a0[n] == p);
            }
        }
        lemma_order_unique(keys, a0, b0);
        assert(a =~= a0.push(a.last()));
        assert(b =~= b0.push(b.last()));
    }
}

/// There is only one stable order.
pub proof fn law_stable_order_is_unique(keys: Seq<KeyView>, a: Seq<int>, b: Seq<int>)
    requires
        is_stable_order(keys, a),
        is_stable_order(keys, b),
    ensures
        a == b,
{
    assert forall|p: int|
        #![trigger a.contains(p)]
        #![trigger b.contains(p)]
        a.contains(p) <==> b.contains(p) by {
        if a.contains(p) {
            assert(0 <= a[a.index_of(p)] < keys.len());
        }
        if b.contains(p) {
            assert(0 <= b[b.index_of(p)] < keys.len());
        }
    }
    lemma_order_unique(keys, a, b);
}

/// A stable order lists every position once.
pub proof fn law_stable_order_is_permutation(keys: Seq<KeyView>, order: Seq<int>)
    requires
        is_stable_order(keys, order),
    ensures
        order.no_duplicates(),
        order.len() == keys.len(),
{
    lemma_before_total_order(keys);
    assert(order.no_duplicates()) by {
        assert forall|i: int, j: int|
            0 <= i < order.len() && 0 <= j < order.len() && i != j implies order[i] != order[j] by {
            if i < j {
                assert(before(keys, order[i], order[j]));
            } else {
                assert(before(keys, order[j], order[i]));
            }
        }
    }
    let all = Set::new(|p: int| 0 <= p < keys.len());
    assert(order.to_set() =~= all);
    order.unique_seq_to_set();
    vstd::set_lib::lemma_int_range(0, keys.len() as int);
    assert(all =~= vstd::set_lib::set_int_range(0, keys.len() as int));
}

proof fn lemma_order_range(keys: Seq<KeyView>, n: int) -> (order: Seq<int>)
    requires
        0 <= n <= keys.len(),
    ensures
        orders_range(keys, order, 0, n),
    decreases n,
{
    if n == 0 {
        Seq::empty()
    } else {
        let rest = lemma_order_range(keys, n - 1);
        let p = lemma_slot(keys, rest, n - 1, rest.len() as int);
        let order = rest.insert(p, n - 1);
        assert forall|i: int, j: int| 0 <= i < j < order.len() implies before(
            keys,
            #[trigger] order[i],
            #[trigger] order[j],
        ) by {
            let i0 = if i < p {
                i
            } else {
                i - 1
            };
            let j0 = if j < p {
                j
            } else {
                j - 1
            };
            if i != p && j != p {
                assert(order[i] == rest[i0] && order[j] == rest[j0]);
            } else if i == p {
                assert(order[j] == rest[j0]);
            } else {
                assert(order[i] == rest[i0]);
            }
        }
        assert forall|i: int| 0 <= i < order.len() implies 0 <= #[trigger] order[i] < n by {
            if i != p {
                let i0 = if i < p {
                    i
                } else {
                    i - 1
                };
                assert(order[i] == rest[i0]);
            }
        }
        assert forall|q: int| 0 <= q < n implies #[trigger] order.contains(q) by {
            if q == n - 1 {
                assert(order[p] == q);
            } else {
                assert(rest.contains(q));
                let i = rest.index_of(q);
                let i1 = if i < p {
                    i
                } else {
                    i + 1
                };
                assert(order[i1] == q);
            }
        }
        order
    }
}

/// Where position `n` belongs among the first `m` of an order of smaller positions.
proof fn lemma_slot(keys: Seq<KeyView>, order: Seq<int>, n: int, m: int) -> (p: int)
    requires
        0 <= m <= order.len(),
        forall|i: int, j: int|
            0 <= i < j < order.len() ==> before(
                keys,
                #[trigger] order[i],
                #[trigger] order[j],
            ),
        forall|i: int| 0 <= i < order.len() ==> #[trigger] order[i] < n,
        forall|i: int| m <= i < order.len() ==> before(keys, n, #[trigger] order[i]),
    ensures
        0 <= p <= order.len(),
        forall|i: int| 0 <= i < p ==> before(keys, #[trigger] order[i], n),
        forall|i: int| p <= i < order.len() ==> before(keys, n, #[trigger] order[i]),
    decreases m,
{
    text::lemma_less_total_order();
    if m == 0 {
        0
    } else if before(keys, order[m - 1], n) {
        assert forall|i: int| 0 <= i < m implies before(keys, #[trigger] order[i], n) by {
            if i < m - 1 {
                assert(before(keys, order[i], order[m - 1]));
            }
        }
        m
    } else {
        assert(before(keys, n, order[m - 1]));
        lemma_slot(keys, order, n, m - 1)
    }
}

/// Items can always be put in stable order.
pub proof fn lemma_stable_order_exists(keys: Seq<KeyView>)
    ensures
        is_stable_order(keys, stable_order(keys)),
        stable_order(keys).len() == keys.len(),
{
    let order = lemma_order_range(keys, keys.len() as int);
    assert(is_stable_order(keys, order));
    law_stable_order_is_permutation(keys, stable_order(keys));
}

/// Arranging items in an order that lists every position once keeps the items.
pub proof fn lemma_arranging_keeps_the_items<T>(items: Seq<T>, order: Seq<int>)
    requires
        order.no_duplicates(),
        order.len() == items.len(),
        forall|i: int| 0 <= i < order.len() ==> 0 <= #[trigger] order[i] < items.len(),
        forall|p: int| 0 <= p < items.len() ==> #[trigger] order.contains(p),
    ensures
        arranged(items, order).to_multiset() == items.to_multiset(),
    decreases items.len(),
{
    broadcast use vstd::seq_lib::group_to_multiset_ensures;

    if items.len() == 0 {
        assert(arranged(items, order) =~= items);
    } else {
        let end = items.len() - 1;
        let front = items.drop_last();
        assert(order.contains(end));
        let at = order.index_of(end);
        let rest = order.remove(at);
        assert forall|i: int| 0 <= i < rest.len() implies 0 <= #[trigger] rest[i] < front.len() by {
            let j = if i < at {
                i
            } else {
                i + 1
            };
            assert(rest[i] == order[j]);
            assert(order[j] != order[at]);
        }
        assert forall|p: int| 0 <= p < front.len() implies #[trigger] rest.contains(p) by {
            assert(order.contains(p));
            let j = order.index_of(p);
            if j < at {
                assert(rest[j] == p);
            } else {
                assert(rest[j - 1] == p);
            }
        }
        assert forall|i: int, j: int|
            0 <= i < rest.len() && 0 <= j < rest.len() && i != j implies rest[i] != rest[j] by {
            let a = if i < at {
                i
            } else {
                i + 1
            };
            let b = if j < at {
                j
            } else {
                j + 1
            };
            assert(order[a] != order[b]);
        }
        lemma_arranging_keeps_the_items(front, rest);
        let all = arranged(items, order);
        assert(all.remove(at) =~= arranged(front, rest));
        assert(all =~= all.remove(at).insert(at, items.last()));
        vstd::seq_lib::to_multiset_insert(all.remove(at), at, items.last());
        assert(items =~= front.push(items.last()));
    }
}

fn compare_keys(a: &SortKey, b: &SortKey) -> (r: Order)
    ensures
        r is Less <==> key_less(a@, b@),
        r is Greater <==> key_less(b@, a@),
        r is Equal <==> a@ == b@,
{
    proof {
        text::lemma_less_total_order();
    }
    if a.first < b.first {
        return Order::Less;
    }
    if b.first < a.first {
        return Order::Greater;
    }
    if a.second < b.second {
        return Order::Less;
    }
    if b.second < a.second {
        return Order::Greater;
    }
    match text::compare(a.name.as_str(), b.name.as_str()) {
        Order::Equal => text::compare(a.shard.as_str(), b.shard.as_str()),
        other => other,
    }
}

fn merge(
    keys: &Vec<SortKey>,
    left: &Vec<usize>,
    right: &Vec<usize>,
    low: usize,
    middle: usize,
    high: usize,
) -> (r: Vec<usize>)
    requires
        low <= middle <= high <= keys@.len(),
        orders_range(key_views(keys@), positions(left@), low as int, middle as int),
        orders_range(key_views(keys@), positions(right@), middle as int, high as int),
    ensures
        orders_range(key_views(keys@), positions(r@), low as int, high as int),
{
    let ghost ks = key_views(keys@);
    let ghost ls = positions(left@);
    let ghost rs = positions(right@);
    proof {
        lemma_before_total_order(ks);
    }
    let mut out: Vec<usize> = Vec::new();
    let mut i: usize = 0;
    let mut j: usize = 0;
    while i < left.len() || j < right.len()
        invariant
            low <= middle <= high <= keys@.len(),
            ks == key_views(keys@),
            ls == positions(left@),
            rs == positions(right@),
            i <= left@.len(),
            j <= right@.len(),
            orders_range(ks, ls, low as int, middle as int),
            orders_range(ks, rs, middle as int, high as int),
            forall|a: int, b: int, c: int| #[trigger]
                before(ks, a, b) && #[trigger] before(ks, b, c) ==> before(ks, a, c),
            forall|a: int, b: int| a != b && !#[trigger] before(ks, a, b) ==> before(ks, b, a),
            forall|k: int| 0 <= k < out@.len() ==> low <= #[trigger] positions(out@)[k] < high,
            forall|a: int, b: int|
                0 <= a < b < out@.len() ==> before(
                    ks,
                    #[trigger] positions(out@)[a],
                    #[trigger] positions(out@)[b],
                ),
            forall|k: int, m: int|
                0 <= k < out@.len() && i <= m < ls.len() ==> before(
                    ks,
                    #[trigger] positions(out@)[k],
                    #[trigger] ls[m],
                ),
            forall|k: int, m: int|
                0 <= k < out@.len() && j <= m < rs.len() ==> before(
                    ks,
                    #[trigger] positions(out@)[k],
                    #[trigger] rs[m],
                ),
            forall|m: int| 0 <= m < i ==> positions(out@).contains(#[trigger] ls[m]),
            forall|m: int| 0 <= m < j ==> positions(out@).contains(#[trigger] rs[m]),
        decreases left@.len() - i + right@.len() - j,
    {
        let take_left = if i >= left.len() {
            false
        } else if j >= right.len() {
            true
        } else {
            assert(low <= ls[i as int] < middle);
            assert(middle <= rs[j as int] < high);
            match compare_keys(&keys[left[i]], &keys[right[j]]) {
                Order::Greater => false,
                _ => true,
            }
        };
        let ghost before_out = positions(out@);
        let ghost chosen = if take_left {
            ls[i as int]
        } else {
            rs[j as int]
        };
        let ghost i0 = i as int;
        let ghost j0 = j as int;
        proof {
            // The chosen position comes before all that are left.
            assert forall|m: int| i0 <= m < ls.len() implies (take_left && m == i0) || before(
                ks,
                chosen,
                #[trigger] ls[m],
            ) by {
                if take_left {
                    if i0 < m {
                        assert(before(ks, ls[i0], ls[m]));
                    }
                } else if i0 < ls.len() {
                    assert(low <= ls[i0] < middle);
                    assert(middle <= rs[j0] < high);
                    assert(before(ks, rs[j0], ls[i0]));
                    if i0 < m {
                        assert(before(ks, ls[i0], ls[m]));
                    }
                }
            }
            assert forall|m: int| j0 <= m < rs.len() implies (!take_left && m == j0) || before(
                ks,
                chosen,
                #[trigger] rs[m],
            ) by {
                if !take_left {
                    if j0 < m {
                        assert(before(ks, rs[j0], rs[m]));
                    }
                } else if j0 < rs.len() {
                    assert(low <= ls[i0] < middle);
                    assert(middle <= rs[j0] < high);
                    assert(before(ks, ls[i0], rs[j0]));
                    if j0 < m {
                        assert(before(ks, rs[j0], rs[m]));
                    }
                }
            }
        }
        if take_left {
            out.push(left[i]);
            i += 1;
        } else {
            out.push(right[j]);
            j += 1;
        }
        proof {
            let after = positions(out@);
            assert(after =~= before_out.push(chosen));
            assert(after[after.len() - 1] == chosen);
            assert forall|m: int| 0 <= m < i implies after.contains(#[trigger] ls[m]) by {
                if m < i0 {
                    let k = before_out.index_of(ls[m]);
                    assert(after[k] == ls[m]);
                }
            }
            assert forall|m: int| 0 <= m < j implies after.contains(#[trigger] rs[m]) by {
                if m < j0 {
                    let k = before_out.index_of(rs[m]);
                    assert(after[k] == rs[m]);
                }
            }
            assert forall|k: int, m: int|
                0 <= k < after.len() && i <= m < ls.len() implies before(
                ks,
                #[trigger] after[k],
                #[trigger] ls[m],
            ) by {
                if k < before_out.len() {
                    assert(after[k] == before_out[k]);
                }
            }
            assert forall|k: int, m: int|
                0 <= k < after.len() && j <= m < rs.len() implies before(
                ks,
                #[trigger] after[k],
                #[trigger] rs[m],
            ) by {
                if k < before_out.len() {
                    assert(after[k] == before_out[k]);
                }
            }
            assert forall|a: int, b: int| 0 <= a < b < after.len() implies before(
                ks,
                #[trigger] after[a],
                #[trigger] after[b],
            ) by {
                assert(after[a] == before_out[a]);
                if b < before_out.len() {
                    assert(after[b] == before_out[b]);
                } else if take_left {
                    assert(before(ks, before_out[a], ls[i0]));
                } else {
                    assert(before(ks, before_out[a], rs[j0]));
                }
            }
        }
    }
    proof {
        let all = positions(out@);
        assert forall|p: int| low <= p < high implies #[trigger] all.contains(p) by {
            if p < middle {
                assert(ls.contains(p));
                assert(all.contains(ls[ls.index_of(p)]));
            } else {
                assert(rs.contains(p));
                assert(all.contains(rs[rs.index_of(p)]));
            }
        }
    }
    out
}

fn sort_range(keys: &Vec<SortKey>, low: usize, high: usize) -> (r: Vec<usize>)
    requires
        low <= high <= keys@.len(),
    ensures
        orders_range(key_views(keys@), positions(r@), low as int, high as int),
    decreases high - low,
{
    if high - low <= 1 {
        let mut r: Vec<usize> = Vec::new();
        if low < high {
            r.push(low);
            assert(positions(r@)[0] == low);
        }
        return r;
    }
    let middle: usize = low + (high - low) / 2;
    let left = sort_range(keys, low, middle);
    let right = sort_range(keys, middle, high);
    merge(keys, &left, &right, low, middle, high)
}

/// The positions of the items in the stable order of their keys.
pub fn sort_positions(keys: &Vec<SortKey>) -> (r: Vec<usize>)
    ensures
        is_stable_order(key_views(keys@), positions(r@)),
        positions(r@) == stable_order(key_views(keys@)),
        r@.len() == keys@.len(),
        forall|i: int| 0 <= i < r@.len() ==> #[trigger] r@[i] < keys@.len(),
{
    let r = sort_range(keys, 0, keys.len());
    proof {
        let ks = key_views(keys@);
        let order = positions(r@);
        assert(is_stable_order(ks, order));
        law_stable_order_is_unique(ks, order, stable_order(ks));
        law_stable_order_is_permutation(ks, order);
        assert forall|i: int| 0 <= i < r@.len() implies #[trigger] r@[i] < keys@.len() by {
            assert(0 <= order[i] < ks.len());
        }
    }
    r
}

/// Move the items into the given order.
pub fn arrange<T>(items: Vec<T>, order: &Vec<usize>) -> (r: Vec<T>)
    requires
        order@.len() == items@.len(),
        forall|i: int| 0 <= i < order@.len() ==> #[trigger] order@[i] < items@.len(),
        positions(order@).no_duplicates(),
    ensures
        r@ == arranged(items@, positions(order@)),
{
    let ghost originals = items@;
    let mut slots: Vec<Option<T>> = Vec::new();
    for item in it: items.into_iter()
        invariant
            it.seq() == originals,
            slots@.len() == it.index(),
            forall|k: int| 0 <= k < slots@.len() ==> #[trigger] slots@[k] == Some(originals[k]),
    {
        slots.push(Some(item));
    }
    let mut out: Vec<T> = Vec::new();
    let mut i: usize = 0;
    while i < order.len()
        invariant
            i <= order@.len(),
            order@.len() == originals.len(),
            slots@.len() == originals.len(),
            forall|k: int| 0 <= k < order@.len() ==> #[trigger] order@[k] < originals.len(),
            positions(order@).no_duplicates(),
            out@.len() == i,
            forall|k: int| 0 <= k < i ==> #[trigger] out@[k] == originals[order@[k] as int],
            forall|k: int|
                i <= k < order@.len() ==> slots@[#[trigger] order@[k] as int] == Some(
                    originals[order@[k] as int],
                ),
        decreases order@.len() - i,
    {
        let p: usize = order[i];
        let mut slot: Option<T> = None;
        slots.set_and_swap(p, &mut slot);
        match slot {
            Some(item) => {
                out.push(item);
            },
            None => {
                assert(false);
            },
        }
        proof {
            assert forall|k: int| i + 1 <= k < order@.len() implies slots@[#[trigger] order@[k] as int]
                == Some(originals[order@[k] as int]) by {
                assert(positions(order@)[k] != positions(order@)[i as int]);
            }
        }
        i += 1;
    }
    assert(out@ =~= arranged(originals, positions(order@)));
    out
}

} // verus!
