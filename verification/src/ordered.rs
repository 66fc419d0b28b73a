//! Maps and sets keyed by strings, kept in the order of their keys.

use crate::text;
use crate::text::Order;
use vstd::prelude::*;

verus! {

/// The keys of the entries, in order.
pub open spec fn keys_of<V>(entries: Seq<(String, V)>) -> Seq<Seq<char>> {
    Seq::new(entries.len(), |i: int| entries[i].0@)
}

/// The map that entries with distinct keys stand for.
pub open spec fn map_of<V>(entries: Seq<(String, V)>) -> Map<Seq<char>, V> {
    Map::new(
        |k: Seq<char>| keys_of(entries).contains(k),
        |k: Seq<char>| entries[keys_of(entries).index_of(k)].1,
    )
}

/// Entry `i` is the one that the map holds under its key.
pub proof fn lemma_map_of_entry<V>(entries: Seq<(String, V)>, i: int)
    requires
        text::increasing(keys_of(entries)),
        0 <= i < entries.len(),
    ensures
        map_of(entries).contains_key(entries[i].0@),
        map_of(entries)[entries[i].0@] == entries[i].1,
{
    let keys = keys_of(entries);
    assert(keys[i] == entries[i].0@);
    assert(keys.contains(keys[i]));
    let j = keys.index_of(keys[i]);
    text::lemma_less_total_order();
    if i < j {
        assert(text::less(keys[i], keys[j]));
    } else if j < i {
        assert(text::less(keys[j], keys[i]));
    }
}

/// The map with each value replaced by its view.
pub open spec fn value_views<V: View>(m: Map<Seq<char>, V>) -> Map<Seq<char>, V::V> {
    Map::new(|k: Seq<char>| m.contains_key(k), |k: Seq<char>| m[k]@)
}

/// Replacing values by their views goes along with insertion.
pub proof fn lemma_value_views_insert<V: View>(m: Map<Seq<char>, V>, key: Seq<char>, value: V)
    ensures
        value_views(m.insert(key, value)) == value_views(m).insert(key, value@),
        value_views(Map::<Seq<char>, V>::empty()) == Map::<Seq<char>, V::V>::empty(),
{
    assert(value_views(m.insert(key, value)) =~= value_views(m).insert(key, value@));
    assert(value_views(Map::<Seq<char>, V>::empty()) =~= Map::<Seq<char>, V::V>::empty());
}

/// The keys of the map, in order.
pub open spec fn sorted_keys<V>(m: Map<Seq<char>, V>) -> Seq<Seq<char>> {
    choose|keys: Seq<Seq<char>>| is_sorted_keys(keys, m)
}

/// `keys` lists the keys of the map, in order.
pub open spec fn is_sorted_keys<V>(keys: Seq<Seq<char>>, m: Map<Seq<char>, V>) -> bool {
    &&& text::increasing(keys)
    &&& forall|k: Seq<char>|
        #![trigger keys.contains(k)]
        #![trigger m.contains_key(k)]
        keys.contains(k) <==> m.contains_key(k)
}

/// Only one list holds the keys of a map in order.
pub proof fn lemma_sorted_keys<V>(keys: Seq<Seq<char>>, m: Map<Seq<char>, V>)
    requires
        is_sorted_keys(keys, m),
    ensures
        keys == sorted_keys(m),
{
    let chosen = sorted_keys(m);
    assert(is_sorted_keys(chosen, m));
    assert forall|k: Seq<char>|
        #![trigger keys.contains(k)]
        #![trigger chosen.contains(k)]
        keys.contains(k) <==> chosen.contains(k) by {
        assert(m.contains_key(k) == keys.contains(k));
    }
    text::lemma_increasing_unique(keys, chosen);
}

proof fn lemma_key_has_a_place(keys: Seq<Seq<char>>, key: Seq<char>) -> (p: int)
    requires
        text::increasing(keys),
        !keys.contains(key),
    ensures
        0 <= p <= keys.len(),
        forall|j: int| 0 <= j < p ==> text::less(#[trigger] keys[j], key),
        forall|j: int| p <= j < keys.len() ==> text::less(key, #[trigger] keys[j]),
    decreases keys.len(),
{
    text::lemma_less_total_order();
    if keys.len() == 0 {
        0
    } else if text::less(keys.last(), key) {
        assert forall|j: int| 0 <= j < keys.len() implies text::less(#[trigger] keys[j], key) by {
            if j < keys.len() - 1 {
                assert(text::less(keys[j], keys[keys.len() - 1]));
            }
        }
        keys.len() as int
    } else {
        assert(keys.contains(keys.last()));
        assert(text::less(key, keys.last()));
        let front = keys.drop_last();
        assert(!front.contains(key)) by {
            if front.contains(key) {
                assert(keys[front.index_of(key)] == key);
            }
        }
        let p = lemma_key_has_a_place(front, key);
        assert forall|j: int| 0 <= j < p implies text::less(#[trigger] keys[j], key) by {
            assert(front[j] == keys[j]);
        }
        assert forall|j: int| p <= j < keys.len() implies text::less(key, #[trigger] keys[j]) by {
            if j < keys.len() - 1 {
                assert(front[j] == keys[j]);
            }
        }
        p
    }
}

/// The keys of a finite map can be put in order.
pub proof fn lemma_sorted_keys_exist<V>(m: Map<Seq<char>, V>)
    requires
        m.dom().finite(),
    ensures
        is_sorted_keys(sorted_keys(m), m),
    decreases m.dom().len(),
{
    if m.dom().len() == 0 {
        let none = Seq::<Seq<char>>::empty();
        assert forall|k: Seq<char>|
            #![trigger none.contains(k)]
            #![trigger m.contains_key(k)]
            none.contains(k) <==> m.contains_key(k) by {
            assert(m.dom().contains(k) ==> m.dom().len() > 0);
        }
        assert(is_sorted_keys(none, m));
    } else {
        let key = m.dom().choose();
        let rest = m.remove(key);
        assert(rest.dom() =~= m.dom().remove(key));
        lemma_sorted_keys_exist(rest);
        let keys = sorted_keys(rest);
        assert(!rest.contains_key(key));
        let p = lemma_key_has_a_place(keys, key);
        let all = keys.insert(p, key);
        assert forall|k: Seq<char>|
            #![trigger all.contains(k)]
            #![trigger m.contains_key(k)]
            all.contains(k) <==> m.contains_key(k) by {
            if all.contains(k) {
                let i = all.index_of(k);
                if i < p {
                    assert(keys[i] == k);
                    assert(keys.contains(k));
                } else if i > p {
                    assert(keys[i - 1] == k);
                    assert(keys.contains(k));
                }
            }
            if m.contains_key(k) {
                if k == key {
                    assert(all[p] == k);
                } else {
                    assert(rest.contains_key(k));
                    let i = keys.index_of(k);
                    assert(keys[i] == k);
                    if i < p {
                        assert(all[i] == k);
                    } else {
                        assert(all[i + 1] == k);
                    }
                }
            }
        }
        assert forall|i: int, j: int| 0 <= i < j < all.len() implies text::less(
            #[trigger] all[i],
            #[trigger] all[j],
        ) by {
            let a = if i < p {
                i
            } else {
                i - 1
            };
            let b = if j < p {
                j
            } else {
                j - 1
            };
            if i == p {
                assert(all[j] == keys[b]);
            } else if j == p {
                assert(all[i] == keys[a]);
            } else {
                assert(all[i] == keys[a]);
                assert(all[j] == keys[b]);
                assert(text::less(keys[a], keys[b]));
            }
        }
        assert(is_sorted_keys(all, m));
    }
}

/// Find `key` among entries in the order of their keys: whether it is there, and where
/// it is or belongs.
pub fn search<V>(entries: &Vec<(String, V)>, key: &str) -> (r: (bool, usize))
    requires
        text::increasing(keys_of(entries@)),
    ensures
        r.0 == keys_of(entries@).contains(key@),
        r.0 ==> r.1 < entries@.len() && entries@[r.1 as int].0@ == key@,
        !r.0 ==> r.1 <= entries@.len(),
        forall|j: int| 0 <= j < r.1 ==> text::less(#[trigger] keys_of(entries@)[j], key@),
        forall|j: int|
            r.1 <= j < entries@.len() && !(r.0 && j == r.1) ==> text::less(
                key@,
                #[trigger] keys_of(entries@)[j],
            ),
{
    let ghost keys = keys_of(entries@);
    let mut low: usize = 0;
    let mut high: usize = entries.len();
    proof {
        text::lemma_less_total_order();
    }
    while low < high
        invariant
            0 <= low <= high <= entries@.len(),
            keys == keys_of(entries@),
            text::increasing(keys),
            forall|j: int| 0 <= j < low ==> text::less(#[trigger] keys[j], key@),
            forall|j: int| high <= j < entries@.len() ==> text::less(key@, #[trigger] keys[j]),
            forall|a: Seq<char>| !#[trigger] text::less(a, a),
            forall|a: Seq<char>, b: Seq<char>, c: Seq<char>| #[trigger]
                text::less(a, b) && #[trigger] text::less(b, c) ==> text::less(a, c),
        decreases high - low,
    {
        let middle: usize = low + (high - low) / 2;
        assert(keys[middle as int] == entries@[middle as int].0@);
        match text::compare(entries[middle].0.as_str(), key) {
            Order::Equal => {
                assert(keys.contains(keys[middle as int]));
                return (true, middle);
            },
            Order::Less => {
                assert forall|j: int| 0 <= j < middle + 1 implies text::less(
                    #[trigger] keys[j],
                    key@,
                ) by {
                    if j < middle {
                        assert(text::less(keys[j], keys[middle as int]));
                    }
                }
                low = middle + 1;
            },
            Order::Greater => {
                assert forall|j: int| middle <= j < entries@.len() implies text::less(
                    key@,
                    #[trigger] keys[j],
                ) by {
                    if middle < j {
                        assert(text::less(keys[middle as int], keys[j]));
                    }
                }
                high = middle;
            },
        }
    }
    proof {
        if keys.contains(key@) {
            let j = keys.index_of(key@);
            assert(keys[j] == key@);
            assert(false);
        }
    }
    (false, low)
}

/// Putting an entry where [`search`] says it belongs keeps the keys in order.
pub proof fn lemma_insert_in_order<V>(
    entries: Seq<(String, V)>,
    position: int,
    key: String,
    value: V,
)
    requires
        text::increasing(keys_of(entries)),
        0 <= position <= entries.len(),
        forall|j: int| 0 <= j < position ==> text::less(#[trigger] keys_of(entries)[j], key@),
        forall|j: int|
            position <= j < entries.len() ==> text::less(key@, #[trigger] keys_of(entries)[j]),
    ensures
        text::increasing(keys_of(entries.insert(position, (key, value)))),
        keys_of(entries.insert(position, (key, value))) == keys_of(entries).insert(position, key@),
        map_of(entries.insert(position, (key, value))) == map_of(entries).insert(key@, value),
{
    let keys = keys_of(entries);
    let after = entries.insert(position, (key, value));
    let keys_after = keys_of(after);
    assert(keys_after =~= keys.insert(position, key@));
    assert forall|i: int, j: int| 0 <= i < j < keys_after.len() implies text::less(
        #[trigger] keys_after[i],
        #[trigger] keys_after[j],
    ) by {
        let i0 = if i < position {
            i
        } else {
            i - 1
        };
        let j0 = if j < position {
            j
        } else {
            j - 1
        };
        if i != position && j != position {
            assert(text::less(keys[i0], keys[j0]));
        } else if i == position {
            assert(text::less(key@, keys[j0]));
        } else {
            assert(text::less(keys[i0], key@));
        }
    }
    assert(map_of(after) =~= map_of(entries).insert(key@, value)) by {
        assert forall|k: Seq<char>| #[trigger] map_of(after).contains_key(k) == map_of(
            entries,
        ).insert(key@, value).contains_key(k) by {
            if keys.contains(k) {
                let i = keys.index_of(k);
                let i1 = if i < position {
                    i
                } else {
                    i + 1
                };
                assert(keys_after[i1] == k);
                assert(keys_after.contains(k));
            }
            if keys_after.contains(k) && k != key@ {
                let i = keys_after.index_of(k);
                let i0 = if i < position {
                    i
                } else {
                    i - 1
                };
                assert(keys[i0] == k);
                assert(keys.contains(k));
            }
            assert(keys_after[position] == key@);
            assert(keys_after.contains(key@));
        }
        assert forall|k: Seq<char>| #[trigger] map_of(after).contains_key(k) implies map_of(
            after,
        )[k] == map_of(entries).insert(key@, value)[k] by {
            let i = keys_after.index_of(k);
            assert(keys_after.contains(k));
            lemma_map_of_entry(after, i);
            if k == key@ {
                lemma_map_of_entry(after, position);
                assert(keys_after[position] == key@);
            } else {
                let i0 = if i < position {
                    i
                } else {
                    i - 1
                };
                lemma_map_of_entry(entries, i0);
            }
        }
    }
}

proof fn lemma_update_in_order<V>(entries: Seq<(String, V)>, position: int, value: V)
    requires
        text::increasing(keys_of(entries)),
        0 <= position < entries.len(),
    ensures
        ({
            let key = entries[position].0;
            let after = entries.update(position, (key, value));
            &&& keys_of(after) == keys_of(entries)
            &&& map_of(after) == map_of(entries).insert(key@, value)
        }),
{
    let key = entries[position].0;
    let after = entries.update(position, (key, value));
    assert(keys_of(after) =~= keys_of(entries));
    lemma_map_of_entry(entries, position);
    lemma_map_of_entry(after, position);
    assert(map_of(after) =~= map_of(entries).insert(key@, value)) by {
        assert forall|k: Seq<char>| #[trigger] map_of(after).contains_key(k) implies map_of(
            after,
        )[k] == map_of(entries).insert(key@, value)[k] by {
            let i = keys_of(after).index_of(k);
            assert(keys_of(after).contains(k));
            lemma_map_of_entry(after, i);
            lemma_map_of_entry(entries, i);
        }
    }
}

/// A map from strings, with its entries in the order of the keys.
#[derive(Debug, PartialEq, Eq)]
pub struct StringMap<V> {
    entries: Vec<(String, V)>,
}

impl<V> View for StringMap<V> {
    type V = Map<Seq<char>, V>;

    closed spec fn view(&self) -> Map<Seq<char>, V> {
        map_of(self.entries@)
    }
}

impl<V> StringMap<V> {
    #[verifier::type_invariant]
    spec fn in_order(self) -> bool {
        text::increasing(keys_of(self.entries@))
    }

    /// The entries in the order of their keys.
    pub closed spec fn entries(self) -> Seq<(String, V)> {
        self.entries@
    }

    /// An empty map.
    pub fn new() -> (r: StringMap<V>)
        ensures
            r@ == Map::<Seq<char>, V>::empty(),
            r.entries() == Seq::<(String, V)>::empty(),
    {
        let r = StringMap { entries: Vec::new() };
        assert(r@ =~= Map::<Seq<char>, V>::empty());
        r
    }

    /// Number of entries.
    pub fn len(&self) -> (r: usize)
        ensures
            r == self.entries().len(),
            text::increasing(keys_of(self.entries())),
            self@ == map_of(self.entries()),
    {
        proof {
            use_type_invariant(&*self);
        }
        self.entries.len()
    }

    /// Whether there is no entry.
    pub fn is_empty(&self) -> (r: bool)
        ensures
            r == (self.entries().len() == 0),
    {
        self.entries.len() == 0
    }

    /// The key of entry `i`.
    pub fn key_at(&self, i: usize) -> (r: &String)
        requires
            i < self.entries().len(),
        ensures
            *r == self.entries()[i as int].0,
    {
        &self.entries[i].0
    }

    /// The value of entry `i`.
    pub fn value_at(&self, i: usize) -> (r: &V)
        requires
            i < self.entries().len(),
        ensures
            *r == self.entries()[i as int].1,
    {
        &self.entries[i].1
    }

    /// The keys, in order.
    pub fn keys(&self) -> (r: Vec<String>)
        ensures
            text::views(r@) == keys_of(self.entries()),
            text::increasing(text::views(r@)),
            forall|k: Seq<char>| #[trigger]
                text::views(r@).contains(k) <==> self@.contains_key(k),
            self@.dom().finite(),
    {
        proof {
            use_type_invariant(&*self);
            assert(self@.dom() =~= keys_of(self.entries@).to_set());
            vstd::seq_lib::seq_to_set_is_finite(keys_of(self.entries@));
        }
        let mut r: Vec<String> = Vec::new();
        let mut i: usize = 0;
        while i < self.entries.len()
            invariant
                i <= self.entries@.len(),
                text::views(r@) =~= keys_of(self.entries@).take(i as int),
            decreases self.entries@.len() - i,
        {
            let ghost before = r@;
            r.push(self.entries[i].0.clone());
            assert(text::views(r@) =~= text::views(before).push(keys_of(self.entries@)[i as int]));
            i += 1;
        }
        assert(text::views(r@) =~= keys_of(self.entries@));
        r
    }

    /// The value under `key`.
    pub fn get(&self, key: &str) -> (r: Option<&V>)
        ensures
            match r {
                Some(v) => self@.contains_key(key@) && *v == self@[key@],
                None => !self@.contains_key(key@),
            },
    {
        proof {
            use_type_invariant(&*self);
        }
        let (found, i): (bool, usize) = search(&self.entries, key);
        if found {
            proof {
                lemma_map_of_entry(self.entries@, i as int);
            }
            Some(&self.entries[i].1)
        } else {
            None
        }
    }

    /// Whether there is a value under `key`.
    pub fn contains_key(&self, key: &str) -> (r: bool)
        ensures
            r == self@.contains_key(key@),
    {
        proof {
            use_type_invariant(&*self);
        }
        search(&self.entries, key).0
    }

    /// Put `value` under `key`, in place of a value that may be there.
    pub fn insert(&mut self, key: String, value: V)
        ensures
            final(self)@ == old(self)@.insert(key@, value),
    {
        proof {
            use_type_invariant(&*self);
        }
        let (found, i): (bool, usize) = search(&self.entries, key.as_str());
        let mut entries: Vec<(String, V)> = Vec::new();
        std::mem::swap(&mut entries, &mut self.entries);
        if found {
            proof {
                lemma_update_in_order(entries@, i as int, value);
            }
            let old_key = entries[i].0.clone();
            entries.set(i, (old_key, value));
        } else {
            proof {
                lemma_insert_in_order(entries@, i as int, key, value);
            }
            entries.insert(i, (key, value));
        }
        self.entries = entries;
    }

    /// Remove the value under `key`, if any.
    pub fn remove(&mut self, key: &str)
        ensures
            final(self)@ == old(self)@.remove(key@),
    {
        proof {
            use_type_invariant(&*self);
        }
        let (found, i): (bool, usize) = search(&self.entries, key);
        if found {
            let mut entries: Vec<(String, V)> = Vec::new();
            std::mem::swap(&mut entries, &mut self.entries);
            proof {
                lemma_remove_in_order(entries@, i as int);
            }
            entries.remove(i);
            self.entries = entries;
        } else {
            assert(self@.remove(key@) =~= self@);
        }
    }
}

proof fn lemma_remove_in_order<V>(entries: Seq<(String, V)>, position: int)
    requires
        text::increasing(keys_of(entries)),
        0 <= position < entries.len(),
    ensures
        text::increasing(keys_of(entries.remove(position))),
        map_of(entries.remove(position)) == map_of(entries).remove(entries[position].0@),
{
    let keys = keys_of(entries);
    let after = entries.remove(position);
    let keys_after = keys_of(after);
    let key = entries[position].0@;
    text::lemma_less_total_order();
    assert(keys_after =~= keys.remove(position));
    assert forall|i: int, j: int| 0 <= i < j < keys_after.len() implies text::less(
        #[trigger] keys_after[i],
        #[trigger] keys_after[j],
    ) by {
        let i1 = if i < position {
            i
        } else {
            i + 1
        };
        let j1 = if j < position {
            j
        } else {
            j + 1
        };
        assert(text::less(keys[i1], keys[j1]));
    }
    assert(map_of(after) =~= map_of(entries).remove(key)) by {
        assert forall|k: Seq<char>| #[trigger] map_of(after).contains_key(k) == map_of(
            entries,
        ).remove(key).contains_key(k) by {
            if keys.contains(k) && k != key {
                let i = keys.index_of(k);
                assert(i != position);
                let i0 = if i < position {
                    i
                } else {
                    i - 1
                };
                assert(keys_after[i0] == k);
                assert(keys_after.contains(k));
            }
            if keys_after.contains(k) {
                let i = keys_after.index_of(k);
                let i1 = if i < position {
                    i
                } else {
                    i + 1
                };
                assert(keys[i1] == k);
                assert(keys.contains(k));
                if i1 < position {
                    assert(text::less(keys[i1], keys[position]));
                } else {
                    assert(text::less(keys[position], keys[i1]));
                }
            }
        }
        assert forall|k: Seq<char>| #[trigger] map_of(after).contains_key(k) implies map_of(
            after,
        )[k] == map_of(entries).remove(key)[k] by {
            let i = keys_after.index_of(k);
            assert(keys_after.contains(k));
            lemma_map_of_entry(after, i);
            let i1 = if i < position {
                i
            } else {
                i + 1
            };
            lemma_map_of_entry(entries, i1);
        }
    }
}

/// Whether two maps have the same keys.
pub fn same_keys<V, W>(a: &StringMap<V>, b: &StringMap<W>) -> (r: bool)
    ensures
        r == (a@.dom() == b@.dom()),
{
    let n: usize = a.len();
    let m: usize = b.len();
    let ghost left = keys_of(a.entries());
    let ghost right = keys_of(b.entries());
    proof {
        if a@.dom() == b@.dom() {
            assert forall|k: Seq<char>|
                #![trigger left.contains(k)]
                #![trigger right.contains(k)]
                left.contains(k) <==> right.contains(k) by {
                assert(a@.dom().contains(k) == left.contains(k));
                assert(b@.dom().contains(k) == right.contains(k));
            }
            text::lemma_increasing_unique(left, right);
        }
    }
    if n != m {
        return false;
    }
    let mut i: usize = 0;
    while i < n
        invariant
            i <= n,
            n == a.entries().len(),
            n == b.entries().len(),
            left == keys_of(a.entries()),
            right == keys_of(b.entries()),
            a@.dom() == b@.dom() ==> left == right,
            forall|j: int| 0 <= j < i ==> left[j] == right[j],
        decreases n - i,
    {
        if !text::equal(a.key_at(i).as_str(), b.key_at(i).as_str()) {
            assert(left[i as int] != right[i as int]);
            return false;
        }
        assert(left[i as int] == right[i as int]);
        i += 1;
    }
    assert(left =~= right);
    assert(a@.dom() =~= b@.dom());
    true
}

impl<V: Clone> Clone for StringMap<V> {
    fn clone(&self) -> (r: StringMap<V>)
        ensures
            r.entries().len() == self.entries().len(),
            forall|i: int|
                0 <= i < self.entries().len() ==> #[trigger] r.entries()[i].0
                    == self.entries()[i].0 && cloned(self.entries()[i].1, r.entries()[i].1),
    {
        let mut entries: Vec<(String, V)> = Vec::new();
        let mut i: usize = 0;
        while i < self.entries.len()
            invariant
                i <= self.entries@.len(),
                entries@.len() == i,
                forall|j: int|
                    0 <= j < i ==> #[trigger] entries@[j].0 == self.entries@[j].0 && cloned(
                        self.entries@[j].1,
                        entries@[j].1,
                    ),
            decreases self.entries@.len() - i,
        {
            let key = self.entries[i].0.clone();
            let value = self.entries[i].1.clone();
            entries.push((key, value));
            i += 1;
        }
        proof {
            use_type_invariant(&*self);
            assert(keys_of(entries@) =~= keys_of(self.entries@));
        }
        let ghost copies = entries@;
        let r = StringMap { entries };
        assert(r.entries() == copies);
        assert forall|j: int| 0 <= j < self.entries().len() implies #[trigger] r.entries()[j].0
            == self.entries()[j].0 && cloned(self.entries()[j].1, r.entries()[j].1) by {
            assert(copies[j].0 == self.entries@[j].0);
        }
        r
    }
}

impl<V> Default for StringMap<V> {
    fn default() -> (r: StringMap<V>)
        ensures
            r@ == Map::<Seq<char>, V>::empty(),
    {
        StringMap::new()
    }
}

} // verus!
