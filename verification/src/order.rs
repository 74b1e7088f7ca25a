//! Total orders, and the sorted set and sorted map built on them.
//!
//! Everything that the mesh must agree on is walked in one canonical order, so collections here keep
//! their keys sorted in a vector. The order compares the *views* of two keys, which is what lets a
//! text key and an integer key share one implementation.
use vstd::prelude::*;

verus! {

/// A strict total order on the views of a type.
pub trait Ordered: View + Sized {
    spec fn below(a: Self::V, b: Self::V) -> bool;

    fn is_below(&self, other: &Self) -> (r: bool)
        ensures
            r == Self::below(self@, other@),
    ;

    proof fn below_irreflexive(a: Self::V)
        ensures
            !Self::below(a, a),
    ;

    proof fn below_transitive(a: Self::V, b: Self::V, c: Self::V)
        requires
            Self::below(a, b),
            Self::below(b, c),
        ensures
            Self::below(a, c),
    ;

    proof fn below_total(a: Self::V, b: Self::V)
        requires
            a != b,
        ensures
            Self::below(a, b) || Self::below(b, a),
    ;
}

impl Ordered for u64 {
    open spec fn below(a: u64, b: u64) -> bool {
        a < b
    }

    fn is_below(&self, other: &Self) -> (r: bool) {
        *self < *other
    }

    proof fn below_irreflexive(a: u64) {
    }

    proof fn below_transitive(a: u64, b: u64, c: u64) {
    }

    proof fn below_total(a: u64, b: u64) {
    }
}

/// The items ascend strictly, so none occurs twice.
pub open spec fn ascending<K: Ordered>(items: Seq<K>) -> bool {
    forall|i: int, j: int|
        0 <= i < j < items.len() ==> #[trigger] K::below(items[i]@, items[j]@)
}

/// Of two keys in ascending order the earlier one is below the later one.
pub proof fn lemma_ascending_at<K: Ordered>(items: Seq<K>, i: int, j: int)
    requires
        ascending(items),
        0 <= i < j < items.len(),
    ensures
        K::below(items[i]@, items[j]@),
{
}

/// The views of a sequence of keys.
pub open spec fn views<K: View>(items: Seq<K>) -> Seq<K::V> {
    items.map_values(|k: K| k@)
}

/// A set of keys, kept in ascending order.
pub struct SortedSet<K: Ordered> {
    items: Vec<K>,
}

impl<K: Ordered> View for SortedSet<K> {
    type V = Set<K::V>;

    closed spec fn view(&self) -> Set<K::V> {
        views(self.items@).to_set()
    }
}

/// How many of the items stand below `key`: where it stands, or would stand.
fn rank_of<K: Ordered>(items: &Vec<K>, key: &K) -> (at: usize)
    requires
        ascending(items@),
    ensures
        at <= items@.len(),
        forall|i: int| 0 <= i < at ==> #[trigger] K::below(items@[i]@, key@),
        forall|i: int| at <= i < items@.len() ==> !#[trigger] K::below(items@[i]@, key@),
{
    let mut lo: usize = 0;
    let mut hi: usize = items.len();
    while lo < hi
        invariant
            lo <= hi <= items@.len(),
            ascending(items@),
            forall|i: int| 0 <= i < lo ==> #[trigger] K::below(items@[i]@, key@),
            forall|i: int| hi <= i < items@.len() ==> !#[trigger] K::below(items@[i]@, key@),
        decreases hi - lo,
    {
        let mid: usize = lo + (hi - lo) / 2;
        if items[mid].is_below(key) {
            proof {
                assert forall|i: int| 0 <= i < mid + 1 implies #[trigger] K::below(
                    items@[i]@,
                    key@,
                ) by {
                    if i < mid {
                        K::below_transitive(items@[i]@, items@[mid as int]@, key@);
                    }
                }
            }
            lo = mid + 1;
        } else {
            proof {
                assert forall|i: int| mid <= i < items@.len() implies !#[trigger] K::below(
                    items@[i]@,
                    key@,
                ) by {
                    if mid < i && K::below(items@[i]@, key@) {
                        K::below_transitive(items@[mid as int]@, items@[i]@, key@);
                    }
                }
            }
            hi = mid;
        }
    }
    lo
}

/// With `at` items below `key`, the key is among the items exactly when it stands at `at`.
proof fn lemma_found_at_rank<K: Ordered>(items: Seq<K>, key: K::V, at: int)
    requires
        ascending(items),
        0 <= at <= items.len(),
        forall|i: int| 0 <= i < at ==> #[trigger] K::below(items[i]@, key),
        forall|i: int| at <= i < items.len() ==> !#[trigger] K::below(items[i]@, key),
    ensures
        views(items).contains(key) <==> (at < items.len() && items[at]@ == key),
        (at < items.len() && items[at]@ == key) <==> (at < items.len() && !K::below(
            key,
            items[at]@,
        )),
{
    let vs = views(items);
    if vs.contains(key) {
        let i = choose|i: int| 0 <= i < vs.len() && vs[i] == key;
        assert(items[i]@ == key);
        K::below_irreflexive(key);
        if i < at {
            assert(K::below(items[i]@, key));
        } else if at < i {
            assert(K::below(items[at]@, items[i]@));
            assert(false);
        }
    }
    if at < items.len() {
        if items[at]@ == key {
            assert(vs[at] == key);
            K::below_irreflexive(key);
        } else {
            K::below_total(items[at]@, key);
            assert(!K::below(items[at]@, key));
        }
    }
}

impl<K: Ordered> SortedSet<K> {
    /// The keys in ascending order.
    pub closed spec fn order(&self) -> Seq<K> {
        self.items@
    }

    /// The keys stand in strictly ascending order.
    pub closed spec fn wf(&self) -> bool {
        ascending(self.items@)
    }

    pub proof fn lemma_order(&self)
        requires
            self.wf(),
        ensures
            ascending(self.order()),
            views(self.order()).to_set() == self@,
            views(self.order()).no_duplicates(),
    {
        lemma_ascending_no_duplicates(self.items@);
    }

    pub fn new() -> (s: Self)
        ensures
            s.wf(),
            s@ == Set::<K::V>::empty(),
            s.order() == Seq::<K>::empty(),
    {
        let s = SortedSet { items: Vec::new() };
        assert(s@ =~= Set::<K::V>::empty());
        s
    }

    /// The keys, ascending.
    pub fn items(&self) -> (r: &Vec<K>)
        requires
            self.wf(),
        ensures
            r@ == self.order(),
            ascending(r@),
            views(r@).to_set() == self@,
            views(r@).no_duplicates(),
    {
        proof {
            lemma_ascending_no_duplicates(self.items@);
        }
        &self.items
    }

    pub fn len(&self) -> (n: usize)
        requires
            self.wf(),
        ensures
            n == self@.len(),
            n == self.order().len(),
            self@.finite(),
    {
        proof {
            lemma_ascending_no_duplicates(self.items@);
            views(self.items@).unique_seq_to_set();
        }
        self.items.len()
    }

    pub fn contains(&self, key: &K) -> (r: bool)
        requires
            self.wf(),
        ensures
            r == self@.contains(key@),
    {
        let at: usize = rank_of(&self.items, key);
        proof {
            lemma_found_at_rank(self.items@, key@, at as int);
        }
        at < self.items.len() && !key.is_below(&self.items[at])
    }

    /// Adds a key; says whether it was new.
    pub fn insert(&mut self, key: K) -> (fresh: bool)
        requires
            old(self).wf(),
        ensures
            final(self).wf(),
            final(self)@ == old(self)@.insert(key@),
            fresh == !old(self)@.contains(key@),
            !fresh ==> final(self).order() == old(self).order(),
    {
        let ghost before = self.items@;
        let at: usize = rank_of(&self.items, &key);
        proof {
            lemma_found_at_rank(self.items@, key@, at as int);
        }
        if at < self.items.len() && !key.is_below(&self.items[at]) {
            assert(self@.insert(key@) =~= self@);
            return false;
        }
        let ghost after = before.insert(at as int, key);
        proof {
            lemma_insert_ascending(before, key, at as int);
        }
        self.items.insert(at, key);
        proof {
            assert(self@ =~= views(before).to_set().insert(key@)) by {
                lemma_insert_views(before, key, at as int);
            }
        }
        true
    }

    /// Takes a key out; says whether it was there.
    pub fn remove(&mut self, key: &K) -> (found: bool)
        requires
            old(self).wf(),
        ensures
            final(self).wf(),
            final(self)@ == old(self)@.remove(key@),
            found == old(self)@.contains(key@),
            !found ==> final(self).order() == old(self).order(),
    {
        let ghost before = self.items@;
        let at: usize = rank_of(&self.items, key);
        proof {
            lemma_found_at_rank(self.items@, key@, at as int);
        }
        if at < self.items.len() && !key.is_below(&self.items[at]) {
            proof {
                lemma_remove_ascending(before, at as int);
            }
            let _ = self.items.remove(at);
            proof {
                assert(self@ =~= views(before).to_set().remove(key@)) by {
                    lemma_remove_views(before, at as int);
                }
            }
            true
        } else {
            assert(self@.remove(key@) =~= self@);
            false
        }
    }
}

pub proof fn lemma_ascending_no_duplicates<K: Ordered>(items: Seq<K>)
    requires
        ascending(items),
    ensures
        views(items).no_duplicates(),
{
    let vs = views(items);
    assert forall|i: int, j: int| 0 <= i < vs.len() && 0 <= j < vs.len() && i != j implies vs[i]
        != vs[j] by {
        K::below_irreflexive(vs[i]);
        if i < j {
            assert(K::below(items[i]@, items[j]@));
        } else {
            assert(K::below(items[j]@, items[i]@));
        }
    }
}

proof fn lemma_insert_ascending<K: Ordered>(items: Seq<K>, key: K, at: int)
    requires
        ascending(items),
        0 <= at <= items.len(),
        forall|i: int| 0 <= i < at ==> #[trigger] K::below(items[i]@, key@),
        at < items.len() ==> K::below(key@, items[at]@),
    ensures
        ascending(items.insert(at, key)),
{
    let out = items.insert(at, key);
    assert forall|i: int, j: int| 0 <= i < j < out.len() implies #[trigger] K::below(
        out[i]@,
        out[j]@,
    ) by {
        let a = if i < at { i } else { i - 1 };
        let b = if j < at { j } else { j - 1 };
        if i != at && j != at {
            assert(out[i] == items[a] && out[j] == items[b]);
            assert(K::below(items[a]@, items[b]@));
        } else if j == at {
            assert(out[i] == items[i]);
        } else {
            assert(out[j] == items[b]);
            if b > at {
                assert(K::below(items[at]@, items[b]@));
                K::below_transitive(key@, items[at]@, items[b]@);
            }
        }
    }
}

proof fn lemma_insert_views<K: Ordered>(items: Seq<K>, key: K, at: int)
    requires
        0 <= at <= items.len(),
    ensures
        views(items.insert(at, key)).to_set() =~= views(items).to_set().insert(key@),
{
    let out = items.insert(at, key);
    assert forall|v: K::V| views(out).contains(v) <==> views(items).contains(v) || v == key@ by {
        if views(out).contains(v) {
            let i = choose|i: int| 0 <= i < views(out).len() && views(out)[i] == v;
            if i < at {
                assert(views(items)[i] == v);
            } else if i > at {
                assert(views(items)[i - 1] == v);
            }
        }
        if views(items).contains(v) {
            let i = choose|i: int| 0 <= i < views(items).len() && views(items)[i] == v;
            if i < at {
                assert(views(out)[i] == v);
            } else {
                assert(views(out)[i + 1] == v);
            }
        }
        assert(views(out)[at] == key@);
    }
}

proof fn lemma_remove_ascending<K: Ordered>(items: Seq<K>, at: int)
    requires
        ascending(items),
        0 <= at < items.len(),
    ensures
        ascending(items.remove(at)),
{
    let out = items.remove(at);
    assert forall|i: int, j: int| 0 <= i < j < out.len() implies #[trigger] K::below(
        out[i]@,
        out[j]@,
    ) by {
        let a = if i < at { i } else { i + 1 };
        let b = if j < at { j } else { j + 1 };
        assert(K::below(items[a]@, items[b]@));
    }
}

proof fn lemma_remove_views<K: Ordered>(items: Seq<K>, at: int)
    requires
        ascending(items),
        0 <= at < items.len(),
    ensures
        views(items.remove(at)).to_set() =~= views(items).to_set().remove(items[at]@),
{
    let out = items.remove(at);
    lemma_ascending_no_duplicates(items);
    assert forall|v: K::V|
        views(out).contains(v) <==> views(items).contains(v) && v != items[at]@ by {
        if views(out).contains(v) {
            let i = choose|i: int| 0 <= i < views(out).len() && views(out)[i] == v;
            let a = if i < at { i } else { i + 1 };
            assert(views(items)[a] == v);
            assert(views(items)[at] == items[at]@);
        }
        if views(items).contains(v) && v != items[at]@ {
            let i = choose|i: int| 0 <= i < views(items).len() && views(items)[i] == v;
            let a = if i < at { i } else { i - 1 };
            assert(views(out)[a] == v);
        }
    }
}

/// A map from keys to values, kept in ascending order of its keys.
pub struct SortedMap<K: Ordered, T> {
    keys: Vec<K>,
    values: Vec<T>,
}

/// The map that pairs the i-th key with the i-th value.
pub open spec fn paired<K: Ordered, T>(keys: Seq<K>, values: Seq<T>) -> Map<K::V, T> {
    Map::new(
        |k: K::V| views(keys).contains(k),
        |k: K::V| values[views(keys).index_of(k)],
    )
}

impl<K: Ordered, T> View for SortedMap<K, T> {
    type V = Map<K::V, T>;

    closed spec fn view(&self) -> Map<K::V, T> {
        paired(self.keys@, self.values@)
    }
}

impl<K: Ordered, T> SortedMap<K, T> {
    /// The keys stand in strictly ascending order, each with one value.
    pub closed spec fn wf(&self) -> bool {
        &&& ascending(self.keys@)
        &&& self.keys@.len() == self.values@.len()
    }

    /// The keys in ascending order.
    pub closed spec fn key_order(&self) -> Seq<K> {
        self.keys@
    }

    /// The values in the order of their keys.
    pub closed spec fn value_order(&self) -> Seq<T> {
        self.values@
    }

    /// What the two orders say of the map.
    pub proof fn lemma_orders(&self)
        requires
            self.wf(),
        ensures
            ascending(self.key_order()),
            self.key_order().len() == self.value_order().len(),
            views(self.key_order()).no_duplicates(),
            self@.dom() == views(self.key_order()).to_set(),
            self@.dom().finite(),
            self@.dom().len() == self.key_order().len(),
            forall|i: int|
                #![trigger self.key_order()[i]]
                #![trigger self.value_order()[i]]
                0 <= i < self.key_order().len() ==> self@.contains_pair(
                    self.key_order()[i]@,
                    self.value_order()[i],
                ),
    {
        lemma_paired(self.keys@, self.values@);
    }

    pub fn new() -> (m: Self)
        ensures
            m.wf(),
            m@ == Map::<K::V, T>::empty(),
            m.key_order() == Seq::<K>::empty(),
            m.value_order() == Seq::<T>::empty(),
    {
        let m = SortedMap { keys: Vec::new(), values: Vec::new() };
        assert(m@ =~= Map::<K::V, T>::empty());
        m
    }

    pub fn len(&self) -> (n: usize)
        requires
            self.wf(),
        ensures
            self@.dom().finite(),
            n == self@.dom().len(),
            n == self.key_order().len(),
            n == self.value_order().len(),
    {
        proof {
            self.lemma_orders();
        }
        self.keys.len()
    }

    pub proof fn lemma_len(&self)
        ensures
            self.key_order().len() <= usize::MAX,
    {
        assert(self.keys.len() <= usize::MAX);
    }

    /// The keys, ascending.
    pub fn keys(&self) -> (r: &Vec<K>)
        ensures
            r@ == self.key_order(),
    {
        &self.keys
    }

    /// The values alone, in the order of their keys.
    pub fn into_values(self) -> (r: Vec<T>)
        ensures
            r@ == self.value_order(),
    {
        self.values
    }

    /// The values, in the order of their keys.
    pub fn values(&self) -> (r: &Vec<T>)
        ensures
            r@ == self.value_order(),
    {
        &self.values
    }

    /// Where a key stands.
    pub fn position(&self, key: &K) -> (r: Option<usize>)
        requires
            self.wf(),
        ensures
            r is Some <==> self@.contains_key(key@),
            r matches Some(i) ==> {
                &&& i < self.key_order().len()
                &&& self.key_order()[i as int]@ == key@
                &&& self@[key@] == self.value_order()[i as int]
            },
    {
        let at: usize = rank_of(&self.keys, key);
        proof {
            lemma_found_at_rank(self.keys@, key@, at as int);
            lemma_paired(self.keys@, self.values@);
        }
        if at < self.keys.len() && !key.is_below(&self.keys[at]) {
            Some(at)
        } else {
            None
        }
    }

    pub fn get(&self, key: &K) -> (r: Option<&T>)
        requires
            self.wf(),
        ensures
            match r {
                Some(v) => self@.contains_key(key@) && self@[key@] == *v,
                None => !self@.contains_key(key@),
            },
    {
        match self.position(key) {
            Some(i) => Some(&self.values[i]),
            None => None,
        }
    }

    /// The value of a key, to be changed in place.
    pub fn get_mut(&mut self, key: &K) -> (r: Option<&mut T>)
        requires
            old(self).wf(),
        ensures
            final(self).wf(),
            final(self).key_order() == old(self).key_order(),
            match r {
                Some(v) => {
                    &&& old(self)@.contains_key(key@)
                    &&& *v == old(self)@[key@]
                    &&& final(self)@ == old(self)@.insert(key@, *final(v))
                },
                None => !old(self)@.contains_key(key@) && *final(self) == *old(self),
            },
    {
        match self.position(key) {
            Some(i) => {
                proof {
                    assert forall|value: T|
                        paired(self.keys@, self.values@.update(i as int, value))
                            == #[trigger] paired(self.keys@, self.values@).insert(
                            key@,
                            value,
                        ) by {
                        lemma_paired(self.keys@, self.values@);
                        let after = self.values@.update(i as int, value);
                        lemma_paired(self.keys@, after);
                        assert(paired(self.keys@, after) =~= paired(
                            self.keys@,
                            self.values@,
                        ).insert(key@, value));
                    }
                }
                Some(&mut self.values[i])
            },
            None => None,
        }
    }

    pub fn contains_key(&self, key: &K) -> (r: bool)
        requires
            self.wf(),
        ensures
            r == self@.contains_key(key@),
    {
        self.position(key).is_some()
    }

    /// Maps a key to a value, in place of what it was mapped to.
    pub fn insert(&mut self, key: K, value: T) -> (before: Option<T>)
        requires
            old(self).wf(),
        ensures
            final(self).wf(),
            final(self)@ == old(self)@.insert(key@, value),
            before == (if old(self)@.contains_key(key@) {
                Some(old(self)@[key@])
            } else {
                None
            }),
            old(self)@.contains_key(key@) ==> final(self).key_order() == old(self).key_order(),
    {
        let ghost ks = self.keys@;
        let ghost vs = self.values@;
        let at: usize = rank_of(&self.keys, &key);
        proof {
            lemma_found_at_rank(ks, key@, at as int);
            lemma_paired(ks, vs);
        }
        if at < self.keys.len() && !key.is_below(&self.keys[at]) {
            let mut spare: T = value;
            std::mem::swap(&mut self.values[at], &mut spare);
            proof {
                let after = vs.update(at as int, value);
                assert(self.values@ == after);
                lemma_paired(ks, after);
                assert(paired(ks, after) =~= paired(ks, vs).insert(key@, value));
            }
            Some(spare)
        } else {
            self.keys.insert(at, key);
            self.values.insert(at, value);
            proof {
                let ks2 = ks.insert(at as int, key);
                let vs2 = vs.insert(at as int, value);
                lemma_insert_ascending(ks, key, at as int);
                lemma_insert_views(ks, key, at as int);
                lemma_paired(ks2, vs2);
                let old_map = paired(ks, vs);
                let new_map = paired(ks2, vs2);
                assert(new_map.dom() =~= old_map.dom().insert(key@));
                assert forall|k: K::V| new_map.contains_key(k) implies new_map[k]
                    == old_map.insert(key@, value)[k] by {
                    assert(ks2[at as int]@ == key@);
                    if k == key@ {
                        assert(vs2[at as int] == value);
                    } else {
                        assert(views(ks).contains(k));
                        let i = views(ks).index_of(k);
                        let i2 = if i < at { i } else { i + 1 };
                        assert(ks[i]@ == k);
                        assert(ks2[i2]@ == k);
                        assert(vs2[i2] == vs[i]);
                    }
                }
                assert(new_map =~= old_map.insert(key@, value));
            }
            None
        }
    }

    /// Takes out the key at a place, and its value.
    pub fn remove_at(&mut self, at: usize) -> (value: T)
        requires
            old(self).wf(),
            at < old(self).key_order().len(),
        ensures
            final(self).wf(),
            final(self)@ == old(self)@.remove(old(self).key_order()[at as int]@),
            final(self).key_order() == old(self).key_order().remove(at as int),
            final(self).value_order() == old(self).value_order().remove(at as int),
            value == old(self).value_order()[at as int],
    {
        let ghost ks = self.keys@;
        let ghost vs = self.values@;
        let _ = self.keys.remove(at);
        let value = self.values.remove(at);
        proof {
            lemma_paired_remove(ks, vs, at as int);
        }
        value
    }

    /// Takes a key and its value out.
    pub fn remove(&mut self, key: &K) -> (before: Option<T>)
        requires
            old(self).wf(),
        ensures
            final(self).wf(),
            final(self)@ == old(self)@.remove(key@),
            before == (if old(self)@.contains_key(key@) {
                Some(old(self)@[key@])
            } else {
                None
            }),
    {
        match self.position(key) {
            Some(at) => {
                let value = self.remove_at(at);
                Some(value)
            },
            None => {
                assert(self@.remove(key@) =~= self@);
                None
            },
        }
    }
}

proof fn lemma_paired_remove<K: Ordered, T>(keys: Seq<K>, values: Seq<T>, at: int)
    requires
        ascending(keys),
        keys.len() == values.len(),
        0 <= at < keys.len(),
    ensures
        ascending(keys.remove(at)),
        paired(keys.remove(at), values.remove(at)) == paired(keys, values).remove(keys[at]@),
{
    let ks2 = keys.remove(at);
    let vs2 = values.remove(at);
    lemma_remove_ascending(keys, at);
    lemma_remove_views(keys, at);
    lemma_paired(keys, values);
    lemma_paired(ks2, vs2);
    let old_map = paired(keys, values);
    let new_map = paired(ks2, vs2);
    assert(new_map.dom() =~= old_map.dom().remove(keys[at]@));
    assert forall|k: K::V| new_map.contains_key(k) implies new_map[k] == old_map[k] by {
        let i2 = views(ks2).index_of(k);
        let i = if i2 < at { i2 } else { i2 + 1 };
        assert(ks2[i2]@ == k);
        assert(keys[i]@ == k);
        assert(vs2[i2] == values[i]);
    }
    assert(new_map =~= old_map.remove(keys[at]@));
}

proof fn lemma_paired<K: Ordered, T>(keys: Seq<K>, values: Seq<T>)
    requires
        ascending(keys),
        keys.len() == values.len(),
    ensures
        views(keys).no_duplicates(),
        paired(keys, values).dom() == views(keys).to_set(),
        paired(keys, values).dom().finite(),
        paired(keys, values).dom().len() == keys.len(),
        forall|i: int|
            #![trigger keys[i]]
            #![trigger values[i]]
            0 <= i < keys.len() ==> paired(keys, values).contains_pair(keys[i]@, values[i]),
{
    lemma_ascending_no_duplicates(keys);
    let vs = views(keys);
    assert(paired(keys, values).dom() =~= vs.to_set());
    vs.unique_seq_to_set();
    assert forall|i: int|
        #![trigger keys[i]]
        #![trigger values[i]]
        0 <= i < keys.len() implies paired(keys, values).contains_pair(keys[i]@, values[i]) by {
        assert(vs[i] == keys[i]@);
        assert(vs.contains(keys[i]@));
        let j = vs.index_of(keys[i]@);
        assert(vs[j] == vs[i]);
    }
}

/// Keys that stand in ascending order are determined by which keys they are.
pub proof fn lemma_ascending_unique<K: Ordered>(a: Seq<K>, b: Seq<K>)
    requires
        ascending(a),
        ascending(b),
        forall|v: K::V| #[trigger] views(a).contains(v) <==> views(b).contains(v),
    ensures
        views(a) == views(b),
    decreases a.len(),
{
    if a.len() == 0 {
        if b.len() > 0 {
            assert(views(b)[0] == b[0]@);
            assert(views(b).contains(b[0]@));
            assert(views(a).contains(b[0]@));
        }
        assert(views(a) =~= views(b));
    } else {
        assert(views(a)[0] == a[0]@);
        assert(views(a).contains(a[0]@));
        assert(views(b).contains(a[0]@));
        let x = a.last()@;
        let y = b.last()@;
        assert(views(a)[a.len() - 1] == x);
        assert(views(b)[b.len() - 1] == y);
        assert(views(a).contains(x));
        assert(views(b).contains(y));
        assert(views(b).contains(x));
        assert(views(a).contains(y));
        let j = choose|j: int| 0 <= j < views(b).len() && views(b)[j] == x;
        let i = choose|i: int| 0 <= i < views(a).len() && views(a)[i] == y;
        assert(b[j]@ == x && a[i]@ == y);
        if j < b.len() - 1 {
            assert(K::below(b[j]@, b[b.len() - 1]@));
            if i < a.len() - 1 {
                assert(K::below(a[i]@, a[a.len() - 1]@));
                K::below_transitive(x, y, x);
            }
            K::below_irreflexive(x);
        }
        assert(x == y);
        lemma_ascending_no_duplicates(a);
        lemma_ascending_no_duplicates(b);
        let a1 = a.drop_last();
        let b1 = b.drop_last();
        assert(ascending(a1)) by {
            assert forall|p: int, q: int| 0 <= p < q < a1.len() implies #[trigger] K::below(
                a1[p]@,
                a1[q]@,
            ) by {
                assert(K::below(a[p]@, a[q]@));
            }
        }
        assert(ascending(b1)) by {
            assert forall|p: int, q: int| 0 <= p < q < b1.len() implies #[trigger] K::below(
                b1[p]@,
                b1[q]@,
            ) by {
                assert(K::below(b[p]@, b[q]@));
            }
        }
        lemma_front_members(a, x);
        lemma_front_members(b, x);
        assert forall|v: K::V| #[trigger] views(a1).contains(v) <==> views(b1).contains(v) by {
            assert(views(a).contains(v) <==> views(b).contains(v));
        }
        lemma_ascending_unique(a1, b1);
        assert(views(a) =~= views(a1).push(x));
        assert(views(b) =~= views(b1).push(x));
    }
}

proof fn lemma_front_members<K: Ordered>(a: Seq<K>, x: K::V)
    requires
        a.len() > 0,
        a.last()@ == x,
        views(a).no_duplicates(),
    ensures
        forall|v: K::V| #[trigger]
            views(a.drop_last()).contains(v) <==> views(a).contains(v) && v != x,
{
    let a1 = a.drop_last();
    assert forall|v: K::V| #[trigger] views(a1).contains(v) <==> views(a).contains(v) && v
        != x by {
        if views(a1).contains(v) {
            let i = choose|i: int| 0 <= i < views(a1).len() && views(a1)[i] == v;
            assert(views(a)[i] == v);
            assert(views(a)[a.len() - 1] == x);
        }
        if views(a).contains(v) && v != x {
            let i = choose|i: int| 0 <= i < views(a).len() && views(a)[i] == v;
            assert(views(a)[a.len() - 1] == x);
            assert(views(a1)[i] == v);
        }
    }
}

} // verus!
