use vstd::prelude::*;
use vstd::string::StringExecFns;

use crate::key::CacheKey;
use crate::meter::{Count, Meter};

verus! {

/// One cached mapping, with the weight its meter gave it when it was last inserted.
pub struct Entry<K, V> {
    pub key: K,
    pub value: V,
    pub weight: usize,
}

/// The sum of the weights of `s`.
pub open spec fn total<K, V>(s: Seq<Entry<K, V>>) -> nat
    decreases s.len(),
{
    if s.len() == 0 {
        0
    } else {
        s[0].weight as nat + total(s.drop_first())
    }
}

/// Whether some entry of `s` has the key `k`.
pub open spec fn has_key<K: View, V>(s: Seq<Entry<K, V>>, k: K::V) -> bool {
    exists|i: int| 0 <= i < s.len() && s[i].key@ == k
}

/// The position of the entry with key `k` in `s`, or -1.
pub open spec fn key_index<K: View, V>(s: Seq<Entry<K, V>>, k: K::V) -> int {
    if has_key(s, k) {
        choose|i: int| 0 <= i < s.len() && s[i].key@ == k
    } else {
        -1
    }
}

/// No two entries of `s` share a key.
pub open spec fn keys_distinct<K: View, V>(s: Seq<Entry<K, V>>) -> bool {
    forall|i: int, j: int| 0 <= i < s.len() && 0 <= j < s.len() && i != j ==> s[i].key@ != s[j].key@
}

/// The value stored under `k` in `s`.
pub open spec fn value_of<K: View, V>(s: Seq<Entry<K, V>>, k: K::V) -> Option<V> {
    if has_key(s, k) {
        Some(s[key_index(s, k)].value)
    } else {
        None
    }
}

/// `s` without the entry of key `k`.
pub open spec fn without_key<K: View, V>(s: Seq<Entry<K, V>>, k: K::V) -> Seq<Entry<K, V>> {
    if has_key(s, k) {
        s.remove(key_index(s, k))
    } else {
        s
    }
}

/// `s` with the entry of key `k` moved to the most recent end.
pub open spec fn promoted<K: View, V>(s: Seq<Entry<K, V>>, k: K::V) -> Seq<Entry<K, V>> {
    if has_key(s, k) {
        s.remove(key_index(s, k)).push(s[key_index(s, k)])
    } else {
        s
    }
}

/// `s` after dropping least recent entries while its total weight exceeds `cap`; under a
/// capacity of zero every entry is dropped.
pub open spec fn evicted<K, V>(s: Seq<Entry<K, V>>, cap: nat) -> Seq<Entry<K, V>>
    decreases s.len(),
{
    if s.len() == 0 || (cap > 0 && total(s) <= cap) {
        s
    } else {
        evicted(s.drop_first(), cap)
    }
}

/// `s` after recording `e` as the most recent entry, then evicting down to `cap`.
pub open spec fn inserted<K: View, V>(s: Seq<Entry<K, V>>, e: Entry<K, V>, cap: nat) -> Seq<
    Entry<K, V>,
> {
    evicted(without_key(s, e.key@).push(e), cap)
}

pub proof fn lemma_total_push<K, V>(s: Seq<Entry<K, V>>, e: Entry<K, V>)
    ensures
        total(s.push(e)) == total(s) + e.weight,
    decreases s.len(),
{
    if s.len() == 0 {
        assert(s.push(e).drop_first() =~= s);
    } else {
        assert(s.push(e).drop_first() =~= s.drop_first().push(e));
        lemma_total_push(s.drop_first(), e);
    }
}

pub proof fn lemma_total_remove<K, V>(s: Seq<Entry<K, V>>, i: int)
    requires
        0 <= i < s.len(),
    ensures
        total(s.remove(i)) + s[i].weight == total(s),
    decreases i,
{
    if i == 0 {
        assert(s.remove(0) =~= s.drop_first());
    } else {
        assert(s.remove(i).drop_first() =~= s.drop_first().remove(i - 1));
        lemma_total_remove(s.drop_first(), i - 1);
    }
}

pub proof fn lemma_key_index<K: View, V>(s: Seq<Entry<K, V>>, i: int)
    requires
        keys_distinct(s),
        0 <= i < s.len(),
    ensures
        has_key(s, s[i].key@),
        key_index(s, s[i].key@) == i,
{
    assert(has_key(s, s[i].key@));
}

pub proof fn lemma_distinct_remove<K: View, V>(s: Seq<Entry<K, V>>, i: int)
    requires
        keys_distinct(s),
        0 <= i < s.len(),
    ensures
        keys_distinct(s.remove(i)),
        !has_key(s.remove(i), s[i].key@),
        forall|k: K::V| k != s[i].key@ ==> (has_key(s.remove(i), k) == has_key(s, k)),
{
    let r = s.remove(i);
    assert forall|a: int, b: int| 0 <= a < r.len() && 0 <= b < r.len() && a != b implies r[a].key@
        != r[b].key@ by {
        let a2 = if a < i { a } else { a + 1 };
        let b2 = if b < i { b } else { b + 1 };
        assert(r[a] == s[a2]);
        assert(r[b] == s[b2]);
    }
    if has_key(r, s[i].key@) {
        let a = choose|a: int| 0 <= a < r.len() && r[a].key@ == s[i].key@;
        let a2 = if a < i { a } else { a + 1 };
        assert(r[a] == s[a2]);
    }
    assert forall|k: K::V| k != s[i].key@ implies (has_key(r, k) == has_key(s, k)) by {
        if has_key(s, k) {
            let a = choose|a: int| 0 <= a < s.len() && s[a].key@ == k;
            let a2 = if a < i { a } else { a - 1 };
            assert(r[a2] == s[a]);
        }
        if has_key(r, k) {
            let a = choose|a: int| 0 <= a < r.len() && r[a].key@ == k;
            let a2 = if a < i { a } else { a + 1 };
            assert(r[a] == s[a2]);
        }
    }
}

pub proof fn lemma_distinct_push<K: View, V>(s: Seq<Entry<K, V>>, e: Entry<K, V>)
    requires
        keys_distinct(s),
        !has_key(s, e.key@),
    ensures
        keys_distinct(s.push(e)),
{
    let r = s.push(e);
    assert forall|a: int, b: int| 0 <= a < r.len() && 0 <= b < r.len() && a != b implies r[a].key@
        != r[b].key@ by {
        if a < s.len() && b < s.len() {
            assert(r[a] == s[a] && r[b] == s[b]);
        } else if a < s.len() {
            assert(r[a] == s[a]);
        } else {
            assert(r[b] == s[b]);
        }
    }
}

pub proof fn lemma_update_value<K: View, V>(s: Seq<Entry<K, V>>, i: int, v: V)
    requires
        keys_distinct(s),
        0 <= i < s.len(),
    ensures
        keys_distinct(s.update(i, Entry { key: s[i].key, value: v, weight: s[i].weight })),
        total(s.update(i, Entry { key: s[i].key, value: v, weight: s[i].weight })) == total(s),
    decreases i,
{
    let u = s.update(i, Entry { key: s[i].key, value: v, weight: s[i].weight });
    assert forall|a: int, b: int| 0 <= a < u.len() && 0 <= b < u.len() && a != b implies u[a].key@
        != u[b].key@ by {
        assert(u[a].key == s[a].key && u[b].key == s[b].key);
    }
    if i > 0 {
        lemma_distinct_drop_first(s);
        lemma_update_value(s.drop_first(), i - 1, v);
        assert(u.drop_first() =~= s.drop_first().update(
            i - 1,
            Entry { key: s[i].key, value: v, weight: s[i].weight },
        ));
    } else {
        assert(u.drop_first() =~= s.drop_first());
    }
}

pub proof fn lemma_distinct_drop_first<K: View, V>(s: Seq<Entry<K, V>>)
    requires
        keys_distinct(s),
        s.len() > 0,
    ensures
        keys_distinct(s.drop_first()),
{
    assert(s.drop_first() =~= s.remove(0));
    lemma_distinct_remove(s, 0);
}

/// Every entry of `s` satisfies `p`.
pub open spec fn all_entries<K, V>(s: Seq<Entry<K, V>>, p: spec_fn(Entry<K, V>) -> bool) -> bool {
    forall|i: int| 0 <= i < s.len() ==> #[trigger] p(s[i])
}

/// Eviction keeps a suffix of the entries, whose total weight is within `cap`.
pub proof fn lemma_evicted_suffix<K, V>(s: Seq<Entry<K, V>>, cap: nat) -> (n: int)
    ensures
        0 <= n <= s.len(),
        evicted(s, cap) == s.skip(n),
        total(evicted(s, cap)) <= cap,
        cap == 0 ==> evicted(s, cap).len() == 0,
    decreases s.len(),
{
    if s.len() == 0 {
        assert(s.skip(0) =~= s);
        0
    } else if cap > 0 && total(s) <= cap {
        assert(s.skip(0) =~= s);
        0
    } else {
        let m = lemma_evicted_suffix(s.drop_first(), cap);
        assert(s.drop_first().skip(m) =~= s.skip(m + 1));
        m + 1
    }
}

proof fn lemma_all_skip<K, V>(s: Seq<Entry<K, V>>, n: int, p: spec_fn(Entry<K, V>) -> bool)
    requires
        all_entries(s, p),
        0 <= n <= s.len(),
    ensures
        all_entries(s.skip(n), p),
{
    assert forall|i: int| 0 <= i < s.skip(n).len() implies #[trigger] p(s.skip(n)[i]) by {
        assert(s.skip(n)[i] == s[i + n]);
    }
}

proof fn lemma_all_remove<K, V>(s: Seq<Entry<K, V>>, i: int, p: spec_fn(Entry<K, V>) -> bool)
    requires
        all_entries(s, p),
        0 <= i < s.len(),
    ensures
        all_entries(s.remove(i), p),
{
    let r = s.remove(i);
    assert forall|a: int| 0 <= a < r.len() implies #[trigger] p(r[a]) by {
        let a2 = if a < i { a } else { a + 1 };
        assert(r[a] == s[a2]);
    }
}

proof fn lemma_all_push<K, V>(s: Seq<Entry<K, V>>, e: Entry<K, V>, p: spec_fn(Entry<K, V>) -> bool)
    requires
        all_entries(s, p),
        p(e),
    ensures
        all_entries(s.push(e), p),
{
    let r = s.push(e);
    assert forall|a: int| 0 <= a < r.len() implies #[trigger] p(r[a]) by {
        if a < s.len() {
            assert(r[a] == s[a]);
        }
    }
}

/// A property held by every entry is kept by eviction.
pub proof fn lemma_evicted_all<K, V>(s: Seq<Entry<K, V>>, cap: nat, p: spec_fn(Entry<K, V>) -> bool)
    requires
        all_entries(s, p),
    ensures
        all_entries(evicted(s, cap), p),
{
    let n = lemma_evicted_suffix(s, cap);
    lemma_all_skip(s, n, p);
}

/// A property held by every entry and by `e` holds of every entry after inserting `e`.
pub proof fn lemma_inserted_all<K: View, V>(
    s: Seq<Entry<K, V>>,
    e: Entry<K, V>,
    cap: nat,
    p: spec_fn(Entry<K, V>) -> bool,
)
    requires
        all_entries(s, p),
        p(e),
    ensures
        all_entries(inserted(s, e, cap), p),
{
    let w = without_key(s, e.key@);
    if has_key(s, e.key@) {
        lemma_all_remove(s, key_index(s, e.key@), p);
    }
    lemma_all_push(w, e, p);
    lemma_evicted_all(w.push(e), cap, p);
}

/// A property held by every entry is kept by removing a key.
pub proof fn lemma_without_all<K: View, V>(
    s: Seq<Entry<K, V>>,
    k: K::V,
    p: spec_fn(Entry<K, V>) -> bool,
)
    requires
        all_entries(s, p),
    ensures
        all_entries(without_key(s, k), p),
{
    if has_key(s, k) {
        lemma_all_remove(s, key_index(s, k), p);
    }
}

/// A property held by every entry is kept by promoting a key.
pub proof fn lemma_promoted_all<K: View, V>(
    s: Seq<Entry<K, V>>,
    k: K::V,
    p: spec_fn(Entry<K, V>) -> bool,
)
    requires
        all_entries(s, p),
    ensures
        all_entries(promoted(s, k), p),
{
    if has_key(s, k) {
        let i = key_index(s, k);
        assert(p(s[i]));
        lemma_all_remove(s, i, p);
        lemma_all_push(s.remove(i), s[i], p);
    }
}

proof fn lemma_evicted_keeps_light_last<K, V>(t: Seq<Entry<K, V>>, cap: nat)
    requires
        t.len() > 0,
        t.last().weight <= cap,
        cap > 0,
    ensures
        evicted(t, cap).len() > 0,
        evicted(t, cap).last() == t.last(),
    decreases t.len(),
{
    if t.len() == 1 {
        assert(t.drop_first().len() == 0);
        assert(total(t.drop_first()) == 0);
        assert(total(t) == t[0].weight);
    } else if total(t) > cap {
        assert(t.drop_first().last() == t.last());
        lemma_evicted_keeps_light_last(t.drop_first(), cap);
    }
}

/// Inserting a key keeps keys unique: the new entry, if it was not itself evicted, is the most
/// recent one and holds the new value, and it is kept whenever it alone fits a capacity that is
/// not zero. No
/// key appears that was not there before, but the inserted one.
pub proof fn lemma_insert_replaces<K: View, V>(s: Seq<Entry<K, V>>, e: Entry<K, V>, cap: nat)
    requires
        keys_distinct(s),
    ensures
        keys_distinct(inserted(s, e, cap)),
        has_key(inserted(s, e, cap), e.key@) ==> inserted(s, e, cap).last() == e && value_of(
            inserted(s, e, cap),
            e.key@,
        ) == Some(e.value),
        0 < cap && e.weight <= cap ==> has_key(inserted(s, e, cap), e.key@),
        forall|k: K::V| k != e.key@ && #[trigger] has_key(inserted(s, e, cap), k) ==> has_key(s, k),
{
    let w = without_key(s, e.key@);
    let t = w.push(e);
    if has_key(s, e.key@) {
        lemma_distinct_remove(s, key_index(s, e.key@));
    }
    lemma_distinct_push(w, e);
    let n = lemma_evicted_suffix(t, cap);
    let r = inserted(s, e, cap);
    assert(r == t.skip(n));
    assert forall|a: int, b: int| 0 <= a < r.len() && 0 <= b < r.len() && a != b implies r[a].key@
        != r[b].key@ by {
        assert(r[a] == t[a + n] && r[b] == t[b + n]);
    }
    if has_key(r, e.key@) {
        let a = choose|a: int| 0 <= a < r.len() && r[a].key@ == e.key@;
        assert(r[a] == t[a + n]);
        assert(t[t.len() - 1] == e);
        assert(a + n == t.len() - 1);
        assert(r.last() == e);
        lemma_key_index(r, r.len() - 1);
    }
    if 0 < cap && e.weight <= cap {
        lemma_evicted_keeps_light_last(t, cap);
        assert(r[r.len() - 1] == e);
    }
    assert forall|k: K::V| k != e.key@ && #[trigger] has_key(r, k) implies has_key(s, k) by {
        let a = choose|a: int| 0 <= a < r.len() && r[a].key@ == k;
        assert(r[a] == t[a + n]);
        assert(a + n < t.len() - 1);
        assert(w[a + n].key@ == k);
        assert(has_key(w, k));
    }
}

/// A lookup finds a value exactly when the key is present: `get` returns a value exactly when
/// `contains_key` would have answered `true` just before.
pub proof fn lemma_lookup_agrees<K: View, V>(s: Seq<Entry<K, V>>, k: K::V)
    ensures
        value_of(s, k).is_some() == has_key(s, k),
{
}

/// Reading a present key makes it the most recent entry, keeping every entry and key unique.
pub proof fn lemma_promoted_head<K: View, V>(s: Seq<Entry<K, V>>, k: K::V)
    requires
        keys_distinct(s),
        has_key(s, k),
    ensures
        promoted(s, k).len() == s.len(),
        promoted(s, k).last().key@ == k,
        keys_distinct(promoted(s, k)),
        forall|j: K::V| #[trigger] has_key(promoted(s, k), j) == has_key(s, j),
{
    let i = key_index(s, k);
    lemma_distinct_remove(s, i);
    lemma_distinct_push(s.remove(i), s[i]);
    let p = promoted(s, k);
    assert forall|j: K::V| #[trigger] has_key(p, j) == has_key(s, j) by {
        if j == k {
            assert(p[p.len() - 1].key@ == k);
        } else {
            if has_key(s.remove(i), j) {
                let a = choose|a: int| 0 <= a < s.remove(i).len() && s.remove(i)[a].key@ == j;
                assert(p[a] == s.remove(i)[a]);
            }
            if has_key(p, j) {
                let a = choose|a: int| 0 <= a < p.len() && p[a].key@ == j;
                assert(a < p.len() - 1);
                assert(p[a] == s.remove(i)[a]);
            }
        }
    }
}

proof fn lemma_same_keys_weights<K: View, V>(s: Seq<Entry<K, V>>, t: Seq<Entry<K, V>>)
    requires
        s.len() == t.len(),
        forall|i: int| 0 <= i < s.len() ==> #[trigger] t[i].key == s[i].key && t[i].weight == s[i].weight,
    ensures
        keys_distinct(s) ==> keys_distinct(t),
        total(t) == total(s),
    decreases s.len(),
{
    if s.len() > 0 {
        assert forall|i: int| 0 <= i < s.drop_first().len() implies #[trigger] t.drop_first()[i].key
            == s.drop_first()[i].key && t.drop_first()[i].weight == s.drop_first()[i].weight by {
            assert(t.drop_first()[i] == t[i + 1] && s.drop_first()[i] == s[i + 1]);
        }
        lemma_same_keys_weights(s.drop_first(), t.drop_first());
    }
    if keys_distinct(s) {
        assert forall|a: int, b: int| 0 <= a < t.len() && 0 <= b < t.len() && a != b implies t[a].key@
            != t[b].key@ by {
            assert(t[a].key == s[a].key && t[b].key == s[b].key);
        }
    }
}

/// A mapping bounded by the total weight of its entries, evicting least recently used entries.
///
/// Its view lists the entries from least recent to most recent.
pub struct LruCache<K, V, M = Count> {
    entries: Vec<Entry<K, V>>,
    current: u64,
    max_capacity: u64,
    meter: M,
}

impl<K: View, V, M> View for LruCache<K, V, M> {
    type V = Seq<Entry<K, V>>;

    closed spec fn view(&self) -> Seq<Entry<K, V>> {
        self.entries@
    }
}

impl<K: CacheKey, V> LruCache<K, V, Count> {
    /// An empty cache holding at most `capacity` entries.
    pub fn new(capacity: u64) -> (r: Self)
        ensures
            r.wf(),
            r@ == Seq::<Entry<K, V>>::empty(),
            r.capacity_spec() == capacity,
    {
        LruCache { entries: Vec::new(), current: 0, max_capacity: capacity, meter: Count }
    }
}

impl<K: CacheKey, V, M: Meter<K, V>> LruCache<K, V, M> {
    /// The bound on the total weight.
    pub closed spec fn capacity_spec(&self) -> u64 {
        self.max_capacity
    }

    /// The weight policy.
    pub closed spec fn meter_spec(&self) -> M {
        self.meter
    }

    /// Keys are unique, the running total is the sum of the weights, and it is within capacity.
    pub closed spec fn wf(&self) -> bool {
        &&& keys_distinct(self.entries@)
        &&& self.current == total(self.entries@)
        &&& self.current <= self.max_capacity
        &&& self.max_capacity == 0 ==> self.entries@.len() == 0
    }

    /// The total weight of the entries never exceeds the capacity, and a cache of capacity zero
    /// is empty.
    pub proof fn lemma_within_capacity(&self)
        requires
            self.wf(),
        ensures
            keys_distinct(self@),
            total(self@) <= self.capacity_spec(),
            self.capacity_spec() == 0 ==> self@.len() == 0,
    {
    }

    /// An empty cache whose total weight, as `meter` measures it, stays within `capacity`.
    pub fn with_meter(capacity: u64, meter: M) -> (r: Self)
        ensures
            r.wf(),
            r@ == Seq::<Entry<K, V>>::empty(),
            r.capacity_spec() == capacity,
            r.meter_spec() == meter,
    {
        LruCache { entries: Vec::new(), current: 0, max_capacity: capacity, meter }
    }

    /// The number of entries.
    pub fn len(&self) -> (r: usize)
        ensures
            r == self@.len(),
    {
        self.entries.len()
    }

    /// Whether the cache holds no entry.
    pub fn is_empty(&self) -> (r: bool)
        ensures
            r == (self@.len() == 0),
    {
        self.entries.len() == 0
    }

    /// The total weight of the entries.
    pub fn size(&self) -> (r: u64)
        requires
            self.wf(),
        ensures
            r == total(self@),
    {
        self.current
    }

    /// The bound on the total weight.
    pub fn capacity(&self) -> (r: u64)
        ensures
            r == self.capacity_spec(),
    {
        self.max_capacity
    }

    /// The position of the entry with key `k`, if any.
    fn find(&self, k: &K) -> (r: Option<usize>)
        requires
            self.wf(),
        ensures
            match r {
                Some(i) => i < self@.len() && has_key(self@, k@) && key_index(self@, k@) == i
                    && self@[i as int].key@ == k@,
                None => !has_key(self@, k@),
            },
    {
        let mut i: usize = 0;
        while i < self.entries.len()
            invariant
                keys_distinct(self.entries@),
                i <= self.entries@.len(),
                forall|j: int| 0 <= j < i ==> self.entries@[j].key@ != k@,
            decreases self.entries@.len() - i,
        {
            if self.entries[i].key.same_key(k) {
                proof {
                    lemma_key_index(self.entries@, i as int);
                }
                return Some(i);
            }
            i = i + 1;
        }
        None
    }

    /// Whether an entry has key `k`; the order of recency is left as it is.
    pub fn contains_key(&self, k: &K) -> (r: bool)
        requires
            self.wf(),
        ensures
            r == has_key(self@, k@),
    {
        self.find(k).is_some()
    }

    /// The value under `k`, without promoting it.
    pub fn peek(&self, k: &K) -> (r: Option<&V>)
        requires
            self.wf(),
        ensures
            r.is_some() == has_key(self@, k@),
            r.is_some() ==> Some(*r.unwrap()) == value_of(self@, k@),
    {
        match self.find(k) {
            Some(i) => Some(&self.entries[i].value),
            None => None,
        }
    }

    /// Drops least recent entries until the total weight is within capacity.
    fn evict_to(&mut self, running: u128)
        requires
            keys_distinct(old(self).entries@),
            running == total(old(self).entries@),
        ensures
            final(self).wf(),
            final(self)@ == evicted(old(self)@, old(self).max_capacity as nat),
            final(self).max_capacity == old(self).max_capacity,
            final(self).meter == old(self).meter,
    {
        let mut t: u128 = running;
        while t > self.max_capacity as u128 || (self.max_capacity == 0 && self.entries.len() > 0)
            invariant
                keys_distinct(self.entries@),
                t == total(self.entries@),
                evicted(self.entries@, self.max_capacity as nat) == evicted(
                    old(self).entries@,
                    old(self).max_capacity as nat,
                ),
                self.max_capacity == old(self).max_capacity,
                self.meter == old(self).meter,
            decreases self.entries@.len(),
        {
            let ghost s = self.entries@;
            proof {
                if s.len() == 0 {
                    assert(total(s) == 0);
                }
                assert(evicted(s, self.max_capacity as nat) == evicted(s.drop_first(), self.max_capacity as nat));
                lemma_distinct_drop_first(s);
                assert(s.remove(0) =~= s.drop_first());
            }
            let e = self.entries.remove(0);
            t = t - e.weight as u128;
        }
        self.current = t as u64;
    }

    /// Moves the entry at `i` to the most recent end.
    fn move_to_head(&mut self, i: usize)
        requires
            old(self).wf(),
            i < old(self)@.len(),
        ensures
            final(self).wf(),
            final(self)@ == old(self)@.remove(i as int).push(old(self)@[i as int]),
            final(self).max_capacity == old(self).max_capacity,
            final(self).meter == old(self).meter,
    {
        let ghost s = self.entries@;
        let e = self.entries.remove(i);
        proof {
            lemma_distinct_remove(s, i as int);
            lemma_distinct_push(s.remove(i as int), e);
            lemma_total_remove(s, i as int);
            lemma_total_push(s.remove(i as int), e);
        }
        self.entries.push(e);
    }

    /// Records `v` under `k` as the most recent entry, weighed by the meter, then evicts least
    /// recent entries while the total weight exceeds the capacity; the new entry itself is evicted
    /// when it alone is heavier than the capacity, and under a capacity of zero nothing stays.
    /// Returns the value that `k` had before.
    pub fn insert(&mut self, k: K, v: V) -> (r: Option<V>)
        requires
            old(self).wf(),
        ensures
            final(self).wf(),
            r == value_of(old(self)@, k@),
            final(self)@ == inserted(
                old(self)@,
                Entry { key: k, value: v, weight: old(self).meter_spec().measure_spec(&k, &v) },
                old(self).capacity_spec() as nat,
            ),
            final(self).capacity_spec() == old(self).capacity_spec(),
            final(self).meter_spec() == old(self).meter_spec(),
    {
        let w = self.meter.measure(&k, &v);
        let ghost s = self.entries@;
        let mut t: u128 = self.current as u128;
        let previous = match self.find(&k) {
            Some(i) => {
                proof {
                    lemma_distinct_remove(s, i as int);
                    lemma_total_remove(s, i as int);
                }
                let e = self.entries.remove(i);
                t = t - e.weight as u128;
                Some(e.value)
            },
            None => None,
        };
        let ghost rest = self.entries@;
        assert(rest == without_key(s, k@));
        let e = Entry { key: k, value: v, weight: w };
        proof {
            lemma_distinct_push(rest, e);
            lemma_total_push(rest, e);
        }
        self.entries.push(e);
        t = t + w as u128;
        self.evict_to(t);
        previous
    }

    /// The value under `k`, promoting its entry to most recent.
    pub fn get(&mut self, k: &K) -> (r: Option<&V>)
        requires
            old(self).wf(),
        ensures
            final(self).wf(),
            final(self)@ == promoted(old(self)@, k@),
            r.is_some() == has_key(old(self)@, k@),
            r.is_some() ==> Some(*r.unwrap()) == value_of(old(self)@, k@),
            final(self).capacity_spec() == old(self).capacity_spec(),
            final(self).meter_spec() == old(self).meter_spec(),
    {
        match self.find(k) {
            Some(i) => {
                self.move_to_head(i);
                let last = self.entries.len() - 1;
                Some(&self.entries[last].value)
            },
            None => None,
        }
    }

    /// A mutable reference to the value under `k`, promoting its entry to most recent. The
    /// entry keeps its weight whatever is written through the reference.
    pub fn get_mut(&mut self, k: &K) -> (r: Option<&mut V>)
        requires
            old(self).wf(),
        ensures
            final(self).wf(),
            final(self).capacity_spec() == old(self).capacity_spec(),
            final(self).meter_spec() == old(self).meter_spec(),
            match r {
                Some(x) => {
                    &&& has_key(old(self)@, k@)
                    &&& Some(*x) == value_of(old(self)@, k@)
                    &&& final(self)@ == promoted(old(self)@, k@).update(
                        old(self)@.len() - 1,
                        Entry {
                            key: old(self)@[key_index(old(self)@, k@)].key,
                            value: *final(x),
                            weight: old(self)@[key_index(old(self)@, k@)].weight,
                        },
                    )
                },
                None => !has_key(old(self)@, k@) && final(self)@ == old(self)@,
            },
    {
        match self.find(k) {
            Some(i) => {
                self.move_to_head(i);
                let last = self.entries.len() - 1;
                proof {
                    let s = self.entries@;
                    assert forall|v: V|
                        #![trigger s.update(last as int, Entry { key: s[last as int].key, value: v, weight: s[last as int].weight })]
                        keys_distinct(s.update(last as int, Entry { key: s[last as int].key, value: v, weight: s[last as int].weight }))
                        && total(s.update(last as int, Entry { key: s[last as int].key, value: v, weight: s[last as int].weight })) == total(s) by {
                        lemma_update_value(s, last as int, v);
                    }
                }
                Some(&mut self.entries[last].value)
            },
            None => None,
        }
    }

    /// Removes the entry of key `k` and returns its value.
    pub fn remove(&mut self, k: &K) -> (r: Option<V>)
        requires
            old(self).wf(),
        ensures
            final(self).wf(),
            r == value_of(old(self)@, k@),
            final(self)@ == without_key(old(self)@, k@),
            final(self).capacity_spec() == old(self).capacity_spec(),
            final(self).meter_spec() == old(self).meter_spec(),
    {
        match self.find(k) {
            Some(i) => {
                proof {
                    lemma_distinct_remove(self.entries@, i as int);
                    lemma_total_remove(self.entries@, i as int);
                }
                let e = self.entries.remove(i);
                self.current = self.current - e.weight as u64;
                Some(e.value)
            },
            None => None,
        }
    }

    /// Removes the least recent entry and returns its key and value.
    pub fn remove_lru(&mut self) -> (r: Option<(K, V)>)
        requires
            old(self).wf(),
        ensures
            final(self).wf(),
            old(self)@.len() == 0 ==> r.is_none() && final(self)@ == old(self)@,
            old(self)@.len() > 0 ==> r == Some((old(self)@[0].key, old(self)@[0].value))
                && final(self)@ == old(self)@.drop_first(),
            final(self).capacity_spec() == old(self).capacity_spec(),
            final(self).meter_spec() == old(self).meter_spec(),
    {
        if self.entries.len() == 0 {
            return None;
        }
        proof {
            lemma_distinct_drop_first(self.entries@);
            assert(self.entries@.remove(0) =~= self.entries@.drop_first());
        }
        let e = self.entries.remove(0);
        self.current = self.current - e.weight as u64;
        Some((e.key, e.value))
    }

    /// Removes every entry.
    pub fn clear(&mut self)
        requires
            old(self).wf(),
        ensures
            final(self).wf(),
            final(self)@ == Seq::<Entry<K, V>>::empty(),
            final(self).capacity_spec() == old(self).capacity_spec(),
            final(self).meter_spec() == old(self).meter_spec(),
    {
        self.entries = Vec::new();
        self.current = 0;
    }

    /// Sets the bound on the total weight, then evicts least recent entries down to it; a bound
    /// of zero empties the cache.
    pub fn set_capacity(&mut self, capacity: u64)
        requires
            old(self).wf(),
        ensures
            final(self).wf(),
            final(self)@ == evicted(old(self)@, capacity as nat),
            final(self).capacity_spec() == capacity,
            final(self).meter_spec() == old(self).meter_spec(),
    {
        self.max_capacity = capacity;
        let running = self.current as u128;
        self.evict_to(running);
    }

    /// The keys, and mutable references to the values, from most recent to least recent,
    /// leaving the order and the weights as they are.
    pub fn iter_mut(&mut self) -> (r: Vec<(&K, &mut V)>)
        requires
            old(self).wf(),
        ensures
            final(self).wf(),
            final(self).capacity_spec() == old(self).capacity_spec(),
            final(self).meter_spec() == old(self).meter_spec(),
            r@.len() == old(self)@.len(),
            final(self)@.len() == old(self)@.len(),
            forall|i: int|
                0 <= i < r@.len() ==> *r@[i].0 == old(self)@[old(self)@.len() - 1 - i].key
                    && *r@[i].1 == old(self)@[old(self)@.len() - 1 - i].value,
            forall|i: int|
                0 <= i < r@.len() ==> #[trigger] final(self)@[old(self)@.len() - 1 - i] == (Entry {
                    key: old(self)@[old(self)@.len() - 1 - i].key,
                    value: *final(r@[i].1),
                    weight: old(self)@[old(self)@.len() - 1 - i].weight,
                }),
    {
        let ghost s0 = self.entries@;
        let ghost n = s0.len();
        let all: &mut [Entry<K, V>] = self.entries.as_mut_slice();
        let ghost fin = final(all)@;
        let mut rest: &mut [Entry<K, V>] = all;
        let mut out: Vec<(&K, &mut V)> = Vec::new();
        while rest.len() > 0
            invariant
                n == s0.len(),
                rest@ == s0.take(rest@.len() as int),
                out@.len() + rest@.len() == n,
                forall|i: int|
                    0 <= i < out@.len() ==> *out@[i].0 == s0[n - 1 - i].key && *out@[i].1
                        == s0[n - 1 - i].value,
                fin == final(rest)@ + Seq::new(
                    out@.len(),
                    |j: int|
                        Entry {
                            key: s0[rest@.len() + j].key,
                            value: *final(out@[out@.len() - 1 - j].1),
                            weight: s0[rest@.len() + j].weight,
                        },
                ),
            decreases rest@.len(),
        {
            let m = rest.len();
            let (front, back) = rest.split_at_mut(m - 1);
            let e = &mut back[0];
            let Entry { key, value, weight: _ } = e;
            out.push((&*key, value));
            rest = front;
        }
        let _ = <[Entry<K, V>]>::first_mut(rest);
        proof {
            assert forall|i: int| 0 <= i < n implies #[trigger] fin[i].key == s0[i].key && fin[i].weight
                == s0[i].weight by {
                assert(fin[i] == Entry {
                    key: s0[i].key,
                    value: *final(out@[out@.len() - 1 - i].1),
                    weight: s0[i].weight,
                });
            }
            lemma_same_keys_weights(s0, fin);
        }
        out
    }

    /// The keys and values from most recent to least recent, leaving the order as it is.
    pub fn iter(&self) -> (r: Vec<(&K, &V)>)
        ensures
            r@.len() == self@.len(),
            forall|i: int|
                0 <= i < r@.len() ==> *r@[i].0 == self@[self@.len() - 1 - i].key && *r@[i].1
                    == self@[self@.len() - 1 - i].value,
    {
        let n = self.entries.len();
        let mut out: Vec<(&K, &V)> = Vec::new();
        let mut i: usize = n;
        while i > 0
            invariant
                n == self.entries@.len(),
                i <= n,
                out@.len() == n - i,
                forall|j: int|
                    0 <= j < out@.len() ==> *out@[j].0 == self.entries@[n - 1 - j].key && *out@[j].1
                        == self.entries@[n - 1 - j].value,
            decreases i,
        {
            i = i - 1;
            let e = &self.entries[i];
            out.push((&e.key, &e.value));
        }
        out
    }

}

/// `parts` joined by `", "`.
pub open spec fn joined(parts: Seq<Seq<char>>) -> Seq<char>
    decreases parts.len(),
{
    if parts.len() == 0 {
        Seq::empty()
    } else if parts.len() == 1 {
        parts[0]
    } else {
        joined(parts.drop_last()) + seq![',', ' '] + parts.last()
    }
}

/// `parts` joined by `", "` between braces: `{a, b, c}`.
pub open spec fn braced(parts: Seq<Seq<char>>) -> Seq<char> {
    seq!['{'] + joined(parts) + seq!['}']
}

/// Writes `parts`, in order, separated by `", "` and enclosed in braces.
pub fn debug_join(parts: &Vec<String>) -> (r: String)
    ensures
        r@ == braced(parts@.map_values(|s: String| s@)),
{
    proof {
        reveal_strlit("{");
        reveal_strlit("}");
    }
    let ghost views = parts@.map_values(|s: String| s@);
    let mut out = String::from_str("{");
    let mut i: usize = 0;
    assert(views.take(0) =~= Seq::<Seq<char>>::empty());
    while i < parts.len()
        invariant
            i <= parts@.len(),
            views == parts@.map_values(|s: String| s@),
            out@ == seq!['{'] + joined(views.take(i as int)),
        decreases parts@.len() - i,
    {
        let ghost before = out@;
        proof {
            reveal_strlit(", ");
        }
        if i > 0 {
            out.append(", ");
        }
        out.append(parts[i].as_str());
        proof {
            let t = views.take(i + 1);
            assert(t.drop_last() =~= views.take(i as int));
            assert(t.last() == parts@[i as int]@);
            if i == 0 {
                assert(joined(t) == t[0]);
                assert(out@ =~= seq!['{'] + joined(t));
            } else {
                assert(out@ =~= seq!['{'] + joined(t));
            }
        }
        i = i + 1;
    }
    out.append("}");
    assert(views.take(parts@.len() as int) =~= views);
    out
}

/// Relies on std's `Debug` formatting of one value.
#[verifier::external_body]
fn debug_text<T: std::fmt::Debug>(x: &T) -> String {
    format!("{:?}", x)
}

impl<K: CacheKey + std::fmt::Debug, V: std::fmt::Debug, M: Meter<K, V>> LruCache<K, V, M> {
    /// The entries from most recent to least recent, in the form `{k1: v1, k2: v2}`, each key
    /// and value written by its `Debug` formatting.
    pub fn debug_string(&self) -> (r: String)
        ensures
            self@.len() == 0 ==> r@ == seq!['{', '}'],
            exists|p: Seq<Seq<char>>|
                {
                    &&& p.len() == self@.len()
                    &&& r@ == braced(p)
                    &&& forall|i: int|
                        0 <= i < p.len() ==> exists|a: Seq<char>, b: Seq<char>|
                            #[trigger] p[i] == a + seq![':', ' '] + b
                },
    {
        let n = self.entries.len();
        let mut parts: Vec<String> = Vec::new();
        let mut i: usize = n;
        while i > 0
            invariant
                n == self.entries@.len(),
                i <= n,
                parts@.len() == n - i,
                forall|j: int|
                    0 <= j < parts@.len() ==> exists|a: Seq<char>, b: Seq<char>|
                        #[trigger] parts@[j]@ == a + seq![':', ' '] + b,
            decreases i,
        {
            i = i - 1;
            let e = &self.entries[i];
            let mut part = debug_text(&e.key);
            let ghost a = part@;
            proof {
                reveal_strlit(": ");
            }
            part.append(": ");
            let value = debug_text(&e.value);
            part.append(value.as_str());
            assert(part@ == a + seq![':', ' '] + value@);
            parts.push(part);
        }
        let r = debug_join(&parts);
        proof {
            let p = parts@.map_values(|s: String| s@);
            assert forall|j: int| 0 <= j < p.len() implies exists|a: Seq<char>, b: Seq<char>|
                #[trigger] p[j] == a + seq![':', ' '] + b by {
                assert(p[j] == parts@[j]@);
            }
            if n == 0 {
                assert(p.len() == 0);
                assert(r@ =~= seq!['{', '}']);
            }
        }
        r
    }
}

} // verus!
