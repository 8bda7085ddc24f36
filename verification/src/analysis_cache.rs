//! In-memory cache of analysis artifacts, bounded by serialized size and by
//! entry count, evicting the least recently used entry first.
use vstd::prelude::*;
use std::sync::Arc;
use crate::text::str_eq;

verus! {

/// At most this many entries are kept (the newest entry always stays).
pub const MAX_ARTIFACT_ENTRIES: usize = 256;

struct CacheSlot<T> {
    key: String,
    value: Arc<T>,
    size: usize,
}

/// Entries in recency order, least recently used first, with their serialized sizes.
pub struct AnalysisCache<T> {
    slots: Vec<CacheSlot<T>>,
    bytes: usize,
    limit: usize,
}

/// The total size of the slots.
pub open spec fn total_size(sizes: Seq<nat>) -> nat
    decreases sizes.len(),
{
    if sizes.len() == 0 {
        0
    } else {
        total_size(sizes.drop_last()) + sizes.last()
    }
}

spec fn slot_sizes<T>(slots: Seq<CacheSlot<T>>) -> Seq<nat> {
    slots.map_values(|s: CacheSlot<T>| s.size as nat)
}

/// Whether a cache holding entries of these sizes is over its bounds.
pub open spec fn over_capacity(sizes: Seq<nat>, limit: nat) -> bool {
    total_size(sizes) > limit || sizes.len() > MAX_ARTIFACT_ENTRIES
}

/// `items` (aligned with `keys`) without the item of `key`, where `key` is present.
pub open spec fn without_key<A>(keys: Seq<Seq<char>>, items: Seq<A>, key: Seq<char>) -> Seq<A> {
    if keys.contains(key) {
        items.remove(keys.index_of(key))
    } else {
        items
    }
}

/// In a list of distinct keys, what stays after taking out `key` lines up with
/// the items of the keys it holds.
proof fn lemma_without_key_aligned<A>(keys: Seq<Seq<char>>, items: Seq<A>, key: Seq<char>, j: int)
    requires
        keys.len() == items.len(),
        forall|a: int, b: int| 0 <= a < b < keys.len() ==> keys[a] != keys[b],
        0 <= j < without_key(keys, keys, key).len(),
    ensures
        keys.contains(without_key(keys, keys, key)[j]),
        without_key(keys, keys, key)[j] != key,
        without_key(keys, items, key)[j] == items[keys.index_of(without_key(keys, keys, key)[j])],
{
    let rest = without_key(keys, keys, key);
    let src = if keys.contains(key) && j >= keys.index_of(key) { j + 1 } else { j };
    if keys.contains(key) {
        keys.index_of_first_ensures(key);
    }
    assert(rest[j] == keys[src]);
    assert(without_key(keys, items, key)[j] == items[src]);
    keys.index_of_first_ensures(keys[src]);
    let f = keys.index_of(keys[src]);
    if f != src {
        if f < src {
            assert(keys[f] != keys[src]);
        } else {
            assert(keys[src] != keys[f]);
        }
    }
}

impl<T> AnalysisCache<T> {
    /// The keys, least recently used first.
    pub closed spec fn keys(&self) -> Seq<Seq<char>> {
        self.slots@.map_values(|s: CacheSlot<T>| s.key@)
    }

    /// The value stored under each key, in the same order as `keys`.
    pub closed spec fn values(&self) -> Seq<T> {
        self.slots@.map_values(|s: CacheSlot<T>| *s.value)
    }

    /// The serialized size of each entry, in the same order as `keys`.
    pub closed spec fn sizes(&self) -> Seq<nat> {
        slot_sizes(self.slots@)
    }

    pub closed spec fn byte_count(&self) -> nat {
        self.bytes as nat
    }

    pub closed spec fn byte_limit(&self) -> nat {
        self.limit as nat
    }

    /// Keys are distinct and the byte count is the total of the sizes.
    pub closed spec fn wf(&self) -> bool {
        &&& forall|i: int, j: int| 0 <= i < j < self.slots@.len() ==> self.slots@[i].key@ != self.slots@[j].key@
        &&& self.bytes as nat == total_size(self.sizes())
    }

    /// Whether `key` is cached.
    pub open spec fn has(&self, key: Seq<char>) -> bool {
        self.keys().contains(key)
    }

    /// The value cached under `key`.
    pub open spec fn value_of(&self, key: Seq<char>) -> T {
        self.values()[self.keys().index_of(key)]
    }

    /// A well-formed cache holds each key once.
    pub proof fn lemma_keys_distinct(&self)
        requires
            self.wf(),
        ensures
            forall|i: int, j: int| 0 <= i < j < self.keys().len() ==> self.keys()[i] != self.keys()[j],
            self.values().len() == self.keys().len(),
            self.sizes().len() == self.keys().len(),
    {
        assert forall|i: int, j: int| 0 <= i < j < self.keys().len() implies self.keys()[i] != self.keys()[j] by {
            assert(self.keys()[i] == self.slots@[i].key@);
            assert(self.keys()[j] == self.slots@[j].key@);
        }
    }

    /// In a well-formed cache a key held at `m` is found at `m`.
    pub proof fn lemma_held_at(&self, m: int)
        requires
            self.wf(),
            0 <= m < self.keys().len(),
        ensures
            self.keys().index_of(self.keys()[m]) == m,
    {
        let k = self.keys()[m];
        self.keys().index_of_first_ensures(k);
        let j = self.keys().index_of(k);
        if j != m {
            assert(self.keys()[j] == self.slots@[j].key@);
            assert(self.keys()[m] == self.slots@[m].key@);
        }
    }

    pub fn new(limit: usize) -> (r: Self)
        ensures
            r.wf(),
            r.keys().len() == 0,
            r.values().len() == 0,
            r.sizes().len() == 0,
            r.byte_count() == 0,
            r.byte_limit() == limit,
    {
        let r = AnalysisCache { slots: Vec::new(), bytes: 0, limit };
        assert(r.sizes() =~= Seq::<nat>::empty());
        r
    }

    /// The bytes held now.
    pub fn bytes(&self) -> (r: usize)
        ensures
            r == self.byte_count(),
    {
        self.bytes
    }

    fn position(&self, key: &str) -> (r: Option<usize>)
        requires
            self.wf(),
        ensures
            r is None <==> !self.has(key@),
            r matches Some(i) ==> i < self.keys().len() && self.keys()[i as int] == key@,
    {
        for i in 0..self.slots.len()
            invariant
                self.wf(),
                forall|k: int| 0 <= k < i ==> self.keys()[k] != key@,
        {
            assert(self.keys()[i as int] == self.slots@[i as int].key@);
            if str_eq(self.slots[i].key.as_str(), key) {
                return Some(i);
            }
        }
        proof {
            if self.has(key@) {
                let k = choose|k: int| 0 <= k < self.keys().len() && self.keys()[k] == key@;
            }
        }
        None
    }

    proof fn lemma_total_size_remove(sizes: Seq<nat>, i: int)
        requires
            0 <= i < sizes.len(),
        ensures
            total_size(sizes) == total_size(sizes.remove(i)) + sizes[i],
        decreases sizes.len(),
    {
        if i == sizes.len() - 1 {
            assert(sizes.remove(i) == sizes.drop_last());
        } else {
            Self::lemma_total_size_remove(sizes.drop_last(), i);
            assert(sizes.remove(i).drop_last() == sizes.drop_last().remove(i));
            assert(sizes.remove(i).last() == sizes.last());
        }
    }

    /// The cached value, which becomes the most recently used entry.
    pub fn get(&mut self, key: &str) -> (r: Option<Arc<T>>)
        requires
            old(self).wf(),
        ensures
            final(self).wf(),
            r is None <==> !old(self).has(key@),
            r is None ==> final(self).keys() == old(self).keys() && final(self).values() == old(self).values(),
            r matches Some(v) ==> {
                let i = old(self).keys().index_of(key@);
                &&& *v == old(self).value_of(key@)
                &&& *v == old(self).values()[i]
                &&& final(self).keys() == old(self).keys().remove(i).push(key@)
                &&& final(self).values() == old(self).values().remove(i).push(*v)
            },
            final(self).byte_count() == old(self).byte_count(),
            final(self).byte_limit() == old(self).byte_limit(),
            forall|k: Seq<char>| #[trigger] final(self).has(k) == old(self).has(k),
            forall|k: Seq<char>| #[trigger] old(self).has(k) ==> final(self).value_of(k) == old(self).value_of(k),
    {
        match self.position(key) {
            None => None,
            Some(i) => {
                let ghost old_slots = self.slots@;
                let ghost sizes = self.sizes();
                proof {
                    assert(old(self).keys().index_of(key@) == i as int) by {
                        old(self).keys().index_of_first_ensures(key@);
                        let j = old(self).keys().index_of(key@);
                        if j != i as int {
                            assert(old(self).keys()[j] == old(self).keys()[i as int]);
                        }
                    }
                }
                let slot = self.slots.remove(i);
                let value = slot.value.clone();
                self.slots.push(slot);
                proof {
                    assert(self.keys() =~= old(self).keys().remove(i as int).push(key@));
                    assert(self.values() =~= old(self).values().remove(i as int).push(*value));
                    let moved = sizes.remove(i as int).push(sizes[i as int]);
                    assert(self.sizes() =~= moved);
                    Self::lemma_total_size_remove(sizes, i as int);
                    assert(moved.drop_last() == sizes.remove(i as int));
                    assert forall|a: int, b: int| 0 <= a < b < self.slots@.len() implies self.slots@[a].key@ != self.slots@[b].key@ by {
                        assert(self.keys()[a] == self.slots@[a].key@);
                        assert(self.keys()[b] == self.slots@[b].key@);
                        let ok = old(self).keys();
                        let idx = |x: int| if x < i { x } else { x + 1 };
                        if b == self.slots@.len() - 1 {
                            if a < i { assert(ok[a] == self.keys()[a]); } else { assert(ok[a + 1] == self.keys()[a]); }
                        } else {
                            assert(ok[idx(a)] == self.keys()[a]);
                            assert(ok[idx(b)] == self.keys()[b]);
                        }
                    }
                }
                proof {
                    let ok = old(self).keys();
                    let n = ok.len();
                    assert forall|k: Seq<char>| #[trigger] self.has(k) == old(self).has(k) by {
                        if old(self).has(k) {
                            let m = choose|m: int| 0 <= m < n && ok[m] == k;
                            if m == i { assert(self.keys()[n - 1] == k); }
                            else if m < i { assert(self.keys()[m] == k); }
                            else { assert(self.keys()[m - 1] == k); }
                        }
                        if self.has(k) {
                            let m = choose|m: int| 0 <= m < n && self.keys()[m] == k;
                            if m == n - 1 { assert(ok[i as int] == k); }
                            else if m < i { assert(ok[m] == k); }
                            else { assert(ok[m + 1] == k); }
                        }
                    }
                    assert forall|k: Seq<char>| #[trigger] old(self).has(k) implies self.value_of(k) == old(self).value_of(k) by {
                        let m = choose|m: int| 0 <= m < n && ok[m] == k;
                        old(self).lemma_held_at(m);
                        let f = if m == i { n - 1 } else if m < i { m } else { m - 1 };
                        assert(self.keys()[f] == k);
                        self.lemma_held_at(f);
                    }
                }
                Some(value)
            },
        }
    }

    /// Stores a value with its serialized size as the most recently used
    /// entry, then drops least recently used entries while the cache holds
    /// more than `limit` bytes or more than 256 entries, keeping at least one.
    ///
    /// The entries that stay are the newest `d` of the others, in order and
    /// with their values, where `d` is the fewest drops that bring the cache
    /// within both bounds (or down to the new entry alone).
    pub fn insert(&mut self, key: String, value: Arc<T>, size: usize)
        requires
            old(self).wf(),
            old(self).byte_count() + size <= usize::MAX,
        ensures
            final(self).wf(),
            final(self).keys().len() > 0,
            final(self).keys().last() == key@,
            final(self).values().last() == *value,
            final(self).keys().len() <= MAX_ARTIFACT_ENTRIES || final(self).keys().len() == 1,
            final(self).byte_count() <= final(self).byte_limit() || final(self).keys().len() == 1,
            final(self).byte_limit() == old(self).byte_limit(),
            forall|k: Seq<char>| #[trigger] final(self).has(k) ==> k == key@ || old(self).has(k),
            final(self).value_of(key@) == *value,
            forall|k: Seq<char>| #[trigger] final(self).has(k) && k != key@ ==> final(self).value_of(k) == old(self).value_of(k),
            forall|m: int|
                0 <= m < final(self).keys().len() - 1 ==> {
                    &&& old(self).has(#[trigger] final(self).keys()[m])
                    &&& final(self).keys()[m] != key@
                    &&& final(self).values()[m] == old(self).values()[old(self).keys().index_of(final(self).keys()[m])]
                },
            ({
                let ok = old(self).keys();
                let rest_keys = without_key(ok, ok, key@);
                let rest_values = without_key(ok, old(self).values(), key@);
                let rest_sizes = without_key(ok, old(self).sizes(), key@);
                exists|d: int|
                    0 <= d <= rest_keys.len() && {
                        &&& final(self).keys() == rest_keys.skip(d).push(key@)
                        &&& final(self).values() == rest_values.skip(d).push(*value)
                        &&& final(self).sizes() == rest_sizes.skip(d).push(size as nat)
                        &&& forall|e: int|
                            0 <= e < d ==> over_capacity(
                                #[trigger] rest_sizes.skip(e).push(size as nat),
                                old(self).byte_limit(),
                            )
                    }
            }),
    {
        let ghost ok = self.keys();
        let ghost ov = self.values();
        let ghost os = self.sizes();
        if let Some(i) = self.position(key.as_str()) {
            let ghost sizes = self.sizes();
            let ghost oslots = self.slots@;
            proof {
                assert(ok.index_of(key@) == i as int) by {
                    ok.index_of_first_ensures(key@);
                    let j = ok.index_of(key@);
                    if j != i as int {
                        assert(ok[j] == self.slots@[j].key@);
                        assert(ok[i as int] == self.slots@[i as int].key@);
                    }
                }
            }
            let slot = self.slots.remove(i);
            proof {
                Self::lemma_total_size_remove(sizes, i as int);
                assert(self.sizes() =~= sizes.remove(i as int));
                assert(self.keys() =~= ok.remove(i as int));
                assert(self.values() =~= ov.remove(i as int));
                assert forall|a: int, b: int| 0 <= a < b < self.slots@.len() implies self.slots@[a].key@ != self.slots@[b].key@ by {
                    assert(self.keys()[a] == self.slots@[a].key@);
                    assert(self.keys()[b] == self.slots@[b].key@);
                    let idx = |x: int| if x < i { x } else { x + 1 };
                    assert(ok[idx(a)] == self.keys()[a]);
                    assert(ok[idx(b)] == self.keys()[b]);
                }
                assert forall|m: int| 0 <= m < self.keys().len() implies old(self).keys().contains(#[trigger] self.keys()[m]) by {
                    if m < i { assert(ok[m] == self.keys()[m]); } else { assert(ok[m + 1] == self.keys()[m]); }
                }
            }
            self.bytes = self.bytes - slot.size;
        }
        assert(!self.has(key@));
        let ghost before_keys = self.keys();
        let ghost before_sizes = self.sizes();
        assert(before_keys == without_key(ok, ok, key@));
        assert(self.values() == without_key(ok, ov, key@));
        assert(before_sizes == without_key(ok, os, key@));
        assert(forall|m: int| 0 <= m < before_keys.len() ==> old(self).keys().contains(#[trigger] before_keys[m]));
        self.bytes = self.bytes + size;
        self.slots.push(CacheSlot { key, value, size });
        proof {
            assert(self.sizes() =~= before_sizes.push(size as nat));
            assert(self.sizes().drop_last() == before_sizes);
            assert(self.keys() =~= before_keys.push(self.keys().last()));
            assert forall|a: int, b: int| 0 <= a < b < self.slots@.len() implies self.slots@[a].key@ != self.slots@[b].key@ by {
                assert(self.keys()[a] == self.slots@[a].key@);
                assert(self.keys()[b] == self.slots@[b].key@);
                assert(before_keys[a] == self.keys()[a]);
                if b < self.slots@.len() - 1 {
                    assert(before_keys[b] == self.keys()[b]);
                }
            }
        }
        let ghost full = self.slots@;
        let ghost mut d: int = 0;
        assert(self.slots@ == full.skip(d));
        while (self.bytes > self.limit || self.slots.len() > MAX_ARTIFACT_ENTRIES) && self.slots.len() > 1
            invariant
                self.wf(),
                0 <= d < full.len(),
                self.slots@ == full.skip(d),
                self.limit == old(self).limit,
                forall|e: int|
                    0 <= e < d ==> over_capacity(
                        #[trigger] slot_sizes(full.skip(e)),
                        old(self).limit as nat,
                    ),
            decreases full.len() - d,
        {
            let ghost sizes = self.sizes();
            let ghost ks = self.keys();
            proof {
                assert(sizes == slot_sizes(full.skip(d)));
                assert(over_capacity(sizes, self.limit as nat));
            }
            let slot = self.slots.remove(0);
            proof {
                Self::lemma_total_size_remove(sizes, 0);
                assert(self.sizes() =~= sizes.remove(0));
                assert(self.keys() =~= ks.remove(0));
                assert forall|a: int, b: int| 0 <= a < b < self.slots@.len() implies self.slots@[a].key@ != self.slots@[b].key@ by {
                    assert(self.keys()[a] == self.slots@[a].key@);
                    assert(self.keys()[b] == self.slots@[b].key@);
                    assert(ks[a + 1] == self.keys()[a]);
                    assert(ks[b + 1] == self.keys()[b]);
                }
                assert(self.slots@ =~= full.skip(d + 1));
                d = d + 1;
            }
            self.bytes = self.bytes - slot.size;
        }
        proof {
            let n = before_keys.len() as int;
            assert(full.len() == n + 1);
            let rest_values = without_key(ok, ov, key@);
            assert(self.keys() =~= before_keys.skip(d).push(key@)) by {
                assert forall|m: int| 0 <= m < self.keys().len() implies self.keys()[m] == before_keys.skip(d).push(key@)[m] by {
                    assert(self.keys()[m] == self.slots@[m].key@);
                    assert(self.slots@[m] == full[m + d]);
                    if m + d < n {
                        assert(before_keys[m + d] == full[m + d].key@);
                    }
                }
            }
            assert(self.values() =~= rest_values.skip(d).push(self.values().last())) by {
                assert forall|m: int| 0 <= m < self.values().len() implies self.values()[m] == rest_values.skip(d).push(self.values().last())[m] by {
                    if m + d < n {
                        assert(self.slots@[m] == full[m + d]);
                    }
                }
            }
            assert(self.sizes() =~= before_sizes.skip(d).push(size as nat)) by {
                assert forall|m: int| 0 <= m < self.sizes().len() implies self.sizes()[m] == before_sizes.skip(d).push(size as nat)[m] by {
                    assert(self.slots@[m] == full[m + d]);
                }
            }
            assert forall|e: int| 0 <= e < d implies over_capacity(
                #[trigger] before_sizes.skip(e).push(size as nat),
                old(self).byte_limit(),
            ) by {
                assert(slot_sizes(full.skip(e)) =~= before_sizes.skip(e).push(size as nat));
            }
            assert forall|k: Seq<char>| #[trigger] self.has(k) implies k == key@ || old(self).has(k) by {
                let m = choose|m: int| 0 <= m < self.keys().len() && self.keys()[m] == k;
                if m < self.keys().len() - 1 {
                    assert(before_keys[m + d] == k);
                }
            }
            assert forall|a: int, b: int| 0 <= a < b < ok.len() implies ok[a] != ok[b] by {
                assert(ok[a] == old(self).slots@[a].key@);
                assert(ok[b] == old(self).slots@[b].key@);
            }
            assert forall|m: int| 0 <= m < self.keys().len() - 1 implies {
                &&& old(self).has(#[trigger] self.keys()[m])
                &&& self.keys()[m] != key@
                &&& self.values()[m] == ov[ok.index_of(self.keys()[m])]
            } by {
                lemma_without_key_aligned(ok, ov, key@, m + d);
                assert(self.keys()[m] == before_keys[m + d]);
                assert(self.values()[m] == rest_values[m + d]);
            }
            let last = self.keys().len() - 1;
            self.lemma_held_at(last);
            assert forall|k: Seq<char>| #[trigger] self.has(k) && k != key@ implies self.value_of(k) == old(self).value_of(k) by {
                let m = choose|m: int| 0 <= m < self.keys().len() && self.keys()[m] == k;
                self.lemma_held_at(m);
                assert(m < last);
                assert(self.values()[m] == ov[ok.index_of(self.keys()[m])]);
            }
        }
    }

    /// What `insert` leaves as the newest entry is what `get` then returns:
    /// the inserted key is cached and its value is the inserted value.
    pub proof fn read_after_insert(&self, key: Seq<char>, value: T)
        requires
            self.wf(),
            self.keys().len() > 0,
            self.keys().last() == key,
            self.values().last() == value,
        ensures
            self.has(key),
            self.values()[self.keys().index_of(key)] == value,
    {
        let n = self.keys().len() - 1;
        assert(self.keys()[n] == key);
        self.keys().index_of_first_ensures(key);
        let j = self.keys().index_of(key);
        if j != n {
            assert(self.keys()[j] == self.slots@[j].key@);
            assert(self.keys()[n] == self.slots@[n].key@);
        }
    }

    pub fn clear(&mut self)
        ensures
            final(self).wf(),
            final(self).keys().len() == 0,
            final(self).byte_count() == 0,
            final(self).byte_limit() == old(self).byte_limit(),
    {
        self.slots = Vec::new();
        self.bytes = 0;
        assert(self.sizes() =~= Seq::<nat>::empty());
    }
}

} // verus!
