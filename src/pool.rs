use vstd::prelude::*;
use vstd::laws_cmp::obeys_cmp;
use std::collections::BTreeMap;
use std::collections::VecDeque;
use crate::entry::CacheEntry;

verus! {

/// The key types this cache works with: a total order that `BTreeMap` can
/// rely on, and a `clone` that yields an equal key.
pub open spec fn key_model<Key: Ord + Clone>() -> bool {
    &&& obeys_cmp::<Key>()
    &&& forall|a: Key, b: Key| #[trigger] cloned(a, b) ==> a == b
}

/// The value behind an optional reference.
pub open spec fn deref_option<V>(r: Option<&V>) -> Option<V> {
    match r {
        Some(v) => Some(*v),
        None => None,
    }
}

/// Taking position `pos` out of a sequence without repeats and rotating the
/// rest to start right after it keeps every other element, once each.
proof fn lemma_rotate_without<K>(c: Seq<K>, pos: int)
    requires
        c.no_duplicates(),
        0 <= pos < c.len(),
    ensures
        ({
            let r = c.subrange(pos + 1, c.len() as int) + c.subrange(0, pos);
            &&& r.len() == c.len() - 1
            &&& r.no_duplicates()
            &&& forall|k: K| #[trigger] r.contains(k) <==> (c.contains(k) && k != c[pos])
        }),
{
    let n = c.len() as int;
    let a = c.subrange(pos + 1, n);
    let r = a + c.subrange(0, pos);
    let tail = n - pos - 1;
    assert forall|t: int| 0 <= t < r.len() implies #[trigger] r[t] == (if t < tail {
        c[pos + 1 + t]
    } else {
        c[t - tail]
    }) by {}
    assert forall|t1: int, t2: int| 0 <= t1 < r.len() && 0 <= t2 < r.len() && t1 != t2 implies r[t1]
        != r[t2] by {
        let i1 = if t1 < tail { pos + 1 + t1 } else { t1 - tail };
        let i2 = if t2 < tail { pos + 1 + t2 } else { t2 - tail };
        assert(r[t1] == c[i1]);
        assert(r[t2] == c[i2]);
    }
    assert forall|k: K| #[trigger] r.contains(k) <==> (c.contains(k) && k != c[pos]) by {
        if r.contains(k) {
            let t = choose|t: int| 0 <= t < r.len() && r[t] == k;
            let i = if t < tail { pos + 1 + t } else { t - tail };
            assert(r[t] == c[i]);
            assert(i != pos);
        }
        if c.contains(k) && k != c[pos] {
            let i = choose|i: int| 0 <= i < n && c[i] == k;
            let t = if i > pos { i - pos - 1 } else { i + tail };
            assert(r[t] == k);
        }
    }
}

/// A keyed cache whose evicted values are handed back for reuse.
pub struct PoolCache<Key, Value> {
    cache: BTreeMap<Key, CacheEntry<Value>>,
    freelist: VecDeque<Value>,
    clock: VecDeque<Key>,
    max_heat: u64,
}

impl<Key: Ord + Clone, Value> PoolCache<Key, Value> {
    /// The value stored under each live key.
    pub closed spec fn values(&self) -> Map<Key, Value> {
        self.cache@.map_values(|e: CacheEntry<Value>| e.val)
    }

    /// The heat of each live key.
    pub closed spec fn heats(&self) -> Map<Key, nat> {
        self.cache@.map_values(|e: CacheEntry<Value>| e.heat as nat)
    }

    /// The keys in the order in which the sweep visits them.
    pub closed spec fn clock(&self) -> Seq<Key> {
        self.clock@
    }

    /// The values held without a key, oldest first.
    pub closed spec fn freelist(&self) -> Seq<Value> {
        self.freelist@
    }

    /// The ceiling of every heat.
    pub closed spec fn max_heat(&self) -> nat {
        self.max_heat as nat
    }

    /// The cache's invariant: the sweep order lists each live key exactly
    /// once, and every live heat lies between one and the ceiling.
    pub open spec fn wf(&self) -> bool {
        &&& key_model::<Key>()
        &&& self.max_heat() >= 1
        &&& self.clock().no_duplicates()
        &&& forall|k: Key| #[trigger] self.values().contains_key(k) <==> self.clock().contains(k)
        &&& self.heats().dom() == self.values().dom()
        &&& forall|k: Key|
            #[trigger] self.heats().contains_key(k) ==> 1 <= self.heats()[k] <= self.max_heat()
    }

    /// Position `i` of the sweep order holds the first key of least heat:
    /// no key has less heat, and every key before it has more.
    pub open spec fn is_first_coolest(&self, i: int) -> bool {
        let c = self.clock();
        let h = self.heats();
        &&& 0 <= i < c.len()
        &&& forall|j: int| 0 <= j < c.len() ==> h[#[trigger] c[j]] >= h[c[i]]
        &&& forall|j: int| 0 <= j < i ==> h[#[trigger] c[j]] > h[c[i]]
    }

    /// The position of the key that a sweep evicts.
    pub open spec fn sweep_victim(&self) -> int {
        choose|i: int| self.is_first_coolest(i)
    }

    /// `post` is the state after `put(val)` from this state.
    pub open spec fn put_into(self, post: Self, val: Value) -> bool {
        &&& post.freelist() == self.freelist().push(val)
        &&& post.values() == self.values()
        &&& post.heats() == self.heats()
        &&& post.clock() == self.clock()
        &&& post.max_heat() == self.max_heat()
    }

    /// `post` is the state after `insert(key, val)` from this state: the key
    /// holds `val` at heat one; a value it held before goes to the back of
    /// the freelist and the key keeps its place in the sweep order, while a
    /// new key joins the back of that order.
    pub open spec fn inserted(self, post: Self, key: Key, val: Value) -> bool {
        &&& post.values() == self.values().insert(key, val)
        &&& post.heats() == self.heats().insert(key, 1)
        &&& post.max_heat() == self.max_heat()
        &&& if self.values().contains_key(key) {
            &&& post.freelist() == self.freelist().push(self.values()[key])
            &&& post.clock() == self.clock()
        } else {
            &&& post.freelist() == self.freelist()
            &&& post.clock() == self.clock().push(key)
        }
    }

    /// `post` and `r` are the state and the result of `get(key)` from this
    /// state: a live key yields its value and its heat rises by one, up to
    /// the ceiling; an absent key yields nothing. Nothing else changes.
    pub open spec fn got(self, post: Self, key: Key, r: Option<Value>) -> bool {
        &&& post.values() == self.values()
        &&& post.freelist() == self.freelist()
        &&& post.clock() == self.clock()
        &&& post.max_heat() == self.max_heat()
        &&& if self.values().contains_key(key) {
            let h = self.heats()[key];
            &&& r == Some(self.values()[key])
            &&& post.heats() == self.heats().insert(
                key,
                if h < self.max_heat() { h + 1 } else { self.max_heat() },
            )
        } else {
            &&& r is None
            &&& post.heats() == self.heats()
        }
    }

    /// `post` and `r` are the state and the result of `take` from this state.
    ///
    /// The freelist is drained first, oldest value first. Failing that, an
    /// empty cache yields nothing. Otherwise the sweep visits the keys in
    /// order, lowering each visited key's heat by one and moving it to the
    /// back, until one reaches zero: that is the first key `k` of least heat
    /// `m`. Its value is returned and its key removed; every key before it
    /// has lost `m` heat and every key after it `m - 1`, and the order now
    /// starts right after `k`.
    pub open spec fn took(self, post: Self, r: Option<Value>) -> bool {
        let c = self.clock();
        let n = c.len();
        &&& post.max_heat() == self.max_heat()
        &&& if self.freelist().len() > 0 {
            &&& r == Some(self.freelist()[0])
            &&& post.freelist() == self.freelist().drop_first()
            &&& post.values() == self.values()
            &&& post.heats() == self.heats()
            &&& post.clock() == c
        } else if n == 0 {
            &&& r is None
            &&& post.freelist() == self.freelist()
            &&& post.values() == self.values()
            &&& post.heats() == self.heats()
            &&& post.clock() == c
        } else {
            let i = self.sweep_victim();
            let k = c[i];
            let m = self.heats()[k];
            &&& self.is_first_coolest(i)
            &&& r == Some(self.values()[k])
            &&& post.freelist() == self.freelist()
            &&& post.clock() == c.subrange(i + 1, n as int) + c.subrange(0, i)
            &&& post.values() == self.values().remove(k)
            &&& post.heats().dom() == self.heats().dom().remove(k)
            &&& forall|j: int|
                0 <= j < n && j != i ==> post.heats()[#[trigger] c[j]] == self.heats()[c[j]] - m
                    + (if j < i { 0int } else { 1int })
        }
    }

    /// At most one position holds the first key of least heat.
    pub proof fn lemma_first_coolest_unique(&self, i: int, j: int)
        requires
            self.is_first_coolest(i),
            self.is_first_coolest(j),
        ensures
            i == j,
    {
        let c = self.clock();
        if i < j {
            assert(self.heats()[c[i]] > self.heats()[c[j]]);
        } else if j < i {
            assert(self.heats()[c[j]] > self.heats()[c[i]]);
        }
    }

    /// An empty cache whose heats never exceed `max_heat`, which must be at
    /// least one; the key type must be totally ordered and clone to equals.
    pub fn new(max_heat: u64) -> (c: Self)
        requires
            key_model::<Key>(),
            max_heat >= 1,
        ensures
            c.wf(),
            c.values() == Map::<Key, Value>::empty(),
            c.clock() == Seq::<Key>::empty(),
            c.freelist() == Seq::<Value>::empty(),
            c.max_heat() == max_heat,
    {
        let c = PoolCache {
            cache: BTreeMap::new(),
            freelist: VecDeque::new(),
            clock: VecDeque::new(),
            max_heat: max_heat,
        };
        assert(c.values() =~= Map::<Key, Value>::empty());
        assert(c.heats() =~= Map::<Key, nat>::empty());
        c
    }

    /// Whether `key` has a live entry.
    pub fn contains_key(&self, key: &Key) -> (r: bool)
        requires
            self.wf(),
        ensures
            r == self.values().contains_key(*key),
    {
        self.cache.contains_key(key)
    }

    /// Adds `val` to the back of the freelist, tied to no key.
    pub fn put(&mut self, val: Value)
        requires
            old(self).wf(),
        ensures
            final(self).wf(),
            old(self).put_into(*final(self), val),
    {
        self.freelist.push_back(val)
    }

    /// Returns the value stored under `key` and raises its heat by one,
    /// saturating at the ceiling; returns nothing if `key` is absent.
    pub fn get(&mut self, key: &Key) -> (r: Option<&Value>)
        requires
            old(self).wf(),
        ensures
            final(self).wf(),
            old(self).got(*final(self), *key, deref_option(r)),
    {
        let ghost pre = *self;
        match self.cache.remove(key) {
            Some(mut e) => {
                proof {
                    assert(pre.cache@.contains_key(*key) && pre.cache@[*key] == e);
                    assert(pre.heats().contains_key(*key));
                }
                e.inc(self.max_heat);
                let k2 = key.clone();
                proof {
                    assert(cloned(*key, k2));
                }
                self.cache.insert(k2, e);
                proof {
                    assert(self.values() =~= pre.values());
                    assert(self.heats() =~= pre.heats().insert(*key, e.heat as nat));
                    assert(self.cache@[*key] == e);
                }
                match self.cache.get(key) {
                    Some(e) => Some(&e.val),
                    None => None,
                }
            },
            None => {
                proof {
                    assert(!pre.values().contains_key(*key));
                    assert(self.values() =~= pre.values());
                    assert(self.heats() =~= pre.heats());
                }
                None
            },
        }
    }

    /// Stores `val` under `key` at heat one. A value that `key` held before
    /// moves to the back of the freelist, and the key keeps its place in the
    /// sweep order; a new key joins the back of that order.
    pub fn insert(&mut self, key: Key, val: Value)
        requires
            old(self).wf(),
        ensures
            final(self).wf(),
            old(self).inserted(*final(self), key, val),
    {
        let ghost pre = *self;
        let mut found_entry = false;
        if let Some(old_entry) = self.cache.remove(&key) {
            self.freelist.push_back(old_entry.val);
            found_entry = true;
        }
        assert(found_entry == pre.values().contains_key(key));
        if !found_entry {
            let k2 = key.clone();
            proof {
                assert(cloned(key, k2));
            }
            self.clock.push_back(k2);
        }
        self.cache.insert(key, CacheEntry::new(val));
        proof {
            assert(self.values() =~= pre.values().insert(key, val));
            assert(self.heats() =~= pre.heats().insert(key, 1));
            if !found_entry {
                assert(!pre.clock().contains(key));
                assert(self.clock() =~= pre.clock().push(key));
                assert(forall|k: Key| #[trigger] self.clock().contains(k) <==> (pre.clock().contains(k) || k == key)) by {
                    assert forall|k: Key| pre.clock().contains(k) implies #[trigger] self.clock().contains(k) by {
                        let j = choose|j: int| 0 <= j < pre.clock().len() && pre.clock()[j] == k;
                        assert(self.clock()[j] == k);
                    }
                    assert(self.clock()[pre.clock().len() as int] == key);
                }
            }
        }
    }

    /// Hands out a value: the oldest free value if there is one, else the
    /// value of the key that a CLOCK sweep evicts, else nothing.
    pub fn take(&mut self) -> (r: Option<Value>)
        requires
            old(self).wf(),
        ensures
            final(self).wf(),
            old(self).took(*final(self), r),
    {
        let ghost pre = *self;
        if let Some(val) = self.freelist.pop_front() {
            return Some(val);
        }
        if self.clock.len() == 0 {
            return None;
        }
        let ghost c0 = self.clock@;
        let ghost h0 = self.heats();
        let ghost n = c0.len() as int;
        let ghost mut rounds: int = 0;
        let ghost mut pos: int = 0;
        proof {
            assert(c0.subrange(0, n) + c0.subrange(0, 0) =~= c0);
            assert forall|j: int| 0 <= j < n implies self.heats()[#[trigger] c0[j]] >= 1 by {
                assert(c0.contains(c0[j]));
                assert(self.heats().contains_key(c0[j]));
            }
        }
        loop
            invariant
                pre == *old(self),
                pre.wf(),
                pre.freelist().len() == 0,
                c0 == pre.clock(),
                h0 == pre.heats(),
                n == c0.len() > 0,
                0 <= pos < n,
                0 <= rounds < self.max_heat,
                self.max_heat() == pre.max_heat(),
                self.freelist() == pre.freelist(),
                self.clock() == c0.subrange(pos, n) + c0.subrange(0, pos),
                self.values() == pre.values(),
                self.heats().dom() == h0.dom(),
                forall|j: int|
                    0 <= j < n ==> self.heats()[#[trigger] c0[j]] == h0[c0[j]] - rounds - (if j
                        < pos { 1int } else { 0int }),
                forall|j: int| 0 <= j < n ==> self.heats()[#[trigger] c0[j]] >= 1,
            decreases self.max_heat - rounds, n - pos,
        {
            let ghost s0 = *self;
            let key = self.clock.pop_front().unwrap();
            assert(key == c0[pos]);
            assert(c0.contains(key));
            assert(self.values().contains_key(key));
            assert(self.cache@.contains_key(key));
            let mut e = self.cache.remove(&key).unwrap();
            let heat = e.dec();
            if heat == 0 {
                proof {
                    assert forall|j: int| 0 <= j < n implies h0[#[trigger] c0[j]] >= h0[c0[pos]]
                        && (j < pos ==> h0[c0[j]] > h0[c0[pos]]) by {
                        assert(s0.heats()[c0[j]] >= 1);
                    }
                    assert(pre.is_first_coolest(pos));
                    pre.lemma_first_coolest_unique(pos, pre.sweep_victim());
                    lemma_rotate_without(c0, pos);
                    assert(self.clock() =~= c0.subrange(pos + 1, n) + c0.subrange(0, pos));
                    assert(self.values() =~= pre.values().remove(key));
                    assert(self.heats().dom() =~= h0.dom().remove(key));
                    assert forall|k: Key| #[trigger] self.heats().contains_key(k) implies 1
                        <= self.heats()[k] <= self.max_heat() by {
                        assert(c0.contains(k));
                        let j = choose|j: int| 0 <= j < n && c0[j] == k;
                        assert(s0.heats()[c0[j]] >= 1);
                    }
                    assert(h0[c0[pos]] == rounds + 1);
                    assert forall|j: int| 0 <= j < n && j != pos implies self.heats()[#[trigger] c0[j]]
                        == h0[c0[j]] - h0[c0[pos]] + (if j < pos { 0int } else { 1int }) by {
                        assert(c0[j] != key);
                        assert(s0.heats()[c0[j]] == h0[c0[j]] - rounds - (if j < pos { 1int } else { 0int }));
                    }
                    assert(e.val == pre.values()[key]);

                }
                return Some(e.val);
            }
            let k2 = key.clone();
            proof {
                assert(cloned(key, k2));
            }
            self.cache.insert(k2, e);
            self.clock.push_back(key);
            proof {
                if pos + 1 == n {
                    pos = 0;
                    rounds = rounds + 1;
                } else {
                    pos = pos + 1;
                }
            }
        }
    }
}

} // verus!
