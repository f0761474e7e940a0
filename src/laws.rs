//! Properties that relate several operations of a `PoolCache`, stated over
//! the relations that each operation's contract establishes.
use vstd::prelude::*;
use crate::pool::PoolCache;

verus! {

/// Taking from a cache that holds nothing, keyed or free, yields nothing,
/// and so does taking again.
pub proof fn lemma_empty_take_stays_empty<Key: Ord + Clone, Value>(
    c0: PoolCache<Key, Value>,
    c1: PoolCache<Key, Value>,
    c2: PoolCache<Key, Value>,
    r1: Option<Value>,
    r2: Option<Value>,
)
    requires
        c0.wf(),
        c0.freelist().len() == 0,
        c0.clock().len() == 0,
        c0.took(c1, r1),
        c1.took(c2, r2),
    ensures
        r1 is None,
        r2 is None,
        c2.freelist().len() == 0,
        c2.clock().len() == 0,
        c2.values() == c0.values(),
{
}

/// A value put into a cache with an empty freelist is what the next `take`
/// returns, and no key is touched on the way.
pub proof fn lemma_put_then_take<Key: Ord + Clone, Value>(
    c0: PoolCache<Key, Value>,
    c1: PoolCache<Key, Value>,
    c2: PoolCache<Key, Value>,
    v: Value,
    r: Option<Value>,
)
    requires
        c0.wf(),
        c0.freelist().len() == 0,
        c0.put_into(c1, v),
        c1.took(c2, r),
    ensures
        r == Some(v),
        c2.freelist() == c0.freelist(),
        c2.values() == c0.values(),
        c2.heats() == c0.heats(),
        c2.clock() == c0.clock(),
{
    assert(c1.freelist()[0] == v);
    assert(c1.freelist().drop_first() =~= c0.freelist());
}

/// Inserting `v1` and then `v2` under one key of a cache that holds nothing
/// keyed or free leaves `v1` displaced and `v2` keyed: two takes return `v1`
/// first, then `v2`, and the cache is empty again.
pub proof fn lemma_displaced_before_kept<Key: Ord + Clone, Value>(
    c0: PoolCache<Key, Value>,
    c1: PoolCache<Key, Value>,
    c2: PoolCache<Key, Value>,
    c3: PoolCache<Key, Value>,
    c4: PoolCache<Key, Value>,
    k: Key,
    v1: Value,
    v2: Value,
    r1: Option<Value>,
    r2: Option<Value>,
)
    requires
        c0.wf(),
        c0.freelist().len() == 0,
        c0.clock().len() == 0,
        c0.inserted(c1, k, v1),
        c1.inserted(c2, k, v2),
        c2.took(c3, r1),
        c3.took(c4, r2),
    ensures
        r1 == Some(v1),
        r2 == Some(v2),
        c4.freelist().len() == 0,
        c4.clock().len() == 0,
        c4.values().dom().is_empty(),
{
    assert(!c0.values().contains_key(k)) by {
        assert(!c0.clock().contains(k));
    }
    assert(c1.values().contains_key(k));
    assert(c2.freelist() =~= seq![v1]);
    assert(c2.clock() =~= seq![k]);
    assert(c3.freelist().len() == 0);
    assert(c3.clock() =~= seq![k]);
    assert(c3.is_first_coolest(0));
    c3.lemma_first_coolest_unique(0, c3.sweep_victim());
    assert(c4.clock() =~= Seq::<Key>::empty());
    assert(c4.values().dom() =~= Set::<Key>::empty()) by {
        assert(c2.values().dom() =~= set![k]);
    }
}

/// Each `get` of a live key raises its heat by one and never past the
/// ceiling: after `n` reads a key of heat `h` has heat `min(h + n, max_heat)`.
pub proof fn lemma_repeated_gets<Key: Ord + Clone, Value>(
    states: Seq<PoolCache<Key, Value>>,
    results: Seq<Option<Value>>,
    k: Key,
)
    requires
        states.len() >= 1,
        results.len() == states.len() - 1,
        states[0].values().contains_key(k),
        forall|i: int|
            0 <= i < states.len() - 1 ==> #[trigger] states[i].got(states[i + 1], k, results[i]),
    ensures
        ({
            let last = states[states.len() - 1];
            let h = states[0].heats()[k];
            let m = states[0].max_heat();
            &&& last.values().contains_key(k)
            &&& last.max_heat() == m
            &&& h <= m ==> last.heats()[k] == if h + states.len() - 1 < m {
                h + states.len() - 1
            } else {
                m as int
            }
        }),
    decreases states.len(),
{
    if states.len() > 1 {
        let prefix = states.drop_last();
        assert forall|i: int| 0 <= i < prefix.len() - 1 implies #[trigger] prefix[i].got(
            prefix[i + 1],
            k,
            results.drop_last()[i],
        ) by {
            assert(states[i].got(states[i + 1], k, results[i]));
        }
        lemma_repeated_gets(prefix, results.drop_last(), k);
        let n = states.len() as int;
        let i = n - 2;
        assert(states[i].got(states[i + 1], k, results[i]));
        assert(prefix[prefix.len() - 1] == states[i]);
    }
}

/// A `take` that evicts key `k` of heat `h` has swept the keys `h` times
/// round: every key that stays has lost `h` heat or `h - 1`. So a key that
/// reads have driven to the ceiling outlasts `max_heat` passes of the sweep.
pub proof fn lemma_eviction_laps<Key: Ord + Clone, Value>(
    c0: PoolCache<Key, Value>,
    c1: PoolCache<Key, Value>,
    k: Key,
    r: Option<Value>,
)
    requires
        c0.wf(),
        c0.freelist().len() == 0,
        c0.values().contains_key(k),
        !c1.values().contains_key(k),
        c0.took(c1, r),
    ensures
        r == Some(c0.values()[k]),
        forall|k2: Key| #[trigger]
            c1.values().contains_key(k2) ==> c0.heats()[k2] - c1.heats()[k2] == c0.heats()[k]
                || c0.heats()[k2] - c1.heats()[k2] == c0.heats()[k] - 1,
{
    let c = c0.clock();
    assert(c.contains(k));
    let i = c0.sweep_victim();
    assert(c[i] == k);
    assert forall|k2: Key| #[trigger] c1.values().contains_key(k2) implies c0.heats()[k2]
        - c1.heats()[k2] == c0.heats()[k] || c0.heats()[k2] - c1.heats()[k2] == c0.heats()[k]
        - 1 by {
        assert(c0.values().contains_key(k2));
        assert(c.contains(k2));
        let j = choose|j: int| 0 <= j < c.len() && c[j] == k2;
        assert(c1.heats()[c[j]] == c0.heats()[c[j]] - c0.heats()[k] + (if j < i { 0int } else { 1int }));
    }
}

} // verus!
