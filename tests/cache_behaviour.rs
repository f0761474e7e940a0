use poolcache::PoolCache;

#[test]
fn basic() {
    // can't take from an empty cache.
    let mut cache: PoolCache<u64, String> = PoolCache::new(5);
    assert_eq!(None, cache.take());

    // adding an object to the cache not associated with a value,
    // and returning it via 'take'.
    cache.put(String::from("foo"));
    assert_eq!(Some(String::from("foo")), cache.take());

    // Since we only added one value (and then took it), the
    // cache is empty again.
    assert_eq!(None, cache.take());

    // Add a keyed value, and retrieve it a few times.
    cache.insert(1, String::from("bar"));
    assert_eq!("bar", cache.get(&1).unwrap());
    assert_eq!("bar", cache.get(&1).unwrap());
    assert_eq!("bar", cache.get(&1).unwrap());

    // Add a second value, and retrieve it only once.
    cache.insert(2, String::from("baz"));
    assert_eq!("baz", cache.get(&2).unwrap());

    // taking a value returns 'baz', since it only has one use.
    assert_eq!(Some(String::from("baz")), cache.take());

    // Now that we've taken its value, the key '2' is no longer
    // in the cache.
    assert_eq!(None, cache.get(&2));

    // '1' is still in the cache
    assert!(cache.contains_key(&1));

    // Replace its value (currently 'bar') with a new value.
    cache.insert(1, String::from("newbar"));
    assert_eq!("newbar", cache.get(&1).unwrap());

    // The old value ('bar') is moved to the freelist, and is
    // returned to the next caller of `take`
    assert_eq!(Some(String::from("bar")), cache.take());

    // A final `take` removes the last value in the pool
    // (currently keyed to '1')
    assert_eq!(Some(String::from("newbar")), cache.take());

    // leaving the cache empty.
    assert_eq!(None, cache.take());
}

#[test]
fn empty_take_stays_empty() {
    let mut cache: PoolCache<u64, u32> = PoolCache::new(3);
    assert_eq!(None, cache.take());
    assert_eq!(None, cache.take());
    assert_eq!(None, cache.take());
    assert!(!cache.contains_key(&0));
}

#[test]
fn freelist_served_before_keys() {
    let mut cache: PoolCache<u64, u32> = PoolCache::new(4);
    cache.insert(7, 70);
    cache.put(1);
    assert_eq!(Some(1), cache.take());
    assert!(cache.contains_key(&7));
    assert_eq!(Some(&70), cache.get(&7));
}

#[test]
fn freelist_is_first_in_first_out() {
    let mut cache: PoolCache<u64, u32> = PoolCache::new(2);
    cache.put(1);
    cache.put(2);
    cache.put(3);
    assert_eq!(Some(1), cache.take());
    assert_eq!(Some(2), cache.take());
    assert_eq!(Some(3), cache.take());
    assert_eq!(None, cache.take());
}

#[test]
fn displaced_value_comes_before_kept_value() {
    let mut cache: PoolCache<u64, u32> = PoolCache::new(5);
    cache.insert(9, 1);
    cache.insert(9, 2);
    assert!(cache.contains_key(&9));
    assert_eq!(Some(1), cache.take());
    assert_eq!(Some(2), cache.take());
    assert!(!cache.contains_key(&9));
    assert_eq!(None, cache.take());
}

#[test]
fn replacing_a_key_resets_its_heat_and_keeps_its_place() {
    let mut cache: PoolCache<u64, u32> = PoolCache::new(5);
    cache.insert(1, 10);
    cache.insert(2, 20);
    for _ in 0..4 {
        cache.get(&1);
    }
    // Key 1 is hot; replacing it brings its heat back to one, and it still
    // stands ahead of key 2 in the sweep order, so it is evicted first.
    cache.insert(1, 11);
    assert_eq!(Some(10), cache.take());
    assert_eq!(Some(11), cache.take());
    assert_eq!(Some(20), cache.take());
    assert_eq!(None, cache.take());
}

#[test]
fn heat_saturates_at_the_ceiling() {
    let mut cache: PoolCache<u64, u32> = PoolCache::new(2);
    cache.insert(1, 10);
    cache.insert(2, 20);
    // Many reads of key 1 leave it at heat 2, not higher.
    for _ in 0..10 {
        assert_eq!(Some(&10), cache.get(&1));
    }
    cache.get(&2);
    // Both keys are at heat 2: key 1, first in order, goes first.
    assert_eq!(Some(10), cache.take());
    assert_eq!(Some(20), cache.take());
}

#[test]
fn hot_key_survives_max_heat_minus_one_laps() {
    // Key 1 at the ceiling (3) and key 2 at heat 1 behind it: the sweep
    // evicts key 2 first; key 1 loses one heat per pass.
    let mut cache: PoolCache<u64, u32> = PoolCache::new(3);
    cache.insert(1, 10);
    cache.get(&1);
    cache.get(&1);
    cache.get(&1);
    cache.insert(2, 20);
    assert_eq!(Some(20), cache.take());
    // Key 1 now has heat 2. A fresh key 3 (heat 1) is evicted before it.
    cache.insert(3, 30);
    assert_eq!(Some(30), cache.take());
    // Key 1 is down to heat 1, so a fresh key 4 behind it outlasts it.
    cache.insert(4, 40);
    assert_eq!(Some(10), cache.take());
    assert_eq!(Some(40), cache.take());
}

#[test]
fn least_heat_first_in_order_is_evicted() {
    let mut cache: PoolCache<u64, u32> = PoolCache::new(4);
    cache.insert(1, 10);
    cache.insert(2, 20);
    cache.insert(3, 30);
    cache.get(&1);
    cache.get(&3);
    // Heats: 1 -> 2, 2 -> 1, 3 -> 2. Key 2 goes first.
    assert_eq!(Some(20), cache.take());
    // Heats now: 1 -> 1, 3 -> 2 (key 3 was not reached). Key 1 goes next.
    assert_eq!(Some(10), cache.take());
    assert_eq!(Some(30), cache.take());
    assert_eq!(None, cache.take());
}

#[test]
fn ceiling_of_one_evicts_in_sweep_order() {
    let mut cache: PoolCache<u64, u32> = PoolCache::new(1);
    cache.insert(5, 50);
    cache.insert(3, 30);
    cache.get(&3);
    cache.get(&3);
    assert_eq!(Some(50), cache.take());
    assert_eq!(Some(30), cache.take());
    assert_eq!(None, cache.take());
}

#[test]
fn get_of_absent_key_is_none() {
    let mut cache: PoolCache<u64, String> = PoolCache::new(5);
    assert_eq!(None, cache.get(&42));
    cache.insert(42, String::from("x"));
    assert_eq!(Some(&String::from("x")), cache.get(&42));
    assert_eq!(None, cache.get(&41));
}

#[test]
fn largest_key_and_ceiling() {
    let mut cache: PoolCache<u64, u8> = PoolCache::new(u64::MAX);
    cache.insert(u64::MAX, 1);
    for _ in 0..3 {
        cache.get(&u64::MAX);
    }
    cache.insert(0, 2);
    assert_eq!(Some(2), cache.take());
    assert_eq!(Some(1), cache.take());
    assert_eq!(None, cache.take());
}
