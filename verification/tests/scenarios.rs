use scoped_lru::{ConfigurationError, LruCache};

#[test]
fn test_zero_capacity_is_refused() {
    let r: Result<LruCache<String, String>, ConfigurationError> = LruCache::new(0);
    assert!(matches!(r, Err(ConfigurationError)));
    assert!(LruCache::<u64, u64>::new(1).is_ok());
}

#[test]
fn test_evicted_value_returned_for_new_key() {
    // Capacity 2: the third distinct key evicts the first and its insert
    // hands back the evicted value, although that value was never stored
    // under the key just inserted.
    let mut cache: LruCache<String, String> = LruCache::new(2).unwrap();
    cache.scope(|mut cache, mut perm| {
        assert_eq!(cache.put("a".to_string(), "red".to_string(), &mut perm), None);
        assert_eq!(cache.put("b".to_string(), "yellow".to_string(), &mut perm), None);
        assert_eq!(
            cache.put("c".to_string(), "green".to_string(), &mut perm),
            Some("red".to_string())
        );

        assert_eq!(cache.get(&"a".to_string(), &perm), None);
        assert_eq!(cache.get(&"b".to_string(), &perm), Some(&"yellow".to_string()));
        assert_eq!(cache.get(&"c".to_string(), &perm), Some(&"green".to_string()));
    });
}

#[test]
fn test_get_promotes_before_eviction() {
    // Capacity 2: a read of `a` promotes it, so the next insert evicts `b`.
    let mut cache: LruCache<u64, u64> = LruCache::new(2).unwrap();
    cache.scope(|mut cache, mut perm| {
        assert_eq!(cache.put(1, 1, &mut perm), None);
        assert_eq!(cache.put(2, 2, &mut perm), None);
        assert_eq!(cache.get(&1, &perm), Some(&1));
        assert_eq!(cache.put(3, 3, &mut perm), Some(2));

        assert_eq!(cache.get(&2, &perm), None);
        assert_eq!(cache.get(&1, &perm), Some(&1));
        assert_eq!(cache.get(&3, &perm), Some(&3));
    });
}

#[test]
fn test_eviction_takes_least_recently_used() {
    // Capacity 3: after three inserts the first key inserted has gone
    // longest untouched, so the fourth insert evicts exactly it.
    let mut cache: LruCache<u64, String> = LruCache::new(3).unwrap();
    cache.scope(|mut cache, mut perm| {
        cache.put(10, "ten".to_string(), &mut perm);
        cache.put(20, "twenty".to_string(), &mut perm);
        cache.put(30, "thirty".to_string(), &mut perm);
        assert_eq!(cache.put(40, "forty".to_string(), &mut perm), Some("ten".to_string()));

        assert_eq!(cache.len(), 3);
        assert!(cache.get(&10, &perm).is_none());
        assert!(cache.get(&20, &perm).is_some());
        assert!(cache.get(&30, &perm).is_some());
        assert!(cache.get(&40, &perm).is_some());
    });
}

#[test]
fn test_touch_on_read_protects_key() {
    // Capacity 3: `a` is inserted first, but a read touches it, so the
    // insert that overflows the cache evicts the untouched `b` instead.
    let mut cache: LruCache<u64, u64> = LruCache::new(3).unwrap();
    cache.scope(|mut cache, mut perm| {
        cache.put(1, 100, &mut perm);
        cache.put(2, 200, &mut perm);
        cache.put(3, 300, &mut perm);
        assert_eq!(cache.get(&1, &perm), Some(&100));
        assert_eq!(cache.put(4, 400, &mut perm), Some(200));

        assert!(cache.get(&2, &perm).is_none());
        assert_eq!(cache.get(&1, &perm), Some(&100));
        assert_eq!(cache.get(&3, &perm), Some(&300));
        assert_eq!(cache.get(&4, &perm), Some(&400));
    });
}

#[test]
fn test_update_existing_key_never_evicts() {
    // A put on a present key at full capacity rewrites in place: the
    // previous value comes back, nothing is evicted, the length holds.
    let mut cache: LruCache<String, u64> = LruCache::new(2).unwrap();
    cache.scope(|mut cache, mut perm| {
        cache.put("x".to_string(), 1, &mut perm);
        cache.put("y".to_string(), 2, &mut perm);
        assert_eq!(cache.put("x".to_string(), 11, &mut perm), Some(1));

        assert_eq!(cache.len(), 2);
        assert_eq!(cache.get(&"y".to_string(), &perm), Some(&2));
        assert_eq!(cache.get(&"x".to_string(), &perm), Some(&11));
    });
}

#[test]
fn test_capacity_bound_under_many_puts() {
    // Seven inserts, five distinct keys, capacity 3: the length is the
    // minimum of the distinct-key count and the capacity at every step.
    let mut cache: LruCache<u64, u64> = LruCache::new(3).unwrap();
    cache.scope(|mut cache, mut perm| {
        cache.put(1, 1, &mut perm);
        assert_eq!(cache.len(), 1);
        cache.put(2, 2, &mut perm);
        assert_eq!(cache.len(), 2);
        cache.put(2, 22, &mut perm);
        assert_eq!(cache.len(), 2);
        cache.put(3, 3, &mut perm);
        assert_eq!(cache.len(), 3);
        cache.put(4, 4, &mut perm);
        assert_eq!(cache.len(), 3);
        cache.put(5, 5, &mut perm);
        assert_eq!(cache.len(), 3);
        cache.put(1, 10, &mut perm);
        assert_eq!(cache.len(), 3);
        assert!(cache.len() <= cache.cap());
    });
}

#[test]
fn test_nested_scopes_on_two_caches() {
    // Two caches may be open at once on the call stack; each scope's
    // handle and token work on their own cache.
    let mut x: LruCache<u64, u64> = LruCache::new(1).unwrap();
    let mut y: LruCache<u64, u64> = LruCache::new(1).unwrap();
    x.scope(|mut hx, mut px| {
        hx.put(1, 10, &mut px);
        y.scope(|mut hy, mut py| {
            hy.put(2, 20, &mut py);
            assert_eq!(hy.get(&2, &py), Some(&20));
        });
        assert_eq!(hx.get(&1, &px), Some(&10));
    });
    y.scope(|mut hy, py| {
        assert_eq!(hy.get(&2, &py), Some(&20));
    });
}

#[test]
fn test_usize_keys() {
    let mut cache: LruCache<usize, String> = LruCache::new(1).unwrap();
    cache.scope(|mut cache, mut perm| {
        assert_eq!(cache.put(5, "five".to_string(), &mut perm), None);
        assert_eq!(cache.put(6, "six".to_string(), &mut perm), Some("five".to_string()));
        assert_eq!(cache.get(&6, &perm), Some(&"six".to_string()));
        assert_eq!(cache.len(), 1);
    });
}
