use scoped_lru::LruCache;

#[test]
fn test_put_and_get() {
    let mut cache: LruCache<String, String> = LruCache::new(2).unwrap();
    cache.scope(|mut cache, mut perm| {
        assert_eq!(cache.put("apple".to_string(), "red".to_string(), &mut perm), None);
        assert_eq!(cache.put("banana".to_string(), "yellow".to_string(), &mut perm), None);

        assert_eq!(cache.cap(), 2);
        assert_eq!(cache.len(), 2);
        assert!(!cache.is_empty());
        assert_eq!(cache.get(&"apple".to_string(), &perm), Some(&"red".to_string()));
        assert_eq!(cache.get(&"banana".to_string(), &perm), Some(&"yellow".to_string()));
    });
}

#[test]
fn test_multi_get() {
    let mut cache: LruCache<String, String> = LruCache::new(2).unwrap();

    cache.scope(|mut cache, mut perm| {
        assert_eq!(cache.put("apple".to_string(), "red".to_string(), &mut perm), None);
        assert_eq!(cache.put("banana".to_string(), "yellow".to_string(), &mut perm), None);
        assert_eq!(
            cache.put("lemon".to_string(), "yellow".to_string(), &mut perm),
            Some("red".to_string())
        );

        assert!(cache.get(&"apple".to_string(), &perm).is_none());
        assert_eq!(cache.get(&"banana".to_string(), &perm), Some(&"yellow".to_string()));
        assert_eq!(cache.get(&"lemon".to_string(), &perm), Some(&"yellow".to_string()));
        assert!(cache.get(&"watermelon".to_string(), &perm).is_none());
    });
}

#[test]
fn test_peek_mut() {
    let mut cache: LruCache<String, String> = LruCache::new(2).unwrap();

    cache.scope(|mut cache, mut perm| {
        cache.put("apple".to_string(), "red".to_string(), &mut perm);
        cache.put("banana".to_string(), "yellow".to_string(), &mut perm);

        assert_eq!(
            cache.peek_mut(&"banana".to_string(), &mut perm),
            Some(&mut "yellow".to_string())
        );
        assert_eq!(cache.peek_mut(&"apple".to_string(), &mut perm), Some(&mut "red".to_string()));
        assert!(cache.peek_mut(&"pear".to_string(), &mut perm).is_none());

        cache.put("pear".to_string(), "green".to_string(), &mut perm);

        assert!(cache.peek_mut(&"apple".to_string(), &mut perm).is_none());
        assert_eq!(
            cache.peek_mut(&"banana".to_string(), &mut perm),
            Some(&mut "yellow".to_string())
        );
        assert_eq!(cache.peek_mut(&"pear".to_string(), &mut perm), Some(&mut "green".to_string()));

        {
            let v = cache.peek_mut(&"banana".to_string(), &mut perm).unwrap();
            *v = "green".to_string();
        }

        assert_eq!(
            cache.peek_mut(&"banana".to_string(), &mut perm),
            Some(&mut "green".to_string())
        );
    });
}

#[test]
fn test_peek_mut_keeps_recency_order() {
    let mut cache: LruCache<String, String> = LruCache::new(2).unwrap();

    cache.scope(|mut cache, mut perm| {
        cache.put("apple".to_string(), "red".to_string(), &mut perm);
        cache.put("banana".to_string(), "yellow".to_string(), &mut perm);

        // A peek does not promote: apple stays the least recently used
        // entry even though it was peeked at last.
        assert!(cache.peek_mut(&"banana".to_string(), &mut perm).is_some());
        assert!(cache.peek_mut(&"apple".to_string(), &mut perm).is_some());

        assert_eq!(cache.put("pear".to_string(), "green".to_string(), &mut perm), Some("red".to_string()));
        assert!(cache.peek_mut(&"apple".to_string(), &mut perm).is_none());
    });
}

#[test]
fn test_scope_returns_closure_result() {
    let mut cache: LruCache<String, u64> = LruCache::new(3).unwrap();
    let total = cache.scope(|mut cache, mut perm| {
        cache.put("one".to_string(), 1, &mut perm);
        cache.put("two".to_string(), 2, &mut perm);
        let a = *cache.get(&"one".to_string(), &perm).unwrap();
        let b = *cache.get(&"two".to_string(), &perm).unwrap();
        a + b
    });
    assert_eq!(total, 3);
}

#[test]
fn test_state_survives_across_scopes() {
    let mut cache: LruCache<String, u64> = LruCache::new(2).unwrap();
    cache.scope(|mut cache, mut perm| {
        assert!(cache.is_empty());
        cache.put("kept".to_string(), 7, &mut perm);
    });
    cache.scope(|mut cache, perm| {
        assert_eq!(cache.len(), 1);
        assert_eq!(cache.get(&"kept".to_string(), &perm), Some(&7));
    });
}
