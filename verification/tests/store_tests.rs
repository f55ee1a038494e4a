use redisless::RedisLess;

#[test]
fn test_set_get_and_del() {
    let mut redisless = RedisLess::new();
    redisless.set(b"key", b"xxx");
    assert_eq!(redisless.get(b"key"), Some(&b"xxx"[..]));
    assert_eq!(redisless.del(b"key"), 1);
    assert_eq!(redisless.del(b"key"), 0);
    assert_eq!(redisless.get(b"does not exist"), None);
}

#[test]
fn test_set_overwrites() {
    let mut store = RedisLess::new();
    store.set(b"k", b"first");
    store.set(b"k", b"second");
    assert_eq!(store.get(b"k"), Some(&b"second"[..]));
    assert_eq!(store.del(b"k"), 1);
    assert_eq!(store.get(b"k"), None);
}

#[test]
fn test_binary_keys_and_values() {
    let mut store = RedisLess::new();
    let key = [0u8, 255, 13, 10, 1];
    let value = [254u8, 0, 13, 10, 13, 10, 7];
    store.set(&key, &value);
    assert_eq!(store.get(&key), Some(&value[..]));
    assert_eq!(store.del(&key), 1);
    assert_eq!(store.get(&key), None);
}

#[test]
fn test_del_absent_key_returns_zero() {
    let mut store = RedisLess::new();
    assert_eq!(store.del(b"never set"), 0);
    store.set(b"a", b"1");
    store.set(b"b", b"2");
    assert_eq!(store.del(b"c"), 0);
    assert_eq!(store.get(b"a"), Some(&b"1"[..]));
    assert_eq!(store.get(b"b"), Some(&b"2"[..]));
}
