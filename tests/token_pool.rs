use archive_engine::token_pool::TokenPool;

#[test]
fn test_indices() {
    let mut pool = TokenPool::new();
    let a = pool.alloc_token();
    let b = pool.alloc_token();
    let c = pool.alloc_token();
    assert_eq!([a.key(), b.key(), c.key()], [0, 1, 2]);

    pool.free(b);

    let d = pool.alloc_token();
    let e = pool.alloc_token();

    assert_eq!(d.key(), b.key());
    assert_eq!(e.key(), 3);
}

#[test]
fn test_allocs_lowest() {
    let mut pool = TokenPool::new();
    let a = pool.alloc_token();
    let _b = pool.alloc_token();
    let c = pool.alloc_token();

    pool.free(c);
    pool.free(a);

    let d = pool.alloc_token();
    assert_eq!(d.key(), 0);
}

#[test]
fn reused_key_gets_next_generation() {
    let mut pool = TokenPool::new();
    let a = pool.alloc_token();
    assert_eq!(a.generation(), 0);
    pool.free(a);
    let b = pool.alloc_token();
    assert_eq!(b.key(), a.key());
    assert_eq!(b.generation(), 1);
    assert_ne!(a, b);
}

#[test]
fn range_for_key_spans_one_key() {
    let mut pool = TokenPool::new();
    let _a = pool.alloc_token();
    let b = pool.alloc_token();
    let r = archive_engine::token_pool::PoolToken::range_for_key(1);
    assert!(r.contains(&b));
    assert_eq!(r.start.key(), 1);
    assert_eq!(r.end.key(), 2);
}
