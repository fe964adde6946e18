use limmat::pool::Pool;

#[test]
fn test_empty_blocks() {
    let mut pool = Pool::<bool>::new(vec![]);
    assert!(pool.get().is_none(), "empty pool returned value");
}

#[test]
fn test_get_some() {
    let mut pool = Pool::<String>::new(["one", "two", "three"].map(|s| s.to_owned()).to_vec());
    // We don't actually functionally care about the order of the returned values, but
    //  - Stack order seems more cache-friendly
    //  - Asserting on the specific values is an easy way to check nothing insane is happening.
    {
        let obj3 = pool.get().unwrap();
        assert_eq!(obj3, "three");
        let obj2 = pool.get().unwrap();
        assert_eq!(obj2, "two");
        let obj1 = pool.get().unwrap();
        assert_eq!(obj1, "one");
        assert!(pool.get().is_none(), "empty pool returned value");
        pool.put(obj1);
        pool.put(obj2);
        pool.put(obj3);
    }
    let obj = pool.get().unwrap();
    assert_eq!(obj, "three");
}

#[test]
fn putting_back_restores_the_pool() {
    let mut pool = Pool::new(vec![1, 2]);
    for _ in 0..3 {
        let obj = pool.get().unwrap();
        assert_eq!(obj, 2);
        pool.put(obj);
    }
    assert_eq!(pool.get(), Some(2));
    assert_eq!(pool.get(), Some(1));
    assert_eq!(pool.get(), None);
}
