use cfgdb::cuckoo_filter::Bucket;
use cfgdb::cuckoo_filter::CuckooFilter;
use cfgdb::cuckoo_filter::InsertResult;

#[test]
fn cuckoo_filter_bucket_test() {
    let mut bucket = Bucket::new(8);
    assert_eq!(false, bucket.contains(1));
    assert_eq!(false, bucket.is_full());
    assert_eq!(true, bucket.is_empty());

    bucket.insert(1);
    assert_eq!(true, bucket.contains(1));
    assert_eq!(false, bucket.is_full());
    assert_eq!(false, bucket.is_empty());

    for el in 2..9 {
        bucket.insert(el);
    }

    assert_eq!(true, bucket.is_full());
    assert_eq!(false, bucket.is_empty());
}

#[test]
fn full_cuckoo_test() {
    let mut f: CuckooFilter<i32> = CuckooFilter::new_with(1, 1);
    f.insert(&1);
    if let InsertResult::Full = f.insert(&1) {
    } else {
        assert!(false);
    };
}

#[test]
fn cuckoo_filter_cuckoo_test() {
    let mut f: CuckooFilter<i32> = CuckooFilter::new(2 << 16);

    for el in 1..10000 {
        match f.insert(&el) {
            InsertResult::Done(_) => assert_eq!(f.contains(&el), true),
            r @ _ => panic!("{:?} ", r),
        }
    }
    assert_eq!(false, f.contains(&10001))
}

#[test]
fn cuckoo_filter_hash_test() {
    let t: CuckooFilter<i64> = CuckooFilter::default();
    let fpr: usize = 123;
    let i1 = t.bucket(567);
    let i2 = t.bucket((fpr ^ i1) as i64);
    let i3 = t.bucket((fpr ^ i2) as i64);

    assert_eq!(i1, i3)
}

#[test]
fn filters_simple_test() {}

#[test]
fn filter_handler_grows_test() {
    let mut h: cfgdb::filters::FilterHandler<i32> = cfgdb::filters::FilterHandler::new();
    h.init_filter(0, 1);
    match h.add_to_filter(0, &5) {
        InsertResult::Done(_) => {}
        r @ _ => panic!("{:?}", r),
    }
    match h.add_to_filter(1, &5) {
        InsertResult::Fail(_) => {}
        r @ _ => panic!("{:?}", r),
    }
    for el in 0..64 {
        match h.add_to_filter(0, &el) {
            InsertResult::Done(_) => {}
            r @ _ => panic!("{:?}", r),
        }
    }
}

#[test]
fn bucket_test() {
    let mut bucket = Bucket::new(8);
    assert_eq!(false, bucket.contains(1));
    assert_eq!(false, bucket.is_full());
    assert_eq!(true, bucket.is_empty());

    bucket.insert(1);
    assert_eq!(true, bucket.contains(1));
    assert_eq!(false, bucket.is_full());
    assert_eq!(false, bucket.is_empty());

    for el in 2..9 {
        bucket.insert(el);
    }

    assert_eq!(true, bucket.is_full());
    assert_eq!(false, bucket.is_empty());
}

#[test]
fn cuckoo_saturation_keeps_member_test() {
    let mut f: CuckooFilter<i32> = CuckooFilter::new_with(1, 1);
    match f.insert(&1) {
        InsertResult::Done(_) => {}
        r @ _ => panic!("{:?}", r),
    }
    if let InsertResult::Full = f.insert(&1) {
    } else {
        panic!("expected a full filter");
    }
    assert_eq!(f.contains(&1), true);
}
