use cfgdb::commit_log::FromBytes;
use cfgdb::commit_log::Index;
use cfgdb::commit_log::Record;
use cfgdb::commit_log::RecordType;
use cfgdb::commit_log::ToBytes;

#[test]
fn test() {}

#[test]
fn commit_log_record_test() {
    let k = [0; 10];
    let v = [0; 15];

    let rec = Record::insert_record(k.to_vec(), v.to_vec());
    assert_eq!(rec.key_len, 10);
    assert_eq!(rec.val_len, 15);
    assert_eq!(rec.key, k.to_vec());
    assert_eq!(rec.val, v.to_vec());
    assert_eq!(rec.size_in_bytes(), 50);
    assert_eq!(rec.operation, RecordType::Insert);

    let rec = Record::delete_record(k.to_vec(), v.to_vec());
    assert_eq!(rec.operation, RecordType::Delete);

    let rec = Record::lock_record(k.to_vec(), v.to_vec());
    assert_eq!(rec.operation, RecordType::Lock);

    let vec = rec.to_bytes();
    assert_eq!(vec.len(), rec.size_in_bytes() as usize);

    if let Ok(rec_from_bt) = Record::from_bytes(&vec) {
        assert_eq!(rec_from_bt, rec)
    } else {
        panic!("should be there")
    }
}

#[test]
fn transaction_log_record_test() {
    let k = [0; 10];
    let v = [0; 15];

    let rec = Record::insert_record(k.to_vec(), v.to_vec());
    assert_eq!(rec.key_len, 10);
    assert_eq!(rec.val_len, 15);
    assert_eq!(rec.key, k.to_vec());
    assert_eq!(rec.val, v.to_vec());
    assert_eq!(rec.size_in_bytes(), 50);
    assert_eq!(rec.operation, RecordType::Insert);

    let rec = Record::delete_record(k.to_vec(), v.to_vec());
    assert_eq!(rec.operation, RecordType::Delete);

    let rec = Record::lock_record(k.to_vec(), v.to_vec());
    assert_eq!(rec.operation, RecordType::Lock);

    let vec = rec.to_bytes();
    assert_eq!(vec.len(), rec.size_in_bytes() as usize);

    if let Ok(rec_from_bt) = Record::from_bytes(&vec) {
        assert_eq!(rec_from_bt, rec)
    } else {
        panic!("should be there")
    }
}

#[test]
fn commit_log_index_test() {
    let idx = Index::create(1000_000_000);

    let bts = &idx.to_bytes();
    let idx = Index::from_bytes(bts);

    assert_eq!(idx.unwrap().get_value(), 1000_000_000);

    let idx_arr = &vec![
        Index::create(1000_000_001),
        Index::create(1000_000_002),
        Index::create(1000_000_003),
    ];
    let arr = Index::array_to_bytes(idx_arr);
    if let Ok(res) = Index::from_bytes_array(arr.as_slice()) {
        assert_eq!(res.len(), 3);
        assert_eq!(res.contains(&Index::create(1000_000_001)), true);
        assert_eq!(res.contains(&Index::create(1000_000_002)), true);
        assert_eq!(res.contains(&Index::create(1000_000_003)), true);
    } else {
        panic!("assertion failed");
    }
}

#[test]
fn transaction_log_index_test() {
    let idx = Index::create(1000_000_000);

    let bts = &idx.to_bytes();
    let idx = Index::from_bytes(bts);

    assert_eq!(idx.unwrap().get_value(), 1000_000_000);

    let idx_arr = &vec![
        Index::create(1000_000_001),
        Index::create(1000_000_002),
        Index::create(1000_000_003),
    ];
    let arr = Index::array_to_bytes(idx_arr);
    if let Ok(res) = Index::from_bytes_array(arr.as_slice()) {
        assert_eq!(res.len(), 3);
        assert_eq!(res.contains(&Index::create(1000_000_001)), true);
        assert_eq!(res.contains(&Index::create(1000_000_002)), true);
        assert_eq!(res.contains(&Index::create(1000_000_003)), true);
    } else {
        panic!("assertion failed");
    }
}

#[test]
fn record_decode_errors_test() {
    assert!(Record::from_bytes(&[]).is_err());
    assert!(Record::from_bytes(&[9, 0, 0, 0]).is_err());
    let rec = Record::insert_record(vec![1, 2], vec![3]);
    let mut bytes = rec.to_bytes();
    bytes.truncate(20);
    assert!(Record::from_bytes(&bytes).is_err());
}

#[test]
fn index_decode_errors_test() {
    assert!(Index::from_bytes(&[1, 2, 3]).is_err());
    assert!(Index::from_bytes(&[1, 2, 3, 4, 5]).is_err());
    let idx = Index::create(77);
    let bytes = idx.to_bytes();
    assert_eq!(bytes.len(), 4);
    assert_eq!(Index::from_bytes(&bytes).unwrap().get_value(), 77);
}

#[test]
fn index_array_fragment_test() {
    let bytes = [0u8, 0, 0, 5, 0, 0, 0, 9, 1];
    let res = Index::from_bytes_array(&bytes).unwrap();
    assert_eq!(res.len(), 2);
    assert_eq!(res[0].get_value(), 5);
    assert_eq!(res[1].get_value(), 9);
}
