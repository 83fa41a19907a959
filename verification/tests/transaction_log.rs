use cfgdb::commit_log::Record;
use cfgdb::transaction_log::TransactionLog;

#[test]
fn read_all_log_test() {
    let mut t_log = TransactionLog::new();
    for i in 1..101 {
        let rec = &Record::delete_record(vec![1 as u8; i * 1], vec![1 as u8; i * 10]);
        match t_log.push(rec) {
            Err(e) => panic!("{}", e.0),
            _ => continue,
        }
    }
    let mut sizes = vec![0; 0];
    for i in 1..101 {
        let rev_i = 101 - i;
        let expected_size = (rev_i * 1 + rev_i * 10 + 25) as u32;
        sizes.push(expected_size);
    }

    match t_log.read_all_from_end(100) {
        Ok(records) => {
            for (i, r) in records.iter().enumerate() {
                assert_eq!(r.size_in_bytes(), *sizes.get(i).unwrap())
            }
        }
        Err(e) => panic!(" e {:?}", e),
    }
}

#[test]
fn read_log_test() {
    let mut t_log = TransactionLog::new();
    for i in 1..101 {
        let rec = &Record::insert_record(vec![1 as u8; i * 1], vec![1 as u8; i * 10]);
        match t_log.push(rec) {
            Err(e) => panic!("{}", e.0),
            _ => continue,
        }
    }
    for i in 1..101 {
        let rev_i = 101 - i;
        let expected_size = (rev_i * 1 + rev_i * 10 + 25) as u32;
        match t_log.read_from_end(i) {
            Ok(r) => assert_eq!(r.size_in_bytes(), expected_size),
            Err(e) => panic!(" e {:?}", e),
        }
    }
}

#[test]
fn dummy_performance_test() {
    let mut t_log = TransactionLog::new();
    let rec = &Record::insert_record(vec![1 as u8; 10], vec![1 as u8; 100]);
    for _ in 1..1000 {
        if let Err(e) = t_log.push(rec) {
            panic!("{}", e.0);
        }
    }
}

#[test]
fn commit_log_test() {
    let mut t_log = TransactionLog::new();
    let rec = Record::insert_record(vec![1 as u8; 10], vec![1 as u8; 20]);

    if let Ok(size_res) = t_log.push(&rec) {
        assert_eq!(size_res, 55);
    } else {
        panic!("panic")
    }
}

#[test]
fn tail_reads_last_pushed_test() {
    let mut t_log = TransactionLog::new();
    let first = Record::insert_record(vec![1, 2, 3], vec![4]);
    let second = Record::delete_record(vec![5], vec![6, 7]);
    t_log.push(&first).unwrap();
    t_log.push(&second).unwrap();
    let back = t_log.read_from_end(1).unwrap();
    assert_eq!(back, second);
    let back2 = t_log.read_from_end(2).unwrap();
    assert_eq!(back2, first);
    assert!(t_log.read_from_end(0).is_err());
    assert!(t_log.read_from_end(3).is_err());
}
