use cfgdb::memtable::AddResult;
use cfgdb::memtable::MemTable;

#[test]
fn memtable_add_find_test() {
    let mut m = MemTable::default();
    assert_eq!(m.add(10, 100), AddResult::Done);
    assert_eq!(m.add(20, 200), AddResult::Done);
    assert_eq!(m.find(&10), Some(100));
    assert_eq!(m.find(&20), Some(200));
    assert_eq!(m.find(&30), None);
}

#[test]
fn memtable_overwrite_test() {
    let mut m = MemTable::default();
    assert_eq!(m.add(7, 70), AddResult::Done);
    assert_eq!(m.add(7, 77), AddResult::Done);
    assert_eq!(m.find(&7), Some(77));
}

#[test]
fn memtable_remove_test() {
    let mut m = MemTable::default();
    assert_eq!(m.add(5, 50), AddResult::Done);
    assert_eq!(m.remove(&5), Some(50));
    assert_eq!(m.find(&5), None);
    assert_eq!(m.remove(&5), None);
}

#[test]
fn memtable_item_limit_test() {
    let mut m = MemTable::new(2, 65536);
    assert_eq!(m.add(1, 1), AddResult::Done);
    assert_eq!(m.add(2, 2), AddResult::Done);
    assert_eq!(m.add(3, 3), AddResult::Full);
    assert_eq!(m.find(&3), None);
    assert_eq!(m.add(1, 11), AddResult::Done);
    assert_eq!(m.find(&1), Some(11));
}

#[test]
fn memtable_byte_limit_test() {
    let mut m = MemTable::new(4096, 32);
    assert_eq!(m.add(1, 1), AddResult::Done);
    assert_eq!(m.add(2, 2), AddResult::Done);
    assert_eq!(m.add(3, 3), AddResult::Full);
}
