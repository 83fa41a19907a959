use cfgdb::skip_list::LevelGenerator;
use cfgdb::skip_list::Node;
use cfgdb::skip_list::SkipList;

#[test]
fn skip_list_connect_node_test() {
    let mut list: SkipList = SkipList::with_capacity(16);
    let _ = list.insert(10, 10);
    let _ = list.insert(30, 30);

    let pairs = list.iter();
    assert_eq!(pairs[0].0, 10);
    assert_eq!(pairs[1].0, 30);

    let _ = list.insert(20, 20);

    let pairs = list.iter();
    assert_eq!(pairs[0].0, 10);
    assert_eq!(pairs[1].0, 20);
    assert_eq!(pairs[2].0, 30);
}

#[test]
fn delete_node_test() {
    let mut list: SkipList = SkipList::with_capacity(16);
    let _ = list.insert(10, 10);
    let _ = list.insert(30, 30);
    let _ = list.insert(20, 20);

    let _ = list.delete(&20);

    let pairs = list.iter();
    assert_eq!(pairs[0].0, 10);
    assert_eq!(pairs[1].0, 30);
}

#[test]
fn skip_list_simple_test() {
    let node = Node::new(10, 20, 3);
    assert_eq!(node.val, 20)
}

#[test]
fn skip_list_print_test() {
    let mut list: SkipList = SkipList::with_capacity(16);
    let _ = list.insert(200, 200);
    let _ = list.insert(1, 1);
    let _ = list.insert(80, 800);
    let _ = list.insert(800, 800);
    let _ = list.insert(8, 800);

    let mut vec = vec![];

    for el in list.iter() {
        vec.push(el.0);
    }
    assert_eq!(vec, vec![1, 8, 80, 200, 800])
}

#[test]
fn skip_list_skip_list_test() {
    for _ in 1..100 {
        insert_to_list()
    }
}

fn insert_to_list() {
    let mut list: SkipList = SkipList::with_capacity(16);
    let _ = list.insert(200, 200);
    let _ = list.insert(1, 1);
    let _ = list.insert(80, 80);
    let _ = list.insert(10, 10);
    let _ = list.insert(70, 70);
    let _ = list.insert(20, 20);
    let _ = list.insert(800, 800);

    test_search(list.search(&200), 200);
    test_search(list.search(&20), 20);
    test_search(list.search(&1), 1);
    test_search(list.search(&80), 80);
    test_search(list.search(&800), 800);
    test_search_not(list.search(&8000));
}

#[test]
fn skip_list_delete_one_test() {
    let mut list: SkipList = SkipList::with_capacity(16);
    let _ = list.insert(1, 1);
    let _ = list.insert(200, 200);

    test_search(list.search(&1), 1);
    test_search(list.delete(&1), 1);
    test_search_not(list.search(&1));
}

#[test]
fn skip_list_size_test() {
    let mut list: SkipList = SkipList::with_capacity(16);
    assert_eq!(list.size(), 0);

    test_search_not(list.insert(1, 1));
    test_search(list.search(&1), 1);
    assert_eq!(list.size(), 1);

    test_search(list.delete(&1), 1);
    test_search_not(list.search(&1));
    assert_eq!(list.size(), 0 as usize)
}

#[test]
fn skip_list_delete_test() {
    let mut list: SkipList = SkipList::with_capacity(16);

    for el in 1..100 {
        test_search_not(list.insert(el, el));
        test_search(list.search(&el), el);
        assert_eq!(list.size(), el as usize)
    }

    for el in 1..100 {
        test_search(list.delete(&el), el);
        test_search_not(list.search(&el));
        assert_eq!(list.size(), (99 - el) as usize)
    }
}

#[test]
fn skip_list_delete_empty_test() {
    let mut list: SkipList = SkipList::with_capacity(16);
    let _ = list.insert(1, 1);

    test_search(list.search(&1), 1);
    test_search(list.delete(&1), 1);
    test_search_not(list.search(&1));
}

fn test_search(got_val: Option<u64>, exp_val: u64) {
    assert_eq!(got_val.is_some(), true);
    assert_eq!(got_val, Some(exp_val));
}

fn test_search_not(got_val: Option<u64>) {
    assert_eq!(got_val.is_none(), true);
}

#[test]
fn skip_list_double_insert_test() {
    let mut list: SkipList = SkipList::new();
    let opt1 = list.insert(10, 10);
    let opt2 = list.insert(10, 11);
    assert_eq!(opt1, None);
    assert_eq!(opt2, Some(10));

    let opt = list.search(&10);
    assert_eq!(opt.unwrap(), 11)
}

#[test]
fn skip_list_simple_skip_list_test() {
    let mut list: SkipList = SkipList::with_capacity(4000_000_000);
    let opt = list.insert(10, 10);
    assert_eq!(opt.is_none(), true);
    assert_eq!(list.levels(), 31);

    let opt = list.insert(10, 100);
    assert_eq!(opt.is_none(), false);
    assert_eq!(opt.unwrap(), 10);
}

#[test]
fn skip_list_rand_test() {
    let gen = LevelGenerator::new();
    for _ in 0..1000_000 {
        let i = gen.random(16);
        assert_eq!(true, i < 16)
    }
}

#[test]
fn skip_list_iter_all_test() {
    let mut list: SkipList = SkipList::with_capacity(16);
    let _ = list.insert(5, 50);
    let _ = list.insert(2, 20);
    let _ = list.insert(9, 90);

    for (k, v, level) in list.iter_all() {
        assert_eq!(v, k * 10);
        assert!(level >= 1);
        assert!(list.search(&k) == Some(v));
    }
}

#[test]
fn skip_list_clear_test() {
    let mut list: SkipList = SkipList::with_capacity(16);
    let _ = list.insert(7, 7);
    let _ = list.insert(8, 8);
    list.clear();
    assert_eq!(list.size(), 0);
    assert_eq!(list.search(&7), None);
    let _ = list.insert(3, 33);
    assert_eq!(list.search(&3), Some(33));
}

#[test]
fn connect_node_test() {
    let mut list: SkipList = SkipList::with_capacity(16);
    let _ = list.insert(10, 10);
    let _ = list.insert(30, 30);

    let pairs = list.iter();
    assert_eq!(pairs[0].0, 10);
    assert_eq!(pairs[1].0, 30);

    let _ = list.insert(20, 20);

    let pairs = list.iter();
    assert_eq!(pairs[0].0, 10);
    assert_eq!(pairs[1].0, 20);
    assert_eq!(pairs[2].0, 30);
}

#[test]
fn simple_test() {
    let node = Node::new(10, 20, 3);
    assert_eq!(node.val, 20)
}
