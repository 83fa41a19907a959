use std::rc::Rc;

use cfgdb::b_tree::InsertStack;
use cfgdb::b_tree::Node;
use cfgdb::b_tree::Tree;

#[test]
fn simple_tree_test() {
    let tree = tree();

    if let Some(_) = (&tree).search(&43) {
        panic!("")
    }
    if let Some(e) = (&tree).search(&4) {
        assert_eq!(e, Rc::new(4))
    } else {
        panic!("")
    }
    if let Some(e) = (&tree).search(&49) {
        assert_eq!(e, Rc::new(49))
    } else {
        panic!("")
    }
}

#[test]
fn b_tree_simple_test() {
    let leaf_1 = Node::new_leaf(vec![1, 2, 4], vec![1, 2, 4]);
    let mut stack = InsertStack::new();
    stack.push(Rc::new(leaf_1));
    if let Some(n) = stack.pop() {
        let node = n;
        println!("{:?}", node);
    };
}

fn tree() -> Tree<i32> {
    let leaf_1 = Node::new_leaf(vec![1, 2, 4], vec![1, 2, 4]);
    let leaf_2 = Node::new_leaf(vec![6, 8, 9, 10], vec![6, 8, 9, 10]);
    let leaf_3 = Node::new_leaf(vec![12, 14, 16, 17], vec![12, 14, 16, 17]);
    let leaf_4 = Node::new_leaf(vec![20, 22, 24], vec![20, 22, 24]);
    let leaf_5 = Node::new_leaf(vec![27, 28, 32], vec![27, 28, 32]);
    let leaf_6 = Node::new_leaf(vec![34, 38, 39, 41], vec![34, 38, 39, 41]);
    let leaf_7 = Node::new_leaf(vec![44, 47, 49], vec![44, 47, 49]);
    let leaf_8 = Node::new_leaf(vec![50, 60, 70], vec![50, 60, 70]);

    let node_1 = Node::new_node(vec![6], vec![leaf_1, leaf_2]);
    let node_2 = Node::new_node(vec![20, 27, 34], vec![leaf_3, leaf_4, leaf_5, leaf_6]);
    let node_3 = Node::new_node(vec![50], vec![leaf_7, leaf_8]);

    let root = Node::new_node(vec![12, 44], vec![node_1, node_2, node_3]);
    Tree::new(4, root)
}
