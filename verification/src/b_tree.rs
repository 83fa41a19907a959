use vstd::prelude::*;
use std::rc::Rc;

verus! {

/// Where a key comparison sends the lookup inside one node.
enum SearchRes {
    Down(usize),
    Found(usize),
    Missing,
}

/// A node of the order-`diam` tree sketch: an inner node holds separator
/// keys and edges, a leaf holds keys and their records.
#[derive(Debug)]
pub enum Node<P> {
    Node { keys: Vec<i32>, edges: Vec<Rc<Node<P>>> },
    Leaf { keys: Vec<i32>, pts: Vec<Rc<P>> },
}

impl<P> Node<P> {
    /// An inner node over the given keys and subtrees.
    pub fn new_node(keys: Vec<i32>, edges: Vec<Node<P>>) -> (r: Node<P>)
        ensures
            r is Node,
    {
        let mut rc_edges: Vec<Rc<Node<P>>> = Vec::new();
        let mut i: usize = 0;
        let n = edges.len();
        let mut rest = edges;
        while i < n
            invariant
                i + rest@.len() == n,
            decreases n - i,
        {
            if rest.len() > 0 {
                let e = rest.remove(0);
                rc_edges.push(Rc::new(e));
            }
            i = i + 1;
        }
        Node::Node { keys, edges: rc_edges }
    }

    /// A leaf over the given keys and records.
    pub fn new_leaf(keys: Vec<i32>, pts: Vec<P>) -> (r: Node<P>)
        ensures
            r is Leaf,
    {
        let mut rc_pts: Vec<Rc<P>> = Vec::new();
        let mut i: usize = 0;
        let n = pts.len();
        let mut rest = pts;
        while i < n
            invariant
                i + rest@.len() == n,
            decreases n - i,
        {
            if rest.len() > 0 {
                let p = rest.remove(0);
                rc_pts.push(Rc::new(p));
            }
            i = i + 1;
        }
        Node::Leaf { keys, pts: rc_pts }
    }

    /// The subtree behind edge `i` of an inner node.
    fn get_node(&self, i: usize) -> (r: Option<Rc<Node<P>>>) {
        match self {
            Node::Node { edges, .. } => {
                if i < edges.len() {
                    Some(edges[i].clone())
                } else {
                    None
                }
            }
            Node::Leaf { .. } => None,
        }
    }

    /// The record at slot `i` of a leaf.
    fn get_ptr(&self, i: usize) -> (r: Option<Rc<P>>) {
        match self {
            Node::Node { .. } => None,
            Node::Leaf { pts, .. } => {
                if i < pts.len() {
                    Some(pts[i].clone())
                } else {
                    None
                }
            }
        }
    }

    /// One comparison pass over a node's keys: in an inner node the edge
    /// to descend, in a leaf the slot of an exact match.
    fn search(&self, key: &i32) -> (r: SearchRes) {
        match self {
            Node::Node { keys, .. } => {
                let mut i: usize = 0;
                while i < keys.len()
                    invariant
                        i <= keys@.len(),
                    decreases keys@.len() - i,
                {
                    if *key <= keys[i] {
                        return SearchRes::Down(i);
                    }
                    i = i + 1;
                }
                SearchRes::Down(i)
            }
            Node::Leaf { keys, .. } => {
                let mut i: usize = 0;
                while i < keys.len()
                    invariant
                        i <= keys@.len(),
                    decreases keys@.len() - i,
                {
                    if *key == keys[i] {
                        return SearchRes::Found(i);
                    }
                    if *key < keys[i] {
                        return SearchRes::Missing;
                    }
                    i = i + 1;
                }
                SearchRes::Missing
            }
        }
    }
}

/// The tree sketch: a root and the intended node width.  Lookups work;
/// growing the tree is left open, as the balancing split is not built.
pub struct Tree<P> {
    diam: usize,
    root: Rc<Node<P>>,
}

impl<P> Tree<P> {
    /// A tree over a prebuilt root.
    pub fn new(diam: usize, root: Node<P>) -> (r: Tree<P>) {
        Tree { diam, root: Rc::new(root) }
    }

    /// Walks from the root towards a leaf holding the key.  The descent
    /// is bounded by a generous depth, since shared subtrees cannot be
    /// ruled out by the types alone.
    pub fn search(&self, key: &i32) -> (r: Option<Rc<P>>) {
        let mut node = self.root.clone();
        let mut fuel: u64 = 0xffff_ffff;
        while fuel > 0
            decreases fuel,
        {
            fuel = fuel - 1;
            match node.search(key) {
                SearchRes::Down(i) => match node.get_node(i) {
                    Some(nd) => {
                        node = nd;
                    }
                    None => {
                        return None;
                    }
                },
                SearchRes::Found(i) => {
                    return node.get_ptr(i);
                }
                SearchRes::Missing => {
                    return None;
                }
            }
        }
        None
    }
}

/// The stack of visited ancestors an insertion would rewind through.
pub struct InsertStack<P> {
    nodes: Vec<Rc<Node<P>>>,
}

impl<P> InsertStack<P> {
    /// The remembered nodes, oldest first.
    pub closed spec fn view_nodes(&self) -> Seq<Rc<Node<P>>> {
        self.nodes@
    }

    /// An empty stack.
    pub fn new() -> (r: InsertStack<P>)
        ensures
            r.view_nodes() == Seq::<Rc<Node<P>>>::empty(),
    {
        InsertStack { nodes: Vec::new() }
    }

    /// Remembers one more node.
    pub fn push(&mut self, node: Rc<Node<P>>)
        ensures
            final(self).view_nodes() == old(self).view_nodes().push(node),
    {
        self.nodes.push(node);
    }

    /// Hands the most recent node back.
    pub fn pop(&mut self) -> (r: Option<Rc<Node<P>>>)
        ensures
            old(self).view_nodes().len() > 0 ==> r == Some(old(self).view_nodes().last())
                && final(self).view_nodes() == old(self).view_nodes().drop_last(),
            old(self).view_nodes().len() == 0 ==> r is None && final(self).view_nodes() == old(
                self,
            ).view_nodes(),
    {
        let r = self.nodes.pop();
        proof {
            if old(self).view_nodes().len() > 0 {
                assert(final(self).view_nodes() =~= old(self).view_nodes().drop_last());
            }
        }
        r
    }
}

} // verus!
