use vstd::prelude::*;

verus! {

/// Binary tree abstract interface: a node has a value and up to two
/// children.
pub trait Node<T>: Sized {
    fn left(&self) -> Option<&Self>;

    fn right(&self) -> Option<&Self>;

    fn value(&self) -> &T;
}

/// A binary tree as nodes owning their children.
pub struct NodeTree<T> {
    pub left: Option<Box<NodeTree<T>>>,
    pub right: Option<Box<NodeTree<T>>>,
    pub value: T,
}

impl<T> Node<T> for NodeTree<T> {
    fn left(&self) -> Option<&NodeTree<T>> {
        match &self.left {
            Some(child) => Some(&**child),
            None => None,
        }
    }

    fn right(&self) -> Option<&NodeTree<T>> {
        match &self.right {
            Some(child) => Some(&**child),
            None => None,
        }
    }

    fn value(&self) -> &T {
        &self.value
    }
}

/// The values of the tree in pre-order: node, left subtree, right subtree.
pub open spec fn preorder_values<T>(t: NodeTree<T>) -> Seq<T>
    decreases t,
{
    seq![t.value] + opt_preorder(t.left) + opt_preorder(t.right)
}

pub open spec fn opt_preorder<T>(o: Option<Box<NodeTree<T>>>) -> Seq<T>
    decreases o,
{
    match o {
        Some(child) => preorder_values(*child),
        None => Seq::empty(),
    }
}

/// The values of the tree in in-order: left subtree, node, right subtree.
pub open spec fn inorder_values<T>(t: NodeTree<T>) -> Seq<T>
    decreases t,
{
    opt_inorder(t.left) + seq![t.value] + opt_inorder(t.right)
}

pub open spec fn opt_inorder<T>(o: Option<Box<NodeTree<T>>>) -> Seq<T>
    decreases o,
{
    match o {
        Some(child) => inorder_values(*child),
        None => Seq::empty(),
    }
}

/// The values of the tree in post-order: left subtree, right subtree, node.
pub open spec fn postorder_values<T>(t: NodeTree<T>) -> Seq<T>
    decreases t,
{
    opt_postorder(t.left) + opt_postorder(t.right) + seq![t.value]
}

pub open spec fn opt_postorder<T>(o: Option<Box<NodeTree<T>>>) -> Seq<T>
    decreases o,
{
    match o {
        Some(child) => postorder_values(*child),
        None => Seq::empty(),
    }
}

/// A fixed sample tree of ten nodes, pinned down by its three traversal
/// orders.
pub fn make_test_nodetree() -> (t: NodeTree<usize>)
    ensures
        preorder_values(t) == seq![10usize, 7, 6, 1, 8, 9, 11, 20, 14, 22],
        inorder_values(t) == seq![1usize, 6, 7, 8, 9, 10, 11, 14, 20, 22],
        postorder_values(t) == seq![1usize, 6, 9, 8, 7, 14, 22, 20, 11, 10],
{
    let t = NodeTree {
        value: 10,
        left: Some(Box::new(NodeTree {
            value: 7,
            left: Some(Box::new(NodeTree {
                value: 6,
                left: Some(Box::new(NodeTree { value: 1, left: None, right: None })),
                right: None,
            })),
            right: Some(Box::new(NodeTree {
                value: 8,
                left: None,
                right: Some(Box::new(NodeTree { value: 9, left: None, right: None })),
            })),
        })),
        right: Some(Box::new(NodeTree {
            value: 11,
            left: None,
            right: Some(Box::new(NodeTree {
                value: 20,
                left: Some(Box::new(NodeTree { value: 14, left: None, right: None })),
                right: Some(Box::new(NodeTree { value: 22, left: None, right: None })),
            })),
        })),
    };
    proof {
        reveal_with_fuel(preorder_values, 10);
        reveal_with_fuel(opt_preorder, 10);
        reveal_with_fuel(inorder_values, 10);
        reveal_with_fuel(opt_inorder, 10);
        reveal_with_fuel(postorder_values, 10);
        reveal_with_fuel(opt_postorder, 10);
        assert(preorder_values(t) =~= seq![10usize, 7, 6, 1, 8, 9, 11, 20, 14, 22]);
        assert(inorder_values(t) =~= seq![1usize, 6, 7, 8, 9, 10, 11, 14, 20, 22]);
        assert(postorder_values(t) =~= seq![1usize, 6, 9, 8, 7, 14, 22, 20, 11, 10]);
    }
    t
}

} // verus!
