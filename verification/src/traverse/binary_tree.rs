use vstd::prelude::*;

use crate::data::binary_tree::{
    NodeTree, inorder_values, opt_inorder, opt_postorder, opt_preorder, postorder_values,
    preorder_values,
};

verus! {

/// Pre-order traversal: exactly the tree's pre-order value sequence.
pub fn pre_order_traversal_values<T: Copy>(tree: &NodeTree<T>) -> (output: Vec<T>)
    ensures
        output@ == preorder_values(*tree),
{
    let mut output: Vec<T> = Vec::new();
    n_l_r(&mut output, tree);
    output
}

/// Append the pre-order values of `node` to `output`.
pub fn n_l_r<T: Copy>(output: &mut Vec<T>, node: &NodeTree<T>)
    ensures
        final(output)@ == old(output)@ + preorder_values(*node),
    decreases *node,
{
    output.push(node.value);
    match &node.left {
        Some(left) => n_l_r(output, &**left),
        None => {},
    }
    match &node.right {
        Some(right) => n_l_r(output, &**right),
        None => {},
    }
    proof {
        assert(final(output)@ =~= old(output)@ + preorder_values(*node));
    }
}

/// In-order traversal: exactly the tree's in-order value sequence.
pub fn in_order_traversal_values<T: Copy>(tree: &NodeTree<T>) -> (output: Vec<T>)
    ensures
        output@ == inorder_values(*tree),
{
    let mut output: Vec<T> = Vec::new();
    l_n_r(&mut output, tree);
    output
}

/// Append the in-order values of `node` to `output`.
pub fn l_n_r<T: Copy>(output: &mut Vec<T>, node: &NodeTree<T>)
    ensures
        final(output)@ == old(output)@ + inorder_values(*node),
    decreases *node,
{
    match &node.left {
        Some(left) => l_n_r(output, &**left),
        None => {},
    }
    output.push(node.value);
    match &node.right {
        Some(right) => l_n_r(output, &**right),
        None => {},
    }
    proof {
        assert(final(output)@ =~= old(output)@ + inorder_values(*node));
    }
}

/// Post-order traversal: exactly the tree's post-order value sequence.
pub fn post_order_traversal_values<T: Copy>(tree: &NodeTree<T>) -> (output: Vec<T>)
    ensures
        output@ == postorder_values(*tree),
{
    let mut output: Vec<T> = Vec::new();
    l_r_n(&mut output, tree);
    output
}

/// Append the post-order values of `node` to `output`.
pub fn l_r_n<T: Copy>(output: &mut Vec<T>, node: &NodeTree<T>)
    ensures
        final(output)@ == old(output)@ + postorder_values(*node),
    decreases *node,
{
    match &node.left {
        Some(left) => l_r_n(output, &**left),
        None => {},
    }
    match &node.right {
        Some(right) => l_r_n(output, &**right),
        None => {},
    }
    output.push(node.value);
    proof {
        assert(final(output)@ =~= old(output)@ + postorder_values(*node));
    }
}

} // verus!
