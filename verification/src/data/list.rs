use vstd::prelude::*;

verus! {

/// A node of a singly linked list.
#[derive(Debug)]
pub struct Node<V> {
    pub v: V,
    pub next: Option<Box<Node<V>>>,
}

/// The values of a list, front to back.
pub open spec fn list_values<V>(o: Option<Box<Node<V>>>) -> Seq<V>
    decreases o,
{
    match o {
        Some(n) => seq![n.v] + list_values(n.next),
        None => Seq::empty(),
    }
}

/// Reverse a linked list in place, relinking each node onto the front of
/// the already-reversed part.
pub fn reverse<V>(head: Option<Box<Node<V>>>) -> (r: Option<Box<Node<V>>>)
    ensures
        list_values(r) == list_values(head).reverse(),
{
    let ghost orig = list_values(head);
    let mut node = head;
    let mut previous: Option<Box<Node<V>>> = None;

    while node.is_some()
        invariant
            orig.reverse() =~= list_values(node).reverse() + list_values(previous),
        decreases list_values(node).len(),
    {
        let boxed = node.unwrap();
        let inner = *boxed;
        let ghost node_rest = list_values(inner.next);
        proof {
            assert((seq![inner.v] + node_rest).reverse() =~= node_rest.reverse() + seq![inner.v]);
        }
        let next = inner.next;
        previous = Some(Box::new(Node { v: inner.v, next: previous }));
        node = next;
    }
    proof {
        assert(list_values(previous) =~= orig.reverse());
    }
    previous
}

} // verus!
