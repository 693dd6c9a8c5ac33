use classic_algorithms::data::list::{Node, reverse};

#[test]
fn test_reverse() {
    // Create a new linked list
    let mut head = Some(Box::new(Node { v: 5, next: None }));
    head = Some(Box::new(Node { v: 4, next: head }));
    head = Some(Box::new(Node { v: 3, next: head }));
    head = Some(Box::new(Node { v: 2, next: head }));
    head = Some(Box::new(Node { v: 1, next: head }));

    let mut org_values = Vec::new();
    let mut node = &head;
    while let Some(current) = node {
        org_values.push(current.v);
        node = &current.next;
    }

    assert!(org_values == [1, 2, 3, 4, 5]);
    println!("Original Linked List: {:?}", head);

    // Reverse the linked list
    let reversed = reverse(head);
    let mut reversed_values = Vec::new();
    let mut node = &reversed;
    while let Some(current) = node {
        reversed_values.push(current.v);
        node = &current.next;
    }
    assert!(reversed_values == [5, 4, 3, 2, 1]);
    println!("Reversed Linked List: {:?}", reversed);
}

#[test]
fn reverse_empty_and_single() {
    let empty: Option<Box<Node<u32>>> = None;
    assert!(reverse(empty).is_none());

    let single = Some(Box::new(Node { v: 9, next: None }));
    let reversed = reverse(single).unwrap();
    assert_eq!(reversed.v, 9);
    assert!(reversed.next.is_none());
}
