use movies_data::list::List;
use movies_data::list::Node;

#[test]
fn node_new_holds_value() {
    let n = Node::new(7);
    assert_eq!(n.val, 7);
    assert!(n.next.is_none());
}

#[test]
fn new_list_is_empty() {
    let l: List<i32> = List::new();
    assert_eq!(l.len(), 0);
}

#[test]
fn add_list_prepends_and_counts() {
    let mut l: List<i32> = List::new();
    l.add_list(1);
    l.add_list(2);
    l.add_list(3);
    assert_eq!(l.len(), 3);
    let mut it = l.traverse();
    assert_eq!(*it.next().unwrap(), 3);
    assert_eq!(*it.next().unwrap(), 2);
    assert_eq!(*it.next().unwrap(), 1);
    assert!(it.next().is_none());
}

#[test]
fn traversals_are_independent_and_restartable() {
    let mut l: List<i32> = List::new();
    l.add_list(10);
    l.add_list(20);
    let mut a = l.traverse();
    let mut b = l.traverse();
    assert_eq!(*a.next().unwrap(), 20);
    assert_eq!(*b.next().unwrap(), 20);
    assert_eq!(*a.next().unwrap(), 10);
    assert_eq!(*b.next().unwrap(), 10);
    let mut c = l.traverse();
    assert_eq!(*c.next().unwrap(), 20);
}
