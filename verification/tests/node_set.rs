use dyn_widget::arena::NodeId;
use dyn_widget::node_set::NodeSet;

fn id(index: usize) -> NodeId {
    NodeId { index }
}

#[test]
fn insert_keeps_the_order_of_arrival() {
    let mut s = NodeSet::new();
    assert!(s.is_empty());
    s.insert(id(3));
    s.insert(id(1));
    s.insert(id(3));
    s.insert(id(2));
    assert_eq!(s.to_vec(), vec![id(3), id(1), id(2)]);
    assert_eq!(s.len(), 3);
    assert_eq!(s.get(1), id(1));
    assert!(s.contains(id(2)));
    assert!(!s.contains(id(4)));
}

#[test]
fn remove_takes_one_node_out() {
    let mut s = NodeSet::new();
    s.insert(id(3));
    s.insert(id(1));
    s.insert(id(2));
    assert!(s.remove(id(1)));
    assert!(!s.remove(id(1)));
    assert!(!s.remove(id(9)));
    assert_eq!(s.to_vec(), vec![id(3), id(2)]);
    assert!(s.remove(id(2)));
    assert!(s.remove(id(3)));
    assert!(s.is_empty());
}

#[test]
fn take_leaves_the_set_empty() {
    let mut s = NodeSet::new();
    s.insert(id(5));
    s.insert(id(4));
    assert_eq!(s.take(), vec![id(5), id(4)]);
    assert!(s.is_empty());
    assert_eq!(s.take(), Vec::<NodeId>::new());
    s.insert(id(4));
    assert_eq!(s.to_vec(), vec![id(4)]);
}
