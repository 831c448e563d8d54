use dyn_widget::arena::{NodeId, TreeArena};

fn arena_with(n: u32) -> (TreeArena<u32>, Vec<NodeId>) {
    let mut a = TreeArena::new();
    let ids = (0..n).map(|i| a.new_node(i)).collect();
    (a, ids)
}

#[test]
fn new_nodes_are_roots_and_live() {
    let (a, ids) = arena_with(3);
    assert_eq!(a.slots(), 3);
    for (i, id) in ids.iter().enumerate() {
        assert_eq!(id.index, i);
        assert_eq!(*a.get(*id), i as u32);
        assert_eq!(a.parent(*id), None);
        assert_eq!(a.first_child(*id), None);
        assert!(!a.dropped(*id));
    }
}

#[test]
fn unknown_handle_counts_as_dropped() {
    let (a, _) = arena_with(2);
    assert!(a.dropped(NodeId { index: 2 }));
    assert!(a.dropped(NodeId { index: usize::MAX }));
}

#[test]
fn append_keeps_order() {
    let (mut a, ids) = arena_with(4);
    a.append(ids[0], ids[1]);
    a.append(ids[0], ids[2]);
    a.append(ids[0], ids[3]);
    assert_eq!(a.children(ids[0]), vec![ids[1], ids[2], ids[3]]);
    assert_eq!(a.first_child(ids[0]), Some(ids[1]));
    assert_eq!(a.last_child(ids[0]), Some(ids[3]));
    assert_eq!(a.next_sibling(ids[1]), Some(ids[2]));
    assert_eq!(a.prev_sibling(ids[1]), None);
    assert_eq!(a.prev_sibling(ids[3]), Some(ids[2]));
    assert_eq!(a.next_sibling(ids[3]), None);
    assert_eq!(a.parent(ids[2]), Some(ids[0]));
}

#[test]
fn insert_before_and_after() {
    let (mut a, ids) = arena_with(5);
    a.append(ids[0], ids[1]);
    a.insert_before(ids[1], ids[2]);
    a.insert_after(ids[1], ids[3]);
    a.insert_after(ids[2], ids[4]);
    assert_eq!(a.children(ids[0]), vec![ids[2], ids[4], ids[1], ids[3]]);
    assert_eq!(a.first_child(ids[0]), Some(ids[2]));
    assert_eq!(a.last_child(ids[0]), Some(ids[3]));
}

#[test]
fn detach_keeps_the_subtree_walkable() {
    let (mut a, ids) = arena_with(5);
    a.append(ids[0], ids[1]);
    a.append(ids[0], ids[2]);
    a.append(ids[0], ids[3]);
    a.append(ids[2], ids[4]);
    a.detach(ids[2]);
    assert_eq!(a.children(ids[0]), vec![ids[1], ids[3]]);
    assert_eq!(a.next_sibling(ids[1]), Some(ids[3]));
    assert_eq!(a.prev_sibling(ids[3]), Some(ids[1]));
    assert_eq!(a.parent(ids[2]), None);
    assert_eq!(a.next_sibling(ids[2]), None);
    assert_eq!(a.prev_sibling(ids[2]), None);
    assert_eq!(a.descendants(ids[2]), vec![ids[2], ids[4]]);
    assert!(!a.dropped(ids[2]));
    assert!(!a.dropped(ids[4]));
    // detaching a root changes nothing
    a.detach(ids[2]);
    assert_eq!(a.descendants(ids[2]), vec![ids[2], ids[4]]);
}

#[test]
fn detach_first_and_last_child() {
    let (mut a, ids) = arena_with(4);
    a.append(ids[0], ids[1]);
    a.append(ids[0], ids[2]);
    a.append(ids[0], ids[3]);
    a.detach(ids[1]);
    assert_eq!(a.first_child(ids[0]), Some(ids[2]));
    assert_eq!(a.prev_sibling(ids[2]), None);
    a.detach(ids[3]);
    assert_eq!(a.last_child(ids[0]), Some(ids[2]));
    assert_eq!(a.next_sibling(ids[2]), None);
    a.detach(ids[2]);
    assert_eq!(a.first_child(ids[0]), None);
    assert_eq!(a.last_child(ids[0]), None);
    assert_eq!(a.children(ids[0]), Vec::<NodeId>::new());
}

#[test]
fn remove_subtree_drops_every_descendant_and_nothing_else() {
    let (mut a, ids) = arena_with(6);
    a.append(ids[0], ids[1]);
    a.append(ids[0], ids[2]);
    a.append(ids[1], ids[3]);
    a.append(ids[3], ids[4]);
    a.append(ids[2], ids[5]);
    a.remove_subtree(ids[1]);
    assert!(a.dropped(ids[1]));
    assert!(a.dropped(ids[3]));
    assert!(a.dropped(ids[4]));
    assert!(!a.dropped(ids[0]));
    assert!(!a.dropped(ids[2]));
    assert!(!a.dropped(ids[5]));
    assert_eq!(a.children(ids[0]), vec![ids[2]]);
    assert_eq!(a.slots(), 6);
}

#[test]
fn descendants_are_in_document_order() {
    let (mut a, ids) = arena_with(7);
    a.append(ids[0], ids[1]);
    a.append(ids[0], ids[2]);
    a.append(ids[1], ids[3]);
    a.append(ids[1], ids[4]);
    a.append(ids[2], ids[5]);
    a.append(ids[4], ids[6]);
    assert_eq!(
        a.descendants(ids[0]),
        vec![ids[0], ids[1], ids[3], ids[4], ids[6], ids[2], ids[5]]
    );
    assert_eq!(a.descendants(ids[5]), vec![ids[5]]);
    let mut out = vec![ids[0]];
    a.collect_forest(&vec![ids[2], NodeId { index: 99 }, ids[4]], &mut out);
    assert_eq!(out, vec![ids[0], ids[2], ids[5], ids[4], ids[6]]);
}

#[test]
fn replace_hands_back_the_old_payload() {
    let (mut a, ids) = arena_with(2);
    assert_eq!(a.replace(ids[1], 40), 1);
    assert_eq!(*a.get(ids[1]), 40);
    assert_eq!(*a.get(ids[0]), 0);
}

#[test]
fn single_child_and_its_test() {
    let (mut a, ids) = arena_with(3);
    assert!(a.has_single_child_at_most(ids[0]));
    assert_eq!(a.single_child(ids[0]), None);
    a.append(ids[0], ids[1]);
    assert!(a.has_single_child_at_most(ids[0]));
    assert_eq!(a.single_child(ids[0]), Some(ids[1]));
    a.append(ids[0], ids[2]);
    assert!(!a.has_single_child_at_most(ids[0]));
}

#[test]
fn ancestors_lead_up_to_the_root() {
    let (mut a, ids) = arena_with(5);
    a.append(ids[0], ids[1]);
    a.append(ids[1], ids[2]);
    a.append(ids[2], ids[3]);
    a.append(ids[0], ids[4]);
    assert_eq!(a.ancestors(ids[3]), vec![ids[2], ids[1], ids[0]]);
    assert_eq!(a.ancestors(ids[0]), Vec::<NodeId>::new());
    assert!(a.is_in_subtree(ids[3], ids[1]));
    assert!(a.is_in_subtree(ids[3], ids[3]));
    assert!(!a.is_in_subtree(ids[1], ids[3]));
    assert!(!a.is_in_subtree(ids[4], ids[1]));
    a.detach(ids[2]);
    assert_eq!(a.ancestors(ids[3]), vec![ids[2]]);
    assert!(!a.is_in_subtree(ids[3], ids[1]));
}
