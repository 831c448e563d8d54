use dyn_widget::arena::NodeId;
use dyn_widget::dynamic_widget::{
    down_to_leaf, inspect_key, single_down, DynRender, DynWidget, DynWidgetGenInfo, Multi,
    WidgetsHost,
};
use dyn_widget::key::{Key, KeyChange, KeyWidget};
use dyn_widget::layout::{perform_layout, RegenError};
use dyn_widget::splice::{check_span, sibling_span};
use dyn_widget::widget::{Attachment, BoxClamp, DelayDrop, Render, Size, Widget};
use dyn_widget::widget_tree::{DelayEvent, WidgetTree};

fn clamp() -> BoxClamp {
    BoxClamp { min: Size::zero(), max: Size::new(800, 800) }
}

fn sized(w: u32, h: u32) -> Widget {
    Widget::new(Render::SizedBox(Size::new(w, h)))
}

fn multi() -> Widget {
    Widget::new(Render::Multi)
}

fn dyn_single(w: Widget) -> Widget {
    Widget::dynamic(DynRender::single(DynWidget { dyns: Some(w) }))
}

fn dyn_multi(ws: Vec<Widget>) -> Widget {
    Widget::dynamic(DynRender::multi(DynWidget { dyns: Some(Multi::new(ws)) }))
}

fn dyn_option(w: Option<Widget>) -> Widget {
    Widget::dynamic(DynRender::option(DynWidget { dyns: Some(w) }))
}

fn keyed(key: u64, value: char) -> Widget {
    sized(0, 0).with_key(KeyWidget::new(Key::new(key), value as u64))
}

fn layout(tree: &mut WidgetTree) {
    while tree.is_dirty() {
        for step in tree.layout(clamp()).0 {
            if let Some(result) = step.outcome {
                result.unwrap();
            }
        }
    }
}

fn root(tree: &WidgetTree) -> NodeId {
    tree.root.unwrap()
}

fn info(tree: &WidgetTree, id: NodeId) -> Option<DynWidgetGenInfo> {
    tree.arena.get(id).dynamic.as_ref().unwrap().gen_info
}

fn lingering(tree: &WidgetTree, id: NodeId) -> Vec<NodeId> {
    tree.arena.get(id).dynamic.as_ref().unwrap().drop_until_widgets.wids.to_vec()
}

#[derive(Default, Debug, PartialEq)]
struct Transitions {
    entered: Vec<u64>,
    updated: Vec<u64>,
    unchanged: Vec<u64>,
    left: Vec<u64>,
}

fn transitions(tree: &mut WidgetTree) -> Transitions {
    let mut t = Transitions::default();
    for e in tree.take_events() {
        match e {
            DelayEvent::Mounted(id) => {
                if let Some(k) = inspect_key(id, &tree.arena) {
                    if k.is_enter() {
                        t.entered.push(k.key.id);
                    } else if k.is_changed() {
                        t.updated.push(k.key.id);
                    } else {
                        t.unchanged.push(k.key.id);
                    }
                }
            }
            DelayEvent::Disposed { id, .. } => {
                if let Some(k) = inspect_key(id, &tree.arena) {
                    if k.is_leave() {
                        t.left.push(k.key.id);
                    }
                }
            }
        }
    }
    t
}

#[test]
fn key_lifecycle_of_overlapping_sets() {
    let w = multi().with_child(dyn_multi(vec![keyed(1, 'a'), keyed(2, 'b'), keyed(3, 'c')]));
    let mut tree = WidgetTree::new(w);
    layout(&mut tree);
    let t = transitions(&mut tree);
    assert_eq!(t.entered, vec![1, 2, 3]);
    assert_eq!(t.left, Vec::<u64>::new());

    let dyn_id = tree.arena.first_child(root(&tree)).unwrap();
    assert!(tree.set_declare_dyns(dyn_id, vec![keyed(2, 'b'), keyed(3, 'x'), keyed(4, 'd')]));
    layout(&mut tree);
    let t = transitions(&mut tree);
    assert_eq!(
        t,
        Transitions { entered: vec![4], updated: vec![3], unchanged: vec![2], left: vec![1] }
    );

    // nothing leaves twice
    let dyn_id = tree.arena.first_child(root(&tree)).unwrap();
    assert!(tree.set_declare_dyns(dyn_id, vec![keyed(2, 'b'), keyed(3, 'x'), keyed(4, 'd')]));
    layout(&mut tree);
    let t = transitions(&mut tree);
    assert_eq!(
        t,
        Transitions { entered: vec![], updated: vec![], unchanged: vec![2, 3, 4], left: vec![] }
    );
}

#[test]
fn keyed_list_with_one_item_replaced() {
    // every item has a static-looking subtree of its own below the keyed box
    let item = |k: u64, c: char| keyed(k, c).with_child(sized(1, 1));
    let w = multi().with_child(dyn_multi(vec![item(1, 'a'), item(2, 'b'), item(3, 'c')]));
    let mut tree = WidgetTree::new(w);
    layout(&mut tree);
    let _ = transitions(&mut tree);
    let before = tree.arena.children(root(&tree));
    assert_eq!(before.len(), 3);

    assert!(tree.set_declare_dyns(before[0], vec![item(1, 'a'), item(3, 'c'), item(4, 'd')]));
    layout(&mut tree);
    let t = transitions(&mut tree);
    assert_eq!(
        t,
        Transitions { entered: vec![4], updated: vec![], unchanged: vec![1, 3], left: vec![2] }
    );
    let after = tree.arena.children(root(&tree));
    assert_eq!(after.len(), 3);
    // the new roots know which values they had before
    let k1 = inspect_key(after[0], &tree.arena).unwrap();
    let k3 = inspect_key(after[1], &tree.arena).unwrap();
    let k4 = inspect_key(after[2], &tree.arena).unwrap();
    assert_eq!(k1.get_change(), KeyChange { before: Some('a' as u64), after: 'a' as u64 });
    assert_eq!(k3.get_change(), KeyChange { before: Some('c' as u64), after: 'c' as u64 });
    assert_eq!(k4.get_change(), KeyChange { before: None, after: 'd' as u64 });
    // the old roots know whether they have a successor
    assert!(inspect_key(before[0], &tree.arena).unwrap().has_successor);
    assert!(!inspect_key(before[1], &tree.arena).unwrap().has_successor);
    assert!(inspect_key(before[2], &tree.arena).unwrap().has_successor);
}

#[test]
fn duplicate_keys_pair_with_the_first_old_root() {
    let w = multi().with_child(dyn_multi(vec![keyed(7, 'a'), keyed(7, 'b')]));
    let mut tree = WidgetTree::new(w);
    layout(&mut tree);
    let olds = tree.arena.children(root(&tree));
    assert!(tree.set_declare_dyns(olds[0], vec![keyed(7, 'c'), keyed(7, 'd')]));
    layout(&mut tree);
    let news = tree.arena.children(root(&tree));
    assert_eq!(inspect_key(news[0], &tree.arena).unwrap().before_value, Some('a' as u64));
    assert_eq!(inspect_key(news[1], &tree.arena).unwrap().before_value, Some('a' as u64));
    assert!(inspect_key(olds[0], &tree.arena).unwrap().has_successor);
    assert!(!inspect_key(olds[1], &tree.arena).unwrap().has_successor);
}

#[test]
fn only_the_outermost_key_is_consulted() {
    let w = sized(0, 0)
        .with_key(KeyWidget::new(Key::new(1), 10))
        .with_delay_drop(true)
        .with_key(KeyWidget::new(Key::new(2), 20));
    let tree = WidgetTree::new(w);
    let k = inspect_key(root(&tree), &tree.arena).unwrap();
    assert_eq!(k.key, Key::new(2));
    assert_eq!(k.value, 20);
    assert_eq!(inspect_key(root(&tree), &WidgetTree::new(sized(0, 0)).arena), None);
}

#[test]
fn empty_output_is_one_placeholder() {
    let w = multi().with_child(dyn_multi(vec![sized(1, 1), sized(2, 2)]));
    let mut tree = WidgetTree::new(w);
    layout(&mut tree);
    assert_eq!(tree.arena.children(root(&tree)).len(), 2);

    let dyn_id = tree.arena.first_child(root(&tree)).unwrap();
    assert!(tree.set_declare_dyns(dyn_id, vec![]));
    layout(&mut tree);
    let kids = tree.arena.children(root(&tree));
    assert_eq!(kids.len(), 1);
    assert_eq!(tree.arena.get(kids[0]).render, Render::Void);
    assert!(tree.arena.get(kids[0]).attachments.is_empty());
    assert_eq!(info(&tree, kids[0]), Some(DynWidgetGenInfo::WholeSubtree(1)));

    // the placeholder is replaced like any other output
    assert!(tree.set_declare_dyns(kids[0], vec![sized(1, 1), sized(2, 2), sized(3, 3)]));
    layout(&mut tree);
    let kids2 = tree.arena.children(root(&tree));
    assert_eq!(kids2.len(), 3);
    assert!(tree.arena.dropped(kids[0]));
    assert_eq!(info(&tree, kids2[0]), Some(DynWidgetGenInfo::WholeSubtree(3)));
}

#[test]
fn empty_output_above_static_children() {
    let w = dyn_option(Some(sized(1, 1))).with_child(sized(9, 9));
    let mut tree = WidgetTree::new(w);
    layout(&mut tree);
    let ids = tree.arena.descendants(root(&tree));
    assert_eq!(info(&tree, ids[0]), Some(DynWidgetGenInfo::DynDepth(1)));

    assert!(tree.set_declare_dyns(ids[0], vec![]));
    layout(&mut tree);
    let new_ids = tree.arena.descendants(root(&tree));
    assert_eq!(new_ids.len(), 2);
    assert_eq!(tree.arena.get(new_ids[0]).render, Render::Void);
    assert_eq!(new_ids[1], ids[1]);
    assert_eq!(info(&tree, new_ids[0]), Some(DynWidgetGenInfo::DynDepth(1)));
}

#[test]
fn whole_subtree_counts() {
    let w = multi()
        .with_child(sized(1, 1))
        .with_child(dyn_multi(vec![sized(2, 2), sized(3, 3)]))
        .with_child(sized(4, 4));
    let mut tree = WidgetTree::new(w);
    layout(&mut tree);
    let _ = tree.take_events();
    let kids = tree.arena.children(root(&tree));
    assert_eq!(kids.len(), 4);
    assert_eq!(info(&tree, kids[1]), Some(DynWidgetGenInfo::WholeSubtree(2)));

    assert!(tree.set_declare_dyns(kids[1], vec![sized(5, 5), sized(6, 6), sized(7, 7)]));
    let done = DynRender::perform_layout(&mut tree, kids[1], clamp()).0.unwrap();
    let done = done.regenerated.unwrap();
    assert_eq!(done.new_roots.len(), 3);
    let kids2 = tree.arena.children(root(&tree));
    assert_eq!(kids2, vec![kids[0], done.new_roots[0], done.new_roots[1], done.new_roots[2], kids[3]]);
    assert_eq!(info(&tree, kids2[1]), Some(DynWidgetGenInfo::WholeSubtree(3)));
    assert!(tree.arena.dropped(kids[1]));
    assert!(tree.arena.dropped(kids[2]));
    assert!(!tree.arena.dropped(kids[0]));
    assert!(!tree.arena.dropped(kids[3]));
    assert_eq!(
        tree.take_events(),
        vec![
            DelayEvent::Disposed { id: kids[1], delay_drop: false },
            DelayEvent::Disposed { id: kids[2], delay_drop: false },
            DelayEvent::Mounted(done.new_roots[0]),
            DelayEvent::Mounted(done.new_roots[1]),
            DelayEvent::Mounted(done.new_roots[2]),
        ]
    );
    assert_eq!(done.mounted, done.new_roots);
}

#[test]
fn first_regeneration_classifies_the_position() {
    let with_child = dyn_single(sized(1, 1)).with_child(Widget::void());
    let mut tree = WidgetTree::new(with_child);
    assert_eq!(info(&tree, root(&tree)), None);
    layout(&mut tree);
    assert_eq!(info(&tree, root(&tree)), Some(DynWidgetGenInfo::DynDepth(1)));

    let alone = dyn_single(sized(1, 1));
    let mut tree = WidgetTree::new(alone);
    layout(&mut tree);
    assert_eq!(info(&tree, root(&tree)), Some(DynWidgetGenInfo::WholeSubtree(1)));
}

#[test]
fn root_follows_the_regenerated_position() {
    let mut tree = WidgetTree::new(dyn_single(sized(1, 1)));
    let placeholder = root(&tree);
    layout(&mut tree);
    let first = root(&tree);
    assert!(first != placeholder);
    assert!(tree.arena.dropped(placeholder));
    assert_eq!(tree.arena.get(first).render, Render::SizedBox(Size::new(1, 1)));
    assert_eq!(tree.arena.parent(first), None);

    assert!(tree.set_declare_dyns(first, vec![sized(2, 2)]));
    layout(&mut tree);
    assert!(root(&tree) != first);
    assert_eq!(tree.arena.get(root(&tree)).render, Render::SizedBox(Size::new(2, 2)));
}

#[test]
fn nested_static_wrappers_and_a_two_level_output() {
    // the dynamic position stands under two static single-child wrappers;
    // its output is a chain of two, and one static grandchild hangs below
    let chain = |s: u32| sized(s, s).with_child(sized(s, s));
    let w = sized(100, 100)
        .with_child(sized(50, 50).with_child(dyn_single(chain(1)).with_child(Widget::void())));
    let mut tree = WidgetTree::new(w);
    layout(&mut tree);
    let ids = tree.arena.descendants(root(&tree));
    assert_eq!(ids.len(), 5);
    assert_eq!(info(&tree, ids[2]), Some(DynWidgetGenInfo::DynDepth(2)));
    assert_eq!(tree.arena.get(ids[4]).render, Render::Void);

    assert!(tree.set_declare_dyns(ids[2], vec![chain(2)]));
    layout(&mut tree);
    let new_ids = tree.arena.descendants(root(&tree));
    assert_eq!(new_ids.len(), 5);
    assert_eq!(new_ids[0], ids[0]);
    assert_eq!(new_ids[1], ids[1]);
    assert_eq!(new_ids[4], ids[4]);
    assert_eq!(info(&tree, new_ids[2]), Some(DynWidgetGenInfo::DynDepth(2)));

    // a shorter output: the grandchild moves up with its handle
    assert!(tree.set_declare_dyns(new_ids[2], vec![sized(3, 3)]));
    layout(&mut tree);
    let last_ids = tree.arena.descendants(root(&tree));
    assert_eq!(last_ids.len(), 4);
    assert_eq!(last_ids[3], ids[4]);
    assert_eq!(info(&tree, last_ids[2]), Some(DynWidgetGenInfo::DynDepth(1)));
}

#[test]
fn mounts_walk_the_chain_from_the_new_root() {
    let chain = sized(1, 1).with_child(sized(2, 2).with_child(sized(3, 3)));
    let w = dyn_single(chain).with_child(sized(9, 9));
    let mut tree = WidgetTree::new(w);
    let placeholder = root(&tree);
    let _ = tree.take_events();
    layout(&mut tree);
    let ids = tree.arena.descendants(root(&tree));
    assert_eq!(ids.len(), 4);
    assert_eq!(
        tree.take_events(),
        vec![
            DelayEvent::Disposed { id: placeholder, delay_drop: false },
            DelayEvent::Mounted(ids[0]),
            DelayEvent::Mounted(ids[1]),
            DelayEvent::Mounted(ids[2]),
        ]
    );
    assert_eq!(info(&tree, ids[0]), Some(DynWidgetGenInfo::DynDepth(3)));
}

#[test]
fn delayed_root_lingers_until_released() {
    let w = multi().with_child(dyn_multi(vec![sized(1, 1).with_delay_drop(false), sized(2, 2)]));
    let mut tree = WidgetTree::new(w);
    layout(&mut tree);
    let _ = tree.take_events();
    let olds = tree.arena.children(root(&tree));

    assert!(tree.set_declare_dyns(olds[0], vec![sized(3, 3)]));
    layout(&mut tree);
    let news = tree.arena.children(root(&tree));
    assert_eq!(news.len(), 1);
    assert!(!tree.arena.dropped(olds[0]));
    assert!(tree.arena.dropped(olds[1]));
    assert_eq!(tree.arena.parent(olds[0]), None);
    assert_eq!(lingering(&tree, news[0]), vec![olds[0]]);
    assert_eq!(tree.find_host(olds[0]), Some(news[0]));
    assert_eq!(tree.find_host(olds[1]), None);
    assert_eq!(
        tree.take_events()[..2],
        [
            DelayEvent::Disposed { id: olds[0], delay_drop: true },
            DelayEvent::Disposed { id: olds[1], delay_drop: false },
        ]
    );
    // painted before the node of the position, then the tree goes on
    assert_eq!(tree.paint(), vec![root(&tree), olds[0], news[0]]);

    // the lingering widget moves on with the position
    assert!(tree.set_declare_dyns(news[0], vec![sized(4, 4)]));
    layout(&mut tree);
    let news2 = tree.arena.children(root(&tree));
    assert_eq!(lingering(&tree, news2[0]), vec![olds[0]]);
    assert_eq!(tree.paint(), vec![root(&tree), olds[0], news2[0]]);

    // while the flag reads false nothing is released
    assert!(!tree.release(olds[0]));
    assert!(!tree.arena.dropped(olds[0]));

    assert!(tree.set_delay_drop_until(olds[0], true));
    assert!(tree.release(olds[0]));
    assert!(tree.arena.dropped(olds[0]));
    assert_eq!(lingering(&tree, news2[0]), Vec::<NodeId>::new());
    assert_eq!(tree.find_host(olds[0]), None);
    assert_eq!(tree.paint(), vec![root(&tree), news2[0]]);
    // exactly once
    assert!(!tree.release(olds[0]));
    assert!(!tree.mark_dirty(olds[0]));
    assert!(!tree.set_delay_drop_until(olds[0], false));
}

#[test]
fn root_with_true_flag_is_removed_at_once() {
    let w = multi().with_child(dyn_multi(vec![sized(1, 1).with_delay_drop(true)]));
    let mut tree = WidgetTree::new(w);
    layout(&mut tree);
    let olds = tree.arena.children(root(&tree));
    assert!(tree.set_declare_dyns(olds[0], vec![sized(3, 3)]));
    layout(&mut tree);
    let news = tree.arena.children(root(&tree));
    assert!(tree.arena.dropped(olds[0]));
    assert_eq!(lingering(&tree, news[0]), Vec::<NodeId>::new());
    assert!(!tree.release(olds[0]));
}

#[test]
fn release_needs_a_host() {
    let mut tree = WidgetTree::new(multi().with_child(sized(1, 1).with_delay_drop(true)));
    let child = tree.arena.first_child(root(&tree)).unwrap();
    assert!(!tree.release(child));
    assert!(!tree.arena.dropped(child));
    assert!(!tree.release(NodeId { index: 77 }));
}

#[test]
fn dirty_set_is_a_set() {
    let mut tree = WidgetTree::new(multi().with_child(sized(1, 1)));
    assert!(!tree.is_dirty());
    let child = tree.arena.first_child(root(&tree)).unwrap();
    assert!(tree.mark_dirty(child));
    assert!(tree.mark_dirty(root(&tree)));
    assert!(tree.mark_dirty(child));
    assert!(!tree.mark_dirty(NodeId { index: 5 }));
    assert_eq!(tree.take_dirty(), vec![child, root(&tree)]);
    assert!(!tree.is_dirty());
    assert_eq!(tree.take_dirty(), Vec::<NodeId>::new());
}

#[test]
fn several_outputs_before_layout_collapse_into_one() {
    let mut tree = WidgetTree::new(multi().with_child(dyn_multi(vec![sized(1, 1)])));
    layout(&mut tree);
    let _ = tree.take_events();
    let dyn_id = tree.arena.first_child(root(&tree)).unwrap();
    assert!(tree.set_declare_dyns(dyn_id, vec![sized(2, 2), sized(3, 3)]));
    assert!(tree.set_declare_dyns(dyn_id, vec![sized(4, 4)]));
    assert_eq!(tree.dirty_set.to_vec(), vec![dyn_id]);
    layout(&mut tree);
    let kids = tree.arena.children(root(&tree));
    assert_eq!(kids.len(), 1);
    assert_eq!(tree.arena.get(kids[0]).render, Render::SizedBox(Size::new(4, 4)));
    assert_eq!(tree.take_events().len(), 2);
}

#[test]
fn set_declare_dyns_needs_a_dynamic_position() {
    let mut tree = WidgetTree::new(multi().with_child(sized(1, 1)));
    let child = tree.arena.first_child(root(&tree)).unwrap();
    assert!(!tree.set_declare_dyns(child, vec![sized(2, 2)]));
    assert!(!tree.set_declare_dyns(NodeId { index: 9 }, vec![]));
    assert!(!tree.is_dirty());
}

#[test]
fn layout_of_a_plain_node_changes_nothing() {
    let mut tree = WidgetTree::new(sized(10, 20).with_child(sized(1, 1)));
    let id = root(&tree);
    let l = DynRender::perform_layout(&mut tree, id, clamp()).0.unwrap();
    assert_eq!(l.id, id);
    assert_eq!(l.size, Size::new(10, 20));
    assert!(l.regenerated.is_none());
}

fn error_of(tree: &mut WidgetTree, id: NodeId) -> RegenError {
    let before = tree.arena.slots();
    let e = DynRender::perform_layout(tree, id, clamp()).0.err().unwrap();
    assert_eq!(tree.arena.slots(), before);
    assert_eq!(tree.check_regen(id), Some(e));
    e
}

#[test]
fn output_that_is_a_dynamic_position() {
    let mut tree = WidgetTree::new(multi().with_child(dyn_multi(vec![dyn_single(sized(1, 1))])));
    let id = tree.arena.first_child(root(&tree)).unwrap();
    assert_eq!(error_of(&mut tree, id), RegenError::DynamicOutput);
}

#[test]
fn many_widgets_above_static_children() {
    let mut tree = WidgetTree::new(dyn_multi(vec![sized(1, 1), sized(2, 2)]).with_child(sized(9, 9)));
    let id = root(&tree);
    assert_eq!(error_of(&mut tree, id), RegenError::ManyWidgets);
}

#[test]
fn output_above_static_children_must_be_a_chain() {
    let fork = sized(1, 1).with_child(sized(2, 2)).with_child(sized(3, 3));
    let mut tree = WidgetTree::new(dyn_single(fork).with_child(sized(9, 9)));
    let id = root(&tree);
    assert_eq!(error_of(&mut tree, id), RegenError::NotAChain);
}

#[test]
fn broken_path_to_the_static_children() {
    let mut dr = DynRender::single(DynWidget { dyns: Some(sized(1, 1)) });
    dr.gen_info = Some(DynWidgetGenInfo::DynDepth(2));
    // two children where the path asks for one
    let w = Widget::dynamic(dr).with_child(sized(8, 8)).with_child(sized(9, 9));
    let mut tree = WidgetTree::new(w);
    let id = root(&tree);
    assert_eq!(error_of(&mut tree, id), RegenError::BrokenPath);
}

#[test]
fn missing_siblings() {
    let mut dr = DynRender::multi(DynWidget { dyns: Some(Multi::new(vec![sized(1, 1)])) });
    dr.gen_info = Some(DynWidgetGenInfo::WholeSubtree(3));
    let mut tree = WidgetTree::new(multi().with_child(Widget::dynamic(dr)).with_child(sized(9, 9)));
    let id = tree.arena.first_child(root(&tree)).unwrap();
    assert_eq!(error_of(&mut tree, id), RegenError::MissingSiblings);
}

#[test]
fn many_roots() {
    let mut tree = WidgetTree::new(dyn_multi(vec![sized(1, 1), sized(2, 2)]));
    let id = root(&tree);
    assert_eq!(error_of(&mut tree, id), RegenError::ManyRoots);
}

#[test]
fn walks_down_single_children() {
    let w = sized(1, 1).with_child(sized(2, 2).with_child(sized(3, 3)));
    let tree = WidgetTree::new(w);
    let ids = tree.arena.descendants(root(&tree));
    assert_eq!(single_down(ids[0], &tree.arena, 0), Some(ids[0]));
    assert_eq!(single_down(ids[0], &tree.arena, 1), Some(ids[1]));
    assert_eq!(single_down(ids[0], &tree.arena, 2), Some(ids[2]));
    assert_eq!(single_down(ids[0], &tree.arena, 3), None);
    assert_eq!(down_to_leaf(ids[0], &tree.arena), (ids[2], 2));
    assert_eq!(down_to_leaf(ids[2], &tree.arena), (ids[2], 0));
}

#[test]
fn spans_of_siblings() {
    let tree = WidgetTree::new(multi().with_child(sized(1, 1)).with_child(sized(2, 2)).with_child(sized(3, 3)));
    let kids = tree.arena.children(root(&tree));
    assert!(check_span(&tree.arena, kids[1], 2));
    assert!(!check_span(&tree.arena, kids[1], 3));
    assert!(check_span(&tree.arena, root(&tree), 1));
    assert!(!check_span(&tree.arena, root(&tree), 2));
    assert_eq!(sibling_span(&tree.arena, kids[1], 2), vec![kids[1], kids[2]]);
    assert_eq!(sibling_span(&tree.arena, kids[0], 0), Vec::<NodeId>::new());
    assert_eq!(sibling_span(&tree.arena, root(&tree), 1), vec![root(&tree)]);
}

#[test]
fn dyn_widget_holds_what_it_is_given() {
    let built = DynWidget::<u32>::declarer().dyns(7).build();
    assert!(built.is_initialized());
    assert_eq!(built.into_inner(), 7);

    let empty = DynWidget::<u32>::declarer().build();
    assert!(!empty.is_initialized());

    let mut w = DynWidget { dyns: None };
    w.set_declare_dyns(3);
    w.set_declare_dyns(4);
    assert_eq!(w.into_inner(), 4);
    assert_eq!(Multi::new(vec![1, 2]).into_inner(), vec![1, 2]);
}

#[test]
fn the_three_kinds_of_positions() {
    let one = DynRender::single(DynWidget { dyns: Some(sized(1, 1)) });
    assert_eq!(one.dyn_widgets.dyns.as_ref().unwrap().len(), 1);
    let none = DynRender::option(DynWidget { dyns: Some(None) });
    assert_eq!(none.dyn_widgets.dyns.as_ref().unwrap().len(), 0);
    let some = DynRender::option(DynWidget { dyns: Some(Some(sized(1, 1))) });
    assert_eq!(some.dyn_widgets.dyns.as_ref().unwrap().len(), 1);
    let many = DynRender::multi(DynWidget { dyns: Some(Multi::new(vec![sized(1, 1), sized(2, 2)])) });
    assert_eq!(many.dyn_widgets.dyns.as_ref().unwrap().len(), 2);
    let unset = DynRender::single(DynWidget { dyns: None });
    assert!(unset.dyn_widgets.dyns.is_none());
    assert!(many.gen_info.is_none());
    assert!(many.drop_until_widgets.is_empty());
}

#[test]
fn host_is_a_set_in_order_of_arrival() {
    let mut host = WidgetsHost::new();
    assert!(host.is_empty());
    let (a, b) = (NodeId { index: 1 }, NodeId { index: 2 });
    host.add(b);
    host.add(a);
    host.add(b);
    assert_eq!(host.wids.to_vec(), vec![b, a]);
    assert!(host.contains(a));
    assert!(host.remove(b));
    assert!(!host.remove(b));
    assert_eq!(host.wids.to_vec(), vec![a]);
    assert!(!host.is_empty());
}

#[test]
fn host_paints_the_subtrees_of_what_lingers() {
    let tree = WidgetTree::new(multi().with_child(sized(1, 1).with_child(sized(2, 2))).with_child(sized(3, 3)));
    let ids = tree.arena.descendants(root(&tree));
    let mut host = WidgetsHost::new();
    host.add(ids[3]);
    host.add(ids[1]);
    let mut out = Vec::new();
    host.paint(&tree.arena, &mut out);
    assert_eq!(out, vec![ids[3], ids[1], ids[2]]);
}

#[test]
fn clamp_brings_a_size_within_bounds() {
    let c = BoxClamp { min: Size::new(10, 20), max: Size::new(100, 200) };
    assert_eq!(c.clamp(Size::new(50, 50)), Size::new(50, 50));
    assert_eq!(c.clamp(Size::new(5, 500)), Size::new(10, 200));
    assert_eq!(c.clamp(Size::new(100, 20)), Size::new(100, 20));
    // crossed bounds: the lower one wins
    let crossed = BoxClamp { min: Size::new(30, 30), max: Size::new(10, 10) };
    assert_eq!(crossed.clamp(Size::new(20, 50)), Size::new(30, 30));
}

#[test]
fn a_row_adds_widths_and_takes_the_larger_height() {
    let w = multi().with_child(sized(10, 5)).with_child(sized(20, 30)).with_child(Widget::void());
    let tree = WidgetTree::new(w);
    assert_eq!(perform_layout(&tree.arena, root(&tree), clamp()), Size::new(30, 30));
    let wide = multi().with_child(sized(u32::MAX, 1)).with_child(sized(7, 2));
    let tree = WidgetTree::new(wide);
    let open = BoxClamp { min: Size::zero(), max: Size::new(u32::MAX, u32::MAX) };
    assert_eq!(perform_layout(&tree.arena, root(&tree), open), Size::new(u32::MAX, 2));
    assert_eq!(perform_layout(&WidgetTree::new(multi()).arena, NodeId { index: 0 }, open), Size::zero());
}

#[test]
fn new_tree_mounts_every_node_and_queues_every_position() {
    let w = multi().with_child(dyn_single(sized(1, 1))).with_child(sized(2, 2).with_child(dyn_option(None)));
    let mut tree = WidgetTree::new(w);
    let ids = tree.arena.descendants(root(&tree));
    assert_eq!(ids.len(), 4);
    assert_eq!(
        tree.take_events(),
        ids.iter().map(|id| DelayEvent::Mounted(*id)).collect::<Vec<_>>()
    );
    assert_eq!(tree.dirty_set.to_vec(), vec![ids[1], ids[3]]);
}

#[test]
fn delay_drop_marker_closest_to_the_outside_decides() {
    let w = multi().with_child(dyn_multi(vec![sized(1, 1).with_delay_drop(true).with_delay_drop(false)]));
    let mut tree = WidgetTree::new(w);
    layout(&mut tree);
    let old = tree.arena.first_child(root(&tree)).unwrap();
    assert_eq!(
        tree.arena.get(old).attachments,
        vec![
            Attachment::DelayDrop(DelayDrop { delay_drop_until: false }),
            Attachment::DelayDrop(DelayDrop { delay_drop_until: true }),
        ]
    );
    assert!(tree.set_declare_dyns(old, vec![]));
    layout(&mut tree);
    assert!(!tree.arena.dropped(old));
}

#[test]
fn what_lingers_within_what_lingers_is_painted() {
    let inner = multi()
        .with_child(dyn_multi(vec![sized(1, 1).with_delay_drop(false)]))
        .with_delay_drop(false);
    let mut tree = WidgetTree::new(multi().with_child(dyn_multi(vec![inner])));
    layout(&mut tree);
    let outer_old = tree.arena.first_child(root(&tree)).unwrap();
    let inner_old = tree.arena.first_child(outer_old).unwrap();
    // the inner position lets its widget linger
    assert!(tree.set_declare_dyns(inner_old, vec![sized(2, 2)]));
    layout(&mut tree);
    let inner_new = tree.arena.first_child(outer_old).unwrap();
    // then the outer position lets the whole inner widget linger
    assert!(tree.set_declare_dyns(outer_old, vec![sized(3, 3)]));
    layout(&mut tree);
    let outer_new = tree.arena.first_child(root(&tree)).unwrap();
    assert_eq!(tree.paint(), vec![root(&tree), outer_old, inner_old, inner_new, outer_new]);
}

#[test]
fn static_subtrees_keep_every_handle() {
    let statics = |t: u32| {
        sized(t, t).with_child(sized(t + 1, t + 1).with_child(sized(t + 2, t + 2))).with_child(multi())
    };
    let w = multi()
        .with_child(dyn_single(sized(1, 1)).with_child(statics(10)).with_child(statics(20)));
    let mut tree = WidgetTree::new(w);
    layout(&mut tree);
    let dyn_id = tree.arena.first_child(root(&tree)).unwrap();
    let before: Vec<Vec<NodeId>> =
        tree.arena.children(dyn_id).iter().map(|c| tree.arena.descendants(*c)).collect();
    assert_eq!(before.iter().map(|s| s.len()).collect::<Vec<_>>(), vec![4, 4]);

    assert!(tree.set_declare_dyns(dyn_id, vec![sized(2, 2).with_child(sized(3, 3))]));
    layout(&mut tree);
    let new_dyn = tree.arena.first_child(root(&tree)).unwrap();
    assert!(new_dyn != dyn_id);
    assert!(tree.arena.dropped(dyn_id));
    let leaf = tree.arena.first_child(new_dyn).unwrap();
    let after: Vec<Vec<NodeId>> =
        tree.arena.children(leaf).iter().map(|c| tree.arena.descendants(*c)).collect();
    assert_eq!(after, before);
    for id in after.iter().flatten() {
        assert!(!tree.arena.dropped(*id));
    }
    assert_eq!(tree.arena.get(after[1][0]).render, Render::SizedBox(Size::new(20, 20)));
    assert_eq!(info(&tree, new_dyn), Some(DynWidgetGenInfo::DynDepth(2)));
}

#[test]
fn layout_pass_takes_the_waiting_nodes_in_order() {
    let mut tree = WidgetTree::new(multi().with_child(dyn_multi(vec![sized(1, 1)])).with_child(sized(5, 6)));
    let kids = tree.arena.children(root(&tree));
    assert!(tree.mark_dirty(kids[1]));
    assert!(tree.mark_dirty(root(&tree)));
    // a node that is gone when its turn comes
    let stray = tree.build(sized(7, 7));
    assert!(tree.mark_dirty(stray));
    tree.arena.remove_subtree(stray);

    let steps = tree.layout(clamp()).0;
    assert_eq!(steps.iter().map(|s| s.id).collect::<Vec<_>>(), vec![kids[0], kids[1], root(&tree), stray]);
    let first = steps[0].outcome.as_ref().unwrap().as_ref().unwrap();
    assert_eq!(first.id, tree.arena.first_child(root(&tree)).unwrap());
    assert_eq!(first.size, Size::new(1, 1));
    assert_eq!(first.regenerated.as_ref().unwrap().new_roots, vec![first.id]);
    let second = steps[1].outcome.as_ref().unwrap().as_ref().unwrap();
    assert_eq!((second.id, second.size), (kids[1], Size::new(5, 6)));
    assert!(second.regenerated.is_none());
    let third = steps[2].outcome.as_ref().unwrap().as_ref().unwrap();
    assert_eq!(third.size, Size::new(6, 6));
    assert!(steps[3].outcome.is_none());
    assert!(!tree.is_dirty());
}

#[test]
fn layout_pass_reports_what_cannot_be_regenerated() {
    let mut tree = WidgetTree::new(dyn_multi(vec![sized(1, 1), sized(2, 2)]));
    let steps = tree.layout(clamp()).0;
    assert_eq!(steps.len(), 1);
    assert_eq!(steps[0].outcome.as_ref().unwrap().as_ref().err(), Some(&RegenError::ManyRoots));
    assert_eq!(tree.arena.slots(), 1);
    assert!(!tree.is_dirty());
    // a fitting output mends it
    let id = root(&tree);
    assert!(tree.set_declare_dyns(id, vec![sized(3, 3)]));
    layout(&mut tree);
    assert_eq!(tree.arena.get(root(&tree)).render, Render::SizedBox(Size::new(3, 3)));
}
