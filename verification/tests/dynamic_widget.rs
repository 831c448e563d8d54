use dyn_widget::arena::NodeId;
use dyn_widget::dynamic_widget::{
    inspect_key, DynRender, DynWidget, DynWidgetGenInfo, Multi,
};
use dyn_widget::key::{Key, KeyChange, KeyWidget};
use dyn_widget::widget::{BoxClamp, Render, Size, Widget};
use dyn_widget::widget_tree::{DelayEvent, WidgetTree};

fn window_clamp() -> BoxClamp {
    BoxClamp { min: Size::zero(), max: Size::new(800, 800) }
}

fn mock_box(size: Size) -> Widget {
    Widget::new(Render::SizedBox(size))
}

fn mock_multi() -> Widget {
    Widget::new(Render::Multi)
}

fn dyn_single(w: Widget) -> Widget {
    Widget::dynamic(DynRender::single(DynWidget { dyns: Some(w) }))
}

fn dyn_multi(ws: Vec<Widget>) -> Widget {
    Widget::dynamic(DynRender::multi(DynWidget { dyns: Some(Multi::new(ws)) }))
}

fn dyn_option(w: Option<Widget>) -> Widget {
    Widget::dynamic(DynRender::option(DynWidget { dyns: Some(w) }))
}

/// Lays out every node that waits, until none waits. Returns the nodes that
/// were laid out.
fn layout(tree: &mut WidgetTree) -> Vec<NodeId> {
    let mut laid = Vec::new();
    while tree.is_dirty() {
        for step in tree.layout(window_clamp()).0 {
            match step.outcome {
                None => {}
                Some(Ok(l)) => match l.regenerated {
                    Some(done) => laid.extend(done.mounted),
                    None => laid.push(step.id),
                },
                Some(Err(e)) => panic!("regeneration failed: {:?}", e),
            }
        }
    }
    laid
}

/// One frame: nothing where no node waits; else layout, then paint.
fn draw_frame(tree: &mut WidgetTree) -> (Vec<NodeId>, Vec<NodeId>) {
    if !tree.is_dirty() {
        return (Vec::new(), Vec::new());
    }
    let laid = layout(tree);
    let painted = tree.paint();
    (laid, painted)
}

fn root(tree: &WidgetTree) -> NodeId {
    tree.root.unwrap()
}

fn descendants(tree: &WidgetTree) -> Vec<NodeId> {
    tree.arena.descendants(root(tree))
}

fn gen_info(tree: &WidgetTree, id: NodeId) -> Option<DynWidgetGenInfo> {
    tree.arena.get(id).dynamic.as_ref().unwrap().gen_info
}

#[test]
fn expr_widget_as_root() {
    let w = dyn_single(mock_box(Size::zero())).with_child(Widget::void());
    let mut tree = WidgetTree::new(w);
    layout(&mut tree);
    let ids = descendants(&tree);
    assert_eq!(ids.len(), 2);
    {
        let dyn_id = root(&tree);
        assert!(tree.set_declare_dyns(dyn_id, vec![mock_box(Size::new(1, 1))]));
    }
    layout(&mut tree);
    let new_ids = descendants(&tree);
    assert_eq!(new_ids.len(), 2);

    assert_eq!(ids[1], new_ids[1]);
}

#[test]
fn expr_widget_with_declare_child() {
    let w = mock_box(Size::zero())
        .with_child(dyn_single(mock_box(Size::zero())).with_child(Widget::void()));
    let mut tree = WidgetTree::new(w);
    layout(&mut tree);
    let ids = descendants(&tree);
    assert_eq!(ids.len(), 3);
    {
        let dyn_id = ids[1];
        assert!(tree.set_declare_dyns(dyn_id, vec![mock_box(Size::new(1, 1))]));
    }
    layout(&mut tree);
    let new_ids = descendants(&tree);
    assert_eq!(new_ids.len(), 3);

    assert_eq!(ids[0], new_ids[0]);
    assert_eq!(ids[2], new_ids[2]);
}

/// Counts the mounts and disposals of boxes among the notifications that
/// wait, and takes them.
fn count_box_events(tree: &mut WidgetTree, new_cnt: &mut u32, drop_cnt: &mut u32) {
    for e in tree.take_events() {
        match e {
            DelayEvent::Mounted(id) => {
                if matches!(tree.arena.get(id).render, Render::SizedBox(_)) {
                    *new_cnt += 1;
                }
            }
            DelayEvent::Disposed { id, .. } => {
                if matches!(tree.arena.get(id).render, Render::SizedBox(_)) {
                    *drop_cnt += 1;
                }
            }
        }
    }
}

#[test]
fn expr_widget_mounted_new() {
    let mut v = vec![1, 2, 3];
    let boxes = |v: &Vec<i32>| v.iter().map(|_| mock_box(Size::zero())).collect::<Vec<_>>();

    let mut new_cnt = 0;
    let mut drop_cnt = 0;
    let w = mock_multi().with_child(dyn_multi(boxes(&v)));

    let mut tree = WidgetTree::new(w);
    draw_frame(&mut tree);
    count_box_events(&mut tree, &mut new_cnt, &mut drop_cnt);
    assert_eq!(new_cnt, 3);
    assert_eq!(drop_cnt, 0);

    v.push(4);
    let dyn_id = tree.arena.first_child(root(&tree)).unwrap();
    assert!(tree.set_declare_dyns(dyn_id, boxes(&v)));
    draw_frame(&mut tree);
    count_box_events(&mut tree, &mut new_cnt, &mut drop_cnt);
    assert_eq!(new_cnt, 7);
    assert_eq!(drop_cnt, 3);

    v.pop();
    let dyn_id = tree.arena.first_child(root(&tree)).unwrap();
    assert!(tree.set_declare_dyns(dyn_id, boxes(&v)));
    draw_frame(&mut tree);
    count_box_events(&mut tree, &mut new_cnt, &mut drop_cnt);
    assert_eq!(new_cnt, 10);
    assert_eq!(drop_cnt, 7);
}

struct KeyLists {
    enter_list: Vec<char>,
    update_list: Vec<char>,
    leave_list: Vec<char>,
    key_change: Option<KeyChange>,
}

fn as_char(v: u64) -> char {
    char::from_u32(v as u32).unwrap()
}

/// Dispatches the notifications that wait to the keyed widgets.
fn dispatch_keys(tree: &mut WidgetTree, lists: &mut KeyLists) {
    for e in tree.take_events() {
        match e {
            DelayEvent::Mounted(id) => {
                if let Some(key) = inspect_key(id, &tree.arena) {
                    if key.is_enter() {
                        lists.enter_list.push(as_char(key.value));
                    }
                    if key.is_changed() {
                        lists.update_list.push(as_char(key.value));
                        lists.key_change = Some(key.get_change());
                    }
                }
            }
            DelayEvent::Disposed { id, .. } => {
                if let Some(key) = inspect_key(id, &tree.arena) {
                    if key.is_leave() {
                        lists.leave_list.push(as_char(key.value));
                    }
                }
            }
        }
    }
}

fn keyed_boxes(v: &[(u64, char)]) -> Vec<Widget> {
    v.iter()
        .map(|(i, c)| mock_box(Size::zero()).with_key(KeyWidget::new(Key::new(*i), *c as u64)))
        .collect()
}

fn regenerate_list(tree: &mut WidgetTree, v: &[(u64, char)]) {
    let dyn_id = tree.arena.first_child(root(tree)).unwrap();
    assert!(tree.set_declare_dyns(dyn_id, keyed_boxes(v)));
}

#[test]
fn dyn_widgets_with_key() {
    let mut v = vec![(1, '1'), (2, '2'), (3, '3')];
    let mut lists = KeyLists {
        enter_list: vec![],
        update_list: vec![],
        leave_list: vec![],
        key_change: None,
    };
    let w = mock_multi().with_child(dyn_multi(keyed_boxes(&v)));

    // 1. 3 item enter
    let mut tree = WidgetTree::new(w);
    draw_frame(&mut tree);
    dispatch_keys(&mut tree, &mut lists);
    let expect_vec = vec!['1', '2', '3'];
    assert_eq!(lists.enter_list.len(), 3);
    assert!(lists.enter_list.iter().all(|item| expect_vec.contains(item)));
    // clear enter list vec
    lists.enter_list.clear();

    // 2. add 1 item
    v.push((4, '4'));
    regenerate_list(&mut tree, &v);
    draw_frame(&mut tree);
    dispatch_keys(&mut tree, &mut lists);

    let expect_vec = vec!['4'];
    assert_eq!(lists.enter_list.len(), 1);
    assert!(lists.enter_list.iter().all(|item| expect_vec.contains(item)));
    // clear enter list vec
    lists.enter_list.clear();

    // 3. update the second item
    v[1].1 = 'b';
    regenerate_list(&mut tree, &v);
    draw_frame(&mut tree);
    dispatch_keys(&mut tree, &mut lists);

    let expect_vec: Vec<char> = vec![];
    assert_eq!(lists.enter_list.len(), 0);
    assert!(lists.enter_list.iter().all(|item| expect_vec.contains(item)));

    let expect_vec = vec!['b'];
    assert_eq!(lists.update_list.len(), 1);
    assert!(lists.update_list.iter().all(|item| expect_vec.contains(item)));
    assert_eq!(
        lists.key_change,
        Some(KeyChange { before: Some('2' as u64), after: 'b' as u64 })
    );
    lists.update_list.clear();

    // 4. remove the second item
    v.remove(1);
    regenerate_list(&mut tree, &v);
    draw_frame(&mut tree);
    dispatch_keys(&mut tree, &mut lists);
    let expect_vec = vec!['b'];
    assert_eq!(lists.leave_list, expect_vec);
    assert_eq!(lists.leave_list.len(), 1);
    assert!(lists.leave_list.iter().all(|item| expect_vec.contains(item)));
    lists.leave_list.clear();

    // 5. update the first item
    v[0].1 = 'a';
    regenerate_list(&mut tree, &v);
    draw_frame(&mut tree);
    dispatch_keys(&mut tree, &mut lists);

    assert_eq!(lists.enter_list.len(), 0);

    let expect_vec = vec!['a'];
    assert_eq!(lists.update_list.len(), 1);
    assert!(lists.update_list.iter().all(|item| expect_vec.contains(item)));
    assert_eq!(
        lists.key_change,
        Some(KeyChange { before: Some('1' as u64), after: 'a' as u64 })
    );
    lists.update_list.clear();
}

#[derive(Default, Clone)]
struct Task {
    mounted: u32,
    pin: bool,
    paint_cnt: u32,
    layout_cnt: u32,
    wid: Option<NodeId>,
}

fn task_widget(task: &Task) -> Widget {
    mock_box(Size::new(1, 1)).with_delay_drop(!task.pin)
}

/// The tasks of a window: those in the list, and those that were removed
/// from it.
struct TaskWindow {
    tree: WidgetTree,
    tasks: Vec<Task>,
    removed: Vec<Task>,
}

impl TaskWindow {
    fn child_count(&self) -> usize {
        self.tree.arena.children(root(&self.tree)).len()
    }

    /// The list changed: the dynamic position gets the widgets of the tasks.
    fn tasks_changed(&mut self) {
        let dyn_id = self.tree.arena.first_child(root(&self.tree)).unwrap();
        let ws = self.tasks.iter().map(task_widget).collect();
        assert!(self.tree.set_declare_dyns(dyn_id, ws));
    }

    fn draw_frame(&mut self) {
        if !self.tree.is_dirty() {
            return;
        }
        // the tick on which a delay that is over is observed
        for t in self.removed.iter() {
            if let Some(wid) = t.wid {
                self.tree.release(wid);
            }
        }
        let mut laid = Vec::new();
        while self.tree.is_dirty() {
            for step in self.tree.layout(window_clamp()).0 {
                match step.outcome {
                    None => {}
                    Some(Ok(l)) => match l.regenerated {
                        Some(done) => {
                            // the new roots stand for the tasks of the list, in order
                            for (task, wid) in self.tasks.iter_mut().zip(done.new_roots.iter()) {
                                task.wid = Some(*wid);
                            }
                            laid.extend(done.mounted);
                        }
                        None => laid.push(step.id),
                    },
                    Some(Err(e)) => panic!("regeneration failed: {:?}", e),
                }
            }
        }
        let painted = self.tree.paint();
        for e in self.tree.take_events() {
            match e {
                DelayEvent::Mounted(id) => {
                    for t in self.tasks.iter_mut() {
                        if t.wid == Some(id) {
                            t.mounted += 1;
                        }
                    }
                }
                DelayEvent::Disposed { .. } => {}
            }
        }
        for t in self.tasks.iter_mut().chain(self.removed.iter_mut()) {
            if let Some(wid) = t.wid {
                t.layout_cnt += laid.iter().filter(|id| **id == wid).count() as u32;
                t.paint_cnt += painted.iter().filter(|id| **id == wid).count() as u32;
            }
        }
    }

    fn set_pin(tree: &mut WidgetTree, task: &mut Task, pin: bool) {
        task.pin = pin;
        if let Some(wid) = task.wid {
            tree.set_delay_drop_until(wid, !pin);
        }
    }

    fn trigger(tree: &mut WidgetTree, task: &Task) {
        if let Some(wid) = task.wid {
            tree.mark_dirty(wid);
        }
    }
}

#[test]
fn delay_drop_widgets() {
    let tasks = (0..3).map(|_| Task::default()).collect::<Vec<_>>();
    let w = mock_multi().with_child(dyn_multi(tasks.iter().map(task_widget).collect()));

    let mut wnd = TaskWindow { tree: WidgetTree::new(w), tasks, removed: vec![] };

    wnd.draw_frame();
    assert_eq!(wnd.child_count(), 3);

    // the first pined widget will still paint it
    TaskWindow::set_pin(&mut wnd.tree, &mut wnd.tasks[0], true);
    let t = wnd.tasks.remove(0);
    wnd.removed.push(t);
    wnd.tasks_changed();
    wnd.draw_frame();
    assert_eq!(wnd.child_count(), 2);
    assert_eq!(wnd.removed[0].paint_cnt, 2);

    // the remove pined widget will paint and no layout when no changed
    let first_layout_cnt = wnd.removed[0].layout_cnt;
    TaskWindow::set_pin(&mut wnd.tree, &mut wnd.tasks[0], true);
    let t = wnd.tasks.remove(0);
    wnd.removed.push(t);
    wnd.tasks_changed();
    wnd.draw_frame();
    assert_eq!(wnd.child_count(), 1);
    assert_eq!(wnd.removed[0].paint_cnt, 3);
    assert_eq!(wnd.removed[1].paint_cnt, 3);
    assert_eq!(wnd.removed[0].layout_cnt, first_layout_cnt);

    // the remove pined widget only mark self dirty
    let first_layout_cnt = wnd.removed[0].layout_cnt;
    let secord_layout_cnt = wnd.removed[1].layout_cnt;
    let host_layout_cnt = wnd.tasks[0].layout_cnt;
    TaskWindow::trigger(&mut wnd.tree, &wnd.removed[0]);
    wnd.draw_frame();
    assert_eq!(wnd.removed[0].layout_cnt, first_layout_cnt + 1);
    assert_eq!(wnd.removed[0].paint_cnt, 4);
    assert_eq!(wnd.removed[1].layout_cnt, secord_layout_cnt);
    assert_eq!(wnd.tasks[0].layout_cnt, host_layout_cnt);

    // when unpined, it will no paint anymore
    TaskWindow::set_pin(&mut wnd.tree, &mut wnd.removed[0], false);
    wnd.draw_frame();
    assert_eq!(wnd.removed[0].paint_cnt, 4);
    assert_eq!(wnd.removed[1].paint_cnt, 5);

    // after removed, it will no paint and layout anymore
    let first_layout_cnt = wnd.removed[0].layout_cnt;
    TaskWindow::trigger(&mut wnd.tree, &wnd.removed[0]);
    wnd.draw_frame();
    assert_eq!(wnd.removed[0].paint_cnt, 4);
    assert_eq!(wnd.removed[1].paint_cnt, 5);
    assert_eq!(wnd.removed[0].layout_cnt, first_layout_cnt);

    // other pined widget is work fine.
    let first_layout_cnt = wnd.removed[0].layout_cnt;
    let second_layout_cnt = wnd.removed[1].layout_cnt;
    TaskWindow::trigger(&mut wnd.tree, &wnd.removed[1]);
    wnd.draw_frame();
    assert_eq!(wnd.removed[0].paint_cnt, 4);
    assert_eq!(wnd.removed[1].paint_cnt, 6);
    assert_eq!(wnd.removed[0].layout_cnt, first_layout_cnt);
    assert_eq!(wnd.removed[1].layout_cnt, second_layout_cnt + 1);
}

#[test]
fn remove_delay_drop_widgets() {
    let grandson = mock_box(Size::zero()).with_delay_drop(false);
    let child = mock_multi().with_child(dyn_option(Some(grandson))).with_delay_drop(false);
    let w = mock_multi().with_child(dyn_option(Some(child)));
    let mut tree = WidgetTree::new(w);
    draw_frame(&mut tree);

    let child_id = tree.arena.first_child(root(&tree)).unwrap();
    let grandson_id = tree.arena.first_child(child_id).unwrap();

    draw_frame(&mut tree);
    assert!(!tree.arena.dropped(grandson_id));

    assert!(tree.set_declare_dyns(child_id, vec![]));
    draw_frame(&mut tree);
    assert!(!tree.arena.dropped(grandson_id));

    assert!(tree.set_delay_drop_until(child_id, true));
    assert!(tree.release(child_id));
    draw_frame(&mut tree);
    assert!(tree.arena.dropped(grandson_id));
}

#[test]
fn static_grandchild_keeps_its_handle() {
    // one dynamic position that produces a chain of two wrappers, with one
    // static child below
    let chain = |s: u32| mock_box(Size::new(s, s)).with_child(mock_box(Size::new(s, s)));
    let w = dyn_single(chain(1)).with_child(Widget::void());
    let mut tree = WidgetTree::new(w);
    layout(&mut tree);
    let ids = descendants(&tree);
    assert_eq!(ids.len(), 3);
    assert_eq!(gen_info(&tree, root(&tree)), Some(DynWidgetGenInfo::DynDepth(2)));

    let dyn_id = root(&tree);
    assert!(tree.set_declare_dyns(dyn_id, vec![chain(2)]));
    layout(&mut tree);
    let new_ids = descendants(&tree);
    assert_eq!(new_ids.len(), 3);
    assert_eq!(new_ids[2], ids[2]);
    assert!(new_ids[0] != ids[0]);
    assert!(new_ids[1] != ids[1]);
    assert_eq!(gen_info(&tree, root(&tree)), Some(DynWidgetGenInfo::DynDepth(2)));
}
