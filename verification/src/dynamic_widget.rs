//! Dynamic positions: the part of the tree that a piece of state produces,
//! and its regeneration when that state changes.

use crate::arena::{NodeId, TreeArena};
use crate::key::KeyWidget;
use crate::widget::{find_delay_drop, find_key, Attachment, RenderNode, Widget};
use crate::node_set::{with_member, NodeSet};
use crate::widget_tree::{DelayEvent, WidgetTree};
use vstd::prelude::*;

verus! {

/// What the tree knows of the widgets that a dynamic position produced last.
#[derive(Clone, Copy, Debug, PartialEq, Eq, Structural)]
pub enum DynWidgetGenInfo {
    /// One widget was produced and static children hang below it. The number
    /// is the distance from the dynamic node down to the parent of the static
    /// children, the dynamic node counted.
    DynDepth(usize),
    /// The produced widgets own their whole subtrees. The number says how
    /// many sibling widgets were produced.
    WholeSubtree(usize),
}

/// The container of what a dynamic position produced and the tree has not
/// taken yet.
pub struct DynWidget<D> {
    pub dyns: Option<D>,
}

/// Builder of a [`DynWidget`].
pub struct DynWidgetDeclarer<D> {
    pub dyns: Option<Option<D>>,
}

impl<D> DynWidgetDeclarer<D> {
    /// Declares what the widget holds.
    pub fn dyns(self, d: D) -> (r: Self)
        ensures
            r.dyns == Some(Some(d)),
    {
        let mut this = self;
        this.dyns = Some(Some(d));
        this
    }

    /// The declared widget: it holds what `dyns` was given, if it was called.
    pub fn build(self) -> (r: DynWidget<D>)
        ensures
            r.dyns == match self.dyns {
                Some(d) => d,
                None => None,
            },
    {
        match self.dyns {
            Some(d) => DynWidget { dyns: d },
            None => DynWidget { dyns: None },
        }
    }
}

impl<D> DynWidget<D> {
    /// A builder with nothing declared.
    pub fn declarer() -> (r: DynWidgetDeclarer<D>)
        ensures
            r.dyns.is_none(),
    {
        DynWidgetDeclarer { dyns: None }
    }

    /// Puts `dyns` in the place of what the widget holds.
    pub fn set_declare_dyns(&mut self, dyns: D)
        ensures
            final(self).dyns == Some(dyns),
    {
        self.dyns = Some(dyns);
    }

    /// What the widget holds. The widget must hold something.
    pub fn into_inner(self) -> (r: D)
        requires
            self.dyns.is_some(),
        ensures
            Some(r) == self.dyns,
    {
        self.dyns.unwrap()
    }

    /// Whether the widget holds something.
    pub fn is_initialized(&self) -> (r: bool)
        ensures
            r == self.dyns.is_some(),
    {
        self.dyns.is_some()
    }
}

/// Marks what a dynamic position produces as any number of sibling widgets.
pub struct Multi<W> {
    pub inner: W,
}

impl<W> Multi<W> {
    /// Marks `inner` as any number of sibling widgets.
    pub fn new(inner: W) -> (r: Self)
        ensures
            r.inner == inner,
    {
        Multi { inner }
    }

    /// What was marked.
    pub fn into_inner(self) -> (r: W)
        ensures
            r == self.inner,
    {
        self.inner
    }
}

/// The widgets that were removed from a dynamic position but linger until
/// their delayed drop is released.
pub struct WidgetsHost {
    pub wids: NodeSet,
}

impl View for WidgetsHost {
    type V = Seq<NodeId>;

    /// The lingering widgets, in the order of their arrival.
    open spec fn view(&self) -> Seq<NodeId> {
        self.wids@
    }
}

impl WidgetsHost {
    /// A host where nothing lingers.
    pub fn new() -> (r: Self)
        ensures
            r@ == Seq::<NodeId>::empty(),
    {
        WidgetsHost { wids: NodeSet::new() }
    }

    /// Whether `wid` lingers here.
    pub fn contains(&self, wid: NodeId) -> (r: bool)
        ensures
            r == self@.contains(wid),
    {
        self.wids.contains(wid)
    }

    /// Takes `wid` in, behind the others, unless it is already here.
    pub fn add(&mut self, wid: NodeId)
        ensures
            final(self)@ == with_member(old(self)@, wid),
    {
        self.wids.insert(wid);
    }

    /// Whether nothing lingers here.
    pub fn is_empty(&self) -> (r: bool)
        ensures
            r == (self@.len() == 0),
    {
        self.wids.is_empty()
    }

    /// Lets `wid` go and says whether it lingered here.
    pub fn remove(&mut self, wid: NodeId) -> (r: bool)
        ensures
            r == old(self)@.contains(wid),
            final(self)@ == old(self)@.remove_value(wid),
            !final(self)@.contains(wid),
    {
        self.wids.remove(wid)
    }

    /// Paints the lingering widgets: appends to `out` every node of their
    /// subtrees, each subtree in document order.
    pub fn paint(&self, arena: &TreeArena<RenderNode>, out: &mut Vec<NodeId>)
        requires
            arena.wf(),
        ensures
            final(out)@ == old(out)@ + arena.forest_of(self@, 0),
    {
        let wids = self.wids.to_vec();
        arena.collect_forest(&wids, out);
    }
}

/// A dynamic position as it stands in the tree, on the node of its first
/// output.
pub struct DynRender {
    /// What the position produced and the tree has not taken yet.
    pub dyn_widgets: DynWidget<Vec<Widget>>,
    /// What the tree knows of the last output; nothing before the first
    /// regeneration.
    pub gen_info: Option<DynWidgetGenInfo>,
    /// The removed widgets that linger.
    pub drop_until_widgets: WidgetsHost,
}

impl DynRender {
    /// The output that is not yet in the tree.
    pub open spec fn pending(&self) -> Option<Seq<Widget>> {
        match self.dyn_widgets.dyns {
            Some(v) => Some(v@),
            None => None,
        }
    }

    /// A position that produces exactly one widget.
    pub fn single(dyns: DynWidget<Widget>) -> (r: Self)
        ensures
            r.pending() == match dyns.dyns {
                Some(w) => Some(seq![w]),
                None => None,
            },
            r.gen_info.is_none(),
            r.drop_until_widgets@ == Seq::<NodeId>::empty(),
    {
        let pending = match dyns.dyns {
            Some(w) => {
                let mut v: Vec<Widget> = Vec::new();
                v.push(w);
                proof {
                    assert(v@ =~= seq![w]);
                }
                Some(v)
            },
            None => None,
        };
        DynRender {
            dyn_widgets: DynWidget { dyns: pending },
            gen_info: None,
            drop_until_widgets: WidgetsHost::new(),
        }
    }

    /// A position that produces any number of sibling widgets.
    pub fn multi(dyns: DynWidget<Multi<Vec<Widget>>>) -> (r: Self)
        ensures
            r.pending() == match dyns.dyns {
                Some(m) => Some(m.inner@),
                None => None,
            },
            r.gen_info.is_none(),
            r.drop_until_widgets@ == Seq::<NodeId>::empty(),
    {
        let pending = match dyns.dyns {
            Some(m) => Some(m.into_inner()),
            None => None,
        };
        DynRender {
            dyn_widgets: DynWidget { dyns: pending },
            gen_info: None,
            drop_until_widgets: WidgetsHost::new(),
        }
    }

    /// A position that produces one widget or none.
    pub fn option(dyns: DynWidget<Option<Widget>>) -> (r: Self)
        ensures
            r.pending() == match dyns.dyns {
                Some(Some(w)) => Some(seq![w]),
                Some(None) => Some(Seq::<Widget>::empty()),
                None => None,
            },
            r.gen_info.is_none(),
            r.drop_until_widgets@ == Seq::<NodeId>::empty(),
    {
        let pending = match dyns.dyns {
            Some(o) => {
                let mut v: Vec<Widget> = Vec::new();
                match o {
                    Some(w) => {
                        v.push(w);
                        proof {
                            assert(v@ =~= seq![w]);
                        }
                    },
                    None => {},
                }
                Some(v)
            },
            None => None,
        };
        DynRender {
            dyn_widgets: DynWidget { dyns: pending },
            gen_info: None,
            drop_until_widgets: WidgetsHost::new(),
        }
    }
}


/// The node reached from `id` by `k` steps, each to the first child.
pub open spec fn descend<T>(a: &TreeArena<T>, id: NodeId, k: nat) -> Option<NodeId>
    decreases k,
{
    if k == 0 {
        Some(id)
    } else {
        match a.first_child_of(id) {
            Some(c) => descend(a, c, (k - 1) as nat),
            None => None,
        }
    }
}

/// The first `k` steps down from `id` each start at a node with exactly one
/// child.
pub open spec fn single_path<T>(a: &TreeArena<T>, id: NodeId, k: nat) -> bool {
    forall|t: nat|
        t < k ==> match #[trigger] descend(a, id, t) {
            Some(n) => a.children_of(n).len() == 1,
            None => false,
        }
}

/// From `id` down the first children no node has more than one child.
pub open spec fn is_chain_at<T>(a: &TreeArena<T>, id: NodeId) -> bool {
    forall|t: nat|
        match #[trigger] descend(a, id, t) {
            Some(n) => a.children_of(n).len() <= 1,
            None => true,
        }
}

/// One more step down is a step from where the first steps lead.
pub proof fn lemma_descend_step<T>(a: &TreeArena<T>, id: NodeId, k: nat)
    ensures
        descend(a, id, k + 1) == match descend(a, id, k) {
            Some(n) => a.first_child_of(n),
            None => None,
        },
    decreases k,
{
    if k == 0 {
        assert(descend(a, id, 1) == match a.first_child_of(id) {
            Some(c) => descend(a, c, 0),
            None => None,
        });
    } else {
        match a.first_child_of(id) {
            Some(c) => {
                lemma_descend_step(a, c, (k - 1) as nat);
            },
            None => {},
        }
    }
}

/// The nodes down the first children of a node lie in its subtree, one level
/// deeper with each step.
pub proof fn lemma_descend_subtree<T>(a: &TreeArena<T>, id: NodeId, k: nat)
    requires
        a.wf(),
        a.has(id),
        descend(a, id, k).is_some(),
    ensures
        a.has(descend(a, id, k).unwrap()),
        a.in_subtree(descend(a, id, k).unwrap(), id),
        a.depth_of(descend(a, id, k).unwrap()) == a.depth_of(id) + k,
    decreases k,
{
    if k > 0 {
        a.lemma_model();
        let c = a.first_child_of(id).unwrap();
        assert(c == a.children_of(id)[0]);
        lemma_descend_subtree(a, c, (k - 1) as nat);
        let d = descend(a, id, k).unwrap();
        assert(a.under_child(id, d, 0));
        a.lemma_subtree_children(d, id);
    }
}

/// Walks `down_level` steps down from `id`, each to the only child. The
/// result is none where the last step starts at a node without a child.
pub fn single_down(id: NodeId, arena: &TreeArena<RenderNode>, down_level: usize) -> (r: Option<NodeId>)
    requires
        arena.wf(),
        arena.has(id),
        down_level > 0 ==> single_path(arena, id, (down_level - 1) as nat),
        forall|t: nat|
            t < down_level ==> match #[trigger] descend(arena, id, t) {
                Some(n) => arena.children_of(n).len() <= 1,
                None => true,
            },
    ensures
        r == descend(arena, id, down_level as nat),
        r.is_some() ==> arena.has(r.unwrap()),
{
    let mut res = Some(id);
    let mut done: usize = 0;
    while done < down_level
        invariant
            arena.wf(),
            arena.has(id),
            done <= down_level,
            res == descend(arena, id, done as nat),
            res.is_some() ==> arena.has(res.unwrap()),
            done < down_level ==> res.is_some(),
            down_level > 0 ==> single_path(arena, id, (down_level - 1) as nat),
            forall|t: nat|
                t < down_level ==> match #[trigger] descend(arena, id, t) {
                    Some(n) => arena.children_of(n).len() <= 1,
                    None => true,
                },
        decreases down_level - done,
    {
        proof {
            lemma_descend_step(arena, id, done as nat);
            let ghost_next = (done + 1) as nat;
            if done + 1 < down_level {
                assert(descend(arena, id, ghost_next).is_some());
            }
        }
        let n = res.unwrap();
        res = arena.single_child(n);
        done = done + 1;
    }
    res
}

/// Walks from `id` down the only children to the leaf. Returns the leaf and
/// the number of steps.
pub fn down_to_leaf(id: NodeId, arena: &TreeArena<RenderNode>) -> (r: (NodeId, usize))
    requires
        arena.wf(),
        arena.has(id),
        is_chain_at(arena, id),
    ensures
        descend(arena, id, r.1 as nat) == Some(r.0),
        arena.has(r.0),
        arena.children_of(r.0).len() == 0,
        single_path(arena, id, r.1 as nat),
{
    let mut leaf = id;
    let mut depth: usize = 0;
    let slots = arena.slots();
    proof {
        arena.lemma_depth_bound(id);
    }
    loop
        invariant
            arena.wf(),
            arena.len() == slots,
            arena.has(id),
            arena.has(leaf),
            is_chain_at(arena, id),
            descend(arena, id, depth as nat) == Some(leaf),
            single_path(arena, id, depth as nat),
            arena.depth_of(leaf) == arena.depth_of(id) + depth,
            arena.depth_of(leaf) < arena.len(),
        ensures
            arena.has(leaf),
            descend(arena, id, depth as nat) == Some(leaf),
            single_path(arena, id, depth as nat),
            arena.children_of(leaf).len() == 0,
        decreases arena.len() - arena.depth_of(leaf),
    {
        proof {
            assert(match descend(arena, id, depth as nat) {
                Some(n) => arena.children_of(n).len() <= 1,
                None => true,
            });
        }
        match arena.single_child(leaf) {
            Some(c) => {
                proof {
                    lemma_descend_step(arena, id, depth as nat);
                    lemma_descend_subtree(arena, id, (depth + 1) as nat);
                    arena.lemma_depth_bound(c);
                    let d = depth as nat;
                    assert forall|t: nat| t < d + 1 implies match #[trigger] descend(arena, id, t) {
                        Some(n) => arena.children_of(n).len() == 1,
                        None => false,
                    } by {
                        if t < d {
                        } else {
                            assert(t == d);
                        }
                    }
                }
                leaf = c;
                depth = depth + 1;
            },
            None => {
                break ;
            },
        }
    }
    (leaf, depth)
}

/// The key that is consulted for a node: the first among its attachments,
/// outermost first.
pub fn inspect_key(id: NodeId, arena: &TreeArena<RenderNode>) -> (r: Option<KeyWidget>)
    requires
        arena.wf(),
        arena.has(id),
    ensures
        r == arena.data_of(id).key_of(),
{
    let node = arena.get(id);
    match find_key(&node.attachments) {
        Some(i) => match node.attachments[i] {
            Attachment::Key(k) => Some(k),
            _ => None,
        },
        None => None,
    }
}

/// The walk down the first children is the same in two arenas in which the
/// nodes of the first have the same children.
pub proof fn lemma_descend_same(a: &TreeArena<RenderNode>, b: &TreeArena<RenderNode>, id: NodeId, k: nat)
    requires
        a.wf(),
        a.has(id),
        forall|x: NodeId| a.has(x) ==> #[trigger] b.children_of(x) == a.children_of(x),
    ensures
        descend(b, id, k) == descend(a, id, k),
        descend(a, id, k).is_some() ==> a.has(descend(a, id, k).unwrap()),
    decreases k,
{
    if k > 0 {
        a.lemma_model();
        assert(b.children_of(id) == a.children_of(id));
        match a.first_child_of(id) {
            Some(c) => {
                assert(c == a.children_of(id)[0]);
                lemma_descend_same(a, b, c, (k - 1) as nat);
            },
            None => {},
        }
    }
}

impl DynRender {
    /// Takes an old output root out of the tree. A disposal is notified
    /// first. A root that delays its drop is only detached: it stays
    /// walkable, lingers in `host` and waits for layout. Any other root is
    /// removed with its whole subtree.
    pub fn remove_old_subtree(tree: &mut WidgetTree, wid: NodeId, host: &mut WidgetsHost)
        requires
            old(tree).arena.wf(),
            old(tree).arena.has(wid),
        ensures
            final(tree).arena.wf(),
            final(tree).root == old(tree).root,
            final(tree).delay_events@ == old(tree).delay_events@.push(
                DelayEvent::Disposed {
                    id: wid,
                    delay_drop: old(tree).arena.data_of(wid).delays_drop(),
                },
            ),
            old(tree).arena.data_of(wid).delays_drop() ==> {
                &&& final(tree).arena.detached_from(&old(tree).arena, wid)
                &&& final(host)@ == with_member(old(host)@, wid)
                &&& final(tree).dirty_set@ == with_member(old(tree).dirty_set@, wid)
            },
            !old(tree).arena.data_of(wid).delays_drop() ==> {
                &&& final(tree).arena.removed_from(&old(tree).arena, wid)
                &&& final(host)@ == old(host)@
                &&& final(tree).dirty_set@ == old(tree).dirty_set@
            },
    {
        let node = tree.arena.get(wid);
        let is_drop = match find_delay_drop(&node.attachments) {
            Some(i) => match node.attachments[i] {
                Attachment::DelayDrop(d) => d.delay_drop_until,
                _ => true,
            },
            None => true,
        };
        tree.delay_events.push(DelayEvent::Disposed { id: wid, delay_drop: !is_drop });
        if !is_drop {
            tree.arena.detach(wid);
            host.add(wid);
            tree.dirty_set.insert(wid);
        } else {
            tree.arena.remove_subtree(wid);
        }
    }
}


} // verus!
