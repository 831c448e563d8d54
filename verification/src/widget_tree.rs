//! The tree of render nodes: the arena, the root, the set of nodes that wait
//! for layout and the lifecycle notifications that wait for dispatch.

use crate::arena::{NodeId, TreeArena};
use crate::node_set::{with_member, NodeSet};
use crate::splice::{mounted_events, push_mounted};
use crate::widget::{
    attachment_set, dynamic_set, find_delay_drop, first_delay_drop_index, realizes,
    replace_dynamic, set_attachment, Attachment, DelayDrop, RenderNode, Widget,
};
use vstd::prelude::*;

verus! {

/// A lifecycle notification.
#[derive(Clone, Copy, Debug, PartialEq, Eq, Structural)]
pub enum DelayEvent {
    /// The node was put into the tree.
    Mounted(NodeId),
    /// The node was removed from its place in the tree. With `delay_drop`
    /// it lingers until it is released; without, it is gone.
    Disposed { id: NodeId, delay_drop: bool },
}

/// The tree of render nodes.
pub struct WidgetTree {
    pub arena: TreeArena<RenderNode>,
    pub root: Option<NodeId>,
    /// The nodes that wait for layout, oldest first.
    pub dirty_set: NodeSet,
    /// The notifications that wait for dispatch, oldest first.
    pub delay_events: Vec<DelayEvent>,
}

/// The elements of `v` in reverse order.
pub fn reversed<T>(v: Vec<T>) -> (r: Vec<T>)
    ensures
        r@ == v@.reverse(),
{
    let mut v = v;
    let ghost all = v@;
    let mut r: Vec<T> = Vec::new();
    while v.len() > 0
        invariant
            v@.len() + r@.len() == all.len(),
            v@ == all.subrange(0, v@.len() as int),
            forall|i: int| 0 <= i < r@.len() ==> r@[i] == all[all.len() - 1 - i],
        decreases v.len(),
    {
        let x = v.pop().unwrap();
        r.push(x);
        proof {
            assert(v@ =~= all.subrange(0, v@.len() as int));
        }
    }
    proof {
        assert(r@ =~= all.reverse());
    }
    r
}

/// What is built for a widget stays what it is while the payloads and the
/// children of the nodes of its subtree stay what they are.
pub proof fn lemma_realizes_frame(a1: &TreeArena<RenderNode>, a2: &TreeArena<RenderNode>, id: NodeId, w: Widget)
    requires
        a1.wf(),
        realizes(a1, id, w),
        a2.len() >= a1.len(),
        forall|x: NodeId|
            a1.has(x) && a1.in_subtree(x, id) ==> #[trigger] a2.data_of(x) == a1.data_of(x),
        forall|x: NodeId|
            a1.has(x) && a1.in_subtree(x, id) ==> #[trigger] a2.children_of(x) == a1.children_of(x),
    ensures
        realizes(a2, id, w),
    decreases w,
{
    a1.lemma_model();
    assert(a2.data_of(id) == a1.data_of(id));
    assert(a2.children_of(id) == a1.children_of(id));
    assert forall|j: int| 0 <= j < w.children@.len() implies realizes(
        a2,
        #[trigger] a2.children_of(id)[j],
        w.children@[j],
    ) by {
        let c = a1.children_of(id)[j];
        assert(realizes(a1, c, w.children@[j]));
        assert forall|x: NodeId| a1.has(x) && a1.in_subtree(x, c) implies a1.in_subtree(x, id) by {
            assert(a1.under_child(id, x, j));
            a1.lemma_subtree_children(x, id);
        }
        lemma_realizes_frame(a1, a2, c, w.children@[j]);
    }
}

impl WidgetTree {
    /// The arena is well formed and the root, if there is one, is a live
    /// node without a parent.
    pub open spec fn wf(&self) -> bool {
        &&& self.arena.wf()
        &&& match self.root {
            Some(r) => self.arena.contains(r) && self.arena.parent_of(r).is_none(),
            None => true,
        }
    }

    /// The nodes with a handle from `lo` up to `hi`.
    pub open spec fn fresh(x: NodeId, lo: nat, hi: nat) -> bool {
        lo <= x.index < hi
    }

    /// Builds the subtree that `w` describes as a tree of its own and returns
    /// its root. Every dynamic position in it starts as a placeholder and
    /// waits for layout.
    pub fn build(&mut self, w: Widget) -> (id: NodeId)
        requires
            old(self).wf(),
        ensures
            final(self).wf(),
            final(self).root == old(self).root,
            final(self).delay_events == old(self).delay_events,
            id.index == old(self).arena.len(),
            final(self).arena.len() == old(self).arena.len() + w.node_count(),
            final(self).arena.same_nodes(&old(self).arena, old(self).arena.len() as int),
            realizes(&final(self).arena, id, w),
            final(self).arena.parent_of(id).is_none(),
            forall|x: NodeId|
                Self::fresh(x, old(self).arena.len(), final(self).arena.len()) ==> #[trigger] final(self).arena.in_subtree(x, id),
            forall|x: NodeId|
                Self::fresh(x, old(self).arena.len(), final(self).arena.len()) ==> !#[trigger] final(self).arena.is_dropped(x),
            final(self).dirty_set@.len() >= old(self).dirty_set@.len(),
            final(self).dirty_set@.subrange(0, old(self).dirty_set@.len() as int) == old(self).dirty_set@,
            forall|k: int|
                old(self).dirty_set@.len() <= k < final(self).dirty_set@.len() ==> Self::fresh(
                    #[trigger] final(self).dirty_set@[k],
                    old(self).arena.len(),
                    final(self).arena.len(),
                ) && final(self).arena.data_of(final(self).dirty_set@[k]).needs_regen(),
            forall|x: NodeId|
                Self::fresh(x, old(self).arena.len(), final(self).arena.len()) && final(self).arena.data_of(x).needs_regen() ==> #[trigger] final(self).dirty_set@.contains(x),
        decreases w,
    {
        let ghost old_len = self.arena.len();
        let ghost old_dirty = self.dirty_set@;
        let Widget { render, attachments, dynamic, children } = w;
        let needs = match &dynamic {
            Some(d) => d.dyn_widgets.dyns.is_some(),
            None => false,
        };
        let id = self.arena.new_node(RenderNode { render, attachments, dynamic });
        if needs {
            self.dirty_set.insert(id);
        }
        let ghost all = children@;
        let mut rest = reversed(children);
        proof {
            assert(self.dirty_set@.subrange(0, old_dirty.len() as int) =~= old_dirty);
            if needs {
                if !old_dirty.contains(id) {
                    assert(self.dirty_set@[old_dirty.len() as int] == id);
                } else {
                    let k = old_dirty.index_of(id);
                    assert(self.dirty_set@[k] == id);
                }
            }
        }
        while rest.len() > 0
            invariant
                self.arena.wf(),
                self.root == old(self).root,
                self.delay_events == old(self).delay_events,
                old(self).wf(),
                old_len == old(self).arena.len(),
                old_dirty == old(self).dirty_set@,
                id.index == old_len,
                self.arena.has(id),
                self.arena.parent_of(id).is_none(),
                self.arena.ancestors_of(id) == Seq::<NodeId>::empty(),
                !self.arena.is_dropped(id),
                self.arena.data_of(id) == w.payload(),
                all == w.children@,
                rest@.len() <= all.len(),
                forall|i: int| 0 <= i < rest@.len() ==> rest@[i] == all[all.len() - 1 - i],
                self.arena.children_of(id).len() == all.len() - rest@.len(),
                forall|j: int|
                    0 <= j < all.len() - rest@.len() ==> realizes(
                        &self.arena,
                        #[trigger] self.arena.children_of(id)[j],
                        all[j],
                    ),
                self.arena.len() + w.node_count_from(all.len() - rest@.len()) == old_len
                    + w.node_count(),
                self.arena.same_nodes(&old(self).arena, old_len as int),
                forall|x: NodeId|
                    Self::fresh(x, old_len, self.arena.len()) ==> #[trigger] self.arena.in_subtree(x, id),
                forall|x: NodeId|
                    Self::fresh(x, old_len, self.arena.len()) ==> !#[trigger] self.arena.is_dropped(x),
                self.dirty_set@.len() >= old_dirty.len(),
                self.dirty_set@.subrange(0, old_dirty.len() as int) == old_dirty,
                forall|k: int|
                    old_dirty.len() <= k < self.dirty_set@.len() ==> Self::fresh(
                        #[trigger] self.dirty_set@[k],
                        old_len,
                        self.arena.len(),
                    ) && self.arena.data_of(self.dirty_set@[k]).needs_regen(),
                forall|x: NodeId|
                    Self::fresh(x, old_len, self.arena.len()) && self.arena.data_of(x).needs_regen()
                        ==> #[trigger] self.dirty_set@.contains(x),
            decreases rest.len(),
        {
            let ghost k = all.len() - rest@.len();
            let c = rest.pop().unwrap();
            assert(c == w.children@[k]);
            let ghost before = *self;
            let cid = self.build(c);
            let ghost mid = *self;
            proof {
                mid.arena.lemma_model();
                before.arena.lemma_model();
                assert(mid.arena.children_of(id) == before.arena.children_of(id));
                assert(mid.arena.parent_of(id) == before.arena.parent_of(id));
                assert(mid.arena.ancestors_of(id) == before.arena.ancestors_of(id));
                assert(mid.arena.is_dropped(id) == before.arena.is_dropped(id));
                assert(mid.arena.is_dropped(cid) == false) by {
                    assert(Self::fresh(cid, before.arena.len(), mid.arena.len()));
                }
            }
            self.arena.append(id, cid);
            proof {
                let a0 = &before.arena;
                let a1 = &mid.arena;
                let a2 = &self.arena;
                let kids1 = a1.children_of(id);
                assert(a2.children_of(id) =~= kids1.push(cid));
                // the subtree of the new child is untouched by the append
                assert forall|x: NodeId| a1.has(x) && a1.in_subtree(x, cid) implies x != id by {
                    if x == id {
                        assert(a1.ancestors_of(id).contains(cid));
                    }
                }
                lemma_realizes_frame(a1, a2, cid, c);
                // the subtrees of the earlier children are untouched by both steps
                assert forall|j: int| 0 <= j < k + 1 implies realizes(
                    a2,
                    #[trigger] a2.children_of(id)[j],
                    all[j],
                ) by {
                    if j < k {
                        let cj = a0.children_of(id)[j];
                        assert(a2.children_of(id)[j] == cj);
                        assert(realizes(a0, cj, all[j]));
                        assert forall|x: NodeId| a0.has(x) && a0.in_subtree(x, cj) implies x != id by {
                            if x == id {
                                assert(a0.ancestors_of(id).contains(cj));
                            }
                        }
                        assert forall|x: NodeId| a0.has(x) && a0.in_subtree(x, cj) implies #[trigger] a2.data_of(
                            x,
                        ) == a0.data_of(x) by {
                            assert(a1.data_of(x) == a0.data_of(x));
                        }
                        assert forall|x: NodeId|
                            a0.has(x) && a0.in_subtree(x, cj) implies #[trigger] a2.children_of(x)
                            == a0.children_of(x) by {
                            assert(a1.children_of(x) == a0.children_of(x));
                        }
                        lemma_realizes_frame(a0, a2, cj, all[j]);
                    } else {
                        assert(a2.children_of(id)[j] == cid);
                    }
                }
                // frame against the arena at entry
                assert forall|x: NodeId| 0 <= x.index < old_len implies #[trigger] a2.ancestors_of(x)
                    == old(self).arena.ancestors_of(x) by {
                    assert(a1.ancestors_of(x) == a0.ancestors_of(x));
                    assert(a0.ancestors_of(x) == old(self).arena.ancestors_of(x));
                    if a1.in_subtree(x, cid) {
                        let anc = a0.ancestors_of(x);
                        let i = anc.index_of(cid);
                        a0.lemma_ancestor_suffix(x, i);
                    }
                }
                assert forall|x: NodeId| 0 <= x.index < old_len implies #[trigger] a2.parent_of(x)
                    == old(self).arena.parent_of(x) by {
                    assert(a1.parent_of(x) == a0.parent_of(x));
                }
                assert forall|x: NodeId| 0 <= x.index < old_len implies #[trigger] a2.children_of(x)
                    == old(self).arena.children_of(x) by {
                    assert(a1.children_of(x) == a0.children_of(x));
                }
                assert forall|x: NodeId| 0 <= x.index < old_len implies #[trigger] a2.data_of(x) == old(self).arena.data_of(x) by {
                    assert(a1.data_of(x) == a0.data_of(x));
                }
                assert forall|x: NodeId| 0 <= x.index < old_len implies #[trigger] a2.is_dropped(x)
                    == old(self).arena.is_dropped(x) by {
                    assert(a1.is_dropped(x) == a0.is_dropped(x));
                }
                // every new node lies below `id` and is live
                assert forall|x: NodeId| Self::fresh(x, old_len, a2.len()) implies #[trigger] a2.in_subtree(
                    x,
                    id,
                ) by {
                    if x.index < a0.len() {
                        assert(a0.in_subtree(x, id));
                        assert(a1.ancestors_of(x) == a0.ancestors_of(x));
                        if a1.in_subtree(x, cid) {
                            let anc = a0.ancestors_of(x);
                            let i = anc.index_of(cid);
                            a0.lemma_ancestor_suffix(x, i);
                        }
                    } else {
                        assert(Self::fresh(x, a0.len(), a1.len()));
                        assert(a1.in_subtree(x, cid));
                        let tail = seq![id] + a1.ancestors_of(id);
                        assert((a1.ancestors_of(x) + seq![id] + a1.ancestors_of(id))[a1.ancestors_of(
                            x,
                        ).len() as int] == id);
                    }
                }
                assert forall|x: NodeId| Self::fresh(x, old_len, a2.len()) implies !#[trigger] a2.is_dropped(
                    x,
                ) by {
                    if x.index < a0.len() {
                        assert(!a0.is_dropped(x));
                        assert(a1.is_dropped(x) == a0.is_dropped(x));
                    } else {
                        assert(Self::fresh(x, a0.len(), a1.len()));
                        assert(!a1.is_dropped(x));
                    }
                }
                assert(a2.data_of(id) == w.payload()) by {
                    assert(a1.data_of(id) == a0.data_of(id));
                }
                // the dirty set
                assert(self.dirty_set@ == mid.dirty_set@);
                assert(self.dirty_set@.subrange(0, old_dirty.len() as int) =~= old_dirty) by {
                    assert(mid.dirty_set@.subrange(0, before.dirty_set@.len() as int)
                        == before.dirty_set@);
                    assert(before.dirty_set@.subrange(0, old_dirty.len() as int) == old_dirty);
                }
                assert forall|i: int| old_dirty.len() <= i < self.dirty_set@.len() implies Self::fresh(
                    #[trigger] self.dirty_set@[i],
                    old_len,
                    a2.len(),
                ) && a2.data_of(self.dirty_set@[i]).needs_regen() by {
                    let x = self.dirty_set@[i];
                    if i < before.dirty_set@.len() {
                        assert(mid.dirty_set@.subrange(0, before.dirty_set@.len() as int)[i] == x);
                        assert(before.dirty_set@[i] == x);
                        assert(a1.data_of(x) == a0.data_of(x));
                    } else {
                        assert(Self::fresh(mid.dirty_set@[i], a0.len(), a1.len()));
                    }
                }
                assert forall|x: NodeId|
                    Self::fresh(x, old_len, a2.len()) && a2.data_of(
                        x,
                    ).needs_regen() implies #[trigger] self.dirty_set@.contains(x) by {
                    if x.index < a0.len() {
                        assert(a1.data_of(x) == a0.data_of(x));
                        assert(before.dirty_set@.contains(x));
                        let i = before.dirty_set@.index_of(x);
                        assert(mid.dirty_set@.subrange(0, before.dirty_set@.len() as int)[i] == x);
                        assert(mid.dirty_set@[i] == x);
                    } else {
                        assert(Self::fresh(x, a0.len(), a1.len()));
                    }
                }
            }
        }
        proof {
            assert(w.node_count_from(all.len() as int) == 0);
        }
        id
    }
}


/// Every ancestor of a node allocated before `mark` was allocated before
/// `mark`, and every ancestor of a node allocated from `mark` on was
/// allocated from `mark` on.
pub open spec fn generations_apart(a: &TreeArena<RenderNode>, mark: nat) -> bool {
    forall|x: NodeId, k: int|
        a.has(x) && 0 <= k < a.ancestors_of(x).len() ==> ((#[trigger] a.ancestors_of(x)[k]).index < mark
            <==> x.index < mark)
}

impl WidgetTree {
    /// Builds the widgets of `ws`, each as a tree of its own, and returns the
    /// roots in the order of the widgets.
    pub fn build_all(&mut self, ws: Vec<Widget>) -> (r: Vec<NodeId>)
        requires
            old(self).wf(),
        ensures
            final(self).wf(),
            final(self).root == old(self).root,
            final(self).delay_events == old(self).delay_events,
            r@.len() == ws@.len(),
            final(self).arena.len() >= old(self).arena.len(),
            final(self).arena.same_nodes(&old(self).arena, old(self).arena.len() as int),
            forall|i: int|
                0 <= i < ws@.len() ==> {
                    &&& realizes(&final(self).arena, #[trigger] r@[i], ws@[i])
                    &&& final(self).arena.parent_of(r@[i]).is_none()
                    &&& Self::fresh(r@[i], old(self).arena.len(), final(self).arena.len())
                },
            r@.no_duplicates(),
            ws@.len() > 0 ==> r@[0].index == old(self).arena.len(),
            generations_apart(&final(self).arena, old(self).arena.len()),
            forall|x: NodeId|
                Self::fresh(x, old(self).arena.len(), final(self).arena.len()) ==> !#[trigger] final(self).arena.is_dropped(x),
            final(self).dirty_set@.len() >= old(self).dirty_set@.len(),
            final(self).dirty_set@.subrange(0, old(self).dirty_set@.len() as int) == old(self).dirty_set@,
            forall|k: int|
                old(self).dirty_set@.len() <= k < final(self).dirty_set@.len() ==> Self::fresh(
                    #[trigger] final(self).dirty_set@[k],
                    old(self).arena.len(),
                    final(self).arena.len(),
                ) && final(self).arena.data_of(final(self).dirty_set@[k]).needs_regen(),
            forall|x: NodeId|
                Self::fresh(x, old(self).arena.len(), final(self).arena.len()) && final(self).arena.data_of(x).needs_regen() ==> #[trigger] final(self).dirty_set@.contains(x),
    {
        let ghost old_len = self.arena.len();
        let ghost old_dirty = self.dirty_set@;
        let ghost all = ws@;
        let mut rest = reversed(ws);
        let mut out: Vec<NodeId> = Vec::new();
        proof {
            assert(self.dirty_set@.subrange(0, old_dirty.len() as int) =~= old_dirty);
            old(self).arena.lemma_generations(old_len);
        }
        while rest.len() > 0
            invariant
                self.wf(),
                old(self).wf(),
                self.root == old(self).root,
                self.delay_events == old(self).delay_events,
                old_len == old(self).arena.len(),
                old_dirty == old(self).dirty_set@,
                all == ws@,
                rest@.len() + out@.len() == all.len(),
                forall|i: int| 0 <= i < rest@.len() ==> rest@[i] == all[all.len() - 1 - i],
                self.arena.len() >= old_len,
                self.arena.same_nodes(&old(self).arena, old_len as int),
                forall|i: int|
                    0 <= i < out@.len() ==> {
                        &&& realizes(&self.arena, #[trigger] out@[i], all[i])
                        &&& self.arena.parent_of(out@[i]).is_none()
                        &&& Self::fresh(out@[i], old_len, self.arena.len())
                    },
                out@.no_duplicates(),
                out@.len() > 0 ==> out@[0].index == old_len,
                out@.len() == 0 ==> self.arena.len() == old_len,
                generations_apart(&self.arena, old_len),
                forall|x: NodeId|
                    Self::fresh(x, old_len, self.arena.len()) ==> !#[trigger] self.arena.is_dropped(x),
                self.dirty_set@.len() >= old_dirty.len(),
                self.dirty_set@.subrange(0, old_dirty.len() as int) == old_dirty,
                forall|k: int|
                    old_dirty.len() <= k < self.dirty_set@.len() ==> Self::fresh(
                        #[trigger] self.dirty_set@[k],
                        old_len,
                        self.arena.len(),
                    ) && self.arena.data_of(self.dirty_set@[k]).needs_regen(),
                forall|x: NodeId|
                    Self::fresh(x, old_len, self.arena.len()) && self.arena.data_of(x).needs_regen()
                        ==> #[trigger] self.dirty_set@.contains(x),
            decreases rest.len(),
        {
            let ghost k = out@.len() as int;
            let w = rest.pop().unwrap();
            assert(w == all[k]);
            let ghost before = *self;
            let id = self.build(w);
            let ghost pre_out = out@;
            out.push(id);
            proof {
                let a0 = &before.arena;
                let a1 = &self.arena;
                a0.lemma_model();
                if k > 0 {
                    assert(out@[0] == pre_out[0]);
                }
                assert forall|i: int| 0 <= i < out@.len() implies {
                    &&& realizes(a1, #[trigger] out@[i], all[i])
                    &&& a1.parent_of(out@[i]).is_none()
                    &&& Self::fresh(out@[i], old_len, a1.len())
                } by {
                    if i < k {
                        let r = pre_out[i];
                        assert(out@[i] == r);
                        assert(realizes(a0, r, all[i]));
                        assert forall|x: NodeId| a0.has(x) && a0.in_subtree(x, r) implies #[trigger] a1.data_of(
                            x,
                        ) == a0.data_of(x) by {}
                        assert forall|x: NodeId|
                            a0.has(x) && a0.in_subtree(x, r) implies #[trigger] a1.children_of(x)
                            == a0.children_of(x) by {}
                        lemma_realizes_frame(a0, a1, r, all[i]);
                        assert(a1.parent_of(r) == a0.parent_of(r));
                    }
                }
                assert forall|i: int, j: int| 0 <= i < out@.len() && 0 <= j < out@.len() && i != j implies out@[i]
                    != out@[j] by {
                    if i < k && j < k {
                        assert(pre_out[i] != pre_out[j]);
                    } else if i < k {
                        assert(Self::fresh(pre_out[i], old_len, a0.len()));
                    } else if j < k {
                        assert(Self::fresh(pre_out[j], old_len, a0.len()));
                    }
                }
                // old and new generations stay apart
                assert forall|x: NodeId, m: int|
                    a1.has(x) && 0 <= m < a1.ancestors_of(x).len() implies ((#[trigger] a1.ancestors_of(
                    x,
                )[m]).index < old_len <==> x.index < old_len) by {
                    if x.index < a0.len() {
                        assert(a1.ancestors_of(x) == a0.ancestors_of(x));
                        assert((a0.ancestors_of(x)[m]).index < old_len <==> x.index < old_len);
                    } else {
                        assert(Self::fresh(x, a0.len(), a1.len()));
                        assert(a1.in_subtree(x, id));
                        if x == id {
                            a1.lemma_model();
                        } else {
                            a1.lemma_subtree_depth(x, id);
                            a1.lemma_model();
                            let anc = a1.ancestors_of(x);
                            assert(a1.ancestors_of(id) == Seq::<NodeId>::empty());
                            assert(anc[anc.len() - 1] == id);
                            let y = anc[m];
                            a1.lemma_ancestor_suffix(x, m);
                            if y.index < a0.len() {
                                // an older node would have older ancestors only
                                assert(a1.ancestors_of(y) == a0.ancestors_of(y));
                                if m < anc.len() - 1 {
                                    let t = anc.len() - 1 - (m + 1);
                                    assert(a1.ancestors_of(y)[t] == id);
                                    a0.lemma_ancestor_suffix(y, t);
                                }
                            }
                        }
                    }
                }
                assert forall|x: NodeId| Self::fresh(x, old_len, a1.len()) implies !#[trigger] a1.is_dropped(
                    x,
                ) by {
                    if x.index < a0.len() {
                        assert(!a0.is_dropped(x));
                        assert(a1.is_dropped(x) == a0.is_dropped(x));
                    } else {
                        assert(Self::fresh(x, a0.len(), a1.len()));
                    }
                }
                assert(self.arena.same_nodes(&old(self).arena, old_len as int)) by {
                    assert forall|x: NodeId| 0 <= x.index < old_len implies #[trigger] a1.data_of(x) == old(self).arena.data_of(x) by {
                        assert(a1.data_of(x) == a0.data_of(x));
                    }
                    assert forall|x: NodeId| 0 <= x.index < old_len implies #[trigger] a1.parent_of(x)
                        == old(self).arena.parent_of(x) by {
                        assert(a1.parent_of(x) == a0.parent_of(x));
                    }
                    assert forall|x: NodeId| 0 <= x.index < old_len implies #[trigger] a1.children_of(x)
                        == old(self).arena.children_of(x) by {
                        assert(a1.children_of(x) == a0.children_of(x));
                    }
                    assert forall|x: NodeId| 0 <= x.index < old_len implies #[trigger] a1.ancestors_of(x)
                        == old(self).arena.ancestors_of(x) by {
                        assert(a1.ancestors_of(x) == a0.ancestors_of(x));
                    }
                    assert forall|x: NodeId| 0 <= x.index < old_len implies #[trigger] a1.is_dropped(x)
                        == old(self).arena.is_dropped(x) by {
                        assert(a1.is_dropped(x) == a0.is_dropped(x));
                    }
                }
                // the dirty set
                assert(self.dirty_set@.subrange(0, old_dirty.len() as int) =~= old_dirty) by {
                    assert(self.dirty_set@.subrange(0, before.dirty_set@.len() as int)
                        == before.dirty_set@);
                    assert(before.dirty_set@.subrange(0, old_dirty.len() as int) == old_dirty);
                }
                assert forall|i: int| old_dirty.len() <= i < self.dirty_set@.len() implies Self::fresh(
                    #[trigger] self.dirty_set@[i],
                    old_len,
                    a1.len(),
                ) && a1.data_of(self.dirty_set@[i]).needs_regen() by {
                    let x = self.dirty_set@[i];
                    if i < before.dirty_set@.len() {
                        assert(self.dirty_set@.subrange(0, before.dirty_set@.len() as int)[i] == x);
                        assert(before.dirty_set@[i] == x);
                        assert(a1.data_of(x) == a0.data_of(x));
                    } else {
                        assert(Self::fresh(self.dirty_set@[i], a0.len(), a1.len()));
                    }
                }
                assert forall|x: NodeId|
                    Self::fresh(x, old_len, a1.len()) && a1.data_of(
                        x,
                    ).needs_regen() implies #[trigger] self.dirty_set@.contains(x) by {
                    if x.index < a0.len() {
                        assert(a1.data_of(x) == a0.data_of(x));
                        assert(before.dirty_set@.contains(x));
                        let i = before.dirty_set@.index_of(x);
                        assert(self.dirty_set@.subrange(0, before.dirty_set@.len() as int)[i] == x);
                        assert(self.dirty_set@[i] == x);
                    } else {
                        assert(Self::fresh(x, a0.len(), a1.len()));
                    }
                }
                assert(self.root == old(self).root);
                match self.root {
                    Some(r) => {
                        assert(a1.is_dropped(r) == a0.is_dropped(r));
                        assert(a1.parent_of(r) == a0.parent_of(r));
                    },
                    None => {},
                }
            }
        }
        out
    }
}


/// The widgets that linger at the dynamic position of `h`; none where `h`
/// holds no position.
pub open spec fn host_of(a: &TreeArena<RenderNode>, h: NodeId) -> Seq<NodeId> {
    match a.data_of(h).dynamic {
        Some(d) => d.drop_until_widgets@,
        None => Seq::empty(),
    }
}

/// The first node, at or after slot `from`, at whose position `wid` lingers.
pub open spec fn first_host(a: &TreeArena<RenderNode>, wid: NodeId, from: nat) -> Option<NodeId>
    decreases a.len() - from,
{
    if from >= a.len() {
        None
    } else if host_of(a, NodeId { index: from as usize }).contains(wid) {
        Some(NodeId { index: from as usize })
    } else {
        first_host(a, wid, from + 1)
    }
}

/// Where no host is found, `wid` lingers nowhere; where one is found, `wid`
/// lingers there.
pub proof fn lemma_first_host(a: &TreeArena<RenderNode>, wid: NodeId, from: nat)
    requires
        a.len() <= usize::MAX,
    ensures
        match first_host(a, wid, from) {
            Some(h) => a.has(h) && from <= h.index && host_of(a, h).contains(wid),
            None => forall|h: NodeId| a.has(h) && from <= h.index ==> !#[trigger] host_of(a, h).contains(wid),
        },
    decreases a.len() - from,
{
    if from < a.len() {
        lemma_first_host(a, wid, from + 1);
        let here = NodeId { index: from as usize };
        if !host_of(a, here).contains(wid) && first_host(a, wid, from + 1).is_none() {
            assert forall|h: NodeId| a.has(h) && from <= h.index implies !#[trigger] host_of(a, h).contains(
                wid,
            ) by {
                if h.index == from {
                    assert(h == here);
                }
            }
        }
    }
}

impl WidgetTree {
    /// The tree that `w` describes. A mount is notified for every node, in
    /// document order, and every dynamic position waits for layout.
    pub fn new(w: Widget) -> (r: Self)
        ensures
            r.wf(),
            r.root == Some(NodeId { index: 0 }),
            realizes(&r.arena, NodeId { index: 0 }, w),
            r.arena.len() == w.node_count(),
            r.delay_events@ == mounted_events(r.arena.descendants_of(NodeId { index: 0 })),
            forall|x: NodeId|
                r.arena.has(x) ==> (#[trigger] r.dirty_set@.contains(x) <==> r.arena.data_of(x).needs_regen()),
    {
        let mut tree = WidgetTree {
            arena: TreeArena::new(),
            root: None,
            dirty_set: NodeSet::new(),
            delay_events: Vec::new(),
        };
        let id = tree.build(w);
        tree.root = Some(id);
        let mounted = tree.arena.descendants(id);
        push_mounted(&mut tree.delay_events, &mounted);
        proof {
            assert(tree.delay_events@ =~= mounted_events(tree.arena.descendants_of(id)));
            assert forall|x: NodeId| tree.arena.has(x) implies (#[trigger] tree.dirty_set@.contains(x)
                <==> tree.arena.data_of(x).needs_regen()) by {
                assert(Self::fresh(x, 0, tree.arena.len()));
                if tree.dirty_set@.contains(x) {
                    let k = tree.dirty_set@.index_of(x);
                    assert(tree.dirty_set@[k] == x);
                }
            }
        }
        tree
    }

    /// Whether a node waits for layout.
    pub fn is_dirty(&self) -> (r: bool)
        ensures
            r == (self.dirty_set@.len() > 0),
    {
        !self.dirty_set.is_empty()
    }

    /// Makes a live node wait for layout and says whether the node is live.
    /// A node that waits already does not wait twice.
    pub fn mark_dirty(&mut self, id: NodeId) -> (r: bool)
        requires
            old(self).wf(),
        ensures
            r == old(self).arena.contains(id),
            final(self).arena == old(self).arena,
            final(self).root == old(self).root,
            final(self).delay_events == old(self).delay_events,
            final(self).dirty_set@ == if r {
                with_member(old(self).dirty_set@, id)
            } else {
                old(self).dirty_set@
            },
    {
        if self.arena.dropped(id) {
            false
        } else {
            self.dirty_set.insert(id);
            true
        }
    }

    /// Hands out the nodes that wait for layout, oldest first. After that
    /// none waits.
    pub fn take_dirty(&mut self) -> (r: Vec<NodeId>)
        ensures
            r@ == old(self).dirty_set@,
            final(self).dirty_set@ == Seq::<NodeId>::empty(),
            final(self).arena == old(self).arena,
            final(self).root == old(self).root,
            final(self).delay_events == old(self).delay_events,
    {
        self.dirty_set.take()
    }

    /// Hands out the notifications that wait for dispatch, oldest first.
    /// After that none waits.
    pub fn take_events(&mut self) -> (r: Vec<DelayEvent>)
        ensures
            r@ == old(self).delay_events@,
            final(self).delay_events@ == Seq::<DelayEvent>::empty(),
            final(self).arena == old(self).arena,
            final(self).root == old(self).root,
            final(self).dirty_set == old(self).dirty_set,
    {
        let mut out: Vec<DelayEvent> = Vec::new();
        std::mem::swap(&mut out, &mut self.delay_events);
        out
    }

    /// Hands a new output to the dynamic position at `id`, which then waits
    /// for layout. An output that was handed over before and not taken yet
    /// is replaced. Nothing happens, and the answer is no, where `id` is not
    /// a live node with a dynamic position.
    pub fn set_declare_dyns(&mut self, id: NodeId, dyns: Vec<Widget>) -> (r: bool)
        requires
            old(self).wf(),
        ensures
            final(self).wf(),
            r == (old(self).arena.contains(id) && old(self).arena.data_of(id).dynamic.is_some()),
            !r ==> *final(self) == *old(self),
            r ==> {
                let before = old(self).arena.data_of(id).dynamic.unwrap();
                let after = final(self).arena.data_of(id).dynamic;
                &&& after.is_some()
                &&& after.unwrap().pending() == Some(dyns@)
                &&& after.unwrap().gen_info == before.gen_info
                &&& after.unwrap().drop_until_widgets == before.drop_until_widgets
                &&& dynamic_set(&final(self).arena, &old(self).arena, id, after)
                &&& final(self).dirty_set@ == with_member(old(self).dirty_set@, id)
                &&& final(self).root == old(self).root
                &&& final(self).delay_events == old(self).delay_events
            },
    {
        if self.arena.dropped(id) {
            return false;
        }
        if self.arena.get(id).dynamic.is_none() {
            return false;
        }
        let taken = replace_dynamic(&mut self.arena, id, None);
        let ghost mid = self.arena;
        let mut dr = taken.unwrap();
        dr.dyn_widgets.set_declare_dyns(dyns);
        let _ = replace_dynamic(&mut self.arena, id, Some(dr));
        self.dirty_set.insert(id);
        proof {
            let a = old(self).arena;
            let b = self.arena;
            assert forall|x: NodeId| a.has(x) && x != id implies #[trigger] b.data_of(x) == a.data_of(x) by {
                assert(mid.data_of(x) == a.data_of(x));
            }
            assert forall|x: NodeId| #[trigger] b.parent_of(x) == a.parent_of(x) by {
                assert(mid.parent_of(x) == a.parent_of(x));
            }
            assert forall|x: NodeId| #[trigger] b.children_of(x) == a.children_of(x) by {
                assert(mid.children_of(x) == a.children_of(x));
            }
            assert forall|x: NodeId| #[trigger] b.ancestors_of(x) == a.ancestors_of(x) by {
                assert(mid.ancestors_of(x) == a.ancestors_of(x));
            }
            assert forall|x: NodeId| #[trigger] b.is_dropped(x) == a.is_dropped(x) by {
                assert(mid.is_dropped(x) == a.is_dropped(x));
            }
        }
        true
    }

    /// Sets the flag of the delay-drop marker that is consulted for `id`,
    /// and makes the node wait for layout. Nothing happens, and the answer
    /// is no, where `id` is not a live node with such a marker.
    pub fn set_delay_drop_until(&mut self, id: NodeId, value: bool) -> (r: bool)
        requires
            old(self).wf(),
        ensures
            final(self).wf(),
            r == (old(self).arena.contains(id) && old(self).arena.data_of(id).delay_drop_of().is_some()),
            !r ==> *final(self) == *old(self),
            r ==> {
                let i = first_delay_drop_index(old(self).arena.data_of(id).attachments@, 0).unwrap();
                &&& attachment_set(
                    &final(self).arena,
                    &old(self).arena,
                    id,
                    i,
                    Attachment::DelayDrop(DelayDrop { delay_drop_until: value }),
                )
                &&& final(self).arena.data_of(id).delay_drop_of() == Some(
                    DelayDrop { delay_drop_until: value },
                )
                &&& final(self).dirty_set@ == with_member(old(self).dirty_set@, id)
                &&& final(self).root == old(self).root
                &&& final(self).delay_events == old(self).delay_events
            },
    {
        if self.arena.dropped(id) {
            return false;
        }
        let found = find_delay_drop(&self.arena.get(id).attachments);
        match found {
            Some(i) => {
                set_attachment(
                    &mut self.arena,
                    id,
                    i,
                    Attachment::DelayDrop(DelayDrop { delay_drop_until: value }),
                );
                self.dirty_set.insert(id);
                proof {
                    crate::widget::lemma_set_delay_drop(
                        old(self).arena.data_of(id).attachments@,
                        i as int,
                        DelayDrop { delay_drop_until: value },
                        0,
                    );
                }
                true
            },
            None => false,
        }
    }

    /// Finds the node with the lowest handle at whose dynamic position `wid`
    /// lingers.
    pub fn find_host(&self, wid: NodeId) -> (r: Option<NodeId>)
        requires
            self.wf(),
        ensures
            r == first_host(&self.arena, wid, 0),
            r.is_some() ==> self.arena.has(r.unwrap()) && host_of(&self.arena, r.unwrap()).contains(wid),
    {
        let n = self.arena.slots();
        let mut i: usize = 0;
        proof {
            lemma_first_host(&self.arena, wid, 0);
        }
        while i < n
            invariant
                self.wf(),
                n == self.arena.len(),
                i <= n,
                first_host(&self.arena, wid, 0) == first_host(&self.arena, wid, i as nat),
            decreases n - i,
        {
            let h = NodeId { index: i };
            let node = self.arena.get(h);
            let here = match &node.dynamic {
                Some(d) => d.drop_until_widgets.contains(wid),
                None => false,
            };
            if here {
                return Some(h);
            }
            i = i + 1;
        }
        None
    }

    /// Releases a lingering widget whose delay is over: where `wid` lingers
    /// at a dynamic position and no longer delays its drop, it leaves the
    /// position and is removed with its subtree. Says whether that was done;
    /// otherwise nothing changes.
    pub fn release(&mut self, wid: NodeId) -> (r: bool)
        requires
            old(self).wf(),
            old(self).root != Some(wid),
        ensures
            final(self).wf(),
            r == (first_host(&old(self).arena, wid, 0).is_some() && old(self).arena.contains(wid)
                && !old(self).arena.data_of(wid).delays_drop()),
            !r ==> *final(self) == *old(self),
            r ==> {
                let h = first_host(&old(self).arena, wid, 0).unwrap();
                let before = old(self).arena.data_of(h).dynamic.unwrap();
                let after = final(self).arena.data_of(h).dynamic;
                &&& after.is_some()
                &&& after.unwrap().dyn_widgets == before.dyn_widgets
                &&& after.unwrap().gen_info == before.gen_info
                &&& after.unwrap().drop_until_widgets@ == before.drop_until_widgets@.remove_value(wid)
                &&& !after.unwrap().drop_until_widgets@.contains(wid)
                &&& exists|mid: TreeArena<RenderNode>|
                    mid.wf() && #[trigger] dynamic_set(&mid, &old(self).arena, h, after) && final(self).arena.removed_from(&mid, wid)
                &&& final(self).arena.is_dropped(wid)
                &&& final(self).root == old(self).root
                &&& final(self).delay_events == old(self).delay_events
                &&& final(self).dirty_set == old(self).dirty_set
            },
    {
        if self.arena.dropped(wid) {
            return false;
        }
        let delays = match find_delay_drop(&self.arena.get(wid).attachments) {
            Some(i) => match self.arena.get(wid).attachments[i] {
                Attachment::DelayDrop(d) => !d.delay_drop_until,
                _ => false,
            },
            None => false,
        };
        if delays {
            return false;
        }
        match self.find_host(wid) {
            Some(h) => {
                let taken = replace_dynamic(&mut self.arena, h, None);
                let ghost m0 = self.arena;
                let mut dr = taken.unwrap();
                let _ = dr.drop_until_widgets.remove(wid);
                let ghost after = Some(dr);
                let _ = replace_dynamic(&mut self.arena, h, Some(dr));
                let ghost mid = self.arena;
                proof {
                    let a = old(self).arena;
                    assert(dynamic_set(&mid, &a, h, after)) by {
                        assert forall|x: NodeId| a.has(x) && x != h implies #[trigger] mid.data_of(x)
                            == a.data_of(x) by {
                            assert(m0.data_of(x) == a.data_of(x));
                        }
                        assert forall|x: NodeId| #[trigger] mid.parent_of(x) == a.parent_of(x) by {
                            assert(m0.parent_of(x) == a.parent_of(x));
                        }
                        assert forall|x: NodeId| #[trigger] mid.children_of(x) == a.children_of(x) by {
                            assert(m0.children_of(x) == a.children_of(x));
                        }
                        assert forall|x: NodeId| #[trigger] mid.ancestors_of(x) == a.ancestors_of(x) by {
                            assert(m0.ancestors_of(x) == a.ancestors_of(x));
                        }
                        assert forall|x: NodeId| #[trigger] mid.is_dropped(x) == a.is_dropped(x) by {
                            assert(m0.is_dropped(x) == a.is_dropped(x));
                        }
                    }
                }
                self.arena.remove_subtree(wid);
                proof {
                    let a = old(self).arena;
                    let b = self.arena;
                    assert(b.data_of(h) == mid.data_of(h));
                    assert(b.data_of(h).dynamic == after);
                    assert(dynamic_set(&mid, &a, h, b.data_of(h).dynamic));
                    // the root of the tree is still live
                    match self.root {
                        Some(r) => {
                            assert(mid.parent_of(r).is_none());
                            mid.lemma_model();
                            assert(mid.ancestors_of(r) == Seq::<NodeId>::empty());
                            assert(!mid.in_subtree(r, wid));
                        },
                        None => {},
                    }
                }
                true
            },
            None => false,
        }
    }
}

} // verus!
