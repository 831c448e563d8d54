//! The layout pass: the nodes that wait for layout are taken one by one,
//! and a dynamic position among them is regenerated.

use crate::arena::{NodeId, TreeArena};
use crate::dynamic_widget::{descend, lemma_descend_step, DynRender, DynWidgetGenInfo};
use crate::regen::{
    gen_info_of, olds_of, regen_ready, regenerated, steps_down, Regenerated, RegenTrace,
};
use crate::splice::{check_span, disposed_events, mounted_events, span_ready, walk_ready};
use crate::widget::{BoxClamp, Render, RenderNode, Size, Widget};
use crate::widget_tree::{host_of, WidgetTree};
use vstd::prelude::*;

verus! {

/// Why the output of a dynamic position cannot take its place in the tree.
#[derive(Clone, Copy, Debug, PartialEq, Eq, Structural)]
pub enum RegenError {
    /// A widget of the output is a dynamic position itself.
    DynamicOutput,
    /// Static children hang below the position, and the output is more than
    /// one widget.
    ManyWidgets,
    /// Static children hang below the position, and a widget down the first
    /// children of the output has more than one child.
    NotAChain,
    /// The path from the position down to the parent of the static children
    /// is not a path of only children.
    BrokenPath,
    /// The position has fewer following siblings than it produced widgets.
    MissingSiblings,
    /// The position has no parent, and the output is more than one widget.
    ManyRoots,
}

/// Position of the first widget, at or after `from`, that is a dynamic
/// position.
pub open spec fn first_dynamic(ws: Seq<Widget>, from: int) -> Option<int>
    decreases ws.len() - from,
{
    if from < 0 || from >= ws.len() {
        None
    } else if ws[from].dynamic.is_some() {
        Some(from)
    } else {
        first_dynamic(ws, from + 1)
    }
}

/// No widget at or after `from` is a dynamic position exactly where no first
/// one is found.
pub proof fn lemma_first_dynamic(ws: Seq<Widget>, from: int)
    requires
        0 <= from,
    ensures
        first_dynamic(ws, from).is_none() <==> forall|i: int|
            from <= i < ws.len() ==> (#[trigger] ws[i]).dynamic.is_none(),
    decreases ws.len() - from,
{
    if from < ws.len() {
        lemma_first_dynamic(ws, from + 1);
        if ws[from].dynamic.is_none() {
            if first_dynamic(ws, from + 1).is_none() {
                assert forall|i: int| from <= i < ws.len() implies (#[trigger] ws[i]).dynamic.is_none() by {
                    if i > from {
                    }
                }
            }
        }
    }
}

/// The first reason, in the order of [`RegenError`], why the output of the
/// position at `id` cannot take its place; none where it can.
pub open spec fn regen_error(tree: &WidgetTree, id: NodeId) -> Option<RegenError> {
    let a = &tree.arena;
    let ws = a.data_of(id).dynamic.unwrap().pending().unwrap();
    if first_dynamic(ws, 0).is_some() {
        Some(RegenError::DynamicOutput)
    } else {
        match gen_info_of(a, id) {
            DynWidgetGenInfo::DynDepth(depth) => {
                if ws.len() > 1 {
                    Some(RegenError::ManyWidgets)
                } else if ws.len() == 1 && !ws[0].is_chain() {
                    Some(RegenError::NotAChain)
                } else if !walk_ready(a, id, steps_down(depth)) {
                    Some(RegenError::BrokenPath)
                } else {
                    None
                }
            },
            DynWidgetGenInfo::WholeSubtree(s) => {
                if !span_ready(a, id, s as nat) {
                    Some(RegenError::MissingSiblings)
                } else if a.parent_of(id).is_none() && ws.len() > 1 {
                    Some(RegenError::ManyRoots)
                } else {
                    None
                }
            },
        }
    }
}

/// Whether the path from `id` down is what the walk to the static children
/// asks for.
pub fn check_walk(arena: &TreeArena<RenderNode>, id: NodeId, down: usize) -> (r: bool)
    requires
        arena.wf(),
        arena.has(id),
    ensures
        r == walk_ready(arena, id, down as nat),
{
    let mut cur = id;
    let mut t: usize = 0;
    while t < down
        invariant
            arena.wf(),
            arena.has(id),
            arena.has(cur),
            t <= down,
            descend(arena, id, t as nat) == Some(cur),
            forall|u: nat|
                u < t ==> match #[trigger] descend(arena, id, u) {
                    Some(n) => arena.children_of(n).len() == 1,
                    None => false,
                },
        decreases down - t,
    {
        let single = arena.has_single_child_at_most(cur);
        if !single {
            proof {
                assert(match descend(arena, id, t as nat) {
                    Some(n) => arena.children_of(n).len() <= 1,
                    None => true,
                } == false);
            }
            return false;
        }
        let child = arena.first_child(cur);
        match child {
            Some(c) => {
                proof {
                    lemma_descend_step(arena, id, t as nat);
                }
                cur = c;
                t = t + 1;
            },
            None => {
                // no child: fine only at the last step
                if t + 1 < down {
                    proof {
                        let tt = t as nat;
                        assert(tt < (down - 1) as nat);
                        assert(match descend(arena, id, tt) {
                            Some(n) => arena.children_of(n).len() == 1,
                            None => false,
                        } == false);
                    }
                    return false;
                } else {
                    proof {
                        let d = down as nat;
                        assert forall|u: nat| u < d implies match #[trigger] descend(arena, id, u) {
                            Some(n) => arena.children_of(n).len() <= 1,
                            None => true,
                        } by {
                            if u < t {
                            } else {
                                assert(u == t);
                            }
                        }
                    }
                    return true;
                }
            },
        }
    }
    proof {
        let d = down as nat;
        assert forall|u: nat| u < d implies match #[trigger] descend(arena, id, u) {
            Some(n) => arena.children_of(n).len() <= 1,
            None => true,
        } by {}
        if down > 0 {
            assert forall|u: nat| u < (down - 1) as nat implies match #[trigger] descend(arena, id, u) {
                Some(n) => arena.children_of(n).len() == 1,
                None => false,
            } by {}
        }
    }
    true
}

/// Finds the first widget that is a dynamic position.
pub fn find_dynamic(ws: &Vec<Widget>) -> (r: bool)
    ensures
        r == first_dynamic(ws@, 0).is_some(),
{
    let mut i: usize = 0;
    while i < ws.len()
        invariant
            i <= ws.len(),
            first_dynamic(ws@, 0) == first_dynamic(ws@, i as int),
        decreases ws.len() - i,
    {
        if ws[i].dynamic.is_some() {
            return true;
        }
        i = i + 1;
    }
    false
}

impl WidgetTree {
    /// Says why the output of the position at `id` cannot take its place in
    /// the tree, or nothing where it can.
    pub fn check_regen(&self, id: NodeId) -> (r: Option<RegenError>)
        requires
            self.wf(),
            self.arena.contains(id),
            self.arena.data_of(id).needs_regen(),
        ensures
            r == regen_error(self, id),
            r.is_none() <==> regen_ready(self, id),
    {
        let node = self.arena.get(id);
        let has_child = self.arena.first_child(id).is_some();
        let has_parent = self.arena.parent(id).is_some();
        proof {
            lemma_first_dynamic(node.dynamic.unwrap().pending().unwrap(), 0);
        }
        match &node.dynamic {
            Some(d) => match &d.dyn_widgets.dyns {
                Some(ws) => {
                    if find_dynamic(ws) {
                        return Some(RegenError::DynamicOutput);
                    }
                    let info = match d.gen_info {
                        Some(g) => g,
                        None => if has_child {
                            DynWidgetGenInfo::DynDepth(1)
                        } else {
                            DynWidgetGenInfo::WholeSubtree(1)
                        },
                    };
                    match info {
                        DynWidgetGenInfo::DynDepth(depth) => {
                            if ws.len() > 1 {
                                return Some(RegenError::ManyWidgets);
                            }
                            if ws.len() == 1 && !ws[0].check_chain() {
                                return Some(RegenError::NotAChain);
                            }
                            let down = if depth > 0 {
                                depth - 1
                            } else {
                                0
                            };
                            if !check_walk(&self.arena, id, down) {
                                return Some(RegenError::BrokenPath);
                            }
                            None
                        },
                        DynWidgetGenInfo::WholeSubtree(s) => {
                            if !check_span(&self.arena, id, s) {
                                return Some(RegenError::MissingSiblings);
                            }
                            if !has_parent && ws.len() > 1 {
                                return Some(RegenError::ManyRoots);
                            }
                            None
                        },
                    }
                },
                None => None,
            },
            None => None,
        }
    }
}


/// The sum of two lengths, or the largest length where the sum is larger.
pub open spec fn sat_add(a: u32, b: u32) -> u32 {
    if a + b > u32::MAX {
        u32::MAX
    } else {
        (a + b) as u32
    }
}

/// The size of a row that is `acc` so far, with one more box of size `c`:
/// the widths add up, the larger height counts.
pub open spec fn row_join(acc: Size, c: Size) -> Size {
    Size {
        width: sat_add(acc.width, c.width),
        height: if c.height > acc.height {
            c.height
        } else {
            acc.height
        },
    }
}

/// The size that the node `id` takes under `clamp`. A placeholder and a
/// transform take the size of their first child, or no size without a child;
/// a sized box takes its own size as far as the clamp lets it; a container
/// lays its children out in a row.
pub open spec fn layout_size(a: &TreeArena<RenderNode>, id: NodeId, clamp: BoxClamp) -> Size
    decreases a.len() - a.depth_of(id), 1nat, 0nat,
    when a.wf() && a.has(id)
{
    match a.data_of(id).render {
        Render::SizedBox(s) => clamp.clamp_of(s),
        Render::Multi => row_size(a, id, 0, Size { width: 0, height: 0 }, clamp),
        _ => if a.children_of(id).len() > 0 {
            let c = a.children_of(id)[0];
            proof {
                a.lemma_model();
                a.lemma_depth_bound(c);
            }
            layout_size(a, c, clamp)
        } else {
            Size { width: 0, height: 0 }
        },
    }
}

/// The size of the row of the children of `id` from position `k` on, joined
/// to the row `acc` of the children before.
pub open spec fn row_size(a: &TreeArena<RenderNode>, id: NodeId, k: int, acc: Size, clamp: BoxClamp) -> Size
    decreases a.len() - a.depth_of(id), 0nat, a.children_of(id).len() - k,
    when a.wf() && a.has(id) && 0 <= k
{
    if k < a.children_of(id).len() {
        let c = a.children_of(id)[k];
        proof {
            a.lemma_model();
            a.lemma_depth_bound(c);
        }
        row_size(a, id, k + 1, row_join(acc, layout_size(a, c, clamp)), clamp)
    } else {
        acc
    }
}

/// Lays out the subtree of `id` under `clamp` and returns the size of `id`.
pub fn perform_layout(arena: &TreeArena<RenderNode>, id: NodeId, clamp: BoxClamp) -> (r: Size)
    requires
        arena.wf(),
        arena.has(id),
    ensures
        r == layout_size(arena, id, clamp),
    decreases arena.len() - arena.depth_of(id),
{
    let node = arena.get(id);
    match node.render {
        Render::SizedBox(s) => clamp.clamp(s),
        Render::Multi => {
            let mut acc = Size::zero();
            let mut c = arena.first_child(id);
            let ghost mut k: int = 0;
            let ghost ks = arena.children_of(id);
            while c.is_some()
                invariant
                    arena.wf(),
                    arena.has(id),
                    ks == arena.children_of(id),
                    0 <= k <= ks.len(),
                    c == crate::arena::seq_at(ks, k),
                    row_size(arena, id, k, acc, clamp) == row_size(
                        arena,
                        id,
                        0,
                        Size { width: 0, height: 0 },
                        clamp,
                    ),
                decreases ks.len() - k,
            {
                let ch = c.unwrap();
                proof {
                    arena.lemma_model();
                    arena.lemma_depth_bound(ch);
                    arena.lemma_position(id, k);
                }
                let s = perform_layout(arena, ch, clamp);
                let width = if acc.width > u32::MAX - s.width {
                    u32::MAX
                } else {
                    acc.width + s.width
                };
                let height = if s.height > acc.height {
                    s.height
                } else {
                    acc.height
                };
                acc = Size { width, height };
                c = arena.next_sibling(ch);
                proof {
                    k = k + 1;
                }
            }
            acc
        },
        _ => {
            match arena.first_child(id) {
                Some(c) => {
                    proof {
                        arena.lemma_model();
                        arena.lemma_depth_bound(c);
                    }
                    perform_layout(arena, c, clamp)
                },
                None => Size::zero(),
            }
        },
    }
}

/// What the layout of a dynamic position hands back: the node that stands
/// at the position now, its size, and what was regenerated.
pub struct Layout {
    pub id: NodeId,
    pub size: Size,
    pub regenerated: Option<Regenerated>,
}

/// The tree `after` is the tree `before` once the live node `id` was laid
/// out under `clamp`, with the result `result`. Where the node holds a
/// dynamic position with an output that the tree has not taken: where that
/// output cannot take its place, the tree is as before and the result is
/// the reason; where it can, the position was regenerated through the steps
/// of `trace`, and the first new root is what was laid out. Where the node
/// holds no such output, the tree is as before and the node itself was
/// laid out.
pub open spec fn laid_out(
    after: &WidgetTree,
    before: &WidgetTree,
    id: NodeId,
    clamp: BoxClamp,
    result: Result<Layout, RegenError>,
    trace: RegenTrace,
) -> bool {
    match result {
        Err(e) => {
            &&& before.arena.data_of(id).needs_regen()
            &&& regen_error(before, id) == Some(e)
            &&& *after == *before
        },
        Ok(l) => {
            &&& after.arena.has(l.id)
            &&& l.size == layout_size(&after.arena, l.id, clamp)
            &&& match l.regenerated {
                Some(done) => {
                    &&& before.arena.data_of(id).needs_regen()
                    &&& regen_error(before, id).is_none()
                    &&& regenerated(after, before, id, done.new_roots@, trace)
                    &&& after.delay_events@ == before.delay_events@ + disposed_events(
                        &before.arena,
                        olds_of(&before.arena, id),
                    ) + mounted_events(done.mounted@)
                    &&& l.id == done.new_roots@[0]
                },
                None => {
                    &&& !before.arena.data_of(id).needs_regen()
                    &&& *after == *before
                    &&& l.id == id
                },
            }
        },
    }
}

impl DynRender {
    /// Lays out the node `id` under `clamp`. Where the node holds a dynamic
    /// position with an output that the tree has not taken, the position is
    /// regenerated first, and the first new root is what is laid out. Where
    /// the output cannot take its place in the tree, nothing changes and the
    /// reason is returned.
    pub fn perform_layout(tree: &mut WidgetTree, id: NodeId, clamp: BoxClamp) -> (r: (
        Result<Layout, RegenError>,
        Ghost<RegenTrace>,
    ))
        requires
            old(tree).wf(),
            old(tree).arena.contains(id),
        ensures
            final(tree).wf(),
            laid_out(final(tree), old(tree), id, clamp, r.0, r.1@),
    {
        let needs = match &tree.arena.get(id).dynamic {
            Some(d) => d.dyn_widgets.dyns.is_some(),
            None => false,
        };
        if needs {
            match tree.check_regen(id) {
                Some(e) => {
                    return (
                        Err(e),
                        Ghost(
                            RegenTrace {
                                output: Seq::empty(),
                                built: *tree,
                                matched: tree.arena,
                                spliced: *tree,
                            },
                        ),
                    );
                },
                None => {},
            }
        }
        let (done, trace) = DynRender::regen_if_need(tree, id);
        match done {
            Some(d) => {
                let first = d.new_roots[0];
                proof {
                    assert(tree.arena.data_of(first).dynamic.is_some());
                    assert(trace@.spliced.arena.has(first)) by {
                        assert(trace@.built.arena.has(first));
                    }
                }
                let size = perform_layout(&tree.arena, first, clamp);
                (Ok(Layout { id: first, size, regenerated: Some(d) }), trace)
            },
            None => {
                let size = perform_layout(&tree.arena, id, clamp);
                (Ok(Layout { id, size, regenerated: None }), trace)
            },
        }
    }
}

/// What a layout pass did for one of the nodes that waited: nothing where
/// the node was removed in the meantime, else the result of its layout.
pub struct PassStep {
    pub id: NodeId,
    pub outcome: Option<Result<Layout, RegenError>>,
}

/// The trees `states` lead, one step for each node of `waiting`, from the
/// first to the last: a node that is removed when its turn comes is passed
/// over, every other node is laid out.
pub open spec fn passed(
    states: Seq<WidgetTree>,
    waiting: Seq<NodeId>,
    clamp: BoxClamp,
    steps: Seq<PassStep>,
    traces: Seq<RegenTrace>,
) -> bool {
    &&& states.len() == waiting.len() + 1
    &&& steps.len() == waiting.len()
    &&& traces.len() == waiting.len()
    &&& forall|k: int|
        0 <= k < waiting.len() ==> {
            let before = &states[k];
            let after = &states[k + 1];
            &&& (#[trigger] steps[k]).id == waiting[k]
            &&& before.wf()
            &&& match steps[k].outcome {
                None => !before.arena.contains(waiting[k]) && *after == *before,
                Some(result) => before.arena.contains(waiting[k]) && laid_out(
                    after,
                    before,
                    waiting[k],
                    clamp,
                    result,
                    traces[k],
                ),
            }
        }
}

impl WidgetTree {
    /// One layout pass: the nodes that wait are taken, oldest first, and
    /// each that is still live when its turn comes is laid out; a dynamic
    /// position among them is regenerated. The nodes that come to wait
    /// during the pass wait for the next one.
    pub fn layout(&mut self, clamp: BoxClamp) -> (r: (
        Vec<PassStep>,
        Ghost<Seq<WidgetTree>>,
        Ghost<Seq<RegenTrace>>,
    ))
        requires
            old(self).wf(),
        ensures
            final(self).wf(),
            passed(r.1@, old(self).dirty_set@, clamp, r.0@, r.2@),
            r.1@[0].arena == old(self).arena,
            r.1@[0].root == old(self).root,
            r.1@[0].delay_events == old(self).delay_events,
            r.1@[0].dirty_set@ == Seq::<NodeId>::empty(),
            r.1@[r.1@.len() - 1] == *final(self),
    {
        let waiting = self.take_dirty();
        let mut steps: Vec<PassStep> = Vec::new();
        let ghost mut states: Seq<WidgetTree> = seq![*self];
        let ghost mut traces: Seq<RegenTrace> = Seq::empty();
        let ghost first = *self;
        let mut k: usize = 0;
        while k < waiting.len()
            invariant
                k <= waiting.len(),
                self.wf(),
                states.len() == k + 1,
                steps@.len() == k,
                traces.len() == k,
                states[0] == first,
                states[k as int] == *self,
                forall|j: int|
                    0 <= j < k ==> {
                        let before = &states[j];
                        let after = &states[j + 1];
                        &&& (#[trigger] steps@[j]).id == waiting@[j]
                        &&& before.wf()
                        &&& match steps@[j].outcome {
                            None => !before.arena.contains(waiting@[j]) && *after == *before,
                            Some(result) => before.arena.contains(waiting@[j]) && laid_out(
                                after,
                                before,
                                waiting@[j],
                                clamp,
                                result,
                                traces[j],
                            ),
                        }
                    },
            decreases waiting.len() - k,
        {
            let id = waiting[k];
            let ghost before = *self;
            let ghost old_states = states;
            let ghost old_steps = steps@;
            let ghost old_traces = traces;
            if self.arena.dropped(id) {
                steps.push(PassStep { id, outcome: None });
                proof {
                    states = states.push(*self);
                    traces = traces.push(
                        RegenTrace {
                            output: Seq::empty(),
                            built: *self,
                            matched: self.arena,
                            spliced: *self,
                        },
                    );
                }
            } else {
                let (result, trace) = DynRender::perform_layout(self, id, clamp);
                steps.push(PassStep { id, outcome: Some(result) });
                proof {
                    states = states.push(*self);
                    traces = traces.push(trace@);
                }
            }
            proof {
                assert forall|j: int| 0 <= j < k + 1 implies {
                    let b = &states[j];
                    let a = &states[j + 1];
                    &&& (#[trigger] steps@[j]).id == waiting@[j]
                    &&& b.wf()
                    &&& match steps@[j].outcome {
                        None => !b.arena.contains(waiting@[j]) && *a == *b,
                        Some(result) => b.arena.contains(waiting@[j]) && laid_out(
                            a,
                            b,
                            waiting@[j],
                            clamp,
                            result,
                            traces[j],
                        ),
                    }
                } by {
                    if j < k {
                        assert(states[j] == old_states[j]);
                        assert(states[j + 1] == old_states[j + 1]);
                        assert(steps@[j] == old_steps[j]);
                        assert(traces[j] == old_traces[j]);
                    } else {
                        assert(states[j] == before);
                    }
                }
            }
            k = k + 1;
        }
        (steps, Ghost(states), Ghost(traces))
    }
}

/// The nodes that are painted for the subtree of `id`, in the order in which
/// they are painted: for every node first what lingers at its dynamic
/// position, then the node itself, then its children. What lingers within
/// what lingers is followed `fuel` levels deep.
pub open spec fn paint_seq(a: &TreeArena<RenderNode>, id: NodeId, fuel: nat) -> Seq<NodeId>
    decreases fuel, a.len() - a.depth_of(id), 1nat, 0nat,
    when a.wf() && a.has(id)
{
    paint_lingering(a, id, 0, fuel) + seq![id] + paint_children(a, id, 0, fuel)
}

/// The nodes that are painted for what lingers at the position of `id`,
/// from position `k` of the lingering widgets on. A widget that was removed
/// in the meantime is not painted.
pub open spec fn paint_lingering(a: &TreeArena<RenderNode>, id: NodeId, k: int, fuel: nat) -> Seq<NodeId>
    decreases fuel, a.len() - a.depth_of(id), 0nat, host_of(a, id).len() - k,
    when a.wf() && a.has(id) && 0 <= k
{
    if fuel > 0 && k < host_of(a, id).len() {
        let w = host_of(a, id)[k];
        let head = if a.contains(w) {
            paint_seq(a, w, (fuel - 1) as nat)
        } else {
            Seq::empty()
        };
        head + paint_lingering(a, id, k + 1, fuel)
    } else {
        Seq::empty()
    }
}

/// The nodes that are painted for the children of `id` from position `k`
/// on.
pub open spec fn paint_children(a: &TreeArena<RenderNode>, id: NodeId, k: int, fuel: nat) -> Seq<NodeId>
    decreases fuel, a.len() - a.depth_of(id), 0nat, a.children_of(id).len() - k,
    when a.wf() && a.has(id) && 0 <= k
{
    if k < a.children_of(id).len() {
        let c = a.children_of(id)[k];
        proof {
            a.lemma_model();
            a.lemma_depth_bound(c);
        }
        paint_seq(a, c, fuel) + paint_children(a, id, k + 1, fuel)
    } else {
        Seq::empty()
    }
}

/// Paints the subtree of `id`: appends to `out` the nodes that are painted,
/// in their order.
pub fn paint_subtree(arena: &TreeArena<RenderNode>, id: NodeId, fuel: usize, out: &mut Vec<NodeId>)
    requires
        arena.wf(),
        arena.has(id),
    ensures
        final(out)@ == old(out)@ + paint_seq(arena, id, fuel as nat),
    decreases fuel, arena.len() - arena.depth_of(id),
{
    let ghost out0 = out@;
    let ghost target = out0 + paint_seq(arena, id, fuel as nat);
    let node = arena.get(id);
    // what lingers at the position of the node
    let ghost hs = host_of(arena, id);
    let mut k: usize = 0;
    proof {
        assert(out@ + paint_lingering(arena, id, 0, fuel as nat) + seq![id] + paint_children(
            arena,
            id,
            0,
            fuel as nat,
        ) =~= target);
    }
    match &node.dynamic {
        Some(d) => {
            if fuel > 0 {
                while k < d.drop_until_widgets.wids.len()
                    invariant
                        arena.wf(),
                        arena.has(id),
                        fuel > 0,
                        hs == host_of(arena, id),
                        hs == d.drop_until_widgets@,
                        k <= hs.len(),
                        out@ + paint_lingering(arena, id, k as int, fuel as nat) + seq![id]
                            + paint_children(arena, id, 0, fuel as nat) == target,
                    decreases hs.len() - k,
                {
                    let w = d.drop_until_widgets.wids.get(k);
                    let ghost pre = out@;
                    if !arena.dropped(w) {
                        paint_subtree(arena, w, fuel - 1, out);
                    }
                    proof {
                        assert(out@ + paint_lingering(arena, id, k + 1, fuel as nat) =~= pre
                            + paint_lingering(arena, id, k as int, fuel as nat));
                        assert(out@ + paint_lingering(arena, id, k + 1, fuel as nat) + seq![id]
                            + paint_children(arena, id, 0, fuel as nat) =~= pre + paint_lingering(
                            arena,
                            id,
                            k as int,
                            fuel as nat,
                        ) + seq![id] + paint_children(arena, id, 0, fuel as nat));
                    }
                    k = k + 1;
                }
            }
        },
        None => {},
    }
    proof {
        assert(out@ + seq![id] + paint_children(arena, id, 0, fuel as nat) =~= target) by {
            if fuel > 0 && node.dynamic.is_some() {
                assert(paint_lingering(arena, id, k as int, fuel as nat) =~= Seq::<NodeId>::empty());
            } else {
                assert(paint_lingering(arena, id, 0, fuel as nat) =~= Seq::<NodeId>::empty());
            }
        }
    }
    out.push(id);
    let mut c = arena.first_child(id);
    let ghost mut j: int = 0;
    let ghost ks = arena.children_of(id);
    while c.is_some()
        invariant
            arena.wf(),
            arena.has(id),
            ks == arena.children_of(id),
            0 <= j <= ks.len(),
            c == crate::arena::seq_at(ks, j),
            out@ + paint_children(arena, id, j, fuel as nat) == target,
        decreases ks.len() - j,
    {
        let ch = c.unwrap();
        proof {
            arena.lemma_model();
            arena.lemma_depth_bound(ch);
            arena.lemma_position(id, j);
        }
        let ghost pre = out@;
        paint_subtree(arena, ch, fuel, out);
        c = arena.next_sibling(ch);
        proof {
            assert(out@ + paint_children(arena, id, j + 1, fuel as nat) =~= pre + paint_children(
                arena,
                id,
                j,
                fuel as nat,
            ));
            j = j + 1;
        }
    }
    proof {
        assert(out@ + paint_children(arena, id, j, fuel as nat) =~= out@);
    }
}

impl WidgetTree {
    /// Paints the tree and returns the nodes that were painted, in their
    /// order: the subtree of the root, and with every dynamic position of it
    /// what lingers there.
    pub fn paint(&self) -> (r: Vec<NodeId>)
        requires
            self.wf(),
        ensures
            r@ == match self.root {
                Some(root) => paint_seq(&self.arena, root, self.arena.len()),
                None => Seq::empty(),
            },
    {
        let mut out: Vec<NodeId> = Vec::new();
        match self.root {
            Some(root) => {
                let fuel = self.arena.slots();
                paint_subtree(&self.arena, root, fuel, &mut out);
                proof {
                    assert(Seq::<NodeId>::empty() + paint_seq(&self.arena, root, fuel as nat)
                        =~= paint_seq(&self.arena, root, fuel as nat));
                }
            },
            None => {},
        }
        out
    }
}

} // verus!
