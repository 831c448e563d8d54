//! Regeneration: the new output of a dynamic position takes the place of
//! the old one.

use crate::arena::{NodeId, TreeArena};
use crate::dynamic_widget::{
    descend, is_chain_at, lemma_descend_same, single_path, DynRender, DynWidgetGenInfo,
};
use crate::key_matcher::{keys_matched, lemma_matched_keeps_delay};
use crate::splice::{
    chain_seq, depth_spliced, disposed_events, lemma_with_delayed_same, mounted_events, old_roots,
    sibling_span, span_ready, splice_dyn_depth, splice_whole_subtree, walk_ready, whole_spliced,
    with_delayed,
};
use crate::widget::{dynamic_set, realizes, replace_dynamic, Attachment, Render, RenderNode, Widget};
use crate::widget_tree::{generations_apart, WidgetTree};
use vstd::prelude::*;

verus! {

/// A widget that renders nothing, with nothing attached and no child: the
/// placeholder of an empty output.
pub open spec fn is_void(w: Widget) -> bool {
    &&& w.render == Render::Void
    &&& w.attachments@ == Seq::<Attachment>::empty()
    &&& w.dynamic.is_none()
    &&& w.children@ == Seq::<Widget>::empty()
}

/// What the tree knows of the last output of the position at `id`. Before
/// the first regeneration it is read off the tree: a position with a child
/// below it has static children one step down, any other owns its whole
/// subtree.
pub open spec fn gen_info_of(a: &TreeArena<RenderNode>, id: NodeId) -> DynWidgetGenInfo {
    match a.data_of(id).dynamic.unwrap().gen_info {
        Some(g) => g,
        None => if a.children_of(id).len() > 0 {
            DynWidgetGenInfo::DynDepth(1)
        } else {
            DynWidgetGenInfo::WholeSubtree(1)
        },
    }
}

/// Number of steps from the dynamic node down to the parent of the static
/// children.
pub open spec fn steps_down(depth: usize) -> nat {
    if depth > 0 {
        (depth - 1) as nat
    } else {
        0
    }
}

/// The old output roots of the position at `id`.
pub open spec fn olds_of(a: &TreeArena<RenderNode>, id: NodeId) -> Seq<NodeId> {
    match gen_info_of(a, id) {
        DynWidgetGenInfo::DynDepth(_) => old_roots(a, id, 1),
        DynWidgetGenInfo::WholeSubtree(s) => old_roots(a, id, s as nat),
    }
}

/// The node at `id` holds a dynamic position with an output that the tree
/// can take: no widget of the output is a dynamic position itself; where
/// static children hang below the position, the output is at most one
/// widget, a chain, and the path down to the static children is there; where
/// the position owns its whole subtree, the old output roots are there, and a
/// position without a parent produced at most one widget.
pub open spec fn regen_ready(tree: &WidgetTree, id: NodeId) -> bool {
    let a = &tree.arena;
    &&& tree.wf()
    &&& a.contains(id)
    &&& a.data_of(id).dynamic.is_some()
    &&& a.data_of(id).dynamic.unwrap().pending().is_some()
    &&& {
        let ws = a.data_of(id).dynamic.unwrap().pending().unwrap();
        &&& forall|i: int| 0 <= i < ws.len() ==> (#[trigger] ws[i]).dynamic.is_none()
        &&& match gen_info_of(a, id) {
            DynWidgetGenInfo::DynDepth(depth) => {
                &&& ws.len() <= 1
                &&& ws.len() == 1 ==> ws[0].is_chain()
                &&& walk_ready(a, id, steps_down(depth))
            },
            DynWidgetGenInfo::WholeSubtree(s) => {
                &&& span_ready(a, id, s as nat)
                &&& a.parent_of(id).is_none() ==> ws.len() <= 1
            },
        }
    }
}

/// What a regeneration hands back: the new output roots, and the nodes for
/// which a mount was notified, in the order of the notifications.
pub struct Regenerated {
    pub new_roots: Vec<NodeId>,
    pub mounted: Vec<NodeId>,
}

/// The steps of a regeneration, as ghost states: the tree once the output
/// was built, the arena once the keys were matched, and the tree once the
/// new roots stood in the place of the old ones.
pub struct RegenTrace {
    /// The widgets that were built: the output, or one placeholder.
    pub output: Seq<Widget>,
    /// The tree once the output was built.
    pub built: WidgetTree,
    /// The arena once the keys were matched.
    pub matched: TreeArena<RenderNode>,
    /// The tree once the new roots stood in the place of the old ones.
    pub spliced: WidgetTree,
}

/// `built` is the tree `before` once the dynamic position was taken off the
/// node `id` and the widgets of `output` were built, each as a tree of its
/// own with its root in `news`.
pub open spec fn output_built(
    built: &WidgetTree,
    before: &WidgetTree,
    id: NodeId,
    output: Seq<Widget>,
    news: Seq<NodeId>,
) -> bool {
    let a = &before.arena;
    let b = &built.arena;
    let mark = a.len();
    &&& built.root == before.root
    &&& built.delay_events == before.delay_events
    &&& b.wf()
    &&& b.len() >= mark
    &&& news.len() == output.len()
    &&& news.no_duplicates()
    &&& forall|x: NodeId| a.has(x) ==> #[trigger] b.parent_of(x) == a.parent_of(x)
    &&& forall|x: NodeId| a.has(x) ==> #[trigger] b.children_of(x) == a.children_of(x)
    &&& forall|x: NodeId| a.has(x) ==> #[trigger] b.ancestors_of(x) == a.ancestors_of(x)
    &&& forall|x: NodeId| a.has(x) ==> #[trigger] b.is_dropped(x) == a.is_dropped(x)
    &&& forall|x: NodeId| a.has(x) && x != id ==> #[trigger] b.data_of(x) == a.data_of(x)
    &&& b.data_of(id).render == a.data_of(id).render
    &&& b.data_of(id).attachments == a.data_of(id).attachments
    &&& b.data_of(id).dynamic.is_none()
    &&& forall|i: int|
        0 <= i < news.len() ==> {
            &&& realizes(b, #[trigger] news[i], output[i])
            &&& b.parent_of(news[i]).is_none()
            &&& mark <= news[i].index < b.len()
        }
    &&& generations_apart(b, mark)
    &&& forall|x: NodeId| mark <= x.index < b.len() ==> !#[trigger] b.is_dropped(x)
    &&& built.dirty_set@.len() >= before.dirty_set@.len()
    &&& built.dirty_set@.subrange(0, before.dirty_set@.len() as int) == before.dirty_set@
    &&& forall|k: int|
        before.dirty_set@.len() <= k < built.dirty_set@.len() ==> mark <= (
        #[trigger] built.dirty_set@[k]).index < b.len() && b.data_of(built.dirty_set@[k]).needs_regen()
    &&& forall|x: NodeId|
        mark <= x.index < b.len() && b.data_of(x).needs_regen() ==> #[trigger] built.dirty_set@.contains(
            x,
        )
}

/// The tree `after` is the tree `before` once the position at `id` was
/// regenerated, with the new roots `news`, through the steps of `trace`:
/// the output was built (a placeholder where it was empty), the keys of the
/// old and new roots were matched, the new roots took the place of the old
/// ones, and the position moved to the first new root.
pub open spec fn regenerated(
    after: &WidgetTree,
    before: &WidgetTree,
    id: NodeId,
    news: Seq<NodeId>,
    trace: RegenTrace,
) -> bool {
    let a = &before.arena;
    let dr = a.data_of(id).dynamic.unwrap();
    let ws = dr.pending().unwrap();
    let olds = olds_of(a, id);
    let m = &trace.matched;
    let s = &trace.spliced;
    &&& after.wf()
    &&& news.len() >= 1
    &&& if ws.len() > 0 {
        trace.output == ws
    } else {
        trace.output.len() == 1 && is_void(trace.output[0])
    }
    &&& output_built(&trace.built, before, id, trace.output, news)
    &&& m.wf()
    &&& keys_matched(m, &trace.built.arena, olds, news, news.len() as int)
    &&& s.arena.wf()
    &&& s.root == before.root
    &&& s.dirty_set@ == with_delayed(trace.built.dirty_set@, a, olds, olds.len() as int)
    &&& !s.arena.is_dropped(news[0])
    &&& match gen_info_of(a, id) {
        DynWidgetGenInfo::DynDepth(depth) => {
            let steps = trace.output[0].chain_len();
            &&& descend(m, news[0], steps).is_some()
            &&& depth_spliced(
                &s.arena,
                m,
                id,
                news[0],
                descend(a, id, steps_down(depth)),
                descend(m, news[0], steps).unwrap(),
            )
            &&& s.delay_events@ == before.delay_events@ + disposed_events(a, olds) + mounted_events(
                chain_seq(m, news[0], steps),
            )
            &&& after.arena.data_of(news[0]).dynamic.unwrap().gen_info == Some(
                DynWidgetGenInfo::DynDepth((steps + 1) as usize),
            )
        },
        DynWidgetGenInfo::WholeSubtree(_) => {
            &&& whole_spliced(&s.arena, m, id, olds, news)
            &&& s.delay_events@ == before.delay_events@ + disposed_events(a, olds) + mounted_events(
                s.arena.forest_of(news, 0),
            )
            &&& after.arena.data_of(news[0]).dynamic.unwrap().gen_info == Some(
                DynWidgetGenInfo::WholeSubtree(news.len() as usize),
            )
        },
    }
    &&& after.arena.data_of(news[0]).dynamic.is_some()
    &&& dynamic_set(&after.arena, &s.arena, news[0], after.arena.data_of(news[0]).dynamic)
    &&& after.arena.data_of(news[0]).dynamic.unwrap().pending().is_none()
    &&& after.arena.data_of(news[0]).dynamic.unwrap().drop_until_widgets@ == with_delayed(
        dr.drop_until_widgets@,
        a,
        olds,
        olds.len() as int,
    )
    &&& after.root == if before.root == Some(id) {
        Some(news[0])
    } else {
        before.root
    }
    &&& after.delay_events == s.delay_events
    &&& after.dirty_set == s.dirty_set
}


/// What is built for a chain is a chain: down the first children no node
/// has more than one child, and the leaf is reached after as many steps as
/// the widget has.
pub proof fn lemma_chain_built(a: &TreeArena<RenderNode>, id: NodeId, w: Widget)
    requires
        a.wf(),
        realizes(a, id, w),
        w.is_chain(),
    ensures
        is_chain_at(a, id),
        single_path(a, id, w.chain_len()),
        descend(a, id, w.chain_len()).is_some(),
        a.children_of(descend(a, id, w.chain_len()).unwrap()).len() == 0,
    decreases w,
{
    if w.children@.len() == 1 {
        let c = a.children_of(id)[0];
        let wc = w.children@[0];
        assert(realizes(a, c, wc));
        lemma_chain_built(a, c, wc);
        assert forall|t: nat|
            match #[trigger] descend(a, id, t) {
                Some(n) => a.children_of(n).len() <= 1,
                None => true,
            } by {
            if t > 0 {
                assert(descend(a, id, t) == descend(a, c, (t - 1) as nat));
            }
        }
        assert forall|t: nat| t < w.chain_len() implies match #[trigger] descend(a, id, t) {
            Some(n) => a.children_of(n).len() == 1,
            None => false,
        } by {
            if t > 0 {
                assert(descend(a, id, t) == descend(a, c, (t - 1) as nat));
            }
        }
        assert(descend(a, id, w.chain_len()) == descend(a, c, wc.chain_len()));
    } else {
        assert forall|t: nat|
            match #[trigger] descend(a, id, t) {
                Some(n) => a.children_of(n).len() <= 1,
                None => true,
            } by {
            if t > 0 {
                assert(a.first_child_of(id).is_none());
            }
        }
    }
}

/// The leaf of a chain is reached after a number of steps that the chain
/// alone determines.
pub proof fn lemma_leaf_steps(a: &TreeArena<RenderNode>, id: NodeId, m: nat, n: nat)
    requires
        single_path(a, id, m),
        single_path(a, id, n),
        descend(a, id, m).is_some(),
        descend(a, id, n).is_some(),
        a.children_of(descend(a, id, m).unwrap()).len() == 0,
        a.children_of(descend(a, id, n).unwrap()).len() == 0,
    ensures
        m == n,
{
    if m < n {
        assert(match descend(a, id, m) {
            Some(x) => a.children_of(x).len() == 1,
            None => false,
        });
    }
    if n < m {
        assert(match descend(a, id, n) {
            Some(x) => a.children_of(x).len() == 1,
            None => false,
        });
    }
}

impl DynRender {
    /// Regenerates the dynamic position at `id` if it holds an output that
    /// the tree has not taken, and returns the new output roots.
    ///
    /// The output is taken and built, an empty output as one placeholder.
    /// At the first regeneration the position is classified. The keys of
    /// the old and the new roots are matched. Then the new roots take the
    /// place of the old ones, which are removed or linger, the position
    /// moves to the first new root, and where `id` was the root of the tree,
    /// the first new root is the root now.
    #[verifier::rlimit(60)]
    pub fn regen_if_need(tree: &mut WidgetTree, id: NodeId) -> (r: (Option<Regenerated>, Ghost<RegenTrace>))
        requires
            old(tree).wf(),
            old(tree).arena.has(id),
            old(tree).arena.data_of(id).needs_regen() ==> regen_ready(old(tree), id),
        ensures
            match r.0 {
                None => !old(tree).arena.data_of(id).needs_regen() && *final(tree) == *old(tree),
                Some(done) => old(tree).arena.data_of(id).needs_regen() && regenerated(
                    final(tree),
                    old(tree),
                    id,
                    done.new_roots@,
                    r.1@,
                ) && final(tree).delay_events@ == old(tree).delay_events@ + disposed_events(
                    &old(tree).arena,
                    olds_of(&old(tree).arena, id),
                ) + mounted_events(done.mounted@),
            },
    {
        let needs = match &tree.arena.get(id).dynamic {
            Some(d) => d.dyn_widgets.dyns.is_some(),
            None => false,
        };
        if !needs {
            return (
                None,
                Ghost(
                    RegenTrace { output: Seq::empty(), built: *tree, matched: tree.arena, spliced: *tree },
                ),
            );
        }
        let ghost t0 = *tree;
        let ghost a = tree.arena;
        let ghost mark = a.len();
        let ghost info = gen_info_of(&a, id);
        let ghost olds_spec = olds_of(&a, id);
        let has_child = tree.arena.first_child(id).is_some();
        let taken = replace_dynamic(&mut tree.arena, id, None);
        let mut dr = taken.unwrap();
        let ghost dr0 = dr;
        let mut ws = dr.dyn_widgets.dyns.take().unwrap();
        let ghost pending = ws@;
        if ws.len() == 0 {
            ws.push(Widget::void());
        }
        let ghost output = ws@;
        let gen_info = match dr.gen_info {
            Some(g) => g,
            None => if has_child {
                DynWidgetGenInfo::DynDepth(1)
            } else {
                DynWidgetGenInfo::WholeSubtree(1)
            },
        };
        let ghost t1 = *tree;
        proof {
            a.lemma_model();
            assert(gen_info == info);
            assert(t1.wf());
        }
        let new_widgets = tree.build_all(ws);
        let ghost built = *tree;
        let ghost news = new_widgets@;
        let siblings = match gen_info {
            DynWidgetGenInfo::DynDepth(_) => 1,
            DynWidgetGenInfo::WholeSubtree(s) => s,
        };
        proof {
            if a.parent_of(id).is_some() {
                a.lemma_position_of_child(id);
            }
            assert(span_ready(&a, id, siblings as nat));
            assert(built.arena.parent_of(id) == a.parent_of(id)) by {
                assert(t1.arena.parent_of(id) == a.parent_of(id));
            }
            match a.parent_of(id) {
                Some(p) => {
                    assert(built.arena.children_of(p) == a.children_of(p)) by {
                        assert(t1.arena.children_of(p) == a.children_of(p));
                    }
                },
                None => {},
            }
            assert(output_built(&built, &t0, id, output, news)) by {
                let b = &built.arena;
                assert forall|x: NodeId| a.has(x) implies #[trigger] b.parent_of(x) == a.parent_of(x) by {
                    assert(t1.arena.parent_of(x) == a.parent_of(x));
                }
                assert forall|x: NodeId| a.has(x) implies #[trigger] b.children_of(x) == a.children_of(
                    x,
                ) by {
                    assert(t1.arena.children_of(x) == a.children_of(x));
                }
                assert forall|x: NodeId| a.has(x) implies #[trigger] b.ancestors_of(x) == a.ancestors_of(
                    x,
                ) by {
                    assert(t1.arena.ancestors_of(x) == a.ancestors_of(x));
                }
                assert forall|x: NodeId| a.has(x) implies #[trigger] b.is_dropped(x) == a.is_dropped(x) by {
                    assert(t1.arena.is_dropped(x) == a.is_dropped(x));
                }
                assert forall|x: NodeId| a.has(x) && x != id implies #[trigger] b.data_of(x) == a.data_of(
                    x,
                ) by {
                    assert(t1.arena.data_of(x) == a.data_of(x));
                }
                assert(b.data_of(id) == t1.arena.data_of(id));
                assert forall|k: int|
                    t0.dirty_set@.len() <= k < built.dirty_set@.len() implies mark <= (
                #[trigger] built.dirty_set@[k]).index < b.len() && b.data_of(
                    built.dirty_set@[k],
                ).needs_regen() by {
                    assert(WidgetTree::fresh(built.dirty_set@[k], mark, b.len()));
                }
                assert forall|x: NodeId|
                    mark <= x.index < b.len() && b.data_of(
                        x,
                    ).needs_regen() implies #[trigger] built.dirty_set@.contains(x) by {
                    assert(WidgetTree::fresh(x, mark, b.len()));
                }
                assert forall|x: NodeId| mark <= x.index < b.len() implies !#[trigger] b.is_dropped(x) by {
                    assert(WidgetTree::fresh(x, mark, b.len()));
                }
            }
        }
        let olds = sibling_span(&tree.arena, id, siblings);
        proof {
            assert(olds@ == olds_spec);
            built.arena.lemma_model();
            assert forall|i: int, j: int| 0 <= i < news.len() && 0 <= j < olds@.len() implies news[i]
                != olds@[j] by {
                let o = olds@[j];
                match a.parent_of(id) {
                    Some(p) => {
                        assert(o == a.children_of(p)[a.position_of(id) + j]);
                        assert(a.has(o));
                    },
                    None => {},
                }
            }
            assert(olds@.no_duplicates()) by {
                match a.parent_of(id) {
                    Some(p) => {
                        let kids = a.children_of(p);
                        let i = a.position_of(id);
                        assert forall|j1: int, j2: int|
                            0 <= j1 < olds@.len() && 0 <= j2 < olds@.len() && j1 != j2 implies olds@[j1]
                            != olds@[j2] by {
                            assert(olds@[j1] == kids[i + j1]);
                            assert(olds@[j2] == kids[i + j2]);
                        }
                    },
                    None => {},
                }
            }
        }
        DynRender::update_key_state(&mut tree.arena, &olds, &new_widgets);
        let ghost matched = tree.arena;
        proof {
            matched.lemma_model();
            assert forall|j: int| 0 <= j < olds@.len() implies matched.data_of(
                #[trigger] olds@[j],
            ).delays_drop() == a.data_of(olds@[j]).delays_drop() by {
                lemma_matched_keeps_delay(&matched, &built.arena, olds@, news, j);
                let o = olds@[j];
                match a.parent_of(id) {
                    Some(p) => {
                        assert(o == a.children_of(p)[a.position_of(id) + j]);
                    },
                    None => {},
                }
                if o != id {
                    assert(built.arena.data_of(o) == a.data_of(o));
                }
            }
            assert(disposed_events(&matched, olds@) =~= disposed_events(&a, olds@));
            lemma_with_delayed_same(dr.drop_until_widgets@, &matched, &a, olds@, olds@.len() as int);
            lemma_with_delayed_same(tree.dirty_set@, &matched, &a, olds@, olds@.len() as int);
            assert(generations_apart(&matched, mark));
            assert(span_ready(&matched, id, olds@.len()));
            assert(olds@ == old_roots(&matched, id, olds@.len()));
            assert(realizes(&built.arena, news[0], output[0]));
        }
        let ghost steps = output[0].chain_len();
        let mounted: Vec<NodeId>;
        match gen_info {
            DynWidgetGenInfo::DynDepth(depth) => {
                let down = if depth > 0 {
                    depth - 1
                } else {
                    0
                };
                proof {
                    let b = &built.arena;
                    lemma_chain_built(b, news[0], output[0]);
                    // the chains are the same once the keys are matched
                    assert forall|t: nat|
                        match #[trigger] descend(&matched, news[0], t) {
                            Some(n) => matched.children_of(n).len() <= 1,
                            None => true,
                        } by {
                        lemma_descend_same(b, &matched, news[0], t);
                        assert(match descend(b, news[0], t) {
                            Some(n) => b.children_of(n).len() <= 1,
                            None => true,
                        });
                    }
                    assert forall|t: nat| t < down implies match #[trigger] descend(&matched, id, t) {
                        Some(n) => matched.children_of(n).len() <= 1,
                        None => true,
                    } by {
                        lemma_descend_same(&a, b, id, t);
                        lemma_descend_same(b, &matched, id, t);
                        assert(match descend(&a, id, t) {
                            Some(n) => a.children_of(n).len() <= 1,
                            None => true,
                        });
                    }
                    if down > 0 {
                        assert forall|t: nat| t < down - 1 implies match #[trigger] descend(
                            &matched,
                            id,
                            t,
                        ) {
                            Some(n) => matched.children_of(n).len() == 1,
                            None => false,
                        } by {
                            lemma_descend_same(&a, b, id, t);
                            lemma_descend_same(b, &matched, id, t);
                            assert(match descend(&a, id, t) {
                                Some(n) => a.children_of(n).len() == 1,
                                None => false,
                            });
                        }
                    }
                    lemma_descend_same(&a, b, id, down as nat);
                    lemma_descend_same(b, &matched, id, down as nat);
                    assert(olds@ =~= seq![id]);
                }
                let (new_depth, chain) = splice_dyn_depth(
                    tree,
                    id,
                    new_widgets[0],
                    down,
                    &mut dr.drop_until_widgets,
                    Ghost(mark),
                );
                mounted = chain;
                dr.gen_info = Some(DynWidgetGenInfo::DynDepth(new_depth));
                proof {
                    let b = &built.arena;
                    lemma_descend_same(b, &matched, news[0], steps);
                    lemma_descend_same(b, &matched, news[0], (new_depth - 1) as nat);
                    assert(single_path(&matched, news[0], steps)) by {
                        assert forall|t: nat| t < steps implies match #[trigger] descend(
                            &matched,
                            news[0],
                            t,
                        ) {
                            Some(n) => matched.children_of(n).len() == 1,
                            None => false,
                        } by {
                            lemma_descend_same(b, &matched, news[0], t);
                            assert(match descend(b, news[0], t) {
                                Some(n) => b.children_of(n).len() == 1,
                                None => false,
                            });
                        }
                    }
                    lemma_leaf_steps(&matched, news[0], steps, (new_depth - 1) as nat);
                }
            },
            DynWidgetGenInfo::WholeSubtree(_) => {
                mounted = splice_whole_subtree(
                    tree,
                    id,
                    &olds,
                    &new_widgets,
                    &mut dr.drop_until_widgets,
                    Ghost(mark),
                );
                dr.gen_info = Some(DynWidgetGenInfo::WholeSubtree(new_widgets.len()));
            },
        }
        let ghost spliced = *tree;
        let first = new_widgets[0];
        let _ = replace_dynamic(&mut tree.arena, first, Some(dr));
        match tree.root {
            Some(r) => {
                if r == id {
                    tree.root = Some(first);
                }
            },
            None => {},
        }
        let ghost trace = RegenTrace { output, built, matched, spliced };
        proof {
            let s = &spliced.arena;
            let f = &tree.arena;
            s.lemma_model();
            // the root of the tree is live and has no parent
            match t0.root {
                Some(r) => {
                    if r == id {
                        assert(a.parent_of(id).is_none());
                        assert(s.parent_of(first) == a.parent_of(id)) by {
                            assert(matched.parent_of(id) == a.parent_of(id));
                            match gen_info {
                                DynWidgetGenInfo::DynDepth(_) => {},
                                DynWidgetGenInfo::WholeSubtree(_) => {
                                    assert(news.contains(news[0]));
                                },
                            }
                        }
                    } else {
                        assert(a.ancestors_of(r) == Seq::<NodeId>::empty());
                        assert(matched.parent_of(r).is_none());
                        assert(matched.ancestors_of(r) == a.ancestors_of(r));
                        assert(!matched.is_dropped(r));
                        assert(!news.contains(r)) by {
                            if news.contains(r) {
                                let i = news.index_of(r);
                                assert(news[i].index >= mark);
                            }
                        }
                        Self::lemma_root_stays(&spliced, &matched, &a, id, olds@, news, r, gen_info);
                    }
                },
                None => {},
            }
        }
        (Some(Regenerated { new_roots: new_widgets, mounted }), Ghost(trace))
    }

    /// A root of the tree that the regeneration does not replace is still a
    /// live node without a parent.
    proof fn lemma_root_stays(
        spliced: &WidgetTree,
        m: &TreeArena<RenderNode>,
        a: &TreeArena<RenderNode>,
        id: NodeId,
        olds: Seq<NodeId>,
        news: Seq<NodeId>,
        r: NodeId,
        info: DynWidgetGenInfo,
    )
        requires
            spliced.arena.wf(),
            m.wf(),
            m.has(r),
            m.has(id),
            r != id,
            !news.contains(r),
            m.parent_of(r).is_none(),
            !m.is_dropped(r),
            olds == old_roots(m, id, olds.len()),
            span_ready(m, id, olds.len()),
            forall|i: int| 0 <= i < news.len() ==> m.parent_of(#[trigger] news[i]).is_none(),
            forall|i: int| 0 <= i < news.len() ==> !spliced.arena.is_dropped(#[trigger] news[i]),
            match info {
                DynWidgetGenInfo::DynDepth(_) => exists|dcp: Option<NodeId>, leaf: NodeId|
                    news.len() >= 1 && depth_spliced(&spliced.arena, m, id, news[0], dcp, leaf),
                DynWidgetGenInfo::WholeSubtree(_) => whole_spliced(&spliced.arena, m, id, olds, news),
            },
        ensures
            !spliced.arena.is_dropped(r),
            spliced.arena.parent_of(r).is_none(),
    {
        let s = &spliced.arena;
        m.lemma_model();
        s.lemma_model();
        if m.parent_of(id).is_some() {
            m.lemma_position_of_child(id);
        }
        match info {
            DynWidgetGenInfo::DynDepth(_) => {
                let (dcp, leaf) = choose|dcp: Option<NodeId>, leaf: NodeId|
                    news.len() >= 1 && depth_spliced(s, m, id, news[0], dcp, leaf);
                assert(news.contains(news[0]));
                assert(r != news[0]);
                assert(s.parent_of(r).is_none());
                assert(s.ancestors_of(r) == Seq::<NodeId>::empty());
                assert(!s.in_subtree(r, id));
            },
            DynWidgetGenInfo::WholeSubtree(_) => {
                assert(!olds.contains(r)) by {
                    if olds.contains(r) {
                        let j = olds.index_of(r);
                        match m.parent_of(id) {
                            Some(p) => {
                                assert(olds[j] == m.children_of(p)[m.position_of(id) + j]);
                            },
                            None => {},
                        }
                    }
                }
                assert(s.parent_of(r).is_none());
                assert(s.ancestors_of(r) == Seq::<NodeId>::empty());
                if crate::splice::dropped_by(s, m, olds, olds.len() as int, r) {
                    let c = choose|c: int|
                        0 <= c < olds.len() && c < olds.len() && #[trigger] crate::splice::removed_under(
                            s,
                            m,
                            olds,
                            c,
                            r,
                        );
                    assert(olds.contains(olds[c]));
                }
            },
        }
    }
}

} // verus!
