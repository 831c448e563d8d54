//! What holds of every regeneration and of every delayed drop.

use crate::arena::{NodeId, TreeArena};
use crate::dynamic_widget::{descend, DynWidgetGenInfo};
use crate::key::KeyWidget;
use crate::key_matcher::{
    first_with_key, key_among, key_matches, lemma_first_with_key_found, lemma_matched_keeps_delay,
    lemma_update_key_index, matched_new, matched_old,
};
use crate::layout::{paint_children, paint_lingering, paint_seq};
use crate::regen::{
    gen_info_of, olds_of, output_built, regen_ready, regenerated, steps_down, RegenTrace,
};
use crate::splice::{disposed_events, dropped_by, removed_under, with_delayed};
use crate::widget::{
    first_key, first_key_index, lemma_first_key_index, realizes, realizes_chain,
    realizes_children, Attachment, Render, RenderNode, Widget,
};
use crate::widget_tree::{host_of, lemma_realizes_frame, WidgetTree};
use vstd::prelude::*;

verus! {

/// Every old root that delays its drop is a member once the old roots were
/// gone through, and who was a member stays one.
pub proof fn lemma_with_delayed_members(
    s: Seq<NodeId>,
    a: &TreeArena<RenderNode>,
    olds: Seq<NodeId>,
    upto: int,
)
    requires
        0 <= upto <= olds.len(),
    ensures
        forall|x: NodeId| s.contains(x) ==> #[trigger] with_delayed(s, a, olds, upto).contains(x),
        forall|j: int|
            0 <= j < upto && a.data_of(olds[j]).delays_drop() ==> with_delayed(s, a, olds, upto).contains(
                #[trigger] olds[j],
            ),
        forall|x: NodeId|
            #[trigger] with_delayed(s, a, olds, upto).contains(x) ==> s.contains(x) || exists|j: int|
                0 <= j < upto && a.data_of(olds[j]).delays_drop() && #[trigger] olds[j] == x,
    decreases upto,
{
    if upto > 0 {
        lemma_with_delayed_members(s, a, olds, upto - 1);
        let prev = with_delayed(s, a, olds, upto - 1);
        let o = olds[upto - 1];
        let cur = with_delayed(s, a, olds, upto);
        assert forall|x: NodeId| prev.contains(x) implies cur.contains(x) by {
            if a.data_of(o).delays_drop() && !prev.contains(o) {
                vstd::seq_lib::lemma_seq_contains_after_push(prev, o, x);
            }
        }
        if a.data_of(o).delays_drop() {
            if !prev.contains(o) {
                vstd::seq_lib::lemma_seq_contains_after_push(prev, o, o);
            }
        }
        assert forall|x: NodeId| #[trigger] cur.contains(x) implies s.contains(x) || exists|j: int|
            0 <= j < upto && a.data_of(olds[j]).delays_drop() && #[trigger] olds[j] == x by {
            if a.data_of(o).delays_drop() && !prev.contains(o) {
                vstd::seq_lib::lemma_seq_contains_after_push(prev, o, x);
            }
            if prev.contains(x) {
                if !s.contains(x) {
                    let j = choose|j: int|
                        0 <= j < upto - 1 && a.data_of(olds[j]).delays_drop() && #[trigger] olds[j] == x;
                    assert(olds[j] == x);
                }
            } else {
                assert(x == o);
                assert(olds[upto - 1] == x);
            }
        }
    }
}

/// An empty output is normalised to one placeholder: the regeneration of a
/// position whose output is empty leaves exactly one new root, a live node
/// that renders nothing and has nothing attached, and the position records
/// one output as after any other regeneration.
pub proof fn law_placeholder(
    before: &WidgetTree,
    after: &WidgetTree,
    id: NodeId,
    news: Seq<NodeId>,
    trace: RegenTrace,
)
    requires
        regen_ready(before, id),
        regenerated(after, before, id, news, trace),
        before.arena.data_of(id).dynamic.unwrap().pending().unwrap().len() == 0,
    ensures
        news.len() == 1,
        !after.arena.is_dropped(news[0]),
        after.arena.data_of(news[0]).render == Render::Void,
        after.arena.data_of(news[0]).attachments@ == Seq::<Attachment>::empty(),
        after.arena.data_of(news[0]).dynamic.unwrap().gen_info == Some(
            match gen_info_of(&before.arena, id) {
                DynWidgetGenInfo::DynDepth(_) => DynWidgetGenInfo::DynDepth(1),
                DynWidgetGenInfo::WholeSubtree(_) => DynWidgetGenInfo::WholeSubtree(1),
            },
        ),
{
    let a = &before.arena;
    let b = &trace.built.arena;
    let m = &trace.matched;
    let s = &trace.spliced.arena;
    let r = news[0];
    let w = trace.output[0];
    assert(realizes(b, r, w));
    assert(b.data_of(r) == w.payload());
    assert(m.data_of(r).attachments@ == matched_new(b, olds_of(a, id), news[0]));
    assert(first_key_index(w.attachments@, 0).is_none());
    assert(m.data_of(r).render == b.data_of(r).render);
    assert(s.data_of(r) == m.data_of(r)) by {
        assert(m.has(r));
    }
    assert(s.is_dropped(r) == after.arena.is_dropped(r));
    assert(w.chain_len() == 0);
}

/// The counts of a regeneration of a position that owns its whole subtree:
/// as many new roots as the output has widgets, one for an empty output,
/// stand where the old roots stood; the position records their number;
/// every old root is out of its parent, and either gone or lingering at the
/// position; and one disposal was notified for each.
pub proof fn law_count_consistency(
    before: &WidgetTree,
    after: &WidgetTree,
    id: NodeId,
    news: Seq<NodeId>,
    trace: RegenTrace,
)
    requires
        regen_ready(before, id),
        regenerated(after, before, id, news, trace),
        gen_info_of(&before.arena, id) is WholeSubtree,
    ensures
        ({
            let a = &before.arena;
            let b = &after.arena;
            let ws = a.data_of(id).dynamic.unwrap().pending().unwrap();
            let olds = olds_of(a, id);
            let count = gen_info_of(a, id)->WholeSubtree_0;
            &&& news.len() == if ws.len() == 0 {
                1
            } else {
                ws.len()
            }
            &&& olds.len() == count
            &&& b.data_of(news[0]).dynamic.unwrap().gen_info == Some(
                DynWidgetGenInfo::WholeSubtree(news.len() as usize),
            )
            &&& match a.parent_of(id) {
                Some(p) => b.children_of(p) == a.children_of(p).subrange(0, a.position_of(id)) + news
                    + a.children_of(p).subrange(
                    a.position_of(id) + count,
                    a.children_of(p).len() as int,
                ),
                None => true,
            }
            &&& forall|i: int| 0 <= i < news.len() ==> b.parent_of(#[trigger] news[i]) == a.parent_of(id)
            &&& forall|j: int|
                0 <= j < olds.len() ==> {
                    let o = #[trigger] olds[j];
                    &&& b.parent_of(o).is_none()
                    &&& if a.data_of(o).delays_drop() {
                        !b.is_dropped(o) && host_of(b, news[0]).contains(o)
                    } else {
                        b.is_dropped(o)
                    }
                }
            &&& after.delay_events@.len() >= before.delay_events@.len() + olds.len()
            &&& after.delay_events@.subrange(
                before.delay_events@.len() as int,
                (before.delay_events@.len() + olds.len()) as int,
            ) == disposed_events(a, olds)
        }),
{
    let a = &before.arena;
    let bu = &trace.built.arena;
    let m = &trace.matched;
    let s = &trace.spliced.arena;
    let b = &after.arena;
    let olds = olds_of(a, id);
    let count = gen_info_of(a, id)->WholeSubtree_0;
    let dr = a.data_of(id).dynamic.unwrap();
    a.lemma_model();
    s.lemma_model();
    if a.parent_of(id).is_some() {
        a.lemma_position_of_child(id);
    }
    assert(m.parent_of(id) == a.parent_of(id)) by {
        assert(bu.parent_of(id) == a.parent_of(id));
    }
    match a.parent_of(id) {
        Some(p) => {
            assert(m.children_of(p) == a.children_of(p)) by {
                assert(bu.children_of(p) == a.children_of(p));
            }
            assert(s.children_of(p) == b.children_of(p));
            assert(m.has(p));
        },
        None => {},
    }
    assert forall|i: int| 0 <= i < news.len() implies b.parent_of(#[trigger] news[i]) == a.parent_of(
        id,
    ) by {
        assert(news.contains(news[i]));
        assert(m.has(news[i]));
        assert(s.parent_of(news[i]) == b.parent_of(news[i]));
    }
    lemma_with_delayed_members(dr.drop_until_widgets@, a, olds, olds.len() as int);
    assert forall|j: int| 0 <= j < olds.len() implies {
        let o = #[trigger] olds[j];
        &&& b.parent_of(o).is_none()
        &&& if a.data_of(o).delays_drop() {
            !b.is_dropped(o) && host_of(b, news[0]).contains(o)
        } else {
            b.is_dropped(o)
        }
    } by {
        let o = olds[j];
        assert(olds.contains(o));
        // an old root is an old, live node
        assert(a.has(o) && !a.is_dropped(o)) by {
            match a.parent_of(id) {
                Some(p) => {
                    assert(o == a.children_of(p)[a.position_of(id) + j]);
                    assert(a.parent_of(o) == Some(p));
                },
                None => {},
            }
        }
        assert(!news.contains(o)) by {
            if news.contains(o) {
                let i = news.index_of(o);
                assert(news[i].index >= a.len());
            }
        }
        assert(m.has(o));
        assert(s.parent_of(o).is_none());
        assert(s.parent_of(o) == b.parent_of(o));
        assert(s.is_dropped(o) == b.is_dropped(o));
        assert(m.is_dropped(o) == a.is_dropped(o)) by {
            assert(bu.is_dropped(o) == a.is_dropped(o));
        }
        lemma_matched_keeps_delay(m, bu, olds, news, j);
        assert(bu.data_of(o).delays_drop() == a.data_of(o).delays_drop()) by {
            if o != id {
                assert(bu.data_of(o) == a.data_of(o));
            }
        }
        assert(s.ancestors_of(o) == Seq::<NodeId>::empty());
        if a.data_of(o).delays_drop() {
            if dropped_by(s, m, olds, olds.len() as int, o) {
                let c = choose|c: int|
                    0 <= c < olds.len() && c < olds.len() && #[trigger] removed_under(s, m, olds, c, o);
                assert(olds[c] == o);
            }
        } else {
            assert(removed_under(s, m, olds, j, o));
        }
    }
}

/// Identity is preserved below a position with static children: after the
/// regeneration the static children hang, in their order and under their
/// handles, below the leaf of the new output, and the payload of a static
/// child is what it was.
pub proof fn law_identity_preserved(
    before: &WidgetTree,
    after: &WidgetTree,
    id: NodeId,
    news: Seq<NodeId>,
    trace: RegenTrace,
)
    requires
        regen_ready(before, id),
        regenerated(after, before, id, news, trace),
        gen_info_of(&before.arena, id) is DynDepth,
        descend(&before.arena, id, steps_down(gen_info_of(&before.arena, id)->DynDepth_0)).is_some(),
    ensures
        ({
            let a = &before.arena;
            let b = &after.arena;
            let dcp = descend(a, id, steps_down(gen_info_of(a, id)->DynDepth_0)).unwrap();
            let leaf = descend(&trace.matched, news[0], trace.output[0].chain_len()).unwrap();
            &&& news.len() == 1
            &&& leaf.index >= a.len()
            &&& b.children_of(leaf) == a.children_of(dcp)
            &&& forall|k: int|
                0 <= k < a.children_of(dcp).len() ==> {
                    let c = #[trigger] a.children_of(dcp)[k];
                    &&& b.parent_of(c) == Some(leaf)
                    &&& b.data_of(c) == a.data_of(c)
                    &&& b.children_of(c) == a.children_of(c)
                }
            &&& b.data_of(news[0]).dynamic.unwrap().gen_info == Some(
                DynWidgetGenInfo::DynDepth((trace.output[0].chain_len() + 1) as usize),
            )
        }),
{
    let a = &before.arena;
    let bu = &trace.built.arena;
    let m = &trace.matched;
    let s = &trace.spliced.arena;
    let b = &after.arena;
    let depth = gen_info_of(a, id)->DynDepth_0;
    let dcp = descend(a, id, steps_down(depth)).unwrap();
    let steps = trace.output[0].chain_len();
    let leaf = descend(m, news[0], steps).unwrap();
    let r = news[0];
    a.lemma_model();
    bu.lemma_model();
    m.lemma_model();
    crate::dynamic_widget::lemma_descend_subtree(a, id, steps_down(depth));
    crate::dynamic_widget::lemma_descend_subtree(m, r, steps);
    // the leaf is a new node, `dcp` an old one
    assert(leaf.index >= a.len()) by {
        if leaf != r {
            let k = m.ancestors_of(leaf).index_of(r);
            assert(m.ancestors_of(leaf) == bu.ancestors_of(leaf));
            assert(bu.ancestors_of(leaf)[k].index >= a.len());
        }
    }
    assert(m.children_of(dcp) == a.children_of(dcp)) by {
        assert(bu.children_of(dcp) == a.children_of(dcp));
    }
    crate::regen::lemma_chain_built(bu, r, trace.output[0]);
    crate::dynamic_widget::lemma_descend_same(bu, m, r, steps);
    assert(m.children_of(leaf).len() == 0) by {
        assert(bu.has(leaf));
        assert(m.children_of(leaf) == bu.children_of(leaf));
    }
    // `dcp` is not the parent of `id`
    assert(a.parent_of(id) != Some(dcp)) by {
        if a.parent_of(id) == Some(dcp) {
            a.lemma_subtree_depth(dcp, id);
            assert(a.ancestors_of(id) == seq![dcp] + a.ancestors_of(dcp));
        }
    }
    assert(m.parent_of(id) == a.parent_of(id)) by {
        assert(bu.parent_of(id) == a.parent_of(id));
    }
    assert(s.children_of(leaf) =~= a.children_of(dcp)) by {
        assert(m.has(leaf));
        match a.parent_of(id) {
            Some(p) => {
                assert(p != leaf);
            },
            None => {},
        }
        assert(m.children_of(leaf) + m.children_of(dcp) =~= m.children_of(dcp));
    }
    assert(b.children_of(leaf) == s.children_of(leaf));
    assert forall|k: int| 0 <= k < a.children_of(dcp).len() implies {
        let c = #[trigger] a.children_of(dcp)[k];
        &&& b.parent_of(c) == Some(leaf)
        &&& b.data_of(c) == a.data_of(c)
        &&& b.children_of(c) == a.children_of(c)
    } by {
        let c = a.children_of(dcp)[k];
        assert(a.has(c) && a.parent_of(c) == Some(dcp));
        assert(m.has(c));
        assert(m.parent_of(c) == Some(dcp)) by {
            assert(bu.parent_of(c) == a.parent_of(c));
        }
        // a static child is none of the nodes that the regeneration rewrites
        a.lemma_subtree_depth(dcp, id);
        assert(a.ancestors_of(c) == seq![dcp] + a.ancestors_of(dcp));
        assert(c != id) by {
            if c == id {
                assert(a.depth_of(c) == a.depth_of(dcp) + 1);
            }
        }
        assert(c != r);
        assert(c != leaf);
        assert(c != dcp) by {
            a.lemma_acyclic(c);
            assert(a.ancestors_of(c)[0] == dcp);
        }
        assert(a.parent_of(id) != Some(c)) by {
            if a.parent_of(id) == Some(c) {
                assert(a.ancestors_of(id) == seq![c] + a.ancestors_of(c));
                assert(a.depth_of(id) == a.depth_of(dcp) + 2);
            }
        }
        assert(s.parent_of(c) == Some(leaf));
        assert(b.parent_of(c) == s.parent_of(c));
        assert(s.children_of(c) == m.children_of(c));
        assert(m.children_of(c) == a.children_of(c)) by {
            assert(bu.children_of(c) == a.children_of(c));
        }
        assert(b.children_of(c) == s.children_of(c));
        let olds = olds_of(a, id);
        assert(!olds.contains(c)) by {
            if olds.contains(c) {
                let j = olds.index_of(c);
                match a.parent_of(id) {
                    Some(p) => {
                        a.lemma_position_of_child(id);
                        assert(olds[j] == a.children_of(p)[a.position_of(id) + j]);
                        assert(j == 0);
                    },
                    None => {},
                }
            }
        }
        assert(!news.subrange(0, news.len() as int).contains(c)) by {
            if news.subrange(0, news.len() as int).contains(c) {
                let i = news.subrange(0, news.len() as int).index_of(c);
                assert(news[i] == c);
            }
        }
        assert(m.data_of(c) == bu.data_of(c)) by {
            assert(bu.has(c));
        }
        assert(bu.data_of(c) == a.data_of(c));
        assert(s.data_of(c) == m.data_of(c));
        assert(b.data_of(c) == s.data_of(c));
    }
}

/// What is painted is live: no node that was removed is painted.
pub proof fn lemma_paint_live(a: &TreeArena<RenderNode>, id: NodeId, fuel: nat)
    requires
        a.wf(),
        a.contains(id),
    ensures
        forall|x: NodeId| #[trigger] paint_seq(a, id, fuel).contains(x) ==> a.contains(x),
    decreases fuel, a.len() - a.depth_of(id), 1nat, 0nat,
{
    lemma_paint_lingering_live(a, id, 0, fuel);
    lemma_paint_children_live(a, id, 0, fuel);
    let l = paint_lingering(a, id, 0, fuel);
    let c = paint_children(a, id, 0, fuel);
    assert forall|x: NodeId| #[trigger] paint_seq(a, id, fuel).contains(x) implies a.contains(x) by {
        vstd::seq_lib::lemma_seq_concat_contains_all_elements(l + seq![id], c, x);
        vstd::seq_lib::lemma_seq_concat_contains_all_elements(l, seq![id], x);
        if seq![id].contains(x) {
            let k = seq![id].index_of(x);
            assert(seq![id][k] == x);
        }
    }
}

/// What is painted for what lingers is live.
pub proof fn lemma_paint_lingering_live(a: &TreeArena<RenderNode>, id: NodeId, k: int, fuel: nat)
    requires
        a.wf(),
        a.contains(id),
        0 <= k,
    ensures
        forall|x: NodeId| #[trigger] paint_lingering(a, id, k, fuel).contains(x) ==> a.contains(x),
    decreases fuel, a.len() - a.depth_of(id), 0nat, host_of(a, id).len() - k,
{
    if fuel > 0 && k < host_of(a, id).len() {
        let w = host_of(a, id)[k];
        let head = if a.contains(w) {
            paint_seq(a, w, (fuel - 1) as nat)
        } else {
            Seq::empty()
        };
        if a.contains(w) {
            lemma_paint_live(a, w, (fuel - 1) as nat);
        }
        lemma_paint_lingering_live(a, id, k + 1, fuel);
        let rest = paint_lingering(a, id, k + 1, fuel);
        assert forall|x: NodeId| #[trigger] paint_lingering(a, id, k, fuel).contains(x) implies a.contains(
            x,
        ) by {
            vstd::seq_lib::lemma_seq_concat_contains_all_elements(head, rest, x);
        }
    }
}

/// What is painted for the children of a live node is live.
pub proof fn lemma_paint_children_live(a: &TreeArena<RenderNode>, id: NodeId, k: int, fuel: nat)
    requires
        a.wf(),
        a.contains(id),
        0 <= k,
    ensures
        forall|x: NodeId| #[trigger] paint_children(a, id, k, fuel).contains(x) ==> a.contains(x),
    decreases fuel, a.len() - a.depth_of(id), 0nat, a.children_of(id).len() - k,
{
    if k < a.children_of(id).len() {
        let c = a.children_of(id)[k];
        a.lemma_model();
        a.lemma_depth_bound(c);
        lemma_paint_live(a, c, fuel);
        lemma_paint_children_live(a, id, k + 1, fuel);
        let head = paint_seq(a, c, fuel);
        let rest = paint_children(a, id, k + 1, fuel);
        assert forall|x: NodeId| #[trigger] paint_children(a, id, k, fuel).contains(x) implies a.contains(
            x,
        ) by {
            vstd::seq_lib::lemma_seq_concat_contains_all_elements(head, rest, x);
        }
    }
}

/// What lingers at a position is painted with the node of the position.
pub proof fn lemma_lingering_painted(a: &TreeArena<RenderNode>, h: NodeId, k: int, from: int, fuel: nat)
    requires
        a.wf(),
        a.has(h),
        fuel > 0,
        0 <= from <= k < host_of(a, h).len(),
        a.contains(host_of(a, h)[k]),
    ensures
        paint_lingering(a, h, from, fuel).contains(host_of(a, h)[k]),
        from == 0 ==> paint_seq(a, h, fuel).contains(host_of(a, h)[k]),
    decreases k - from,
{
    let w = host_of(a, h)[k];
    let first = host_of(a, h)[from];
    let head = if a.contains(first) {
        paint_seq(a, first, (fuel - 1) as nat)
    } else {
        Seq::empty()
    };
    let rest = paint_lingering(a, h, from + 1, fuel);
    vstd::seq_lib::lemma_seq_concat_contains_all_elements(head, rest, w);
    if from == k {
        let inner = paint_lingering(a, w, 0, (fuel - 1) as nat);
        let kids = paint_children(a, w, 0, (fuel - 1) as nat);
        assert(paint_seq(a, w, (fuel - 1) as nat) == inner + seq![w] + kids);
        assert((inner + seq![w] + kids)[inner.len() as int] == w);
    } else {
        lemma_lingering_painted(a, h, k, from + 1, fuel);
    }
    if from == 0 {
        let l = paint_lingering(a, h, 0, fuel);
        let c = paint_children(a, h, 0, fuel);
        vstd::seq_lib::lemma_seq_concat_contains_all_elements(l + seq![h], c, w);
        vstd::seq_lib::lemma_seq_concat_contains_all_elements(l, seq![h], w);
    }
}

/// A removed widget that delays its drop lingers: after the regeneration
/// it is a live tree of its own, it lingers at the position, it waits for
/// layout, and it is painted whenever the node of the position is painted.
pub proof fn law_delayed_drop_lingers(
    before: &WidgetTree,
    after: &WidgetTree,
    id: NodeId,
    news: Seq<NodeId>,
    trace: RegenTrace,
    j: int,
    fuel: nat,
)
    requires
        regen_ready(before, id),
        regenerated(after, before, id, news, trace),
        0 <= j < olds_of(&before.arena, id).len(),
        before.arena.data_of(olds_of(&before.arena, id)[j]).delays_drop(),
        fuel > 0,
    ensures
        ({
            let o = olds_of(&before.arena, id)[j];
            &&& after.arena.contains(o)
            &&& after.arena.parent_of(o).is_none()
            &&& host_of(&after.arena, news[0]).contains(o)
            &&& after.dirty_set@.contains(o)
            &&& paint_seq(&after.arena, news[0], fuel).contains(o)
        }),
{
    let a = &before.arena;
    let bu = &trace.built.arena;
    let m = &trace.matched;
    let s = &trace.spliced.arena;
    let b = &after.arena;
    let olds = olds_of(a, id);
    let o = olds[j];
    let dr = a.data_of(id).dynamic.unwrap();
    a.lemma_model();
    if a.parent_of(id).is_some() {
        a.lemma_position_of_child(id);
    }
    lemma_with_delayed_members(trace.built.dirty_set@, a, olds, olds.len() as int);
    lemma_with_delayed_members(dr.drop_until_widgets@, a, olds, olds.len() as int);
    match gen_info_of(a, id) {
        DynWidgetGenInfo::WholeSubtree(_) => {
            law_count_consistency(before, after, id, news, trace);
            assert(b.has(o)) by {
                if a.parent_of(id).is_some() {
                    let p = a.parent_of(id).unwrap();
                    assert(o == a.children_of(p)[a.position_of(id) + j]);
                }
                assert(a.has(o));
            }
        },
        DynWidgetGenInfo::DynDepth(_) => {
            assert(olds =~= seq![id]);
            assert(o == id);
            assert(news.contains(news[0]));
            assert(m.has(id));
            assert(m.is_dropped(id) == a.is_dropped(id)) by {
                assert(bu.is_dropped(id) == a.is_dropped(id));
            }
            lemma_matched_keeps_delay(m, bu, olds, news, 0);
            assert(bu.data_of(id).delays_drop() == a.data_of(id).delays_drop());
            assert(s.is_dropped(id) == b.is_dropped(id));
            assert(s.parent_of(id) == b.parent_of(id));
        },
    }
    let k = host_of(b, news[0]).index_of(o);
    lemma_lingering_painted(b, news[0], k, 0, fuel);
}

/// A removed widget is gone for good: whatever is painted, it is not among
/// it, and no release finds anything to do for it again.
pub proof fn law_release_is_final(tree: &WidgetTree, wid: NodeId, id: NodeId, fuel: nat)
    requires
        tree.wf(),
        tree.arena.has(wid),
        tree.arena.is_dropped(wid),
        tree.arena.contains(id),
    ensures
        !paint_seq(&tree.arena, id, fuel).contains(wid),
        !(crate::widget_tree::first_host(&tree.arena, wid, 0).is_some() && tree.arena.contains(wid)
            && !tree.arena.data_of(wid).delays_drop()),
{
    lemma_paint_live(&tree.arena, id, fuel);
}

/// What is built for a chain stays a chain with other children below its
/// leaf, while the payloads below its root and the children above its leaf
/// stay what they are.
pub proof fn lemma_chain_frame(
    a1: &TreeArena<RenderNode>,
    a2: &TreeArena<RenderNode>,
    id: NodeId,
    w: Widget,
    tail: Seq<NodeId>,
)
    requires
        a1.wf(),
        realizes(a1, id, w),
        w.is_chain(),
        a2.len() >= a1.len(),
        forall|t: nat|
            t < w.chain_len() ==> a2.children_of((#[trigger] descend(a1, id, t)).unwrap())
                == a1.children_of(descend(a1, id, t).unwrap()),
        forall|t: nat|
            1 <= t <= w.chain_len() ==> a2.data_of((#[trigger] descend(a1, id, t)).unwrap()) == a1.data_of(
                descend(a1, id, t).unwrap(),
            ),
        a2.children_of(descend(a1, id, w.chain_len()).unwrap()) == tail,
    ensures
        realizes_chain(a2, id, w, tail),
    decreases w,
{
    if w.children@.len() == 1 {
        let c = a1.children_of(id)[0];
        let wc = w.children@[0];
        assert(realizes(a1, c, wc));
        assert(descend(a1, id, 0) == Some(id));
        assert(a2.children_of(descend(a1, id, 0).unwrap()) == a1.children_of(id));
        assert(descend(a1, id, 1) == descend(a1, c, 0));
        assert(a2.data_of(descend(a1, id, 1).unwrap()) == a1.data_of(c));
        assert forall|t: nat| t < wc.chain_len() implies a2.children_of(
            (#[trigger] descend(a1, c, t)).unwrap(),
        ) == a1.children_of(descend(a1, c, t).unwrap()) by {
            assert(descend(a1, id, t + 1) == descend(a1, c, t));
        }
        assert forall|t: nat| 1 <= t <= wc.chain_len() implies a2.data_of(
            (#[trigger] descend(a1, c, t)).unwrap(),
        ) == a1.data_of(descend(a1, c, t).unwrap()) by {
            assert(descend(a1, id, t + 1) == descend(a1, c, t));
        }
        assert(descend(a1, id, w.chain_len()) == descend(a1, c, wc.chain_len()));
        lemma_chain_frame(a1, a2, c, wc, tail);
    } else {
        assert(descend(a1, id, 0) == Some(id));
    }
}

/// The nodes of a subtree that was built and not yet put into the tree are
/// of the new generation, none of them is a root, and none the parent of `id`.
proof fn lemma_built_subtree(
    before: &WidgetTree,
    built: &WidgetTree,
    id: NodeId,
    output: Seq<Widget>,
    news: Seq<NodeId>,
    i: int,
    x: NodeId,
)
    requires
        before.wf(),
        before.arena.has(id),
        output_built(built, before, id, output, news),
        0 <= i < news.len(),
        built.arena.has(x),
        built.arena.in_subtree(x, news[i]),
    ensures
        x.index >= before.arena.len(),
        x != news[i] ==> !news.contains(x),
        before.arena.parent_of(id) != Some(x),
{
    let b = &built.arena;
    let a = &before.arena;
    b.lemma_model();
    a.lemma_model();
    if x != news[i] {
        let k = b.ancestors_of(x).index_of(news[i]);
        assert(b.ancestors_of(x)[k].index >= a.len());
        if news.contains(x) {
            let j = news.index_of(x);
            assert(b.parent_of(news[j]).is_none());
        }
    }
}

/// After the regeneration of a position that owns its whole subtree, the
/// output stands in the tree: below every new root stands what its widget
/// describes, and the root renders what the widget renders, with the
/// attachments that the key matching left.
pub proof fn law_output_in_place(
    before: &WidgetTree,
    after: &WidgetTree,
    id: NodeId,
    news: Seq<NodeId>,
    trace: RegenTrace,
    i: int,
)
    requires
        regen_ready(before, id),
        regenerated(after, before, id, news, trace),
        gen_info_of(&before.arena, id) is WholeSubtree,
        0 <= i < news.len(),
    ensures
        realizes_children(&after.arena, news[i], trace.output[i]),
        after.arena.data_of(news[i]).render == trace.output[i].render,
        after.arena.data_of(news[i]).attachments@ == matched_new(
            &trace.built.arena,
            olds_of(&before.arena, id),
            news[i],
        ),
        i > 0 ==> after.arena.data_of(news[i]).dynamic.is_none(),
{
    let a = &before.arena;
    let bu = &trace.built.arena;
    let m = &trace.matched;
    let s = &trace.spliced.arena;
    let b = &after.arena;
    let r = news[i];
    let w = trace.output[i];
    let olds = olds_of(a, id);
    a.lemma_model();
    bu.lemma_model();
    if a.parent_of(id).is_some() {
        a.lemma_position_of_child(id);
    }
    assert(realizes(bu, r, w));
    assert(m.has(r));
    assert(news.contains(r));
    assert(a.has(id));
    lemma_built_subtree(before, &trace.built, id, trace.output, news, i, r);
    assert(s.data_of(r) == m.data_of(r));
    assert(m.data_of(r).render == bu.data_of(r).render);
    assert(s.children_of(r) == m.children_of(r));
    assert(b.children_of(r) == s.children_of(r));
    if i > 0 {
        assert(news[0] != r);
        assert(b.data_of(r) == s.data_of(r));
        let ws = a.data_of(id).dynamic.unwrap().pending().unwrap();
        assert(trace.output == ws);
        assert(ws[i].dynamic.is_none());
    }
    assert forall|j: int| 0 <= j < w.children@.len() implies realizes(
        b,
        #[trigger] b.children_of(r)[j],
        w.children@[j],
    ) by {
        let c = bu.children_of(r)[j];
        assert(realizes(bu, c, w.children@[j]));
        assert forall|x: NodeId| bu.has(x) && bu.in_subtree(x, c) implies #[trigger] b.data_of(x)
            == bu.data_of(x) && #[trigger] b.children_of(x) == bu.children_of(x) by {
            assert(bu.under_child(r, x, j));
            bu.lemma_subtree_children(x, r);
            lemma_built_subtree(before, &trace.built, id, trace.output, news, i, x);
            assert(!olds.contains(x)) by {
                if olds.contains(x) {
                    let k = olds.index_of(x);
                    match a.parent_of(id) {
                        Some(p) => {
                            assert(olds[k] == a.children_of(p)[a.position_of(id) + k]);
                        },
                        None => {},
                    }
                }
            }
            assert(!news.subrange(0, news.len() as int).contains(x)) by {
                if news.subrange(0, news.len() as int).contains(x) {
                    let k = news.subrange(0, news.len() as int).index_of(x);
                    assert(news[k] == x);
                    assert(news.contains(x));
                }
            }
            assert(m.data_of(x) == bu.data_of(x));
            assert(m.has(x));
            assert(m.parent_of(id) == a.parent_of(id)) by {
                assert(bu.parent_of(id) == a.parent_of(id));
            }
            assert(s.data_of(x) == m.data_of(x));
            assert(s.children_of(x) == m.children_of(x));
            assert(b.data_of(x) == s.data_of(x));
            assert(b.children_of(x) == s.children_of(x));
        }
        lemma_realizes_frame(bu, b, c, w.children@[j]);
    }
}

/// After the regeneration of a position with static children, the output
/// stands in the tree as a chain, and the children of the leaf of the chain
/// are the static children.
pub proof fn law_chain_in_place(
    before: &WidgetTree,
    after: &WidgetTree,
    id: NodeId,
    news: Seq<NodeId>,
    trace: RegenTrace,
)
    requires
        regen_ready(before, id),
        regenerated(after, before, id, news, trace),
        gen_info_of(&before.arena, id) is DynDepth,
    ensures
        realizes_chain(
            &after.arena,
            news[0],
            trace.output[0],
            match descend(&before.arena, id, steps_down(gen_info_of(&before.arena, id)->DynDepth_0)) {
                Some(dcp) => before.arena.children_of(dcp),
                None => Seq::empty(),
            },
        ),
        after.arena.data_of(news[0]).render == trace.output[0].render,
{
    let a = &before.arena;
    let bu = &trace.built.arena;
    let m = &trace.matched;
    let s = &trace.spliced.arena;
    let b = &after.arena;
    let r = news[0];
    let w = trace.output[0];
    let depth = gen_info_of(a, id)->DynDepth_0;
    let dcp = descend(a, id, steps_down(depth));
    let steps = w.chain_len();
    let olds = olds_of(a, id);
    let tail = match dcp {
        Some(d) => a.children_of(d),
        None => Seq::<NodeId>::empty(),
    };
    a.lemma_model();
    bu.lemma_model();
    if a.parent_of(id).is_some() {
        a.lemma_position_of_child(id);
    }
    assert(realizes(bu, r, w));
    assert(news.contains(r));
    crate::regen::lemma_chain_built(bu, r, w);
    crate::dynamic_widget::lemma_descend_same(bu, m, r, steps);
    let leaf = descend(bu, r, steps).unwrap();
    assert(m.parent_of(id) == a.parent_of(id)) by {
        assert(bu.parent_of(id) == a.parent_of(id));
    }
    if dcp.is_some() {
        crate::dynamic_widget::lemma_descend_subtree(a, id, steps_down(depth));
        assert(m.children_of(dcp.unwrap()) == a.children_of(dcp.unwrap())) by {
            assert(bu.children_of(dcp.unwrap()) == a.children_of(dcp.unwrap()));
        }
    }
    // every node of the chain is a new node below the new root
    assert forall|t: nat| t <= steps implies {
        let x = (#[trigger] descend(bu, r, t)).unwrap();
        &&& descend(bu, r, t).is_some()
        &&& bu.has(x)
        &&& x.index >= a.len()
        &&& a.parent_of(id) != Some(x)
        &&& dcp != Some(x)
        &&& (t >= 1 ==> !news.contains(x) && !olds.contains(x))
        &&& (t < steps ==> x != leaf)
    } by {
        if t < steps {
            assert(match descend(bu, r, t) {
                Some(n) => bu.children_of(n).len() == 1,
                None => false,
            });
        }
        crate::dynamic_widget::lemma_descend_subtree(bu, r, t);
        crate::dynamic_widget::lemma_descend_subtree(bu, r, steps);
        let x = descend(bu, r, t).unwrap();
        lemma_built_subtree(before, &trace.built, id, trace.output, news, 0, x);
        if t >= 1 {
            assert(x != r) by {
                assert(bu.depth_of(x) == bu.depth_of(r) + t);
            }
            if olds.contains(x) {
                let k = olds.index_of(x);
                match a.parent_of(id) {
                    Some(p) => {
                        assert(olds[k] == a.children_of(p)[a.position_of(id) + k]);
                    },
                    None => {},
                }
            }
        }
        if dcp == Some(x) {
            assert(a.has(dcp.unwrap()));
        }
    }
    assert forall|t: nat| t < steps implies b.children_of((#[trigger] descend(bu, r, t)).unwrap())
        == bu.children_of(descend(bu, r, t).unwrap()) by {
        let x = descend(bu, r, t).unwrap();
        assert(m.has(x));
        assert(m.children_of(x) == bu.children_of(x));
        assert(s.children_of(x) == m.children_of(x));
        assert(b.children_of(x) == s.children_of(x));
    }
    assert forall|t: nat| 1 <= t <= steps implies b.data_of((#[trigger] descend(bu, r, t)).unwrap())
        == bu.data_of(descend(bu, r, t).unwrap()) by {
        let x = descend(bu, r, t).unwrap();
        assert(m.has(x));
        assert(!news.subrange(0, news.len() as int).contains(x)) by {
            if news.subrange(0, news.len() as int).contains(x) {
                let k = news.subrange(0, news.len() as int).index_of(x);
                assert(news[k] == x);
                assert(news.contains(x));
            }
        }
        assert(m.data_of(x) == bu.data_of(x));
        assert(s.data_of(x) == m.data_of(x));
        assert(x != r);
        assert(b.data_of(x) == s.data_of(x));
    }
    assert(b.children_of(leaf) == tail) by {
        assert(descend(bu, r, steps).is_some());
        assert(m.has(leaf));
        assert(m.children_of(leaf) == bu.children_of(leaf));
        assert(s.children_of(leaf) =~= tail);
        assert(b.children_of(leaf) == s.children_of(leaf));
    }
    lemma_chain_frame(bu, b, r, w, tail);
    assert(m.has(r));
    assert(m.data_of(r).render == bu.data_of(r).render);
    assert(s.data_of(r) == m.data_of(r));
}


/// The nodes of the chain of the new root are live after the regeneration of
/// a position with static children.
proof fn lemma_chain_live(
    before: &WidgetTree,
    after: &WidgetTree,
    id: NodeId,
    news: Seq<NodeId>,
    trace: RegenTrace,
    t: nat,
)
    requires
        regen_ready(before, id),
        regenerated(after, before, id, news, trace),
        gen_info_of(&before.arena, id) is DynDepth,
        t <= trace.output[0].chain_len(),
    ensures
        descend(&trace.built.arena, news[0], t).is_some(),
        !trace.spliced.arena.is_dropped(descend(&trace.built.arena, news[0], t).unwrap()),
    decreases t,
{
    let a = &before.arena;
    let bu = &trace.built.arena;
    let m = &trace.matched;
    let s = &trace.spliced.arena;
    let r = news[0];
    let w = trace.output[0];
    let steps = w.chain_len();
    bu.lemma_model();
    s.lemma_model();
    a.lemma_model();
    assert(realizes(bu, r, w));
    assert(news.contains(r));
    crate::regen::lemma_chain_built(bu, r, w);
    if t > 0 {
        let u = (t - 1) as nat;
        lemma_chain_live(before, after, id, news, trace, u);
        assert(match descend(bu, r, u) {
            Some(n) => bu.children_of(n).len() == 1,
            None => false,
        });
        crate::dynamic_widget::lemma_descend_step(bu, r, u);
        crate::dynamic_widget::lemma_descend_subtree(bu, r, u);
        crate::dynamic_widget::lemma_descend_subtree(bu, r, t);
        let q = descend(bu, r, u).unwrap();
        let x = descend(bu, r, t).unwrap();
        assert(x == bu.children_of(q)[0]);
        assert(bu.parent_of(x) == Some(q));
        lemma_built_subtree(before, &trace.built, id, trace.output, news, 0, x);
        lemma_built_subtree(before, &trace.built, id, trace.output, news, 0, q);
        assert(x != r) by {
            assert(bu.depth_of(x) == bu.depth_of(r) + t);
        }
        assert(m.has(x));
        assert(m.parent_of(x) == Some(q));
        let depth = gen_info_of(a, id)->DynDepth_0;
        let dcp = descend(a, id, steps_down(depth));
        if dcp.is_some() {
            crate::dynamic_widget::lemma_descend_subtree(a, id, steps_down(depth));
            assert(dcp != Some(q));
        }
        assert(x != id);
        assert(s.parent_of(x) == Some(q));
        assert(s.is_dropped(x) == s.is_dropped(q));
    }
}

/// The static subtrees are live after the regeneration of a position with
/// static children, and their nodes are what they were.
proof fn lemma_static_kept(
    before: &WidgetTree,
    after: &WidgetTree,
    id: NodeId,
    news: Seq<NodeId>,
    trace: RegenTrace,
    x: NodeId,
)
    requires
        regen_ready(before, id),
        regenerated(after, before, id, news, trace),
        gen_info_of(&before.arena, id) is DynDepth,
        descend(&before.arena, id, steps_down(gen_info_of(&before.arena, id)->DynDepth_0)).is_some(),
        before.arena.has(x),
        before.arena.in_subtree(
            x,
            descend(&before.arena, id, steps_down(gen_info_of(&before.arena, id)->DynDepth_0)).unwrap(),
        ),
        x != descend(&before.arena, id, steps_down(gen_info_of(&before.arena, id)->DynDepth_0)).unwrap(),
    ensures
        ({
            let a = &before.arena;
            let b = &after.arena;
            let dcp = descend(a, id, steps_down(gen_info_of(a, id)->DynDepth_0)).unwrap();
            let leaf = descend(&trace.matched, news[0], trace.output[0].chain_len()).unwrap();
            &&& !b.is_dropped(x)
            &&& b.data_of(x) == a.data_of(x)
            &&& b.children_of(x) == a.children_of(x)
            &&& b.parent_of(x) == if a.parent_of(x) == Some(dcp) {
                Some(leaf)
            } else {
                a.parent_of(x)
            }
        }),
    decreases before.arena.depth_of(x),
{
    let a = &before.arena;
    let bu = &trace.built.arena;
    let m = &trace.matched;
    let s = &trace.spliced.arena;
    let b = &after.arena;
    let depth = gen_info_of(a, id)->DynDepth_0;
    let dcp = descend(a, id, steps_down(depth)).unwrap();
    let w = trace.output[0];
    let steps = w.chain_len();
    let r = news[0];
    let leaf = descend(m, r, steps).unwrap();
    let olds = olds_of(a, id);
    a.lemma_model();
    bu.lemma_model();
    s.lemma_model();
    if a.parent_of(id).is_some() {
        a.lemma_position_of_child(id);
    }
    crate::dynamic_widget::lemma_descend_subtree(a, id, steps_down(depth));
    a.lemma_subtree_depth(dcp, id);
    a.lemma_subtree_depth(x, dcp);
    assert(realizes(bu, r, w));
    assert(news.contains(r));
    crate::regen::lemma_chain_built(bu, r, w);
    crate::dynamic_widget::lemma_descend_same(bu, m, r, steps);
    crate::dynamic_widget::lemma_descend_subtree(bu, r, steps);
    lemma_built_subtree(before, &trace.built, id, trace.output, news, 0, leaf);
    // `x` is an old node deeper than `id`, `dcp` and the parent of `id`
    assert(x != id);
    assert(x != r && x != leaf);
    assert(a.parent_of(id) != Some(x)) by {
        if a.parent_of(id) == Some(x) {
            assert(a.ancestors_of(id) == seq![x] + a.ancestors_of(x));
        }
    }
    assert(!olds.contains(x)) by {
        if olds.contains(x) {
            let k = olds.index_of(x);
            match a.parent_of(id) {
                Some(p) => {
                    assert(olds[k] == a.children_of(p)[a.position_of(id) + k]);
                    assert(a.ancestors_of(x) == seq![p] + a.ancestors_of(p));
                    assert(a.ancestors_of(id) == seq![p] + a.ancestors_of(p));
                },
                None => {},
            }
        }
    }
    assert(!news.subrange(0, news.len() as int).contains(x)) by {
        if news.subrange(0, news.len() as int).contains(x) {
            let k = news.subrange(0, news.len() as int).index_of(x);
            assert(news[k].index >= a.len());
        }
    }
    assert(bu.has(x) && m.has(x));
    assert(bu.data_of(x) == a.data_of(x));
    assert(m.data_of(x) == bu.data_of(x));
    assert(s.data_of(x) == m.data_of(x));
    assert(b.data_of(x) == s.data_of(x));
    assert(m.parent_of(id) == a.parent_of(id)) by {
        assert(bu.parent_of(id) == a.parent_of(id));
    }
    assert(m.children_of(x) == a.children_of(x)) by {
        assert(bu.children_of(x) == a.children_of(x));
    }
    assert(s.children_of(x) == m.children_of(x));
    assert(b.children_of(x) == s.children_of(x));
    assert(m.parent_of(x) == a.parent_of(x)) by {
        assert(bu.parent_of(x) == a.parent_of(x));
    }
    assert(s.parent_of(x) == if a.parent_of(x) == Some(dcp) {
        Some(leaf)
    } else {
        a.parent_of(x)
    });
    assert(b.parent_of(x) == s.parent_of(x));
    assert(b.is_dropped(x) == s.is_dropped(x));
    // live, as the node above it is
    let q = a.parent_of(x).unwrap();
    a.lemma_subtree_parent(x, dcp);
    if q == dcp {
        lemma_chain_live(before, after, id, news, trace, steps);
        assert(s.is_dropped(x) == s.is_dropped(leaf));
    } else {
        lemma_static_kept(before, after, id, news, trace, q);
        assert(s.is_dropped(q) == b.is_dropped(q));
        assert(s.is_dropped(x) == s.is_dropped(q));
    }
}

/// Identity is preserved below a position with static children, all the
/// way down: after the regeneration every node of the static subtrees is
/// live under its handle, with the payload and the children it had, and with
/// the parent it had, but that the static children hang below the leaf of
/// the new output.
pub proof fn law_static_subtrees_kept(
    before: &WidgetTree,
    after: &WidgetTree,
    id: NodeId,
    news: Seq<NodeId>,
    trace: RegenTrace,
)
    requires
        regen_ready(before, id),
        regenerated(after, before, id, news, trace),
        gen_info_of(&before.arena, id) is DynDepth,
        descend(&before.arena, id, steps_down(gen_info_of(&before.arena, id)->DynDepth_0)).is_some(),
    ensures
        ({
            let a = &before.arena;
            let b = &after.arena;
            let dcp = descend(a, id, steps_down(gen_info_of(a, id)->DynDepth_0)).unwrap();
            let leaf = descend(&trace.matched, news[0], trace.output[0].chain_len()).unwrap();
            forall|x: NodeId|
                a.has(x) && #[trigger] a.in_subtree(x, dcp) && x != dcp ==> {
                    &&& !b.is_dropped(x)
                    &&& b.data_of(x) == a.data_of(x)
                    &&& b.children_of(x) == a.children_of(x)
                    &&& b.parent_of(x) == if a.parent_of(x) == Some(dcp) {
                        Some(leaf)
                    } else {
                        a.parent_of(x)
                    }
                }
        }),
{
    let a = &before.arena;
    let b = &after.arena;
    let dcp = descend(a, id, steps_down(gen_info_of(a, id)->DynDepth_0)).unwrap();
    let leaf = descend(&trace.matched, news[0], trace.output[0].chain_len()).unwrap();
    assert forall|x: NodeId| a.has(x) && #[trigger] a.in_subtree(x, dcp) && x != dcp implies {
        &&& !b.is_dropped(x)
        &&& b.data_of(x) == a.data_of(x)
        &&& b.children_of(x) == a.children_of(x)
        &&& b.parent_of(x) == if a.parent_of(x) == Some(dcp) {
            Some(leaf)
        } else {
            a.parent_of(x)
        }
    } by {
        lemma_static_kept(before, after, id, news, trace, x);
    }
}


/// No old root is found with a key exactly where no old root has it.
pub proof fn lemma_no_old_key(a: &TreeArena<RenderNode>, olds: Seq<NodeId>, key: crate::key::Key, from: int)
    requires
        0 <= from,
    ensures
        first_with_key(a, olds, key, from).is_none() <==> forall|j: int|
            from <= j < olds.len() ==> !#[trigger] key_matches(a, olds[j], key),
    decreases olds.len() - from,
{
    if from < olds.len() {
        lemma_no_old_key(a, olds, key, from + 1);
        if !key_matches(a, olds[from], key) && first_with_key(a, olds, key, from + 1).is_none() {
            assert forall|j: int| from <= j < olds.len() implies !#[trigger] key_matches(a, olds[j], key) by {
                if j > from {
                }
            }
        }
    }
}

/// The key lifecycle of a new root: after the regeneration the key of a new
/// root is the key of its widget, and it records a value before exactly
/// where an old root has the same key: then the value of the first such old
/// root. So a new root has entered exactly where no old root has its key.
pub proof fn law_new_key(
    before: &WidgetTree,
    after: &WidgetTree,
    id: NodeId,
    news: Seq<NodeId>,
    trace: RegenTrace,
    i: int,
)
    requires
        regen_ready(before, id),
        regenerated(after, before, id, news, trace),
        0 <= i < news.len(),
        first_key(trace.output[i].attachments@, 0).is_some(),
    ensures
        ({
            let a = &before.arena;
            let olds = olds_of(a, id);
            let kw = first_key(trace.output[i].attachments@, 0).unwrap();
            let now = after.arena.data_of(news[i]).key_of();
            &&& now == Some(
                KeyWidget {
                    before_value: match first_with_key(a, olds, kw.key, 0) {
                        Some(j) => Some(a.data_of(olds[j]).key_of().unwrap().value),
                        None => kw.before_value,
                    },
                    ..kw
                },
            )
            &&& first_with_key(a, olds, kw.key, 0).is_none() <==> forall|j: int|
                0 <= j < olds.len() ==> !#[trigger] key_matches(a, olds[j], kw.key)
        }),
{
    let a = &before.arena;
    let bu = &trace.built.arena;
    let m = &trace.matched;
    let s = &trace.spliced.arena;
    let b = &after.arena;
    let olds = olds_of(a, id);
    let r = news[i];
    let w = trace.output[i];
    let atts = w.attachments@;
    let kw = first_key(atts, 0).unwrap();
    a.lemma_model();
    if a.parent_of(id).is_some() {
        a.lemma_position_of_child(id);
    }
    assert(realizes(bu, r, w));
    assert(bu.data_of(r) == w.payload());
    assert(m.has(r));
    assert(m.data_of(r).attachments@ == matched_new(bu, olds, news[i]));
    assert(s.data_of(r) == m.data_of(r));
    assert(b.data_of(r).attachments == s.data_of(r).attachments);
    // the keys of the old roots are what they were before the output was built
    assert forall|j: int| 0 <= j < olds.len() implies bu.data_of(#[trigger] olds[j]).attachments
        == a.data_of(olds[j]).attachments by {
        let o = olds[j];
        match a.parent_of(id) {
            Some(p) => {
                assert(o == a.children_of(p)[a.position_of(id) + j]);
            },
            None => {},
        }
        if o != id {
            assert(bu.data_of(o) == a.data_of(o));
        }
    }
    lemma_same_search(bu, a, olds, kw.key, 0);
    lemma_first_key_index(atts, 0);
    let ki = first_key_index(atts, 0).unwrap();
    match first_with_key(a, olds, kw.key, 0) {
        Some(j) => {
            lemma_first_with_key_found(a, olds, kw.key, 0);
            let done = KeyWidget { before_value: Some(bu.data_of(olds[j]).key_of().unwrap().value), ..kw };
            lemma_update_key_index(atts, ki, done, 0);
        },
        None => {},
    }
    lemma_no_old_key(a, olds, kw.key, 0);
}

/// The first old root with a key is the same in two arenas in which the old
/// roots have the same attachments.
proof fn lemma_same_search(
    a: &TreeArena<RenderNode>,
    b: &TreeArena<RenderNode>,
    olds: Seq<NodeId>,
    key: crate::key::Key,
    from: int,
)
    requires
        forall|j: int|
            0 <= j < olds.len() ==> a.data_of(#[trigger] olds[j]).attachments == b.data_of(
                olds[j],
            ).attachments,
    ensures
        first_with_key(a, olds, key, from) == first_with_key(b, olds, key, from),
    decreases olds.len() - from,
{
    if 0 <= from < olds.len() {
        lemma_same_search(a, b, olds, key, from + 1);
    }
}

/// The key lifecycle of an old root: after the regeneration the key of an
/// old root records a successor where it recorded one before, and where the
/// root is the first old root with its key and a new root has that key;
/// nowhere else. So an old root leaves for good exactly where no new root
/// took its key from it.
pub proof fn law_old_key(
    before: &WidgetTree,
    after: &WidgetTree,
    id: NodeId,
    news: Seq<NodeId>,
    trace: RegenTrace,
    j: int,
)
    requires
        regen_ready(before, id),
        regenerated(after, before, id, news, trace),
        0 <= j < olds_of(&before.arena, id).len(),
        before.arena.data_of(olds_of(&before.arena, id)[j]).key_of().is_some(),
    ensures
        ({
            let a = &before.arena;
            let olds = olds_of(a, id);
            let kw = a.data_of(olds[j]).key_of().unwrap();
            &&& after.arena.data_of(olds[j]).key_of() == Some(
                KeyWidget {
                    has_successor: kw.has_successor || (first_with_key(a, olds, kw.key, 0) == Some(j)
                        && key_among(&trace.built.arena, news, kw.key, news.len() as int)),
                    ..kw
                },
            )
        }),
{
    let a = &before.arena;
    let bu = &trace.built.arena;
    let m = &trace.matched;
    let s = &trace.spliced.arena;
    let b = &after.arena;
    let olds = olds_of(a, id);
    let o = olds[j];
    a.lemma_model();
    if a.parent_of(id).is_some() {
        a.lemma_position_of_child(id);
    }
    assert forall|k: int| 0 <= k < olds.len() implies a.has(#[trigger] olds[k]) && bu.data_of(
        olds[k],
    ).attachments == a.data_of(olds[k]).attachments by {
        let x = olds[k];
        match a.parent_of(id) {
            Some(p) => {
                assert(x == a.children_of(p)[a.position_of(id) + k]);
            },
            None => {},
        }
        if x != id {
            assert(bu.data_of(x) == a.data_of(x));
        }
    }
    assert(!news.contains(o)) by {
        if news.contains(o) {
            let k = news.index_of(o);
            assert(news[k].index >= a.len());
        }
    }
    assert(m.has(o));
    let atts = a.data_of(o).attachments@;
    let kw = a.data_of(o).key_of().unwrap();
    lemma_first_key_index(atts, 0);
    let ki = first_key_index(atts, 0).unwrap();
    assert(m.data_of(o).attachments@ == matched_old(bu, olds, news, news.len() as int, j));
    lemma_same_search(bu, a, olds, kw.key, 0);
    lemma_update_key_index(atts, ki, KeyWidget { has_successor: true, ..kw }, 0);
    assert(s.data_of(o) == m.data_of(o));
    assert(news.contains(news[0]));
    assert(b.data_of(o) == s.data_of(o)) by {
        assert(o != news[0]);
    }
}

} // verus!
