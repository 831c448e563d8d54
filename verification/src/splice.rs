//! Putting the new output of a dynamic position in the place of the old one.

use crate::arena::{seq_at, NodeId, TreeArena};
use crate::dynamic_widget::{
    descend, down_to_leaf, is_chain_at, lemma_descend_step, lemma_descend_subtree, single_down,
    single_path, DynRender, WidgetsHost,
};
use crate::widget::RenderNode;
use crate::node_set::with_member;
use crate::widget_tree::{generations_apart, DelayEvent, WidgetTree};
use vstd::prelude::*;

verus! {

/// `after` is `before` with the children of `from` moved, in their order,
/// behind the children of `to`.
pub open spec fn grafted(
    after: &TreeArena<RenderNode>,
    before: &TreeArena<RenderNode>,
    from: NodeId,
    to: NodeId,
) -> bool {
    &&& after.len() == before.len()
    &&& forall|x: NodeId| before.has(x) ==> #[trigger] after.data_of(x) == before.data_of(x)
    &&& forall|x: NodeId| before.has(x) ==> #[trigger] after.is_dropped(x) == before.is_dropped(x)
    &&& forall|x: NodeId|
        before.has(x) ==> #[trigger] after.children_of(x) == if x == to {
            before.children_of(to) + before.children_of(from)
        } else if x == from {
            Seq::<NodeId>::empty()
        } else {
            before.children_of(x)
        }
    &&& forall|x: NodeId|
        before.has(x) ==> #[trigger] after.parent_of(x) == if before.parent_of(x) == Some(from) {
            Some(to)
        } else {
            before.parent_of(x)
        }
    &&& forall|x: NodeId|
        before.has(x) && !(before.in_subtree(x, from) && x != from) ==> #[trigger] after.ancestors_of(x)
            == before.ancestors_of(x)
}

/// Moves the children of `from`, with their subtrees, behind the children
/// of `to`. Every moved node keeps its handle.
pub fn graft_children(arena: &mut TreeArena<RenderNode>, from: NodeId, to: NodeId)
    requires
        old(arena).wf(),
        old(arena).has(from),
        old(arena).has(to),
        !old(arena).in_subtree(to, from),
        old(arena).is_dropped(from) == old(arena).is_dropped(to),
    ensures
        final(arena).wf(),
        grafted(final(arena), old(arena), from, to),
{
    let ghost a0 = *arena;
    let ghost ks = arena.children_of(from);
    let ghost ts = arena.children_of(to);
    let ghost mut moved: int = 0;
    proof {
        a0.lemma_model();
        assert(ts + ks.subrange(0, 0) =~= ts);
        assert(ks.subrange(0, ks.len() as int) =~= ks);
    }
    loop
        invariant
            a0.wf(),
            a0.has(from),
            a0.has(to),
            from != to,
            !a0.in_subtree(to, from),
            a0.is_dropped(from) == a0.is_dropped(to),
            ks == a0.children_of(from),
            ts == a0.children_of(to),
            arena.wf(),
            arena.len() == a0.len(),
            0 <= moved <= ks.len(),
            arena.children_of(from) == ks.subrange(moved, ks.len() as int),
            arena.children_of(to) == ts + ks.subrange(0, moved),
            arena.ancestors_of(to) == a0.ancestors_of(to),
            forall|x: NodeId| a0.has(x) ==> #[trigger] arena.data_of(x) == a0.data_of(x),
            forall|x: NodeId| a0.has(x) ==> #[trigger] arena.is_dropped(x) == a0.is_dropped(x),
            forall|x: NodeId|
                a0.has(x) && x != from && x != to ==> #[trigger] arena.children_of(x) == a0.children_of(x),
            forall|x: NodeId|
                a0.has(x) ==> #[trigger] arena.parent_of(x) == if ks.subrange(0, moved).contains(x) {
                    Some(to)
                } else {
                    a0.parent_of(x)
                },
            forall|x: NodeId|
                a0.has(x) && !(a0.in_subtree(x, from) && x != from) ==> #[trigger] arena.ancestors_of(x)
                    == a0.ancestors_of(x),
        ensures
            arena.wf(),
            moved == ks.len(),
            arena.len() == a0.len(),
            arena.children_of(from) == ks.subrange(moved, ks.len() as int),
            arena.children_of(to) == ts + ks.subrange(0, moved),
            forall|x: NodeId| a0.has(x) ==> #[trigger] arena.data_of(x) == a0.data_of(x),
            forall|x: NodeId| a0.has(x) ==> #[trigger] arena.is_dropped(x) == a0.is_dropped(x),
            forall|x: NodeId|
                a0.has(x) && x != from && x != to ==> #[trigger] arena.children_of(x) == a0.children_of(x),
            forall|x: NodeId|
                a0.has(x) ==> #[trigger] arena.parent_of(x) == if ks.subrange(0, moved).contains(x) {
                    Some(to)
                } else {
                    a0.parent_of(x)
                },
            forall|x: NodeId|
                a0.has(x) && !(a0.in_subtree(x, from) && x != from) ==> #[trigger] arena.ancestors_of(x)
                    == a0.ancestors_of(x),
        decreases ks.len() - moved,
    {
        let first = arena.first_child(from);
        let c = match first {
            Some(c) => c,
            None => {
                break ;
            },
        };
        let ghost a1 = *arena;
        proof {
            a1.lemma_model();
            assert(c == ks[moved]);
            a1.lemma_position(from, 0);
            a0.lemma_position(from, moved);
            assert(a0.parent_of(c) == Some(from));
            // `c` is not above `to`
            assert(a0.under_child(from, c, moved));
            a0.lemma_subtree_children(c, from);
            if a0.in_subtree(to, c) {
                assert(a0.under_child(from, to, moved));
                a0.lemma_subtree_children(to, from);
            }
        }
        arena.detach(c);
        let ghost a2 = *arena;
        proof {
            assert(a2.ancestors_of(to) == a1.ancestors_of(to)) by {
                if a1.in_subtree(to, c) {
                    if to != c {
                        assert(a0.ancestors_of(to).contains(c));
                    }
                }
            }
            assert(a2.children_of(to) == a1.children_of(to));
            assert(a2.parent_of(c).is_none());
            assert(!a2.in_subtree(to, c));
            assert(a2.is_dropped(c) == a2.is_dropped(to)) by {
                assert(a0.is_dropped(c) == a0.is_dropped(from));
            }
        }
        arena.append(to, c);
        proof {
            let a3 = *arena;
            let m2 = moved + 1;
            assert(a3.children_of(from) =~= ks.subrange(m2, ks.len() as int)) by {
                assert(a2.children_of(from) == a1.children_of(from).remove(0));
            }
            assert(a3.children_of(to) =~= ts + ks.subrange(0, m2)) by {
                assert(a3.children_of(to) == a2.children_of(to).insert(
                    a2.children_of(to).len() as int,
                    c,
                ));
            }
            assert(ks.subrange(0, m2) =~= ks.subrange(0, moved).push(c));
            assert forall|x: NodeId| a0.has(x) implies #[trigger] a3.parent_of(x) == if ks.subrange(
                0,
                m2,
            ).contains(x) {
                Some(to)
            } else {
                a0.parent_of(x)
            } by {
                vstd::seq_lib::lemma_seq_contains_after_push(ks.subrange(0, moved), c, x);
                assert(a2.parent_of(x) == if x == c {
                    None
                } else {
                    a1.parent_of(x)
                });
            }
            assert forall|x: NodeId|
                a0.has(x) && x != from && x != to implies #[trigger] a3.children_of(x) == a0.children_of(
                x,
            ) by {
                assert(a2.children_of(x) == a1.children_of(x));
            }
            assert forall|x: NodeId| a0.has(x) implies #[trigger] a3.data_of(x) == a0.data_of(x) by {
                assert(a2.data_of(x) == a1.data_of(x));
            }
            assert forall|x: NodeId| a0.has(x) implies #[trigger] a3.is_dropped(x) == a0.is_dropped(x) by {
                assert(a2.is_dropped(x) == a1.is_dropped(x));
            }
            assert forall|x: NodeId|
                a0.has(x) && !(a0.in_subtree(x, from) && x != from) implies #[trigger] a3.ancestors_of(x)
                == a0.ancestors_of(x) by {
                assert(a1.ancestors_of(x) == a0.ancestors_of(x));
                if a1.in_subtree(x, c) {
                    assert(a0.under_child(from, x, moved));
                    a0.lemma_subtree_children(x, from);
                }
                assert(a2.ancestors_of(x) == a1.ancestors_of(x));
                if a2.in_subtree(x, c) {
                    assert(a2.ancestors_of(x).contains(c));
                }
            }
            assert(a3.ancestors_of(to) == a0.ancestors_of(to));
            moved = m2;
        }
    }
    proof {
        assert(ks.subrange(0, ks.len() as int) =~= ks);
        assert(arena.children_of(from) =~= Seq::<NodeId>::empty());
        assert forall|x: NodeId| a0.has(x) implies #[trigger] arena.parent_of(x) == if a0.parent_of(x)
            == Some(from) {
            Some(to)
        } else {
            a0.parent_of(x)
        } by {
            if ks.contains(x) {
                let j = ks.index_of(x);
                assert(a0.children_of(from)[j] == x);
            }
            if a0.parent_of(x) == Some(from) {
                assert(a0.children_of(from).contains(x));
            }
        }
    }
}


/// The old output roots of the position at `id`, where it produced `s`
/// widgets: `id` and the siblings that follow it. A node without a parent has
/// no siblings.
pub open spec fn old_roots<T>(a: &TreeArena<T>, id: NodeId, s: nat) -> Seq<NodeId> {
    match a.parent_of(id) {
        Some(p) => a.children_of(p).subrange(a.position_of(id), a.position_of(id) + s),
        None => if s == 0 {
            Seq::empty()
        } else {
            seq![id]
        },
    }
}

/// `id` and the siblings that follow it are at least `s` nodes.
pub open spec fn span_ready<T>(a: &TreeArena<T>, id: NodeId, s: nat) -> bool {
    match a.parent_of(id) {
        Some(p) => a.position_of(id) + s <= a.children_of(p).len(),
        None => s <= 1,
    }
}

/// Whether `id` and the siblings that follow it are at least `s` nodes.
pub fn check_span<T>(arena: &TreeArena<T>, id: NodeId, s: usize) -> (r: bool)
    requires
        arena.wf(),
        arena.has(id),
    ensures
        r == span_ready(arena, id, s as nat),
{
    let mut cursor = Some(id);
    let mut t: usize = 0;
    proof {
        arena.lemma_model();
        if arena.parent_of(id).is_some() {
            arena.lemma_position_of_child(id);
        }
    }
    while t < s
        invariant
            arena.wf(),
            arena.has(id),
            t <= s,
            arena.parent_of(id).is_some() ==> 0 <= arena.position_of(id),
            match arena.parent_of(id) {
                Some(p) => arena.position_of(id) + t <= arena.children_of(p).len() && cursor == seq_at(
                    arena.children_of(p),
                    arena.position_of(id) + t,
                ),
                None => t <= 1 && cursor == if t == 0 {
                    Some(id)
                } else {
                    None::<NodeId>
                },
            },
        decreases s - t,
    {
        match cursor {
            Some(o) => {
                proof {
                    arena.lemma_model();
                    if arena.parent_of(id).is_some() {
                        arena.lemma_position(arena.parent_of(id).unwrap(), arena.position_of(id) + t);
                    }
                }
                cursor = arena.next_sibling(o);
                t = t + 1;
            },
            None => {
                proof {
                    match arena.parent_of(id) {
                        Some(p) => {
                            assert(arena.position_of(id) + t >= arena.children_of(p).len());
                        },
                        None => {
                            assert(t == 1);
                        },
                    }
                }
                return false;
            },
        }
    }
    true
}

/// `id` and the siblings that follow it, `s` nodes in all.
pub fn sibling_span<T>(arena: &TreeArena<T>, id: NodeId, s: usize) -> (r: Vec<NodeId>)
    requires
        arena.wf(),
        arena.has(id),
        span_ready(arena, id, s as nat),
    ensures
        r@ == old_roots(arena, id, s as nat),
        forall|j: int| 0 <= j < r@.len() ==> arena.has(#[trigger] r@[j]),
{
    let mut out: Vec<NodeId> = Vec::new();
    let mut cursor = Some(id);
    let mut t: usize = 0;
    proof {
        arena.lemma_model();
        if arena.parent_of(id).is_some() {
            arena.lemma_position_of_child(id);
            let p = arena.parent_of(id).unwrap();
            let i = arena.position_of(id);
            assert(out@ =~= arena.children_of(p).subrange(i, i + 0));
        }
    }
    while t < s
        invariant
            arena.wf(),
            arena.has(id),
            t <= s,
            arena.parent_of(id).is_some() ==> 0 <= arena.position_of(id),
            span_ready(arena, id, s as nat),
            out@ == old_roots(arena, id, t as nat),
            forall|j: int| 0 <= j < out@.len() ==> arena.has(#[trigger] out@[j]),
            match arena.parent_of(id) {
                Some(p) => cursor == seq_at(arena.children_of(p), arena.position_of(id) + t),
                None => cursor == if t == 0 {
                    Some(id)
                } else {
                    None::<NodeId>
                },
            },
        decreases s - t,
    {
        proof {
            match arena.parent_of(id) {
                Some(p) => {
                    assert(arena.position_of(id) + t < arena.children_of(p).len());
                },
                None => {
                    assert(t == 0);
                },
            }
        }
        let o = cursor.unwrap();
        proof {
            arena.lemma_model();
            if arena.parent_of(id).is_some() {
                let p = arena.parent_of(id).unwrap();
                let i = arena.position_of(id);
                arena.lemma_position(p, i + t);
                assert(arena.children_of(p).subrange(i, i + t + 1) =~= arena.children_of(p).subrange(
                    i,
                    i + t,
                ).push(o));
            } else {
                assert(Seq::<NodeId>::empty().push(o) =~= seq![id]);
            }
        }
        out.push(o);
        cursor = arena.next_sibling(o);
        t = t + 1;
    }
    out
}

/// The disposals of the old roots, in their order.
pub open spec fn disposed_events(a: &TreeArena<RenderNode>, olds: Seq<NodeId>) -> Seq<DelayEvent> {
    Seq::new(
        olds.len(),
        |j: int| DelayEvent::Disposed { id: olds[j], delay_drop: a.data_of(olds[j]).delays_drop() },
    )
}

/// One mount for each node of `ids`, in their order.
pub open spec fn mounted_events(ids: Seq<NodeId>) -> Seq<DelayEvent> {
    Seq::new(ids.len(), |j: int| DelayEvent::Mounted(ids[j]))
}

/// `s` with those of the first `upto` old roots that delay their drop, each
/// put behind unless it is there.
pub open spec fn with_delayed(s: Seq<NodeId>, a: &TreeArena<RenderNode>, olds: Seq<NodeId>, upto: int) -> Seq<
    NodeId,
>
    decreases upto,
{
    if upto <= 0 {
        s
    } else {
        let prev = with_delayed(s, a, olds, upto - 1);
        if a.data_of(olds[upto - 1]).delays_drop() {
            with_member(prev, olds[upto - 1])
        } else {
            prev
        }
    }
}

/// The old root at position `c` was removed for good, and `x` lies in what
/// is left of its subtree.
pub open spec fn removed_under(
    b: &TreeArena<RenderNode>,
    a: &TreeArena<RenderNode>,
    olds: Seq<NodeId>,
    c: int,
    x: NodeId,
) -> bool {
    !a.data_of(olds[c]).delays_drop() && b.in_subtree(x, olds[c])
}

/// `x` lies in what is left of the subtree of one of the first `upto` old
/// roots that were removed for good.
pub open spec fn dropped_by(
    b: &TreeArena<RenderNode>,
    a: &TreeArena<RenderNode>,
    olds: Seq<NodeId>,
    upto: int,
    x: NodeId,
) -> bool {
    exists|c: int| 0 <= c < upto && c < olds.len() && #[trigger] removed_under(b, a, olds, c, x)
}

/// The forest `b` is the forest `a` with the roots `news` in the place of
/// the old roots `olds`, which start at `id`: under the parent of `id` where
/// it has one. Every old root is a tree of its own; those that do not delay
/// their drop are dropped with their subtrees. No payload changed.
pub open spec fn whole_spliced(
    b: &TreeArena<RenderNode>,
    a: &TreeArena<RenderNode>,
    id: NodeId,
    olds: Seq<NodeId>,
    news: Seq<NodeId>,
) -> bool {
    let p = a.parent_of(id);
    let i = a.position_of(id);
    &&& b.len() == a.len()
    &&& forall|x: NodeId| a.has(x) ==> #[trigger] b.data_of(x) == a.data_of(x)
    &&& forall|x: NodeId|
        a.has(x) ==> #[trigger] b.children_of(x) == if p == Some(x) {
            a.children_of(x).subrange(0, i) + news + a.children_of(x).subrange(
                i + olds.len(),
                a.children_of(x).len() as int,
            )
        } else {
            a.children_of(x)
        }
    &&& forall|x: NodeId|
        a.has(x) ==> #[trigger] b.parent_of(x) == if news.contains(x) {
            p
        } else if olds.contains(x) {
            None
        } else {
            a.parent_of(x)
        }
    &&& forall|x: NodeId|
        a.has(x) ==> #[trigger] b.is_dropped(x) == (a.is_dropped(x) || dropped_by(
            b,
            a,
            olds,
            olds.len() as int,
            x,
        ))
}


/// The forest `b` is the forest `a` with the roots `news` put, in their
/// order, just before `id` among the children of its parent. Nothing else
/// changed, and no node allocated before `mark` has other ancestors.
pub open spec fn roots_inserted(
    b: &TreeArena<RenderNode>,
    a: &TreeArena<RenderNode>,
    id: NodeId,
    news: Seq<NodeId>,
    mark: nat,
) -> bool {
    let p = a.parent_of(id);
    let i = a.position_of(id);
    &&& b.len() == a.len()
    &&& forall|x: NodeId| a.has(x) ==> #[trigger] b.data_of(x) == a.data_of(x)
    &&& forall|x: NodeId| a.has(x) ==> #[trigger] b.is_dropped(x) == a.is_dropped(x)
    &&& forall|x: NodeId|
        a.has(x) ==> #[trigger] b.children_of(x) == if p == Some(x) {
            a.children_of(x).subrange(0, i) + news + a.children_of(x).subrange(
                i,
                a.children_of(x).len() as int,
            )
        } else {
            a.children_of(x)
        }
    &&& forall|x: NodeId|
        a.has(x) ==> #[trigger] b.parent_of(x) == if news.contains(x) {
            p
        } else {
            a.parent_of(x)
        }
    &&& forall|x: NodeId| a.has(x) && x.index < mark ==> #[trigger] b.ancestors_of(x) == a.ancestors_of(x)
}

/// Puts the roots `news`, in their order, just before `id`.
pub fn insert_roots_before(
    arena: &mut TreeArena<RenderNode>,
    id: NodeId,
    news: &Vec<NodeId>,
    Ghost(mark): Ghost<nat>,
)
    requires
        old(arena).wf(),
        old(arena).contains(id),
        id.index < mark,
        old(arena).parent_of(id).is_some(),
        generations_apart(old(arena), mark),
        news@.no_duplicates(),
        forall|k: int|
            0 <= k < news@.len() ==> {
                &&& old(arena).contains(#[trigger] news@[k])
                &&& news@[k].index >= mark
                &&& old(arena).parent_of(news@[k]).is_none()
            },
    ensures
        final(arena).wf(),
        roots_inserted(final(arena), old(arena), id, news@, mark),
{
    let ghost a = *arena;
    let ghost p = a.parent_of(id).unwrap();
    let ghost i = a.position_of(id);
    let ghost kids = a.children_of(p);
    let ghost ns = news@;
    proof {
        a.lemma_position_of_child(id);
        assert(kids.subrange(0, i) + ns.subrange(0, 0) + kids.subrange(i, kids.len() as int) =~= kids);
    }
    let mut k: usize = 0;
    while k < news.len()
        invariant
            k <= news.len(),
            ns == news@,
            a.wf(),
            a.contains(id),
            id.index < mark,
            a.parent_of(id) == Some(p),
            i == a.position_of(id),
            0 <= i < kids.len(),
            kids == a.children_of(p),
            kids[i] == id,
            a.has(p),
            generations_apart(&a, mark),
            ns.no_duplicates(),
            forall|m: int|
                0 <= m < ns.len() ==> {
                    &&& a.contains(#[trigger] ns[m])
                    &&& ns[m].index >= mark
                    &&& a.parent_of(ns[m]).is_none()
                },
            arena.wf(),
            arena.len() == a.len(),
            forall|x: NodeId| a.has(x) ==> #[trigger] arena.data_of(x) == a.data_of(x),
            forall|x: NodeId| a.has(x) ==> #[trigger] arena.is_dropped(x) == a.is_dropped(x),
            arena.children_of(p) == kids.subrange(0, i) + ns.subrange(0, k as int) + kids.subrange(
                i,
                kids.len() as int,
            ),
            forall|x: NodeId| a.has(x) && x != p ==> #[trigger] arena.children_of(x) == a.children_of(x),
            forall|x: NodeId|
                a.has(x) ==> #[trigger] arena.parent_of(x) == if ns.subrange(0, k as int).contains(x) {
                    Some(p)
                } else {
                    a.parent_of(x)
                },
            forall|x: NodeId|
                a.has(x) && x.index < mark ==> #[trigger] arena.ancestors_of(x) == a.ancestors_of(x),
        decreases news.len() - k,
    {
        let n = news[k];
        let ghost s0 = *arena;
        proof {
            let cur = s0.children_of(p);
            assert(cur[i + k] == id);
            s0.lemma_position(p, i + k);
            assert(!ns.subrange(0, k as int).contains(n)) by {
                if ns.subrange(0, k as int).contains(n) {
                    let m = ns.subrange(0, k as int).index_of(n);
                    assert(ns[m] == n);
                }
            }
            assert(s0.parent_of(n).is_none());
            assert(!ns.subrange(0, k as int).contains(id)) by {
                if ns.subrange(0, k as int).contains(id) {
                    let m = ns.subrange(0, k as int).index_of(id);
                    assert(ns[m] == id);
                }
            }
            assert(s0.ancestors_of(id) == a.ancestors_of(id));
            assert(!s0.ancestors_of(id).contains(n)) by {
                if a.ancestors_of(id).contains(n) {
                    let m = a.ancestors_of(id).index_of(n);
                    assert(a.ancestors_of(id)[m].index < mark);
                }
            }
        }
        arena.insert_before(id, n);
        proof {
            let s1 = *arena;
            let cur = s0.children_of(p);
            assert(s1.children_of(p) =~= kids.subrange(0, i) + ns.subrange(0, k + 1) + kids.subrange(
                i,
                kids.len() as int,
            )) by {
                assert(s1.children_of(p) == cur.insert(i + k, n));
            }
            assert(ns.subrange(0, k + 1) =~= ns.subrange(0, k as int).push(n));
            assert forall|x: NodeId| a.has(x) implies #[trigger] s1.parent_of(x) == if ns.subrange(
                0,
                k + 1,
            ).contains(x) {
                Some(p)
            } else {
                a.parent_of(x)
            } by {
                vstd::seq_lib::lemma_seq_contains_after_push(ns.subrange(0, k as int), n, x);
            }
            assert forall|x: NodeId| a.has(x) && x != p implies #[trigger] s1.children_of(x)
                == a.children_of(x) by {
                assert(s0.children_of(x) == a.children_of(x));
            }
            assert forall|x: NodeId| a.has(x) implies #[trigger] s1.data_of(x) == a.data_of(x) by {
                assert(s0.data_of(x) == a.data_of(x));
            }
            assert forall|x: NodeId| a.has(x) implies #[trigger] s1.is_dropped(x) == a.is_dropped(x) by {
                assert(s0.is_dropped(x) == a.is_dropped(x));
            }
            assert forall|x: NodeId| a.has(x) && x.index < mark implies #[trigger] s1.ancestors_of(x)
                == a.ancestors_of(x) by {
                assert(s0.ancestors_of(x) == a.ancestors_of(x));
                if s0.in_subtree(x, n) {
                    let m = a.ancestors_of(x).index_of(n);
                    assert(a.ancestors_of(x)[m].index < mark);
                }
            }
        }
        k = k + 1;
    }
    proof {
        assert(ns.subrange(0, ns.len() as int) =~= ns);
        assert forall|x: NodeId| a.has(x) implies #[trigger] arena.children_of(x) == if a.parent_of(id)
            == Some(x) {
            a.children_of(x).subrange(0, i) + ns + a.children_of(x).subrange(
                i,
                a.children_of(x).len() as int,
            )
        } else {
            a.children_of(x)
        } by {}
    }
}

/// The forest `b` is the forest `a` with the nodes of `olds`, which stand
/// from position `q` on among the children of one parent, or are one node
/// without a parent, each made a tree of its own. Those that do not delay
/// their drop are dropped with their subtrees. No payload changed.
pub open spec fn roots_removed(
    b: &TreeArena<RenderNode>,
    a: &TreeArena<RenderNode>,
    olds: Seq<NodeId>,
    q: int,
) -> bool {
    let p = if olds.len() > 0 {
        a.parent_of(olds[0])
    } else {
        None
    };
    &&& b.len() == a.len()
    &&& forall|x: NodeId| a.has(x) ==> #[trigger] b.data_of(x) == a.data_of(x)
    &&& forall|x: NodeId|
        a.has(x) ==> #[trigger] b.children_of(x) == if p == Some(x) {
            a.children_of(x).subrange(0, q) + a.children_of(x).subrange(
                q + olds.len(),
                a.children_of(x).len() as int,
            )
        } else {
            a.children_of(x)
        }
    &&& forall|x: NodeId|
        a.has(x) ==> #[trigger] b.parent_of(x) == if olds.contains(x) {
            None
        } else {
            a.parent_of(x)
        }
    &&& forall|x: NodeId|
        a.has(x) ==> #[trigger] b.is_dropped(x) == (a.is_dropped(x) || dropped_by(
            b,
            a,
            olds,
            olds.len() as int,
            x,
        ))
    &&& match p {
        Some(p) => b.ancestors_of(p) == a.ancestors_of(p),
        None => true,
    }
}

/// The old roots stand from position `q` on among the children of one
/// parent, or are at most one node without a parent.
pub open spec fn roots_in_a_row(a: &TreeArena<RenderNode>, olds: Seq<NodeId>, q: int) -> bool {
    &&& forall|j: int| 0 <= j < olds.len() ==> a.has(#[trigger] olds[j])
    &&& olds.len() > 0 ==> match a.parent_of(olds[0]) {
        Some(p) => 0 <= q && q + olds.len() <= a.children_of(p).len() && a.children_of(p).subrange(
            q,
            q + olds.len(),
        ) == olds,
        None => olds.len() == 1,
    }
}

/// Where the removal of the old roots stands after the first `j` of them.
spec fn removal_at(
    s: &TreeArena<RenderNode>,
    a: &TreeArena<RenderNode>,
    olds: Seq<NodeId>,
    q: int,
    j: int,
) -> bool {
    let p = if olds.len() > 0 {
        a.parent_of(olds[0])
    } else {
        None
    };
    &&& s.len() == a.len()
    &&& forall|x: NodeId| a.has(x) ==> #[trigger] s.data_of(x) == a.data_of(x)
    &&& forall|x: NodeId|
        a.has(x) ==> #[trigger] s.children_of(x) == if p == Some(x) {
            a.children_of(x).subrange(0, q) + a.children_of(x).subrange(
                q + j,
                a.children_of(x).len() as int,
            )
        } else {
            a.children_of(x)
        }
    &&& forall|x: NodeId|
        a.has(x) ==> #[trigger] s.parent_of(x) == if olds.subrange(0, j).contains(x) {
            None
        } else {
            a.parent_of(x)
        }
    &&& forall|x: NodeId|
        a.has(x) ==> #[trigger] s.is_dropped(x) == (a.is_dropped(x) || dropped_by(s, a, olds, j, x))
    &&& match p {
        Some(p) => s.ancestors_of(p) == a.ancestors_of(p),
        None => true,
    }
}

/// One removal: from the state `s`, in which the first `j` old roots are
/// removed, to the state `t`, in which the next one is removed too.
proof fn lemma_removal_step(
    a: &TreeArena<RenderNode>,
    s: &TreeArena<RenderNode>,
    t: &TreeArena<RenderNode>,
    olds: Seq<NodeId>,
    q: int,
    j: int,
)
    requires
        a.wf(),
        s.wf(),
        t.wf(),
        roots_in_a_row(a, olds, q),
        0 <= j < olds.len(),
        removal_at(s, a, olds, q, j),
        t.unlinked_from(s, olds[j]),
        forall|x: NodeId|
            s.has(x) ==> #[trigger] t.is_dropped(x) == (s.is_dropped(x) || (!a.data_of(
                olds[j],
            ).delays_drop() && s.in_subtree(x, olds[j]))),
    ensures
        removal_at(t, a, olds, q, j + 1),
{
    let o = olds[j];
    let n = olds.len() as int;
    a.lemma_model();
    s.lemma_model();
    let po = a.parent_of(olds[0]);
    assert(olds.subrange(0, j + 1) =~= olds.subrange(0, j).push(o));
    s.lemma_unlink_same_subtree(t, o);
    match po {
        Some(p) => {
            let kids = a.children_of(p);
            assert forall|c: int| 0 <= c < n implies olds[c] == kids[q + c] by {
                assert(kids.subrange(q, q + n)[c] == kids[q + c]);
            }
            assert forall|c: int| 0 <= c < n implies a.parent_of(#[trigger] olds[c]) == Some(p) by {
                assert(olds[c] == kids[q + c]);
            }
            assert(!olds.subrange(0, j).contains(o)) by {
                if olds.subrange(0, j).contains(o) {
                    let c = olds.subrange(0, j).index_of(o);
                    assert(olds[c] == o);
                    assert(kids[q + c] == kids[q + j]);
                }
            }
            assert(s.parent_of(o) == Some(p));
            let cur = s.children_of(p);
            assert(cur[q] == o);
            s.lemma_position(p, q);
            assert(t.children_of(p) =~= kids.subrange(0, q) + kids.subrange(q + j + 1, kids.len() as int))
                by {
                assert(t.children_of(p) == cur.remove(q));
            }
            // the ancestors of the parent stay
            a.lemma_acyclic(o);
            assert(a.ancestors_of(o) == seq![p] + a.ancestors_of(p));
            assert(!s.in_subtree(p, o)) by {
                if p == o {
                    assert(a.ancestors_of(o)[0] == o);
                }
                if s.ancestors_of(p).contains(o) {
                    let m = a.ancestors_of(p).index_of(o);
                    assert(a.ancestors_of(o)[m + 1] == o);
                }
            }
            // the trees of the roots that are out already stay
            assert forall|c: int, x: NodeId| 0 <= c < j && a.has(x) implies t.in_subtree(x, olds[c])
                == s.in_subtree(x, olds[c]) by {
                let y = olds[c];
                assert(olds.subrange(0, j)[c] == y);
                assert(s.parent_of(y).is_none());
                a.lemma_acyclic(y);
                assert(a.ancestors_of(y) == seq![p] + a.ancestors_of(p));
                assert(s.ancestors_of(o) == seq![p] + s.ancestors_of(p));
                assert(!s.in_subtree(o, y)) by {
                    if o == y {
                        assert(kids[q + c] == kids[q + j]);
                    }
                    if s.ancestors_of(o).contains(y) {
                        let m = s.ancestors_of(o).index_of(y);
                        if m == 0 {
                            assert(a.ancestors_of(y)[0] == y);
                        } else {
                            assert(a.ancestors_of(p)[m - 1] == y);
                            assert(a.ancestors_of(y)[m] == y);
                        }
                    }
                }
                s.lemma_unlink_other_root(t, o, y);
            }
        },
        None => {
            assert(j == 0);
            assert(olds.subrange(0, 0) =~= Seq::<NodeId>::empty());
            assert(s.parent_of(o).is_none());
        },
    }
    assert forall|x: NodeId| a.has(x) implies #[trigger] t.parent_of(x) == if olds.subrange(
        0,
        j + 1,
    ).contains(x) {
        None
    } else {
        a.parent_of(x)
    } by {
        vstd::seq_lib::lemma_seq_contains_after_push(olds.subrange(0, j), o, x);
    }
    assert forall|x: NodeId| a.has(x) implies #[trigger] t.children_of(x) == if po == Some(x) {
        a.children_of(x).subrange(0, q) + a.children_of(x).subrange(
            q + j + 1,
            a.children_of(x).len() as int,
        )
    } else {
        a.children_of(x)
    } by {
        if po != Some(x) {
            assert(s.children_of(x) == a.children_of(x));
        }
    }
    assert forall|x: NodeId| a.has(x) implies #[trigger] t.data_of(x) == a.data_of(x) by {
        assert(s.data_of(x) == a.data_of(x));
    }
    assert forall|x: NodeId| a.has(x) implies #[trigger] t.is_dropped(x) == (a.is_dropped(x)
        || dropped_by(t, a, olds, j + 1, x)) by {
        assert(s.is_dropped(x) == (a.is_dropped(x) || dropped_by(s, a, olds, j, x)));
        assert(t.in_subtree(x, o) == s.in_subtree(x, o));
        if dropped_by(s, a, olds, j, x) {
            let c = choose|c: int| 0 <= c < j && c < olds.len() && #[trigger] removed_under(s, a, olds, c, x);
            assert(t.in_subtree(x, olds[c]) == s.in_subtree(x, olds[c]));
            assert(removed_under(t, a, olds, c, x));
        }
        if !a.data_of(o).delays_drop() && s.in_subtree(x, o) {
            assert(removed_under(t, a, olds, j, x));
        }
        if dropped_by(t, a, olds, j + 1, x) {
            let c = choose|c: int|
                0 <= c < j + 1 && c < olds.len() && #[trigger] removed_under(t, a, olds, c, x);
            if c < j {
                assert(t.in_subtree(x, olds[c]) == s.in_subtree(x, olds[c]));
                assert(removed_under(s, a, olds, c, x));
            }
        }
    }
}

/// Takes the old roots out of the tree, one after the other: each is
/// notified as disposed, and is then dropped with its subtree or, where it
/// delays its drop, detached to linger in `host`.
pub fn remove_old_roots(tree: &mut WidgetTree, olds: &Vec<NodeId>, host: &mut WidgetsHost, Ghost(q): Ghost<int>)
    requires
        old(tree).arena.wf(),
        roots_in_a_row(&old(tree).arena, olds@, q),
    ensures
        final(tree).arena.wf(),
        final(tree).root == old(tree).root,
        roots_removed(&final(tree).arena, &old(tree).arena, olds@, q),
        final(tree).delay_events@ == old(tree).delay_events@ + disposed_events(&old(tree).arena, olds@),
        final(host)@ == with_delayed(old(host)@, &old(tree).arena, olds@, olds@.len() as int),
        final(tree).dirty_set@ == with_delayed(
            old(tree).dirty_set@,
            &old(tree).arena,
            olds@,
            olds@.len() as int,
        ),
{
    let ghost a = old(tree).arena;
    let ghost os = olds@;
    let ghost ev0 = tree.delay_events@;
    let ghost host0 = host@;
    let ghost dirty0 = tree.dirty_set@;
    let mut j: usize = 0;
    proof {
        assert(os.subrange(0, 0) =~= Seq::<NodeId>::empty());
        assert(ev0 + disposed_events(&a, os).subrange(0, 0) =~= ev0);
        if os.len() > 0 {
            match a.parent_of(os[0]) {
                Some(p) => {
                    let kids = a.children_of(p);
                    assert(kids.subrange(0, q) + kids.subrange(q + 0, kids.len() as int) =~= kids);
                },
                None => {},
            }
        }
        assert forall|x: NodeId| a.has(x) implies !dropped_by(&a, &a, os, 0, x) by {}
    }
    while j < olds.len()
        invariant
            j <= olds.len(),
            os == olds@,
            a.wf(),
            tree.arena.wf(),
            tree.root == old(tree).root,
            roots_in_a_row(&a, os, q),
            removal_at(&tree.arena, &a, os, q, j as int),
            tree.delay_events@ == ev0 + disposed_events(&a, os).subrange(0, j as int),
            host@ == with_delayed(host0, &a, os, j as int),
            tree.dirty_set@ == with_delayed(dirty0, &a, os, j as int),
        decreases olds.len() - j,
    {
        let o = olds[j];
        let ghost s = tree.arena;
        proof {
            assert(s.data_of(o) == a.data_of(o));
        }
        DynRender::remove_old_subtree(tree, o, host);
        proof {
            let t = tree.arena;
            assert(disposed_events(&a, os).subrange(0, j + 1) =~= disposed_events(&a, os).subrange(
                0,
                j as int,
            ).push(disposed_events(&a, os)[j as int]));
            assert(tree.delay_events@ =~= ev0 + disposed_events(&a, os).subrange(0, j + 1));
            lemma_removal_step(&a, &s, &t, os, q, j as int);
        }
        j = j + 1;
    }
    proof {
        assert(os.subrange(0, os.len() as int) =~= os);
        assert(disposed_events(&a, os).subrange(0, os.len() as int) =~= disposed_events(&a, os));
    }
}

/// Notifies a mount for each node of `ids`, in their order.
pub fn push_mounted(events: &mut Vec<DelayEvent>, ids: &Vec<NodeId>)
    ensures
        final(events)@ == old(events)@ + mounted_events(ids@),
{
    let ghost ev0 = events@;
    let mut k: usize = 0;
    proof {
        assert(events@ =~= ev0 + mounted_events(ids@).subrange(0, 0));
    }
    while k < ids.len()
        invariant
            k <= ids.len(),
            events@ == ev0 + mounted_events(ids@).subrange(0, k as int),
        decreases ids.len() - k,
    {
        events.push(DelayEvent::Mounted(ids[k]));
        proof {
            assert(events@ =~= ev0 + mounted_events(ids@).subrange(0, k + 1));
        }
        k = k + 1;
    }
    proof {
        assert(mounted_events(ids@).subrange(0, ids@.len() as int) =~= mounted_events(ids@));
    }
}


/// Puts the roots `news` in the place of the old roots `olds`, which start
/// at `id`, removes the old roots and notifies a mount for every node of the
/// new subtrees, in document order.
pub fn splice_whole_subtree(
    tree: &mut WidgetTree,
    id: NodeId,
    olds: &Vec<NodeId>,
    news: &Vec<NodeId>,
    host: &mut WidgetsHost,
    Ghost(mark): Ghost<nat>,
) -> (mounted: Vec<NodeId>)
    requires
        old(tree).arena.wf(),
        old(tree).arena.contains(id),
        id.index < mark,
        generations_apart(&old(tree).arena, mark),
        span_ready(&old(tree).arena, id, olds@.len()),
        olds@ == old_roots(&old(tree).arena, id, olds@.len()),
        news@.no_duplicates(),
        forall|k: int|
            0 <= k < news@.len() ==> {
                &&& old(tree).arena.contains(#[trigger] news@[k])
                &&& news@[k].index >= mark
                &&& old(tree).arena.parent_of(news@[k]).is_none()
            },
        old(tree).arena.parent_of(id).is_none() ==> news@.len() <= 1,
    ensures
        final(tree).arena.wf(),
        final(tree).root == old(tree).root,
        mounted@ == final(tree).arena.forest_of(news@, 0),
        whole_spliced(&final(tree).arena, &old(tree).arena, id, olds@, news@),
        forall|k: int| 0 <= k < news@.len() ==> !final(tree).arena.is_dropped(#[trigger] news@[k]),
        final(tree).delay_events@ == old(tree).delay_events@ + disposed_events(&old(tree).arena, olds@)
            + mounted_events(final(tree).arena.forest_of(news@, 0)),
        final(host)@ == with_delayed(old(host)@, &old(tree).arena, olds@, olds@.len() as int),
        final(tree).dirty_set@ == with_delayed(
            old(tree).dirty_set@,
            &old(tree).arena,
            olds@,
            olds@.len() as int,
        ),
{
    let ghost a = tree.arena;
    let ghost os = olds@;
    let ghost ns = news@;
    let parent = tree.arena.parent(id);
    proof {
        a.lemma_model();
        if a.parent_of(id).is_some() {
            a.lemma_position_of_child(id);
        }
    }
    if parent.is_some() {
        insert_roots_before(&mut tree.arena, id, news, Ghost(mark));
    }
    let ghost s1 = tree.arena;
    let ghost q = if a.parent_of(id).is_some() {
        a.position_of(id) + ns.len()
    } else {
        0
    };
    proof {
        match a.parent_of(id) {
            Some(p) => {
                let kids = a.children_of(p);
                let i = a.position_of(id);
                let cur = s1.children_of(p);
                assert(cur =~= kids.subrange(0, i) + ns + kids.subrange(i, kids.len() as int));
                assert(cur.subrange(q, q + os.len()) =~= os);
                assert forall|j: int| 0 <= j < os.len() implies s1.has(#[trigger] os[j]) && !ns.contains(
                    os[j],
                ) by {
                    assert(os[j] == kids[i + j]);
                    if ns.contains(os[j]) {
                        let m = ns.index_of(os[j]);
                        assert(a.parent_of(ns[m]).is_none());
                    }
                }
                if os.len() > 0 {
                    assert(os[0] == id);
                    assert(s1.parent_of(os[0]) == Some(p));
                }
            },
            None => {
                assert(s1 == a);
            },
        }
        assert(roots_in_a_row(&s1, os, q));
        assert forall|j: int| 0 <= j < os.len() implies s1.data_of(#[trigger] os[j]) == a.data_of(os[j]) by {}
        assert(disposed_events(&s1, os) =~= disposed_events(&a, os));
        lemma_with_delayed_same(host@, &s1, &a, os, os.len() as int);
        lemma_with_delayed_same(tree.dirty_set@, &s1, &a, os, os.len() as int);
    }
    remove_old_roots(tree, olds, host, Ghost(q));
    let ghost s2 = tree.arena;
    let mut mounted: Vec<NodeId> = Vec::new();
    tree.arena.collect_forest(news, &mut mounted);
    proof {
        assert(mounted@ =~= s2.forest_of(ns, 0));
    }
    push_mounted(&mut tree.delay_events, &mounted);
    proof {
        let b = tree.arena;
        // the children
        assert forall|x: NodeId| a.has(x) implies #[trigger] b.children_of(x) == if a.parent_of(id)
            == Some(x) {
            a.children_of(x).subrange(0, a.position_of(id)) + ns + a.children_of(x).subrange(
                a.position_of(id) + os.len(),
                a.children_of(x).len() as int,
            )
        } else {
            a.children_of(x)
        } by {
            match a.parent_of(id) {
                Some(p) => {
                    let kids = a.children_of(p);
                    let i = a.position_of(id);
                    if x == p {
                        let cur = s1.children_of(p);
                        assert(cur =~= kids.subrange(0, i) + ns + kids.subrange(i, kids.len() as int));
                        if os.len() > 0 {
                            assert(b.children_of(p) =~= kids.subrange(0, i) + ns + kids.subrange(
                                i + os.len(),
                                kids.len() as int,
                            ));
                        } else {
                            assert(kids.subrange(i + 0, kids.len() as int) =~= kids.subrange(
                                i,
                                kids.len() as int,
                            ));
                        }
                    } else {
                        assert(s1.children_of(x) == a.children_of(x));
                        if os.len() > 0 {
                            assert(s1.parent_of(os[0]) == Some(p));
                        }
                    }
                },
                None => {
                    if os.len() > 0 {
                        assert(s1.parent_of(os[0]).is_none());
                    }
                },
            }
        }
        // the parents
        assert forall|x: NodeId| a.has(x) implies #[trigger] b.parent_of(x) == if ns.contains(x) {
            a.parent_of(id)
        } else if os.contains(x) {
            None
        } else {
            a.parent_of(x)
        } by {
            if os.contains(x) {
                let j = os.index_of(x);
                assert(os[j] == x);
                match a.parent_of(id) {
                    Some(p) => {
                        let kids = a.children_of(p);
                        assert(os[j] == kids[a.position_of(id) + j]);
                        if ns.contains(x) {
                            let m = ns.index_of(x);
                            assert(a.parent_of(ns[m]).is_none());
                        }
                    },
                    None => {
                        if ns.contains(x) {
                            let m = ns.index_of(x);
                            assert(ns[m].index >= mark);
                        }
                    },
                }
            }
            if ns.contains(x) && a.parent_of(id).is_none() {
                let m = ns.index_of(x);
                assert(a.parent_of(ns[m]).is_none());
            }
        }
        // what was dropped
        assert forall|x: NodeId| a.has(x) implies #[trigger] b.is_dropped(x) == (a.is_dropped(x)
            || dropped_by(&b, &a, os, os.len() as int, x)) by {
            assert(s1.is_dropped(x) == a.is_dropped(x));
            assert(b.is_dropped(x) == (s1.is_dropped(x) || dropped_by(&b, &s1, os, os.len() as int, x)));
            if dropped_by(&b, &s1, os, os.len() as int, x) {
                let c = choose|c: int|
                    0 <= c < os.len() && c < os.len() && #[trigger] removed_under(&b, &s1, os, c, x);
                assert(removed_under(&b, &a, os, c, x));
            }
            if dropped_by(&b, &a, os, os.len() as int, x) {
                let c = choose|c: int|
                    0 <= c < os.len() && c < os.len() && #[trigger] removed_under(&b, &a, os, c, x);
                assert(removed_under(&b, &s1, os, c, x));
            }
        }
        // the new roots are live
        assert forall|k: int| 0 <= k < ns.len() implies !b.is_dropped(#[trigger] ns[k]) by {
            let x = ns[k];
            assert(!a.is_dropped(x));
            if dropped_by(&b, &a, os, os.len() as int, x) {
                let c = choose|c: int|
                    0 <= c < os.len() && c < os.len() && #[trigger] removed_under(&b, &a, os, c, x);
                let o = os[c];
                assert(b.parent_of(o).is_none()) by {
                    assert(os.contains(o));
                    if ns.contains(o) {
                        let m = ns.index_of(o);
                        assert(ns[m].index >= mark);
                        match a.parent_of(id) {
                            Some(p) => {
                                assert(a.parent_of(ns[m]).is_none());
                                assert(os[c] == a.children_of(p)[a.position_of(id) + c]);
                            },
                            None => {},
                        }
                    }
                }
                b.lemma_model();
                assert(b.parent_of(x) == a.parent_of(id));
                if x == o {
                    match a.parent_of(id) {
                        Some(p) => {},
                        None => {
                            assert(o == id);
                        },
                    }
                } else {
                    // `x` would lie below a root that was taken out, but it is a
                    // root itself or a child of the parent, which was not
                    let anc = b.ancestors_of(x);
                    match a.parent_of(id) {
                        Some(p) => {
                            assert(anc == seq![p] + b.ancestors_of(p));
                            assert(os[c] == a.children_of(p)[a.position_of(id) + c]);
                            a.lemma_acyclic(o);
                            assert(a.ancestors_of(o) == seq![p] + a.ancestors_of(p));
                            assert(p.index < mark) by {
                                assert(a.ancestors_of(id)[0] == p);
                            }
                            assert(s1.ancestors_of(p) == a.ancestors_of(p));
                            assert(os.len() > 0);
                            assert(s1.parent_of(os[0]) == Some(p));
                            assert(b.ancestors_of(p) == s1.ancestors_of(p));
                            let m = anc.index_of(o);
                            assert(a.ancestors_of(o)[m] == o);
                        },
                        None => {
                            assert(anc == Seq::<NodeId>::empty());
                        },
                    }
                }
            }
        }
    }
    mounted
}

/// Which old roots delay their drop does not depend on the arena the
/// payloads are read from, where the payloads are the same.
pub proof fn lemma_with_delayed_same(
    s: Seq<NodeId>,
    a: &TreeArena<RenderNode>,
    b: &TreeArena<RenderNode>,
    olds: Seq<NodeId>,
    upto: int,
)
    requires
        upto <= olds.len(),
        forall|j: int|
            0 <= j < olds.len() ==> a.data_of(#[trigger] olds[j]).delays_drop() == b.data_of(
                olds[j],
            ).delays_drop(),
    ensures
        with_delayed(s, a, olds, upto) == with_delayed(s, b, olds, upto),
    decreases upto,
{
    if upto > 0 {
        lemma_with_delayed_same(s, a, b, olds, upto - 1);
    }
}


/// The nodes from `id` down the first children, `m` steps in all: `id`
/// first, the node that the last step leads to last.
pub open spec fn chain_seq<T>(a: &TreeArena<T>, id: NodeId, m: nat) -> Seq<NodeId> {
    Seq::new(m + 1, |t: int| descend(a, id, t as nat).unwrap())
}

/// The nodes from `id` down the only children, `steps` steps in all.
pub fn chain_of(id: NodeId, arena: &TreeArena<RenderNode>, steps: usize) -> (r: Vec<NodeId>)
    requires
        arena.wf(),
        arena.has(id),
        single_path(arena, id, steps as nat),
    ensures
        r@ == chain_seq(arena, id, steps as nat),
        forall|t: int| 0 <= t < r@.len() ==> arena.has(#[trigger] r@[t]),
{
    let mut out: Vec<NodeId> = Vec::new();
    out.push(id);
    let mut cur = id;
    let mut t: usize = 0;
    while t < steps
        invariant
            arena.wf(),
            arena.has(id),
            arena.has(cur),
            single_path(arena, id, steps as nat),
            t <= steps,
            descend(arena, id, t as nat) == Some(cur),
            out@.len() == t + 1,
            forall|u: int| 0 <= u <= t ==> descend(arena, id, u as nat) == Some(#[trigger] out@[u]),
            forall|u: int| 0 <= u <= t ==> arena.has(#[trigger] out@[u]),
        decreases steps - t,
    {
        proof {
            lemma_descend_step(arena, id, t as nat);
            assert(match descend(arena, id, t as nat) {
                Some(n) => arena.children_of(n).len() == 1,
                None => false,
            });
        }
        let c = arena.single_child(cur).unwrap();
        out.push(c);
        cur = c;
        t = t + 1;
    }
    proof {
        assert(out@ =~= chain_seq(arena, id, steps as nat));
    }
    out
}

/// What `single_down` asks of the path from `id`: the first `down` steps
/// but the last start at a node with exactly one child, and the last at a
/// node with at most one.
pub open spec fn walk_ready<T>(a: &TreeArena<T>, id: NodeId, down: nat) -> bool {
    &&& down > 0 ==> single_path(a, id, (down - 1) as nat)
    &&& forall|t: nat|
        t < down ==> match #[trigger] descend(a, id, t) {
            Some(n) => a.children_of(n).len() <= 1,
            None => true,
        }
}

/// The forest `b` is the forest `a` with the root `r` in the place of `id`
/// and the children of `dcp`, if there is such a node, moved below `leaf`.
/// `id` is a tree of its own, dropped with what is left of its subtree
/// unless it delays its drop. No payload changed.
pub open spec fn depth_spliced(
    b: &TreeArena<RenderNode>,
    a: &TreeArena<RenderNode>,
    id: NodeId,
    r: NodeId,
    dcp: Option<NodeId>,
    leaf: NodeId,
) -> bool {
    let p = a.parent_of(id);
    let i = a.position_of(id);
    let moved = match dcp {
        Some(d) => a.children_of(d),
        None => Seq::empty(),
    };
    &&& b.len() == a.len()
    &&& forall|x: NodeId| a.has(x) ==> #[trigger] b.data_of(x) == a.data_of(x)
    &&& forall|x: NodeId|
        a.has(x) ==> #[trigger] b.children_of(x) == if p == Some(x) {
            a.children_of(x).update(i, r)
        } else if x == leaf {
            a.children_of(leaf) + moved
        } else if dcp == Some(x) {
            Seq::empty()
        } else {
            a.children_of(x)
        }
    &&& forall|x: NodeId|
        a.has(x) ==> #[trigger] b.parent_of(x) == if x == r {
            p
        } else if x == id {
            None
        } else if dcp.is_some() && a.parent_of(x) == dcp {
            Some(leaf)
        } else {
            a.parent_of(x)
        }
    &&& forall|x: NodeId|
        a.has(x) ==> #[trigger] b.is_dropped(x) == (a.is_dropped(x) || (!a.data_of(id).delays_drop()
            && b.in_subtree(x, id)))
}

/// Puts the new root `r` in the place of `id`: the static children, which
/// hang `down` steps below `id`, are moved below the leaf of the chain of
/// `r` and keep their handles; `r` takes the place of `id` among its
/// siblings; `id` is removed; a mount is notified for every node of the
/// chain, from `r` down. Returns the distance from `r` to the static
/// children.
pub fn splice_dyn_depth(
    tree: &mut WidgetTree,
    id: NodeId,
    r: NodeId,
    down: usize,
    host: &mut WidgetsHost,
    Ghost(mark): Ghost<nat>,
) -> (res: (usize, Vec<NodeId>))
    requires
        old(tree).arena.wf(),
        old(tree).arena.contains(id),
        id.index < mark,
        old(tree).arena.contains(r),
        r.index >= mark,
        old(tree).arena.parent_of(r).is_none(),
        generations_apart(&old(tree).arena, mark),
        is_chain_at(&old(tree).arena, r),
        walk_ready(&old(tree).arena, id, down as nat),
    ensures
        final(tree).arena.wf(),
        final(tree).root == old(tree).root,
        res.0 >= 1,
        res.1@ == chain_seq(&old(tree).arena, r, (res.0 - 1) as nat),
        descend(&old(tree).arena, r, (res.0 - 1) as nat).is_some(),
        old(tree).arena.children_of(descend(&old(tree).arena, r, (res.0 - 1) as nat).unwrap()).len()
            == 0,
        single_path(&old(tree).arena, r, (res.0 - 1) as nat),
        depth_spliced(
            &final(tree).arena,
            &old(tree).arena,
            id,
            r,
            descend(&old(tree).arena, id, down as nat),
            descend(&old(tree).arena, r, (res.0 - 1) as nat).unwrap(),
        ),
        !final(tree).arena.is_dropped(r),
        final(tree).delay_events@ == old(tree).delay_events@ + disposed_events(
            &old(tree).arena,
            seq![id],
        ) + mounted_events(chain_seq(&old(tree).arena, r, (res.0 - 1) as nat)),
        final(host)@ == with_delayed(old(host)@, &old(tree).arena, seq![id], 1),
        final(tree).dirty_set@ == with_delayed(old(tree).dirty_set@, &old(tree).arena, seq![id], 1),
{
    let ghost a = tree.arena;
    let ghost ev0 = tree.delay_events@;
    let declare_child_parent = single_down(id, &tree.arena, down);
    let (new_leaf, down_level) = down_to_leaf(r, &tree.arena);
    let chain = chain_of(r, &tree.arena, down_level);
    let slots = tree.arena.slots();
    proof {
        a.lemma_model();
        lemma_descend_subtree(&a, r, down_level as nat);
        a.lemma_depth_bound(new_leaf);
        a.lemma_subtree_dropped(new_leaf, r);
        // the leaf is new
        if new_leaf != r {
            let k = a.ancestors_of(new_leaf).index_of(r);
            assert(a.ancestors_of(new_leaf)[k].index >= mark);
        }
        assert(new_leaf.index >= mark);
        if a.parent_of(id).is_some() {
            a.lemma_position_of_child(id);
            assert(a.ancestors_of(id)[0] == a.parent_of(id).unwrap());
        }
    }
    let ghost dcp_opt = declare_child_parent;
    if let Some(dcp) = declare_child_parent {
        proof {
            lemma_descend_subtree(&a, id, down as nat);
            a.lemma_subtree_dropped(dcp, id);
            if dcp != id {
                let k = a.ancestors_of(dcp).index_of(id);
                assert(a.ancestors_of(dcp)[k].index < mark);
            }
            assert(dcp.index < mark);
            assert(!a.in_subtree(new_leaf, dcp)) by {
                if a.ancestors_of(new_leaf).contains(dcp) {
                    let k = a.ancestors_of(new_leaf).index_of(dcp);
                    assert(a.ancestors_of(new_leaf)[k].index >= mark);
                }
            }
        }
        graft_children(&mut tree.arena, dcp, new_leaf);
    }
    let ghost g = tree.arena;
    let parent = tree.arena.parent(id);
    proof {
        g.lemma_model();
        // `id` and its ancestors are where they were
        match dcp_opt {
            Some(dcp) => {
                lemma_descend_subtree(&a, id, down as nat);
                a.lemma_subtree_depth(dcp, id);
                assert(!(a.in_subtree(id, dcp) && id != dcp)) by {
                    if a.in_subtree(id, dcp) && id != dcp {
                        a.lemma_subtree_depth(id, dcp);
                    }
                }
                assert(g.ancestors_of(id) == a.ancestors_of(id));
                assert(a.parent_of(id) != Some(dcp)) by {
                    if a.parent_of(id) == Some(dcp) {
                        assert(a.ancestors_of(id) == seq![dcp] + a.ancestors_of(dcp));
                    }
                }
                assert(g.parent_of(id) == a.parent_of(id));
                assert(a.parent_of(r) != Some(dcp));
                assert(g.parent_of(r).is_none());
            },
            None => {
                assert(g == a);
            },
        }
        assert(!g.ancestors_of(id).contains(r)) by {
            if a.ancestors_of(id).contains(r) {
                let k = a.ancestors_of(id).index_of(r);
                assert(a.ancestors_of(id)[k].index < mark);
            }
        }
        assert(g.is_dropped(r) == a.is_dropped(r));
        assert(g.is_dropped(id) == a.is_dropped(id));
    }
    if parent.is_some() {
        tree.arena.insert_after(id, r);
    }
    let ghost ins = tree.arena;
    proof {
        assert(ins.data_of(id) == a.data_of(id)) by {
            assert(g.data_of(id) == a.data_of(id));
        }
        assert(disposed_events(&a, seq![id]) =~= seq![
            DelayEvent::Disposed { id, delay_drop: a.data_of(id).delays_drop() },
        ]);
        assert(with_delayed(host@, &a, seq![id], 0) == host@);
        assert(with_delayed(tree.dirty_set@, &a, seq![id], 0) == tree.dirty_set@);
    }
    DynRender::remove_old_subtree(tree, id, host);
    push_mounted(&mut tree.delay_events, &chain);
    proof {
        let b = tree.arena;
        ins.lemma_unlink_same_subtree(&b, id);
        let p_opt = a.parent_of(id);
        let i = a.position_of(id);
        let moved = match dcp_opt {
            Some(d) => a.children_of(d),
            None => Seq::<NodeId>::empty(),
        };
        assert(tree.delay_events@ =~= ev0 + disposed_events(&a, seq![id]) + mounted_events(
            chain_seq(&a, r, down_level as nat),
        ));
        // the parent of `id`, if any, is an old node apart from `dcp` and the leaf
        match p_opt {
            Some(p) => {
                assert(p.index < mark);
                assert(p != new_leaf);
                match dcp_opt {
                    Some(dcp) => {
                        assert(p != dcp);
                        assert(g.children_of(p) == a.children_of(p));
                    },
                    None => {},
                }
                let kids = a.children_of(p);
                assert(g.children_of(p) == kids);
                g.lemma_position(p, i);
                assert(ins.children_of(p) == kids.insert(i + 1, r));
                assert(ins.children_of(p)[i] == id);
                ins.lemma_position(p, i);
                assert(b.children_of(p) =~= kids.update(i, r));
            },
            None => {
                assert(ins == g);
            },
        }
        assert forall|x: NodeId| a.has(x) implies #[trigger] b.children_of(x) == if p_opt == Some(x) {
            a.children_of(x).update(i, r)
        } else if x == new_leaf {
            a.children_of(new_leaf) + moved
        } else if dcp_opt == Some(x) {
            Seq::<NodeId>::empty()
        } else {
            a.children_of(x)
        } by {
            if p_opt != Some(x) {
                assert(ins.children_of(x) == g.children_of(x));
                assert(b.children_of(x) == ins.children_of(x));
                match dcp_opt {
                    Some(dcp) => {},
                    None => {
                        assert(a.children_of(new_leaf) + moved =~= a.children_of(new_leaf));
                    },
                }
            }
        }
        assert forall|x: NodeId| a.has(x) implies #[trigger] b.parent_of(x) == if x == r {
            p_opt
        } else if x == id {
            None
        } else if dcp_opt.is_some() && a.parent_of(x) == dcp_opt {
            Some(new_leaf)
        } else {
            a.parent_of(x)
        } by {
            assert(b.parent_of(x) == if x == id {
                None
            } else {
                ins.parent_of(x)
            });
            match p_opt {
                Some(p) => {
                    assert(ins.parent_of(x) == if x == r {
                        Some(p)
                    } else {
                        g.parent_of(x)
                    });
                },
                None => {},
            }
        }
        assert forall|x: NodeId| a.has(x) implies #[trigger] b.data_of(x) == a.data_of(x) by {
            assert(g.data_of(x) == a.data_of(x));
            assert(ins.data_of(x) == g.data_of(x));
        }
        assert forall|x: NodeId| a.has(x) implies #[trigger] b.is_dropped(x) == (a.is_dropped(x) || (
        !a.data_of(id).delays_drop() && b.in_subtree(x, id))) by {
            assert(g.is_dropped(x) == a.is_dropped(x));
            assert(ins.is_dropped(x) == g.is_dropped(x));
            assert(b.in_subtree(x, id) == ins.in_subtree(x, id));
        }
        // the new root is live: it does not lie below `id`
        assert(!b.is_dropped(r)) by {
            b.lemma_model();
            assert(b.parent_of(id).is_none());
            assert(b.ancestors_of(id) == Seq::<NodeId>::empty());
            if b.in_subtree(r, id) {
                b.lemma_subtree_depth(r, id);
                let anc = b.ancestors_of(r);
                assert(anc[anc.len() - 1] == id);
                match p_opt {
                    Some(p) => {
                        assert(anc == seq![p] + b.ancestors_of(p));
                        b.lemma_ancestor_suffix(r, 0);
                        assert(b.in_subtree(p, id)) by {
                            if anc.len() - 1 == 0 {
                                assert(p == id);
                            } else {
                                assert(b.ancestors_of(p)[anc.len() - 2] == id);
                            }
                        }
                        assert(ins.in_subtree(p, id));
                        assert(ins.ancestors_of(id) == seq![p] + ins.ancestors_of(p));
                        ins.lemma_subtree_depth(p, id);
                    },
                    None => {},
                }
            }
        }
    }
    (down_level + 1, chain)
}

} // verus!
