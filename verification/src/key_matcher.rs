//! The key matcher: before the old output of a dynamic position leaves, its
//! roots are paired with the new roots by key.

use crate::arena::{NodeId, TreeArena};
use crate::dynamic_widget::{inspect_key, DynRender};
use crate::key::{Key, KeyWidget};
use crate::widget::{
    find_key, first_delay_drop, first_delay_drop_index, first_key_index, set_attachment,
    Attachment, RenderNode,
};
use std::collections::HashMap;
use vstd::prelude::*;

verus! {

/// The key that is consulted for `x` is `key`.
pub open spec fn key_matches(a: &TreeArena<RenderNode>, x: NodeId, key: Key) -> bool {
    match a.data_of(x).key_of() {
        Some(k) => k.key == key,
        None => false,
    }
}

/// Position in `olds` of the first node, at or after `from`, whose key is
/// `key`.
pub open spec fn first_with_key(a: &TreeArena<RenderNode>, olds: Seq<NodeId>, key: Key, from: int) -> Option<
    int,
>
    decreases olds.len() - from,
{
    if from < 0 || from >= olds.len() {
        None
    } else if key_matches(a, olds[from], key) {
        Some(from)
    } else {
        first_with_key(a, olds, key, from + 1)
    }
}

/// One of the first `upto` nodes of `news` has the key `key`.
pub open spec fn key_among(a: &TreeArena<RenderNode>, news: Seq<NodeId>, key: Key, upto: int) -> bool {
    exists|i: int| 0 <= i < upto && i < news.len() && #[trigger] key_matches(a, news[i], key)
}

/// The attachments of the new root `n` once its key was matched against
/// `olds`: where an old root has the same key, the key of `n` records the
/// value of the first such root as the value before.
pub open spec fn matched_new(a: &TreeArena<RenderNode>, olds: Seq<NodeId>, n: NodeId) -> Seq<Attachment> {
    let atts = a.data_of(n).attachments@;
    match first_key_index(atts, 0) {
        Some(ki) => {
            let kw = atts[ki]->Key_0;
            match first_with_key(a, olds, kw.key, 0) {
                Some(j) => atts.update(
                    ki,
                    Attachment::Key(
                        KeyWidget { before_value: Some(a.data_of(olds[j]).key_of().unwrap().value), ..kw },
                    ),
                ),
                None => atts,
            }
        },
        None => atts,
    }
}

/// The attachments of the old root at position `j` once the first `upto`
/// new roots were matched: where it is the first old root with its key and
/// one of these new roots has that key, its key records that it has a
/// successor.
pub open spec fn matched_old(
    a: &TreeArena<RenderNode>,
    olds: Seq<NodeId>,
    news: Seq<NodeId>,
    upto: int,
    j: int,
) -> Seq<Attachment> {
    let atts = a.data_of(olds[j]).attachments@;
    match first_key_index(atts, 0) {
        Some(ki) => {
            let kw = atts[ki]->Key_0;
            if first_with_key(a, olds, kw.key, 0) == Some(j) && key_among(a, news, kw.key, upto) {
                atts.update(ki, Attachment::Key(KeyWidget { has_successor: true, ..kw }))
            } else {
                atts
            }
        },
        None => atts,
    }
}

/// `after` is `before` once the first `upto` roots of `news` were matched
/// against `olds` by key. Only attachments of these roots changed.
pub open spec fn keys_matched(
    after: &TreeArena<RenderNode>,
    before: &TreeArena<RenderNode>,
    olds: Seq<NodeId>,
    news: Seq<NodeId>,
    upto: int,
) -> bool {
    &&& after.same_shape(before)
    &&& forall|x: NodeId|
        before.has(x) ==> (#[trigger] after.data_of(x)).render == before.data_of(x).render
            && after.data_of(x).dynamic == before.data_of(x).dynamic
    &&& forall|x: NodeId|
        before.has(x) && !olds.contains(x) && !news.subrange(0, upto).contains(x) ==> #[trigger] after.data_of(
            x,
        ) == before.data_of(x)
    &&& forall|i: int|
        0 <= i < upto ==> after.data_of(#[trigger] news[i]).attachments@ == matched_new(
            before,
            olds,
            news[i],
        )
    &&& forall|j: int|
        0 <= j < olds.len() ==> after.data_of(#[trigger] olds[j]).attachments@ == matched_old(
            before,
            olds,
            news,
            upto,
            j,
        )
}

/// Putting a key where a key stood does not move the first key.
pub proof fn lemma_update_key_index(s: Seq<Attachment>, p: int, kw: KeyWidget, from: int)
    requires
        0 <= p < s.len(),
        s[p] is Key,
    ensures
        first_key_index(s.update(p, Attachment::Key(kw)), from) == first_key_index(s, from),
    decreases s.len() - from,
{
    if 0 <= from < s.len() {
        lemma_update_key_index(s, p, kw, from + 1);
    }
}

/// Where a first old root with a key is found, it is an old root with that
/// key.
pub proof fn lemma_first_with_key_found(a: &TreeArena<RenderNode>, olds: Seq<NodeId>, key: Key, from: int)
    requires
        0 <= from,
    ensures
        match first_with_key(a, olds, key, from) {
            Some(j) => from <= j < olds.len() && key_matches(a, olds[j], key),
            None => true,
        },
    decreases olds.len() - from,
{
    if from < olds.len() {
        lemma_first_with_key_found(a, olds, key, from + 1);
    }
}

/// The map `m` leads from every key that an old root has to the position
/// of the first old root, at or after `from`, with that key.
pub open spec fn indexes_keys(
    m: Map<u64, usize>,
    a: &TreeArena<RenderNode>,
    olds: Seq<NodeId>,
    from: int,
) -> bool {
    forall|key: Key|
        match #[trigger] first_with_key(a, olds, key, from) {
            Some(j) => m.contains_key(key.id) && m[key.id] == j,
            None => !m.contains_key(key.id),
        }
}

/// Builds the map from the keys of the old roots to their positions. Where
/// several old roots have one key, the first of them is the one that
/// counts.
pub fn index_old_keys(arena: &TreeArena<RenderNode>, olds: &Vec<NodeId>) -> (m: HashMap<u64, usize>)
    requires
        arena.wf(),
        forall|j: int| 0 <= j < olds@.len() ==> arena.has(#[trigger] olds@[j]),
    ensures
        indexes_keys(m@, arena, olds@, 0),
{
    let mut m: HashMap<u64, usize> = HashMap::new();
    let mut j: usize = olds.len();
    broadcast use {
        vstd::std_specs::hash::axiom_u64_obeys_hash_table_key_model,
        vstd::std_specs::hash::axiom_random_state_builds_valid_hashers,
    };

    while j > 0
        invariant
            arena.wf(),
            j <= olds.len(),
            forall|k: int| 0 <= k < olds@.len() ==> arena.has(#[trigger] olds@[k]),
            vstd::std_specs::hash::obeys_key_model::<u64>(),
            vstd::std_specs::hash::builds_valid_hashers::<std::collections::hash_map::RandomState>(),
            indexes_keys(m@, arena, olds@, j as int),
        decreases j,
    {
        j = j - 1;
        let ghost before = m@;
        match inspect_key(olds[j], arena) {
            Some(k) => {
                let _ = m.insert(k.key.id, j);
                proof {
                    assert forall|key: Key|
                        match #[trigger] first_with_key(arena, olds@, key, j as int) {
                            Some(i) => m@.contains_key(key.id) && m@[key.id] == i,
                            None => !m@.contains_key(key.id),
                        } by {
                        let next = first_with_key(arena, olds@, key, j + 1);
                        if key == k.key {
                        } else {
                            assert(key.id != k.key.id);
                            assert(match next {
                                Some(i) => before.contains_key(key.id) && before[key.id] == i,
                                None => !before.contains_key(key.id),
                            });
                        }
                    }
                }
            },
            None => {
                proof {
                    assert forall|key: Key|
                        match #[trigger] first_with_key(arena, olds@, key, j as int) {
                            Some(i) => m@.contains_key(key.id) && m@[key.id] == i,
                            None => !m@.contains_key(key.id),
                        } by {
                        let next = first_with_key(arena, olds@, key, j + 1);
                        assert(match next {
                            Some(i) => before.contains_key(key.id) && before[key.id] == i,
                            None => !before.contains_key(key.id),
                        });
                    }
                }
            },
        }
    }
    m
}

/// Looks the position of the first old root with the key `key` up.
pub fn lookup_old_key(index: &HashMap<u64, usize>, key: Key) -> (r: Option<usize>)
    ensures
        r == if index@.contains_key(key.id) {
            Some(index@[key.id])
        } else {
            None
        },
{
    broadcast use {
        vstd::std_specs::hash::axiom_u64_obeys_hash_table_key_model,
        vstd::std_specs::hash::axiom_random_state_builds_valid_hashers,
    };

    let id = key.id;
    let found = index.get(&id);
    proof {
        vstd::std_specs::hash::axiom_contains_deref_key::<u64, usize>(index@, &id);
        match found {
            Some(v) => {
                vstd::std_specs::hash::axiom_maps_deref_key_to_value::<u64, usize>(index@, &id, *v);
            },
            None => {},
        }
    }
    match found {
        Some(j) => Some(*j),
        None => None,
    }
}

/// The keys that are consulted in `a` and `b` for `x` stand at the same
/// place and agree in key and value.
pub open spec fn same_key(a: &TreeArena<RenderNode>, b: &TreeArena<RenderNode>, x: NodeId) -> bool {
    let sa = a.data_of(x).attachments@;
    let sb = b.data_of(x).attachments@;
    &&& sa.len() == sb.len()
    &&& first_key_index(sa, 0) == first_key_index(sb, 0)
    &&& match first_key_index(sa, 0) {
        Some(i) => 0 <= i < sa.len() && sa[i] is Key && sb[i] is Key && (sa[i]->Key_0).key == (
        sb[i]->Key_0).key && (sa[i]->Key_0).value == (sb[i]->Key_0).value,
        None => true,
    }
}

impl DynRender {
    /// Pairs the old output roots with the new ones by key, before the old
    /// ones leave. A new root whose key an old root has records the value of
    /// the first such old root as its value before; that old root records
    /// that it has a successor. Position does not count, only the key.
    pub fn update_key_state(arena: &mut TreeArena<RenderNode>, olds: &Vec<NodeId>, new_widgets: &Vec<NodeId>)
        requires
            old(arena).wf(),
            forall|j: int| 0 <= j < olds@.len() ==> old(arena).has(#[trigger] olds@[j]),
            forall|i: int| 0 <= i < new_widgets@.len() ==> old(arena).has(#[trigger] new_widgets@[i]),
            olds@.no_duplicates(),
            new_widgets@.no_duplicates(),
            forall|i: int, j: int|
                0 <= i < new_widgets@.len() && 0 <= j < olds@.len() ==> new_widgets@[i] != olds@[j],
        ensures
            final(arena).wf(),
            keys_matched(final(arena), old(arena), olds@, new_widgets@, new_widgets@.len() as int),
    {
        let ghost a0 = *arena;
        let ghost os = olds@;
        let ghost ns = new_widgets@;
        let old_key_list = index_old_keys(arena, olds);
        let mut i: usize = 0;
        proof {
            assert forall|x: NodeId| a0.has(x) implies #[trigger] same_key(&a0, &a0, x) by {
                crate::widget::lemma_first_key_index(a0.data_of(x).attachments@, 0);
            }
            assert(ns.subrange(0, 0) =~= Seq::<NodeId>::empty());
            assert forall|j: int| 0 <= j < os.len() implies a0.data_of(#[trigger] os[j]).attachments@
                == matched_old(&a0, os, ns, 0, j) by {
                let atts = a0.data_of(os[j]).attachments@;
                match first_key_index(atts, 0) {
                    Some(ki) => {
                        crate::widget::lemma_first_key_index(atts, 0);
                        assert(!key_among(&a0, ns, (atts[ki]->Key_0).key, 0));
                    },
                    None => {},
                }
            }
        }
        while i < new_widgets.len()
            invariant
                i <= new_widgets.len(),
                os == olds@,
                ns == new_widgets@,
                a0.wf(),
                arena.wf(),
                forall|j: int| 0 <= j < os.len() ==> a0.has(#[trigger] os[j]),
                forall|k: int| 0 <= k < ns.len() ==> a0.has(#[trigger] ns[k]),
                os.no_duplicates(),
                ns.no_duplicates(),
                forall|k: int, j: int| 0 <= k < ns.len() && 0 <= j < os.len() ==> ns[k] != os[j],
                indexes_keys(old_key_list@, &a0, os, 0),
                keys_matched(arena, &a0, os, ns, i as int),
                forall|x: NodeId| a0.has(x) ==> #[trigger] same_key(arena, &a0, x),
                forall|k: int| i <= k < ns.len() ==> arena.data_of(#[trigger] ns[k]) == a0.data_of(ns[k]),
            decreases new_widgets.len() - i,
        {
            let n = new_widgets[i];
            let ghost a1 = *arena;
            proof {
                assert(same_key(&a1, &a0, n));
                assert(a1.data_of(ns[i as int]) == a0.data_of(n));
            }
            let found = match inspect_key(n, arena) {
                Some(kw) => match lookup_old_key(&old_key_list, kw.key) {
                    Some(j) => Some((kw, j)),
                    None => None,
                },
                None => None,
            };
            proof {
                match a1.data_of(n).key_of() {
                    Some(kw) => {
                        lemma_first_with_key_found(&a0, os, kw.key, 0);
                        assert(match first_with_key(&a0, os, kw.key, 0) {
                            Some(j) => old_key_list@.contains_key(kw.key.id) && old_key_list@[kw.key.id]
                                == j,
                            None => !old_key_list@.contains_key(kw.key.id),
                        });
                        match first_with_key(&a0, os, kw.key, 0) {
                            Some(j) => {
                                assert(same_key(&a1, &a0, os[j]));
                                crate::widget::lemma_first_key_index(a0.data_of(os[j]).attachments@, 0);
                            },
                            None => {},
                        }
                    },
                    None => {},
                }
            }
            match found {
                Some((kw, j)) => {
                    let o = olds[j];
                    let okw = inspect_key(o, arena).unwrap();
                    let ki = find_key(&arena.get(n).attachments).unwrap();
                    let mut nk = kw;
                    nk.record_prev_key_widget(&okw);
                    set_attachment(arena, n, ki, Attachment::Key(nk));
                    let ghost a2 = *arena;
                    let oi = find_key(&arena.get(o).attachments).unwrap();
                    let mut ok2 = okw;
                    ok2.record_next_key_widget();
                    set_attachment(arena, o, oi, Attachment::Key(ok2));
                    proof {
                        let a3 = *arena;
                        let natts = a0.data_of(n).attachments@;
                        let oatts1 = a1.data_of(o).attachments@;
                        assert(same_key(&a1, &a0, o));
                        assert(o == os[j as int]);
                        assert(n != o);
                        lemma_update_key_index(natts, ki as int, nk, 0);
                        lemma_update_key_index(oatts1, oi as int, ok2, 0);
                        assert(a3.data_of(n) == a2.data_of(n));
                        assert(a2.data_of(o) == a1.data_of(o));
                        assert(a3.data_of(n).attachments@ == matched_new(&a0, os, n));
                        Self::lemma_matching_step(&a0, &a1, &a3, os, ns, i as int, Some(j as int));
                    }
                },
                None => {
                    proof {
                        Self::lemma_matching_step(&a0, &a1, &a1, os, ns, i as int, None);
                    }
                },
            }
            i = i + 1;
        }
    }

    /// One step of the matching: from the state `a1`, in which the first
    /// `i` new roots are matched, to the state `a3`, in which the next one
    /// is matched too.
    proof fn lemma_matching_step(
        a0: &TreeArena<RenderNode>,
        a1: &TreeArena<RenderNode>,
        a3: &TreeArena<RenderNode>,
        os: Seq<NodeId>,
        ns: Seq<NodeId>,
        i: int,
        hit: Option<int>,
    )
        requires
            0 <= i < ns.len(),
            forall|j: int| 0 <= j < os.len() ==> a0.has(#[trigger] os[j]),
            forall|k: int| 0 <= k < ns.len() ==> a0.has(#[trigger] ns[k]),
            os.no_duplicates(),
            ns.no_duplicates(),
            forall|k: int, j: int| 0 <= k < ns.len() && 0 <= j < os.len() ==> ns[k] != os[j],
            keys_matched(a1, a0, os, ns, i),
            forall|x: NodeId| a0.has(x) ==> #[trigger] same_key(a1, a0, x),
            forall|k: int| i <= k < ns.len() ==> a1.data_of(#[trigger] ns[k]) == a0.data_of(ns[k]),
            hit == match a0.data_of(ns[i]).key_of() {
                Some(kw) => first_with_key(a0, os, kw.key, 0),
                None => None,
            },
            a3.same_shape(a1),
            forall|x: NodeId|
                a0.has(x) ==> (#[trigger] a3.data_of(x)).render == a1.data_of(x).render && a3.data_of(
                    x,
                ).dynamic == a1.data_of(x).dynamic,
            a3.data_of(ns[i]).attachments@ == matched_new(a0, os, ns[i]),
            match hit {
                Some(j) => {
                    &&& 0 <= j < os.len()
                    &&& forall|x: NodeId|
                        a0.has(x) && x != ns[i] && x != os[j] ==> #[trigger] a3.data_of(x) == a1.data_of(x)
                    &&& first_key_index(a1.data_of(os[j]).attachments@, 0).is_some()
                    &&& a3.data_of(os[j]).attachments@ == a1.data_of(os[j]).attachments@.update(
                        first_key_index(a1.data_of(os[j]).attachments@, 0).unwrap(),
                        Attachment::Key(
                            KeyWidget { has_successor: true, ..a1.data_of(os[j]).key_of().unwrap() },
                        ),
                    )
                },
                None => forall|x: NodeId| a0.has(x) ==> #[trigger] a3.data_of(x) == a1.data_of(x),
            },
        ensures
            keys_matched(a3, a0, os, ns, i + 1),
            forall|x: NodeId| a0.has(x) ==> #[trigger] same_key(a3, a0, x),
            forall|k: int| i + 1 <= k < ns.len() ==> a3.data_of(#[trigger] ns[k]) == a0.data_of(ns[k]),
    {
        let n = ns[i];
        assert(ns.subrange(0, i + 1) =~= ns.subrange(0, i).push(n));
        assert(same_key(a1, a0, n));
        // the keys stay where they are
        assert forall|x: NodeId| a0.has(x) implies #[trigger] same_key(a3, a0, x) by {
            assert(same_key(a1, a0, x));
            if x == n {
                let atts = a0.data_of(n).attachments@;
                match first_key_index(atts, 0) {
                    Some(ki) => {
                        crate::widget::lemma_first_key_index(atts, 0);
                        match first_with_key(a0, os, (atts[ki]->Key_0).key, 0) {
                            Some(j) => {
                                lemma_update_key_index(
                                    atts,
                                    ki,
                                    KeyWidget {
                                        before_value: Some(a0.data_of(os[j]).key_of().unwrap().value),
                                        ..atts[ki]->Key_0
                                    },
                                    0,
                                );
                            },
                            None => {},
                        }
                    },
                    None => {},
                }
            } else if hit.is_some() && x == os[hit.unwrap()] {
                let atts = a1.data_of(x).attachments@;
                let ki = first_key_index(atts, 0).unwrap();
                crate::widget::lemma_first_key_index(atts, 0);
                lemma_update_key_index(
                    atts,
                    ki,
                    KeyWidget { has_successor: true, ..a1.data_of(x).key_of().unwrap() },
                    0,
                );
            } else {
                match hit {
                    Some(j) => {
                        assert(a3.data_of(x) == a1.data_of(x));
                    },
                    None => {
                        assert(a3.data_of(x) == a1.data_of(x));
                    },
                }
            }
        }
        // the new roots that are still to come
        assert forall|k: int| i + 1 <= k < ns.len() implies a3.data_of(#[trigger] ns[k]) == a0.data_of(
            ns[k],
        ) by {
            assert(ns[k] != n);
            assert(a1.data_of(ns[k]) == a0.data_of(ns[k]));
            match hit {
                Some(j) => {
                    assert(ns[k] != os[j]);
                },
                None => {},
            }
        }
        // the untouched nodes
        assert forall|x: NodeId|
            a0.has(x) && !os.contains(x) && !ns.subrange(0, i + 1).contains(x) implies #[trigger] a3.data_of(
            x,
        ) == a0.data_of(x) by {
            vstd::seq_lib::lemma_seq_contains_after_push(ns.subrange(0, i), n, x);
            assert(a1.data_of(x) == a0.data_of(x));
            match hit {
                Some(j) => {
                    assert(os.contains(os[j]));
                },
                None => {},
            }
        }
        // the new roots that are done
        assert forall|k: int| 0 <= k < i + 1 implies a3.data_of(#[trigger] ns[k]).attachments@
            == matched_new(a0, os, ns[k]) by {
            if k < i {
                assert(ns[k] != n);
                match hit {
                    Some(j) => {
                        assert(ns[k] != os[j]);
                    },
                    None => {},
                }
                assert(a3.data_of(ns[k]) == a1.data_of(ns[k]));
            }
        }
        // the old roots
        assert forall|j: int| 0 <= j < os.len() implies a3.data_of(#[trigger] os[j]).attachments@
            == matched_old(a0, os, ns, i + 1, j) by {
            let atts0 = a0.data_of(os[j]).attachments@;
            let atts1 = a1.data_of(os[j]).attachments@;
            assert(atts1 == matched_old(a0, os, ns, i, j));
            assert(os[j] != n);
            assert(same_key(a1, a0, os[j]));
            match first_key_index(atts0, 0) {
                Some(ki) => {
                    crate::widget::lemma_first_key_index(atts0, 0);
                    let kw = atts0[ki]->Key_0;
                    // whether the key occurs among the first i + 1 new roots
                    if key_among(a0, ns, kw.key, i) {
                        let w = choose|w: int|
                            0 <= w < i && w < ns.len() && #[trigger] key_matches(a0, ns[w], kw.key);
                        assert(key_matches(a0, ns[w], kw.key));
                        assert(key_among(a0, ns, kw.key, i + 1));
                    }
                    if key_matches(a0, n, kw.key) {
                        assert(key_matches(a0, ns[i], kw.key));
                        assert(key_among(a0, ns, kw.key, i + 1));
                    }
                    if key_among(a0, ns, kw.key, i + 1) {
                        let w = choose|w: int|
                            0 <= w < i + 1 && w < ns.len() && #[trigger] key_matches(a0, ns[w], kw.key);
                        if w < i {
                            assert(key_among(a0, ns, kw.key, i));
                        } else {
                            assert(key_matches(a0, n, kw.key));
                        }
                    }
                    if hit.is_some() && hit.unwrap() == j {
                        let nkw = a0.data_of(n).key_of().unwrap();
                        lemma_first_with_key_found(a0, os, nkw.key, 0);
                        assert(nkw.key == kw.key);
                        assert(key_matches(a0, n, kw.key));
                        assert(atts1[ki] is Key);
                        assert(first_with_key(a0, os, kw.key, 0) == Some(j));
                        assert(key_among(a0, ns, kw.key, i + 1));
                        let done = Attachment::Key(KeyWidget { has_successor: true, ..kw });
                        if key_among(a0, ns, kw.key, i) {
                            assert(atts1 == atts0.update(ki, done));
                            assert(a1.data_of(os[j]).key_of().unwrap() == (KeyWidget {
                                has_successor: true,
                                ..kw
                            }));
                            assert(atts1.update(ki, done) =~= atts0.update(ki, done));
                        } else {
                            assert(atts1 == atts0);
                            assert(a1.data_of(os[j]).key_of().unwrap() == kw);
                        }
                        assert(first_key_index(atts1, 0) == Some(ki));
                    } else {
                        match hit {
                            Some(h) => {
                                assert(os[j] != os[h]);
                                assert(a3.data_of(os[j]) == a1.data_of(os[j]));
                                if key_matches(a0, n, kw.key) {
                                    // the first old root with this key is `h`, not `j`
                                    let nkw = a0.data_of(n).key_of().unwrap();
                                    assert(nkw.key == kw.key);
                                    assert(first_with_key(a0, os, kw.key, 0) == Some(h));
                                }
                            },
                            None => {
                                assert(a3.data_of(os[j]) == a1.data_of(os[j]));
                                if key_matches(a0, n, kw.key) {
                                    let nkw = a0.data_of(n).key_of().unwrap();
                                    assert(nkw.key == kw.key);
                                    assert(first_with_key(a0, os, kw.key, 0).is_none());
                                }
                            },
                        }
                    }
                },
                None => {
                    match hit {
                        Some(h) => {
                            if h == j {
                                let nkw = a0.data_of(n).key_of().unwrap();
                                lemma_first_with_key_found(a0, os, nkw.key, 0);
                            } else {
                                assert(os[j] != os[h]);
                            }
                        },
                        None => {},
                    }
                },
            }
        }
        assert forall|x: NodeId|
            a0.has(x) implies (#[trigger] a3.data_of(x)).render == a0.data_of(x).render && a3.data_of(
            x,
        ).dynamic == a0.data_of(x).dynamic by {
            assert(a1.data_of(x).render == a0.data_of(x).render);
        }
    }
}

/// Putting a key where a key stood does not move the first delay-drop
/// marker.
pub proof fn lemma_update_key_keeps_delay(s: Seq<Attachment>, p: int, kw: KeyWidget, from: int)
    requires
        0 <= p < s.len(),
        s[p] is Key,
        0 <= from,
    ensures
        first_delay_drop_index(s.update(p, Attachment::Key(kw)), from) == first_delay_drop_index(s, from),
        first_delay_drop(s.update(p, Attachment::Key(kw)), from) == first_delay_drop(s, from),
    decreases s.len() - from,
{
    if from < s.len() {
        lemma_update_key_keeps_delay(s, p, kw, from + 1);
    }
    crate::widget::lemma_first_delay_drop_index(s, from);
}

/// Matching the keys leaves the delay-drop markers of the old roots as they
/// are.
pub proof fn lemma_matched_keeps_delay(
    m: &TreeArena<RenderNode>,
    b: &TreeArena<RenderNode>,
    olds: Seq<NodeId>,
    news: Seq<NodeId>,
    j: int,
)
    requires
        0 <= j < olds.len(),
        b.has(olds[j]),
        keys_matched(m, b, olds, news, news.len() as int),
    ensures
        m.data_of(olds[j]).delays_drop() == b.data_of(olds[j]).delays_drop(),
{
    let atts = b.data_of(olds[j]).attachments@;
    assert(m.data_of(olds[j]).attachments@ == matched_old(b, olds, news, news.len() as int, j));
    match first_key_index(atts, 0) {
        Some(ki) => {
            crate::widget::lemma_first_key_index(atts, 0);
            let kw = atts[ki]->Key_0;
            lemma_update_key_keeps_delay(atts, ki, KeyWidget { has_successor: true, ..kw }, 0);
        },
        None => {},
    }
}

} // verus!
