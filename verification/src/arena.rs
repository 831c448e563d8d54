//! The tree arena: every node of every tree lives in one store and is addressed
//! by a stable [`NodeId`]. Each slot keeps its payload and five links (parent,
//! first and last child, previous and next sibling), so that attaching and
//! detaching a subtree only relinks a constant number of slots.
//!
//! Contracts speak of an abstract forest: for every node its parent, the
//! ordered sequence of its children and the path of its ancestors. The links
//! are an implementation detail that `wf` ties to that forest.

use vstd::prelude::*;

verus! {

/// A stable handle of a node. A handle stays valid for the whole life of the
/// arena; a removed node keeps its slot and is only marked as dropped.
#[derive(Clone, Copy, Debug, PartialEq, Eq, PartialOrd, Ord, Hash, Structural)]
pub struct NodeId {
    pub index: usize,
}

/// The links of one slot.
#[derive(Clone, Copy)]
struct Links {
    parent: Option<NodeId>,
    first_child: Option<NodeId>,
    last_child: Option<NodeId>,
    prev_sibling: Option<NodeId>,
    next_sibling: Option<NodeId>,
    dropped: bool,
}

/// The store of all nodes.
pub struct TreeArena<T> {
    links: Vec<Links>,
    data: Vec<T>,
    kids: Ghost<Seq<Seq<NodeId>>>,
    anc: Ghost<Seq<Seq<NodeId>>>,
}

/// The first element of a sequence, if there is one.
pub open spec fn seq_first(s: Seq<NodeId>) -> Option<NodeId> {
    if s.len() > 0 {
        Some(s[0])
    } else {
        None
    }
}

/// The last element of a sequence, if there is one.
pub open spec fn seq_last(s: Seq<NodeId>) -> Option<NodeId> {
    if s.len() > 0 {
        Some(s[s.len() - 1])
    } else {
        None
    }
}

/// The element at position `j`, if `j` is a position of the sequence.
pub open spec fn seq_at(s: Seq<NodeId>, j: int) -> Option<NodeId> {
    if 0 <= j < s.len() {
        Some(s[j])
    } else {
        None
    }
}

/// A sequence of distinct numbers below `n` has at most `n` elements.
proof fn lemma_distinct_bounded(s: Seq<int>, n: int)
    requires
        0 <= n,
        s.no_duplicates(),
        forall|k: int| 0 <= k < s.len() ==> 0 <= #[trigger] s[k] < n,
    ensures
        s.len() <= n,
    decreases n,
{
    if s.len() == 0 {
    } else if n == 0 {
        assert(0 <= s[0] < n);
    } else {
        if s.contains(n - 1) {
            let k = s.index_of(n - 1);
            let t = s.remove(k);
            assert(t.len() == s.len() - 1);
            assert forall|i: int| 0 <= i < t.len() implies 0 <= #[trigger] t[i] < n - 1 by {
                if i < k {
                    assert(t[i] == s[i]);
                } else {
                    assert(t[i] == s[i + 1]);
                    assert(s[i + 1] != s[k]);
                }
            }
            assert(t.no_duplicates()) by {
                assert forall|i: int, j: int| 0 <= i < t.len() && 0 <= j < t.len() && i != j
                    implies t[i] != t[j] by {
                    let i2 = if i < k { i } else { i + 1 };
                    let j2 = if j < k { j } else { j + 1 };
                    assert(t[i] == s[i2]);
                    assert(t[j] == s[j2]);
                }
            }
            lemma_distinct_bounded(t, n - 1);
        } else {
            assert forall|i: int| 0 <= i < s.len() implies 0 <= #[trigger] s[i] < n - 1 by {
                assert(s.contains(s[i]));
            }
            lemma_distinct_bounded(s, n - 1);
        }
    }
}

impl<T> TreeArena<T> {
    // ------------------------------------------------------------------
    // The abstract forest
    // ------------------------------------------------------------------

    /// Number of slots ever allocated.
    pub closed spec fn len(&self) -> nat {
        self.links@.len()
    }

    /// `id` addresses a slot of this arena (live or dropped).
    pub open spec fn has(&self, id: NodeId) -> bool {
        (id.index as nat) < self.len()
    }

    /// The links of a slot.
    spec fn link(&self, id: NodeId) -> Links {
        self.links@[id.index as int]
    }

    /// The node was removed.
    pub closed spec fn is_dropped(&self, id: NodeId) -> bool {
        self.link(id).dropped
    }

    /// `id` addresses a node that was not removed.
    pub open spec fn contains(&self, id: NodeId) -> bool {
        self.has(id) && !self.is_dropped(id)
    }

    /// The parent of a node.
    pub closed spec fn parent_of(&self, id: NodeId) -> Option<NodeId> {
        self.link(id).parent
    }

    /// The children of a node, first to last.
    pub closed spec fn children_of(&self, id: NodeId) -> Seq<NodeId> {
        self.kids@[id.index as int]
    }

    /// The ancestors of a node, from its parent up to the root of its tree.
    pub closed spec fn ancestors_of(&self, id: NodeId) -> Seq<NodeId> {
        self.anc@[id.index as int]
    }

    /// The payload of a node.
    pub closed spec fn data_of(&self, id: NodeId) -> T {
        self.data@[id.index as int]
    }

    /// Number of ancestors of a node.
    pub open spec fn depth_of(&self, id: NodeId) -> nat {
        self.ancestors_of(id).len()
    }

    /// `d` is `id` or one of its descendants.
    pub open spec fn in_subtree(&self, d: NodeId, id: NodeId) -> bool {
        d == id || self.ancestors_of(d).contains(id)
    }

    /// The position of a node among the children of its parent.
    pub open spec fn position_of(&self, id: NodeId) -> int {
        self.children_of(self.parent_of(id).unwrap()).index_of(id)
    }

    /// The first child of a node.
    pub open spec fn first_child_of(&self, id: NodeId) -> Option<NodeId> {
        seq_first(self.children_of(id))
    }

    /// The last child of a node.
    pub open spec fn last_child_of(&self, id: NodeId) -> Option<NodeId> {
        seq_last(self.children_of(id))
    }

    /// The sibling that follows a node; none for a last child and for a
    /// node without a parent.
    pub open spec fn next_sibling_of(&self, id: NodeId) -> Option<NodeId> {
        match self.parent_of(id) {
            Some(p) => seq_at(self.children_of(p), self.position_of(id) + 1),
            None => None,
        }
    }

    /// The sibling before a node; none for a first child and for a node
    /// without a parent.
    pub open spec fn prev_sibling_of(&self, id: NodeId) -> Option<NodeId> {
        match self.parent_of(id) {
            Some(p) => seq_at(self.children_of(p), self.position_of(id) - 1),
            None => None,
        }
    }

    /// The nodes of the subtree rooted at `id` in document order: the node
    /// itself, then the subtrees of its children from first to last.
    pub open spec fn descendants_of(&self, id: NodeId) -> Seq<NodeId>
        decreases self.len() - self.depth_of(id), 1nat, 0nat,
        when self.wf() && self.has(id)
    {
        seq![id] + self.descendants_from(id, 0)
    }

    /// The subtrees of the children of `id` from position `k` on, in document
    /// order.
    pub open spec fn descendants_from(&self, id: NodeId, k: int) -> Seq<NodeId>
        decreases self.len() - self.depth_of(id), 0nat, self.children_of(id).len() - k,
        when self.wf() && self.has(id) && 0 <= k
    {
        if k < self.children_of(id).len() {
            let c = self.children_of(id)[k];
            proof {
                self.lemma_model();
                self.lemma_depth_bound(c);
            }
            self.descendants_of(c) + self.descendants_from(id, k + 1)
        } else {
            Seq::empty()
        }
    }

    /// What holds of the forest of every well-formed arena: children and
    /// parents agree, nothing occurs twice among the children of a node, the
    /// ancestors of a node are its parent followed by the ancestors of the
    /// parent, and a node is dropped exactly when its parent is.
    pub open spec fn tree_shaped(&self) -> bool {
        &&& forall|id: NodeId, j: int|
            self.has(id) && 0 <= j < self.children_of(id).len() ==> {
                &&& self.has(#[trigger] self.children_of(id)[j])
                &&& self.parent_of(self.children_of(id)[j]) == Some(id)
            }
        &&& forall|id: NodeId| self.has(id) ==> (#[trigger] self.children_of(id)).no_duplicates()
        &&& forall|id: NodeId|
            self.has(id) ==> match #[trigger] self.parent_of(id) {
                Some(p) => {
                    &&& self.has(p)
                    &&& self.children_of(p).contains(id)
                    &&& self.ancestors_of(id) == seq![p] + self.ancestors_of(p)
                    &&& self.is_dropped(id) == self.is_dropped(p)
                },
                None => self.ancestors_of(id) == Seq::<NodeId>::empty(),
            }
    }

    // ------------------------------------------------------------------
    // Well-formedness
    // ------------------------------------------------------------------

    /// The links of the child of `id` at position `j` name `id` as its parent
    /// and the children at the positions around it as its siblings.
    spec fn child_wf(&self, id: NodeId, j: int) -> bool {
        let ks = self.children_of(id);
        let c = ks[j];
        let lc = self.link(c);
        &&& self.has(c)
        &&& lc.parent == Some(id)
        &&& lc.prev_sibling == seq_at(ks, j - 1)
        &&& lc.next_sibling == seq_at(ks, j + 1)
    }

    /// The links of `id` agree with its children and ancestors in the forest.
    spec fn node_wf(&self, id: NodeId) -> bool {
        let l = self.link(id);
        let ks = self.children_of(id);
        &&& ks.no_duplicates()
        &&& l.first_child == seq_first(ks)
        &&& l.last_child == seq_last(ks)
        &&& forall|j: int| 0 <= j < ks.len() ==> #[trigger] self.child_wf(id, j)
        &&& match l.parent {
            Some(p) => {
                &&& self.has(p)
                &&& self.children_of(p).contains(id)
                &&& self.ancestors_of(id) == seq![p] + self.ancestors_of(p)
                &&& l.dropped == self.link(p).dropped
            },
            None => {
                &&& l.prev_sibling.is_none()
                &&& l.next_sibling.is_none()
                &&& self.ancestors_of(id) == Seq::<NodeId>::empty()
            },
        }
    }

    /// The links describe the forest, and the forest is made of trees.
    pub closed spec fn wf(&self) -> bool {
        &&& self.data@.len() == self.links@.len()
        &&& self.kids@.len() == self.links@.len()
        &&& self.anc@.len() == self.links@.len()
        &&& forall|id: NodeId| self.has(id) ==> #[trigger] self.node_wf(id)
    }

    // ------------------------------------------------------------------
    // Facts about well-formed arenas
    // ------------------------------------------------------------------

    /// A well-formed arena holds a forest of trees.
    pub proof fn lemma_model(&self)
        requires
            self.wf(),
        ensures
            self.tree_shaped(),
    {
        assert forall|id: NodeId, j: int|
            self.has(id) && 0 <= j < self.children_of(id).len() implies {
            &&& self.has(#[trigger] self.children_of(id)[j])
            &&& self.parent_of(self.children_of(id)[j]) == Some(id)
        } by {
            assert(self.node_wf(id));
            assert(self.child_wf(id, j));
        }
        assert forall|id: NodeId| self.has(id) implies (#[trigger] self.children_of(
            id,
        )).no_duplicates() by {
            assert(self.node_wf(id));
        }
        assert forall|id: NodeId| self.has(id) implies match #[trigger] self.parent_of(id) {
            Some(p) => {
                &&& self.has(p)
                &&& self.children_of(p).contains(id)
                &&& self.ancestors_of(id) == seq![p] + self.ancestors_of(p)
                &&& self.is_dropped(id) == self.is_dropped(p)
            },
            None => self.ancestors_of(id) == Seq::<NodeId>::empty(),
        } by {
            assert(self.node_wf(id));
        }
    }

    /// The position of the `j`-th child of `id` is `j`.
    pub proof fn lemma_position(&self, id: NodeId, j: int)
        requires
            self.wf(),
            self.has(id),
            0 <= j < self.children_of(id).len(),
        ensures
            self.parent_of(self.children_of(id)[j]) == Some(id),
            self.position_of(self.children_of(id)[j]) == j,
    {
        self.lemma_model();
        let ks = self.children_of(id);
        let c = ks[j];
        assert(ks.contains(c));
        let k = ks.index_of(c);
        assert(ks[k] == c);
    }

    /// A node with a parent is the child of that parent at its position.
    pub proof fn lemma_position_of_child(&self, id: NodeId)
        requires
            self.wf(),
            self.has(id),
            self.parent_of(id).is_some(),
        ensures
            self.has(self.parent_of(id).unwrap()),
            0 <= self.position_of(id) < self.children_of(self.parent_of(id).unwrap()).len(),
            self.children_of(self.parent_of(id).unwrap())[self.position_of(id)] == id,
    {
        self.lemma_model();
        let p = self.parent_of(id).unwrap();
        assert(self.children_of(p).contains(id));
    }

    /// The ancestors of the `k`-th ancestor of a node are the ancestors of the
    /// node after position `k`.
    pub proof fn lemma_ancestor_suffix(&self, id: NodeId, k: int)
        requires
            self.wf(),
            self.has(id),
            0 <= k < self.ancestors_of(id).len(),
        ensures
            self.has(self.ancestors_of(id)[k]),
            self.ancestors_of(self.ancestors_of(id)[k]) == self.ancestors_of(id).subrange(
                k + 1,
                self.ancestors_of(id).len() as int,
            ),
        decreases k,
    {
        assert(self.node_wf(id));
        let a = self.ancestors_of(id);
        let p = self.link(id).parent.unwrap();
        if k == 0 {
            assert(a.subrange(1, a.len() as int) =~= self.ancestors_of(p));
        } else {
            self.lemma_ancestor_suffix(p, k - 1);
            let ap = self.ancestors_of(p);
            assert(a[k] == ap[k - 1]);
            assert(a.subrange(k + 1, a.len() as int) =~= ap.subrange(k, ap.len() as int));
        }
    }

    /// A node does not occur among its own ancestors, and no node occurs
    /// there twice.
    pub proof fn lemma_acyclic(&self, id: NodeId)
        requires
            self.wf(),
            self.has(id),
        ensures
            !self.ancestors_of(id).contains(id),
            self.ancestors_of(id).no_duplicates(),
    {
        let a = self.ancestors_of(id);
        if a.contains(id) {
            let k = a.index_of(id);
            self.lemma_ancestor_suffix(id, k);
            assert(a.subrange(k + 1, a.len() as int).len() == a.len());
        }
        assert forall|i: int, j: int| 0 <= i < a.len() && 0 <= j < a.len() && i != j implies a[i]
            != a[j] by {
            self.lemma_ancestor_suffix(id, i);
            self.lemma_ancestor_suffix(id, j);
            assert(a.subrange(i + 1, a.len() as int).len() == a.len() - i - 1);
            assert(a.subrange(j + 1, a.len() as int).len() == a.len() - j - 1);
        }
    }

    /// A node has fewer ancestors than the arena has slots.
    pub proof fn lemma_depth_bound(&self, id: NodeId)
        requires
            self.wf(),
            self.has(id),
        ensures
            self.depth_of(id) < self.len(),
    {
        let a = self.ancestors_of(id);
        self.lemma_acyclic(id);
        let s = Seq::new(a.len() + 1, |k: int| if k < a.len() { a[k].index as int } else { id.index as int });
        assert forall|k: int| 0 <= k < s.len() implies 0 <= #[trigger] s[k] < self.len() by {
            if k < a.len() {
                self.lemma_ancestor_suffix(id, k);
            }
        }
        assert(s.no_duplicates()) by {
            assert forall|i: int, j: int| 0 <= i < s.len() && 0 <= j < s.len() && i != j implies s[i]
                != s[j] by {
                if i < a.len() && j < a.len() {
                    assert(a[i] != a[j]);
                } else if i < a.len() {
                    assert(a.contains(a[i]));
                } else {
                    assert(a.contains(a[j]));
                }
            }
        }
        lemma_distinct_bounded(s, self.len() as int);
    }

    /// The descendants of a node lie at least as deep as the node, and below
    /// the node their ancestors end with the node and its ancestors.
    pub proof fn lemma_subtree_depth(&self, d: NodeId, id: NodeId)
        requires
            self.wf(),
            self.has(d),
            self.in_subtree(d, id),
        ensures
            self.has(id),
            self.depth_of(d) >= self.depth_of(id),
            d != id ==> self.depth_of(d) > self.depth_of(id),
            self.ancestors_of(d).subrange(
                self.depth_of(d) - self.depth_of(id),
                self.depth_of(d) as int,
            ) == self.ancestors_of(id),
            d != id ==> self.ancestors_of(d)[self.depth_of(d) - self.depth_of(id) - 1] == id,
    {
        let a = self.ancestors_of(d);
        if d == id {
            assert(a.subrange(0, a.len() as int) =~= a);
        } else {
            let k = a.index_of(id);
            self.lemma_ancestor_suffix(d, k);
        }
    }

    /// The parent of a proper descendant of `id` lies in the subtree of `id`,
    /// and the parent of a node outside does not.
    pub proof fn lemma_subtree_parent(&self, d: NodeId, id: NodeId)
        requires
            self.wf(),
            self.has(d),
            self.parent_of(d).is_some(),
        ensures
            d != id ==> (self.in_subtree(d, id) <==> self.in_subtree(self.parent_of(d).unwrap(), id)),
    {
        assert(self.node_wf(d));
        let p = self.parent_of(d).unwrap();
        let a = self.ancestors_of(d);
        let ap = self.ancestors_of(p);
        if d != id {
            if self.in_subtree(d, id) {
                let k = a.index_of(id);
                if k > 0 {
                    assert(ap[k - 1] == id);
                }
            }
            if self.in_subtree(p, id) {
                if p == id {
                    assert(a[0] == id);
                } else {
                    let k = ap.index_of(id);
                    assert(a[k + 1] == id);
                }
            }
        }
    }

    /// Every ancestor of a node is a node of the arena.
    pub proof fn lemma_generations(&self, mark: nat)
        requires
            self.wf(),
            mark >= self.len(),
        ensures
            forall|x: NodeId, k: int|
                self.has(x) && 0 <= k < self.ancestors_of(x).len() ==> (#[trigger] self.ancestors_of(
                    x,
                )[k]).index < mark,
    {
        assert forall|x: NodeId, k: int|
            self.has(x) && 0 <= k < self.ancestors_of(x).len() implies (#[trigger] self.ancestors_of(
            x,
        )[k]).index < mark by {
            self.lemma_ancestor_suffix(x, k);
        }
    }

    // ------------------------------------------------------------------
    // Construction and payloads
    // ------------------------------------------------------------------

    /// An arena without nodes.
    pub fn new() -> (r: Self)
        ensures
            r.wf(),
            r.len() == 0,
    {
        TreeArena { links: Vec::new(), data: Vec::new(), kids: Ghost(Seq::empty()), anc: Ghost(Seq::empty()) }
    }

    /// Number of slots ever allocated.
    pub fn slots(&self) -> (r: usize)
        requires
            self.wf(),
        ensures
            r == self.len(),
    {
        self.links.len()
    }

    /// Adds a node that has neither parent nor children and returns its
    /// handle. No other node changes.
    pub fn new_node(&mut self, data: T) -> (id: NodeId)
        requires
            old(self).wf(),
        ensures
            final(self).wf(),
            final(self).len() == old(self).len() + 1,
            id.index == old(self).len(),
            final(self).data_of(id) == data,
            final(self).parent_of(id).is_none(),
            final(self).children_of(id) == Seq::<NodeId>::empty(),
            final(self).ancestors_of(id) == Seq::<NodeId>::empty(),
            !final(self).is_dropped(id),
            final(self).same_nodes(old(self), old(self).len() as int),
    {
        let id = NodeId { index: self.links.len() };
        self.links.push(
            Links {
                parent: None,
                first_child: None,
                last_child: None,
                prev_sibling: None,
                next_sibling: None,
                dropped: false,
            },
        );
        self.data.push(data);
        self.kids = Ghost(self.kids@.push(Seq::empty()));
        self.anc = Ghost(self.anc@.push(Seq::empty()));
        proof {
            assert forall|x: NodeId| self.has(x) implies #[trigger] self.node_wf(x) by {
                if x != id {
                    assert(old(self).node_wf(x));
                    assert(self.link(x) == old(self).link(x));
                    assert(self.children_of(x) == old(self).children_of(x));
                    assert forall|j: int| 0 <= j < self.children_of(x).len() implies #[trigger] self.child_wf(
                        x,
                        j,
                    ) by {
                        assert(old(self).child_wf(x, j));
                    }
                }
            }
        }
        id
    }

    /// The first `n` slots of `self` are those of `other`: same payloads,
    /// parents, children, ancestors and dropped marks.
    pub open spec fn same_nodes(&self, other: &Self, n: int) -> bool {
        &&& forall|x: NodeId| 0 <= x.index < n ==> #[trigger] self.data_of(x) == other.data_of(x)
        &&& forall|x: NodeId| 0 <= x.index < n ==> #[trigger] self.parent_of(x) == other.parent_of(x)
        &&& forall|x: NodeId| 0 <= x.index < n ==> #[trigger] self.children_of(x) == other.children_of(x)
        &&& forall|x: NodeId|
            0 <= x.index < n ==> #[trigger] self.ancestors_of(x) == other.ancestors_of(x)
        &&& forall|x: NodeId| 0 <= x.index < n ==> #[trigger] self.is_dropped(x) == other.is_dropped(x)
    }

    /// The payload of a node.
    pub fn get(&self, id: NodeId) -> (r: &T)
        requires
            self.wf(),
            self.has(id),
        ensures
            *r == self.data_of(id),
    {
        &self.data[id.index]
    }

    /// Puts `data` in the place of the payload of a node and returns the
    /// payload that was there. The forest does not change.
    pub fn replace(&mut self, id: NodeId, data: T) -> (r: T)
        requires
            old(self).wf(),
            old(self).has(id),
        ensures
            final(self).wf(),
            r == old(self).data_of(id),
            final(self).data_of(id) == data,
            final(self).same_shape(old(self)),
            forall|x: NodeId|
                old(self).has(x) && x != id ==> #[trigger] final(self).data_of(x) == old(self).data_of(x),
    {
        self.data.push(data);
        let r = self.data.swap_remove(id.index);
        proof {
            assert(self.data@ =~= old(self).data@.update(id.index as int, data));
            assert forall|x: NodeId| self.has(x) implies #[trigger] self.node_wf(x) by {
                assert(old(self).node_wf(x));
                assert forall|j: int| 0 <= j < self.children_of(x).len() implies #[trigger] self.child_wf(
                    x,
                    j,
                ) by {
                    assert(old(self).child_wf(x, j));
                }
            }
        }
        r
    }

    /// The two arenas hold the same forest: same slots, parents, children,
    /// ancestors and dropped marks.
    pub open spec fn same_shape(&self, other: &Self) -> bool {
        &&& self.len() == other.len()
        &&& forall|x: NodeId| #[trigger] self.parent_of(x) == other.parent_of(x)
        &&& forall|x: NodeId| #[trigger] self.children_of(x) == other.children_of(x)
        &&& forall|x: NodeId| #[trigger] self.ancestors_of(x) == other.ancestors_of(x)
        &&& forall|x: NodeId| #[trigger] self.is_dropped(x) == other.is_dropped(x)
    }

    // ------------------------------------------------------------------
    // Navigation
    // ------------------------------------------------------------------

    /// Whether the node was removed. A handle that addresses no slot counts
    /// as removed.
    pub fn dropped(&self, id: NodeId) -> (r: bool)
        requires
            self.wf(),
        ensures
            r == !self.contains(id),
    {
        if id.index < self.links.len() {
            self.links[id.index].dropped
        } else {
            true
        }
    }

    /// The parent of a node.
    pub fn parent(&self, id: NodeId) -> (r: Option<NodeId>)
        requires
            self.wf(),
            self.has(id),
        ensures
            r == self.parent_of(id),
            r.is_some() ==> self.has(r.unwrap()),
    {
        proof {
            assert(self.node_wf(id));
        }
        self.links[id.index].parent
    }

    /// The first child of a node.
    pub fn first_child(&self, id: NodeId) -> (r: Option<NodeId>)
        requires
            self.wf(),
            self.has(id),
        ensures
            r == self.first_child_of(id),
            r.is_some() ==> self.has(r.unwrap()),
    {
        proof {
            assert(self.node_wf(id));
            if self.children_of(id).len() > 0 {
                assert(self.child_wf(id, 0));
            }
        }
        self.links[id.index].first_child
    }

    /// The last child of a node.
    pub fn last_child(&self, id: NodeId) -> (r: Option<NodeId>)
        requires
            self.wf(),
            self.has(id),
        ensures
            r == self.last_child_of(id),
            r.is_some() ==> self.has(r.unwrap()),
    {
        proof {
            assert(self.node_wf(id));
            if self.children_of(id).len() > 0 {
                assert(self.child_wf(id, self.children_of(id).len() - 1));
            }
        }
        self.links[id.index].last_child
    }

    /// The sibling that follows a node.
    pub fn next_sibling(&self, id: NodeId) -> (r: Option<NodeId>)
        requires
            self.wf(),
            self.has(id),
        ensures
            r == self.next_sibling_of(id),
            r.is_some() ==> self.has(r.unwrap()),
    {
        proof {
            assert(self.node_wf(id));
            if self.parent_of(id).is_some() {
                let p = self.parent_of(id).unwrap();
                self.lemma_position_of_child(id);
                let j = self.position_of(id);
                assert(self.node_wf(p));
                assert(self.child_wf(p, j));
                if j + 1 < self.children_of(p).len() {
                    assert(self.child_wf(p, j + 1));
                }
            }
        }
        self.links[id.index].next_sibling
    }

    /// The sibling before a node.
    pub fn prev_sibling(&self, id: NodeId) -> (r: Option<NodeId>)
        requires
            self.wf(),
            self.has(id),
        ensures
            r == self.prev_sibling_of(id),
            r.is_some() ==> self.has(r.unwrap()),
    {
        proof {
            assert(self.node_wf(id));
            if self.parent_of(id).is_some() {
                let p = self.parent_of(id).unwrap();
                self.lemma_position_of_child(id);
                let j = self.position_of(id);
                assert(self.node_wf(p));
                assert(self.child_wf(p, j));
                if j > 0 {
                    assert(self.child_wf(p, j - 1));
                }
            }
        }
        self.links[id.index].prev_sibling
    }

    // ------------------------------------------------------------------
    // Structural change
    // ------------------------------------------------------------------

    /// The forest of `self` is that of `before` with `id` taken out of the
    /// children of its parent: the subtree of `id` is a tree of its own, and
    /// every payload is as it was.
    pub open spec fn unlinked_from(&self, before: &Self, id: NodeId) -> bool {
        &&& self.len() == before.len()
        &&& forall|x: NodeId| before.has(x) ==> #[trigger] self.data_of(x) == before.data_of(x)
        &&& forall|x: NodeId|
            before.has(x) ==> #[trigger] self.parent_of(x) == if x == id {
                None
            } else {
                before.parent_of(x)
            }
        &&& forall|x: NodeId|
            before.has(x) ==> #[trigger] self.children_of(x) == if before.parent_of(id) == Some(x) {
                before.children_of(x).remove(before.position_of(id))
            } else {
                before.children_of(x)
            }
        &&& forall|x: NodeId|
            before.has(x) ==> #[trigger] self.ancestors_of(x) == if before.in_subtree(x, id) {
                before.ancestors_of(x).subrange(0, before.depth_of(x) - before.depth_of(id))
            } else {
                before.ancestors_of(x)
            }
    }

    /// `self` is `before` after `id` was detached: unlinked, and no node
    /// newly dropped.
    pub open spec fn detached_from(&self, before: &Self, id: NodeId) -> bool {
        &&& self.unlinked_from(before, id)
        &&& forall|x: NodeId| before.has(x) ==> #[trigger] self.is_dropped(x) == before.is_dropped(x)
    }

    /// `self` is `before` after the subtree of `id` was removed: unlinked, and
    /// exactly the nodes of that subtree newly dropped.
    pub open spec fn removed_from(&self, before: &Self, id: NodeId) -> bool {
        &&& self.unlinked_from(before, id)
        &&& forall|x: NodeId|
            before.has(x) ==> #[trigger] self.is_dropped(x) == (before.is_dropped(x)
                || before.in_subtree(x, id))
    }

    /// `self` is `before` after the tree rooted at `node` was made the child
    /// of `p` at position `j`, and nothing else changed.
    pub open spec fn attached_to(&self, before: &Self, node: NodeId, p: NodeId, j: int) -> bool {
        &&& self.len() == before.len()
        &&& forall|x: NodeId| before.has(x) ==> #[trigger] self.data_of(x) == before.data_of(x)
        &&& forall|x: NodeId| before.has(x) ==> #[trigger] self.is_dropped(x) == before.is_dropped(x)
        &&& forall|x: NodeId|
            before.has(x) ==> #[trigger] self.parent_of(x) == if x == node {
                Some(p)
            } else {
                before.parent_of(x)
            }
        &&& forall|x: NodeId|
            before.has(x) ==> #[trigger] self.children_of(x) == if x == p {
                before.children_of(x).insert(j, node)
            } else {
                before.children_of(x)
            }
        &&& forall|x: NodeId|
            before.has(x) ==> #[trigger] self.ancestors_of(x) == if before.in_subtree(x, node) {
                before.ancestors_of(x) + seq![p] + before.ancestors_of(p)
            } else {
                before.ancestors_of(x)
            }
    }

    /// Takes `id` and its subtree out of the children of its parent, without
    /// removing anything: the subtree stays walkable as a tree of its own. A
    /// node without a parent is left as it is.
    pub fn detach(&mut self, id: NodeId)
        requires
            old(self).wf(),
            old(self).has(id),
        ensures
            final(self).wf(),
            final(self).detached_from(old(self), id),
            old(self).parent_of(id).is_none() ==> *final(self) == *old(self),
    {
        let l = self.links[id.index];
        proof {
            if l.parent.is_none() {
                assert(self.node_wf(id));
                assert forall|x: NodeId| self.has(x) implies #[trigger] self.ancestors_of(x)
                    == if self.in_subtree(x, id) {
                    self.ancestors_of(x).subrange(0, self.depth_of(x) - self.depth_of(id))
                } else {
                    self.ancestors_of(x)
                } by {
                    assert(self.ancestors_of(x).subrange(0, self.depth_of(x) as int)
                        =~= self.ancestors_of(x));
                }
            }
        }
        if let Some(p) = l.parent {
            let ghost j = self.position_of(id);
            let ghost ks = self.children_of(p);
            proof {
                self.lemma_position_of_child(id);
                assert(self.node_wf(id));
                assert(self.node_wf(p));
                assert(self.child_wf(p, j));
                if j > 0 {
                    assert(self.child_wf(p, j - 1));
                }
                if j + 1 < ks.len() {
                    assert(self.child_wf(p, j + 1));
                }
                self.lemma_acyclic(id);
            }
            match l.prev_sibling {
                Some(pr) => {
                    let mut lp = self.links[pr.index];
                    lp.next_sibling = l.next_sibling;
                    self.links.set(pr.index, lp);
                },
                None => {
                    let mut lp = self.links[p.index];
                    lp.first_child = l.next_sibling;
                    self.links.set(p.index, lp);
                },
            }
            match l.next_sibling {
                Some(nx) => {
                    let mut ln = self.links[nx.index];
                    ln.prev_sibling = l.prev_sibling;
                    self.links.set(nx.index, ln);
                },
                None => {
                    let mut lp = self.links[p.index];
                    lp.last_child = l.prev_sibling;
                    self.links.set(p.index, lp);
                },
            }
            let mut li = l;
            li.parent = None;
            li.prev_sibling = None;
            li.next_sibling = None;
            self.links.set(id.index, li);
            let ghost before = *old(self);
            let ghost cut = before.depth_of(id);
            self.kids = Ghost(self.kids@.update(p.index as int, ks.remove(j)));
            self.anc = Ghost(
                Seq::new(
                    before.anc@.len(),
                    |i: int|
                        if before.anc@[i].contains(id) || i == id.index {
                            before.anc@[i].subrange(0, before.anc@[i].len() - cut)
                        } else {
                            before.anc@[i]
                        },
                ),
            );
            proof {
                assert forall|x: NodeId| self.has(x) implies #[trigger] self.node_wf(x) by {
                    assert(before.node_wf(x));
                    before.lemma_detach_children(self, id, x);
                    before.lemma_detach_ancestors(self, id, x);
                }
                assert(self.detached_from(&before, id));
            }
        }
    }

    /// The links of `after` are those of `self` but for what `detach(id)`
    /// rewrites.
    spec fn detach_links(&self, after: &Self, id: NodeId) -> bool {
        let p = self.link(id).parent.unwrap();
        let ks = self.children_of(p);
        let j = self.position_of(id);
        &&& after.links@.len() == self.links@.len()
        &&& after.kids@ == self.kids@.update(p.index as int, ks.remove(j))
        &&& forall|x: NodeId|
            self.has(x) ==> {
                let a = self.link(x);
                let b = #[trigger] after.link(x);
                &&& b.dropped == a.dropped
                &&& b.parent == if x == id {
                    None
                } else {
                    a.parent
                }
                &&& b.prev_sibling == if x == id {
                    None
                } else if Some(x) == seq_at(ks, j + 1) {
                    seq_at(ks, j - 1)
                } else {
                    a.prev_sibling
                }
                &&& b.next_sibling == if x == id {
                    None
                } else if Some(x) == seq_at(ks, j - 1) {
                    seq_at(ks, j + 1)
                } else {
                    a.next_sibling
                }
                &&& b.first_child == if x == p {
                    seq_first(ks.remove(j))
                } else {
                    a.first_child
                }
                &&& b.last_child == if x == p {
                    seq_last(ks.remove(j))
                } else {
                    a.last_child
                }
            }
    }

    /// After a detach the links of every node agree with the children of the
    /// forest.
    proof fn lemma_detach_children(&self, after: &Self, id: NodeId, x: NodeId)
        requires
            self.wf(),
            self.has(id),
            self.has(x),
            self.link(id).parent.is_some(),
            self.detach_links(after, id),
        ensures
            after.children_of(x).no_duplicates(),
            after.link(x).first_child == seq_first(after.children_of(x)),
            after.link(x).last_child == seq_last(after.children_of(x)),
            forall|i: int| 0 <= i < after.children_of(x).len() ==> #[trigger] after.child_wf(x, i),
            after.link(x).parent.is_none() ==> after.link(x).prev_sibling.is_none() && after.link(
                x,
            ).next_sibling.is_none(),
            after.link(x).parent.is_some() ==> after.has(after.link(x).parent.unwrap())
                && after.children_of(after.link(x).parent.unwrap()).contains(x) && after.link(x).dropped
                == after.link(after.link(x).parent.unwrap()).dropped,
    {
        let p = self.link(id).parent.unwrap();
        let ks = self.children_of(p);
        let j = self.position_of(id);
        self.lemma_position_of_child(id);
        assert(self.node_wf(x));
        assert(self.node_wf(p));
        assert(self.node_wf(id));
        let ks2 = ks.remove(j);
        assert forall|i: int| 0 <= i < ks.len() implies self.child_wf(p, i) by {}
        if x == p {
            assert(after.children_of(x) == ks2);
            assert forall|a: int, b: int| 0 <= a < ks2.len() && 0 <= b < ks2.len() && a != b implies ks2[a]
                != ks2[b] by {
                let a2 = if a < j { a } else { a + 1 };
                let b2 = if b < j { b } else { b + 1 };
                assert(ks2[a] == ks[a2]);
                assert(ks2[b] == ks[b2]);
            }
            assert forall|i: int| 0 <= i < ks2.len() implies #[trigger] after.child_wf(x, i) by {
                let i2 = if i < j { i } else { i + 1 };
                assert(ks2[i] == ks[i2]);
                assert(self.child_wf(p, i2));
                assert(ks[i2] != id);
                if i > 0 {
                    let h2 = if i - 1 < j { i - 1 } else { i };
                    assert(ks2[i - 1] == ks[h2]);
                }
                if i + 1 < ks2.len() {
                    let n2 = if i + 1 < j { i + 1 } else { i + 2 };
                    assert(ks2[i + 1] == ks[n2]);
                }
            }
        } else {
            assert(after.children_of(x) == self.children_of(x));
            assert forall|i: int| 0 <= i < after.children_of(x).len() implies #[trigger] after.child_wf(
                x,
                i,
            ) by {
                assert(self.child_wf(x, i));
                let c = self.children_of(x)[i];
                assert(c != id);
                if j > 0 {
                    assert(self.child_wf(p, j - 1));
                }
                if j + 1 < ks.len() {
                    assert(self.child_wf(p, j + 1));
                }
            }
        }
        if after.link(x).parent.is_some() {
            let q = after.link(x).parent.unwrap();
            assert(x != id);
            if q == p {
                let i = ks.index_of(x);
                assert(ks[i] == x);
                let i2 = if i < j { i } else { i - 1 };
                assert(ks2[i2] == x);
            }
        } else {
            if x != id {
                if j > 0 {
                    assert(self.child_wf(p, j - 1));
                }
                if j + 1 < ks.len() {
                    assert(self.child_wf(p, j + 1));
                }
            }
        }
    }

    /// After a detach the ancestors of every node are its parent and the
    /// ancestors of the parent.
    proof fn lemma_detach_ancestors(&self, after: &Self, id: NodeId, x: NodeId)
        requires
            self.wf(),
            self.has(id),
            self.has(x),
            self.link(id).parent.is_some(),
            after.anc@.len() == self.anc@.len(),
            after.links@.len() == self.links@.len(),
            forall|y: NodeId|
                self.has(y) ==> (#[trigger] after.link(y)).parent == if y == id {
                    None
                } else {
                    self.link(y).parent
                },
            forall|y: NodeId|
                self.has(y) ==> #[trigger] after.ancestors_of(y) == if self.in_subtree(y, id) {
                    self.ancestors_of(y).subrange(0, self.depth_of(y) - self.depth_of(id))
                } else {
                    self.ancestors_of(y)
                },
        ensures
            match after.link(x).parent {
                Some(q) => after.ancestors_of(x) == seq![q] + after.ancestors_of(q),
                None => after.ancestors_of(x) == Seq::<NodeId>::empty(),
            },
    {
        assert(self.node_wf(x));
        if x == id {
            assert(after.ancestors_of(x) =~= Seq::<NodeId>::empty());
        } else {
            match self.link(x).parent {
                Some(q) => {
                    self.lemma_subtree_parent(x, id);
                    let a = self.ancestors_of(x);
                    let aq = self.ancestors_of(q);
                    if self.in_subtree(x, id) {
                        self.lemma_subtree_depth(q, id);
                        let cut = self.depth_of(id) as int;
                        assert(a.subrange(0, a.len() - cut) =~= seq![q] + aq.subrange(
                            0,
                            aq.len() - cut,
                        ));
                    }
                },
                None => {},
            }
        }
    }

    /// The links of `after` are those of `self` but for what attaching `node`
    /// under `p` at position `j` rewrites.
    spec fn attach_links(&self, after: &Self, node: NodeId, p: NodeId, j: int) -> bool {
        let ks = self.children_of(p);
        let ks2 = ks.insert(j, node);
        &&& after.links@.len() == self.links@.len()
        &&& after.kids@ == self.kids@.update(p.index as int, ks2)
        &&& forall|x: NodeId|
            self.has(x) ==> {
                let a = self.link(x);
                let b = #[trigger] after.link(x);
                &&& b.dropped == a.dropped
                &&& b.parent == if x == node {
                    Some(p)
                } else {
                    a.parent
                }
                &&& b.prev_sibling == if x == node {
                    seq_at(ks, j - 1)
                } else if Some(x) == seq_at(ks, j) {
                    Some(node)
                } else {
                    a.prev_sibling
                }
                &&& b.next_sibling == if x == node {
                    seq_at(ks, j)
                } else if Some(x) == seq_at(ks, j - 1) {
                    Some(node)
                } else {
                    a.next_sibling
                }
                &&& b.first_child == if x == p {
                    seq_first(ks2)
                } else {
                    a.first_child
                }
                &&& b.last_child == if x == p {
                    seq_last(ks2)
                } else {
                    a.last_child
                }
            }
    }

    /// After an attach the links of every node agree with the children of
    /// the forest.
    proof fn lemma_attach_children(&self, after: &Self, node: NodeId, p: NodeId, j: int, x: NodeId)
        requires
            self.wf(),
            self.has(node),
            self.has(p),
            self.has(x),
            self.link(node).parent.is_none(),
            node != p,
            !self.ancestors_of(p).contains(node),
            self.link(node).dropped == self.link(p).dropped,
            0 <= j <= self.children_of(p).len(),
            self.attach_links(after, node, p, j),
        ensures
            after.children_of(x).no_duplicates(),
            after.link(x).first_child == seq_first(after.children_of(x)),
            after.link(x).last_child == seq_last(after.children_of(x)),
            forall|i: int| 0 <= i < after.children_of(x).len() ==> #[trigger] after.child_wf(x, i),
            after.link(x).parent.is_none() ==> after.link(x).prev_sibling.is_none() && after.link(
                x,
            ).next_sibling.is_none(),
            after.link(x).parent.is_some() ==> after.has(after.link(x).parent.unwrap())
                && after.children_of(after.link(x).parent.unwrap()).contains(x) && after.link(x).dropped
                == after.link(after.link(x).parent.unwrap()).dropped,
    {
        let ks = self.children_of(p);
        let ks2 = ks.insert(j, node);
        assert(self.node_wf(x));
        assert(self.node_wf(p));
        assert(self.node_wf(node));
        assert forall|i: int| 0 <= i < ks.len() implies self.child_wf(p, i) && ks[i] != node by {
            assert(self.child_wf(p, i));
        }
        if x == p {
            assert(after.children_of(x) == ks2);
            assert forall|a: int, b: int| 0 <= a < ks2.len() && 0 <= b < ks2.len() && a != b implies ks2[a]
                != ks2[b] by {
                let a2 = if a < j { a } else { a - 1 };
                let b2 = if b < j { b } else { b - 1 };
                if a != j {
                    assert(ks2[a] == ks[a2]);
                }
                if b != j {
                    assert(ks2[b] == ks[b2]);
                }
            }
            assert forall|i: int| 0 <= i < ks2.len() implies #[trigger] after.child_wf(x, i) by {
                if i > 0 && i - 1 != j {
                    let h2 = if i - 1 < j { i - 1 } else { i - 2 };
                    assert(ks2[i - 1] == ks[h2]);
                }
                if i + 1 < ks2.len() && i + 1 != j {
                    let n2 = if i + 1 < j { i + 1 } else { i };
                    assert(ks2[i + 1] == ks[n2]);
                }
                if i != j {
                    let i2 = if i < j { i } else { i - 1 };
                    assert(ks2[i] == ks[i2]);
                    assert(self.child_wf(p, i2));
                }
            }
        } else {
            assert(after.children_of(x) == self.children_of(x));
            assert forall|i: int| 0 <= i < after.children_of(x).len() implies #[trigger] after.child_wf(
                x,
                i,
            ) by {
                assert(self.child_wf(x, i));
                let c = self.children_of(x)[i];
                assert(c != node);
                if x == node {
                    if c == p {
                        assert(self.node_wf(p));
                        assert(self.ancestors_of(p)[0] == node);
                    }
                }
            }
        }
        if x == node {
            assert(ks2[j] == node);
        } else if after.link(x).parent.is_some() {
            let q = after.link(x).parent.unwrap();
            if q == p {
                let i = ks.index_of(x);
                assert(ks[i] == x);
                let i2 = if i < j { i } else { i + 1 };
                assert(ks2[i2] == x);
            }
        } else {
        }
    }

    /// After an attach the ancestors of every node are its parent and the
    /// ancestors of the parent.
    proof fn lemma_attach_ancestors(&self, after: &Self, node: NodeId, p: NodeId, x: NodeId)
        requires
            self.wf(),
            self.has(node),
            self.has(p),
            self.has(x),
            self.link(node).parent.is_none(),
            node != p,
            !self.ancestors_of(p).contains(node),
            after.anc@.len() == self.anc@.len(),
            after.links@.len() == self.links@.len(),
            forall|y: NodeId|
                self.has(y) ==> (#[trigger] after.link(y)).parent == if y == node {
                    Some(p)
                } else {
                    self.link(y).parent
                },
            forall|y: NodeId|
                self.has(y) ==> #[trigger] after.ancestors_of(y) == if self.in_subtree(y, node) {
                    self.ancestors_of(y) + seq![p] + self.ancestors_of(p)
                } else {
                    self.ancestors_of(y)
                },
        ensures
            match after.link(x).parent {
                Some(q) => after.ancestors_of(x) == seq![q] + after.ancestors_of(q),
                None => after.ancestors_of(x) == Seq::<NodeId>::empty(),
            },
    {
        assert(self.node_wf(x));
        assert(self.node_wf(node));
        if x == node {
            assert(after.ancestors_of(x) =~= seq![p] + after.ancestors_of(p));
        } else {
            match self.link(x).parent {
                Some(q) => {
                    self.lemma_subtree_parent(x, node);
                    let tail = seq![p] + self.ancestors_of(p);
                    if self.in_subtree(x, node) {
                        assert(self.ancestors_of(x) + seq![p] + self.ancestors_of(p) =~= seq![q] + (
                        self.ancestors_of(q) + seq![p] + self.ancestors_of(p)));
                    }
                },
                None => {},
            }
        }
    }

    /// Makes the tree rooted at `node` the child of `p` between `prev` and
    /// `next`, which are the children of `p` at positions `j - 1` and `j`.
    fn link_at(&mut self, p: NodeId, prev: Option<NodeId>, next: Option<NodeId>, node: NodeId, Ghost(j): Ghost<int>)
        requires
            old(self).wf(),
            old(self).has(p),
            old(self).has(node),
            old(self).parent_of(node).is_none(),
            node != p,
            !old(self).ancestors_of(p).contains(node),
            old(self).is_dropped(node) == old(self).is_dropped(p),
            0 <= j <= old(self).children_of(p).len(),
            prev == seq_at(old(self).children_of(p), j - 1),
            next == seq_at(old(self).children_of(p), j),
        ensures
            final(self).wf(),
            final(self).attached_to(old(self), node, p, j),
    {
        let ghost before = *old(self);
        let ghost ks = self.children_of(p);
        proof {
            assert(self.node_wf(p));
            assert(self.node_wf(node));
            if j > 0 {
                assert(self.child_wf(p, j - 1));
            }
            if j < ks.len() {
                assert(self.child_wf(p, j));
            }
        }
        let mut ln = self.links[node.index];
        ln.parent = Some(p);
        ln.prev_sibling = prev;
        ln.next_sibling = next;
        self.links.set(node.index, ln);
        match prev {
            Some(pr) => {
                let mut l = self.links[pr.index];
                l.next_sibling = Some(node);
                self.links.set(pr.index, l);
            },
            None => {
                let mut l = self.links[p.index];
                l.first_child = Some(node);
                self.links.set(p.index, l);
            },
        }
        match next {
            Some(nx) => {
                let mut l = self.links[nx.index];
                l.prev_sibling = Some(node);
                self.links.set(nx.index, l);
            },
            None => {
                let mut l = self.links[p.index];
                l.last_child = Some(node);
                self.links.set(p.index, l);
            },
        }
        self.kids = Ghost(self.kids@.update(p.index as int, ks.insert(j, node)));
        self.anc = Ghost(
            Seq::new(
                before.anc@.len(),
                |i: int|
                    if before.anc@[i].contains(node) || i == node.index {
                        before.anc@[i] + seq![p] + before.anc@[p.index as int]
                    } else {
                        before.anc@[i]
                    },
            ),
        );
        proof {
            assert forall|i: int| 0 <= i < ks.len() implies ks[i] != node by {
                assert(before.child_wf(p, i));
            }
            assert forall|x: NodeId| self.has(x) implies #[trigger] self.node_wf(x) by {
                assert(before.node_wf(x));
                before.lemma_attach_children(self, node, p, j, x);
                before.lemma_attach_ancestors(self, node, p, x);
            }
            assert(self.attached_to(&before, node, p, j));
        }
    }

    /// Makes the tree rooted at `node` the last child of `parent`.
    pub fn append(&mut self, parent: NodeId, node: NodeId)
        requires
            old(self).wf(),
            old(self).has(parent),
            old(self).has(node),
            old(self).parent_of(node).is_none(),
            !old(self).in_subtree(parent, node),
            old(self).is_dropped(node) == old(self).is_dropped(parent),
        ensures
            final(self).wf(),
            final(self).attached_to(old(self), node, parent, old(self).children_of(parent).len() as int),
    {
        let last = self.last_child(parent);
        self.link_at(parent, last, None, node, Ghost(self.children_of(parent).len() as int));
    }

    /// Makes the tree rooted at `node` the sibling just before `anchor`.
    pub fn insert_before(&mut self, anchor: NodeId, node: NodeId)
        requires
            old(self).wf(),
            old(self).has(anchor),
            old(self).has(node),
            old(self).parent_of(anchor).is_some(),
            old(self).parent_of(node).is_none(),
            !old(self).ancestors_of(anchor).contains(node),
            old(self).is_dropped(node) == old(self).is_dropped(anchor),
        ensures
            final(self).wf(),
            final(self).attached_to(
                old(self),
                node,
                old(self).parent_of(anchor).unwrap(),
                old(self).position_of(anchor),
            ),
    {
        let l = self.links[anchor.index];
        let p = l.parent.unwrap();
        proof {
            self.lemma_position_of_child(anchor);
            assert(self.node_wf(anchor));
            assert(self.node_wf(p));
            assert(self.child_wf(p, self.position_of(anchor)));
            assert(self.ancestors_of(anchor)[0] == p);
            assert forall|k: int| 0 <= k < self.ancestors_of(p).len() implies self.ancestors_of(p)[k]
                != node by {
                assert(self.ancestors_of(anchor)[k + 1] == self.ancestors_of(p)[k]);
            }
        }
        self.link_at(p, l.prev_sibling, Some(anchor), node, Ghost(self.position_of(anchor)));
    }

    /// Makes the tree rooted at `node` the sibling just after `anchor`.
    pub fn insert_after(&mut self, anchor: NodeId, node: NodeId)
        requires
            old(self).wf(),
            old(self).has(anchor),
            old(self).has(node),
            old(self).parent_of(anchor).is_some(),
            old(self).parent_of(node).is_none(),
            !old(self).ancestors_of(anchor).contains(node),
            old(self).is_dropped(node) == old(self).is_dropped(anchor),
        ensures
            final(self).wf(),
            final(self).attached_to(
                old(self),
                node,
                old(self).parent_of(anchor).unwrap(),
                old(self).position_of(anchor) + 1,
            ),
    {
        let l = self.links[anchor.index];
        let p = l.parent.unwrap();
        proof {
            self.lemma_position_of_child(anchor);
            assert(self.node_wf(anchor));
            assert(self.node_wf(p));
            assert(self.child_wf(p, self.position_of(anchor)));
            assert(self.ancestors_of(anchor)[0] == p);
            assert forall|k: int| 0 <= k < self.ancestors_of(p).len() implies self.ancestors_of(p)[k]
                != node by {
                assert(self.ancestors_of(anchor)[k + 1] == self.ancestors_of(p)[k]);
            }
        }
        self.link_at(p, Some(anchor), l.next_sibling, node, Ghost(self.position_of(anchor) + 1));
    }

    /// Detaches `id` and marks it and all its descendants as dropped. Their
    /// slots stay, so that a stale handle can still be recognised.
    #[verifier::loop_isolation(false)]
    pub fn remove_subtree(&mut self, id: NodeId)
        requires
            old(self).wf(),
            old(self).has(id),
        ensures
            final(self).wf(),
            final(self).removed_from(old(self), id),
    {
        self.detach(id);
        let ghost mid = *self;
        let ds = self.descendants(id);
        proof {
            mid.lemma_descendants(id);
            assert forall|k: int| 0 <= k < ds@.len() implies mid.has(#[trigger] ds@[k]) by {
                assert(mid.descendants_of(id).contains(ds@[k]));
            }
        }
        let mut i: usize = 0;
        while i < ds.len()
            invariant
                i <= ds.len(),
                mid.wf(),
                mid.has(id),
                ds@ == mid.descendants_of(id),
                forall|k: int| 0 <= k < ds@.len() ==> mid.has(#[trigger] ds@[k]),
                self.links@.len() == mid.links@.len(),
                self.data == mid.data,
                self.kids == mid.kids,
                self.anc == mid.anc,
                forall|x: NodeId|
                    mid.has(x) ==> {
                        let a = mid.link(x);
                        let b = #[trigger] self.link(x);
                        &&& b.parent == a.parent
                        &&& b.first_child == a.first_child
                        &&& b.last_child == a.last_child
                        &&& b.prev_sibling == a.prev_sibling
                        &&& b.next_sibling == a.next_sibling
                        &&& b.dropped == (a.dropped || ds@.subrange(0, i as int).contains(x))
                    },
            decreases ds.len() - i,
        {
            let d = ds[i];
            let ghost prev = *self;
            let mut l = self.links[d.index];
            l.dropped = true;
            self.links.set(d.index, l);
            proof {
                let pre = ds@.subrange(0, i as int);
                let post = ds@.subrange(0, i + 1);
                assert(post =~= pre.push(d));
                assert forall|x: NodeId| mid.has(x) implies {
                    let a = mid.link(x);
                    let b = #[trigger] self.link(x);
                    &&& b.parent == a.parent
                    &&& b.first_child == a.first_child
                    &&& b.last_child == a.last_child
                    &&& b.prev_sibling == a.prev_sibling
                    &&& b.next_sibling == a.next_sibling
                    &&& b.dropped == (a.dropped || post.contains(x))
                } by {
                    vstd::seq_lib::lemma_seq_contains_after_push(pre, d, x);
                    assert(prev.link(x).dropped == (mid.link(x).dropped || pre.contains(x)));
                    if x != d {
                        assert(self.link(x) == prev.link(x));
                    }
                }
            }
            i = i + 1;
        }
        proof {
            mid.lemma_descendants(id);
            assert forall|x: NodeId| old(self).has(x) implies (mid.in_subtree(x, id) <==> old(self).in_subtree(x, id)) by {
                if old(self).in_subtree(x, id) && x != id {
                    old(self).lemma_subtree_depth(x, id);
                    let m = old(self).depth_of(x) - old(self).depth_of(id) - 1;
                    assert(mid.ancestors_of(x)[m] == id);
                }
                if mid.in_subtree(x, id) && x != id {
                    if !old(self).in_subtree(x, id) {
                        assert(mid.ancestors_of(x) == old(self).ancestors_of(x));
                    }
                }
            }
            assert(ds@.subrange(0, i as int) =~= ds@);
            assert forall|x: NodeId| self.has(x) implies #[trigger] self.node_wf(x) by {
                assert(mid.node_wf(x));
                assert(self.link(x).parent == mid.link(x).parent);
                assert forall|j: int| 0 <= j < self.children_of(x).len() implies #[trigger] self.child_wf(
                    x,
                    j,
                ) by {
                    assert(mid.child_wf(x, j));
                    let c = self.children_of(x)[j];
                    assert(self.link(c).parent == mid.link(c).parent);
                }
                if mid.link(x).parent.is_some() {
                    let q = mid.link(x).parent.unwrap();
                    mid.lemma_subtree_parent(x, id);
                    assert(self.link(q).dropped == (mid.link(q).dropped || ds@.contains(q)));
                    assert(mid.node_wf(id));
                }
            }
            assert forall|x: NodeId| old(self).has(x) implies #[trigger] self.is_dropped(x) == (old(self).is_dropped(x) || old(self).in_subtree(x, id)) by {
                assert(self.link(x).dropped == (mid.link(x).dropped || ds@.contains(x)));
                assert(mid.is_dropped(x) == old(self).is_dropped(x));
                assert(mid.descendants_of(id).contains(x) <==> mid.in_subtree(x, id));
                assert(mid.in_subtree(x, id) <==> old(self).in_subtree(x, id));
            }
            assert forall|x: NodeId| old(self).has(x) implies #[trigger] self.parent_of(x) == mid.parent_of(
                x,
            ) by {
                assert(self.link(x).parent == mid.link(x).parent);
            }
            assert(self.len() == old(self).len());
            assert forall|x: NodeId| old(self).has(x) implies #[trigger] self.data_of(x) == old(self).data_of(x) by {
                assert(self.data_of(x) == mid.data_of(x));
            }
            assert forall|x: NodeId| old(self).has(x) implies #[trigger] self.children_of(x) == mid.children_of(
                x,
            ) by {}
            assert forall|x: NodeId| old(self).has(x) implies #[trigger] self.ancestors_of(x)
                == mid.ancestors_of(x) by {}
            assert(self.unlinked_from(old(self), id));
        }
    }

    // ------------------------------------------------------------------
    // Walks
    // ------------------------------------------------------------------

    /// The children of a node, first to last.
    pub fn children(&self, id: NodeId) -> (r: Vec<NodeId>)
        requires
            self.wf(),
            self.has(id),
        ensures
            r@ == self.children_of(id),
    {
        let mut out: Vec<NodeId> = Vec::new();
        let mut c = self.first_child(id);
        let ghost ks = self.children_of(id);
        while c.is_some()
            invariant
                self.wf(),
                self.has(id),
                ks == self.children_of(id),
                out@.len() <= ks.len(),
                out@ == ks.subrange(0, out@.len() as int),
                c == seq_at(ks, out@.len() as int),
            decreases ks.len() - out@.len(),
        {
            let ch = c.unwrap();
            proof {
                self.lemma_model();
                self.lemma_position(id, out@.len() as int);
            }
            let ghost before = out@;
            out.push(ch);
            c = self.next_sibling(ch);
            proof {
                assert(out@ =~= ks.subrange(0, out@.len() as int));
            }
        }
        proof {
            assert(ks.subrange(0, ks.len() as int) =~= ks);
        }
        out
    }

    /// The ancestors of a node, from its parent up to the root of its tree.
    pub fn ancestors(&self, id: NodeId) -> (r: Vec<NodeId>)
        requires
            self.wf(),
            self.has(id),
        ensures
            r@ == self.ancestors_of(id),
    {
        let mut out: Vec<NodeId> = Vec::new();
        let mut cur = self.parent(id);
        let ghost all = self.ancestors_of(id);
        proof {
            self.lemma_model();
        }
        while cur.is_some()
            invariant
                self.wf(),
                self.has(id),
                all == self.ancestors_of(id),
                out@.len() <= all.len(),
                out@ == all.subrange(0, out@.len() as int),
                cur == seq_at(all, out@.len() as int),
                cur.is_some() ==> self.has(cur.unwrap()),
            decreases all.len() - out@.len(),
        {
            let p = cur.unwrap();
            proof {
                self.lemma_ancestor_suffix(id, out@.len() as int);
                self.lemma_model();
                let k = out@.len() as int;
                let rest = all.subrange(k + 1, all.len() as int);
                assert(self.ancestors_of(p) == rest);
                if self.parent_of(p).is_some() {
                    assert(rest[0] == all[k + 1]);
                }
            }
            out.push(p);
            cur = self.parent(p);
            proof {
                assert(out@ =~= all.subrange(0, out@.len() as int));
            }
        }
        proof {
            assert(all.subrange(0, all.len() as int) =~= all);
        }
        out
    }

    /// Whether `d` is `id` or one of its descendants.
    pub fn is_in_subtree(&self, d: NodeId, id: NodeId) -> (r: bool)
        requires
            self.wf(),
            self.has(d),
        ensures
            r == self.in_subtree(d, id),
    {
        if d == id {
            return true;
        }
        let up = self.ancestors(d);
        let mut i: usize = 0;
        while i < up.len()
            invariant
                i <= up.len(),
                up@ == self.ancestors_of(d),
                forall|k: int| 0 <= k < i ==> up@[k] != id,
            decreases up.len() - i,
        {
            if up[i] == id {
                return true;
            }
            i = i + 1;
        }
        false
    }

    /// The only child of a node that has at most one child.
    pub fn single_child(&self, id: NodeId) -> (r: Option<NodeId>)
        requires
            self.wf(),
            self.has(id),
            self.children_of(id).len() <= 1,
        ensures
            r == self.first_child_of(id),
            r.is_some() ==> self.has(r.unwrap()),
    {
        self.first_child(id)
    }

    /// Whether the node has at most one child.
    pub fn has_single_child_at_most(&self, id: NodeId) -> (r: bool)
        requires
            self.wf(),
            self.has(id),
        ensures
            r == (self.children_of(id).len() <= 1),
    {
        let first = self.first_child(id);
        let last = self.last_child(id);
        proof {
            self.lemma_model();
            let ks = self.children_of(id);
            if ks.len() > 1 {
                assert(ks[0] != ks[ks.len() - 1]);
            }
        }
        match (first, last) {
            (Some(a), Some(b)) => a.index == b.index,
            _ => true,
        }
    }

    /// Appends to `out` the nodes of the subtree of `id`, in document order.
    fn collect(&self, id: NodeId, out: &mut Vec<NodeId>)
        requires
            self.wf(),
            self.has(id),
        ensures
            final(out)@ == old(out)@ + self.descendants_of(id),
        decreases self.len() - self.depth_of(id),
    {
        let ghost out0 = out@;
        let ghost ks = self.children_of(id);
        out.push(id);
        let mut c = self.first_child(id);
        let ghost mut k: int = 0;
        proof {
            assert(out@ + self.descendants_from(id, 0) =~= out0 + self.descendants_of(id));
        }
        while c.is_some()
            invariant
                self.wf(),
                self.has(id),
                ks == self.children_of(id),
                0 <= k <= ks.len(),
                c == seq_at(ks, k),
                out@ + self.descendants_from(id, k) == out0 + self.descendants_of(id),
            decreases ks.len() - k,
        {
            let ch = c.unwrap();
            proof {
                self.lemma_model();
                self.lemma_depth_bound(ch);
                self.lemma_position(id, k);
            }
            let ghost pre = out@;
            self.collect(ch, out);
            c = self.next_sibling(ch);
            proof {
                assert(out@ + self.descendants_from(id, k + 1) =~= pre + self.descendants_from(id, k));
                k = k + 1;
            }
        }
        proof {
            assert(out@ + self.descendants_from(id, k) =~= out@);
        }
    }

    /// The nodes of the subtree rooted at `id`, in document order.
    pub fn descendants(&self, id: NodeId) -> (r: Vec<NodeId>)
        requires
            self.wf(),
            self.has(id),
        ensures
            r@ == self.descendants_of(id),
    {
        let mut out: Vec<NodeId> = Vec::new();
        self.collect(id, &mut out);
        proof {
            assert(Seq::<NodeId>::empty() + self.descendants_of(id) =~= self.descendants_of(id));
        }
        out
    }

    /// The subtrees of the nodes of `roots` from position `from` on, each
    /// in document order, one after the other. A handle that addresses no
    /// slot stands for nothing.
    pub open spec fn forest_of(&self, roots: Seq<NodeId>, from: int) -> Seq<NodeId>
        decreases roots.len() - from,
    {
        if 0 <= from < roots.len() {
            let head = if self.has(roots[from]) {
                self.descendants_of(roots[from])
            } else {
                Seq::empty()
            };
            head + self.forest_of(roots, from + 1)
        } else {
            Seq::empty()
        }
    }

    /// Appends to `out` the subtrees of the nodes of `roots`, each in
    /// document order.
    pub fn collect_forest(&self, roots: &Vec<NodeId>, out: &mut Vec<NodeId>)
        requires
            self.wf(),
        ensures
            final(out)@ == old(out)@ + self.forest_of(roots@, 0),
    {
        let ghost out0 = out@;
        let mut i: usize = 0;
        proof {
            assert(out@ + self.forest_of(roots@, 0) =~= out0 + self.forest_of(roots@, 0));
        }
        while i < roots.len()
            invariant
                self.wf(),
                i <= roots.len(),
                out@ + self.forest_of(roots@, i as int) == out0 + self.forest_of(roots@, 0),
            decreases roots.len() - i,
        {
            let r = roots[i];
            let ghost pre = out@;
            if r.index < self.links.len() {
                self.collect(r, out);
            }
            proof {
                assert(out@ + self.forest_of(roots@, i + 1) =~= pre + self.forest_of(roots@, i as int));
            }
            i = i + 1;
        }
        proof {
            assert(out@ + self.forest_of(roots@, i as int) =~= out@);
        }
    }

    // ------------------------------------------------------------------
    // Facts about subtrees
    // ------------------------------------------------------------------

    /// `x` lies in the subtree of the child of `id` at position `j`.
    pub open spec fn under_child(&self, id: NodeId, x: NodeId, j: int) -> bool {
        self.in_subtree(x, self.children_of(id)[j])
    }

    /// A proper descendant of a node lies in the subtree of exactly the
    /// children of that node.
    pub proof fn lemma_subtree_children(&self, x: NodeId, id: NodeId)
        requires
            self.wf(),
            self.has(x),
            self.has(id),
        ensures
            (x != id && self.in_subtree(x, id)) <==> (exists|j: int|
                0 <= j < self.children_of(id).len() && #[trigger] self.under_child(id, x, j)),
    {
        self.lemma_model();
        let ks = self.children_of(id);
        let a = self.ancestors_of(x);
        if x != id && self.in_subtree(x, id) {
            self.lemma_subtree_depth(x, id);
            let m = self.depth_of(x) - self.depth_of(id) - 1;
            if m == 0 {
                assert(self.parent_of(x) == Some(id)) by {
                    assert(self.node_wf(x));
                }
                let j = ks.index_of(x);
                assert(self.under_child(id, x, j));
            } else {
                let c = a[m - 1];
                self.lemma_ancestor_suffix(x, m - 1);
                assert(self.ancestors_of(c)[0] == a[m]);
                assert(self.node_wf(c));
                let j = ks.index_of(c);
                assert(a.contains(c));
                assert(self.under_child(id, x, j));
            }
        }
        if exists|j: int| 0 <= j < ks.len() && #[trigger] self.under_child(id, x, j) {
            let j = choose|j: int| 0 <= j < ks.len() && #[trigger] self.under_child(id, x, j);
            let c = ks[j];
            assert(self.node_wf(c));
            assert(self.child_wf(id, j)) by {
                assert(self.node_wf(id));
            }
            assert(self.ancestors_of(c) == seq![id] + self.ancestors_of(id));
            assert(self.ancestors_of(c)[0] == id);
            if x == c {
            } else {
                let k = a.index_of(c);
                assert(0 <= k < a.len() && a[k] == c);
                self.lemma_ancestor_suffix(x, k);
                let rest = a.subrange(k + 1, a.len() as int);
                assert(rest == self.ancestors_of(c));
                assert(rest.len() >= 1);
                assert(rest[0] == id);
                assert(a[k + 1] == rest[0]);
                assert(a.contains(id));
            }
            self.lemma_acyclic(x);
        }
    }

    /// The subtrees of the children of `id` from position `k` on hold exactly
    /// the nodes that lie under one of these children.
    pub proof fn lemma_descendants_from(&self, id: NodeId, k: int)
        requires
            self.wf(),
            self.has(id),
            0 <= k <= self.children_of(id).len(),
        ensures
            forall|x: NodeId|
                self.descendants_from(id, k).contains(x) <==> (self.has(x) && exists|j: int|
                    k <= j < self.children_of(id).len() && #[trigger] self.under_child(id, x, j)),
        decreases self.len() - self.depth_of(id), 0nat, self.children_of(id).len() - k,
    {
        let ks = self.children_of(id);
        if k < ks.len() {
            let c = ks[k];
            self.lemma_model();
            self.lemma_depth_bound(c);
            self.lemma_descendants(c);
            self.lemma_descendants_from(id, k + 1);
            let a = self.descendants_of(c);
            let b = self.descendants_from(id, k + 1);
            assert(self.descendants_from(id, k) == a + b);
            assert forall|x: NodeId|
                self.descendants_from(id, k).contains(x) <==> (self.has(x) && exists|j: int|
                    k <= j < ks.len() && #[trigger] self.under_child(id, x, j)) by {
                vstd::seq_lib::lemma_seq_concat_contains_all_elements(a, b, x);
                if a.contains(x) {
                    assert(self.under_child(id, x, k));
                }
                if b.contains(x) {
                    let j = choose|j: int| k + 1 <= j < ks.len() && #[trigger] self.under_child(id, x, j);
                    assert(self.under_child(id, x, j));
                }
                if self.has(x) && exists|j: int| k <= j < ks.len() && #[trigger] self.under_child(id, x, j) {
                    let j = choose|j: int| k <= j < ks.len() && #[trigger] self.under_child(id, x, j);
                    if j == k {
                        assert(a.contains(x));
                    } else {
                        assert(self.under_child(id, x, j));
                        assert(b.contains(x));
                    }
                }
            }
        } else {
            assert(self.descendants_from(id, k) =~= Seq::<NodeId>::empty());
        }
    }

    /// The descendants of a node in document order are exactly the nodes of
    /// its subtree.
    pub proof fn lemma_descendants(&self, id: NodeId)
        requires
            self.wf(),
            self.has(id),
        ensures
            forall|x: NodeId|
                #[trigger] self.descendants_of(id).contains(x) <==> (self.has(x) && self.in_subtree(x, id)),
            self.descendants_of(id)[0] == id,
            self.descendants_of(id).len() >= 1,
        decreases self.len() - self.depth_of(id), 1nat, 0nat,
    {
        self.lemma_descendants_from(id, 0);
        let b = self.descendants_from(id, 0);
        assert forall|x: NodeId|
            #[trigger] self.descendants_of(id).contains(x) <==> (self.has(x) && self.in_subtree(
                x,
                id,
            )) by {
            vstd::seq_lib::lemma_seq_concat_contains_all_elements(seq![id], b, x);
            assert(seq![id].contains(x) <==> x == id) by {
                if x == id {
                    assert(seq![id][0] == x);
                }
            }
            if self.has(x) {
                self.lemma_subtree_children(x, id);
            }
        }
    }

    /// Unlinking a node does not change which nodes lie in its subtree.
    pub proof fn lemma_unlink_same_subtree(&self, after: &Self, id: NodeId)
        requires
            self.wf(),
            self.has(id),
            after.unlinked_from(self, id),
        ensures
            forall|x: NodeId| self.has(x) ==> #[trigger] after.in_subtree(x, id) == self.in_subtree(x, id),
    {
        assert forall|x: NodeId| self.has(x) implies #[trigger] after.in_subtree(x, id) == self.in_subtree(
            x,
            id,
        ) by {
            if self.in_subtree(x, id) && x != id {
                self.lemma_subtree_depth(x, id);
                let m = self.depth_of(x) - self.depth_of(id) - 1;
                assert(after.ancestors_of(x)[m] == id);
            }
        }
    }

    /// Unlinking a node does not change which nodes lie in the tree of a
    /// root that is not the root of the tree of that node.
    pub proof fn lemma_unlink_other_root(&self, after: &Self, id: NodeId, y: NodeId)
        requires
            self.wf(),
            self.has(id),
            self.has(y),
            self.parent_of(y).is_none(),
            !self.in_subtree(id, y),
            after.unlinked_from(self, id),
        ensures
            forall|x: NodeId| self.has(x) ==> #[trigger] after.in_subtree(x, y) == self.in_subtree(x, y),
    {
        self.lemma_model();
        assert forall|x: NodeId| self.has(x) implies #[trigger] after.in_subtree(x, y) == self.in_subtree(
            x,
            y,
        ) by {
            assert(self.ancestors_of(y) == Seq::<NodeId>::empty());
            if self.in_subtree(x, id) {
                let a = self.ancestors_of(x);
                self.lemma_subtree_depth(x, id);
                if x == y {
                    assert(!self.ancestors_of(y).contains(id));
                }
                if x != y && a.contains(y) {
                    let ky = a.index_of(y);
                    self.lemma_ancestor_suffix(x, ky);
                    if x != id {
                        let ki = a.index_of(id);
                        self.lemma_ancestor_suffix(x, ki);
                        if ki < ky {
                            assert(self.ancestors_of(id)[ky - ki - 1] == y);
                        } else if ky < ki {
                            assert(self.ancestors_of(y)[ki - ky - 1] == id);
                        }
                    }
                }
                if x != y && !a.contains(y) {
                    let b = after.ancestors_of(x);
                    if b.contains(y) {
                        let k = b.index_of(y);
                        assert(a[k] == y);
                    }
                }
            }
        }
    }

    /// A node and its descendants are dropped together.
    pub proof fn lemma_subtree_dropped(&self, x: NodeId, id: NodeId)
        requires
            self.wf(),
            self.has(x),
            self.in_subtree(x, id),
        ensures
            self.is_dropped(x) == self.is_dropped(id),
        decreases self.depth_of(x),
    {
        if x != id {
            self.lemma_model();
            assert(self.node_wf(x));
            let p = self.parent_of(x).unwrap();
            self.lemma_subtree_parent(x, id);
            self.lemma_subtree_dropped(p, id);
        }
    }

}

} // verus!
