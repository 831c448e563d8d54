//! A set of nodes that keeps the order of arrival.

use crate::arena::NodeId;
use vstd::prelude::*;

verus! {

/// `s` with `x` behind it, unless `x` occurs in `s`.
pub open spec fn with_member(s: Seq<NodeId>, x: NodeId) -> Seq<NodeId> {
    if s.contains(x) {
        s
    } else {
        s.push(x)
    }
}

/// A set of nodes, in the order in which they were put in. Nothing occurs
/// twice.
pub struct NodeSet {
    ids: Vec<NodeId>,
}

impl View for NodeSet {
    type V = Seq<NodeId>;

    /// The nodes of the set, in the order of their arrival.
    closed spec fn view(&self) -> Seq<NodeId> {
        self.ids@
    }
}

impl NodeSet {
    #[verifier::type_invariant]
    spec fn nothing_twice(self) -> bool {
        self.ids@.no_duplicates()
    }

    /// The empty set.
    pub fn new() -> (r: Self)
        ensures
            r@ == Seq::<NodeId>::empty(),
    {
        NodeSet { ids: Vec::new() }
    }

    /// Number of nodes in the set.
    pub fn len(&self) -> (r: usize)
        ensures
            r == self@.len(),
            self@.no_duplicates(),
    {
        proof {
            use_type_invariant(self);
        }
        self.ids.len()
    }

    /// Whether the set is empty.
    pub fn is_empty(&self) -> (r: bool)
        ensures
            r == (self@.len() == 0),
    {
        self.ids.len() == 0
    }

    /// The node at position `i`.
    pub fn get(&self, i: usize) -> (r: NodeId)
        requires
            i < self@.len(),
        ensures
            r == self@[i as int],
    {
        self.ids[i]
    }

    /// Whether `x` is in the set.
    pub fn contains(&self, x: NodeId) -> (r: bool)
        ensures
            r == self@.contains(x),
    {
        let mut i: usize = 0;
        while i < self.ids.len()
            invariant
                i <= self.ids.len(),
                forall|k: int| 0 <= k < i ==> self.ids@[k] != x,
            decreases self.ids.len() - i,
        {
            if self.ids[i] == x {
                return true;
            }
            i = i + 1;
        }
        false
    }

    /// Puts `x` into the set, behind the others, unless it is there.
    pub fn insert(&mut self, x: NodeId)
        ensures
            final(self)@ == with_member(old(self)@, x),
    {
        proof {
            use_type_invariant(&*self);
        }
        if !self.contains(x) {
            let mut ids: Vec<NodeId> = Vec::new();
            std::mem::swap(&mut self.ids, &mut ids);
            let ghost before = ids@;
            ids.push(x);
            proof {
                assert forall|a: int, b: int| 0 <= a < ids@.len() && 0 <= b < ids@.len() && a != b implies ids@[a]
                    != ids@[b] by {
                    if a < before.len() && b < before.len() {
                        assert(before[a] != before[b]);
                    } else if a < before.len() {
                        assert(before.contains(before[a]));
                    } else {
                        assert(before.contains(before[b]));
                    }
                }
            }
            std::mem::swap(&mut self.ids, &mut ids);
        }
    }

    /// Takes `x` out of the set and says whether it was there.
    pub fn remove(&mut self, x: NodeId) -> (r: bool)
        ensures
            r == old(self)@.contains(x),
            final(self)@ == old(self)@.remove_value(x),
            !final(self)@.contains(x),
    {
        proof {
            use_type_invariant(&*self);
        }
        let mut ids: Vec<NodeId> = Vec::new();
        std::mem::swap(&mut self.ids, &mut ids);
        let mut i: usize = 0;
        while i < ids.len()
            invariant
                i <= ids.len(),
                ids@ == old(self).ids@,
                ids@.no_duplicates(),
                self.ids@ == Seq::<NodeId>::empty(),
                forall|k: int| 0 <= k < i ==> ids@[k] != x,
            decreases ids.len() - i,
        {
            if ids[i] == x {
                proof {
                    ids@.index_of_first_ensures(x);
                    assert(ids@.contains(x));
                }
                let ghost before = ids@;
                let _ = ids.remove(i);
                proof {
                    let after = ids@;
                    assert forall|a: int, b: int| 0 <= a < after.len() && 0 <= b < after.len() && a != b
                        implies after[a] != after[b] by {
                        let a2 = if a < i { a } else { a + 1 };
                        let b2 = if b < i { b } else { b + 1 };
                        assert(after[a] == before[a2]);
                        assert(after[b] == before[b2]);
                    }
                    assert(!after.contains(x)) by {
                        if after.contains(x) {
                            let k = after.index_of(x);
                            let k2 = if k < i { k } else { k + 1 };
                            assert(before[k2] == x);
                        }
                    }
                }
                std::mem::swap(&mut self.ids, &mut ids);
                return true;
            }
            i = i + 1;
        }
        proof {
            ids@.index_of_first_ensures(x);
        }
        std::mem::swap(&mut self.ids, &mut ids);
        false
    }

    /// Hands out the nodes of the set, in the order of their arrival, and
    /// leaves the set empty.
    pub fn take(&mut self) -> (r: Vec<NodeId>)
        ensures
            r@ == old(self)@,
            r@.no_duplicates(),
            final(self)@ == Seq::<NodeId>::empty(),
    {
        proof {
            use_type_invariant(&*self);
        }
        let mut out: Vec<NodeId> = Vec::new();
        std::mem::swap(&mut out, &mut self.ids);
        out
    }

    /// The nodes of the set, in the order of their arrival.
    pub fn to_vec(&self) -> (r: Vec<NodeId>)
        ensures
            r@ == self@,
    {
        let mut out: Vec<NodeId> = Vec::new();
        let mut i: usize = 0;
        while i < self.ids.len()
            invariant
                i <= self.ids.len(),
                out@ == self.ids@.subrange(0, i as int),
            decreases self.ids.len() - i,
        {
            out.push(self.ids[i]);
            proof {
                assert(out@ =~= self.ids@.subrange(0, i + 1));
            }
            i = i + 1;
        }
        proof {
            assert(self.ids@.subrange(0, self.ids@.len() as int) =~= self.ids@);
        }
        out
    }
}

} // verus!
