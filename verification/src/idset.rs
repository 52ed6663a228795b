//! An executable set of work identifiers.
//!
//! The traversal tracks which works it has already observed ahead of the
//! marker.  The set is kept as a duplicate-free vector so that it can be
//! walked in a stable order when the state is written out; its mathematical
//! view is the `Set` of its elements.

use vstd::prelude::*;

verus! {

/// A finite set of `u64` identifiers, stored as a vector without duplicates.
#[derive(Debug, Clone, PartialEq, Eq)]
pub struct IdSet {
    ids: Vec<u64>,
}

impl View for IdSet {
    type V = Set<u64>;

    closed spec fn view(&self) -> Set<u64> {
        self.ids@.to_set()
    }
}

impl IdSet {
    /// The stored vector holds each member exactly once.
    pub closed spec fn wf(&self) -> bool {
        self.ids@.no_duplicates()
    }

    /// The members in storage order (the order of first insertion).
    pub closed spec fn as_seq(&self) -> Seq<u64> {
        self.ids@
    }

    /// The set view is exactly the membership of the stored sequence.
    pub proof fn lemma_view(&self)
        ensures
            self@ == self.as_seq().to_set(),
            self.wf() <==> self.as_seq().no_duplicates(),
    {
    }

    pub fn new() -> (r: IdSet)
        ensures
            r.wf(),
            r@ == Set::<u64>::empty(),
            r.as_seq() == Seq::<u64>::empty(),
    {
        let r = IdSet { ids: Vec::new() };
        proof {
            assert(r.ids@.to_set() =~= Set::<u64>::empty());
        }
        r
    }

    pub fn len(&self) -> (n: usize)
        requires
            self.wf(),
        ensures
            n == self@.len(),
    {
        proof {
            self.ids@.unique_seq_to_set();
        }
        self.ids.len()
    }

    pub fn contains(&self, x: u64) -> (r: bool)
        ensures
            r == self@.contains(x),
    {
        let n = self.ids.len();
        let mut i: usize = 0;
        while i < n
            invariant
                n == self.ids@.len(),
                i <= n,
                forall|j: int| 0 <= j < i ==> self.ids@[j] != x,
            decreases n - i,
        {
            if self.ids[i] == x {
                assert(self.ids@.contains(x));
                return true;
            }
            i += 1;
        }
        assert(!self.ids@.contains(x));
        false
    }

    /// Adds `x`; a no-op when it is already a member.
    pub fn insert(&mut self, x: u64)
        requires
            old(self).wf(),
        ensures
            final(self).wf(),
            final(self)@ == old(self)@.insert(x),
            old(self)@.contains(x) ==> final(self).as_seq() == old(self).as_seq(),
            !old(self)@.contains(x) ==> final(self).as_seq() == old(self).as_seq().push(x),
    {
        if !self.contains(x) {
            let ghost pre = self.ids@;
            self.ids.push(x);
            proof {
                assert(forall|j: int| 0 <= j < pre.len() ==> self.ids@[j] == pre[j]);
                assert forall|i: int, j: int|
                    0 <= i < self.ids@.len() && 0 <= j < self.ids@.len() && i != j implies self.ids@[i]
                    != self.ids@[j] by {
                    if i < pre.len() && j < pre.len() {
                    } else if i == pre.len() {
                        assert(self.ids@[i] == x);
                        assert(!pre.to_set().contains(x));
                        assert(pre.contains(self.ids@[j]));
                    } else {
                        assert(self.ids@[j] == x);
                        assert(pre.contains(self.ids@[i]));
                    }
                }
                assert(self.ids@.no_duplicates());
                assert forall|y: u64| self.ids@.to_set().contains(y) <==> pre.to_set().insert(
                    x,
                ).contains(y) by {
                    if pre.to_set().insert(x).contains(y) {
                        if y == x {
                            assert(self.ids@[pre.len() as int] == x);
                            assert(self.ids@.contains(y));
                        } else {
                            let k = choose|k: int| 0 <= k < pre.len() && pre[k] == y;
                            assert(self.ids@[k] == y);
                            assert(self.ids@.contains(y));
                        }
                    }
                    if self.ids@.to_set().contains(y) {
                        let k = choose|k: int| 0 <= k < self.ids@.len() && self.ids@[k] == y;
                        if k < pre.len() {
                            assert(pre.contains(y));
                        }
                    }
                }
                assert(self.ids@.to_set() =~= pre.to_set().insert(x));
            }
        } else {
            proof {
                assert(self@ =~= old(self)@.insert(x));
            }
        }
    }

    /// A structural copy.
    pub fn duplicate(&self) -> (r: IdSet)
        ensures
            r.as_seq() == self.as_seq(),
            r@ == self@,
            r.wf() == self.wf(),
    {
        let mut ids: Vec<u64> = Vec::new();
        let n = self.ids.len();
        let mut i: usize = 0;
        while i < n
            invariant
                n == self.ids@.len(),
                i <= n,
                ids@ == self.ids@.take(i as int),
            decreases n - i,
        {
            ids.push(self.ids[i]);
            proof {
                assert(ids@ =~= self.ids@.take(i + 1 as int));
            }
            i += 1;
        }
        proof {
            assert(self.ids@.take(n as int) =~= self.ids@);
        }
        IdSet { ids }
    }

    /// Reads the member at a storage position.
    pub fn at(&self, i: usize) -> (x: u64)
        requires
            i < self.as_seq().len(),
        ensures
            x == self.as_seq()[i as int],
    {
        self.ids[i]
    }

    /// The number of stored members (equal to the set size when well formed).
    pub fn stored_len(&self) -> (n: usize)
        ensures
            n == self.as_seq().len(),
    {
        self.ids.len()
    }

    /// Inserts every member of `other` into `self`.
    pub fn union_with(&mut self, other: &IdSet)
        requires
            old(self).wf(),
        ensures
            final(self).wf(),
            final(self)@ == old(self)@.union(other@),
    {
        let n = other.ids.len();
        let mut i: usize = 0;
        while i < n
            invariant
                self.wf(),
                n == other.ids@.len(),
                i <= n,
                self@ == old(self)@.union(other.ids@.take(i as int).to_set()),
            decreases n - i,
        {
            let ghost pre = self@;
            self.insert(other.ids[i]);
            proof {
                let t0 = other.ids@.take(i as int);
                let t1 = other.ids@.take(i + 1 as int);
                assert(t1 =~= t0.push(other.ids@[i as int]));
                assert forall|y: u64| t1.to_set().contains(y) <==> t0.to_set().insert(
                    other.ids@[i as int],
                ).contains(y) by {
                    if t1.to_set().contains(y) {
                        let k = choose|k: int| 0 <= k < t1.len() && t1[k] == y;
                        if k < t0.len() {
                            assert(t0.contains(y));
                        }
                    }
                    if t0.to_set().insert(other.ids@[i as int]).contains(y) {
                        if y == other.ids@[i as int] {
                            assert(t1[t0.len() as int] == y);
                            assert(t1.contains(y));
                        } else {
                            let k = choose|k: int| 0 <= k < t0.len() && t0[k] == y;
                            assert(t1[k] == y);
                            assert(t1.contains(y));
                        }
                    }
                }
                assert(self@ =~= old(self)@.union(t1.to_set()));
            }
            i += 1;
        }
        proof {
            assert(other.ids@.take(n as int) =~= other.ids@);
            assert(other.ids@.to_set() =~= other@);
        }
    }
}

} // verus!
