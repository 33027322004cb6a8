//! The frontier: the pending-work collection of node indices awaiting
//! classification. One trait covers the shared capability set, and the two
//! implementations differ only in which end `get` removes from: the stack
//! yields depth-first traversal, the queue breadth-first.

use std::collections::VecDeque;

use vstd::prelude::*;

verus! {

/// `after` is `before` with exactly the one occurrence at position `k`,
/// holding `x`, removed.
pub open spec fn removed_at(before: Seq<usize>, after: Seq<usize>, k: int, x: usize) -> bool {
    &&& 0 <= k < before.len()
    &&& before[k] == x
    &&& after == before.subrange(0, k) + before.subrange(k + 1, before.len() as int)
}

/// `after` is `before` with exactly one occurrence of `x` removed, at some
/// position.
pub open spec fn one_removed(before: Seq<usize>, after: Seq<usize>, x: usize) -> bool {
    exists|k: int| #[trigger] removed_at(before, after, k, x)
}

/// The capability set shared by both frontier variants. `put` appends to the
/// end in both; `get` removes one pending index, from an end that the
/// variant chooses, and returns `None` exactly when nothing is pending.
pub trait Container: Sized {
    /// The pending node indices, in insertion order.
    spec fn pending(&self) -> Seq<usize>;

    /// Appends one index to the pending collection.
    fn put(&mut self, x: usize)
        ensures
            final(self).pending() == old(self).pending().push(x),
    ;

    /// Removes and returns one pending index; `None` exactly when the
    /// collection is empty. Which pending index leaves is the variant's
    /// choice, so the contract only says that exactly one occurrence goes.
    fn get(&mut self) -> (r: Option<usize>)
        ensures
            match r {
                Some(x) => one_removed(old(self).pending(), final(self).pending(), x),
                None => {
                    &&& old(self).pending().len() == 0
                    &&& final(self).pending() == old(self).pending()
                },
            },
    ;

    /// Bulk `put`: appends every index of `xs`, in order.
    fn extend_from(&mut self, xs: &Vec<usize>)
        ensures
            final(self).pending() == old(self).pending() + xs@,
    ;
}

/// LIFO frontier: `get` removes from the end, which makes the engine explore
/// the most recently created child first, i.e. depth first.
pub type Stack = Vec<usize>;

/// FIFO frontier: `get` removes from the front, which makes the engine
/// explore nodes in creation order, i.e. breadth first.
pub type Queue = VecDeque<usize>;

impl Container for Vec<usize> {
    open spec fn pending(&self) -> Seq<usize> {
        self@
    }

    fn put(&mut self, x: usize) {
        self.push(x);
    }

    /// LIFO: removes and returns the most recently put index, so the engine
    /// explores depth first.
    fn get(&mut self) -> (r: Option<usize>)
        ensures
            old(self).pending().len() > 0 ==> {
                &&& r == Some(old(self).pending().last())
                &&& final(self).pending() == old(self).pending().drop_last()
            },
            old(self).pending().len() == 0 ==> {
                &&& r is None
                &&& final(self).pending() == old(self).pending()
            },
    {
        let ghost before = self@;
        let r = self.pop();
        proof {
            if before.len() > 0 {
                let k = before.len() - 1;
                assert(self@ =~= before.subrange(0, k) + before.subrange(
                    k + 1,
                    before.len() as int,
                ));
                assert(removed_at(before, final(self).pending(), k, before[k]));
                assert(one_removed(before, final(self).pending(), before[k]));
                assert(final(self).pending() =~= before.drop_last());
            }
        }
        r
    }

    fn extend_from(&mut self, xs: &Vec<usize>) {
        let ghost before = self@;
        let mut i: usize = 0;
        while i < xs.len()
            invariant
                i <= xs@.len(),
                self@ == before + xs@.subrange(0, i as int),
            decreases xs@.len() - i,
        {
            self.push(xs[i]);
            proof {
                assert(before + xs@.subrange(0, i as int + 1) =~= (before + xs@.subrange(
                    0,
                    i as int,
                )).push(xs@[i as int]));
            }
            i = i + 1;
        }
        proof {
            assert(xs@.subrange(0, xs@.len() as int) =~= xs@);
        }
    }
}

impl Container for VecDeque<usize> {
    open spec fn pending(&self) -> Seq<usize> {
        self@
    }

    fn put(&mut self, x: usize) {
        self.push_back(x);
    }

    /// FIFO: removes and returns the least recently put index, so the engine
    /// explores nodes in creation order, breadth first.
    fn get(&mut self) -> (r: Option<usize>)
        ensures
            old(self).pending().len() > 0 ==> {
                &&& r == Some(old(self).pending().first())
                &&& final(self).pending() == old(self).pending().drop_first()
            },
            old(self).pending().len() == 0 ==> {
                &&& r is None
                &&& final(self).pending() == old(self).pending()
            },
    {
        let ghost before = self@;
        let r = self.pop_front();
        proof {
            if before.len() > 0 {
                assert(self@ =~= before.subrange(0, 0) + before.subrange(1, before.len() as int));
                assert(removed_at(before, final(self).pending(), 0, before[0]));
                assert(one_removed(before, final(self).pending(), before[0]));
                assert(final(self).pending() =~= before.drop_first());
            }
        }
        r
    }

    fn extend_from(&mut self, xs: &Vec<usize>) {
        let ghost before = self@;
        let mut i: usize = 0;
        while i < xs.len()
            invariant
                i <= xs@.len(),
                self@ == before + xs@.subrange(0, i as int),
            decreases xs@.len() - i,
        {
            self.push_back(xs[i]);
            proof {
                assert(before + xs@.subrange(0, i as int + 1) =~= (before + xs@.subrange(
                    0,
                    i as int,
                )).push(xs@[i as int]));
            }
            i = i + 1;
        }
        proof {
            assert(xs@.subrange(0, xs@.len() as int) =~= xs@);
        }
    }
}

} // verus!
