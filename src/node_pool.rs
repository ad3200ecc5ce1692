//! A fixed-size slab of tree nodes, addressed by cell index.
//!
//! The slab holds at most `capacity` cells, reserved when it is made. Cells
//! are handed out lazily: a vacated cell is reused first, and only when none
//! is vacant does the slab touch a cell it has never handed out before.
use vstd::prelude::*;

use crate::alloc_table::BlockNode;

verus! {

pub struct NodePool<const B: usize> {
    /// The cells handed out so far, in use or vacated.
    cells: Vec<BlockNode<B>>,
    /// Whether each cell of `cells` is in use.
    in_use: Vec<bool>,
    /// The vacated cells, each once, the next one to reuse last.
    vacant: Vec<usize>,
    /// The most cells the slab ever holds.
    capacity: usize,
}

impl<const B: usize> NodePool<B> {
    /// The contents of the cells handed out so far.
    pub closed spec fn cells(&self) -> Seq<BlockNode<B>> {
        self.cells@
    }

    /// Whether cell `j` is in use. Every other index can be handed out.
    pub closed spec fn in_use(&self, j: int) -> bool {
        0 <= j < self.in_use@.len() && self.in_use@[j]
    }

    /// The most cells the slab ever holds.
    pub closed spec fn capacity(&self) -> nat {
        self.capacity as nat
    }

    /// The number of cells in use.
    pub closed spec fn count(&self) -> nat {
        (self.cells@.len() - self.vacant@.len()) as nat
    }

    pub closed spec fn inv(&self) -> bool {
        &&& self.cells@.len() == self.in_use@.len()
        &&& self.vacant@.len() <= self.cells@.len() <= self.capacity
        &&& forall|i: int|
            0 <= i < self.vacant@.len() ==> {
                &&& #[trigger] self.vacant@[i] < self.cells@.len()
                &&& !self.in_use@[self.vacant@[i] as int]
            }
        &&& forall|i: int, k: int|
            0 <= i < self.vacant@.len() && 0 <= k < self.vacant@.len() && i != k
                ==> #[trigger] self.vacant@[i] != #[trigger] self.vacant@[k]
    }

    pub open spec fn wf(&self) -> bool {
        &&& self.inv()
        &&& self.count() <= self.capacity()
        &&& forall|j: int| #[trigger] self.in_use(j) ==> 0 <= j < self.cells().len()
    }

    /// An empty slab with room reserved for `capacity` cells.
    pub fn new(capacity: usize) -> (r: Self)
        ensures
            r.wf(),
            r.cells().len() == 0,
            r.capacity() == capacity,
            r.count() == 0,
            forall|j: int| !#[trigger] r.in_use(j),
    {
        NodePool {
            cells: Vec::with_capacity(capacity),
            in_use: Vec::with_capacity(capacity),
            vacant: Vec::new(),
            capacity,
        }
    }

    /// A copy of the node in cell `j`.
    pub fn get(&self, j: usize) -> (r: BlockNode<B>)
        requires
            j < self.cells().len(),
        ensures
            r == self.cells()[j as int],
    {
        self.cells[j]
    }

    /// Overwrite the node in cell `j`.
    pub fn set(&mut self, j: usize, node: BlockNode<B>)
        requires
            old(self).wf(),
            j < old(self).cells().len(),
        ensures
            final(self).wf(),
            final(self).cells() == old(self).cells().update(j as int, node),
            final(self).count() == old(self).count(),
            final(self).capacity() == old(self).capacity(),
            forall|k: int| #[trigger] final(self).in_use(k) == old(self).in_use(k),
    {
        self.cells.set(j, node);
    }

    /// Hand out a cell that was not in use, holding `node`. There must be
    /// room for one more cell in use.
    pub fn alloc_cell(&mut self, node: BlockNode<B>) -> (j: usize)
        requires
            old(self).wf(),
            old(self).count() < old(self).capacity(),
        ensures
            final(self).wf(),
            final(self).count() == old(self).count() + 1,
            final(self).capacity() == old(self).capacity(),
            !old(self).in_use(j as int),
            final(self).in_use(j as int),
            j < final(self).cells().len(),
            final(self).cells()[j as int] == node,
            final(self).cells().len() >= old(self).cells().len(),
            forall|k: int|
                0 <= k < old(self).cells().len() && k != j ==> #[trigger] final(self).cells()[k]
                    == old(self).cells()[k],
            forall|k: int| k != j ==> #[trigger] final(self).in_use(k) == old(self).in_use(k),
    {
        match self.vacant.pop() {
            Some(j) => {
                proof {
                    assert(self.vacant@ =~= old(self).vacant@.drop_last());
                    let last = old(self).vacant@.len() - 1;
                    assert(old(self).vacant@[last] == j);
                    assert forall|i: int| 0 <= i < self.vacant@.len() implies self.vacant@[i]
                        != j by {
                        assert(old(self).vacant@[i] != old(self).vacant@[last]);
                    }
                }
                self.cells.set(j, node);
                self.in_use.set(j, true);
                proof {
                    assert forall|i: int| 0 <= i < self.vacant@.len() implies {
                        &&& #[trigger] self.vacant@[i] < self.cells@.len()
                        &&& !self.in_use@[self.vacant@[i] as int]
                    } by {
                        assert(self.vacant@[i] == old(self).vacant@[i]);
                    }
                    assert forall|i: int, k: int|
                        0 <= i < self.vacant@.len() && 0 <= k < self.vacant@.len() && i
                            != k implies #[trigger] self.vacant@[i] != #[trigger] self.vacant@[k] by {
                        assert(self.vacant@[i] == old(self).vacant@[i]);
                        assert(self.vacant@[k] == old(self).vacant@[k]);
                    }
                }
                j
            },
            None => {
                let j = self.cells.len();
                self.cells.push(node);
                self.in_use.push(true);
                j
            },
        }
    }

    /// Give back cell `j`, which is in use.
    pub fn free_cell(&mut self, j: usize)
        requires
            old(self).wf(),
            old(self).in_use(j as int),
            old(self).count() >= 1,
        ensures
            final(self).wf(),
            final(self).count() == old(self).count() - 1,
            final(self).capacity() == old(self).capacity(),
            final(self).cells() == old(self).cells(),
            !final(self).in_use(j as int),
            forall|k: int| k != j ==> #[trigger] final(self).in_use(k) == old(self).in_use(k),
    {
        proof {
            assert forall|i: int| 0 <= i < self.vacant@.len() implies self.vacant@[i] != j by {
                assert(!self.in_use@[self.vacant@[i] as int]);
            }
        }
        self.in_use.set(j, false);
        self.vacant.push(j);
        proof {
            assert forall|i: int| 0 <= i < self.vacant@.len() implies {
                &&& #[trigger] self.vacant@[i] < self.cells@.len()
                &&& !self.in_use@[self.vacant@[i] as int]
            } by {
                if i < old(self).vacant@.len() {
                    assert(self.vacant@[i] == old(self).vacant@[i]);
                }
            }
            assert forall|i: int, k: int|
                0 <= i < self.vacant@.len() && 0 <= k < self.vacant@.len() && i
                    != k implies #[trigger] self.vacant@[i] != #[trigger] self.vacant@[k] by {
                if i < old(self).vacant@.len() {
                    assert(self.vacant@[i] == old(self).vacant@[i]);
                }
                if k < old(self).vacant@.len() {
                    assert(self.vacant@[k] == old(self).vacant@[k]);
                }
            }
        }
    }

    /// Reset the slab to its initial empty state, keeping its storage.
    pub fn free_all(&mut self)
        ensures
            final(self).wf(),
            final(self).cells().len() == 0,
            final(self).count() == 0,
            final(self).capacity() == old(self).capacity(),
            forall|j: int| !#[trigger] final(self).in_use(j),
    {
        self.cells.clear();
        self.in_use.clear();
        self.vacant.clear();
    }
}

} // verus!
