//! The allocation tree: one node per tracked block, the root held by the
//! allocator and every other node in a cell of the node pool.
use vstd::prelude::*;

use crate::errors::FreeError;
use crate::node_pool::NodePool;
use crate::shape::{
    block_for, cells_of, find, free_outcome, is_pow2, lemma_block_for_bounds, lemma_pow2_half,
    lemma_pow2_le_half, lemma_take_unfound, release, split_down, take, wf_shape, Shape,
};

verus! {

/// The state of an allocation tree node.
#[derive(Clone, Copy)]
pub enum BlockState {
    /// The node represents a free memory block.
    FreeLeaf,
    /// The node represents a memory block that has been split in two buddies,
    /// held in the node pool's cells `left` and `right`.
    Parent { left: usize, right: usize },
    /// The node represents an already allocated memory block.
    AllocatedLeaf,
}

/// Node of the allocation tree. Each node is associated with a memory block,
/// whose start is an offset from the start of the heap.
#[derive(Clone, Copy)]
pub struct BlockNode<const B: usize> {
    /// Start offset of the associated memory block.
    pub block_address: usize,
    /// Size of the associated memory block in bytes.
    pub size: usize,
    /// State of the associated memory block (free, allocated, split).
    pub state: BlockState,
}

impl<const B: usize> BlockNode<B> {
    /// Whether the cells of both children hold smaller nodes, so that the
    /// recursions below end.
    pub open spec fn children_smaller(self, cells: Seq<Self>) -> bool {
        match self.state {
            BlockState::Parent { left, right } => {
                &&& left < cells.len()
                &&& right < cells.len()
                &&& cells[left as int].size < self.size
                &&& cells[right as int].size < self.size
            },
            _ => true,
        }
    }

    /// The pool cells of all nodes below this one.
    pub open spec fn desc(self, cells: Seq<Self>) -> Set<int>
        decreases self.size,
    {
        match self.state {
            BlockState::Parent { left, right } => if self.children_smaller(cells) {
                set![left as int, right as int].union(cells[left as int].desc(cells)).union(
                    cells[right as int].desc(cells),
                )
            } else {
                Set::empty()
            },
            _ => Set::empty(),
        }
    }

    /// The block tree below this node, as a mathematical value.
    pub open spec fn shape(self, cells: Seq<Self>) -> Shape
        decreases self.size,
    {
        match self.state {
            BlockState::FreeLeaf => Shape::FreeLeaf,
            BlockState::AllocatedLeaf => Shape::AllocatedLeaf,
            BlockState::Parent { left, right } => if self.children_smaller(cells) {
                Shape::Split(
                    Box::new(cells[left as int].shape(cells)),
                    Box::new(cells[right as int].shape(cells)),
                )
            } else {
                Shape::FreeLeaf
            },
        }
    }

    /// The node and all nodes below it describe buddy blocks, each child in
    /// its own cell, no cell reached twice, and no two free buddies.
    pub open spec fn wf(self, cells: Seq<Self>) -> bool
        decreases self.size,
    {
        &&& is_pow2(B as nat)
        &&& is_pow2(self.size as nat)
        &&& B <= self.size
        &&& self.block_address + self.size <= usize::MAX
        &&& match self.state {
            BlockState::Parent { left, right } => {
                &&& B < self.size
                &&& left < cells.len()
                &&& right < cells.len()
                &&& left != right
                &&& cells[left as int].size == self.size / 2
                &&& cells[right as int].size == self.size / 2
                &&& cells[left as int].block_address == self.block_address
                &&& cells[right as int].block_address == self.block_address + self.size / 2
                &&& cells[left as int].wf(cells)
                &&& cells[right as int].wf(cells)
                &&& !(cells[left as int].state is FreeLeaf && cells[right as int].state is FreeLeaf)
                &&& !cells[left as int].desc(cells).contains(left as int)
                &&& !cells[left as int].desc(cells).contains(right as int)
                &&& !cells[right as int].desc(cells).contains(left as int)
                &&& !cells[right as int].desc(cells).contains(right as int)
                &&& cells[left as int].desc(cells).disjoint(cells[right as int].desc(cells))
            },
            _ => true,
        }
    }

    /// A well-formed node describes a well-formed block tree, over cells that
    /// exist.
    pub proof fn lemma_wf_shape(self, cells: Seq<Self>)
        requires
            self.wf(cells),
        ensures
            wf_shape(self.shape(cells), self.size as nat, B as nat),
            self.shape(cells) is FreeLeaf <==> self.state is FreeLeaf,
            self.shape(cells) is AllocatedLeaf <==> self.state is AllocatedLeaf,
            forall|j: int| #[trigger] self.desc(cells).contains(j) ==> 0 <= j < cells.len(),
        decreases self.size,
    {
        if let BlockState::Parent { left, right } = self.state {
            cells[left as int].lemma_wf_shape(cells);
            cells[right as int].lemma_wf_shape(cells);
            assert(self.children_smaller(cells));
        }
    }

    /// What lies below a node depends only on the cells below it.
    pub proof fn lemma_frame(self, c1: Seq<Self>, c2: Seq<Self>)
        requires
            self.wf(c1),
            forall|j: int| #[trigger]
                self.desc(c1).contains(j) ==> 0 <= j < c2.len() && c2[j] == c1[j],
        ensures
            self.wf(c2),
            self.desc(c2) == self.desc(c1),
            self.shape(c2) == self.shape(c1),
        decreases self.size,
    {
        if let BlockState::Parent { left, right } = self.state {
            assert(self.desc(c1).contains(left as int));
            assert(self.desc(c1).contains(right as int));
            assert(self.children_smaller(c1));
            assert(self.children_smaller(c2));
            assert(c2[left as int] == c1[left as int]);
            assert(c2[right as int] == c1[right as int]);
            assert forall|j: int| #[trigger] c1[left as int].desc(c1).contains(j) implies 0 <= j
                < c2.len() && c2[j] == c1[j] by {
                assert(self.desc(c1).contains(j));
            }
            assert forall|j: int| #[trigger] c1[right as int].desc(c1).contains(j) implies 0 <= j
                < c2.len() && c2[j] == c1[j] by {
                assert(self.desc(c1).contains(j));
            }
            c1[left as int].lemma_frame(c1, c2);
            c1[right as int].lemma_frame(c1, c2);
            assert(self.desc(c2) =~= self.desc(c1));
        }
    }

    /// Create a new free leaf node.
    pub fn new(size: usize, address: usize) -> (r: Self)
        ensures
            r.block_address == address,
            r.size == size,
            r.state is FreeLeaf,
    {
        BlockNode { block_address: address, size, state: BlockState::FreeLeaf }
    }

    /// How an operation on the subtree whose cells were `before` and are now
    /// `after` changed the pool: the cells of the rest of the tree kept their
    /// nodes, and every cell of the new subtree is in use and was either
    /// vacant or in the old subtree.
    pub open spec fn pool_step(
        p0: NodePool<B>,
        p1: NodePool<B>,
        before: Set<int>,
        after: Set<int>,
    ) -> bool {
        &&& p1.cells().len() >= p0.cells().len()
        &&& forall|j: int| #[trigger]
            p0.in_use(j) && !before.contains(j) ==> p1.in_use(j) && p1.cells()[j]
                == p0.cells()[j]
        &&& forall|j: int| #[trigger]
            after.contains(j) ==> p1.in_use(j) && (before.contains(j) || !p0.in_use(j))
    }

    /// Create a new node and propagate the allocation.
    fn new_alloc(
        block_size: usize,
        address: usize,
        alloc_size: usize,
        proto_allocator: &mut NodePool<B>,
    ) -> (r: (Self, usize))
        requires
            old(proto_allocator).wf(),
            is_pow2(B as nat),
            is_pow2(block_size as nat),
            B <= block_size,
            address + block_size <= usize::MAX,
            1 <= alloc_size <= block_size,
            old(proto_allocator).count() + cells_of(
                split_down(block_size as nat, alloc_size as nat, B as nat),
            ) <= old(proto_allocator).capacity(),
        ensures
            final(proto_allocator).wf(),
            final(proto_allocator).count() == old(proto_allocator).count() + cells_of(
                split_down(block_size as nat, alloc_size as nat, B as nat),
            ),
            final(proto_allocator).capacity() == old(proto_allocator).capacity(),
            r.0.block_address == address,
            r.0.size == block_size,
            r.0.wf(final(proto_allocator).cells()),
            r.0.shape(final(proto_allocator).cells()) == split_down(
                block_size as nat,
                alloc_size as nat,
                B as nat,
            ),
            r.1 == block_for(alloc_size as nat, B as nat),
            Self::pool_step(
                *old(proto_allocator),
                *final(proto_allocator),
                Set::empty(),
                r.0.desc(final(proto_allocator).cells()),
            ),
        decreases block_size, 1int,
    {
        let (state, allocated) = Self::alloc_down(address, block_size, alloc_size, proto_allocator);
        (BlockNode { block_address: address, size: block_size, state }, allocated)
    }

    /// Recursively propagate the allocation down to the smallest memory block
    /// that can fit the requested size.
    fn alloc_down(
        block_address: usize,
        block_size: usize,
        alloc_size: usize,
        proto_allocator: &mut NodePool<B>,
    ) -> (r: (BlockState, usize))
        requires
            old(proto_allocator).wf(),
            is_pow2(B as nat),
            is_pow2(block_size as nat),
            B <= block_size,
            block_address + block_size <= usize::MAX,
            1 <= alloc_size <= block_size,
            old(proto_allocator).count() + cells_of(
                split_down(block_size as nat, alloc_size as nat, B as nat),
            ) <= old(proto_allocator).capacity(),
        ensures
            ({
                let node = BlockNode::<B> { block_address, size: block_size, state: r.0 };
                &&& final(proto_allocator).wf()
                &&& final(proto_allocator).count() == old(proto_allocator).count() + cells_of(
                    split_down(block_size as nat, alloc_size as nat, B as nat),
                )
                &&& final(proto_allocator).capacity() == old(proto_allocator).capacity()
                &&& node.wf(final(proto_allocator).cells())
                &&& node.shape(final(proto_allocator).cells()) == split_down(
                    block_size as nat,
                    alloc_size as nat,
                    B as nat,
                )
                &&& r.1 == block_for(alloc_size as nat, B as nat)
                &&& Self::pool_step(
                    *old(proto_allocator),
                    *final(proto_allocator),
                    Set::empty(),
                    node.desc(final(proto_allocator).cells()),
                )
            }),
        decreases block_size, 0int,
    {
        let half_size = block_size / 2;
        // If the requested size is greater than half the block size, the block cannot be split.
        // Also, the block cannot be split further if it's a zero-order block.
        if alloc_size > half_size || block_size == B {
            proof {
                lemma_block_for_bounds(alloc_size as nat, B as nat, block_size as nat);
                assert(split_down(block_size as nat, alloc_size as nat, B as nat)
                    == Shape::AllocatedLeaf);
            }
            (BlockState::AllocatedLeaf, block_size)
        } else {
            // Split the block in two identical buddy blocks and propagate the allocation.
            proof {
                lemma_pow2_half(block_size as nat);
                lemma_pow2_le_half(B as nat, block_size as nat);
                let sd = split_down(block_size as nat, alloc_size as nat, B as nat);
                let sd_half = split_down(half_size as nat, alloc_size as nat, B as nat);
                assert(sd == Shape::Split(Box::new(sd_half), Box::new(Shape::FreeLeaf)));
                assert(cells_of(Shape::FreeLeaf) == 0);
                assert(cells_of(sd) == 2 + cells_of(sd_half));
            }
            let ghost p0 = *proto_allocator;
            let (left, allocated) = Self::new_alloc(
                half_size,
                block_address,
                alloc_size,
                proto_allocator,
            );
            let ghost p1 = *proto_allocator;
            proof {
                left.lemma_wf_shape(p1.cells());
            }
            let left_idx = proto_allocator.alloc_cell(left);
            let ghost p2 = *proto_allocator;
            proof {
                left.lemma_frame(p1.cells(), p2.cells());
            }
            let right = BlockNode::new(half_size, block_address + half_size);
            let right_idx = proto_allocator.alloc_cell(right);
            let ghost p3 = *proto_allocator;
            proof {
                left.lemma_frame(p2.cells(), p3.cells());
                let cells = p3.cells();
                let state = BlockState::Parent { left: left_idx, right: right_idx };
                let node = BlockNode::<B> { block_address, size: block_size, state };
                assert(cells[left_idx as int] == left);
                assert(cells[right_idx as int] == right);
                assert(right.desc(cells) =~= Set::empty());
                assert(node.children_smaller(cells));
                assert(left.wf(cells));
                assert(right.wf(cells));
                assert(!left.desc(cells).contains(left_idx as int));
                assert(!left.desc(cells).contains(right_idx as int));
                assert(!(left.state is FreeLeaf));
                assert(node.wf(cells));
                assert(right.shape(cells) == Shape::FreeLeaf);
                assert(left.shape(cells) == split_down(
                    half_size as nat,
                    alloc_size as nat,
                    B as nat,
                ));
                assert(split_down(block_size as nat, alloc_size as nat, B as nat) == Shape::Split(
                    Box::new(split_down(half_size as nat, alloc_size as nat, B as nat)),
                    Box::new(Shape::FreeLeaf),
                ));
                assert(node.shape(cells) == split_down(
                    block_size as nat,
                    alloc_size as nat,
                    B as nat,
                ));
            }
            (BlockState::Parent { left: left_idx, right: right_idx }, allocated)
        }
    }

    /// A parent stays well formed when the node in its child cell `c` is
    /// replaced by `child`, which covers the same block and was built from
    /// the old child's cells and vacant ones; the sibling in cell `s` is
    /// untouched.
    pub proof fn lemma_replace_child(
        self,
        p0: NodePool<B>,
        p1: NodePool<B>,
        p2: NodePool<B>,
        c: usize,
        s: usize,
        child: Self,
    )
        requires
            p0.wf(),
            self.wf(p0.cells()),
            self.state == (BlockState::Parent { left: c, right: s }) || self.state == (
            BlockState::Parent { left: s, right: c }),
            forall|j: int| #[trigger] self.desc(p0.cells()).contains(j) ==> p0.in_use(j),
            child.wf(p1.cells()),
            child.block_address == p0.cells()[c as int].block_address,
            child.size == p0.cells()[c as int].size,
            Self::pool_step(
                p0,
                p1,
                p0.cells()[c as int].desc(p0.cells()),
                child.desc(p1.cells()),
            ),
            p2.cells() == p1.cells().update(c as int, child),
            forall|j: int| #[trigger] p2.in_use(j) == p1.in_use(j),
            !(child.state is FreeLeaf && p0.cells()[s as int].state is FreeLeaf),
        ensures
            self.wf(p2.cells()),
            p2.cells()[s as int] == p0.cells()[s as int],
            p0.cells()[s as int].shape(p2.cells()) == p0.cells()[s as int].shape(p0.cells()),
            child.shape(p2.cells()) == child.shape(p1.cells()),
            self.state == (BlockState::Parent { left: c, right: s }) ==> self.shape(p2.cells())
                == Shape::Split(
                Box::new(child.shape(p1.cells())),
                Box::new(p0.cells()[s as int].shape(p0.cells())),
            ),
            self.state == (BlockState::Parent { left: s, right: c }) ==> self.shape(p2.cells())
                == Shape::Split(
                Box::new(p0.cells()[s as int].shape(p0.cells())),
                Box::new(child.shape(p1.cells())),
            ),
            Self::pool_step(p0, p2, self.desc(p0.cells()), self.desc(p2.cells())),
    {
        let c0 = p0.cells();
        let c1 = p1.cells();
        let c2 = p2.cells();
        let old_child = c0[c as int];
        let sib = c0[s as int];
        let d0 = self.desc(c0);
        assert(self.children_smaller(c0));
        assert(d0.contains(c as int));
        assert(d0.contains(s as int));
        assert forall|j: int| #[trigger] old_child.desc(c0).contains(j) implies d0.contains(j) by {}
        assert forall|j: int| #[trigger] sib.desc(c0).contains(j) implies d0.contains(j) by {}
        old_child.lemma_wf_shape(c0);
        sib.lemma_wf_shape(c0);
        child.lemma_wf_shape(c1);
        // The sibling's cells are in use and outside the old child's subtree.
        assert forall|j: int| #[trigger] sib.desc(c0).contains(j) implies 0 <= j < c1.len()
            && c1[j] == c0[j] by {
            assert(p0.in_use(j));
            assert(!old_child.desc(c0).contains(j));
        }
        assert(p0.in_use(s as int));
        assert(c1[s as int] == sib);
        sib.lemma_frame(c0, c1);
        // The cell of the changed child is outside both subtrees.
        assert(p0.in_use(c as int));
        assert(!child.desc(c1).contains(c as int));
        assert(!child.desc(c1).contains(s as int));
        assert forall|j: int| #[trigger] child.desc(c1).contains(j) implies 0 <= j < c2.len()
            && c2[j] == c1[j] by {}
        child.lemma_frame(c1, c2);
        assert forall|j: int| #[trigger] sib.desc(c1).contains(j) implies 0 <= j < c2.len()
            && c2[j] == c1[j] by {}
        sib.lemma_frame(c1, c2);
        assert(c2[c as int] == child);
        assert(c2[s as int] == sib);
        assert(child.desc(c2).disjoint(sib.desc(c2))) by {
            assert forall|j: int| #[trigger] child.desc(c2).contains(j) implies !sib.desc(
                c2,
            ).contains(j) by {
                if sib.desc(c0).contains(j) {
                    assert(p0.in_use(j));
                    assert(!old_child.desc(c0).contains(j));
                }
            }
        }
        assert(self.children_smaller(c2));
        assert(self.wf(c2));
        let d2 = self.desc(c2);
        assert forall|j: int| #[trigger] d2.contains(j) implies p2.in_use(j) && (d0.contains(j)
            || !p0.in_use(j)) by {
            if j == c || j == s || sib.desc(c2).contains(j) {
                assert(d0.contains(j));
                assert(p0.in_use(j));
                if j != c {
                    assert(!old_child.desc(c0).contains(j));
                }
            } else {
                assert(child.desc(c1).contains(j));
            }
        }
        assert forall|j: int| #[trigger]
            p0.in_use(j) && !d0.contains(j) implies p2.in_use(j) && p2.cells()[j]
                == p0.cells()[j] by {
            assert(!old_child.desc(c0).contains(j));
        }
    }

    /// Recursively try to allocate the requested size. On success, return the
    /// start offset of the allocated block and its size.
    pub fn allocate(&mut self, alloc_size: usize, proto_allocator: &mut NodePool<B>) -> (r: Option<
        (usize, usize),
    >)
        requires
            old(proto_allocator).wf(),
            old(self).wf(old(proto_allocator).cells()),
            forall|j: int| #[trigger]
                old(self).desc(old(proto_allocator).cells()).contains(j) ==> old(
                    proto_allocator,
                ).in_use(j),
            1 <= alloc_size,
            old(proto_allocator).count() + cells_of(
                take(
                    old(self).shape(old(proto_allocator).cells()),
                    old(self).size as nat,
                    alloc_size as nat,
                    B as nat,
                ),
            ) <= old(proto_allocator).capacity() + cells_of(
                old(self).shape(old(proto_allocator).cells()),
            ),
        ensures
            ({
                let t = old(self).shape(old(proto_allocator).cells());
                let found = find(t, old(self).size as nat, alloc_size as nat);
                &&& final(proto_allocator).wf()
                &&& final(proto_allocator).count() + cells_of(t) == old(proto_allocator).count()
                    + cells_of(take(t, old(self).size as nat, alloc_size as nat, B as nat))
                &&& final(proto_allocator).capacity() == old(proto_allocator).capacity()
                &&& final(self).block_address == old(self).block_address
                &&& final(self).size == old(self).size
                &&& final(self).wf(final(proto_allocator).cells())
                &&& final(self).shape(final(proto_allocator).cells()) == take(
                    t,
                    old(self).size as nat,
                    alloc_size as nat,
                    B as nat,
                )
                &&& (r is Some <==> found is Some)
                &&& r is Some ==> r.unwrap().0 == old(self).block_address + found->0
                    && r.unwrap().1
                    == block_for(alloc_size as nat, B as nat)
                &&& r is None ==> *final(self) == *old(self) && *final(proto_allocator) == *old(
                    proto_allocator,
                )
                &&& Self::pool_step(
                    *old(proto_allocator),
                    *final(proto_allocator),
                    old(self).desc(old(proto_allocator).cells()),
                    final(self).desc(final(proto_allocator).cells()),
                )
            }),
        decreases old(self).size,
    {
        let ghost p0 = *proto_allocator;
        proof {
            self.lemma_wf_shape(p0.cells());
        }
        match self.state {
            BlockState::FreeLeaf => {
                if self.size < alloc_size {
                    // The block is too small for the requested size.
                    None
                } else {
                    // The block is big enough: propagate the allocation.
                    let (state, allocated) = Self::alloc_down(
                        self.block_address,
                        self.size,
                        alloc_size,
                        proto_allocator,
                    );
                    self.state = state;
                    // Whether it's the whole block or the first child, they share the base address.
                    Some((self.block_address, allocated))
                }
            },
            BlockState::Parent { left, right } => {
                if self.size <= alloc_size {
                    // A child is always smaller than its parent: nothing below can fit.
                    return None;
                }
                let ghost t = self.shape(p0.cells());
                proof {
                    assert(self.children_smaller(p0.cells()));
                    assert(self.desc(p0.cells()).contains(left as int));
                    assert(self.desc(p0.cells()).contains(right as int));
                    assert forall|j: int| #[trigger]
                        p0.cells()[left as int].desc(p0.cells()).contains(j) implies p0.in_use(
                        j,
                    ) by {
                        assert(self.desc(p0.cells()).contains(j));
                    }
                    assert forall|j: int| #[trigger]
                        p0.cells()[right as int].desc(p0.cells()).contains(j) implies p0.in_use(
                        j,
                    ) by {
                        assert(self.desc(p0.cells()).contains(j));
                    }
                }
                let mut left_node = proto_allocator.get(left);
                proof {
                    let half = (self.size / 2) as nat;
                    let lt = p0.cells()[left as int].shape(p0.cells());
                    if find(lt, half, alloc_size as nat) is None {
                        lemma_take_unfound(lt, half, alloc_size as nat, B as nat);
                    }
                }
                match left_node.allocate(alloc_size, proto_allocator) {
                    Some(hit) => {
                        let ghost p1 = *proto_allocator;
                        proto_allocator.set(left, left_node);
                        proof {
                            let half = (self.size / 2) as nat;
                            crate::shape::lemma_take(
                                p0.cells()[left as int].shape(p0.cells()),
                                half,
                                alloc_size as nat,
                                B as nat,
                                0,
                            );
                            left_node.lemma_wf_shape(p1.cells());
                            self.lemma_replace_child(
                                p0,
                                p1,
                                *proto_allocator,
                                left,
                                right,
                                left_node,
                            );
                        }
                        Some(hit)
                    },
                    None => {
                        let mut right_node = proto_allocator.get(right);
                        match right_node.allocate(alloc_size, proto_allocator) {
                            Some(hit) => {
                                let ghost p1 = *proto_allocator;
                                proto_allocator.set(right, right_node);
                                proof {
                                    let half = (self.size / 2) as nat;
                                    crate::shape::lemma_take(
                                        p0.cells()[right as int].shape(p0.cells()),
                                        half,
                                        alloc_size as nat,
                                        B as nat,
                                        0,
                                    );
                                    right_node.lemma_wf_shape(p1.cells());
                                    self.lemma_replace_child(
                                        p0,
                                        p1,
                                        *proto_allocator,
                                        right,
                                        left,
                                        right_node,
                                    );
                                }
                                Some(hit)
                            },
                            None => {
                                proof {
                                    lemma_take_unfound(t, self.size as nat, alloc_size as nat, B as nat);
                                }
                                None
                            },
                        }
                    },
                }
            },
            BlockState::AllocatedLeaf => None,
        }
    }

    /// Recursively try to free the block that starts at offset `ptr`, and
    /// merge free buddies on the way back up. On success, return the size of
    /// the freed block.
    pub fn free(&mut self, ptr: usize, proto_allocator: &mut NodePool<B>) -> (r: Result<
        usize,
        FreeError,
    >)
        requires
            old(proto_allocator).wf(),
            old(self).wf(old(proto_allocator).cells()),
            forall|j: int| #[trigger]
                old(self).desc(old(proto_allocator).cells()).contains(j) ==> old(
                    proto_allocator,
                ).in_use(j),
            old(self).block_address <= ptr < old(self).block_address + old(self).size,
            old(proto_allocator).count() >= cells_of(
                old(self).shape(old(proto_allocator).cells()),
            ),
        ensures
            ({
                let t = old(self).shape(old(proto_allocator).cells());
                let out = free_outcome(
                    t,
                    old(self).block_address as int,
                    old(self).size as nat,
                    ptr as int,
                );
                &&& final(proto_allocator).wf()
                &&& final(proto_allocator).count() + cells_of(t) == old(proto_allocator).count()
                    + cells_of(
                    release(t, old(self).block_address as int, old(self).size as nat, ptr as int),
                )
                &&& final(proto_allocator).capacity() == old(proto_allocator).capacity()
                &&& final(self).block_address == old(self).block_address
                &&& final(self).size == old(self).size
                &&& final(self).wf(final(proto_allocator).cells())
                &&& final(self).shape(final(proto_allocator).cells()) == release(
                    t,
                    old(self).block_address as int,
                    old(self).size as nat,
                    ptr as int,
                )
                &&& (r is Ok <==> out is Ok)
                &&& r is Ok ==> r->Ok_0 == out->Ok_0
                &&& r is Err ==> r->Err_0 == out->Err_0 && *final(self) == *old(self)
                    && *final(proto_allocator) == *old(proto_allocator)
                &&& Self::pool_step(
                    *old(proto_allocator),
                    *final(proto_allocator),
                    old(self).desc(old(proto_allocator).cells()),
                    final(self).desc(final(proto_allocator).cells()),
                )
            }),
        decreases old(self).size,
    {
        let ghost p0 = *proto_allocator;
        proof {
            self.lemma_wf_shape(p0.cells());
        }
        match self.state {
            // Cannot free a free block.
            BlockState::FreeLeaf => {
                if self.block_address == ptr {
                    Err(FreeError::DoubleFree)
                } else {
                    Err(FreeError::UnalignedFree)
                }
            },
            BlockState::Parent { left, right } => {
                let ghost c0 = p0.cells();
                let ghost t = self.shape(c0);
                proof {
                    assert(self.children_smaller(c0));
                    assert(self.desc(c0).contains(left as int));
                    assert(self.desc(c0).contains(right as int));
                    assert forall|j: int| #[trigger]
                        c0[left as int].desc(c0).contains(j) implies p0.in_use(j) by {
                        assert(self.desc(c0).contains(j));
                    }
                    assert forall|j: int| #[trigger]
                        c0[right as int].desc(c0).contains(j) implies p0.in_use(j) by {
                        assert(self.desc(c0).contains(j));
                    }
                    c0[left as int].lemma_wf_shape(c0);
                    c0[right as int].lemma_wf_shape(c0);
                }
                let mut left_node = proto_allocator.get(left);
                let mut right_node = proto_allocator.get(right);
                let ghost mut p1 = p0;
                // Free the node that contains the given pointer.
                let freed = if ptr < right_node.block_address {
                    match left_node.free(ptr, proto_allocator) {
                        Ok(freed) => {
                            proof {
                                p1 = *proto_allocator;
                            }
                            proto_allocator.set(left, left_node);
                            freed
                        },
                        Err(e) => return Err(e),
                    }
                } else {
                    match right_node.free(ptr, proto_allocator) {
                        Ok(freed) => {
                            proof {
                                p1 = *proto_allocator;
                            }
                            proto_allocator.set(right, right_node);
                            freed
                        },
                        Err(e) => return Err(e),
                    }
                };
                let ghost p2 = *proto_allocator;
                let ghost on_left = ptr < right_node.block_address;
                proof {
                    if on_left {
                        left_node.lemma_wf_shape(p1.cells());
                    } else {
                        right_node.lemma_wf_shape(p1.cells());
                    }
                }
                // If both children nodes are free, merge them into a single block to avoid fragmentation.
                if matches!(left_node.state, BlockState::FreeLeaf) && matches!(
                    right_node.state,
                    BlockState::FreeLeaf,
                ) {
                    proof {
                        let (c, d) = if on_left {
                            (left as int, c0[left as int].desc(c0))
                        } else {
                            (right as int, c0[right as int].desc(c0))
                        };
                        assert(!d.contains(left as int) && !d.contains(right as int));
                        assert(p1.in_use(left as int));
                        assert(p1.in_use(right as int));
                    }
                    self.state = BlockState::FreeLeaf;
                    // Give the children's cells back to the pool.
                    proto_allocator.free_cell(left);
                    proto_allocator.free_cell(right);
                    proof {
                        let p4 = *proto_allocator;
                        let d0 = old(self).desc(c0);
                        assert(self.desc(p4.cells()) =~= Set::empty());
                        assert forall|j: int| #[trigger]
                            p0.in_use(j) && !d0.contains(j) implies p4.in_use(j)
                            && p4.cells()[j] == p0.cells()[j] by {
                            assert(!c0[left as int].desc(c0).contains(j));
                            assert(!c0[right as int].desc(c0).contains(j));
                        }
                    }
                } else {
                    proof {
                        if on_left {
                            self.lemma_replace_child(p0, p1, p2, left, right, left_node);
                        } else {
                            self.lemma_replace_child(p0, p1, p2, right, left, right_node);
                        }
                    }
                }
                Ok(freed)
            },
            BlockState::AllocatedLeaf => {
                // Only allow freeing the block if the given pointer matches the block's start address.
                if self.block_address == ptr {
                    self.state = BlockState::FreeLeaf;
                    Ok(self.size)
                } else {
                    Err(FreeError::UnalignedFree)
                }
            },
        }
    }
}

} // verus!
