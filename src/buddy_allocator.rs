use vstd::prelude::*;

use crate::alloc_table::BlockNode;
use crate::errors::{AllocError, FreeError};
use crate::node_pool::NodePool;
use crate::shape::{
    block_for, cells_of, find, free_bytes, free_outcome, is_pow2, lemma_cells_bound,
    lemma_find_within_free, lemma_free_bytes_bound, lemma_release, lemma_round_up_bounds,
    lemma_take, lemma_take_unfound, live, release, take, wf_shape, Shape,
};

verus! {

/// Relies on `Vec::as_ptr`: the address of the first byte of the vector's
/// buffer. A vector's pointer is never null, and no allocation wraps around
/// the end of the address space, so the buffer's last byte has an address too.
#[verifier::external_body]
fn buffer_address(memory: &Vec<u8>) -> (r: usize)
    ensures
        r != 0,
        r + memory@.len() <= usize::MAX + 1,
{
    memory.as_ptr() as usize
}

/// A buddy allocator with a heap of `M` bytes and a zero-order block size of
/// `B` bytes.
///
/// A zero-order block is the smallest memory block that can be allocated:
/// a request for fewer than `B` bytes gets a block of exactly `B` bytes.
/// `B` and `M` are powers of two with `B <= M`, so that `M = B * 2^n`.
///
/// Addresses handed out are those of bytes of the heap, which the allocator
/// owns; the heap does not move when the allocator does.
pub struct BuddyAllocator<const M: usize, const B: usize> {
    /// The buffer where the heap is stored.
    memory: Vec<u8>,
    /// The address of the first byte of the heap.
    base: usize,
    /// A binary tree that keeps track of the allocated and free blocks.
    alloc_table: BlockNode<B>,
    /// Storage for the tree's nodes below the root.
    proto_allocator: NodePool<B>,
    /// The total amount of free memory, which may not be available as a whole due to fragmentation.
    total_free: usize,
}

impl<const M: usize, const B: usize> BuddyAllocator<M, B> {
    /// The sizes that the allocator accepts. A heap, as any allocation, is
    /// at most `isize::MAX` bytes long.
    pub open spec fn valid_params() -> bool {
        &&& is_pow2(M as nat)
        &&& is_pow2(B as nat)
        &&& B <= M
        &&& M <= isize::MAX
    }

    /// The node pool's size: enough for the finest partition of the heap,
    /// `M / B` leaves and `M / B - 1` parents.
    pub open spec fn pool_capacity() -> nat {
        (2 * (M / B) - 1) as nat
    }

    pub closed spec fn wf(&self) -> bool {
        &&& Self::valid_params()
        &&& self.memory@.len() == M
        &&& self.base != 0
        &&& self.base + M <= usize::MAX + 1
        &&& self.alloc_table.block_address == 0
        &&& self.alloc_table.size == M
        &&& self.proto_allocator.wf()
        &&& self.alloc_table.wf(self.proto_allocator.cells())
        &&& forall|j: int| #[trigger]
            self.alloc_table.desc(self.proto_allocator.cells()).contains(j)
                ==> self.proto_allocator.in_use(j)
        &&& self.total_free == free_bytes(self.shape(), M as nat)
        &&& self.proto_allocator.count() == cells_of(self.shape())
        &&& self.proto_allocator.capacity() == Self::pool_capacity()
    }

    /// The state of the heap's blocks; offsets count from the heap's start.
    pub closed spec fn shape(&self) -> Shape {
        self.alloc_table.shape(self.proto_allocator.cells())
    }

    /// The address of the first byte of the heap.
    pub closed spec fn base(&self) -> int {
        self.base as int
    }

    /// The bytes of the heap.
    pub closed spec fn arena(&self) -> Seq<u8> {
        self.memory@
    }

    /// The free bytes, counted over the free blocks.
    pub open spec fn free_space(&self) -> nat {
        free_bytes(self.shape(), M as nat)
    }

    /// The allocated blocks: offset from the heap's start to size.
    pub open spec fn live_blocks(&self) -> Map<int, nat> {
        live(self.shape(), 0, M as nat)
    }

    /// The allocator as it is right after construction: a single free block.
    pub open spec fn is_fresh(&self) -> bool {
        &&& self.wf()
        &&& self.shape() == Shape::FreeLeaf
        &&& self.free_space() == M
    }

    /// Facts that follow from well-formedness.
    pub proof fn lemma_wf(&self)
        requires
            self.wf(),
        ensures
            Self::valid_params(),
            wf_shape(self.shape(), M as nat, B as nat),
            self.free_space() <= M,
            self.base() > 0,
            self.base() + M <= usize::MAX + 1,
    {
        self.alloc_table.lemma_wf_shape(self.proto_allocator.cells());
        lemma_free_bytes_bound(self.shape(), M as nat, B as nat);
    }

    /// Build the heap, zero-filled, and a table with one free block.
    fn build() -> (r: Self)
        requires
            Self::valid_params(),
        ensures
            r.is_fresh(),
            r.arena() == Seq::new(M as nat, |i: int| 0u8),
    {
        let mut memory: Vec<u8> = Vec::with_capacity(M);
        let mut i: usize = 0;
        while i < M
            invariant
                i <= M,
                memory@.len() == i,
                forall|k: int| 0 <= k < i ==> memory@[k] == 0u8,
            decreases M - i,
        {
            memory.push(0u8);
            i = i + 1;
        }
        assert(memory@ =~= Seq::new(M as nat, |i: int| 0u8));
        let base = buffer_address(&memory);
        assert(B > 0 && 1 <= M / B <= M) by {
            assert(B != 0);
            assert(1 <= M / B <= M) by (nonlinear_arith)
                requires
                    0 < B <= M,
            ;
        }
        // The finest partition has M / B leaves and M / B - 1 parents.
        let leaves = M / B;
        let capacity = 2 * leaves - 1;
        let r = BuddyAllocator {
            memory,
            base,
            alloc_table: BlockNode::new(M, 0),
            proto_allocator: NodePool::new(capacity),
            total_free: M,
        };
        assert(r.alloc_table.desc(r.proto_allocator.cells()) =~= Set::empty());
        r
    }

    /// Create a new allocator, boxed. The heap is always zero-filled, whether
    /// or not `zero_initialized` asks for it.
    pub fn new(zero_initialized: bool) -> (r: Box<Self>)
        requires
            Self::valid_params(),
        ensures
            r.is_fresh(),
            zero_initialized ==> r.arena() == Seq::new(M as nat, |i: int| 0u8),
    {
        Box::new(Self::build())
    }

    /// Create a new allocator in place, to be initialised with `init_pinned`
    /// where it stays. It is fresh already.
    pub fn new_unpinned(zero_initialized: bool) -> (r: Self)
        requires
            Self::valid_params(),
        ensures
            r.is_fresh(),
            zero_initialized ==> r.arena() == Seq::new(M as nat, |i: int| 0u8),
    {
        Self::build()
    }

    /// Initialise the allocator where it stays: one free block over the whole
    /// heap and an empty node pool.
    pub fn init_pinned(&mut self)
        requires
            old(self).wf(),
        ensures
            final(self).is_fresh(),
            final(self).arena() == old(self).arena(),
    {
        self.base = buffer_address(&self.memory);
        self.alloc_table = BlockNode::new(M, 0);
        self.total_free = M;
        self.proto_allocator.free_all();
        assert(self.alloc_table.desc(self.proto_allocator.cells()) =~= Set::empty());
    }

    /// Allocate a memory block big enough to store at least `size` bytes and
    /// return the address of its first byte.
    ///
    /// The block is the first one, searching left (low addresses) first, that
    /// serves the request; its size is `size` rounded up to a power of two, and
    /// at least `B`. A failure changes nothing.
    pub fn alloc_bytes(&mut self, size: usize) -> (r: Result<usize, AllocError>)
        requires
            old(self).wf(),
        ensures
            final(self).wf(),
            final(self).base() == old(self).base(),
            final(self).arena() == old(self).arena(),
            size == 0 ==> r == Err::<usize, AllocError>(AllocError::ZeroAllocation),
            size > 0 && find(old(self).shape(), M as nat, size as nat) is None ==> r == Err::<
                usize,
                AllocError,
            >(AllocError::OutOfMemory),
            size > 0 && find(old(self).shape(), M as nat, size as nat) is Some ==> r is Ok,
            r is Err ==> *final(self) == *old(self),
            r is Ok ==> ({
                let x = find(old(self).shape(), M as nat, size as nat)->0;
                let served = block_for(size as nat, B as nat);
                &&& size > 0
                &&& find(old(self).shape(), M as nat, size as nat) is Some
                &&& r->Ok_0 == old(self).base() + x
                &&& final(self).shape() == take(
                    old(self).shape(),
                    M as nat,
                    size as nat,
                    B as nat,
                )
                &&& x + served <= M
                &&& x % served == 0
                &&& (if size >= B { size as nat } else { B as nat }) <= served
                &&& served < 2 * (if size >= B { size as nat } else { B as nat })
                &&& final(self).free_space() + served == old(self).free_space()
                &&& !old(self).live_blocks().contains_key(x as int)
                &&& final(self).live_blocks() == old(self).live_blocks().insert(x as int, served)
            }),
    {
        proof {
            self.lemma_wf();
        }
        if size == 0 {
            // Disallow allocating zero bytes.
            Err(AllocError::ZeroAllocation)
        } else if size > self.total_free {
            // Cannot ever allocate more than the total free memory.
            proof {
                if find(self.shape(), M as nat, size as nat) is Some {
                    lemma_find_within_free(self.shape(), M as nat, size as nat);
                }
            }
            Err(AllocError::OutOfMemory)
        } else {
            proof {
                lemma_cells_bound(self.shape(), M as nat, B as nat);
                if find(self.shape(), M as nat, size as nat) is None {
                    lemma_take_unfound(self.shape(), M as nat, size as nat, B as nat);
                }
                if find(self.shape(), M as nat, size as nat) is Some {
                    lemma_take(self.shape(), M as nat, size as nat, B as nat, 0);
                    lemma_cells_bound(
                        take(self.shape(), M as nat, size as nat, B as nat),
                        M as nat,
                        B as nat,
                    );
                    crate::shape::lemma_find_aligned(self.shape(), M as nat, size as nat, B as nat);
                    lemma_round_up_bounds(if size >= B { size as nat } else { B as nat });
                }
            }
            match self.alloc_table.allocate(size, &mut self.proto_allocator) {
                Some((offset, allocated)) => {
                    // Keep track of the free memory.
                    self.total_free = self.total_free - allocated;
                    Ok(self.base + offset)
                },
                None => Err(AllocError::OutOfMemory),
            }
        }
    }

    /// Allocate a memory block big enough to store a value of type `T` and
    /// return the address of its first byte. The address is aligned for `T`
    /// only where `B` is a multiple of its alignment.
    pub fn alloc_typed<T>(&mut self) -> (r: Result<usize, AllocError>)
        requires
            old(self).wf(),
        ensures
            final(self).wf(),
            final(self).base() == old(self).base(),
            final(self).arena() == old(self).arena(),
            vstd::layout::size_of::<T>() == 0 ==> r == Err::<usize, AllocError>(
                AllocError::ZeroAllocation,
            ),
            vstd::layout::size_of::<T>() > 0 && find(
                old(self).shape(),
                M as nat,
                vstd::layout::size_of::<T>(),
            ) is None ==> r == Err::<usize, AllocError>(AllocError::OutOfMemory),
            vstd::layout::size_of::<T>() > 0 && find(
                old(self).shape(),
                M as nat,
                vstd::layout::size_of::<T>(),
            ) is Some ==> r is Ok,
            r is Err ==> *final(self) == *old(self),
            r is Ok ==> ({
                let req = vstd::layout::size_of::<T>();
                let x = find(old(self).shape(), M as nat, req)->0;
                &&& find(old(self).shape(), M as nat, req) is Some
                &&& r->Ok_0 == old(self).base() + x
                &&& final(self).shape() == take(old(self).shape(), M as nat, req, B as nat)
                &&& final(self).live_blocks() == old(self).live_blocks().insert(
                    x as int,
                    block_for(req, B as nat),
                )
            }),
    {
        self.alloc_bytes(core::mem::size_of::<T>())
    }

    /// Free the allocated memory block that starts at address `ptr`, and
    /// merge free buddies. An address outside the heap, one at the start of
    /// a free block, and any other address that starts no allocated block
    /// are rejected; a failure changes nothing.
    pub fn free_nonnull(&mut self, ptr: usize) -> (r: Result<(), FreeError>)
        requires
            old(self).wf(),
        ensures
            final(self).wf(),
            final(self).base() == old(self).base(),
            final(self).arena() == old(self).arena(),
            ptr < old(self).base() || ptr - old(self).base() >= M ==> r == Err::<(), FreeError>(
                FreeError::FreeOutOfBounds,
            ),
            old(self).base() <= ptr < old(self).base() + M ==> ({
                let p = ptr - old(self).base();
                let out = free_outcome(old(self).shape(), 0, M as nat, p);
                &&& (r is Ok <==> old(self).live_blocks().contains_key(p))
                &&& r is Err ==> r->Err_0 == out->Err_0
                &&& r is Ok ==> {
                    &&& final(self).shape() == release(old(self).shape(), 0, M as nat, p)
                    &&& final(self).free_space() == old(self).free_space()
                        + old(self).live_blocks()[p]
                    &&& final(self).live_blocks() == old(self).live_blocks().remove(p)
                }
            }),
            r is Err ==> *final(self) == *old(self),
    {
        proof {
            self.lemma_wf();
        }
        if ptr < self.base || ptr - self.base >= M {
            // Cannot free memory outside of the allocator's heap.
            Err(FreeError::FreeOutOfBounds)
        } else {
            let offset = ptr - self.base;
            proof {
                lemma_release(self.shape(), 0, M as nat, B as nat, offset as int);
            }
            match self.alloc_table.free(offset, &mut self.proto_allocator) {
                Ok(freed) => {
                    proof {
                        self.alloc_table.lemma_wf_shape(self.proto_allocator.cells());
                        lemma_free_bytes_bound(self.shape(), M as nat, B as nat);
                    }
                    // Keep track of the free memory.
                    self.total_free = self.total_free + freed;
                    Ok(())
                },
                Err(e) => Err(e),
            }
        }
    }

    /// Free the memory block that starts at address `ptr`, rejecting a null
    /// address. Otherwise as `free_nonnull`.
    pub fn free(&mut self, ptr: usize) -> (r: Result<(), FreeError>)
        requires
            old(self).wf(),
        ensures
            final(self).wf(),
            final(self).base() == old(self).base(),
            final(self).arena() == old(self).arena(),
            ptr == 0 ==> r == Err::<(), FreeError>(FreeError::NullPtrFree),
            ptr != 0 && (ptr < old(self).base() || ptr - old(self).base() >= M) ==> r == Err::<
                (),
                FreeError,
            >(FreeError::FreeOutOfBounds),
            old(self).base() <= ptr < old(self).base() + M ==> ({
                let p = ptr - old(self).base();
                let out = free_outcome(old(self).shape(), 0, M as nat, p);
                &&& (r is Ok <==> old(self).live_blocks().contains_key(p))
                &&& r is Err ==> r->Err_0 == out->Err_0
                &&& r is Ok ==> {
                    &&& final(self).shape() == release(old(self).shape(), 0, M as nat, p)
                    &&& final(self).free_space() == old(self).free_space()
                        + old(self).live_blocks()[p]
                    &&& final(self).live_blocks() == old(self).live_blocks().remove(p)
                }
            }),
            r is Err ==> *final(self) == *old(self),
    {
        proof {
            self.lemma_wf();
        }
        if ptr == 0 {
            Err(FreeError::NullPtrFree)
        } else {
            self.free_nonnull(ptr)
        }
    }

    /// Return the total amount of free memory in the heap.
    /// Note that this memory may not be usable as a whole because of fragmentation.
    pub fn total_free(&self) -> (r: usize)
        requires
            self.wf(),
        ensures
            r == self.free_space(),
            r <= M,
    {
        proof {
            self.lemma_wf();
        }
        self.total_free
    }

    /// Return the total size of the allocator's heap.
    pub fn heap_size(&self) -> (r: usize)
        ensures
            r == M,
    {
        M
    }

    /// Return the size of allocated memory, that is, the amount of memory that is currently in use.
    pub fn total_allocated(&self) -> (r: usize)
        requires
            self.wf(),
        ensures
            r == M - self.free_space(),
            r + self.free_space() == M,
    {
        proof {
            self.lemma_wf();
        }
        let heap = self.heap_size();
        let free = self.total_free();
        heap - free
    }

    /// Free the entirety of the heap: every block handed out before is
    /// released at once.
    pub fn free_all(&mut self)
        requires
            old(self).wf(),
        ensures
            final(self).is_fresh(),
            final(self).base() == old(self).base(),
            final(self).arena() == old(self).arena(),
    {
        self.alloc_table = BlockNode::new(M, self.alloc_table.block_address);
        self.total_free = M;
        self.proto_allocator.free_all();
        assert(self.alloc_table.desc(self.proto_allocator.cells()) =~= Set::empty());
    }

    /// The node pool is never full: the tree below the root holds fewer
    /// nodes than the pool has cells, so a split always finds cells.
    pub proof fn lemma_pool_never_full(&self)
        requires
            self.wf(),
        ensures
            cells_of(self.shape()) < Self::pool_capacity(),
    {
        self.lemma_wf();
        lemma_cells_bound(self.shape(), M as nat, B as nat);
    }

    /// Once every block handed out has been freed, the heap is a single free
    /// block again and all of it is free.
    pub proof fn lemma_all_freed_is_fresh(&self)
        requires
            self.wf(),
            self.live_blocks() == Map::<int, nat>::empty(),
        ensures
            self.is_fresh(),
    {
        self.lemma_wf();
        crate::shape::lemma_nothing_live_is_free_leaf(self.shape(), 0, M as nat, B as nat);
    }

    /// Blocks that are allocated at the same time lie inside the heap and
    /// never overlap.
    pub proof fn lemma_live_blocks_disjoint(&self)
        requires
            self.wf(),
        ensures
            forall|a: int| #[trigger]
                self.live_blocks().contains_key(a) ==> 0 <= a && a + self.live_blocks()[a] <= M,
            forall|a: int, c: int|
                #[trigger] self.live_blocks().contains_key(a) && #[trigger] self.live_blocks().contains_key(c)
                    && a != c ==> a + self.live_blocks()[a] <= c || c + self.live_blocks()[c] <= a,
    {
        self.lemma_wf();
        crate::shape::lemma_live_range(self.shape(), 0, M as nat, B as nat);
        crate::shape::lemma_live_disjoint(self.shape(), 0, M as nat, B as nat);
    }
}

} // verus!
