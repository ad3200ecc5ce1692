use buddy_allocator::alloc_table::{BlockNode, BlockState};
use buddy_allocator::node_pool::NodePool;
use buddy_allocator::{AllocError, BuddyAllocator, FreeError};

#[test]
fn check_new_allocator() {
    let alloc = BuddyAllocator::<1024, 8>::new(false);

    assert_eq!(alloc.total_free(), alloc.heap_size());
}

#[test]
fn check_allocator_bounds() {
    let mut alloc = BuddyAllocator::<1024, 8>::new(false);

    assert!(matches!(alloc.as_mut().alloc_bytes(0), Err(AllocError::ZeroAllocation)));

    assert!(matches!(alloc.as_mut().alloc_bytes(1025), Err(AllocError::OutOfMemory)));
}

#[test]
fn check_allocator_within_bounds() {
    let mut alloc = BuddyAllocator::<1024, 8>::new(false);

    assert!(alloc.as_mut().alloc_bytes(1).is_ok());
    assert!(alloc.as_mut().alloc_bytes(8).is_ok());
    assert!(alloc.as_mut().alloc_bytes(9).is_ok());
    assert!(alloc.as_mut().alloc_bytes(24).is_ok());
    assert!(alloc.as_mut().alloc_bytes(32).is_ok());
    assert!(alloc.as_mut().alloc_bytes(65).is_ok());
    assert!(alloc.as_mut().alloc_bytes(1000).is_err());
}

#[test]
fn check_free_bounds() {
    let mut alloc = BuddyAllocator::<1024, 8>::new(false);

    assert!(matches!(alloc.as_mut().free(0), Err(FreeError::NullPtrFree)));
    assert!(matches!(alloc.as_mut().free(usize::MAX), Err(FreeError::FreeOutOfBounds)));
}

#[test]
fn check_full_free() {
    let mut alloc = BuddyAllocator::<1024, 8>::new(false);

    let blocks = [1, 2, 3, 4, 5, 6, 7, 8, 9, 32, 32, 53, 12, 76, 50, 21, 127];

    let ptrs: Vec<usize> = blocks
        .iter()
        .map(|&s| alloc.as_mut().alloc_bytes(s as usize).unwrap())
        .collect();

    for ptr in ptrs {
        assert!(alloc.as_mut().free_nonnull(ptr).is_ok());
    }

    assert_eq!(alloc.total_free(), alloc.heap_size());
}

#[test]
fn check_new_allocator_stack() {
    let mut alloc = BuddyAllocator::<1024, 8>::new_unpinned(false);
    alloc.init_pinned();

    assert_eq!(alloc.total_free(), alloc.heap_size());
}

#[test]
fn check_allocator_bounds_stack() {
    let mut alloc = BuddyAllocator::<1024, 8>::new_unpinned(false);
    alloc.init_pinned();

    assert!(matches!(alloc.alloc_bytes(0), Err(AllocError::ZeroAllocation)));

    assert!(matches!(alloc.alloc_bytes(1025), Err(AllocError::OutOfMemory)));
}

#[test]
fn check_allocator_within_bounds_stack() {
    let mut alloc = BuddyAllocator::<1024, 8>::new_unpinned(false);
    alloc.init_pinned();

    assert!(alloc.alloc_bytes(1).is_ok());
    assert!(alloc.alloc_bytes(8).is_ok());
    assert!(alloc.alloc_bytes(9).is_ok());
    assert!(alloc.alloc_bytes(24).is_ok());
    assert!(alloc.alloc_bytes(32).is_ok());
    assert!(alloc.alloc_bytes(65).is_ok());
    assert!(alloc.alloc_bytes(1000).is_err());
}

#[test]
fn check_free_bounds_stack() {
    let mut alloc = BuddyAllocator::<1024, 8>::new_unpinned(false);
    alloc.init_pinned();

    assert!(matches!(alloc.free(0), Err(FreeError::NullPtrFree)));
    assert!(matches!(alloc.free(usize::MAX), Err(FreeError::FreeOutOfBounds)));
}

#[test]
fn check_full_free_stack() {
    let mut alloc = BuddyAllocator::<1024, 8>::new_unpinned(false);
    alloc.init_pinned();

    let blocks = [1, 2, 3, 4, 5, 6, 7, 8, 9, 32, 32, 53, 12, 76, 50, 21, 127];

    let ptrs: Vec<usize> = blocks.iter().map(|&s| alloc.alloc_bytes(s as usize).unwrap()).collect();

    for ptr in ptrs {
        assert!(alloc.free_nonnull(ptr).is_ok());
    }

    assert_eq!(alloc.total_free(), alloc.heap_size());
}

#[test]
fn construction_reports_whole_heap_free() {
    let alloc = BuddyAllocator::<1024, 8>::new(true);
    assert_eq!(alloc.total_free(), 1024);
    assert_eq!(alloc.heap_size(), 1024);
    assert_eq!(alloc.total_allocated(), 0);
}

#[test]
fn small_requests_take_a_zero_order_block() {
    let mut alloc = BuddyAllocator::<1024, 8>::new(false);
    assert!(alloc.alloc_bytes(1).is_ok());
    assert_eq!(alloc.total_free(), 1024 - 8);
    assert!(alloc.alloc_bytes(9).is_ok());
    assert_eq!(alloc.total_free(), 1024 - 8 - 16);
}

#[test]
fn served_blocks_are_rounded_up_powers_of_two() {
    for size in 1..=1024usize {
        let mut alloc = BuddyAllocator::<1024, 8>::new(false);
        assert!(alloc.alloc_bytes(size).is_ok());
        let served = 1024 - alloc.total_free();
        let wanted = size.max(8);
        assert!(served.is_power_of_two());
        assert!(wanted <= served && served < 2 * wanted);
    }
}

#[test]
fn exact_block_sizes() {
    let mut alloc = BuddyAllocator::<1024, 8>::new(false);
    assert!(alloc.alloc_bytes(100).is_ok());
    assert_eq!(alloc.total_free(), 1024 - 128);
    assert!(alloc.alloc_bytes(128).is_ok());
    assert_eq!(alloc.total_free(), 1024 - 256);
    assert!(alloc.alloc_bytes(129).is_ok());
    assert_eq!(alloc.total_free(), 1024 - 512);
}

#[test]
fn freeing_both_buddies_merges_them() {
    let mut alloc = BuddyAllocator::<1024, 8>::new(false);
    let p1 = alloc.alloc_bytes(8).unwrap();
    let p2 = alloc.alloc_bytes(8).unwrap();
    assert!(alloc.free(p1).is_ok());
    assert!(alloc.free(p2).is_ok());
    assert_eq!(alloc.total_free(), 1024);
    assert!(alloc.alloc_bytes(1024).is_ok());
    assert_eq!(alloc.total_free(), 0);
}

#[test]
fn freed_half_serves_a_half_request() {
    let mut alloc = BuddyAllocator::<1024, 8>::new(false);
    let first = alloc.alloc_bytes(512).unwrap();
    assert!(alloc.alloc_bytes(256).is_ok());
    assert!(alloc.free(first).is_ok());
    assert!(alloc.alloc_bytes(512).is_ok());
}

#[test]
fn placement_is_left_first() {
    let mut alloc = BuddyAllocator::<1024, 8>::new(false);
    let p1 = alloc.alloc_bytes(8).unwrap();
    let p2 = alloc.alloc_bytes(8).unwrap();
    let p3 = alloc.alloc_bytes(16).unwrap();
    let p4 = alloc.alloc_bytes(1).unwrap();
    assert_eq!(p2 - p1, 8);
    assert_eq!(p3 - p1, 16);
    assert_eq!(p4 - p1, 32);
    assert!(alloc.free(p1).is_ok());
    assert_eq!(alloc.alloc_bytes(3).unwrap(), p1);
}

#[test]
fn double_free_is_rejected() {
    let mut alloc = BuddyAllocator::<1024, 8>::new(false);
    let p = alloc.alloc_bytes(8).unwrap();
    assert!(alloc.free(p).is_ok());
    assert!(matches!(alloc.free(p), Err(FreeError::DoubleFree)));
    assert_eq!(alloc.total_free(), 1024);
}

#[test]
fn unaligned_free_is_rejected() {
    let mut alloc = BuddyAllocator::<1024, 8>::new(false);
    let p = alloc.alloc_bytes(16).unwrap();
    assert!(matches!(alloc.free(p + 1), Err(FreeError::UnalignedFree)));
    assert!(matches!(alloc.free(p + 100), Err(FreeError::UnalignedFree)));
    assert_eq!(alloc.total_free(), 1024 - 16);
    assert!(alloc.free(p).is_ok());
}

#[test]
fn addresses_outside_the_heap_are_rejected() {
    let mut alloc = BuddyAllocator::<1024, 8>::new(false);
    let base = alloc.alloc_bytes(8).unwrap();
    assert!(base != 0);
    assert!(matches!(alloc.free_nonnull(base - 1), Err(FreeError::FreeOutOfBounds)));
    assert!(matches!(alloc.free_nonnull(base + 1024), Err(FreeError::FreeOutOfBounds)));
    assert!(matches!(alloc.free_nonnull(0), Err(FreeError::FreeOutOfBounds)));
    assert!(alloc.free_nonnull(base).is_ok());
}

#[test]
fn failures_change_nothing() {
    let mut alloc = BuddyAllocator::<1024, 8>::new(false);
    let p = alloc.alloc_bytes(300).unwrap();
    assert!(matches!(alloc.alloc_bytes(600), Err(AllocError::OutOfMemory)));
    assert!(matches!(alloc.alloc_bytes(0), Err(AllocError::ZeroAllocation)));
    assert!(matches!(alloc.free(p + 8), Err(FreeError::UnalignedFree)));
    assert!(matches!(alloc.free(p + 512), Err(FreeError::DoubleFree)));
    assert_eq!(alloc.total_free(), 512);
    assert!(alloc.free(p).is_ok());
    assert_eq!(alloc.total_free(), 1024);
}

#[test]
fn out_of_memory_after_fragmentation() {
    let mut alloc = BuddyAllocator::<1024, 8>::new(false);
    let a = alloc.alloc_bytes(8).unwrap();
    assert!(alloc.alloc_bytes(512).is_ok());
    assert_eq!(alloc.total_free(), 504);
    assert!(matches!(alloc.alloc_bytes(300), Err(AllocError::OutOfMemory)));
    assert!(alloc.alloc_bytes(256).is_ok());
    assert!(alloc.free(a).is_ok());
}

#[test]
fn free_right_after_alloc_restores_total() {
    let mut alloc = BuddyAllocator::<1024, 8>::new(false);
    assert!(alloc.alloc_bytes(40).is_ok());
    let before = alloc.total_free();
    let p = alloc.alloc_bytes(20).unwrap();
    assert!(alloc.free(p).is_ok());
    assert_eq!(alloc.total_free(), before);
}

#[test]
fn allocated_and_free_add_up_to_heap() {
    let mut alloc = BuddyAllocator::<1024, 8>::new(false);
    let mut ptrs = Vec::new();
    for size in [3usize, 70, 8, 200, 16, 1, 33] {
        ptrs.push(alloc.alloc_bytes(size).unwrap());
        assert_eq!(alloc.total_allocated() + alloc.total_free(), alloc.heap_size());
    }
    for p in ptrs.into_iter().rev() {
        assert!(alloc.free(p).is_ok());
        assert_eq!(alloc.total_allocated() + alloc.total_free(), alloc.heap_size());
    }
    assert_eq!(alloc.total_free(), 1024);
}

#[test]
fn live_blocks_do_not_overlap() {
    let mut alloc = BuddyAllocator::<1024, 8>::new(false);
    let mut blocks: Vec<(usize, usize)> = Vec::new();
    for size in [5usize, 64, 17, 8, 100, 30, 2, 9] {
        let before = alloc.total_free();
        let p = alloc.alloc_bytes(size).unwrap();
        blocks.push((p, before - alloc.total_free()));
    }
    for (i, &(a, la)) in blocks.iter().enumerate() {
        for &(c, lc) in blocks.iter().skip(i + 1) {
            assert!(a + la <= c || c + lc <= a);
        }
    }
}

#[test]
fn consumed_bytes_sum_the_rounded_requests() {
    let mut alloc = BuddyAllocator::<1024, 8>::new(false);
    let sizes = [1usize, 9, 100, 8, 33];
    let mut total = 0;
    for &s in sizes.iter() {
        assert!(alloc.alloc_bytes(s).is_ok());
        total += s.max(8).next_power_of_two();
    }
    assert_eq!(total, 8 + 16 + 128 + 8 + 64);
    assert_eq!(alloc.heap_size() - alloc.total_free(), total);
}

#[test]
fn all_freed_in_any_order_gives_one_free_block() {
    let mut alloc = BuddyAllocator::<1024, 8>::new(false);
    let sizes = [16usize, 8, 120, 8, 64, 300, 24];
    let ptrs: Vec<usize> = sizes.iter().map(|&s| alloc.alloc_bytes(s).unwrap()).collect();
    for &i in [3usize, 0, 6, 2, 5, 1, 4].iter() {
        assert!(alloc.free(ptrs[i]).is_ok());
    }
    assert_eq!(alloc.total_free(), alloc.heap_size());
    assert!(alloc.alloc_bytes(1024).is_ok());
}

#[test]
fn typed_allocation_uses_the_type_size() {
    let mut alloc = BuddyAllocator::<1024, 8>::new(false);
    assert!(alloc.alloc_typed::<[u64; 3]>().is_ok());
    assert_eq!(alloc.total_free(), 1024 - 32);
    assert!(matches!(alloc.alloc_typed::<()>(), Err(AllocError::ZeroAllocation)));
    assert_eq!(alloc.total_free(), 1024 - 32);
}

#[test]
fn free_all_resets_the_heap() {
    let mut alloc = BuddyAllocator::<1024, 8>::new(false);
    let p = alloc.alloc_bytes(8).unwrap();
    assert!(alloc.alloc_bytes(300).is_ok());
    alloc.free_all();
    assert_eq!(alloc.total_free(), 1024);
    assert_eq!(alloc.alloc_bytes(1024).unwrap(), p);
}

#[test]
fn block_node_splits_and_merges() {
    let mut pool = NodePool::<8>::new(16);
    let mut root = BlockNode::<8>::new(64, 0);
    assert_eq!(root.allocate(8, &mut pool), Some((0, 8)));
    assert!(matches!(root.state, BlockState::Parent { .. }));
    assert_eq!(root.allocate(20, &mut pool), Some((32, 32)));
    assert_eq!(root.allocate(64, &mut pool), None);
    assert!(matches!(root.free(4, &mut pool), Err(FreeError::UnalignedFree)));
    assert!(matches!(root.free(8, &mut pool), Err(FreeError::DoubleFree)));
    assert_eq!(root.free(0, &mut pool).unwrap(), 8);
    assert_eq!(root.free(32, &mut pool).unwrap(), 32);
    assert!(matches!(root.state, BlockState::FreeLeaf));
}

#[test]
fn node_pool_reuses_vacated_cells() {
    let mut pool = NodePool::<8>::new(4);
    let a = pool.alloc_cell(BlockNode::new(8, 0));
    let b = pool.alloc_cell(BlockNode::new(8, 8));
    assert_ne!(a, b);
    pool.free_cell(a);
    let c = pool.alloc_cell(BlockNode::new(16, 16));
    assert_eq!(c, a);
    assert_eq!(pool.get(c).size, 16);
    pool.free_all();
    assert_eq!(pool.alloc_cell(BlockNode::new(8, 0)), 0);
}
