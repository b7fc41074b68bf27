use kernel_mm::allocator::{align_up, DummyAllocator, Locked, HEAP_SIZE, HEAP_START};
use kernel_mm::allocator::bump::BumpAllocator;
use kernel_mm::allocator::fixed_size_block::{block_size, list_index, FixedSizeAllocator};
use kernel_mm::allocator::linked_list::{LinkedListAllocator, ListNode};

#[test]
fn align_up_exact_values() {
    assert_eq!(align_up(0, 1), 0);
    assert_eq!(align_up(5, 8), 8);
    assert_eq!(align_up(16, 8), 16);
    assert_eq!(align_up(7, 4), 8);
    assert_eq!(align_up(4097, 4096), 8192);
    // works for non-power-of-two strides as well
    assert_eq!(align_up(10, 6), 12);
}

#[test]
fn dummy_allocator_always_fails() {
    let dummy = DummyAllocator;
    assert_eq!(dummy.allocate(1, 1), None);
    assert_eq!(dummy.allocate(4096, 4096), None);
}

#[test]
fn bump_allocates_in_order() {
    let mut bump = Locked::new(BumpAllocator::new());
    bump.init(0x1000, 0x1000);
    let a = bump.allocate(100, 8).unwrap();
    let b = bump.allocate(50, 8).unwrap();
    assert_eq!(a, 0x1000);
    // cursor moved past A and was rounded up to the alignment
    assert_eq!(b, align_up(0x1000 + 100, 8));
    assert!(b > a);
}

#[test]
fn bump_freeing_all_reuses_first_offset() {
    // allocate A then B, free A then B: the counter reaches zero only at
    // the second free, and the next allocation gets A's exact offset.
    let mut bump = Locked::new(BumpAllocator::new());
    bump.init(0x1000, 0x1000);
    let a = bump.allocate(100, 8).unwrap();
    let b = bump.allocate(200, 16).unwrap();
    bump.free(a, 100, 8);
    // one allocation still lives: nothing is reused yet
    let c = bump.allocate(8, 8).unwrap();
    assert!(c > b);
    bump.free(b, 200, 16);
    bump.free(c, 8, 8);
    // the last outstanding free drained the counter: cursor reset
    let again = bump.allocate(100, 8).unwrap();
    assert_eq!(again, a);
}

#[test]
fn bump_fails_when_full_without_reuse() {
    let mut bump = Locked::new(BumpAllocator::new());
    bump.init(0x1000, 256);
    let a = bump.allocate(200, 8).unwrap();
    assert_eq!(a, 0x1000);
    // no space left for another 200 bytes, and a free of a still-live
    // neighbour must not create any
    assert_eq!(bump.allocate(200, 8), None);
}

#[test]
fn linked_list_first_fit_reuses_freed_node() {
    // allocate 100, 200, 50; free the 200-byte block; a 150-byte request
    // must be carved from the freed 200-byte node at the head of the
    // list, proving most-recently-freed-first scanning and no coalescing.
    let mut heap = Locked::new(LinkedListAllocator::new());
    heap.init(HEAP_START, HEAP_SIZE);
    let p1 = heap.allocate(100, 8).unwrap();
    let p2 = heap.allocate(200, 8).unwrap();
    let p3 = heap.allocate(50, 8).unwrap();
    assert_eq!(p1, HEAP_START);
    assert_eq!(p2, HEAP_START + 104); // 100 rounded up to the 8-byte step
    assert_eq!(p3, HEAP_START + 104 + 200);
    heap.free(p2, 200, 8);
    let p4 = heap.allocate(150, 8).unwrap();
    assert_eq!(p4, p2);
}

#[test]
fn linked_list_exhaustion_returns_none() {
    let mut heap = Locked::new(LinkedListAllocator::new());
    heap.init(HEAP_START, HEAP_SIZE);
    assert_eq!(heap.allocate(2 * HEAP_SIZE, 8), None);
    // the failed attempt did not damage the heap
    assert!(heap.allocate(64, 8).is_some());
}

#[test]
fn linked_list_distinct_live_blocks_do_not_overlap() {
    let mut heap = Locked::new(LinkedListAllocator::new());
    heap.init(HEAP_START, HEAP_SIZE);
    let mut live: Vec<(usize, usize)> = Vec::new();
    for (size, align) in [(24usize, 8usize), (100, 16), (7, 1), (512, 64), (40, 8)] {
        let p = heap.allocate(size, align).unwrap();
        assert!(p >= HEAP_START && p + size <= HEAP_START + HEAP_SIZE);
        assert_eq!(p % align, 0);
        for &(q, qsize) in &live {
            assert!(p + size <= q || q + qsize <= p);
        }
        live.push((p, size));
    }
}

#[test]
fn alloc_from_region_respects_header_sized_tail() {
    // a 48-byte node: carving 40 bytes would leave an 8-byte tail, too
    // small for a header, so the node is refused; 48 and 32 are fine
    let node = ListNode::new(1000, 48);
    assert!(LinkedListAllocator::alloc_from_region(&node, 40, 8).is_err());
    assert_eq!(LinkedListAllocator::alloc_from_region(&node, 48, 8), Ok(1000));
    assert_eq!(LinkedListAllocator::alloc_from_region(&node, 32, 8), Ok(1000));
}

#[test]
fn size_align_normalizes_requests() {
    assert_eq!(LinkedListAllocator::size_align(5, 1), (16, 8));
    assert_eq!(LinkedListAllocator::size_align(100, 8), (104, 8));
    assert_eq!(LinkedListAllocator::size_align(17, 32), (32, 32));
    assert_eq!(LinkedListAllocator::size_align(16, 8), (16, 8));
}

#[test]
fn list_index_picks_smallest_class() {
    assert_eq!(list_index(8, 1), Some(0));
    assert_eq!(list_index(9, 1), Some(1));
    assert_eq!(list_index(64, 64), Some(3));
    assert_eq!(list_index(65, 1), Some(4));
    assert_eq!(list_index(2048, 1), Some(8));
    assert_eq!(list_index(2049, 1), None);
    // alignment dominates when larger than the size
    assert_eq!(list_index(8, 256), Some(5));
}

#[test]
fn block_size_table() {
    let expected = [8, 16, 32, 64, 128, 256, 512, 1024, 2048];
    for (i, want) in expected.iter().enumerate() {
        assert_eq!(block_size(i), *want);
    }
}

#[test]
fn fixed_size_block_lifo_reuse() {
    // ten 64-byte blocks, freed in reverse order, then one more 64-byte
    // request: it must come back as one of the ten (the class stack's
    // most recently pushed entry).
    let mut heap = Locked::new(FixedSizeAllocator::new());
    heap.init(HEAP_START, HEAP_SIZE);
    let mut blocks = Vec::new();
    for _ in 0..10 {
        blocks.push(heap.allocate(64, 64).unwrap());
    }
    for i in (0..10).rev() {
        heap.free(blocks[i], 64, 64);
    }
    let again = heap.allocate(64, 64).unwrap();
    assert!(blocks.contains(&again));
    // freed a9 ... a0 in that order, so the stack head is a0
    assert_eq!(again, blocks[0]);
}

#[test]
fn fixed_size_block_oversize_goes_to_fallback() {
    let mut heap = Locked::new(FixedSizeAllocator::new());
    heap.init(HEAP_START, HEAP_SIZE);
    let big = heap.allocate(3000, 8).unwrap();
    assert!(big >= HEAP_START && big + 3000 <= HEAP_START + HEAP_SIZE);
    heap.free(big, 3000, 8);
    // the freed node sits at the head of the fallback's free list
    let again = heap.allocate(3000, 8).unwrap();
    assert_eq!(again, big);
}

#[test]
fn fixed_size_block_class_blocks_are_class_aligned() {
    let mut heap = Locked::new(FixedSizeAllocator::new());
    heap.init(HEAP_START, HEAP_SIZE);
    for (size, align, class) in [(1usize, 1usize, 8usize), (20, 4, 32), (100, 8, 128)] {
        let p = heap.allocate(size, align).unwrap();
        assert_eq!(p % class, 0);
        heap.free(p, size, align);
    }
}
