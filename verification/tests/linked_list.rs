use os::allocator::linked_list::{LinkedListAllocator, ListNode, NODE_ALIGN, NODE_SIZE};

const START: usize = 0x1000;
const SIZE: usize = 1024;

fn fresh() -> LinkedListAllocator {
    let mut allocator = LinkedListAllocator::new();
    allocator.init(START, SIZE);
    allocator
}

#[test]
fn node_footprint() {
    assert_eq!(NODE_SIZE, 16);
    assert_eq!(NODE_ALIGN, 8);
}

#[test]
fn list_node_addresses() {
    let node = ListNode::new(0x2000, 48);
    assert_eq!(node.get_start_addr(), 0x2000);
    assert_eq!(node.get_end_addr(), 0x2030);
}

#[test]
fn size_align_pads_and_raises() {
    assert_eq!(LinkedListAllocator::size_align(1, 1), Some((16, 8)));
    assert_eq!(LinkedListAllocator::size_align(0, 1), Some((16, 8)));
    assert_eq!(LinkedListAllocator::size_align(16, 8), Some((16, 8)));
    assert_eq!(LinkedListAllocator::size_align(17, 1), Some((24, 8)));
    assert_eq!(LinkedListAllocator::size_align(24, 16), Some((32, 16)));
    assert_eq!(LinkedListAllocator::size_align(8, 64), Some((64, 64)));
    assert_eq!(LinkedListAllocator::size_align(100, 4), Some((104, 8)));
    assert_eq!(LinkedListAllocator::size_align(usize::MAX, 8), None);
}

#[test]
fn alloc_from_region_accepts_an_exact_fit_and_a_large_rest() {
    let region = ListNode::new(0x1000, 64);
    assert_eq!(LinkedListAllocator::alloc_from_region(&region, 64, 8), Ok(0x1000));
    assert_eq!(LinkedListAllocator::alloc_from_region(&region, 48, 8), Ok(0x1000));
    assert_eq!(LinkedListAllocator::alloc_from_region(&region, 16, 8), Ok(0x1000));
}

#[test]
fn alloc_from_region_refuses_a_rest_too_small_for_a_node() {
    let region = ListNode::new(0x1000, 64);
    assert_eq!(LinkedListAllocator::alloc_from_region(&region, 56, 8), Err(()));
    assert_eq!(LinkedListAllocator::alloc_from_region(&region, 49, 8), Err(()));
}

#[test]
fn alloc_from_region_refuses_what_does_not_fit() {
    let region = ListNode::new(0x1000, 64);
    assert_eq!(LinkedListAllocator::alloc_from_region(&region, 65, 8), Err(()));
    assert_eq!(LinkedListAllocator::alloc_from_region(&region, usize::MAX, 8), Err(()));
    let region = ListNode::new(0x1008, 64);
    assert_eq!(LinkedListAllocator::alloc_from_region(&region, 64, 16), Err(()));
    assert_eq!(LinkedListAllocator::alloc_from_region(&region, 56, 16), Ok(0x1010));
    let region = ListNode::new(usize::MAX - 23, 16);
    assert_eq!(LinkedListAllocator::alloc_from_region(&region, 16, 8), Ok(usize::MAX - 23));
    assert_eq!(LinkedListAllocator::alloc_from_region(&region, 16, 4096), Err(()));
}

#[test]
fn list_without_a_heap_fails() {
    let mut allocator = LinkedListAllocator::new();
    assert_eq!(allocator.allocate(1, 1), None);
}

#[test]
fn list_splits_the_first_region_that_fits() {
    let mut allocator = fresh();
    assert_eq!(allocator.allocate(10, 8), Some(0x1000));
    assert_eq!(allocator.allocate(10, 8), Some(0x1010));
    assert_eq!(allocator.allocate(100, 1), Some(0x1020));
    assert_eq!(allocator.allocate(8, 64), Some(0x10c0));
}

#[test]
fn list_serves_from_the_block_freed_last() {
    let mut allocator = fresh();
    let a = allocator.allocate(32, 8).unwrap();
    let b = allocator.allocate(32, 8).unwrap();
    let c = allocator.allocate(32, 8).unwrap();
    assert_eq!((a, b, c), (0x1000, 0x1020, 0x1040));
    allocator.deallocate(a, 32, 8);
    allocator.deallocate(c, 32, 8);
    assert_eq!(allocator.allocate(32, 8), Some(c));
    assert_eq!(allocator.allocate(32, 8), Some(a));
    assert_eq!(allocator.allocate(32, 8), Some(0x1060));
}

#[test]
fn list_skips_a_region_whose_rest_would_be_too_small() {
    let mut allocator = LinkedListAllocator::new();
    allocator.init(START, 96);
    let a = allocator.allocate(40, 8).unwrap();
    let b = allocator.allocate(56, 8).unwrap();
    assert_eq!((a, b), (0x1000, 0x1028));
    allocator.deallocate(a, 40, 8);
    // The only free region has 40 bytes; 32 bytes would leave 8.
    assert_eq!(allocator.allocate(32, 8), None);
    assert_eq!(allocator.allocate(24, 8), Some(0x1000));
    // What stays of the region is a region of 16 bytes.
    assert_eq!(allocator.allocate(16, 8), Some(0x1018));
    assert_eq!(allocator.allocate(16, 8), None);
}

#[test]
fn list_takes_the_second_region_where_the_first_does_not_fit() {
    let mut allocator = fresh();
    let a = allocator.allocate(40, 8).unwrap();
    let _b = allocator.allocate(16, 8).unwrap();
    allocator.deallocate(a, 40, 8);
    // The freed region of 40 bytes heads the list; 32 bytes would leave 8.
    assert_eq!(allocator.allocate(32, 8), Some(0x1038));
    // What stayed behind that block now heads the list.
    assert_eq!(allocator.allocate(24, 8), Some(0x1058));
}

#[test]
fn list_never_merges_neighbours() {
    let mut allocator = LinkedListAllocator::new();
    allocator.init(START, 64);
    let a = allocator.allocate(32, 8).unwrap();
    let b = allocator.allocate(32, 8).unwrap();
    assert_eq!(allocator.allocate(16, 8), None);
    allocator.deallocate(a, 32, 8);
    allocator.deallocate(b, 32, 8);
    assert_eq!(allocator.allocate(64, 8), None);
    assert_eq!(allocator.allocate(32, 8), Some(b));
    assert_eq!(allocator.allocate(32, 8), Some(a));
}

#[test]
fn list_loses_what_lies_before_an_aligned_block() {
    let mut allocator = LinkedListAllocator::new();
    allocator.init(0x1008, 120);
    assert_eq!(allocator.allocate(64, 64), Some(0x1040));
    // The bytes before the block are in no region any more.
    assert_eq!(allocator.allocate(16, 8), None);
    assert_eq!(allocator.allocate(1, 1), None);
    allocator.deallocate(0x1040, 64, 64);
    assert_eq!(allocator.allocate(56, 8), None);
    assert_eq!(allocator.allocate(64, 8), Some(0x1040));
}

#[test]
fn list_fails_when_nothing_fits() {
    let mut allocator = fresh();
    assert_eq!(allocator.allocate(SIZE + 1, 8), None);
    assert_eq!(allocator.allocate(usize::MAX, 8), None);
    assert_eq!(allocator.allocate(SIZE, 8), Some(START));
    assert_eq!(allocator.allocate(1, 1), None);
}

#[test]
fn list_addresses_lie_in_the_heap_and_are_aligned() {
    let mut allocator = fresh();
    let requests = [(1usize, 1usize), (3, 2), (24, 16), (5, 32), (64, 64), (17, 4), (100, 128)];
    for (size, align) in requests {
        let addr = allocator.allocate(size, align).expect("the heap holds these");
        assert_eq!(addr % align, 0);
        assert!(START <= addr);
        assert!(addr + size <= START + SIZE);
    }
}

#[test]
fn list_allocate_then_free_a_thousand_times() {
    let requests = [(8usize, 8usize), (1, 1), (100, 16), (1024, 8), (17, 64)];
    for (size, align) in requests {
        let mut allocator = fresh();
        let first = allocator.allocate(size, align).expect("the first request is served");
        allocator.deallocate(first, size, align);
        for _ in 0..1000 {
            let addr = allocator.allocate(size, align);
            assert_eq!(addr, Some(first));
            allocator.deallocate(first, size, align);
        }
    }
}

#[test]
fn list_live_blocks_never_overlap() {
    let mut allocator = fresh();
    let mut live: Vec<(usize, usize, usize)> = Vec::new();
    let mut round = 0usize;
    while round < 2000 {
        let size = 1 + (round * 37) % 120;
        let align = 1usize << (round % 5);
        match allocator.allocate(size, align) {
            Some(addr) => {
                for (other, other_size, _) in &live {
                    assert!(addr + size <= *other || *other + *other_size <= addr);
                }
                live.push((addr, size, align));
            }
            None => {
                if live.is_empty() {
                    break;
                }
                let (addr, size, align) = live.remove((round * 7) % live.len());
                allocator.deallocate(addr, size, align);
            }
        }
        let total: usize = live.iter().map(|block| block.1).sum();
        assert!(total <= SIZE);
        round += 1;
    }
    assert!(round > 100);
}
