use os::allocator::fixed_size_block::{list_index, FixedSizeBlockAllocator, BLOCK_SIZES};

const START: usize = 0x10000;
const SIZE: usize = 8192;

fn fresh(size: usize) -> FixedSizeBlockAllocator {
    let mut allocator = FixedSizeBlockAllocator::new();
    allocator.init(START, size);
    allocator
}

#[test]
fn block_sizes_are_powers_of_two() {
    assert_eq!(BLOCK_SIZES, [8, 16, 32, 64, 128, 256, 1024, 2048]);
    for size in BLOCK_SIZES {
        assert!(size.is_power_of_two());
        assert!(size >= 8);
    }
}

#[test]
fn list_index_picks_the_smallest_class_that_holds_size_and_alignment() {
    assert_eq!(list_index(0, 1), Some(0));
    assert_eq!(list_index(1, 1), Some(0));
    assert_eq!(list_index(8, 8), Some(0));
    assert_eq!(list_index(9, 1), Some(1));
    assert_eq!(list_index(1, 16), Some(1));
    assert_eq!(list_index(17, 8), Some(2));
    assert_eq!(list_index(64, 64), Some(3));
    assert_eq!(list_index(65, 1), Some(4));
    assert_eq!(list_index(256, 8), Some(5));
    assert_eq!(list_index(257, 8), Some(6));
    assert_eq!(list_index(512, 512), Some(6));
    assert_eq!(list_index(1024, 8), Some(6));
    assert_eq!(list_index(1025, 8), Some(7));
    assert_eq!(list_index(2048, 2048), Some(7));
    assert_eq!(list_index(2049, 8), None);
    assert_eq!(list_index(8, 4096), None);
    assert_eq!(list_index(usize::MAX, 1), None);
}

#[test]
fn fixed_without_a_heap_fails() {
    let mut allocator = FixedSizeBlockAllocator::new();
    assert_eq!(allocator.allocate(8, 8), None);
    assert_eq!(allocator.allocate(4096, 8), None);
}

#[test]
fn fixed_takes_new_blocks_of_the_class_size_from_the_fallback() {
    let mut allocator = fresh(SIZE);
    // Class 0 has blocks of 8 bytes, which take 16 from the fallback.
    assert_eq!(allocator.allocate(1, 1), Some(START));
    assert_eq!(allocator.allocate(8, 8), Some(START + 16));
    // Class 2, blocks of 32 bytes.
    assert_eq!(allocator.allocate(20, 4), Some(START + 32));
    assert_eq!(allocator.allocate(20, 4), Some(START + 64));
    // Class 6, blocks of 1024 bytes aligned to 1024.
    assert_eq!(allocator.allocate(300, 8), Some(START + 1024));
}

#[test]
fn fixed_hands_large_requests_to_the_fallback() {
    let mut allocator = fresh(SIZE);
    assert_eq!(allocator.allocate(3000, 8), Some(START));
    assert_eq!(allocator.allocate(8, 4096), Some(START + 4096));
    allocator.deallocate(START, 3000, 8);
    // The fallback serves from the block freed last.
    assert_eq!(allocator.allocate(2500, 8), Some(START));
}

#[test]
fn fixed_reuses_the_block_freed_last_of_a_class() {
    let mut allocator = fresh(SIZE);
    let a = allocator.allocate(30, 8).unwrap();
    let b = allocator.allocate(30, 8).unwrap();
    let c = allocator.allocate(30, 8).unwrap();
    allocator.deallocate(a, 30, 8);
    allocator.deallocate(b, 30, 8);
    assert_eq!(allocator.allocate(17, 1), Some(b));
    assert_eq!(allocator.allocate(32, 32), Some(a));
    allocator.deallocate(c, 30, 8);
    assert_eq!(allocator.allocate(32, 8), Some(c));
}

#[test]
fn fixed_keeps_the_blocks_of_a_class_for_that_class() {
    let mut allocator = fresh(64);
    let a = allocator.allocate(32, 8).unwrap();
    let b = allocator.allocate(32, 8).unwrap();
    allocator.deallocate(a, 32, 8);
    allocator.deallocate(b, 32, 8);
    // Both blocks are free, but they stay blocks of 32 bytes.
    assert_eq!(allocator.allocate(64, 8), None);
    assert_eq!(allocator.allocate(16, 8), None);
    assert_eq!(allocator.allocate(32, 8), Some(b));
    assert_eq!(allocator.allocate(32, 8), Some(a));
}

#[test]
fn fixed_cycles_of_one_class_leave_the_fallback_alone() {
    // The heap holds one block of 64 bytes and nothing else.
    let mut allocator = fresh(64);
    let first = allocator.allocate(64, 8).expect("the first block comes from the fallback");
    assert_eq!(allocator.allocate(64, 8), None);
    for _ in 0..1000 {
        allocator.deallocate(first, 64, 8);
        // The fallback has nothing left, so this block comes from the list.
        assert_eq!(allocator.allocate(3000, 8), None);
        assert_eq!(allocator.allocate(64, 8), Some(first));
    }

    let mut allocator = fresh(SIZE);
    let first = allocator.allocate(100, 8).unwrap();
    let probe = allocator.allocate(3000, 8).unwrap();
    allocator.deallocate(probe, 3000, 8);
    for _ in 0..1000 {
        allocator.deallocate(first, 100, 8);
        assert_eq!(allocator.allocate(100, 8), Some(first));
        // What the fallback gives has not moved.
        let again = allocator.allocate(3000, 8).unwrap();
        assert_eq!(again, probe);
        allocator.deallocate(again, 3000, 8);
    }
}

#[test]
fn fixed_addresses_lie_in_the_heap_and_are_aligned() {
    let mut allocator = fresh(SIZE);
    let requests =
        [(1usize, 1usize), (3, 2), (24, 16), (5, 32), (64, 64), (17, 4), (100, 128), (8, 2048)];
    for (size, align) in requests {
        let addr = allocator.allocate(size, align).expect("the heap holds these");
        assert_eq!(addr % align, 0);
        assert!(START <= addr);
        assert!(addr + size <= START + SIZE);
    }
}

#[test]
fn fixed_live_blocks_never_overlap() {
    let mut allocator = fresh(SIZE);
    let mut live: Vec<(usize, usize, usize)> = Vec::new();
    let mut round = 0usize;
    while round < 3000 {
        let size = 1 + (round * 131) % 700;
        let align = 1usize << (round % 6);
        match allocator.allocate(size, align) {
            Some(addr) => {
                for (other, other_size, _) in &live {
                    assert!(addr + size <= *other || *other + *other_size <= addr);
                }
                live.push((addr, size, align));
            }
            None => {
                if live.is_empty() {
                    break;
                }
                let (addr, size, align) = live.remove((round * 7) % live.len());
                allocator.deallocate(addr, size, align);
            }
        }
        let total: usize = live.iter().map(|block| block.1).sum();
        assert!(total <= SIZE);
        round += 1;
    }
    assert!(round > 100);
}
