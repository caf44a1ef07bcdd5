use os::allocator::bump::BumpAllocator;
use os::allocator::{align_up, check_power_of_two, fast_align_up};

const START: usize = 0x1000;
const SIZE: usize = 1024;

fn fresh() -> BumpAllocator {
    let mut allocator = BumpAllocator::new();
    allocator.init(START, SIZE);
    allocator
}

#[test]
fn align_up_rounds_to_the_next_multiple() {
    assert_eq!(align_up(0, 8), 0);
    assert_eq!(align_up(1, 8), 8);
    assert_eq!(align_up(8, 8), 8);
    assert_eq!(align_up(9, 8), 16);
    assert_eq!(align_up(4097, 4096), 8192);
    assert_eq!(align_up(10, 3), 12);
    assert_eq!(align_up(12, 3), 12);
}

#[test]
fn fast_align_up_agrees_with_align_up() {
    let aligns = [1usize, 2, 4, 8, 16, 64, 4096];
    for align in aligns {
        for addr in 0..300usize {
            assert_eq!(fast_align_up(addr, align), align_up(addr, align));
        }
    }
    assert_eq!(fast_align_up(usize::MAX - 7, 8), usize::MAX - 7);
}

#[test]
fn powers_of_two() {
    assert!(!check_power_of_two(0));
    assert!(check_power_of_two(1));
    assert!(check_power_of_two(2));
    assert!(!check_power_of_two(3));
    assert!(check_power_of_two(4096));
    assert!(!check_power_of_two(4097));
    assert!(check_power_of_two(1 << (usize::BITS - 1)));
    assert!(!check_power_of_two((1 << (usize::BITS - 1)) + 1));
    assert!(!check_power_of_two(usize::MAX));
    for n in 0..5000usize {
        assert_eq!(check_power_of_two(n), n.is_power_of_two());
    }
}

#[test]
fn bump_without_a_heap_fails() {
    let mut allocator = BumpAllocator::new();
    assert_eq!(allocator.allocate(1, 1), None);
}

#[test]
fn bump_places_blocks_one_behind_the_other() {
    let mut allocator = fresh();
    assert_eq!(allocator.allocate(10, 8), Some(0x1000));
    assert_eq!(allocator.allocate(10, 8), Some(0x1010));
    assert_eq!(allocator.allocate(1, 1), Some(0x101a));
    assert_eq!(allocator.allocate(4, 64), Some(0x1040));
}

#[test]
fn bump_fails_when_the_rest_is_too_small() {
    let mut allocator = fresh();
    assert_eq!(allocator.allocate(SIZE, 1), Some(START));
    assert_eq!(allocator.allocate(1, 1), None);
    assert_eq!(allocator.allocate(0, 1), Some(START + SIZE));

    let mut allocator = fresh();
    assert_eq!(allocator.allocate(SIZE + 1, 1), None);
    assert_eq!(allocator.allocate(usize::MAX, 1), None);
    assert_eq!(allocator.allocate(SIZE, 1), Some(START));
}

#[test]
fn bump_does_not_reuse_memory_while_blocks_are_live() {
    let mut allocator = fresh();
    let first = allocator.allocate(16, 8).unwrap();
    let second = allocator.allocate(16, 8).unwrap();
    allocator.deallocate(first, 16, 8);
    let third = allocator.allocate(16, 8).unwrap();
    assert_eq!(third, second + 16);
}

#[test]
fn bump_starts_over_after_as_many_frees_as_allocations() {
    for n in 0..40usize {
        let mut allocator = fresh();
        let mut blocks = Vec::new();
        for i in 0..n {
            let size = 1 + i % 7;
            let addr = allocator.allocate(size, 8).expect("the heap holds forty small blocks");
            blocks.push((addr, size));
        }
        for (addr, size) in blocks {
            allocator.deallocate(addr, size, 8);
        }
        assert_eq!(allocator.allocate(8, 8), Some(START));
    }
}

#[test]
fn bump_addresses_are_aligned() {
    let mut allocator = fresh();
    let mut align = 1usize;
    while align <= 256 {
        let addr = allocator.allocate(3, align).unwrap();
        assert_eq!(addr % align, 0);
        assert!(START <= addr && addr + 3 <= START + SIZE);
        align *= 2;
    }
}

#[test]
fn bump_live_bytes_stay_within_the_heap() {
    let mut allocator = fresh();
    let mut live: Vec<(usize, usize)> = Vec::new();
    let mut round = 0usize;
    while round < 500 {
        let size = 1 + (round * 37) % 90;
        match allocator.allocate(size, 8) {
            Some(addr) => live.push((addr, size)),
            None => {
                let (addr, size) = live.remove(0);
                allocator.deallocate(addr, size, 8);
            }
        }
        let total: usize = live.iter().map(|block| block.1).sum();
        assert!(total <= SIZE);
        round += 1;
    }
}
