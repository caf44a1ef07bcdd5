use os::allocator::fixed_size_block::FixedSizeBlockAllocator;
use os::allocator::linked_list::LinkedListAllocator;
use os::allocator::locked::Locked;
use os::allocator::{HEAP_SIZE, HEAP_START};

const WORD: usize = 8;

/// The heap's memory, one word for every eight bytes, and the allocator
/// that hands it out.
struct Heap {
    allocator: Locked<FixedSizeBlockAllocator>,
    words: Vec<u64>,
}

impl Heap {
    fn new() -> Heap {
        let allocator = Locked::new(FixedSizeBlockAllocator::new());
        allocator.lock().init(HEAP_START as usize, HEAP_SIZE);
        Heap { allocator, words: vec![0; HEAP_SIZE / WORD] }
    }

    fn allocate(&mut self, size: usize, align: usize) -> usize {
        let addr = self.allocator.lock().allocate(size, align).expect("allocation failed");
        assert!(HEAP_START as usize <= addr && addr + size <= HEAP_START as usize + HEAP_SIZE);
        assert_eq!(addr % align, 0);
        addr
    }

    fn deallocate(&mut self, addr: usize, size: usize, align: usize) {
        self.allocator.lock().deallocate(addr, size, align);
    }

    fn write(&mut self, addr: usize, value: u64) {
        self.words[(addr - HEAP_START as usize) / WORD] = value;
    }

    fn read(&self, addr: usize) -> u64 {
        self.words[(addr - HEAP_START as usize) / WORD]
    }

    /// A value of one word in a block of its own.
    fn boxed(&mut self, value: u64) -> usize {
        let addr = self.allocate(WORD, WORD);
        self.write(addr, value);
        addr
    }

    fn unbox(&mut self, addr: usize) -> u64 {
        let value = self.read(addr);
        self.deallocate(addr, WORD, WORD);
        value
    }
}

/// A sequence of words that moves to a block twice as large when it is full.
struct Growable {
    addr: usize,
    capacity: usize,
    len: usize,
}

impl Growable {
    fn new() -> Growable {
        Growable { addr: 0, capacity: 0, len: 0 }
    }

    fn push(&mut self, heap: &mut Heap, value: u64) {
        if self.len == self.capacity {
            let capacity = if self.capacity == 0 { 4 } else { self.capacity * 2 };
            let addr = heap.allocate(capacity * WORD, WORD);
            for i in 0..self.len {
                let word = heap.read(self.addr + i * WORD);
                heap.write(addr + i * WORD, word);
            }
            if self.capacity > 0 {
                heap.deallocate(self.addr, self.capacity * WORD, WORD);
            }
            self.addr = addr;
            self.capacity = capacity;
        }
        heap.write(self.addr + self.len * WORD, value);
        self.len += 1;
    }

    fn sum(&self, heap: &Heap) -> u64 {
        let mut total = 0;
        for i in 0..self.len {
            total += heap.read(self.addr + i * WORD);
        }
        total
    }
}

#[test]
fn heap_geometry() {
    assert_eq!(HEAP_START, 0x4444_4444_0000);
    assert_eq!(HEAP_SIZE, 100 * 1024);
}

#[test]
fn simple_allocation() {
    let mut heap = Heap::new();
    let heap_value_1 = heap.boxed(12);
    let heap_value_2 = heap.boxed(42);
    assert_ne!(heap_value_1, heap_value_2);
    assert_eq!(heap.read(heap_value_1), 12);
    assert_eq!(heap.read(heap_value_2), 42);
}

#[test]
fn five_hundred_words_in_a_growable_sequence() {
    let mut heap = Heap::new();
    let mut vec = Growable::new();
    for i in 0..500 {
        vec.push(&mut heap, i);
    }
    assert_eq!(vec.sum(&heap), 124750);
}

#[test]
fn large_vec() {
    let n = 1000;
    let mut heap = Heap::new();
    let mut vec = Growable::new();
    for i in 0..n {
        vec.push(&mut heap, i);
    }
    assert_eq!(vec.sum(&heap), (n - 1) * n / 2);
}

#[test]
fn many_boxes() {
    let mut heap = Heap::new();
    for i in 0..HEAP_SIZE {
        let x = heap.boxed(i as u64);
        assert_eq!(heap.unbox(x), i as u64);
    }
}

#[test]
fn many_boxes_long_lived() {
    let mut heap = Heap::new();
    let long_lived = heap.boxed(42);
    for i in 0..HEAP_SIZE {
        let x = heap.boxed(i as u64);
        assert_eq!(heap.unbox(x), i as u64);
    }
    assert_eq!(heap.unbox(long_lived), 42);
}

#[test]
fn many_boxes_with_the_linked_list_allocator() {
    let allocator = Locked::new(LinkedListAllocator::new());
    allocator.lock().init(HEAP_START as usize, HEAP_SIZE);
    let long_lived = allocator.lock().allocate(WORD, WORD).expect("allocation failed");
    for _ in 0..HEAP_SIZE {
        let addr = allocator.lock().allocate(WORD, WORD).expect("allocation failed");
        assert_ne!(addr, long_lived);
        allocator.lock().deallocate(addr, WORD, WORD);
    }
    allocator.lock().deallocate(long_lived, WORD, WORD);
}

#[test]
fn two_interleaved_callers_never_hold_more_than_the_heap() {
    let heap_size = 4096;
    let allocator = Locked::new(FixedSizeBlockAllocator::new());
    allocator.lock().init(HEAP_START as usize, heap_size);
    let mut held: [Vec<(usize, usize)>; 2] = [Vec::new(), Vec::new()];
    let mut step = 0usize;
    while step < 4000 {
        // The callers take turns in runs of uneven length.
        let caller = (step / 3 + step / 7) % 2;
        let size = 1 + (step * 53 + caller * 17) % 300;
        let release = step % 5 == 4 || held[caller].len() > 12;
        if release && !held[caller].is_empty() {
            let (addr, size) = held[caller].remove(step % held[caller].len());
            allocator.lock().deallocate(addr, size, WORD);
        } else {
            let mut guard = allocator.lock();
            if let Some(addr) = guard.allocate(size, WORD) {
                held[caller].push((addr, size));
            }
        }
        let total: usize = held.iter().flatten().map(|block| block.1).sum();
        assert!(total <= heap_size);
        for (i, (addr, size)) in held.iter().flatten().enumerate() {
            for (other, other_size) in held.iter().flatten().skip(i + 1) {
                assert!(addr + size <= *other || other + other_size <= *addr);
            }
        }
        step += 1;
    }
}

#[test]
fn the_lock_is_free_again_when_the_guard_is_dropped() {
    let allocator = Locked::new(LinkedListAllocator::new());
    {
        let mut guard = allocator.lock();
        guard.init(0x1000, 64);
    }
    let first = allocator.lock().allocate(16, 8);
    let second = allocator.lock().allocate(16, 8);
    assert_eq!(first, Some(0x1000));
    assert_eq!(second, Some(0x1010));
}
