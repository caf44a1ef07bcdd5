//! A bump allocator: hands out addresses in rising order and takes the whole
//! heap back once nothing is in use any more.

use crate::allocator::{
    align_up, lemma_remove_value, lemma_remove_value_keeps, lemma_round_up,
    lemma_total_size_push, lemma_total_size_remove, round_up, total_size, Block, Request,
};
use vstd::prelude::*;

verus! {

/// What a bump allocator knows: the heap it serves, the next unused address,
/// and the blocks that are in use, oldest first.
pub struct BumpModel {
    pub heap_start: int,
    pub heap_end: int,
    pub next: int,
    pub live: Seq<Block>,
}

impl BumpModel {
    /// The state right after the allocator was given `[start, start + size)`.
    pub open spec fn fresh(start: int, size: int) -> BumpModel {
        BumpModel { heap_start: start, heap_end: start + size, next: start, live: Seq::empty() }
    }

    /// The invariant of every reachable state: the blocks in use lie
    /// between the start of the heap and the next unused address, each
    /// behind those that are older; and when none is in use, the whole heap
    /// is unused.
    pub open spec fn wf(self) -> bool {
        &&& 0 <= self.heap_start <= self.next <= self.heap_end <= usize::MAX
        &&& self.live.len() <= usize::MAX
        &&& self.live.len() == 0 ==> self.next == self.heap_start
        &&& total_size(self.live) <= self.next - self.heap_start
        &&& forall|i: int|
            0 <= i < self.live.len() ==> {
                &&& 0 <= (#[trigger] self.live[i]).size
                &&& self.heap_start <= self.live[i].start
                &&& self.live[i].end() <= self.next
            }
        &&& forall|i: int, j: int|
            0 <= i < j < self.live.len() ==> (#[trigger] self.live[i]).end() <= (
            #[trigger] self.live[j]).start
    }

    /// Where a request for `size` bytes at alignment `align` would be placed.
    pub open spec fn candidate(self, align: int) -> int {
        round_up(self.next, align)
    }

    /// Whether a request for `size` bytes at alignment `align` is served.
    pub open spec fn can_allocate(self, size: int, align: int) -> bool {
        self.candidate(align) + size <= self.heap_end && self.live.len() < usize::MAX
    }

    /// The state after a request for `size` bytes at alignment `align`.
    pub open spec fn allocate(self, size: int, align: int) -> BumpModel {
        if self.can_allocate(size, align) {
            let start = self.candidate(align);
            BumpModel {
                next: start + size,
                live: self.live.push(Block { start, size }),
                ..self
            }
        } else {
            self
        }
    }

    /// The address that a request for `size` bytes at alignment `align` gets.
    pub open spec fn allocated(self, size: int, align: int) -> Option<int> {
        if self.can_allocate(size, align) {
            Some(self.candidate(align))
        } else {
            None
        }
    }

    /// The state after `block` was given back.
    pub open spec fn deallocate(self, block: Block) -> BumpModel {
        let live = self.live.remove_value(block);
        BumpModel { next: if live.len() == 0 { self.heap_start } else { self.next }, live, ..self }
    }

    /// The state after the blocks of `frees` were given back one by one.
    pub open spec fn deallocate_all(self, frees: Seq<Block>) -> BumpModel
        decreases frees.len(),
    {
        if frees.len() == 0 {
            self
        } else {
            self.deallocate(frees[0]).deallocate_all(frees.drop_first())
        }
    }

    /// Whether each block of `frees` is in use when its turn comes.
    pub open spec fn can_deallocate_all(self, frees: Seq<Block>) -> bool
        decreases frees.len(),
    {
        frees.len() > 0 ==> self.live.contains(frees[0]) && self.deallocate(
            frees[0],
        ).can_deallocate_all(frees.drop_first())
    }
}

/// A served request leaves a reachable state, and the block it hands out lies
/// in the heap, at the alignment asked for.
pub proof fn lemma_allocate_wf(m: BumpModel, size: int, align: int)
    requires
        m.wf(),
        0 <= size,
        0 < align,
    ensures
        m.allocate(size, align).wf(),
        m.allocated(size, align) matches Some(p) ==> {
            &&& p % align == 0
            &&& m.heap_start <= p
            &&& p + size <= m.heap_end
        },
{
    lemma_round_up(m.next, align);
    if m.can_allocate(size, align) {
        let after = m.allocate(size, align);
        lemma_total_size_push(m.live, Block { start: m.candidate(align), size });
        assert forall|i: int| 0 <= i < after.live.len() implies {
            &&& 0 <= (#[trigger] after.live[i]).size
            &&& after.heap_start <= after.live[i].start
            &&& after.live[i].end() <= after.next
        } by {
            if i < m.live.len() {
                assert(after.live[i] == m.live[i]);
            }
        }
        assert forall|i: int, j: int| 0 <= i < j < after.live.len() implies (
        #[trigger] after.live[i]).end() <= (#[trigger] after.live[j]).start by {
            assert(after.live[i] == m.live[i]);
            if j < m.live.len() {
                assert(after.live[j] == m.live[j]);
            }
        }
    }
}

/// Giving back a block that is in use leaves a reachable state with one
/// block fewer in use.
pub proof fn lemma_deallocate_wf(m: BumpModel, block: Block)
    requires
        m.wf(),
        m.live.contains(block),
    ensures
        m.deallocate(block).wf(),
        m.deallocate(block).live.len() == m.live.len() - 1,
{
    lemma_remove_value(m.live, block);
    let i = choose|i: int|
        0 <= i < m.live.len() && m.live[i] == block && m.live.remove_value(block) == m.live.remove(
            i,
        );
    let after = m.deallocate(block);
    lemma_total_size_remove(m.live, i);
    assert forall|k: int| 0 <= k < after.live.len() implies {
        &&& 0 <= (#[trigger] after.live[k]).size
        &&& after.heap_start <= after.live[k].start
        &&& after.live[k].end() <= after.next
    } by {
        if k < i {
            assert(after.live[k] == m.live[k]);
        } else {
            assert(after.live[k] == m.live[k + 1]);
        }
    }
    assert forall|k: int, l: int| 0 <= k < l < after.live.len() implies (
    #[trigger] after.live[k]).end() <= (#[trigger] after.live[l]).start by {
        let k0 = if k < i {
            k
        } else {
            k + 1
        };
        let l0 = if l < i {
            l
        } else {
            l + 1
        };
        assert(after.live[k] == m.live[k0] && after.live[l] == m.live[l0]);
    }
    if after.live.len() == 0 {
        assert(total_size(after.live) == 0);
    }
}

/// A request leaves every block that is in use in use, and so does giving
/// back another block.
pub proof fn lemma_keeps_live(m: BumpModel, request: Request, block: Block)
    requires
        m.live.contains(block),
        request matches Request::Deallocate { addr, size, .. } ==> block != (Block {
            start: addr,
            size,
        }),
    ensures
        m.step(request).live.contains(block),
{
    match request {
        Request::Allocate { size, align } => {
            let i = choose|i: int| 0 <= i < m.live.len() && m.live[i] == block;
            if m.can_allocate(size, align) {
                assert(m.allocate(size, align).live[i] == block);
            }
        },
        Request::Deallocate { addr, size, align } => {
            lemma_remove_value_keeps(m.live, Block { start: addr, size }, block);
        },
    }
}

/// Once as many blocks were given back as were in use, the allocator starts
/// over: nothing is in use, and the next request is placed at the first
/// address of the heap that has the alignment asked for.
pub proof fn lemma_balanced_frees_reset(m: BumpModel, frees: Seq<Block>, size: int, align: int)
    requires
        m.wf(),
        frees.len() == m.live.len(),
        m.can_deallocate_all(frees),
        0 < align,
    ensures
        m.deallocate_all(frees).wf(),
        m.deallocate_all(frees).live.len() == 0,
        m.deallocate_all(frees).next == m.heap_start,
        m.deallocate_all(frees).heap_start == m.heap_start,
        m.deallocate_all(frees).heap_end == m.heap_end,
        m.deallocate_all(frees).allocated(size, align) == if round_up(m.heap_start, align) + size
            <= m.heap_end {
            Some(round_up(m.heap_start, align))
        } else {
            None
        },
    decreases frees.len(),
{
    if frees.len() > 0 {
        lemma_deallocate_wf(m, frees[0]);
        lemma_balanced_frees_reset(m.deallocate(frees[0]), frees.drop_first(), size, align);
    }
}

/// The bytes in use never add up to more than the heap holds.
pub proof fn lemma_live_bytes_bounded(m: BumpModel)
    requires
        m.wf(),
    ensures
        total_size(m.live) <= m.heap_end - m.heap_start,
{
}

impl BumpModel {
    /// Whether `request` may be made in this state.
    pub open spec fn permits(self, request: Request) -> bool {
        match request {
            Request::Allocate { size, align } => 0 <= size && 0 < align,
            Request::Deallocate { addr, size, align } => self.live.contains(
                Block { start: addr, size },
            ),
        }
    }

    /// The state after `request`.
    pub open spec fn step(self, request: Request) -> BumpModel {
        match request {
            Request::Allocate { size, align } => self.allocate(size, align),
            Request::Deallocate { addr, size, align } => self.deallocate(
                Block { start: addr, size },
            ),
        }
    }

    /// Whether each of `requests` may be made when its turn comes.
    pub open spec fn permits_all(self, requests: Seq<Request>) -> bool
        decreases requests.len(),
    {
        requests.len() > 0 ==> self.permits(requests[0]) && self.step(requests[0]).permits_all(
            requests.drop_first(),
        )
    }

    /// The state after `requests` were served one after the other.
    pub open spec fn run(self, requests: Seq<Request>) -> BumpModel
        decreases requests.len(),
    {
        if requests.len() == 0 {
            self
        } else {
            self.step(requests[0]).run(requests.drop_first())
        }
    }
}

/// However the requests of several callers are interleaved, as long as they
/// are served one at a time, every state on the way is a reachable one, and
/// the bytes in use never add up to more than the heap holds.
pub proof fn lemma_run_wf(m: BumpModel, requests: Seq<Request>)
    requires
        m.wf(),
        m.permits_all(requests),
    ensures
        m.run(requests).wf(),
        total_size(m.run(requests).live) <= m.run(requests).heap_end - m.run(requests).heap_start,
    decreases requests.len(),
{
    if requests.len() == 0 {
        lemma_live_bytes_bounded(m);
    } else {
        match requests[0] {
            Request::Allocate { size, align } => {
                lemma_allocate_wf(m, size, align);
            },
            Request::Deallocate { addr, size, align } => {
                lemma_deallocate_wf(m, Block { start: addr, size });
            },
        }
        lemma_run_wf(m.step(requests[0]), requests.drop_first());
    }
}

/// A bump allocator over a range of addresses.
pub struct BumpAllocator {
    heap_start: usize,
    heap_end: usize,
    next: usize,
    allocations: usize,
    live: Ghost<Seq<Block>>,
}

impl View for BumpAllocator {
    type V = BumpModel;

    closed spec fn view(&self) -> BumpModel {
        BumpModel {
            heap_start: self.heap_start as int,
            heap_end: self.heap_end as int,
            next: self.next as int,
            live: self.live@,
        }
    }
}

impl BumpAllocator {
    /// Whether the allocator is in a reachable state.
    pub closed spec fn wf(&self) -> bool {
        self@.wf() && self.allocations == self.live@.len()
    }

    /// An allocator that serves no heap yet: every request fails.
    pub fn new() -> (allocator: Self)
        ensures
            allocator.wf(),
            allocator@ == BumpModel::fresh(0, 0),
    {
        BumpAllocator {
            heap_start: 0,
            heap_end: 0,
            next: 0,
            allocations: 0,
            live: Ghost(Seq::empty()),
        }
    }

    /// Makes the allocator serve `[heap_start, heap_start + heap_size)`, with
    /// nothing in use.
    pub fn init(&mut self, heap_start: usize, heap_size: usize)
        requires
            heap_start + heap_size <= usize::MAX,
        ensures
            final(self).wf(),
            final(self)@ == BumpModel::fresh(heap_start as int, heap_size as int),
    {
        self.heap_start = heap_start;
        self.heap_end = heap_start + heap_size;
        self.next = heap_start;
        self.allocations = 0;
        self.live = Ghost(Seq::empty());
    }

    /// Reserves `size` bytes at alignment `align` behind everything handed
    /// out so far, or fails if the rest of the heap is too small.
    pub fn allocate(&mut self, size: usize, align: usize) -> (address: Option<usize>)
        requires
            old(self).wf(),
            align > 0,
        ensures
            final(self).wf(),
            final(self)@ == old(self)@.allocate(size as int, align as int),
            address matches Some(p) ==> {
                &&& old(self)@.allocated(size as int, align as int) == Some(p as int)
                &&& p % align == 0
                &&& old(self)@.heap_start <= p
                &&& p + size <= old(self)@.heap_end
                &&& final(self)@.live.contains(Block { start: p as int, size: size as int })
            },
            address is None ==> old(self)@.allocated(size as int, align as int) is None,
    {
        proof {
            lemma_allocate_wf(self@, size as int, align as int);
            lemma_round_up(self.next as int, align as int);
        }
        let remainder = self.next % align;
        if remainder != 0 && align - remainder > usize::MAX - self.next {
            return None;
        }
        let alloc_start = align_up(self.next, align);
        if alloc_start > self.heap_end || size > self.heap_end - alloc_start
            || self.allocations == usize::MAX {
            return None;
        }
        self.next = alloc_start + size;
        self.allocations = self.allocations + 1;
        let ghost block = Block { start: alloc_start as int, size: size as int };
        self.live = Ghost(self.live@.push(block));
        assert(self@.live.last() == block);
        Some(alloc_start)
    }

    /// Takes back the block at `addr` that a request for `size` bytes got.
    /// When nothing is in use any more, the whole heap is free again.
    pub fn deallocate(&mut self, addr: usize, size: usize, align: usize)
        requires
            old(self).wf(),
            old(self)@.live.contains(Block { start: addr as int, size: size as int }),
        ensures
            final(self).wf(),
            final(self)@ == old(self)@.deallocate(Block { start: addr as int, size: size as int }),
            final(self)@.live.len() == old(self)@.live.len() - 1,
    {
        proof {
            lemma_deallocate_wf(self@, Block { start: addr as int, size: size as int });
        }
        self.live = Ghost(self.live@.remove_value(Block { start: addr as int, size: size as int }));
        self.allocations = self.allocations - 1;
        if self.allocations == 0 {
            self.next = self.heap_start;
        }
    }
}

} // verus!
