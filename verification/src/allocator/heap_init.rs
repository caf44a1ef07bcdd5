//! The order of work when the heap is set up: every page of the heap range
//! is mapped to a frame of its own, and only then the allocator is given
//! the range. The first failure ends it.

use crate::memory::BootInfoFrameAllocator;
use crate::memory::usable_frames;
use vstd::prelude::*;

verus! {

/// The size of a page in bytes.
pub const PAGE_SIZE: u64 = 4096;

/// Why a page could not be mapped.
#[derive(Debug, Clone, Copy, PartialEq, Eq, Structural)]
pub enum MapToError {
    /// No frame was left, for the page or for a page table.
    FrameAllocationFailed,
    /// A huge page is mapped where a page table would have to be.
    ParentEntryHugePage,
    /// The page is mapped already.
    PageAlreadyMapped,
}

/// How far the setup has come.
#[derive(Debug, Clone, Copy, PartialEq, Eq, Structural)]
pub enum Phase {
    /// Pages are still to be mapped.
    Mapping,
    /// Every page is mapped.
    Mapped,
    /// The setup has failed.
    Failed(MapToError),
}

/// What is to be done next.
#[derive(Debug, Clone, Copy, PartialEq, Eq, Structural)]
pub enum HeapInitAction {
    /// Map the page that begins at `page` to the frame that begins at
    /// `frame`, present and writable, and report how it went.
    MapPage { page: u64, frame: u64 },
    /// Give the allocator the range of `heap_size` bytes from `heap_start`:
    /// the setup is done.
    InitAllocator { heap_start: u64, heap_size: u64 },
    /// Give up with this error.
    Fail(MapToError),
}

/// The first address of the page that holds `addr`.
pub open spec fn page_start(addr: int) -> int {
    addr - addr % (PAGE_SIZE as int)
}

/// The progress of a heap setup: the heap range, the page that is mapped
/// next, and the phase.
pub struct HeapInitModel {
    pub heap_start: int,
    pub heap_size: int,
    pub page: int,
    pub phase: Phase,
}

impl HeapInitModel {
    /// The first page of the heap.
    pub open spec fn first_page(self) -> int {
        page_start(self.heap_start)
    }

    /// The last page of the heap: the one that holds its last byte.
    pub open spec fn last_page(self) -> int {
        page_start(self.heap_start + self.heap_size - 1)
    }

    /// The state before any page is mapped.
    pub open spec fn fresh(heap_start: int, heap_size: int) -> HeapInitModel {
        HeapInitModel {
            heap_start,
            heap_size,
            page: page_start(heap_start),
            phase: Phase::Mapping,
        }
    }

    /// The invariant of every reachable state: the next page is a page of
    /// the heap.
    pub open spec fn wf(self) -> bool {
        &&& 0 <= self.heap_start
        &&& 1 <= self.heap_size
        &&& self.heap_start + self.heap_size - 1 <= u64::MAX
        &&& self.first_page() <= self.page <= self.last_page()
        &&& self.page % (PAGE_SIZE as int) == 0
    }

    /// What is to be done in this state, given the frame that the frame
    /// allocator hands out.
    pub open spec fn action(self, frame: Option<u64>) -> HeapInitAction {
        match self.phase {
            Phase::Mapping => match frame {
                Some(frame) => HeapInitAction::MapPage { page: self.page as u64, frame },
                None => HeapInitAction::Fail(MapToError::FrameAllocationFailed),
            },
            Phase::Mapped => HeapInitAction::InitAllocator {
                heap_start: self.heap_start as u64,
                heap_size: self.heap_size as u64,
            },
            Phase::Failed(error) => HeapInitAction::Fail(error),
        }
    }

    /// The state after the action was named.
    pub open spec fn requested(self, frame: Option<u64>) -> HeapInitModel {
        if self.phase == Phase::Mapping && frame is None {
            HeapInitModel { phase: Phase::Failed(MapToError::FrameAllocationFailed), ..self }
        } else {
            self
        }
    }

    /// The state after a mapping went as `outcome` says: after a failure
    /// the setup has failed; after the last page every page is mapped;
    /// else the page behind the one just mapped is next.
    pub open spec fn reported(self, outcome: Result<(), MapToError>) -> HeapInitModel {
        if self.phase != Phase::Mapping {
            self
        } else {
            match outcome {
                Err(error) => HeapInitModel { phase: Phase::Failed(error), ..self },
                Ok(_) => if self.page == self.last_page() {
                    HeapInitModel { phase: Phase::Mapped, ..self }
                } else {
                    HeapInitModel { page: self.page + PAGE_SIZE, ..self }
                },
            }
        }
    }

    /// The state after `count` pages were mapped without a failure.
    pub open spec fn after_pages(self, count: nat) -> HeapInitModel
        decreases count,
    {
        if count == 0 {
            self
        } else {
            self.reported(Ok(())).after_pages((count - 1) as nat)
        }
    }
}

/// The pages of a heap are `PAGE_SIZE` apart, and the first is not behind
/// the last.
pub proof fn lemma_pages(heap_start: int, heap_size: int)
    requires
        0 <= heap_start,
        1 <= heap_size,
    ensures
        page_start(heap_start) % (PAGE_SIZE as int) == 0,
        page_start(heap_start + heap_size - 1) % (PAGE_SIZE as int) == 0,
        0 <= page_start(heap_start) <= page_start(heap_start + heap_size - 1) <= heap_start
            + heap_size - 1,
{
    let first = page_start(heap_start);
    let last = page_start(heap_start + heap_size - 1);
    assert(first % 4096 == 0 && last % 4096 == 0 && 0 <= first <= last <= heap_start + heap_size
        - 1) by (nonlinear_arith)
        requires
            0 <= heap_start,
            1 <= heap_size,
            first == heap_start - heap_start % 4096,
            last == (heap_start + heap_size - 1) - (heap_start + heap_size - 1) % 4096,
    ;
}

/// A mapping that went well leaves a reachable state, and while pages are
/// still to be mapped, the next page is in the heap and behind all pages
/// mapped so far.
pub proof fn lemma_reported_wf(m: HeapInitModel, outcome: Result<(), MapToError>)
    requires
        m.wf(),
    ensures
        m.reported(outcome).wf(),
        m.reported(outcome).heap_start == m.heap_start,
        m.reported(outcome).heap_size == m.heap_size,
        m.reported(outcome).page >= m.page,
{
    lemma_pages(m.heap_start, m.heap_size);
    if m.phase == Phase::Mapping && outcome is Ok && m.page != m.last_page() {
        let page = m.page;
        let last = m.last_page();
        assert((page + 4096) % 4096 == 0 && page + 4096 <= last) by (nonlinear_arith)
            requires
                page % 4096 == 0,
                last % 4096 == 0,
                page < last,
        ;
    }
}

/// When every mapping goes well, the pages are mapped in rising order, one
/// for each `PAGE_SIZE` bytes from the first page to the last, and the
/// allocator is given the heap after the last of them and not before.
pub proof fn lemma_all_pages_in_order(heap_start: int, heap_size: int, count: nat)
    requires
        0 <= heap_start,
        1 <= heap_size,
        heap_start + heap_size - 1 <= u64::MAX,
    ensures
        ({
            let m = HeapInitModel::fresh(heap_start, heap_size);
            let pages = (m.last_page() - m.first_page()) / (PAGE_SIZE as int) + 1;
            let after = m.after_pages(count);
            &&& after.wf()
            &&& count < pages ==> after.phase == Phase::Mapping && after.page == m.first_page()
                + count * PAGE_SIZE
            &&& count >= pages ==> after.phase == Phase::Mapped
        }),
{
    let m = HeapInitModel::fresh(heap_start, heap_size);
    lemma_pages(heap_start, heap_size);
    lemma_after_pages(m, count);
}

/// From a state in which pages are still to be mapped, `count` mappings
/// that go well take the setup `count` pages on, or to its end.
proof fn lemma_after_pages(m: HeapInitModel, count: nat)
    requires
        m.wf(),
        m.phase == Phase::Mapping,
    ensures
        ({
            let left = (m.last_page() - m.page) / (PAGE_SIZE as int) + 1;
            let after = m.after_pages(count);
            &&& after.wf()
            &&& after.heap_start == m.heap_start
            &&& after.heap_size == m.heap_size
            &&& count < left ==> after.phase == Phase::Mapping && after.page == m.page + count
                * PAGE_SIZE
            &&& count >= left ==> after.phase == Phase::Mapped
        }),
    decreases count,
{
    lemma_pages(m.heap_start, m.heap_size);
    let page = m.page;
    let last = m.last_page();
    assert(0 <= (last - page) / 4096 && (page == last <==> (last - page) / 4096 == 0)) by (
        nonlinear_arith)
        requires
            page % 4096 == 0,
            last % 4096 == 0,
            page <= last,
    ;
    if count > 0 {
        let next = m.reported(Ok(()));
        lemma_reported_wf(m, Ok(()));
        if m.page == m.last_page() {
            lemma_stays_mapped(next, (count - 1) as nat);
        } else {
            assert((last - (page + 4096)) / 4096 == (last - page) / 4096 - 1) by (nonlinear_arith)
                requires
                    page % 4096 == 0,
                    last % 4096 == 0,
                    page < last,
            ;
            lemma_after_pages(next, (count - 1) as nat);
        }
    }
}

/// Once every page is mapped, a further report changes nothing.
proof fn lemma_stays_mapped(m: HeapInitModel, count: nat)
    requires
        m.phase == Phase::Mapped,
    ensures
        m.after_pages(count) == m,
    decreases count,
{
    if count > 0 {
        lemma_stays_mapped(m, (count - 1) as nat);
    }
}

/// The setup of the heap, step by step.
pub struct HeapInit {
    heap_start: u64,
    heap_size: u64,
    page: u64,
    phase: Phase,
}

impl View for HeapInit {
    type V = HeapInitModel;

    closed spec fn view(&self) -> HeapInitModel {
        HeapInitModel {
            heap_start: self.heap_start as int,
            heap_size: self.heap_size as int,
            page: self.page as int,
            phase: self.phase,
        }
    }
}

impl HeapInit {
    /// Whether the setup is in a reachable state.
    pub open spec fn wf(&self) -> bool {
        self@.wf()
    }

    /// The setup of the heap of `heap_size` bytes from `heap_start`, with
    /// no page mapped yet. The heap has to hold a byte and to end within
    /// the address space.
    pub fn new(heap_start: u64, heap_size: u64) -> (init: Self)
        requires
            1 <= heap_size,
            heap_start + heap_size - 1 <= u64::MAX,
        ensures
            init.wf(),
            init@ == HeapInitModel::fresh(heap_start as int, heap_size as int),
    {
        proof {
            lemma_pages(heap_start as int, heap_size as int);
        }
        HeapInit {
            heap_start,
            heap_size,
            page: heap_start - heap_start % PAGE_SIZE,
            phase: Phase::Mapping,
        }
    }

    /// Names what is to be done next. While pages are to be mapped, it
    /// takes a frame for the next page from `frames`; if none is left, the
    /// setup has failed.
    pub fn request(&mut self, frames: &mut BootInfoFrameAllocator) -> (action: HeapInitAction)
        requires
            old(self).wf(),
        ensures
            final(self).wf(),
            final(frames).map() == old(frames).map(),
            old(self)@.phase != Phase::Mapping ==> {
                &&& *final(frames) == *old(frames)
                &&& final(self)@ == old(self)@
                &&& action == old(self)@.action(None)
            },
            old(self)@.phase == Phase::Mapping ==> ({
                let taken = old(frames).taken();
                let all = usable_frames(old(frames).map());
                let frame = if taken < all.len() {
                    Some(all[taken] as u64)
                } else {
                    None
                };
                &&& final(self)@ == old(self)@.requested(frame)
                &&& action == old(self)@.action(frame)
            }),
    {
        match self.phase {
            Phase::Mapping => match frames.allocate_frame() {
                Some(frame) => HeapInitAction::MapPage { page: self.page, frame },
                None => {
                    self.phase = Phase::Failed(MapToError::FrameAllocationFailed);
                    HeapInitAction::Fail(MapToError::FrameAllocationFailed)
                },
            },
            Phase::Mapped => HeapInitAction::InitAllocator {
                heap_start: self.heap_start,
                heap_size: self.heap_size,
            },
            Phase::Failed(error) => HeapInitAction::Fail(error),
        }
    }

    /// Takes note of how the mapping of the page named last went.
    pub fn report(&mut self, outcome: Result<(), MapToError>)
        requires
            old(self).wf(),
        ensures
            final(self).wf(),
            final(self)@ == old(self)@.reported(outcome),
    {
        proof {
            lemma_reported_wf(self@, outcome);
            lemma_pages(self.heap_start as int, self.heap_size as int);
        }
        match self.phase {
            Phase::Mapping => match outcome {
                Err(error) => {
                    self.phase = Phase::Failed(error);
                },
                Ok(_) => {
                    let last = self.heap_start + (self.heap_size - 1);
                    let last_page = last - last % PAGE_SIZE;
                    if self.page == last_page {
                        self.phase = Phase::Mapped;
                    } else {
                        self.page = self.page + PAGE_SIZE;
                    }
                },
            },
            _ => {},
        }
    }
}

} // verus!
