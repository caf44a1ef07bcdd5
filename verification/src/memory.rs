//! The physical frames that the boot loader left for use, counted through
//! one after the other.

use vstd::prelude::*;

verus! {

/// The size of a frame in bytes.
pub const FRAME_SIZE: u64 = 4096;

/// A range of physical addresses as the boot loader reports it.
#[derive(Debug, Clone, Copy, PartialEq, Eq, Structural)]
pub struct MemoryRegion {
    /// The first address of the range.
    pub start: u64,
    /// The first address past the range.
    pub end: u64,
    /// Whether the range is free for use.
    pub usable: bool,
}

/// The first address of the frame that holds `addr`.
pub open spec fn frame_start(addr: int) -> int {
    addr - addr % (FRAME_SIZE as int)
}

/// How many frames `region` gives: one for every `FRAME_SIZE` bytes from
/// its start, as long as that address lies in the range.
pub open spec fn frame_count(region: MemoryRegion) -> int {
    if region.usable && region.start < region.end {
        (region.end - region.start - 1) / (FRAME_SIZE as int) + 1
    } else {
        0
    }
}

/// The frames that `region` gives, each by its first address.
pub open spec fn region_frames(region: MemoryRegion) -> Seq<int> {
    Seq::new(
        frame_count(region) as nat,
        |i: int| frame_start(region.start + i * (FRAME_SIZE as int)),
    )
}

/// The frames that the usable regions of `map` give, in the order of the
/// map.
pub open spec fn usable_frames(map: Seq<MemoryRegion>) -> Seq<int>
    decreases map.len(),
{
    if map.len() == 0 {
        Seq::empty()
    } else {
        usable_frames(map.drop_last()) + region_frames(map.last())
    }
}

/// The frames of the first `count` regions come first among the frames of
/// the whole map.
pub proof fn lemma_usable_frames_prefix(map: Seq<MemoryRegion>, count: int)
    requires
        0 <= count <= map.len(),
    ensures
        usable_frames(map.subrange(0, count)).len() <= usable_frames(map).len(),
        forall|i: int|
            0 <= i < usable_frames(map.subrange(0, count)).len() ==> usable_frames(map)[i]
                == #[trigger] usable_frames(map.subrange(0, count))[i],
    decreases map.len() - count,
{
    if count == map.len() {
        assert(map.subrange(0, count) =~= map);
    } else {
        lemma_usable_frames_prefix(map, count + 1);
        assert(map.subrange(0, count + 1).drop_last() =~= map.subrange(0, count));
    }
}

/// Hands out the usable frames of a memory map one after the other.
pub struct BootInfoFrameAllocator {
    memory_map: Vec<MemoryRegion>,
    next: usize,
}

impl BootInfoFrameAllocator {
    /// The memory map that the frames are taken from.
    pub closed spec fn map(&self) -> Seq<MemoryRegion> {
        self.memory_map@
    }

    /// How many frames were asked for so far.
    pub closed spec fn taken(&self) -> int {
        self.next as int
    }

    /// An allocator over `memory_map` that has handed out nothing. The
    /// regions marked usable have to be unused indeed.
    pub fn new(memory_map: Vec<MemoryRegion>) -> (allocator: Self)
        ensures
            allocator.map() == memory_map@,
            allocator.taken() == 0,
    {
        BootInfoFrameAllocator { memory_map, next: 0 }
    }

    /// The `n`-th usable frame, by its first address.
    fn usable_frame(&self, n: usize) -> (frame: Option<u64>)
        ensures
            match frame {
                Some(addr) => n < usable_frames(self.map()).len() && addr == usable_frames(
                    self.map(),
                )[n as int],
                None => n >= usable_frames(self.map()).len(),
            },
    {
        let mut remaining: u64 = n as u64;
        let mut i: usize = 0;
        assert(self.memory_map@.subrange(0, 0) =~= Seq::<MemoryRegion>::empty());
        while i < self.memory_map.len()
            invariant
                i <= self.memory_map@.len(),
                remaining <= n,
                n - remaining == usable_frames(self.memory_map@.subrange(0, i as int)).len(),
            decreases self.memory_map@.len() - i,
        {
            let region = self.memory_map[i];
            let ghost before = self.memory_map@.subrange(0, i as int);
            let ghost with = self.memory_map@.subrange(0, i + 1);
            proof {
                assert(with.drop_last() =~= before);
                assert(with.last() == region);
                lemma_usable_frames_prefix(self.memory_map@, i + 1);
            }
            if region.usable && region.start < region.end {
                let count = (region.end - region.start - 1) / FRAME_SIZE + 1;
                if remaining < count {
                    assert(remaining * 4096 <= region.end - region.start - 1) by (nonlinear_arith)
                        requires
                            remaining <= (region.end - region.start - 1) / 4096,
                    ;
                    let addr = region.start + remaining * FRAME_SIZE;
                    assert(usable_frames(with)[n as int] == region_frames(
                        region,
                    )[remaining as int]);
                    return Some(addr - addr % FRAME_SIZE);
                }
                remaining = remaining - count;
            }
            i += 1;
        }
        proof {
            assert(self.memory_map@.subrange(0, i as int) =~= self.memory_map@);
        }
        None
    }

    /// Hands out the next usable frame, by its first address, or `None`
    /// when the usable regions are used up.
    pub fn allocate_frame(&mut self) -> (frame: Option<u64>)
        ensures
            final(self).map() == old(self).map(),
            final(self).taken() == if old(self).taken() < usize::MAX {
                old(self).taken() + 1
            } else {
                old(self).taken()
            },
            match frame {
                Some(addr) => old(self).taken() < usable_frames(old(self).map()).len() && addr
                    == usable_frames(old(self).map())[old(self).taken()],
                None => old(self).taken() >= usable_frames(old(self).map()).len(),
            },
    {
        let frame = self.usable_frame(self.next);
        if self.next < usize::MAX {
            self.next += 1;
        }
        frame
    }
}

} // verus!
