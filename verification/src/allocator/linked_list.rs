//! A first-fit allocator over a list of free regions. A region that is given
//! back goes to the head of the list; neighbouring free regions are never
//! merged.

use crate::allocator::{
    fast_align_up, is_power_of_two, lemma_multiple_of_multiple, lemma_power_of_two_divides,
    lemma_power_of_two_divides_word, lemma_remove_value, lemma_remove_value_keeps,
    lemma_round_up, lemma_round_up_overflow, lemma_total_size_nonnegative,
    lemma_total_size_prepend, lemma_total_size_push, lemma_total_size_remove, round_up,
    total_size, Block, Request,
};
use vstd::arithmetic::power2::{lemma2_to64, pow2};
use vstd::prelude::*;

verus! {

/// The bytes that a free region needs to describe itself.
pub const NODE_SIZE: usize = 16;

/// The alignment at which a free region has to begin.
pub const NODE_ALIGN: usize = 8;

/// Whether `block` can stand in the free list: it begins at a multiple of
/// `NODE_ALIGN` and holds at least `NODE_SIZE` bytes.
pub open spec fn can_hold_node(block: Block) -> bool {
    block.start % (NODE_ALIGN as int) == 0 && block.size >= NODE_SIZE
}

/// The alignment that a request at alignment `align` is served with.
pub open spec fn adjusted_align(align: int) -> int {
    if align > NODE_ALIGN {
        align
    } else {
        NODE_ALIGN as int
    }
}

/// The bytes that a request for `size` bytes at alignment `align` takes: the
/// size is padded to the adjusted alignment and raised to `NODE_SIZE`, so
/// that the block can stand in the free list once it is given back.
pub open spec fn adjusted_size(size: int, align: int) -> int {
    let padded = round_up(size, adjusted_align(align));
    if padded > NODE_SIZE {
        padded
    } else {
        NODE_SIZE as int
    }
}

/// Where `size` bytes at alignment `align` are placed inside `region`, if
/// they fit and what stays behind them is nothing or enough for a free
/// region of its own.
pub open spec fn fit(region: Block, size: int, align: int) -> Option<int> {
    let start = round_up(region.start, align);
    let excess = region.end() - (start + size);
    if excess == 0 || excess >= NODE_SIZE {
        Some(start)
    } else {
        None
    }
}

/// The index of the first region of `free` that `size` bytes at alignment
/// `align` fit in.
pub open spec fn first_fit(free: Seq<Block>, size: int, align: int) -> Option<int>
    decreases free.len(),
{
    if free.len() == 0 {
        None
    } else if fit(free[0], size, align) is Some {
        Some(0)
    } else {
        match first_fit(free.drop_first(), size, align) {
            Some(i) => Some(i + 1),
            None => None,
        }
    }
}

/// `first_fit` names a region that fits and that no fitting region precedes,
/// and names none only where no region fits.
pub proof fn lemma_first_fit(free: Seq<Block>, size: int, align: int)
    ensures
        match first_fit(free, size, align) {
            Some(i) => {
                &&& 0 <= i < free.len()
                &&& fit(free[i], size, align) is Some
                &&& forall|j: int| 0 <= j < i ==> fit(#[trigger] free[j], size, align) is None
            },
            None => forall|j: int|
                0 <= j < free.len() ==> fit(#[trigger] free[j], size, align) is None,
        },
    decreases free.len(),
{
    if free.len() > 0 && fit(free[0], size, align) is None {
        let rest = free.drop_first();
        lemma_first_fit(rest, size, align);
        match first_fit(rest, size, align) {
            Some(i) => {
                assert(free[i + 1] == rest[i]);
                assert forall|j: int| 0 <= j < i + 1 implies fit(
                    #[trigger] free[j],
                    size,
                    align,
                ) is None by {
                    if j > 0 {
                        assert(free[j] == rest[j - 1]);
                    }
                }
            },
            None => {
                assert forall|j: int| 0 <= j < free.len() implies fit(
                    #[trigger] free[j],
                    size,
                    align,
                ) is None by {
                    if j > 0 {
                        assert(free[j] == rest[j - 1]);
                    }
                }
            },
        }
    }
}

/// A region that fits and that no fitting region precedes is the one that
/// `first_fit` names.
pub proof fn lemma_first_fit_is(free: Seq<Block>, size: int, align: int, i: int)
    requires
        0 <= i < free.len(),
        fit(free[i], size, align) is Some,
        forall|j: int| 0 <= j < i ==> fit(#[trigger] free[j], size, align) is None,
    ensures
        first_fit(free, size, align) == Some(i),
{
    lemma_first_fit(free, size, align);
}

/// What a linked-list allocator knows: the heap it serves, the free regions
/// in list order (head first), and the blocks in use, oldest first.
pub struct ListModel {
    pub heap: Block,
    pub free: Seq<Block>,
    pub live: Seq<Block>,
}

impl ListModel {
    /// The state of an allocator that serves no heap.
    pub open spec fn empty() -> ListModel {
        ListModel { heap: Block { start: 0, size: 0 }, free: Seq::empty(), live: Seq::empty() }
    }

    /// The state right after the allocator was given `[start, start + size)`.
    pub open spec fn fresh(start: int, size: int) -> ListModel {
        let heap = Block { start, size };
        ListModel { heap, free: seq![heap], live: Seq::empty() }
    }

    /// The invariant of every reachable state: free regions and blocks in
    /// use lie in the heap, can each stand in the free list, and no two of
    /// them share a byte.
    pub open spec fn wf(self) -> bool {
        &&& 0 <= self.heap.start
        &&& 0 <= self.heap.size
        &&& self.heap.end() <= usize::MAX
        &&& forall|i: int|
            0 <= i < self.free.len() ==> can_hold_node(#[trigger] self.free[i])
                && self.free[i].within(self.heap)
        &&& forall|i: int|
            0 <= i < self.live.len() ==> can_hold_node(#[trigger] self.live[i])
                && self.live[i].within(self.heap)
        &&& forall|i: int, j: int|
            0 <= i < j < self.free.len() ==> (#[trigger] self.free[i]).disjoint(
                #[trigger] self.free[j],
            )
        &&& forall|i: int, j: int|
            0 <= i < j < self.live.len() ==> (#[trigger] self.live[i]).disjoint(
                #[trigger] self.live[j],
            )
        &&& forall|i: int, j: int|
            0 <= i < self.free.len() && 0 <= j < self.live.len() ==> (
            #[trigger] self.free[i]).disjoint(#[trigger] self.live[j])
        &&& total_size(self.free) + total_size(self.live) <= self.heap.size
    }

    /// The address that a request for `size` bytes at alignment `align` gets:
    /// the aligned start of the first free region that fits.
    pub open spec fn allocated(self, size: int, align: int) -> Option<int> {
        let s = adjusted_size(size, align);
        let a = adjusted_align(align);
        match first_fit(self.free, s, a) {
            Some(i) => fit(self.free[i], s, a),
            None => None,
        }
    }

    /// The state after a request for `size` bytes at alignment `align`: the
    /// region that served it has left the free list, and what stays behind
    /// the block is a free region at the head of the list.
    pub open spec fn allocate(self, size: int, align: int) -> ListModel {
        let s = adjusted_size(size, align);
        let a = adjusted_align(align);
        match first_fit(self.free, s, a) {
            Some(i) => {
                let start = round_up(self.free[i].start, a);
                let excess = self.free[i].end() - (start + s);
                let rest = self.free.remove(i);
                ListModel {
                    free: if excess > 0 {
                        seq![Block { start: start + s, size: excess }] + rest
                    } else {
                        rest
                    },
                    live: self.live.push(Block { start, size: s }),
                    ..self
                }
            },
            None => self,
        }
    }

    /// The block that a request for `size` bytes at alignment `align` took
    /// at `addr`.
    pub open spec fn block_of(addr: int, size: int, align: int) -> Block {
        Block { start: addr, size: adjusted_size(size, align) }
    }

    /// The state after the block at `addr` of a request for `size` bytes at
    /// alignment `align` was given back: it is the head of the free list.
    pub open spec fn deallocate(self, addr: int, size: int, align: int) -> ListModel {
        let block = Self::block_of(addr, size, align);
        ListModel {
            free: seq![block] + self.free,
            live: self.live.remove_value(block),
            ..self
        }
    }

    /// The state after `rounds` times giving back the block at `addr` and
    /// asking for the same size and alignment again.
    pub open spec fn churn(self, addr: int, size: int, align: int, rounds: nat) -> ListModel
        decreases rounds,
    {
        if rounds == 0 {
            self
        } else {
            self.deallocate(addr, size, align).allocate(size, align).churn(
                addr,
                size,
                align,
                (rounds - 1) as nat,
            )
        }
    }
}

/// The adjusted alignment is a power of two and a multiple of `NODE_ALIGN`;
/// the adjusted size is a multiple of it, at least `NODE_SIZE`, and not
/// below the size asked for.
pub proof fn lemma_adjusted(size: int, align: int)
    requires
        0 <= size,
        is_power_of_two(align),
    ensures
        0 < align,
        is_power_of_two(adjusted_align(align)),
        align <= adjusted_align(align),
        adjusted_align(align) % align == 0,
        adjusted_align(align) % (NODE_ALIGN as int) == 0,
        adjusted_size(size, align) % adjusted_align(align) == 0 || adjusted_size(size, align)
            == NODE_SIZE,
        adjusted_size(size, align) % (NODE_ALIGN as int) == 0,
        size <= adjusted_size(size, align),
        NODE_SIZE <= adjusted_size(size, align),
{
    lemma2_to64();
    assert(NODE_ALIGN as int == pow2(3));
    assert(is_power_of_two(NODE_ALIGN as int));
    let a = adjusted_align(align);
    if align > NODE_ALIGN {
        lemma_power_of_two_divides(NODE_ALIGN as int, align);
        lemma_power_of_two_divides(align, align);
    } else {
        lemma_power_of_two_divides(align, NODE_ALIGN as int);
    }
    lemma_round_up(size, a);
    if round_up(size, a) > NODE_SIZE {
        lemma_multiple_of_multiple(round_up(size, a), NODE_ALIGN as int, a);
    }
}

/// A served request leaves a reachable state, and the block it hands out
/// lies in the heap, at the alignment asked for.
pub proof fn lemma_allocate_wf(m: ListModel, size: int, align: int)
    requires
        m.wf(),
        0 <= size,
        is_power_of_two(align),
    ensures
        m.allocate(size, align).wf(),
        m.allocate(size, align).heap == m.heap,
        m.allocated(size, align) matches Some(p) ==> {
            &&& p % align == 0
            &&& m.heap.start <= p
            &&& p + size <= m.heap.end()
            &&& m.allocate(size, align).live == m.live.push(ListModel::block_of(p, size, align))
        },
        m.allocated(size, align) is None ==> m.allocate(size, align) == m,
{
    let s = adjusted_size(size, align);
    let a = adjusted_align(align);
    lemma_adjusted(size, align);
    lemma_first_fit(m.free, s, a);
    if let Some(i) = first_fit(m.free, s, a) {
        let region = m.free[i];
        let start = round_up(region.start, a);
        let excess = region.end() - (start + s);
        let rest = m.free.remove(i);
        let block = Block { start, size: s };
        let tail = Block { start: start + s, size: excess };
        let after = m.allocate(size, align);
        lemma_round_up(region.start, a);
        lemma_multiple_of_multiple(start, align, a);
        lemma_multiple_of_multiple(start, NODE_ALIGN as int, a);
        assert(can_hold_node(block) && block.within(region));
        assert((start + s) % (NODE_ALIGN as int) == 0);
        assert forall|k: int| 0 <= k < rest.len() implies {
            &&& can_hold_node(#[trigger] rest[k])
            &&& rest[k].within(m.heap)
            &&& rest[k].disjoint(region)
        } by {
            if k < i {
                assert(rest[k] == m.free[k]);
            } else {
                assert(rest[k] == m.free[k + 1]);
            }
        }
        assert forall|k: int, l: int| 0 <= k < l < rest.len() implies (#[trigger] rest[k]).disjoint(
            #[trigger] rest[l],
        ) by {
            let k0 = if k < i {
                k
            } else {
                k + 1
            };
            let l0 = if l < i {
                l
            } else {
                l + 1
            };
            assert(rest[k] == m.free[k0] && rest[l] == m.free[l0]);
        }
        assert forall|k: int, l: int| 0 <= k < rest.len() && 0 <= l < m.live.len() implies (
        #[trigger] rest[k]).disjoint(#[trigger] m.live[l]) by {
            let k0 = if k < i {
                k
            } else {
                k + 1
            };
            assert(rest[k] == m.free[k0]);
        }
        lemma_total_size_remove(m.free, i);
        lemma_total_size_push(m.live, block);
        if excess > 0 {
            lemma_total_size_prepend(tail, rest);
            assert(can_hold_node(tail) && tail.within(region));
            assert forall|k: int| 0 <= k < after.free.len() implies {
                &&& can_hold_node(#[trigger] after.free[k])
                &&& after.free[k].within(m.heap)
                &&& after.free[k].disjoint(block)
            } by {
                if k > 0 {
                    assert(after.free[k] == rest[k - 1]);
                }
            }
            assert forall|k: int, l: int| 0 <= k < l < after.free.len() implies (
            #[trigger] after.free[k]).disjoint(#[trigger] after.free[l]) by {
                assert(after.free[l] == rest[l - 1]);
                if k > 0 {
                    assert(after.free[k] == rest[k - 1]);
                }
            }
        } else {
            assert(after.free == rest);
        }
        assert forall|k: int, l: int|
            0 <= k < after.free.len() && 0 <= l < after.live.len() implies (
        #[trigger] after.free[k]).disjoint(#[trigger] after.live[l]) by {
            if excess > 0 && k > 0 {
                assert(after.free[k] == rest[k - 1]);
            }
            if l < m.live.len() {
                assert(after.live[l] == m.live[l]);
                if excess > 0 && k == 0 {
                    assert(m.free[i].disjoint(m.live[l]));
                }
            }
        }
        assert forall|k: int, l: int| 0 <= k < l < after.live.len() implies (
        #[trigger] after.live[k]).disjoint(#[trigger] after.live[l]) by {
            assert(after.live[k] == m.live[k]);
            if l < m.live.len() {
                assert(after.live[l] == m.live[l]);
            } else {
                assert(m.free[i].disjoint(m.live[k]));
            }
        }
        assert forall|k: int| 0 <= k < after.live.len() implies can_hold_node(
            #[trigger] after.live[k],
        ) && after.live[k].within(m.heap) by {
            if k < m.live.len() {
                assert(after.live[k] == m.live[k]);
            }
        }
    }
}

/// Giving back a block that is in use leaves a reachable state in which the
/// block heads the free list.
pub proof fn lemma_deallocate_wf(m: ListModel, addr: int, size: int, align: int)
    requires
        m.wf(),
        m.live.contains(ListModel::block_of(addr, size, align)),
    ensures
        m.deallocate(addr, size, align).wf(),
        m.deallocate(addr, size, align).live.len() == m.live.len() - 1,
{
    let block = ListModel::block_of(addr, size, align);
    lemma_remove_value(m.live, block);
    let i = choose|i: int|
        0 <= i < m.live.len() && m.live[i] == block && m.live.remove_value(block) == m.live.remove(
            i,
        );
    let after = m.deallocate(addr, size, align);
    lemma_total_size_remove(m.live, i);
    lemma_total_size_prepend(block, m.free);
    assert forall|k: int| 0 <= k < after.live.len() implies {
        &&& can_hold_node(#[trigger] after.live[k])
        &&& after.live[k].within(m.heap)
        &&& after.live[k].disjoint(block)
    } by {
        if k < i {
            assert(after.live[k] == m.live[k]);
        } else {
            assert(after.live[k] == m.live[k + 1]);
        }
    }
    assert forall|k: int, l: int| 0 <= k < l < after.live.len() implies (
    #[trigger] after.live[k]).disjoint(#[trigger] after.live[l]) by {
        let k0 = if k < i {
            k
        } else {
            k + 1
        };
        let l0 = if l < i {
            l
        } else {
            l + 1
        };
        assert(after.live[k] == m.live[k0] && after.live[l] == m.live[l0]);
    }
    assert forall|k: int| 0 <= k < after.free.len() implies can_hold_node(
        #[trigger] after.free[k],
    ) && after.free[k].within(m.heap) by {
        if k > 0 {
            assert(after.free[k] == m.free[k - 1]);
        }
    }
    assert forall|k: int, l: int| 0 <= k < l < after.free.len() implies (
    #[trigger] after.free[k]).disjoint(#[trigger] after.free[l]) by {
        assert(after.free[l] == m.free[l - 1]);
        if k > 0 {
            assert(after.free[k] == m.free[k - 1]);
        } else {
            assert(m.free[l - 1].disjoint(m.live[i]));
        }
    }
    assert forall|k: int, l: int|
        0 <= k < after.free.len() && 0 <= l < after.live.len() implies (
    #[trigger] after.free[k]).disjoint(#[trigger] after.live[l]) by {
        let l0 = if l < i {
            l
        } else {
            l + 1
        };
        assert(after.live[l] == m.live[l0]);
        if k > 0 {
            assert(after.free[k] == m.free[k - 1]);
        }
    }
}

/// The bytes in use never add up to more than the heap holds.
pub proof fn lemma_live_bytes_bounded(m: ListModel)
    requires
        m.wf(),
    ensures
        total_size(m.live) <= m.heap.size,
{
    assert forall|i: int| 0 <= i < m.free.len() implies 0 <= (#[trigger] m.free[i]).size by {
        assert(can_hold_node(m.free[i]));
    }
    lemma_total_size_nonnegative(m.free);
}

/// A request leaves every block that is in use in use, and so does giving
/// back another block.
pub proof fn lemma_keeps_live(m: ListModel, request: Request, block: Block)
    requires
        m.live.contains(block),
        request matches Request::Deallocate { addr, size, align } ==> block != ListModel::block_of(
            addr,
            size,
            align,
        ),
    ensures
        m.step(request).live.contains(block),
{
    match request {
        Request::Allocate { size, align } => {
            let i = choose|i: int| 0 <= i < m.live.len() && m.live[i] == block;
            if first_fit(m.free, adjusted_size(size, align), adjusted_align(align)) is Some {
                assert(m.allocate(size, align).live[i] == block);
            }
        },
        Request::Deallocate { addr, size, align } => {
            lemma_remove_value_keeps(m.live, ListModel::block_of(addr, size, align), block);
        },
    }
}

/// Asking again for what was just given back gets the same address, and
/// leaves the allocator as it was before the block was given back. So a
/// request that was served once is served however often the block is given
/// back and asked for again.
pub proof fn lemma_allocate_after_free(m: ListModel, size: int, align: int, rounds: nat)
    requires
        m.wf(),
        0 <= size,
        is_power_of_two(align),
        m.allocated(size, align) is Some,
    ensures
        ({
            let p = m.allocated(size, align).unwrap();
            let held = m.allocate(size, align);
            let freed = held.deallocate(p, size, align);
            &&& freed.wf()
            &&& freed.live == m.live
            &&& freed.allocated(size, align) == Some(p)
            &&& freed.allocate(size, align) == held
            &&& held.churn(p, size, align, rounds) == held
        }),
    decreases rounds,
{
    let s = adjusted_size(size, align);
    let a = adjusted_align(align);
    let p = m.allocated(size, align).unwrap();
    let held = m.allocate(size, align);
    let block = ListModel::block_of(p, size, align);
    lemma_adjusted(size, align);
    lemma_allocate_wf(m, size, align);
    lemma_first_fit(m.free, s, a);
    let i = first_fit(m.free, s, a).unwrap();
    lemma_round_up(m.free[i].start, a);
    assert(held.live.last() == block);
    assert(held.live.contains(block));
    lemma_deallocate_wf(held, p, size, align);
    let freed = held.deallocate(p, size, align);
    // The block is in use once only: giving it back takes the last entry.
    held.live.index_of_first_ensures(block);
    let first = held.live.index_of_first(block).unwrap();
    if first < m.live.len() {
        assert(held.live[first].disjoint(held.live[m.live.len() as int]));
    }
    assert(held.live.remove(first) =~= m.live);
    // It heads the free list and fits exactly.
    assert(freed.free[0] == block);
    assert(round_up(p, a) == p);
    assert(fit(block, s, a) == Some(p));
    lemma_first_fit_is(freed.free, s, a, 0);
    assert(freed.free.remove(0) =~= held.free);
    assert(freed.allocate(size, align) == held);
    if rounds > 0 {
        lemma_allocate_after_free(m, size, align, (rounds - 1) as nat);
    }
}

impl ListModel {
    /// Whether `request` may be made in this state.
    pub open spec fn permits(self, request: Request) -> bool {
        match request {
            Request::Allocate { size, align } => 0 <= size && is_power_of_two(align),
            Request::Deallocate { addr, size, align } => self.live.contains(
                Self::block_of(addr, size, align),
            ),
        }
    }

    /// The state after `request`.
    pub open spec fn step(self, request: Request) -> ListModel {
        match request {
            Request::Allocate { size, align } => self.allocate(size, align),
            Request::Deallocate { addr, size, align } => self.deallocate(addr, size, align),
        }
    }

    /// Whether each of `requests` may be made when its turn comes.
    pub open spec fn permits_all(self, requests: Seq<Request>) -> bool
        decreases requests.len(),
    {
        requests.len() > 0 ==> self.permits(requests[0]) && self.step(requests[0]).permits_all(
            requests.drop_first(),
        )
    }

    /// The state after `requests` were served one after the other.
    pub open spec fn run(self, requests: Seq<Request>) -> ListModel
        decreases requests.len(),
    {
        if requests.len() == 0 {
            self
        } else {
            self.step(requests[0]).run(requests.drop_first())
        }
    }
}

/// However the requests of several callers are interleaved, as long as they
/// are served one at a time, every state on the way is a reachable one, and
/// the bytes in use never add up to more than the heap holds.
pub proof fn lemma_run_wf(m: ListModel, requests: Seq<Request>)
    requires
        m.wf(),
        m.permits_all(requests),
    ensures
        m.run(requests).wf(),
        total_size(m.run(requests).live) <= m.run(requests).heap.size,
    decreases requests.len(),
{
    if requests.len() == 0 {
        lemma_live_bytes_bounded(m);
    } else {
        match requests[0] {
            Request::Allocate { size, align } => {
                lemma_allocate_wf(m, size, align);
            },
            Request::Deallocate { addr, size, align } => {
                lemma_deallocate_wf(m, addr, size, align);
            },
        }
        lemma_run_wf(m.step(requests[0]), requests.drop_first());
    }
}

/// A free region as the allocator keeps it: where it begins and how many
/// bytes it holds.
pub struct ListNode {
    start: usize,
    size: usize,
}

impl View for ListNode {
    type V = Block;

    closed spec fn view(&self) -> Block {
        Block { start: self.start as int, size: self.size as int }
    }
}

impl ListNode {
    #[verifier::type_invariant]
    spec fn ends_in_range(self) -> bool {
        self.start + self.size <= usize::MAX
    }

    /// The region of `size` bytes that begins at `start`.
    pub fn new(start: usize, size: usize) -> (node: Self)
        requires
            start + size <= usize::MAX,
        ensures
            node@ == (Block { start: start as int, size: size as int }),
    {
        ListNode { start, size }
    }

    /// The first address of the region.
    pub fn get_start_addr(&self) -> (addr: usize)
        ensures
            addr == self@.start,
    {
        self.start
    }

    /// The first address past the region.
    pub fn get_end_addr(&self) -> (addr: usize)
        ensures
            addr == self@.end(),
    {
        proof {
            use_type_invariant(self);
        }
        self.start + self.size
    }
}

/// A first-fit allocator over a list of free regions.
pub struct LinkedListAllocator {
    /// The free regions; the last one is the head of the list.
    nodes: Vec<ListNode>,
    heap: Ghost<Block>,
    live: Ghost<Seq<Block>>,
}

impl View for LinkedListAllocator {
    type V = ListModel;

    closed spec fn view(&self) -> ListModel {
        ListModel {
            heap: self.heap@,
            free: Seq::new(self.nodes@.len(), |i: int| self.nodes@[self.nodes@.len() - 1 - i]@),
            live: self.live@,
        }
    }
}

impl LinkedListAllocator {
    /// Whether the allocator is in a reachable state.
    pub open spec fn wf(&self) -> bool {
        self@.wf()
    }

    /// An allocator that serves no heap yet: every request fails.
    pub fn new() -> (allocator: Self)
        ensures
            allocator.wf(),
            allocator@ == ListModel::empty(),
    {
        let allocator = LinkedListAllocator {
            nodes: Vec::new(),
            heap: Ghost(Block { start: 0, size: 0 }),
            live: Ghost(Seq::empty()),
        };
        assert(allocator@.free =~= Seq::empty());
        assert(total_size(allocator@.free) == 0 && total_size(allocator@.live) == 0);
        allocator
    }

    /// Makes the allocator serve `[heap_start, heap_start + heap_size)`. The
    /// range has to be able to stand in the free list, and the allocator
    /// must not serve a heap yet.
    pub fn init(&mut self, heap_start: usize, heap_size: usize)
        requires
            old(self)@ == ListModel::empty(),
            heap_start % NODE_ALIGN == 0,
            heap_size >= NODE_SIZE,
            heap_start + heap_size <= usize::MAX,
        ensures
            final(self).wf(),
            final(self)@ == ListModel::fresh(heap_start as int, heap_size as int),
    {
        self.heap = Ghost(Block { start: heap_start as int, size: heap_size as int });
        self.add_free_region(heap_start, heap_size);
        proof {
            assert(self@.free =~= seq![self@.heap]);
            lemma_total_size_prepend(self@.heap, Seq::empty());
            assert(total_size(Seq::<Block>::empty()) == 0);
            assert(seq![self@.heap] + Seq::<Block>::empty() =~= seq![self@.heap]);
        }
    }

    /// Adds the given memory region to the front of the list.
    fn add_free_region(&mut self, addr: usize, size: usize)
        requires
            addr % NODE_ALIGN == 0,
            size >= NODE_SIZE,
            addr + size <= usize::MAX,
        ensures
            final(self)@.free == seq![Block { start: addr as int, size: size as int }] + old(
                self,
            )@.free,
            final(self)@.heap == old(self)@.heap,
            final(self)@.live == old(self)@.live,
    {
        let node = ListNode::new(addr, size);
        self.nodes.push(node);
        assert(self@.free =~= seq![Block { start: addr as int, size: size as int }] + old(
            self,
        )@.free);
    }

    /// Takes the first free region that `size` bytes at alignment `align`
    /// fit in out of the list, and returns it with the address at which the
    /// bytes are placed.
    fn find_region(&mut self, size: usize, align: usize) -> (found: Option<(ListNode, usize)>)
        requires
            is_power_of_two(align as int),
        ensures
            final(self)@.heap == old(self)@.heap,
            final(self)@.live == old(self)@.live,
            match found {
                Some((region, alloc_start)) => {
                    &&& first_fit(old(self)@.free, size as int, align as int) matches Some(i)
                    &&& region@ == old(self)@.free[i]
                    &&& fit(region@, size as int, align as int) == Some(alloc_start as int)
                    &&& final(self)@.free == old(self)@.free.remove(i)
                },
                None => {
                    &&& first_fit(old(self)@.free, size as int, align as int) is None
                    &&& final(self)@.free == old(self)@.free
                },
            },
    {
        let ghost free = self@.free;
        let count = self.nodes.len();
        let mut k = count;
        while k > 0
            invariant
                k <= count,
                count == self.nodes.len(),
                self@ == old(self)@,
                free == self@.free,
                is_power_of_two(align as int),
                forall|j: int|
                    0 <= j < count - k ==> fit(#[trigger] free[j], size as int, align as int)
                        is None,
            decreases k,
        {
            k = k - 1;
            assert(free[count - 1 - k] == self.nodes@[k as int]@);
            if let Ok(alloc_start) = Self::alloc_from_region(&self.nodes[k], size, align) {
                proof {
                    lemma_first_fit_is(free, size as int, align as int, count - 1 - k);
                }
                let region = self.nodes.remove(k);
                assert(self@.free =~= free.remove(count - 1 - k));
                return Some((region, alloc_start));
            }
        }
        proof {
            lemma_first_fit(free, size as int, align as int);
        }
        None
    }

    /// Tells whether `size` bytes at alignment `align` can be taken from
    /// `region`, and if so, where they begin.
    pub fn alloc_from_region(region: &ListNode, size: usize, align: usize) -> (placed: Result<
        usize,
        (),
    >)
        requires
            is_power_of_two(align as int),
        ensures
            match placed {
                Ok(alloc_start) => fit(region@, size as int, align as int) == Some(
                    alloc_start as int,
                ),
                Err(_) => fit(region@, size as int, align as int) is None,
            },
    {
        proof {
            use_type_invariant(region);
            lemma_power_of_two_divides_word(align);
            lemma_round_up(region@.start, align as int);
        }
        let start = region.get_start_addr();
        if start > usize::MAX - (align - 1) {
            proof {
                lemma_round_up_overflow(start, align);
            }
            return Err(());
        }
        let alloc_start = fast_align_up(start, align);

        let Some(alloc_end) = alloc_start.checked_add(size) else {
            return Err(());
        };

        if alloc_end > region.get_end_addr() {
            return Err(());
        }
        let excess_size = region.get_end_addr() - alloc_end;

        if excess_size > 0 && excess_size < NODE_SIZE {
            return Err(());
        }
        Ok(alloc_start)
    }

    /// Adjusts a request so that the block it gets can stand in the free
    /// list once it is given back. Returns the adjusted size and alignment,
    /// or `None` where the adjusted size is beyond any address.
    pub fn size_align(size: usize, align: usize) -> (adjusted: Option<(usize, usize)>)
        requires
            is_power_of_two(align as int),
        ensures
            match adjusted {
                Some((s, a)) => s == adjusted_size(size as int, align as int) && a
                    == adjusted_align(align as int),
                None => adjusted_size(size as int, align as int) > usize::MAX,
            },
    {
        proof {
            lemma_adjusted(size as int, align as int);
        }
        let align = if align > NODE_ALIGN {
            align
        } else {
            NODE_ALIGN
        };
        if size > usize::MAX - (align - 1) {
            proof {
                lemma_round_up_overflow(size, align);
            }
            return None;
        }
        let padded = fast_align_up(size, align);
        let size = if padded > NODE_SIZE {
            padded
        } else {
            NODE_SIZE
        };
        Some((size, align))
    }

    /// Serves a request for `size` bytes at alignment `align` from the first
    /// free region that fits, or fails if none does.
    pub fn allocate(&mut self, size: usize, align: usize) -> (address: Option<usize>)
        requires
            old(self).wf(),
            is_power_of_two(align as int),
        ensures
            final(self).wf(),
            final(self)@ == old(self)@.allocate(size as int, align as int),
            match address {
                Some(p) => {
                    &&& old(self)@.allocated(size as int, align as int) == Some(p as int)
                    &&& p % align == 0
                    &&& old(self)@.heap.start <= p
                    &&& p + size <= old(self)@.heap.end()
                    &&& final(self)@.live.contains(
                        ListModel::block_of(p as int, size as int, align as int),
                    )
                },
                None => old(self)@.allocated(size as int, align as int) is None,
            },
    {
        proof {
            lemma_adjusted(size as int, align as int);
            lemma_allocate_wf(self@, size as int, align as int);
            lemma_first_fit(
                self@.free,
                adjusted_size(size as int, align as int),
                adjusted_align(align as int),
            );
        }
        let Some((size, align)) = Self::size_align(size, align) else {
            proof {
                let s = adjusted_size(size as int, align as int);
                let a = adjusted_align(align as int);
                if let Some(i) = first_fit(self@.free, s, a) {
                    lemma_round_up(self@.free[i].start, a);
                    assert(self@.free[i].within(self@.heap));
                }
            }
            return None;
        };
        if let Some((region, alloc_start)) = self.find_region(size, align) {
            let alloc_end = alloc_start + size;
            let excess_size = region.get_end_addr() - alloc_end;
            if excess_size > 0 {
                self.add_free_region(alloc_end, excess_size);
            }
            let ghost block = Block { start: alloc_start as int, size: size as int };
            self.live = Ghost(self.live@.push(block));
            assert(self@.live.last() == block);
            Some(alloc_start)
        } else {
            None
        }
    }

    /// Takes back the block at `addr` that a request for `size` bytes at
    /// alignment `align` got, and puts it at the head of the free list.
    pub fn deallocate(&mut self, addr: usize, size: usize, align: usize)
        requires
            old(self).wf(),
            is_power_of_two(align as int),
            old(self)@.live.contains(ListModel::block_of(addr as int, size as int, align as int)),
        ensures
            final(self).wf(),
            final(self)@ == old(self)@.deallocate(addr as int, size as int, align as int),
            final(self)@.live.len() == old(self)@.live.len() - 1,
    {
        let ghost block = ListModel::block_of(addr as int, size as int, align as int);
        proof {
            lemma_deallocate_wf(self@, addr as int, size as int, align as int);
            let i = choose|i: int| 0 <= i < self@.live.len() && self@.live[i] == block;
            assert(can_hold_node(self@.live[i]) && self@.live[i].within(self@.heap));
        }
        match Self::size_align(size, align) {
            Some((size, _)) => {
                self.add_free_region(addr, size);
                self.live = Ghost(self.live@.remove_value(block));
            },
            None => {
                assert(false);
            },
        }
    }
}

} // verus!
