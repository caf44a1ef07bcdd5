//! An allocator that keeps a list of free blocks for each of a few block
//! sizes, and turns to a linked-list allocator for new blocks and for
//! requests that no block size covers.

use crate::allocator::linked_list::{
    adjusted_align, adjusted_size, can_hold_node, LinkedListAllocator, ListModel, NODE_ALIGN,
    NODE_SIZE,
};
use crate::allocator::{
    is_power_of_two, lemma_multiple_of_multiple, lemma_power_of_two_divides,
    lemma_remove_value_keeps, lemma_round_up, lemma_total_size_push, total_size, Block, Request,
};
use vstd::arithmetic::power2::{lemma2_to64, pow2};
use vstd::prelude::*;

verus! {

/// The block sizes to use.
///
/// Each is a power of two, because a block is aligned to its size.
pub const BLOCK_SIZES: [usize; 8] = [8, 16, 32, 64, 128, 256, 1024, 2048];

/// How many block sizes there are.
pub const CLASSES: usize = 8;

/// The block size of class `class`.
pub open spec fn block_size(class: int) -> int {
    BLOCK_SIZES@[class] as int
}

/// The bytes that a block of class `class` takes from the fallback
/// allocator.
pub open spec fn chunk_size(class: int) -> int {
    adjusted_size(block_size(class), block_size(class))
}

/// The first class from `from` on whose blocks hold `need` bytes.
pub open spec fn class_from(need: int, from: int) -> Option<int>
    decreases CLASSES - from,
{
    if from >= CLASSES {
        None
    } else if block_size(from) >= need {
        Some(from)
    } else {
        class_from(need, from + 1)
    }
}

/// The class that serves a request for `size` bytes at alignment `align`:
/// the smallest whose blocks are as large as both.
pub open spec fn class_of(size: int, align: int) -> Option<int> {
    class_from(
        if size >= align {
            size
        } else {
            align
        },
        0,
    )
}

/// `class_from` names a class whose blocks are large enough and that no such
/// class precedes, and names none only where no class is large enough.
pub proof fn lemma_class_from(need: int, from: int)
    requires
        0 <= from,
    ensures
        match class_from(need, from) {
            Some(class) => {
                &&& from <= class < CLASSES
                &&& block_size(class) >= need
                &&& forall|j: int| from <= j < class ==> #[trigger] block_size(j) < need
            },
            None => forall|j: int| from <= j < CLASSES ==> #[trigger] block_size(j) < need,
        },
    decreases CLASSES - from,
{
    if from < CLASSES && block_size(from) < need {
        lemma_class_from(need, from + 1);
    }
}

/// Every block size is a power of two that holds a list link, and a block
/// takes from the fallback allocator its size, or `NODE_SIZE` if that is
/// more.
pub proof fn lemma_block_sizes(class: int)
    requires
        0 <= class < CLASSES,
    ensures
        is_power_of_two(block_size(class)),
        NODE_ALIGN <= block_size(class) <= usize::MAX,
        block_size(class) % (NODE_ALIGN as int) == 0,
        adjusted_align(block_size(class)) == block_size(class),
        chunk_size(class) == if block_size(class) > NODE_SIZE {
            block_size(class)
        } else {
            NODE_SIZE as int
        },
{
    lemma2_to64();
    let e: nat = if class < 6 {
        (class + 3) as nat
    } else {
        (class + 4) as nat
    };
    assert(block_size(class) == pow2(e));
    assert(NODE_ALIGN as int == pow2(3));
    lemma_power_of_two_divides(NODE_ALIGN as int, block_size(class));
    lemma_power_of_two_divides(block_size(class), block_size(class));
    lemma_round_up(block_size(class), block_size(class));
}

/// What a fixed-size-block allocator knows: for each class the addresses of
/// its free blocks in list order (head first), and the state of the
/// fallback allocator.
pub struct FixedModel {
    pub lists: Seq<Seq<int>>,
    pub fallback: ListModel,
}

impl FixedModel {
    /// The state of an allocator that serves no heap.
    pub open spec fn empty() -> FixedModel {
        FixedModel {
            lists: Seq::new(CLASSES as nat, |i: int| Seq::empty()),
            fallback: ListModel::empty(),
        }
    }

    /// The state right after the allocator was given `[start, start + size)`.
    pub open spec fn fresh(start: int, size: int) -> FixedModel {
        FixedModel {
            lists: Seq::new(CLASSES as nat, |i: int| Seq::empty()),
            fallback: ListModel::fresh(start, size),
        }
    }

    /// Whether `k` is a place in the list of class `class`.
    pub open spec fn has(self, class: int, k: int) -> bool {
        0 <= class < CLASSES && 0 <= k < self.lists[class].len()
    }

    /// Whether the block at `addr` is in the list of some class.
    pub open spec fn holds(self, addr: int) -> bool {
        exists|class: int, k: int| self.has(class, k) && #[trigger] self.lists[class][k] == addr
    }

    /// Whether `block` is handed out: the fallback allocator counts it as
    /// in use, and it is in no class list.
    pub open spec fn in_use(self, block: Block) -> bool {
        self.fallback.live.contains(block) && !self.holds(block.start)
    }

    /// The blocks that are handed out.
    pub open spec fn live(self) -> Seq<Block> {
        self.fallback.live.filter(|block: Block| !self.holds(block.start))
    }

    /// The invariant of every reachable state: the fallback allocator is in
    /// a reachable state of its own; a block in a class list was taken from
    /// the fallback allocator and is aligned to the block size of its class;
    /// and no block is in a list twice.
    pub open spec fn wf(self) -> bool {
        &&& self.lists.len() == CLASSES
        &&& self.fallback.wf()
        &&& forall|class: int, k: int|
            self.has(class, k) ==> {
                &&& self.fallback.live.contains(
                    Block { start: #[trigger] self.lists[class][k], size: chunk_size(class) },
                )
                &&& self.lists[class][k] % block_size(class) == 0
            }
        &&& forall|c1: int, k1: int, c2: int, k2: int|
            self.has(c1, k1) && self.has(c2, k2) && (c1 != c2 || k1 != k2)
                ==> #[trigger] self.lists[c1][k1] != #[trigger] self.lists[c2][k2]
    }

    /// The block that a request for `size` bytes at alignment `align` took
    /// at `addr`.
    pub open spec fn block_of(addr: int, size: int, align: int) -> Block {
        match class_of(size, align) {
            Some(class) => Block { start: addr, size: chunk_size(class) },
            None => ListModel::block_of(addr, size, align),
        }
    }

    /// The address that a request for `size` bytes at alignment `align`
    /// gets: the head of its class list; where that list is empty, a new
    /// block of the class's size from the fallback allocator; where no class
    /// covers the request, what the fallback allocator gives for it.
    pub open spec fn allocated(self, size: int, align: int) -> Option<int> {
        match class_of(size, align) {
            Some(class) => if self.lists[class].len() > 0 {
                Some(self.lists[class][0])
            } else {
                self.fallback.allocated(block_size(class), block_size(class))
            },
            None => self.fallback.allocated(size, align),
        }
    }

    /// The state after a request for `size` bytes at alignment `align`.
    pub open spec fn allocate(self, size: int, align: int) -> FixedModel {
        match class_of(size, align) {
            Some(class) => if self.lists[class].len() > 0 {
                FixedModel {
                    lists: self.lists.update(class, self.lists[class].drop_first()),
                    ..self
                }
            } else {
                FixedModel {
                    fallback: self.fallback.allocate(block_size(class), block_size(class)),
                    ..self
                }
            },
            None => FixedModel { fallback: self.fallback.allocate(size, align), ..self },
        }
    }

    /// The state after the block at `addr` of a request for `size` bytes at
    /// alignment `align` was given back: it heads the list of its class, or
    /// went back to the fallback allocator where no class covers the
    /// request.
    pub open spec fn deallocate(self, addr: int, size: int, align: int) -> FixedModel {
        match class_of(size, align) {
            Some(class) => FixedModel {
                lists: self.lists.update(class, seq![addr] + self.lists[class]),
                ..self
            },
            None => FixedModel { fallback: self.fallback.deallocate(addr, size, align), ..self },
        }
    }

    /// The state after `rounds` times giving back the block at `addr` and
    /// asking for the same size and alignment again.
    pub open spec fn churn(self, addr: int, size: int, align: int, rounds: nat) -> FixedModel
        decreases rounds,
    {
        if rounds == 0 {
            self
        } else {
            self.deallocate(addr, size, align).allocate(size, align).churn(
                addr,
                size,
                align,
                (rounds - 1) as nat,
            )
        }
    }
}

/// A served request leaves a reachable state; the block it hands out is in
/// use afterwards, lies in the heap and has the alignment asked for. A
/// request whose class list holds a block is served from that list and
/// leaves the fallback allocator untouched.
pub proof fn lemma_allocate_wf(m: FixedModel, size: int, align: int)
    requires
        m.wf(),
        0 <= size,
        is_power_of_two(align),
    ensures
        m.allocate(size, align).wf(),
        m.allocate(size, align).fallback.heap == m.fallback.heap,
        m.allocated(size, align) matches Some(p) ==> {
            &&& p % align == 0
            &&& m.fallback.heap.start <= p
            &&& p + size <= m.fallback.heap.end()
            &&& m.allocate(size, align).in_use(FixedModel::block_of(p, size, align))
            &&& class_of(size, align) matches Some(class) ==> p % block_size(class) == 0
        },
        m.allocated(size, align) is None ==> m.allocate(size, align) == m,
        class_of(size, align) matches Some(class) ==> (m.lists[class].len() > 0 ==> {
            &&& m.allocated(size, align) == Some(m.lists[class][0])
            &&& m.allocate(size, align).fallback == m.fallback
        }),
{
    let need = if size >= align {
        size
    } else {
        align
    };
    lemma_class_from(need, 0);
    let after = m.allocate(size, align);
    match class_of(size, align) {
        Some(class) => {
            lemma_block_sizes(class);
            let bs = block_size(class);
            lemma_power_of_two_divides(align, bs);
            if m.lists[class].len() > 0 {
                let p = m.lists[class][0];
                let block = Block { start: p, size: chunk_size(class) };
                assert(m.has(class, 0));
                lemma_multiple_of_multiple(p, align, bs);
                let at = choose|at: int|
                    0 <= at < m.fallback.live.len() && m.fallback.live[at] == block;
                assert(m.fallback.live[at].within(m.fallback.heap));
                assert forall|c: int, k: int| after.has(c, k) implies {
                    &&& after.fallback.live.contains(
                        Block { start: #[trigger] after.lists[c][k], size: chunk_size(c) },
                    )
                    &&& after.lists[c][k] % block_size(c) == 0
                } by {
                    let k0 = if c == class { k + 1 } else { k };
                    assert(after.lists[c][k] == m.lists[c][k0]);
                }
                assert forall|c1: int, k1: int, c2: int, k2: int|
                    after.has(c1, k1) && after.has(c2, k2) && (c1 != c2 || k1 != k2) implies
                    #[trigger] after.lists[c1][k1] != #[trigger] after.lists[c2][k2] by {
                    let j1 = if c1 == class { k1 + 1 } else { k1 };
                    let j2 = if c2 == class { k2 + 1 } else { k2 };
                    assert(after.lists[c1][k1] == m.lists[c1][j1]);
                    assert(after.lists[c2][k2] == m.lists[c2][j2]);
                }
                if after.holds(p) {
                    let (c, k) = choose|c: int, k: int|
                        after.has(c, k) && #[trigger] after.lists[c][k] == p;
                    let k0 = if c == class { k + 1 } else { k };
                    assert(after.lists[c][k] == m.lists[c][k0]);
                    assert(m.has(c, k0));
                }
            } else {
                crate::allocator::linked_list::lemma_allocate_wf(m.fallback, bs, bs);
                lemma_allocate_keeps_lists(m, after, bs, bs);
                if let Some(p) = m.fallback.allocated(bs, bs) {
                    lemma_multiple_of_multiple(p, align, bs);
                }
            }
        },
        None => {
            crate::allocator::linked_list::lemma_allocate_wf(m.fallback, size, align);
            lemma_allocate_keeps_lists(m, after, size, align);
        },
    }
}

/// Where the fallback allocator serves a request, the class lists stay as
/// they are and the new block is in none of them.
proof fn lemma_allocate_keeps_lists(m: FixedModel, after: FixedModel, size: int, align: int)
    requires
        m.wf(),
        0 <= size,
        is_power_of_two(align),
        after.lists == m.lists,
        after.fallback == m.fallback.allocate(size, align),
    ensures
        after.wf(),
        m.fallback.allocated(size, align) matches Some(p) ==> after.in_use(
            ListModel::block_of(p, size, align),
        ),
{
    crate::allocator::linked_list::lemma_allocate_wf(m.fallback, size, align);
    match m.fallback.allocated(size, align) {
        Some(p) => {
            let block = ListModel::block_of(p, size, align);
            let last = m.fallback.live.len() as int;
            assert(after.fallback.live[last] == block);
            assert forall|c: int, k: int| after.has(c, k) implies {
                &&& after.fallback.live.contains(
                    Block { start: #[trigger] after.lists[c][k], size: chunk_size(c) },
                )
                &&& after.lists[c][k] % block_size(c) == 0
                &&& after.lists[c][k] != p
            } by {
                assert(m.has(c, k));
                let held = Block { start: m.lists[c][k], size: chunk_size(c) };
                let at = choose|at: int|
                    0 <= at < m.fallback.live.len() && m.fallback.live[at] == held;
                assert(after.fallback.live[at] == held);
                assert(after.fallback.live[at].disjoint(after.fallback.live[last]));
                assert(can_hold_node(after.fallback.live[at]));
                assert(can_hold_node(after.fallback.live[last]));
            }
        },
        None => {},
    }
}

/// Giving back a block that is in use leaves a reachable state. A block of
/// a class goes to the list of that class and leaves the fallback allocator
/// untouched.
pub proof fn lemma_deallocate_wf(m: FixedModel, addr: int, size: int, align: int)
    requires
        m.wf(),
        m.in_use(FixedModel::block_of(addr, size, align)),
        class_of(size, align) matches Some(class) ==> addr % block_size(class) == 0,
    ensures
        m.deallocate(addr, size, align).wf(),
        m.deallocate(addr, size, align).fallback.heap == m.fallback.heap,
        class_of(size, align) is Some ==> m.deallocate(addr, size, align).fallback == m.fallback,
{
    let need = if size >= align {
        size
    } else {
        align
    };
    lemma_class_from(need, 0);
    let after = m.deallocate(addr, size, align);
    let block = FixedModel::block_of(addr, size, align);
    match class_of(size, align) {
        Some(class) => {
            assert forall|c: int, k: int| after.has(c, k) implies {
                &&& after.fallback.live.contains(
                    Block { start: #[trigger] after.lists[c][k], size: chunk_size(c) },
                )
                &&& after.lists[c][k] % block_size(c) == 0
            } by {
                if !(c == class && k == 0) {
                    let k0 = if c == class { k - 1 } else { k };
                    assert(after.lists[c][k] == m.lists[c][k0]);
                }
            }
            assert forall|c1: int, k1: int, c2: int, k2: int|
                after.has(c1, k1) && after.has(c2, k2) && (c1 != c2 || k1 != k2) implies
                #[trigger] after.lists[c1][k1] != #[trigger] after.lists[c2][k2] by {
                let j1 = if c1 == class { k1 - 1 } else { k1 };
                let j2 = if c2 == class { k2 - 1 } else { k2 };
                if !(c1 == class && k1 == 0) {
                    assert(after.lists[c1][k1] == m.lists[c1][j1]);
                    assert(m.has(c1, j1));
                }
                if !(c2 == class && k2 == 0) {
                    assert(after.lists[c2][k2] == m.lists[c2][j2]);
                    assert(m.has(c2, j2));
                }
            }
        },
        None => {
            crate::allocator::linked_list::lemma_deallocate_wf(m.fallback, addr, size, align);
            assert forall|c: int, k: int| after.has(c, k) implies {
                &&& after.fallback.live.contains(
                    Block { start: #[trigger] after.lists[c][k], size: chunk_size(c) },
                )
                &&& after.lists[c][k] % block_size(c) == 0
            } by {
                assert(m.has(c, k));
                let held = Block { start: m.lists[c][k], size: chunk_size(c) };
                lemma_remove_value_keeps(m.fallback.live, block, held);
            }
        },
    }
}

/// A request leaves every block that is handed out handed out, and so does
/// giving back another block.
pub proof fn lemma_keeps_in_use(m: FixedModel, request: Request, block: Block)
    requires
        m.wf(),
        m.permits(request),
        m.in_use(block),
        request matches Request::Deallocate { addr, .. } ==> block.start != addr,
    ensures
        m.step(request).in_use(block),
{
    let after = m.step(request);
    match request {
        Request::Allocate { size, align } => {
            lemma_allocate_wf(m, size, align);
            lemma_class_from(
                if size >= align {
                    size
                } else {
                    align
                },
                0,
            );
            let i = choose|i: int| 0 <= i < m.fallback.live.len() && m.fallback.live[i] == block;
            match class_of(size, align) {
                Some(class) => {
                    lemma_block_sizes(class);
                    if m.lists[class].len() > 0 {
                        if after.holds(block.start) {
                            let (c, k) = choose|c: int, k: int|
                                after.has(c, k) && #[trigger] after.lists[c][k] == block.start;
                            let k0 = if c == class {
                                k + 1
                            } else {
                                k
                            };
                            assert(m.has(c, k0) && m.lists[c][k0] == block.start);
                        }
                    } else {
                        crate::allocator::linked_list::lemma_allocate_wf(
                            m.fallback,
                            block_size(class),
                            block_size(class),
                        );
                        if m.fallback.allocated(block_size(class), block_size(class)) is Some {
                            assert(after.fallback.live[i] == block);
                        }
                    }
                },
                None => {
                    crate::allocator::linked_list::lemma_allocate_wf(m.fallback, size, align);
                    if m.fallback.allocated(size, align) is Some {
                        assert(after.fallback.live[i] == block);
                    }
                },
            }
        },
        Request::Deallocate { addr, size, align } => {
            lemma_class_from(
                if size >= align {
                    size
                } else {
                    align
                },
                0,
            );
            match class_of(size, align) {
                Some(class) => {
                    if after.holds(block.start) {
                        let (c, k) = choose|c: int, k: int|
                            after.has(c, k) && #[trigger] after.lists[c][k] == block.start;
                        let k0 = if c == class {
                            k - 1
                        } else {
                            k
                        };
                        assert(m.has(c, k0) && m.lists[c][k0] == block.start);
                    }
                },
                None => {
                    lemma_remove_value_keeps(
                        m.fallback.live,
                        FixedModel::block_of(addr, size, align),
                        block,
                    );
                },
            }
        },
    }
}

/// Once a block of a class is handed out, giving it back and asking for
/// the same size and alignment again gets the same block, every time, and
/// never turns to the fallback allocator: the allocator is then as it was
/// before the block was given back.
pub proof fn lemma_class_cycle(m: FixedModel, addr: int, size: int, align: int, rounds: nat)
    requires
        m.wf(),
        class_of(size, align) is Some,
    ensures
        m.deallocate(addr, size, align).fallback == m.fallback,
        m.deallocate(addr, size, align).allocated(size, align) == Some(addr),
        m.deallocate(addr, size, align).allocate(size, align) == m,
        m.churn(addr, size, align, rounds) == m,
    decreases rounds,
{
    let need = if size >= align {
        size
    } else {
        align
    };
    lemma_class_from(need, 0);
    let class = class_of(size, align).unwrap();
    let freed = m.deallocate(addr, size, align);
    assert(freed.lists[class].drop_first() =~= m.lists[class]);
    assert(freed.lists.update(class, freed.lists[class].drop_first()) =~= m.lists);
    if rounds > 0 {
        lemma_class_cycle(m, addr, size, align, (rounds - 1) as nat);
    }
}

/// Keeping only some of a sequence of blocks does not raise the total.
pub proof fn lemma_total_size_filter(blocks: Seq<Block>, keep: spec_fn(Block) -> bool)
    requires
        forall|i: int| 0 <= i < blocks.len() ==> 0 <= (#[trigger] blocks[i]).size,
    ensures
        total_size(blocks.filter(keep)) <= total_size(blocks),
    decreases blocks.len(),
{
    reveal(Seq::filter);
    if blocks.len() > 0 {
        let front = blocks.drop_last();
        lemma_total_size_filter(front, keep);
        if keep(blocks.last()) {
            lemma_total_size_push(front.filter(keep), blocks.last());
        }
    }
}

/// The bytes handed out never add up to more than the heap holds.
pub proof fn lemma_live_bytes_bounded(m: FixedModel)
    requires
        m.wf(),
    ensures
        total_size(m.live()) <= m.fallback.heap.size,
{
    crate::allocator::linked_list::lemma_live_bytes_bounded(m.fallback);
    assert forall|i: int| 0 <= i < m.fallback.live.len() implies 0 <= (
    #[trigger] m.fallback.live[i]).size by {
        assert(can_hold_node(m.fallback.live[i]));
    }
    lemma_total_size_filter(m.fallback.live, |block: Block| !m.holds(block.start));
}

/// A block is among the blocks handed out exactly if it is in use.
pub proof fn lemma_live_contains(m: FixedModel, block: Block)
    ensures
        m.live().contains(block) <==> m.in_use(block),
{
    let keep = |b: Block| !m.holds(b.start);
    #[allow(deprecated)]
    m.fallback.live.filter_lemma(keep);
    if m.live().contains(block) {
        let i = choose|i: int| 0 <= i < m.live().len() && m.live()[i] == block;
        assert(keep(m.live()[i]));
        m.fallback.live.lemma_filter_contains_rev(keep, block);
    }
    if m.in_use(block) {
        let i = choose|i: int| 0 <= i < m.fallback.live.len() && m.fallback.live[i] == block;
        assert(keep(m.fallback.live[i]));
    }
}

impl FixedModel {
    /// Whether `request` may be made in this state.
    pub open spec fn permits(self, request: Request) -> bool {
        match request {
            Request::Allocate { size, align } => 0 <= size && is_power_of_two(align),
            Request::Deallocate { addr, size, align } => {
                &&& self.in_use(Self::block_of(addr, size, align))
                &&& class_of(size, align) matches Some(class) ==> addr % block_size(class) == 0
            },
        }
    }

    /// The state after `request`.
    pub open spec fn step(self, request: Request) -> FixedModel {
        match request {
            Request::Allocate { size, align } => self.allocate(size, align),
            Request::Deallocate { addr, size, align } => self.deallocate(addr, size, align),
        }
    }

    /// Whether each of `requests` may be made when its turn comes.
    pub open spec fn permits_all(self, requests: Seq<Request>) -> bool
        decreases requests.len(),
    {
        requests.len() > 0 ==> self.permits(requests[0]) && self.step(requests[0]).permits_all(
            requests.drop_first(),
        )
    }

    /// The state after `requests` were served one after the other.
    pub open spec fn run(self, requests: Seq<Request>) -> FixedModel
        decreases requests.len(),
    {
        if requests.len() == 0 {
            self
        } else {
            self.step(requests[0]).run(requests.drop_first())
        }
    }
}

/// However the requests of several callers are interleaved, as long as they
/// are served one at a time, every state on the way is a reachable one, and
/// the bytes in use never add up to more than the heap holds.
pub proof fn lemma_run_wf(m: FixedModel, requests: Seq<Request>)
    requires
        m.wf(),
        m.permits_all(requests),
    ensures
        m.run(requests).wf(),
        total_size(m.run(requests).live()) <= m.run(requests).fallback.heap.size,
    decreases requests.len(),
{
    if requests.len() == 0 {
        lemma_live_bytes_bounded(m);
    } else {
        match requests[0] {
            Request::Allocate { size, align } => {
                lemma_allocate_wf(m, size, align);
            },
            Request::Deallocate { addr, size, align } => {
                lemma_deallocate_wf(m, addr, size, align);
            },
        }
        lemma_run_wf(m.step(requests[0]), requests.drop_first());
    }
}

/// Chooses the class for a request of `size` bytes at alignment `align`.
///
/// Returns an index into `BLOCK_SIZES`, or `None` where no block is large
/// enough.
pub fn list_index(size: usize, align: usize) -> (class: Option<usize>)
    ensures
        match class {
            Some(index) => class_of(size as int, align as int) == Some(index as int),
            None => class_of(size as int, align as int) is None,
        },
{
    let required_block_size = if size >= align {
        size
    } else {
        align
    };
    let mut index: usize = 0;
    while index < CLASSES
        invariant
            index <= CLASSES,
            class_from(required_block_size as int, index as int) == class_of(
                size as int,
                align as int,
            ),
        decreases CLASSES - index,
    {
        if BLOCK_SIZES[index] >= required_block_size {
            return Some(index);
        }
        index = index + 1;
    }
    None
}

/// An allocator with a list of free blocks for each block size.
pub struct FixedSizeBlockAllocator {
    /// For each class the addresses of its free blocks; the last one is the
    /// head of the list.
    list_heads: [Vec<usize>; 8],
    fallback_allocator: LinkedListAllocator,
}

impl View for FixedSizeBlockAllocator {
    type V = FixedModel;

    closed spec fn view(&self) -> FixedModel {
        FixedModel {
            lists: Seq::new(
                CLASSES as nat,
                |class: int|
                    Seq::new(
                        self.list_heads@[class]@.len(),
                        |k: int|
                            self.list_heads@[class]@[self.list_heads@[class]@.len() - 1 - k] as int,
                    ),
            ),
            fallback: self.fallback_allocator@,
        }
    }
}

impl FixedSizeBlockAllocator {
    /// Whether the allocator is in a reachable state.
    pub open spec fn wf(&self) -> bool {
        self@.wf()
    }

    /// An allocator that serves no heap yet: every request fails.
    pub fn new() -> (allocator: Self)
        ensures
            allocator.wf(),
            allocator@ == FixedModel::empty(),
    {
        let allocator = FixedSizeBlockAllocator {
            list_heads: [
                Vec::new(),
                Vec::new(),
                Vec::new(),
                Vec::new(),
                Vec::new(),
                Vec::new(),
                Vec::new(),
                Vec::new(),
            ],
            fallback_allocator: LinkedListAllocator::new(),
        };
        proof {
            assert forall|class: int| 0 <= class < CLASSES implies (
            #[trigger] allocator@.lists[class]) =~= Seq::empty() by {}
            assert(allocator@.lists =~= FixedModel::empty().lists);
        }
        allocator
    }

    /// Makes the allocator serve `[heap_start, heap_start + heap_size)`. The
    /// range has to be able to stand in a free list, and the allocator must
    /// not serve a heap yet.
    pub fn init(&mut self, heap_start: usize, heap_size: usize)
        requires
            old(self)@ == FixedModel::empty(),
            heap_start % NODE_ALIGN == 0,
            heap_size >= NODE_SIZE,
            heap_start + heap_size <= usize::MAX,
        ensures
            final(self).wf(),
            final(self)@ == FixedModel::fresh(heap_start as int, heap_size as int),
    {
        self.fallback_allocator.init(heap_start, heap_size);
        proof {
            assert(self@.lists =~= old(self)@.lists);
        }
    }

    /// Allocates using the fallback allocator.
    fn fallback_alloc(&mut self, size: usize, align: usize) -> (address: Option<usize>)
        requires
            old(self)@.fallback.wf(),
            is_power_of_two(align as int),
        ensures
            final(self)@.lists == old(self)@.lists,
            final(self)@.fallback == old(self)@.fallback.allocate(size as int, align as int),
            match address {
                Some(p) => old(self)@.fallback.allocated(size as int, align as int) == Some(
                    p as int,
                ),
                None => old(self)@.fallback.allocated(size as int, align as int) is None,
            },
    {
        let address = self.fallback_allocator.allocate(size, align);
        proof {
            assert(self@.lists =~= old(self)@.lists);
        }
        address
    }

    /// Serves a request for `size` bytes at alignment `align`: from the list
    /// of its class if that holds a block, else from the fallback allocator.
    pub fn allocate(&mut self, size: usize, align: usize) -> (address: Option<usize>)
        requires
            old(self).wf(),
            is_power_of_two(align as int),
        ensures
            final(self).wf(),
            final(self)@ == old(self)@.allocate(size as int, align as int),
            match address {
                Some(p) => {
                    &&& old(self)@.allocated(size as int, align as int) == Some(p as int)
                    &&& p % align == 0
                    &&& old(self)@.fallback.heap.start <= p
                    &&& p + size <= old(self)@.fallback.heap.end()
                    &&& final(self)@.in_use(
                        FixedModel::block_of(p as int, size as int, align as int),
                    )
                    &&& class_of(size as int, align as int) matches Some(class) ==> p as int
                        % block_size(class) == 0
                },
                None => old(self)@.allocated(size as int, align as int) is None,
            },
    {
        proof {
            lemma_allocate_wf(self@, size as int, align as int);
            lemma_class_from(
                if size >= align {
                    size as int
                } else {
                    align as int
                },
                0,
            );
        }
        match list_index(size, align) {
            Some(index) => {
                match self.list_heads[index].pop() {
                    Some(addr) => {
                        proof {
                            let after = old(self)@.allocate(size as int, align as int);
                            assert forall|class: int| 0 <= class < CLASSES implies (
                            #[trigger] self@.lists[class]) =~= after.lists[class] by {}
                            assert(self@.lists =~= after.lists);
                        }
                        Some(addr)
                    },
                    None => {
                        proof {
                            lemma_block_sizes(index as int);
                            assert forall|class: int| 0 <= class < CLASSES implies (
                            #[trigger] self@.lists[class]) =~= old(self)@.lists[class] by {}
                            assert(self@.lists =~= old(self)@.lists);
                        }
                        // No block exists in the list: allocate a new block.
                        let block_size = BLOCK_SIZES[index];
                        // Only works if all block sizes are a power of 2.
                        let block_align = block_size;
                        self.fallback_alloc(block_size, block_align)
                    },
                }
            },
            None => self.fallback_alloc(size, align),
        }
    }

    /// Takes back the block at `addr` that a request for `size` bytes at
    /// alignment `align` got: onto the list of its class, or back to the
    /// fallback allocator where no class covers the request.
    pub fn deallocate(&mut self, addr: usize, size: usize, align: usize)
        requires
            old(self).wf(),
            is_power_of_two(align as int),
            old(self)@.in_use(FixedModel::block_of(addr as int, size as int, align as int)),
            class_of(size as int, align as int) matches Some(class) ==> addr as int % block_size(
                class,
            ) == 0,
        ensures
            final(self).wf(),
            final(self)@ == old(self)@.deallocate(addr as int, size as int, align as int),
    {
        proof {
            lemma_deallocate_wf(self@, addr as int, size as int, align as int);
            lemma_class_from(
                if size >= align {
                    size as int
                } else {
                    align as int
                },
                0,
            );
        }
        match list_index(size, align) {
            Some(index) => {
                self.list_heads[index].push(addr);
                proof {
                    let after = old(self)@.deallocate(addr as int, size as int, align as int);
                    assert forall|class: int| 0 <= class < CLASSES implies (
                    #[trigger] self@.lists[class]) =~= after.lists[class] by {}
                    assert(self@.lists =~= after.lists);
                }
            },
            None => {
                self.fallback_allocator.deallocate(addr, size, align);
                proof {
                    assert(self@.lists =~= old(self)@.lists);
                }
            },
        }
    }
}

} // verus!
