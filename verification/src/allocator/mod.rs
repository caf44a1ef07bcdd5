//! Heap allocators and the address arithmetic they share.

use vstd::arithmetic::div_mod::{lemma_fundamental_div_mod, lemma_mod_multiples_basic};
use vstd::arithmetic::power2::{
    lemma2_to64, lemma_pow2_adds, lemma_pow2_pos, lemma_pow2_strictly_increases,
    lemma_pow2_unfold, pow2,
};
use vstd::bits::lemma_usize_low_bits_mask_is_mod;
use vstd::prelude::*;

pub mod bump;
pub mod fixed_size_block;
pub mod heap_init;
pub mod linked_list;
pub mod locked;

verus! {

/// First virtual address of the kernel heap.
pub const HEAP_START: u64 = 0x4444_4444_0000;

/// Size of the kernel heap in bytes (100 KiB).
pub const HEAP_SIZE: usize = 100 * 1024;

/// A run of `size` bytes that begins at address `start`.
pub struct Block {
    pub start: int,
    pub size: int,
}

impl Block {
    /// The first address past the block.
    pub open spec fn end(self) -> int {
        self.start + self.size
    }

    /// Whether the block lies inside `outer`.
    pub open spec fn within(self, outer: Block) -> bool {
        outer.start <= self.start && self.end() <= outer.end()
    }

    /// Whether the two blocks share no byte.
    pub open spec fn disjoint(self, other: Block) -> bool {
        self.end() <= other.start || other.end() <= self.start
    }
}

/// What a caller asks of an allocator.
pub enum Request {
    /// `size` bytes at alignment `align`.
    Allocate { size: int, align: int },
    /// To take back the block at `addr` that a request for `size` bytes at
    /// alignment `align` got.
    Deallocate { addr: int, size: int, align: int },
}

/// The sizes of `blocks` added up.
pub open spec fn total_size(blocks: Seq<Block>) -> int
    decreases blocks.len(),
{
    if blocks.len() == 0 {
        0
    } else {
        total_size(blocks.drop_last()) + blocks.last().size
    }
}

/// Whether `n` is a power of two.
pub open spec fn is_power_of_two(n: int) -> bool {
    exists|e: nat| n == pow2(e)
}

/// Tells whether `n` is a power of two.
pub fn check_power_of_two(n: usize) -> (is: bool)
    ensures
        is == is_power_of_two(n as int),
{
    let mut power: usize = 1;
    let ghost mut e: nat = 0;
    proof {
        lemma2_to64();
    }
    while power < n && power <= usize::MAX / 2
        invariant
            power >= 1,
            power == pow2(e),
            e > 0 ==> pow2((e - 1) as nat) < n,
        decreases usize::MAX - power,
    {
        proof {
            lemma_pow2_unfold(e + 1);
            e = e + 1;
        }
        power = power * 2;
    }
    proof {
        if power != n && is_power_of_two(n as int) {
            let k = choose|k: nat| n == pow2(k);
            lemma_pow2_pos(k);
            if power > n {
                // The power before `power` is below `n`, so `n` lies strictly
                // between two neighbouring powers.
                if k >= e {
                    if k > e {
                        lemma_pow2_strictly_increases(e, k);
                    }
                } else if k < e - 1 {
                    lemma_pow2_strictly_increases(k, (e - 1) as nat);
                }
            } else {
                // Twice `power` is beyond `usize`, and so is every power
                // above `power`.
                lemma_pow2_unfold(e + 1);
                if k <= e {
                    if k < e {
                        lemma_pow2_strictly_increases(k, e);
                    }
                } else if k > e + 1 {
                    lemma_pow2_strictly_increases(e + 1, k);
                }
            }
        }
    }
    power == n
}

/// The smallest multiple of `align` that is not below `addr`.
pub open spec fn round_up(addr: int, align: int) -> int {
    if addr % align == 0 {
        addr
    } else {
        addr - addr % align + align
    }
}

/// `round_up(addr, align)` is a multiple of `align`, lies in
/// `[addr, addr + align)`, and no smaller multiple of `align` reaches `addr`.
pub proof fn lemma_round_up(addr: int, align: int)
    requires
        0 <= addr,
        0 < align,
    ensures
        round_up(addr, align) % align == 0,
        addr <= round_up(addr, align) < addr + align,
        forall|m: int| addr <= m && #[trigger] (m % align) == 0 ==> round_up(addr, align) <= m,
{
    let r = round_up(addr, align);
    assert(r % align == 0 && addr <= r < addr + align) by (nonlinear_arith)
        requires
            0 <= addr,
            0 < align,
            r == round_up(addr, align),
    ;
    assert forall|m: int| addr <= m && #[trigger] (m % align) == 0 implies r <= m by {
        if m < r {
            assert(false) by (nonlinear_arith)
                requires
                    0 < align,
                    r % align == 0,
                    m % align == 0,
                    m < r,
                    r < addr + align,
                    addr <= m,
            ;
        }
    }
}

/// Aligns the given `addr` upwards to alignment `align`.
pub fn align_up(addr: usize, align: usize) -> (aligned: usize)
    requires
        align > 0,
        round_up(addr as int, align as int) <= usize::MAX,
    ensures
        aligned == round_up(addr as int, align as int),
{
    let remainder = addr % align;
    if remainder == 0 {
        addr
    } else {
        assert(remainder <= addr) by (nonlinear_arith)
            requires
                remainder == addr % align,
                align > 0,
        ;
        addr - remainder + align
    }
}

/// Aligns `addr` upwards to `align` with two bit operations; `align` must be
/// a power of two.
pub fn fast_align_up(addr: usize, align: usize) -> (aligned: usize)
    requires
        is_power_of_two(align as int),
        addr + align - 1 <= usize::MAX,
    ensures
        aligned == round_up(addr as int, align as int),
{
    proof {
        lemma_pow2_pos(choose|e: nat| align == pow2(e));
        lemma_mask_rounds_up(addr, align);
    }
    (addr + (align - 1)) & !(align - 1)
}

/// A power of two that fits a `usize` has an exponent below the word size.
pub proof fn lemma_exponent_fits(n: usize, e: nat)
    requires
        n == pow2(e),
    ensures
        e < usize::BITS,
{
    if e >= usize::BITS {
        lemma2_to64();
        if e > usize::BITS {
            lemma_pow2_strictly_increases(usize::BITS as nat, e);
        }
    }
}

proof fn lemma_mask_rounds_up(addr: usize, align: usize)
    requires
        is_power_of_two(align as int),
        addr + align - 1 <= usize::MAX,
    ensures
        align > 0,
        (((addr + align - 1) as usize) & !((align - 1) as usize)) == round_up(
            addr as int,
            align as int,
        ),
{
    let e = choose|e: nat| align == pow2(e);
    lemma_pow2_pos(e);
    lemma_exponent_fits(align, e);
    let sum: usize = (addr + align - 1) as usize;
    let mask: usize = (align - 1) as usize;
    let low: usize = sum & mask;
    let masked: usize = sum & !mask;
    assert(masked == sum - low) by (bit_vector)
        requires
            low == sum & mask,
            masked == sum & !mask,
    ;
    assert(low == sum % align) by {
        lemma_usize_low_bits_mask_is_mod(sum, e);
    }
    let r = round_up(addr as int, align as int);
    lemma_round_up(addr as int, align as int);
    assert(masked == r) by (nonlinear_arith)
        requires
            0 < align,
            masked == sum - sum % align,
            sum == addr + align - 1,
            r % (align as int) == 0,
            addr <= r < addr + align,
    ;
}

/// Adding a block at the end adds its size to the total.
pub proof fn lemma_total_size_push(blocks: Seq<Block>, block: Block)
    ensures
        total_size(blocks.push(block)) == total_size(blocks) + block.size,
{
    assert(blocks.push(block).drop_last() =~= blocks);
}

/// Taking the block at index `i` out takes its size off the total.
pub proof fn lemma_total_size_remove(blocks: Seq<Block>, i: int)
    requires
        0 <= i < blocks.len(),
    ensures
        total_size(blocks.remove(i)) == total_size(blocks) - blocks[i].size,
    decreases blocks.len(),
{
    if i == blocks.len() - 1 {
        assert(blocks.remove(i) =~= blocks.drop_last());
    } else {
        lemma_total_size_remove(blocks.drop_last(), i);
        assert(blocks.remove(i).drop_last() =~= blocks.drop_last().remove(i));
        assert(blocks.remove(i).last() == blocks.last());
    }
}

/// A total of sizes that are not negative is not negative.
pub proof fn lemma_total_size_nonnegative(blocks: Seq<Block>)
    requires
        forall|i: int| 0 <= i < blocks.len() ==> 0 <= (#[trigger] blocks[i]).size,
    ensures
        0 <= total_size(blocks),
    decreases blocks.len(),
{
    if blocks.len() > 0 {
        lemma_total_size_nonnegative(blocks.drop_last());
    }
}

/// Giving back a block that is in use takes exactly one block out of use and
/// leaves the others as they were.
pub proof fn lemma_remove_value(blocks: Seq<Block>, block: Block)
    requires
        blocks.contains(block),
    ensures
        exists|i: int|
            0 <= i < blocks.len() && blocks[i] == block && blocks.remove_value(block)
                == blocks.remove(i),
{
    let i = blocks.index_of_first(block);
    blocks.index_of_first_ensures(block);
    assert(i is Some);
    assert(blocks.remove_value(block) == blocks.remove(i.unwrap()));
}

/// A block that is in use stays in use when another block is given back.
pub proof fn lemma_remove_value_keeps(blocks: Seq<Block>, gone: Block, kept: Block)
    requires
        blocks.contains(kept),
        kept != gone,
    ensures
        blocks.remove_value(gone).contains(kept),
{
    blocks.index_of_first_ensures(gone);
    let j = choose|j: int| 0 <= j < blocks.len() && blocks[j] == kept;
    match blocks.index_of_first(gone) {
        Some(i) => {
            let after = blocks.remove(i);
            if j < i {
                assert(after[j] == kept);
            } else {
                assert(after[j - 1] == kept);
            }
        },
        None => {},
    }
}

/// Putting a block in front adds its size to the total.
pub proof fn lemma_total_size_prepend(block: Block, blocks: Seq<Block>)
    ensures
        total_size(seq![block] + blocks) == block.size + total_size(blocks),
    decreases blocks.len(),
{
    let joined = seq![block] + blocks;
    if blocks.len() == 0 {
        assert(joined.drop_last() =~= Seq::<Block>::empty());
        assert(total_size(joined.drop_last()) == 0);
    } else {
        lemma_total_size_prepend(block, blocks.drop_last());
        assert(joined.drop_last() =~= seq![block] + blocks.drop_last());
    }
}

/// A power of two divides every power of two that is not smaller.
pub proof fn lemma_power_of_two_divides(small: int, large: int)
    requires
        is_power_of_two(small),
        is_power_of_two(large),
        small <= large,
    ensures
        0 < small,
        large % small == 0,
{
    let e1 = choose|e: nat| small == pow2(e);
    let e2 = choose|e: nat| large == pow2(e);
    lemma_pow2_pos(e1);
    if e1 > e2 {
        lemma_pow2_strictly_increases(e2, e1);
    }
    let rest = pow2((e2 - e1) as nat) as int;
    lemma_pow2_adds(e1, (e2 - e1) as nat);
    assert(e1 + (e2 - e1) as nat == e2);
    assert(large == rest * small) by (nonlinear_arith)
        requires
            large == small * rest,
    ;
    lemma_mod_multiples_basic(rest, small);
}

/// A power of two that fits a `usize` divides the number of `usize` values.
pub proof fn lemma_power_of_two_divides_word(align: usize)
    requires
        is_power_of_two(align as int),
    ensures
        0 < align,
        (usize::MAX + 1) % (align as int) == 0,
{
    lemma2_to64();
    assert(usize::MAX + 1 == pow2(usize::BITS as nat));
    assert(is_power_of_two(usize::MAX + 1));
    lemma_power_of_two_divides(align as int, usize::MAX + 1);
}

/// A multiple of `large` is a multiple of whatever divides `large`.
pub proof fn lemma_multiple_of_multiple(x: int, small: int, large: int)
    requires
        0 < small,
        0 < large,
        large % small == 0,
        x % large == 0,
    ensures
        x % small == 0,
{
    lemma_fundamental_div_mod(x, large);
    lemma_fundamental_div_mod(large, small);
    let k = x / large;
    let j = large / small;
    assert(x == (j * k) * small) by (nonlinear_arith)
        requires
            x == large * k,
            large == small * j,
    ;
    lemma_mod_multiples_basic(j * k, small);
}

/// Where rounding up to a power of two leaves the range of `usize`, the
/// rounded address is the first one past that range.
pub proof fn lemma_round_up_overflow(addr: usize, align: usize)
    requires
        is_power_of_two(align as int),
        addr + align - 1 > usize::MAX,
    ensures
        round_up(addr as int, align as int) > usize::MAX,
{
    lemma_power_of_two_divides_word(align);
    lemma_round_up(addr as int, align as int);
    let top = usize::MAX + 1;
    let r = round_up(addr as int, align as int);
    if r <= usize::MAX {
        assert(false) by (nonlinear_arith)
            requires
                0 < align,
                top % (align as int) == 0,
                r % (align as int) == 0,
                top - align < addr <= r < top,
        ;
    }
}

} // verus!
