//! Blocks, the fixed-width words that bits are packed into, and the address
//! of a bit in a sequence of blocks: the index of its block and its place in
//! that block.

use crate::arith::{blocks_for, lemma_div_mod};
use vstd::prelude::*;

verus! {

/// A block holds the bits of `field`, in order from its least significant
/// bit, and nothing above them: it is `field` read as a little-endian integer.
pub open spec fn block_is<Block: BlockType>(block: Block, field: Seq<bool>) -> bool {
    forall|i: int|
        0 <= i < Block::width() ==> #[trigger] block.bit(i) == (i < field.len() && field[i])
}

/// Fixed-width unsigned integers that a bit vector can be stored in.
///
/// A block is modelled by its bits: `bit(0)` is the least significant one and
/// `bit(width() - 1)` the most significant one. Two blocks with the same bits
/// are the same block.
pub trait BlockType: Copy + Sized {
    /// The number of bits in a block.
    spec fn width() -> nat;

    /// Whether the bit at `index` is set; `index` counts from the least
    /// significant bit.
    spec fn bit(self, index: int) -> bool;

    /// A block has at least one bit and no more than 128.
    proof fn lemma_width_bounds()
        ensures
            0 < Self::width() <= 128,
    ;

    /// Blocks that agree on every bit are equal.
    proof fn lemma_extensional(a: Self, b: Self)
        requires
            forall|i: int| 0 <= i < Self::width() ==> a.bit(i) == b.bit(i),
        ensures
            a == b,
    ;

    /// The number of bits in a block.
    fn nbits() -> (n: usize)
        ensures
            n == Self::width(),
    ;

    /// The block with no bit set.
    fn zero() -> (block: Self)
        ensures
            forall|i: int| 0 <= i < Self::width() ==> !#[trigger] block.bit(i),
    ;

    /// The block with only the least significant bit set.
    fn one() -> (block: Self)
        ensures
            forall|i: int| 0 <= i < Self::width() ==> #[trigger] block.bit(i) == (i == 0),
    ;

    /// Whether two blocks are the same.
    fn equals(self, other: Self) -> (same: bool)
        ensures
            same == (self == other),
    ;

    /// Bitwise and.
    fn bit_and(self, other: Self) -> (block: Self)
        ensures
            forall|i: int|
                0 <= i < Self::width() ==> #[trigger] block.bit(i) == (self.bit(i) && other.bit(i)),
    ;

    /// Bitwise or.
    fn bit_or(self, other: Self) -> (block: Self)
        ensures
            forall|i: int|
                0 <= i < Self::width() ==> #[trigger] block.bit(i) == (self.bit(i) || other.bit(i)),
    ;

    /// Bitwise complement.
    fn bit_not(self) -> (block: Self)
        ensures
            forall|i: int| 0 <= i < Self::width() ==> #[trigger] block.bit(i) == !self.bit(i),
    ;

    /// Moves every bit `count` places towards the most significant end and
    /// fills with zeros. Bits moved past the end are lost, so a `count` of the
    /// width or more gives zero.
    fn shift_left(self, count: usize) -> (block: Self)
        ensures
            forall|i: int|
                0 <= i < Self::width() ==> #[trigger] block.bit(i) == (count <= i && self.bit(
                    i - count,
                )),
    ;

    /// Moves every bit `count` places towards the least significant end and
    /// fills with zeros. Bits moved past the end are lost, so a `count` of the
    /// width or more gives zero.
    fn shift_right(self, count: usize) -> (block: Self)
        ensures
            forall|i: int|
                0 <= i < Self::width() ==> #[trigger] block.bit(i) == (i + count < Self::width()
                    && self.bit(i + count)),
    ;

    /// The index of the block that holds bit `index`: `index / nbits()`.
    fn div_nbits(index: u64) -> (block_index: usize)
        requires
            index as nat / Self::width() <= usize::MAX,
        ensures
            block_index == index as nat / Self::width(),
    {
        proof {
            Self::lemma_width_bounds();
        }
        (index / (Self::nbits() as u64)) as usize
    }

    /// The number of blocks needed for `total` bits: `total / nbits()`, rounded
    /// up.
    fn ceil_div_nbits(total: u64) -> (count: usize)
        requires
            blocks_for(total as nat, Self::width()) <= usize::MAX,
        ensures
            count == blocks_for(total as nat, Self::width()),
    {
        proof {
            Self::lemma_width_bounds();
        }
        let width: u64 = Self::nbits() as u64;
        let whole: u64 = total / width;
        if total % width == 0 {
            whole as usize
        } else {
            (whole + 1) as usize
        }
    }

    /// The place of bit `index` in its block: `index % nbits()`.
    fn mod_nbits(index: u64) -> (bit_offset: usize)
        ensures
            bit_offset == index as nat % Self::width(),
            bit_offset < Self::width(),
    {
        proof {
            Self::lemma_width_bounds();
            lemma_div_mod(index as int, Self::width() as int);
        }
        (index % (Self::nbits() as u64)) as usize
    }

    /// The index of the first bit of block `block_index`:
    /// `block_index * nbits()`.
    fn mul_nbits(block_index: usize) -> (index: u64)
        requires
            block_index * Self::width() <= u64::MAX,
        ensures
            index == block_index * Self::width(),
    {
        proof {
            Self::lemma_width_bounds();
        }
        block_index as u64 * Self::nbits() as u64
    }

    /// The number of bits in use in the last block of a vector of `total`
    /// bits: the remainder of `total` by the width, but the full width when
    /// the remainder is zero.
    fn last_block_bits(total: u64) -> (count: usize)
        ensures
            count == if total as nat % Self::width() == 0 {
                Self::width()
            } else {
                total as nat % Self::width()
            },
            0 < count <= Self::width(),
    {
        proof {
            Self::lemma_width_bounds();
        }
        let masked: usize = Self::mod_nbits(total);
        if masked == 0 {
            Self::nbits()
        } else {
            masked
        }
    }

    /// The block whose `count` least significant bits are set, and no others.
    fn low_mask(count: usize) -> (mask: Self)
        requires
            count <= Self::width(),
        ensures
            forall|i: int| 0 <= i < Self::width() ==> #[trigger] mask.bit(i) == (i < count),
    {
        let ones: Self = Self::zero().bit_not();
        ones.shift_left(count).bit_not()
    }

    /// The block in which only the bit at `bit_index` is set.
    fn nth_mask(bit_index: usize) -> (mask: Self)
        requires
            bit_index < Self::width(),
        ensures
            forall|i: int| 0 <= i < Self::width() ==> #[trigger] mask.bit(i) == (i == bit_index),
    {
        Self::one().shift_left(bit_index)
    }

    /// Reads the bit at `bit_index`.
    fn get_bit(self, bit_index: usize) -> (value: bool)
        requires
            bit_index < Self::width(),
        ensures
            value == self.bit(bit_index as int),
    {
        let masked: Self = self.bit_and(Self::nth_mask(bit_index));
        let zero: Self = Self::zero();
        proof {
            if self.bit(bit_index as int) {
                assert(masked.bit(bit_index as int));
                assert(!zero.bit(bit_index as int));
            } else {
                assert forall|i: int| 0 <= i < Self::width() implies masked.bit(i) == zero.bit(
                    i,
                ) by {}
                Self::lemma_extensional(masked, zero);
            }
        }
        !masked.equals(zero)
    }

    /// The block with the bit at `bit_index` replaced by `bit_value`.
    fn with_bit(self, bit_index: usize, bit_value: bool) -> (block: Self)
        requires
            bit_index < Self::width(),
        ensures
            forall|i: int|
                0 <= i < Self::width() ==> #[trigger] block.bit(i) == if i == bit_index {
                    bit_value
                } else {
                    self.bit(i)
                },
    {
        if bit_value {
            self.bit_or(Self::nth_mask(bit_index))
        } else {
            self.bit_and(Self::nth_mask(bit_index).bit_not())
        }
    }

    /// Reads the `len` bits that start at `start`, as a little-endian integer:
    /// bit `i` of the result is bit `start + i` of the block for `i < len`, and
    /// the bits from `len` on are zero.
    fn get_bits(self, start: usize, len: usize) -> (field: Self)
        requires
            start + len <= Self::width(),
        ensures
            forall|i: int|
                0 <= i < Self::width() ==> #[trigger] field.bit(i) == (i < len && self.bit(
                    start + i,
                )),
    {
        self.shift_right(start).bit_and(Self::low_mask(len))
    }

    /// The block with the `len` bits that start at `start` replaced by the
    /// `len` least significant bits of `value`. All other bits are kept, and
    /// the higher bits of `value` are ignored.
    fn with_bits(self, start: usize, len: usize, value: Self) -> (block: Self)
        requires
            start + len <= Self::width(),
        ensures
            forall|i: int|
                0 <= i < Self::width() ==> #[trigger] block.bit(i) == if start <= i < start + len {
                    value.bit(i - start)
                } else {
                    self.bit(i)
                },
    {
        let low: Self = Self::low_mask(len);
        let mask: Self = low.shift_left(start);
        let inverse: Self = mask.bit_not();
        let shifted_value: Self = value.shift_left(start);
        let kept: Self = self.bit_and(inverse);
        let written: Self = shifted_value.bit_and(mask);
        let block: Self = kept.bit_or(written);
        proof {
            assert forall|i: int| 0 <= i < Self::width() implies #[trigger] block.bit(i) == if start
                <= i < start + len {
                value.bit(i - start)
            } else {
                self.bit(i)
            } by {
                assert(block.bit(i) == (kept.bit(i) || written.bit(i)));
                assert(kept.bit(i) == (self.bit(i) && inverse.bit(i)));
                assert(written.bit(i) == (shifted_value.bit(i) && mask.bit(i)));
                assert(mask.bit(i) == (start <= i && low.bit(i - start)));
            }
        }
        block
    }
}

/// Where a bit lies in a sequence of blocks.
#[derive(Clone, Copy, Debug, PartialEq, Eq)]
pub struct Address {
    /// The index of the block that holds the bit.
    pub block_index: usize,
    /// The place of the bit in that block, counted from the least significant
    /// bit; less than the width of a block.
    pub bit_offset: usize,
}

impl Address {
    /// The address of bit `bit_index` in blocks of type `Block`: the quotient
    /// and the remainder of `bit_index` by the width of a block.
    pub fn new<Block: BlockType>(bit_index: u64) -> (address: Address)
        requires
            bit_index as nat / Block::width() <= usize::MAX,
        ensures
            address.block_index == bit_index as nat / Block::width(),
            address.bit_offset == bit_index as nat % Block::width(),
            address.bit_offset < Block::width(),
            address.block_index * Block::width() + address.bit_offset == bit_index,
    {
        proof {
            Block::lemma_width_bounds();
            lemma_div_mod(bit_index as int, Block::width() as int);
        }
        Address {
            block_index: Block::div_nbits(bit_index),
            bit_offset: Block::mod_nbits(bit_index),
        }
    }
}

} // verus!
