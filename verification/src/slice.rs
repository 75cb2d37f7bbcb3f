//! Views of a range of bits in a slice of blocks. A view shares the blocks
//! that it was sliced from: slicing copies nothing, and a view may start and
//! end in the middle of a block.

use crate::arith::{
    blocks_for, lemma_blocks_for, lemma_div_mod, lemma_div_mod_unique, lemma_mul_order,
    lemma_whole_blocks,
};
use crate::storage::{Address, BlockType};
use crate::traits::{BitSliceable, BitVec, BitVecMut};
use core::ops::Range;
use vstd::prelude::*;

verus! {

/// Where `a` lies `k` whole blocks of `w` bits beyond `b`, it lies in the
/// block `k` blocks after that of `b`, at the same place in it.
proof fn lemma_blocks_ahead(a: int, b: int, k: int, w: int)
    requires
        0 < w,
        0 <= b,
        a == k * w + b,
    ensures
        a / w == k + b / w,
        a % w == b % w,
{
    lemma_div_mod(b, w);
    assert(a == (k + b / w) * w + b % w) by (nonlinear_arith)
        requires
            a == k * w + b,
            b == (b / w) * w + b % w,
    ;
    lemma_div_mod_unique(a, w, k + b / w, b % w);
}

/// A view of `len` bits that starts at bit `begin` of a sequence of `total`
/// bits stored from block `first` on, in `blocks` blocks of `w` bits, ends
/// within those blocks.
proof fn lemma_view_fits(first: int, total: int, begin: int, len: int, blocks: int, w: int)
    requires
        0 < w,
        0 <= first,
        0 <= begin,
        0 <= len,
        begin + len <= total,
        first + blocks_for(total as nat, w as nat) <= blocks,
    ensures
        first + begin / w + blocks_for((begin % w + len) as nat, w as nat) <= blocks,
        begin / w <= blocks_for(total as nat, w as nat),
{
    let part = begin % w + len;
    lemma_div_mod(begin, w);
    lemma_blocks_for(total as nat, w as nat);
    lemma_blocks_for(part as nat, w as nat);
    let count = blocks_for(part as nat, w as nat) as int;
    let used = begin / w + count;
    let all = blocks_for(total as nat, w as nat) as int;
    assert(used * w == (begin / w) * w + count * w) by (nonlinear_arith)
        requires
            used == begin / w + count,
    ;
    assert(used * w < (all + 1) * w) by {
        lemma_mul_order(all, all, w);
    }
    lemma_mul_order(used, all + 1, w);
    lemma_mul_order(begin / w, all + 1, w);
    lemma_mul_order(all, all, w);
}

/// A read-only view of a range of bits in a slice of blocks.
pub struct BitSlice<'a, Block: BlockType> {
    blocks: &'a [Block],
    first: usize,
    offset: u8,
    len: u64,
}

impl<'a, Block: BlockType> Copy for BitSlice<'a, Block> {

}

impl<'a, Block: BlockType> Clone for BitSlice<'a, Block> {
    /// Another view of the same bits in the same blocks.
    fn clone(&self) -> (copy: Self)
        ensures
            copy == *self,
    {
        *self
    }
}

/// A view of a range of bits in a slice of blocks through which the bits can
/// be set. The bits of the blocks outside the range stay as they are.
pub struct BitSliceMut<'a, Block: BlockType> {
    blocks: &'a mut [Block],
    first: usize,
    offset: u8,
    len: u64,
}

/// Bit `position` of a view that starts `offset` bits into block `first` of
/// `blocks`.
spec fn bit_at<Block: BlockType>(
    blocks: Seq<Block>,
    first: int,
    offset: int,
    position: int,
) -> bool {
    blocks[first + (position + offset) / (Block::width() as int)].bit(
        (position + offset) % (Block::width() as int),
    )
}

/// Every bit of `blocks` at its place, but for the `len` bits from bit
/// `begin` on, in whose places stands `false`.
pub open spec fn outside_bits<Block: BlockType>(
    blocks: Seq<Block>,
    begin: int,
    len: int,
) -> Seq<bool> {
    Seq::new(
        blocks.len() * Block::width(),
        |q: int|
            if begin <= q < begin + len {
                false
            } else {
                blocks[q / (Block::width() as int)].bit(q % (Block::width() as int))
            },
    )
}

/// The view starts inside its first block and ends within the blocks.
spec fn view_fits<Block: BlockType>(
    blocks: Seq<Block>,
    first: int,
    offset: int,
    len: int,
) -> bool {
    &&& offset < Block::width()
    &&& len + offset <= u64::MAX
    &&& first + blocks_for((len + offset) as nat, Block::width()) <= blocks.len()
}

impl<'a, Block: BlockType> BitVec for BitSlice<'a, Block> {
    type Block = Block;

    closed spec fn bits(&self) -> Seq<bool> {
        Seq::new(
            self.len as nat,
            |p: int| bit_at(self.blocks@, self.first as int, self.offset as int, p),
        )
    }

    closed spec fn anchor(&self) -> nat {
        self.offset as nat
    }

    closed spec fn inv(&self) -> bool {
        view_fits(self.blocks@, self.first as int, self.offset as int, self.len as int)
    }

    proof fn lemma_inv(&self) {
        assert(self.blocks.len() == self.blocks@.len());
    }

    #[inline]
    fn bit_len(&self) -> (len: u64) {
        self.len
    }

    #[inline]
    fn bit_offset(&self) -> (offset: u8) {
        self.offset
    }

    fn get_bit(&self, position: u64) -> (value: bool) {
        proof {
            Block::lemma_width_bounds();
            lemma_blocks_for((self.len + self.offset) as nat, Block::width());
            let index = position + self.offset;
            assert(index / (Block::width() as int) < blocks_for(
                (self.len + self.offset) as nat,
                Block::width(),
            ));
            assert(self.blocks.len() == self.blocks@.len());
        }
        let address = Address::new::<Block>(position + self.offset as u64);
        let block: Block = self.blocks[self.first + address.block_index];
        block.get_bit(address.bit_offset)
    }

    /// Reads the block from the slice and clears the bits of it that lie
    /// before the first bit of the view or after its last one.
    fn get_block(&self, position: usize) -> (block: Block) {
        let ghost width = Block::width() as int;
        proof {
            Block::lemma_width_bounds();
            lemma_blocks_for((self.len + self.offset) as nat, Block::width());
            lemma_div_mod(self.len + self.offset, width);
            lemma_mul_order(1, position as int, width);
            assert(self.blocks.len() == self.blocks@.len());
        }
        let total: u64 = self.len + self.offset as u64;
        let low: usize = if position == 0 {
            self.offset as usize
        } else {
            0
        };
        let high: usize = if position + 1 == self.block_len() {
            Block::last_block_bits(total)
        } else {
            Block::nbits()
        };
        proof {
            let count = blocks_for((self.len + self.offset) as nat, Block::width()) as int;
            if position + 1 == count {
                assert(position * width + high == total) by (nonlinear_arith)
                    requires
                        total == (total as int / width) * width + total as int % width,
                        total as int % width == 0 ==> position + 1 == total as int / width && high
                            == width,
                        total as int % width != 0 ==> position == total as int / width && high
                            == total as int % width,
                ;
            } else {
                lemma_mul_order(position as int + 1, count - 1, width);
                lemma_mul_order(position as int, position as int, width);
                assert((count - 1) * width < total);
                assert(position * width + high <= total);
            }
            assert(position == 0 ==> low == self.offset);
            assert(position > 0 ==> position * width > self.offset);
        }
        let stored: Block = self.blocks[self.first + position];
        let kept: Block = stored.get_bits(low, high - low);
        let block: Block = kept.shift_left(low);
        proof {
            assert forall|i: int| 0 <= i < width implies #[trigger] block.bit(i) == (self.offset
                <= position * width + i < self.offset + self.len && self.bits()[position * width + i
                - self.offset]) by {
                assert(block.bit(i) == (low <= i && kept.bit(i - low)));
                if low <= i {
                    assert(kept.bit(i - low) == (i - low < high - low && stored.bit(low + (i - low))));
                }
                if self.offset <= position * width + i < self.offset + self.len {
                    lemma_div_mod_unique(position * width + i, width, position as int, i);
                    assert(low <= i < high);
                    assert(self.bits()[position * width + i - self.offset] == stored.bit(i));
                } else {
                    assert(!(low <= i < high));
                }
            }
        }
        block
    }
}

impl<'a, Block: BlockType> BitVec for BitSliceMut<'a, Block> {
    type Block = Block;

    closed spec fn bits(&self) -> Seq<bool> {
        Seq::new(
            self.len as nat,
            |p: int| bit_at(self.blocks@, self.first as int, self.offset as int, p),
        )
    }

    closed spec fn anchor(&self) -> nat {
        self.offset as nat
    }

    closed spec fn inv(&self) -> bool {
        view_fits(self.blocks@, self.first as int, self.offset as int, self.len as int)
    }

    proof fn lemma_inv(&self) {
        assert(self.blocks.len() == self.blocks@.len());
    }

    #[inline]
    fn bit_len(&self) -> (len: u64) {
        self.len
    }

    #[inline]
    fn bit_offset(&self) -> (offset: u8) {
        self.offset
    }

    fn get_bit(&self, position: u64) -> (value: bool) {
        proof {
            Block::lemma_width_bounds();
            lemma_blocks_for((self.len + self.offset) as nat, Block::width());
            let index = position + self.offset;
            assert(index / (Block::width() as int) < blocks_for(
                (self.len + self.offset) as nat,
                Block::width(),
            ));
            assert(self.blocks.len() == self.blocks@.len());
        }
        let address = Address::new::<Block>(position + self.offset as u64);
        let block: Block = self.blocks[self.first + address.block_index];
        block.get_bit(address.bit_offset)
    }
}

impl<'a, Block: BlockType> BitVecMut for BitSliceMut<'a, Block> {
    /// Every bit of the blocks that is no bit of the view, at its place; the
    /// places of the view's own bits are filled with `false`.
    closed spec fn padding(&self) -> Seq<bool> {
        outside_bits(
            self.blocks@,
            self.first * Block::width() + self.offset,
            self.len as int,
        )
    }

    fn set_bit(&mut self, position: u64, value: bool) {
        let ghost width = Block::width() as int;
        proof {
            Block::lemma_width_bounds();
            lemma_blocks_for((self.len + self.offset) as nat, Block::width());
            let index = position + self.offset;
            assert(index / width < blocks_for((self.len + self.offset) as nat, Block::width()));
            assert(self.blocks.len() == self.blocks@.len());
        }
        let address = Address::new::<Block>(position + self.offset as u64);
        let index: usize = self.first + address.block_index;
        let block: Block = self.blocks[index];
        let changed: Block = block.with_bit(address.bit_offset, value);
        self.blocks[index] = changed;
        proof {
            let first = self.first as int;
            let offset = self.offset as int;
            assert(self.blocks@ == old(self).blocks@.update(index as int, changed));
            let after = old(self).bits().update(position as int, value);
            assert forall|p: int| 0 <= p < self.len implies #[trigger] self.bits()[p]
                == after[p] by {
                lemma_div_mod(p + offset, width);
                lemma_div_mod(position + offset, width);
                assert(self.bits()[p] == bit_at(self.blocks@, first, offset, p));
                assert(old(self).bits()[p] == bit_at(old(self).blocks@, first, offset, p));
                lemma_blocks_for((self.len + self.offset) as nat, Block::width());
                assert((p + offset) / width < blocks_for(
                    (self.len + self.offset) as nat,
                    Block::width(),
                ));
            }
            assert(self.bits() =~= old(self).bits().update(position as int, value));
            let before = old(self).padding();
            assert forall|q: int| 0 <= q < before.len() implies #[trigger] self.padding()[q]
                == before[q] by {
                let begin = first * width + offset;
                lemma_div_mod(q, width);
                lemma_div_mod(position + offset, width);
                lemma_mul_order(self.blocks@.len() as int, q / width, width);
                if !(begin <= q < begin + self.len) && q / width == index {
                    assert(q != begin + position);
                    assert(index * width == first * width + address.block_index * width)
                        by (nonlinear_arith)
                        requires
                            index == first + address.block_index,
                    ;
                    assert(q % width != address.bit_offset);
                }
            }
            assert(self.padding() =~= old(self).padding());
        }
    }
}

impl<'a, Block: BlockType> BitSliceable<Range<u64>> for &'a [Block] {
    type Slice = BitSlice<'a, Block>;

    /// The range is in order and ends within the bits of the slice.
    open spec fn sliceable(&self, range: Range<u64>) -> bool {
        self.inv() && range.start <= range.end <= self.bits().len()
    }

    /// The view shows the bits of the range and starts in its first block
    /// where the range starts in its block.
    open spec fn slice_of(&self, range: Range<u64>, slice: BitSlice<'a, Block>) -> bool {
        &&& slice.inv()
        &&& slice.bits() == self.bits().subrange(range.start as int, range.end as int)
        &&& slice.anchor() == range.start as nat % Block::width()
    }

    fn slice(self, range: Range<u64>) -> (slice: BitSlice<'a, Block>) {
        let ghost width = Block::width() as int;
        proof {
            Block::lemma_width_bounds();
            (*self).lemma_inv();
            assert(self.len() == self@.len());
            assert(self.bits().len() == self@.len() * width);
            lemma_whole_blocks(self@.len(), Block::width());
            lemma_view_fits(
                0,
                self.bits().len() as int,
                range.start as int,
                range.end - range.start,
                self@.len() as int,
                width,
            );
            lemma_div_mod(range.start as int, width);
        }
        let first: usize = Block::div_nbits(range.start);
        let offset: u8 = Block::mod_nbits(range.start) as u8;
        let slice = BitSlice { blocks: self, first, offset, len: range.end - range.start };
        proof {
            let len = range.end - range.start;
            let shown = self.bits();
            assert forall|p: int| 0 <= p < len implies #[trigger] slice.bits()[p]
                == shown[range.start + p] by {
                lemma_blocks_ahead(range.start + p, offset + p, first as int, width);
            }
            assert(slice.bits() =~= self.bits().subrange(range.start as int, range.end as int));
        }
        slice
    }
}

impl<'a, Block: BlockType> BitSliceable<Range<u64>> for BitSlice<'a, Block> {
    type Slice = BitSlice<'a, Block>;

    /// The range is in order and ends within the bits of the view.
    open spec fn sliceable(&self, range: Range<u64>) -> bool {
        self.inv() && range.start <= range.end <= self.bits().len()
    }

    /// The new view shows the bits of the range, and starts in its first
    /// block where bit `range.start` of this view lies in its block.
    open spec fn slice_of(&self, range: Range<u64>, slice: BitSlice<'a, Block>) -> bool {
        &&& slice.inv()
        &&& slice.bits() == self.bits().subrange(range.start as int, range.end as int)
        &&& slice.anchor() == (self.anchor() + range.start) as nat % Block::width()
    }

    fn slice(self, range: Range<u64>) -> (slice: BitSlice<'a, Block>) {
        let ghost width = Block::width() as int;
        proof {
            Block::lemma_width_bounds();
            assert(self.blocks.len() == self.blocks@.len());
            lemma_view_fits(
                self.first as int,
                self.len + self.offset,
                self.offset + range.start,
                range.end - range.start,
                self.blocks@.len() as int,
                width,
            );
            lemma_div_mod(self.offset + range.start, width);
        }
        let begin: u64 = self.offset as u64 + range.start;
        let first: usize = self.first + Block::div_nbits(begin);
        let offset: u8 = Block::mod_nbits(begin) as u8;
        let slice = BitSlice { blocks: self.blocks, first, offset, len: range.end - range.start };
        proof {
            let len = range.end - range.start;
            let shown = self.bits();
            assert forall|p: int| 0 <= p < len implies #[trigger] slice.bits()[p]
                == shown[range.start + p] by {
                lemma_blocks_ahead(
                    range.start + p + self.offset,
                    offset + p,
                    first - self.first,
                    width,
                );
            }
            assert(slice.bits() =~= self.bits().subrange(range.start as int, range.end as int));
        }
        slice
    }
}

impl<'a, Block: BlockType> BitSliceable<Range<u64>> for &'a mut [Block] {
    type Slice = BitSliceMut<'a, Block>;

    /// The range is in order and ends within the bits of the slice.
    open spec fn sliceable(&self, range: Range<u64>) -> bool {
        self.inv() && range.start <= range.end <= self.bits().len()
    }

    /// The view shows the bits of the range and starts in its first block
    /// where the range starts in its block.
    open spec fn slice_of(&self, range: Range<u64>, slice: BitSliceMut<'a, Block>) -> bool {
        &&& slice.inv()
        &&& slice.bits() == self.bits().subrange(range.start as int, range.end as int)
        &&& slice.anchor() == range.start as nat % Block::width()
        &&& slice.padding() == outside_bits(
            self@,
            range.start as int,
            range.end - range.start,
        )
    }

    fn slice(self, range: Range<u64>) -> (slice: BitSliceMut<'a, Block>) {
        let ghost width = Block::width() as int;
        let ghost before = self.bits();
        proof {
            Block::lemma_width_bounds();
            (*self).lemma_inv();
            assert(self.len() == self@.len());
            assert(self.bits().len() == self@.len() * width);
            lemma_whole_blocks(self@.len(), Block::width());
            lemma_view_fits(
                0,
                self.bits().len() as int,
                range.start as int,
                range.end - range.start,
                self@.len() as int,
                width,
            );
            lemma_div_mod(range.start as int, width);
        }
        let first: usize = Block::div_nbits(range.start);
        let offset: u8 = Block::mod_nbits(range.start) as u8;
        let slice = BitSliceMut { blocks: self, first, offset, len: range.end - range.start };
        proof {
            let len = range.end - range.start;
            assert forall|p: int| 0 <= p < len implies #[trigger] slice.bits()[p]
                == before[range.start + p] by {
                lemma_blocks_ahead(range.start + p, offset + p, first as int, width);
            }
            assert(slice.bits() =~= before.subrange(range.start as int, range.end as int));
            assert(first * width + offset == range.start);
        }
        slice
    }
}

} // verus!
