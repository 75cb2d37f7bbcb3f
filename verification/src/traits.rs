//! The bit-vector interfaces: reading, writing in place, and growing.
//!
//! A bit vector is modelled by the sequence of its bits, `bits()`. In storage
//! the bits are packed into blocks, least significant bit first, and the
//! vector may start `anchor()` bits into its first block: bit `p` of the
//! vector is bit `(p + anchor()) % W` of block `(p + anchor()) / W`, where `W`
//! is the width of a block.

use crate::arith::{
    bits_to_boundary, blocks_for, lemma_bits_to_boundary, lemma_blocks_for, lemma_div_mod,
    lemma_div_mod_unique, lemma_mul_order, lemma_whole_blocks,
};
use crate::convert::u64_to_usize;
use crate::storage::{Address, BlockType};
use vstd::prelude::*;

verus! {

/// `block` is block `position` of a vector with the given bits and anchor:
/// each of its bits that stands for a bit of the vector has that bit's value,
/// and its other bits, which lie before the first bit of the vector or after
/// its last one, are zero.
pub open spec fn block_shows<Block: BlockType>(
    block: Block,
    bits: Seq<bool>,
    anchor: nat,
    position: int,
) -> bool {
    forall|i: int|
        0 <= i < Block::width() ==> #[trigger] block.bit(i) == (anchor <= position * Block::width()
            + i < anchor + bits.len() && bits[position * Block::width() + i - anchor])
}

/// `field` is the `count` bits of `bits` that start at `start`, read as a
/// little-endian integer: bit `i` of `field` is bit `start + i` of the vector
/// for `i < count`, and the bits of `field` from `count` on are zero.
pub open spec fn field_shows<Block: BlockType>(
    field: Block,
    bits: Seq<bool>,
    start: int,
    count: int,
) -> bool {
    forall|i: int|
        0 <= i < Block::width() ==> #[trigger] field.bit(i) == (i < count && bits[start + i])
}

/// Read-only bit vector operations.
///
/// An implementation provides `get_bit`. Where its storage is made of blocks,
/// it should also provide `get_block`, since the provided one assembles a
/// block bit by bit; its `get_bit` can then be a call of `get_bit_from_block`.
pub trait BitVec {
    /// The underlying block type used to store the bits of the vector.
    type Block: BlockType;

    /// The bits of the vector, in order.
    spec fn bits(&self) -> Seq<bool>;

    /// The number of bits into the first block that the vector starts.
    spec fn anchor(&self) -> nat;

    /// What the implementation needs to hold of a value. Every operation
    /// requires it and every operation that changes the vector keeps it.
    spec fn inv(&self) -> bool;

    /// A valid vector starts inside its first block, and its length in bits
    /// and in blocks can be counted in `u64` and `usize`.
    proof fn lemma_inv(&self)
        requires
            self.inv(),
        ensures
            self.anchor() < Self::Block::width(),
            self.bits().len() + self.anchor() <= u64::MAX,
            blocks_for(self.bits().len() + self.anchor(), Self::Block::width()) <= usize::MAX,
    ;

    /// The length of the slice in bits.
    fn bit_len(&self) -> (len: u64)
        requires
            self.inv(),
        ensures
            len == self.bits().len(),
    ;

    /// The number of bits into the first block that the bit vector starts.
    /// Less than `Block::nbits()`.
    fn bit_offset(&self) -> (offset: u8)
        requires
            self.inv(),
        ensures
            offset == self.anchor(),
    ;

    /// The length of the slice in blocks.
    fn block_len(&self) -> (len: usize)
        requires
            self.inv(),
        ensures
            len == blocks_for(self.bits().len() + self.anchor(), Self::Block::width()),
    {
        proof {
            self.lemma_inv();
        }
        Self::Block::ceil_div_nbits(self.bit_len() + self.bit_offset() as u64)
    }

    /// Gets the bit at `position`.
    fn get_bit(&self, position: u64) -> (value: bool)
        requires
            self.inv(),
            position < self.bits().len(),
        ensures
            value == self.bits()[position as int],
    ;

    /// Gets the bit at `position` by fetching the block that holds it and
    /// masking out the bit.
    fn get_bit_from_block(&self, position: u64) -> (value: bool)
        requires
            self.inv(),
            position < self.bits().len(),
        ensures
            value == self.bits()[position as int],
    {
        proof {
            self.lemma_inv();
            Self::Block::lemma_width_bounds();
            lemma_blocks_for(self.bits().len() + self.anchor(), Self::Block::width());
            let index = position + self.anchor();
            assert(index / (Self::Block::width() as int) < blocks_for(
                self.bits().len() + self.anchor(),
                Self::Block::width(),
            ));
        }
        let address = Address::new::<Self::Block>(position + self.bit_offset() as u64);
        let block = self.get_block(address.block_index);
        block.get_bit(address.bit_offset)
    }

    /// Gets the block at `position`.
    ///
    /// The bits are laid out `Block::nbits()` per block, with the notional
    /// zeroth bit in the least significant position. The first block holds
    /// `bit_offset()` bits before the first bit of the vector, and if
    /// `bit_len() + bit_offset()` is not a multiple of `Block::nbits()` the
    /// last block holds bits after the last bit of the vector. Those bits are
    /// not part of the vector, and are zero in the block that is returned.
    ///
    /// The provided implementation assembles a block by reading each of its
    /// bits. Consider it a slow reference implementation, and override it.
    fn get_block(&self, position: usize) -> (block: Self::Block)
        requires
            self.inv(),
            position < blocks_for(self.bits().len() + self.anchor(), Self::Block::width()),
        ensures
            block_shows(block, self.bits(), self.anchor(), position as int),
    {
        proof {
            self.lemma_inv();
            Self::Block::lemma_width_bounds();
            lemma_blocks_for(self.bits().len() + self.anchor(), Self::Block::width());
            assert(position * Self::Block::width() < self.bits().len() + self.anchor());
        }
        let nbits: u64 = Self::Block::nbits() as u64;
        let bit_offset: u64 = self.bit_offset() as u64;
        let bit_len: u64 = self.bit_len();
        let bit_position: u64 = position as u64 * nbits;
        let room: u64 = bit_len + bit_offset - bit_position;

        let mut result: Self::Block = Self::Block::zero();
        let mut mask: Self::Block = Self::Block::one();
        let mut i: u64 = 0;

        while i < nbits
            invariant
                self.inv(),
                nbits == Self::Block::width(),
                0 < nbits <= 128,
                bit_offset == self.anchor(),
                bit_len == self.bits().len(),
                bit_position == position * Self::Block::width(),
                bit_position + room == bit_len + bit_offset,
                bit_len + bit_offset <= u64::MAX,
                i <= nbits,
                forall|j: int| 0 <= j < nbits ==> #[trigger] mask.bit(j) == (j == i),
                forall|j: int|
                    0 <= j < nbits ==> #[trigger] result.bit(j) == (j < i && bit_offset
                        <= bit_position + j < bit_offset + bit_len && self.bits()[bit_position + j
                        - bit_offset]),
            decreases nbits - i,
        {
            if i < room && bit_position + i >= bit_offset && self.get_bit(
                bit_position + i - bit_offset,
            ) {
                result = result.bit_or(mask);
            }
            mask = mask.shift_left(1);
            i = i + 1;
        }

        result
    }

    /// Gets `count` bits starting at bit index `start`, interpreted as a
    /// little-endian integer. The field may span two blocks.
    fn get_bits(&self, start: u64, count: usize) -> (field: Self::Block)
        requires
            self.inv(),
            count <= Self::Block::width(),
            start + count <= self.bits().len(),
        ensures
            field_shows(field, self.bits(), start as int, count as int),
    {
        if count == 0 {
            return Self::Block::zero();
        }
        proof {
            self.lemma_inv();
            Self::Block::lemma_width_bounds();
            lemma_blocks_for(self.bits().len() + self.anchor(), Self::Block::width());
            let first = start + self.anchor();
            let last = start + count - 1 + self.anchor();
            assert(first / (Self::Block::width() as int) < blocks_for(
                self.bits().len() + self.anchor(),
                Self::Block::width(),
            ));
            assert(last / (Self::Block::width() as int) < blocks_for(
                self.bits().len() + self.anchor(),
                Self::Block::width(),
            ));
        }
        let address = Address::new::<Self::Block>(start + self.bit_offset() as u64);
        let margin: usize = Self::Block::nbits() - address.bit_offset;

        if margin >= count {
            let block = self.get_block(address.block_index);
            return block.get_bits(address.bit_offset, count);
        }
        let extra: usize = count - margin;

        proof {
            let width = Self::Block::width() as int;
            let last = start + count - 1 + self.anchor();
            lemma_mul_order(address.block_index as int, address.block_index as int, width);
            lemma_div_mod_unique(last, width, address.block_index + 1, extra - 1);
        }
        let block1 = self.get_block(address.block_index);
        let block2 = self.get_block(address.block_index + 1);

        let low_bits = block1.get_bits(address.bit_offset, margin);
        let high_bits = block2.get_bits(0, extra);

        let shifted = high_bits.shift_left(margin);
        let field = shifted.bit_or(low_bits);
        proof {
            let width = Self::Block::width() as int;
            lemma_mul_order(address.block_index as int, address.block_index as int, width);
            assert forall|i: int| 0 <= i < width implies #[trigger] field.bit(i) == (i < count
                && self.bits()[start + i]) by {
                assert(field.bit(i) == (shifted.bit(i) || low_bits.bit(i)));
                if i < margin {
                    assert(low_bits.bit(i) == block1.bit(address.bit_offset + i));
                } else {
                    assert(!low_bits.bit(i));
                    assert(high_bits.bit(i - margin) == (i - margin < extra && block2.bit(
                        i - margin,
                    )));
                }
            }
        }
        field
    }
}

impl<Block: BlockType> BitVec for [Block] {
    type Block = Block;

    /// Bit `i` of block `k` is bit `k * W + i` of the vector.
    open spec fn bits(&self) -> Seq<bool> {
        Seq::new(
            self@.len() * Block::width(),
            |p: int| self@[p / Block::width() as int].bit(p % Block::width() as int),
        )
    }

    open spec fn anchor(&self) -> nat {
        0
    }

    /// The number of bits can be counted in `u64`.
    open spec fn inv(&self) -> bool {
        self@.len() * Block::width() <= u64::MAX
    }

    proof fn lemma_inv(&self) {
        Block::lemma_width_bounds();
        lemma_whole_blocks(self@.len(), Block::width());
        assert(self.len() == self@.len());
        assert(self.anchor() == 0);
        assert(self.bits().len() == self@.len() * Block::width());
    }

    #[inline]
    fn bit_len(&self) -> (len: u64) {
        proof {
            Block::lemma_width_bounds();
        }
        self.len() as u64 * Block::nbits() as u64
    }

    #[inline]
    fn bit_offset(&self) -> (offset: u8) {
        0
    }

    #[inline]
    fn block_len(&self) -> (len: usize) {
        proof {
            Block::lemma_width_bounds();
            lemma_whole_blocks(self@.len(), Block::width());
        }
        self.len()
    }

    #[inline]
    fn get_bit(&self, position: u64) -> (value: bool) {
        self.get_bit_from_block(position)
    }

    #[inline]
    fn get_block(&self, position: usize) -> (block: Block) {
        proof {
            let width = Block::width() as int;
            let count = self@.len() as int;
            Block::lemma_width_bounds();
            lemma_whole_blocks(self@.len(), Block::width());
            assert(self.anchor() == 0);
            assert(self.bits().len() == count * width);
            assert forall|i: int| 0 <= i < width implies #[trigger] self@[position as int].bit(i)
                == (position * width + i < count * width && self.bits()[position * width + i]) by {
                lemma_mul_order(position as int, count - 1, width);
                lemma_mul_order(count - 1, count, width);
                lemma_div_mod_unique(position * width + i, width, position as int, i);
            }
        }
        self[position]
    }
}

impl BitVec for Vec<bool> {
    /// A vector of `bool`s has no blocks of its own; the ones it hands out
    /// are assembled from its bits, eight at a time.
    type Block = u8;

    open spec fn bits(&self) -> Seq<bool> {
        self@
    }

    open spec fn anchor(&self) -> nat {
        0
    }

    open spec fn inv(&self) -> bool {
        true
    }

    proof fn lemma_inv(&self) {
        assert(self.len() == self@.len());
        lemma_div_mod(self@.len() as int, 8);
    }

    #[inline]
    fn bit_len(&self) -> (len: u64) {
        self.len() as u64
    }

    #[inline]
    fn bit_offset(&self) -> (offset: u8) {
        0
    }

    fn get_bit(&self, position: u64) -> (value: bool) {
        assert(self.len() == self@.len());
        match u64_to_usize(position) {
            Some(index) => self[index],
            None => vstd::pervasive::unreached(),
        }
    }
}

/// Whether the least significant bit of `value` is set.
fn low_bit<Block: BlockType>(value: Block) -> (bit: bool)
    ensures
        bit == value.bit(0),
{
    let low: Block = value.bit_and(Block::one());
    let zero: Block = Block::zero();
    proof {
        Block::lemma_width_bounds();
        if value.bit(0) {
            assert(low.bit(0));
            assert(!zero.bit(0));
        } else {
            assert forall|i: int| 0 <= i < Block::width() implies low.bit(i) == zero.bit(i) by {}
            Block::lemma_extensional(low, zero);
        }
    }
    !low.equals(zero)
}

/// The bits of a vector after block `position` was set to `value`: each bit
/// of the vector that is stored in that block has the value of the bit of
/// `value` at its place, and every other bit is as it was.
pub open spec fn with_block<Block: BlockType>(
    bits: Seq<bool>,
    anchor: nat,
    position: int,
    value: Block,
) -> Seq<bool> {
    Seq::new(
        bits.len(),
        |p: int|
            if position * Block::width() <= p + anchor < position * Block::width()
                + Block::width() {
                value.bit(p + anchor - position * Block::width())
            } else {
                bits[p]
            },
    )
}

/// The bits of a vector after the `count` bits from `start` on were set to
/// the `count` least significant bits of `value`: bit `start + i` has the
/// value of bit `i` of `value`, and every other bit is as it was.
pub open spec fn with_field<Block: BlockType>(
    bits: Seq<bool>,
    start: int,
    count: int,
    value: Block,
) -> Seq<bool> {
    Seq::new(
        bits.len(),
        |p: int|
            if start <= p < start + count {
                value.bit(p - start)
            } else {
                bits[p]
            },
    )
}

/// Mutable bit vector operations that don't affect the length.
///
/// An implementation provides `set_bit`. Where its storage is made of blocks,
/// it should also provide `set_block`, since the provided one sets a block
/// bit by bit; its `set_bit` can then be a call of `set_bit_in_block`.
pub trait BitVecMut: BitVec {
    /// The bits of the storage that are no bits of the vector: the
    /// `bit_offset()` bits of the first block before the vector's first bit,
    /// and the bits of the last block after its last bit. No operation of
    /// this trait changes them. A vector without such bits has none.
    spec fn padding(&self) -> Seq<bool>;

    /// Sets the bit at `position` to `value`.
    fn set_bit(&mut self, position: u64, value: bool)
        requires
            old(self).inv(),
            position < old(self).bits().len(),
        ensures
            final(self).inv(),
            final(self).anchor() == old(self).anchor(),
            final(self).padding() == old(self).padding(),
            final(self).bits() == old(self).bits().update(position as int, value),
    ;

    /// Sets the bit at `position` to `value` by fetching the block that
    /// holds it, replacing the bit, and storing the block.
    fn set_bit_in_block(&mut self, position: u64, value: bool)
        requires
            old(self).inv(),
            position < old(self).bits().len(),
        ensures
            final(self).inv(),
            final(self).anchor() == old(self).anchor(),
            final(self).padding() == old(self).padding(),
            final(self).bits() == old(self).bits().update(position as int, value),
    {
        proof {
            self.lemma_inv();
            Self::Block::lemma_width_bounds();
            lemma_blocks_for(self.bits().len() + self.anchor(), Self::Block::width());
            let index = position + self.anchor();
            assert(index / (Self::Block::width() as int) < blocks_for(
                self.bits().len() + self.anchor(),
                Self::Block::width(),
            ));
        }
        let address = Address::new::<Self::Block>(position + self.bit_offset() as u64);
        let old_block = self.get_block(address.block_index);
        let new_block = old_block.with_bit(address.bit_offset, value);
        self.set_block(address.block_index, new_block);
        proof {
            let width = Self::Block::width() as int;
            let base = address.block_index * width;
            let anchor = old(self).anchor() as int;
            let after = old(self).bits().update(position as int, value);
            assert forall|p: int| 0 <= p < self.bits().len() implies self.bits()[p] == after[p] by {
                if base <= p + anchor < base + width {
                    assert(new_block.bit(p + anchor - base) == if p + anchor - base
                        == address.bit_offset {
                        value
                    } else {
                        old_block.bit(p + anchor - base)
                    });
                }
            }
            assert(self.bits() =~= old(self).bits().update(position as int, value));
        }
    }

    /// Sets the block at `position` to `value`.
    ///
    /// The bits are laid out `Block::nbits()` per block, with the notional
    /// zeroth bit in the least significant position. Only the bits of the
    /// block that are bits of the vector are set: the `bit_offset()` bits of
    /// the first block before the vector's first bit, and the bits of the
    /// last block after its last bit, stay as they are.
    ///
    /// The provided implementation sets a block by setting each of its bits
    /// in turn. Consider it a slow reference implementation, and override it.
    fn set_block(&mut self, position: usize, value: Self::Block)
        requires
            old(self).inv(),
            position < blocks_for(
                old(self).bits().len() + old(self).anchor(),
                Self::Block::width(),
            ),
        ensures
            final(self).inv(),
            final(self).anchor() == old(self).anchor(),
            final(self).padding() == old(self).padding(),
            final(self).bits() == with_block(
                old(self).bits(),
                old(self).anchor(),
                position as int,
                value,
            ),
    {
        proof {
            self.lemma_inv();
            Self::Block::lemma_width_bounds();
            lemma_blocks_for(self.bits().len() + self.anchor(), Self::Block::width());
            lemma_div_mod(
                (self.bits().len() + self.anchor()) as int,
                Self::Block::width() as int,
            );
            lemma_mul_order(position as int, position as int, Self::Block::width() as int);
            lemma_mul_order(1, position as int, Self::Block::width() as int);
            assert(position * Self::Block::width() < self.bits().len() + self.anchor());
        }
        let mut value: Self::Block = value;
        let ghost written = value;
        let bit_offset: u64 = self.bit_offset() as u64;
        let total: u64 = self.bit_len() + bit_offset;

        let start: u64 = if position == 0 && bit_offset > 0 {
            value = value.shift_right(bit_offset as usize);
            bit_offset
        } else {
            0
        };

        let limit: usize = if position + 1 == self.block_len() {
            Self::Block::last_block_bits(total)
        } else {
            Self::Block::nbits()
        };

        let offset: u64 = Self::Block::mul_nbits(position);
        proof {
            let width = Self::Block::width() as int;
            if position + 1 == blocks_for(
                self.bits().len() + self.anchor(),
                Self::Block::width(),
            ) {
                assert(offset + limit == total) by (nonlinear_arith)
                    requires
                        total == (total as int / width) * width + total as int % width,
                        offset == position * width,
                        total as int % width == 0 ==> position + 1 == total as int / width && limit
                            == width,
                        total as int % width != 0 ==> position == total as int / width && limit
                            == total as int % width,
                ;
            } else {
                lemma_mul_order(
                    position as int + 1,
                    blocks_for(self.bits().len() + self.anchor(), Self::Block::width()) - 1,
                    width,
                );
                assert(offset + limit <= total);
            }
        }

        let mut i: u64 = start;
        while i < limit as u64
            invariant
                self.inv(),
                self.anchor() == old(self).anchor(),
                self.padding() == old(self).padding(),
                self.bits().len() == old(self).bits().len(),
                bit_offset == self.anchor(),
                total == self.bits().len() + self.anchor(),
                offset == position * Self::Block::width(),
                limit <= Self::Block::width() <= 128,
                offset + limit <= total,
                start <= i,
                start < limit ==> i <= limit,
                start == if position == 0 {
                    bit_offset
                } else {
                    0
                },
                position > 0 ==> offset >= bit_offset,
                forall|j: int|
                    0 <= j < Self::Block::width() ==> #[trigger] value.bit(j) == (j + i
                        < Self::Block::width() && written.bit(j + i)),
                forall|p: int|
                    0 <= p < self.bits().len() ==> #[trigger] self.bits()[p] == if offset + start
                        <= p + bit_offset < offset + i {
                        written.bit(p + bit_offset - offset)
                    } else {
                        old(self).bits()[p]
                    },
            decreases limit - i,
        {
            let bit: bool = low_bit(value);
            self.set_bit(offset + i - bit_offset, bit);
            value = value.shift_right(1);
            i = i + 1;
        }
        proof {
            assert(self.bits() =~= with_block(
                old(self).bits(),
                old(self).anchor(),
                position as int,
                written,
            ));
        }
    }

    /// Sets `count` bits starting at bit index `start`, interpreted as a
    /// little-endian integer. The field may span two blocks. Bits of `value`
    /// from `count` on are ignored.
    fn set_bits(&mut self, start: u64, count: usize, value: Self::Block)
        requires
            old(self).inv(),
            count <= Self::Block::width(),
            start + count <= old(self).bits().len(),
        ensures
            final(self).inv(),
            final(self).anchor() == old(self).anchor(),
            final(self).padding() == old(self).padding(),
            final(self).bits() == with_field(old(self).bits(), start as int, count as int, value),
    {
        if count == 0 {
            proof {
                assert(self.bits() =~= with_field(self.bits(), start as int, 0, value));
            }
            return ;
        }
        proof {
            self.lemma_inv();
            Self::Block::lemma_width_bounds();
            lemma_blocks_for(self.bits().len() + self.anchor(), Self::Block::width());
            let first = start + self.anchor();
            let last = start + count - 1 + self.anchor();
            assert(first / (Self::Block::width() as int) < blocks_for(
                self.bits().len() + self.anchor(),
                Self::Block::width(),
            ));
            assert(last / (Self::Block::width() as int) < blocks_for(
                self.bits().len() + self.anchor(),
                Self::Block::width(),
            ));
        }
        let address = Address::new::<Self::Block>(start + self.bit_offset() as u64);
        let margin: usize = Self::Block::nbits() - address.bit_offset;
        let ghost width = Self::Block::width() as int;
        let ghost anchor = self.anchor() as int;
        let ghost base = address.block_index * width;

        if margin >= count {
            let old_block = self.get_block(address.block_index);
            let new_block = old_block.with_bits(address.bit_offset, count, value);
            self.set_block(address.block_index, new_block);
            proof {
                assert forall|p: int| 0 <= p < self.bits().len() implies self.bits()[p]
                    == with_field(old(self).bits(), start as int, count as int, value)[p] by {
                    if base <= p + anchor < base + width {
                        assert(new_block.bit(p + anchor - base) == if address.bit_offset <= p
                            + anchor - base < address.bit_offset + count {
                            value.bit(p + anchor - base - address.bit_offset)
                        } else {
                            old_block.bit(p + anchor - base)
                        });
                    }
                }
                assert(self.bits() =~= with_field(
                    old(self).bits(),
                    start as int,
                    count as int,
                    value,
                ));
            }
            return ;
        }
        let extra: usize = count - margin;

        proof {
            let last = start + count - 1 + self.anchor();
            lemma_mul_order(address.block_index as int, address.block_index as int, width);
            lemma_div_mod_unique(last, width, address.block_index + 1, extra - 1);
        }
        let old_block1 = self.get_block(address.block_index);
        let old_block2 = self.get_block(address.block_index + 1);

        let high_bits = value.shift_right(margin);

        let new_block1 = old_block1.with_bits(address.bit_offset, margin, value);
        let new_block2 = old_block2.with_bits(0, extra, high_bits);
        self.set_block(address.block_index, new_block1);
        let ghost middle = self.bits();
        self.set_block(address.block_index + 1, new_block2);
        proof {
            assert forall|p: int| 0 <= p < self.bits().len() implies self.bits()[p] == with_field(
                old(self).bits(),
                start as int,
                count as int,
                value,
            )[p] by {
                if base <= p + anchor < base + width {
                    assert(new_block1.bit(p + anchor - base) == if address.bit_offset <= p + anchor
                        - base < address.bit_offset + margin {
                        value.bit(p + anchor - base - address.bit_offset)
                    } else {
                        old_block1.bit(p + anchor - base)
                    });
                    assert(self.bits()[p] == middle[p]);
                } else if base + width <= p + anchor < base + width + width {
                    let i = p + anchor - base - width;
                    assert((address.block_index + 1) * width == base + width) by (nonlinear_arith)
                        requires
                            base == address.block_index * width,
                    ;
                    assert(new_block2.bit(i) == if 0 <= i < extra {
                        high_bits.bit(i)
                    } else {
                        old_block2.bit(i)
                    });
                    assert(middle[p] == old(self).bits()[p]);
                } else {
                    assert((address.block_index + 1) * width == base + width) by (nonlinear_arith)
                        requires
                            base == address.block_index * width,
                    ;
                    assert(middle[p] == old(self).bits()[p]);
                }
            }
            assert(self.bits() =~= with_field(
                old(self).bits(),
                start as int,
                count as int,
                value,
            ));
        }
    }
}

impl<Block: BlockType> BitVecMut for [Block] {
    /// A slice of blocks is all bits of the vector.
    open spec fn padding(&self) -> Seq<bool> {
        Seq::empty()
    }

    #[inline]
    fn set_bit(&mut self, position: u64, value: bool) {
        self.set_bit_in_block(position, value)
    }

    #[inline]
    fn set_block(&mut self, position: usize, value: Block) {
        proof {
            Block::lemma_width_bounds();
            lemma_whole_blocks(self@.len(), Block::width());
            assert(self.len() == self@.len());
            assert(self.anchor() == 0);
        }
        self[position] = value;
        proof {
            let width = Block::width() as int;
            assert(self.anchor() == 0);
            assert(self.padding() == old(self).padding());
            assert forall|p: int| 0 <= p < self.bits().len() implies self.bits()[p] == with_block(
                old(self).bits(),
                0,
                position as int,
                value,
            )[p] by {
                lemma_div_mod(p, width);
                lemma_mul_order(self@.len() as int, p / width, width);
                assert(self@ == old(self)@.update(position as int, value));
                assert(self.bits()[p] == self@[p / width].bit(p % width));
                assert(old(self).bits()[p] == old(self)@[p / width].bit(p % width));
                if position * width <= p < position * width + width {
                    lemma_div_mod_unique(p, width, position as int, p - position * width);
                } else {
                    lemma_mul_order(p / width, position as int, width);
                    lemma_mul_order(position as int, p / width, width);
                }
            }
            assert(self.bits() =~= with_block(old(self).bits(), 0, position as int, value));
        }
    }
}

impl BitVecMut for Vec<bool> {
    /// A vector of `bool`s stores nothing but its bits.
    open spec fn padding(&self) -> Seq<bool> {
        Seq::empty()
    }

    fn set_bit(&mut self, position: u64, value: bool) {
        assert(self.len() == self@.len());
        match u64_to_usize(position) {
            Some(index) => {
                self[index] = value;
            },
            None => vstd::pervasive::unreached(),
        }
    }
}

/// Bit vector operations that change the length.
pub trait BitVecPush: BitVecMut {
    /// Adds the given bit to the end of the bit vector.
    fn push_bit(&mut self, value: bool)
        requires
            old(self).inv(),
            old(self).bits().len() + old(self).anchor() < u64::MAX,
        ensures
            final(self).inv(),
            final(self).anchor() == old(self).anchor(),
            final(self).bits() == old(self).bits().push(value),
    ;

    /// Removes and returns the last bit, if any.
    fn pop_bit(&mut self) -> (popped: Option<bool>)
        requires
            old(self).inv(),
        ensures
            final(self).inv(),
            final(self).anchor() == old(self).anchor(),
            old(self).bits().len() == 0 ==> popped.is_none(),
            old(self).bits().len() == 0 ==> final(self).bits() == old(self).bits(),
            old(self).bits().len() > 0 ==> popped == Some(old(self).bits().last()),
            old(self).bits().len() > 0 ==> final(self).bits() == old(self).bits().drop_last(),
    ;

    /// Pushes `value` 0 or more times until the size of the bit
    /// vector is block-aligned.
    fn align_block(&mut self, value: bool)
        requires
            old(self).inv(),
            old(self).bits().len() + old(self).anchor() + bits_to_boundary(
                old(self).bits().len() + old(self).anchor(),
                Self::Block::width(),
            ) <= u64::MAX,
        ensures
            final(self).inv(),
            final(self).anchor() == old(self).anchor(),
            (final(self).bits().len() + final(self).anchor()) % Self::Block::width() == 0,
            final(self).bits() == old(self).bits() + Seq::new(
                bits_to_boundary(
                    old(self).bits().len() + old(self).anchor(),
                    Self::Block::width(),
                ),
                |i: int| value,
            ),
    {
        let ghost width = Self::Block::width();
        let ghost missing = bits_to_boundary(self.bits().len() + self.anchor(), width);
        proof {
            Self::Block::lemma_width_bounds();
            self.lemma_inv();
            lemma_bits_to_boundary(self.bits().len() + self.anchor(), width);
            assert(self.bits() =~= old(self).bits() + Seq::new(0, |i: int| value));
        }
        while Self::Block::mod_nbits(self.bit_len() + self.bit_offset() as u64) != 0
            invariant
                self.inv(),
                self.anchor() == old(self).anchor(),
                width == Self::Block::width(),
                0 < width,
                self.bits().len() + self.anchor() <= u64::MAX,
                missing == bits_to_boundary(old(self).bits().len() + old(self).anchor(), width),
                self.bits().len() + bits_to_boundary(self.bits().len() + self.anchor(), width)
                    == old(self).bits().len() + missing,
                old(self).bits().len() + old(self).anchor() + missing <= u64::MAX,
                self.bits() == old(self).bits() + Seq::new(
                    (self.bits().len() - old(self).bits().len()) as nat,
                    |i: int| value,
                ),
            decreases bits_to_boundary(self.bits().len() + self.anchor(), width),
        {
            proof {
                lemma_bits_to_boundary(self.bits().len() + self.anchor(), width);
            }
            self.push_bit(value);
            proof {
                self.lemma_inv();
                lemma_bits_to_boundary(self.bits().len() + self.anchor(), width);
                assert(self.bits() =~= old(self).bits() + Seq::new(
                    (self.bits().len() - old(self).bits().len()) as nat,
                    |i: int| value,
                ));
            }
        }
        proof {
            lemma_bits_to_boundary(self.bits().len() + self.anchor(), width);
        }
    }

    /// Pushes the given block onto the end of the bit vector.
    ///
    /// If the end of the bit vector is not currently block-aligned,
    /// it pads with 0s up to the next block before pushing.
    ///
    /// The provided implementation pushes the block one bit at a time;
    /// override it with something more efficient.
    fn push_block(&mut self, value: Self::Block)
        requires
            old(self).inv(),
            old(self).bits().len() + old(self).anchor() + bits_to_boundary(
                old(self).bits().len() + old(self).anchor(),
                Self::Block::width(),
            ) + Self::Block::width() <= u64::MAX,
        ensures
            final(self).inv(),
            final(self).anchor() == old(self).anchor(),
            final(self).bits() == old(self).bits() + Seq::new(
                bits_to_boundary(
                    old(self).bits().len() + old(self).anchor(),
                    Self::Block::width(),
                ),
                |i: int| false,
            ) + Seq::new(Self::Block::width(), |i: int| value.bit(i)),
    {
        let mut value: Self::Block = value;
        let ghost pushed = value;
        self.align_block(false);
        let ghost aligned = self.bits();
        proof {
            Self::Block::lemma_width_bounds();
            assert(self.bits() =~= aligned + Seq::new(0, |i: int| pushed.bit(i)));
        }

        let nbits: usize = Self::Block::nbits();
        let mut i: usize = 0;
        while i < nbits
            invariant
                self.inv(),
                self.anchor() == old(self).anchor(),
                nbits == Self::Block::width(),
                i <= nbits,
                aligned.len() + self.anchor() + nbits <= u64::MAX,
                self.bits() == aligned + Seq::new(i as nat, |j: int| pushed.bit(j)),
                forall|j: int|
                    0 <= j < Self::Block::width() ==> #[trigger] value.bit(j) == (j + i
                        < Self::Block::width() && pushed.bit(j + i)),
            decreases nbits - i,
        {
            self.push_bit(low_bit(value));
            value = value.shift_right(1);
            proof {
                assert(self.bits() =~= aligned + Seq::new((i + 1) as nat, |j: int| pushed.bit(j)));
            }
            i = i + 1;
        }
    }
}

/// Types that support (re-)slicing by ranges.
///
/// What a range means depends on its type, so an implementation says which
/// ranges it takes and what the slice is.
pub trait BitSliceable<Range> {
    /// The type of the slice.
    type Slice;

    /// Whether `range` lies within the object, so that `slice` takes it.
    spec fn sliceable(&self, range: Range) -> bool;

    /// Whether `slice` is the part of the object that `range` selects.
    spec fn slice_of(&self, range: Range, slice: Self::Slice) -> bool;

    /// (Re-)slices the given object.
    fn slice(self, range: Range) -> (slice: Self::Slice)
        requires
            self.sliceable(range),
        ensures
            self.slice_of(range, slice),
    ;
}

impl BitVecPush for Vec<bool> {
    fn push_bit(&mut self, value: bool) {
        self.push(value);
    }

    fn pop_bit(&mut self) -> (popped: Option<bool>) {
        self.pop()
    }
}

} // verus!
