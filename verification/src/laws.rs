//! What holds of the bit-vector operations taken together, stated over the
//! sequences of bits that their contracts speak of.

use crate::arith::{bits_to_boundary, lemma_bits_to_boundary};
use crate::storage::{block_is, BlockType};
use crate::traits::{field_shows, with_block, with_field};
use vstd::prelude::*;

verus! {

/// Writing a bit and reading it back: after `set_bit(position, value)`,
/// `get_bit(position)` is `value`, every other bit is what it was, and the
/// length is unchanged.
pub proof fn lemma_set_bit_then_get_bit(bits: Seq<bool>, position: int, value: bool)
    requires
        0 <= position < bits.len(),
    ensures
        bits.update(position, value).len() == bits.len(),
        bits.update(position, value)[position] == value,
        forall|other: int|
            0 <= other < bits.len() && other != position ==> bits.update(position, value)[other]
                == bits[other],
{
}

/// Writing a field and reading it back: after `set_bits(start, count, value)`,
/// what `get_bits(start, count)` returns is `value` cut down to its `count`
/// least significant bits.
pub proof fn lemma_set_bits_then_get_bits<Block: BlockType>(
    bits: Seq<bool>,
    start: int,
    count: int,
    value: Block,
    field: Block,
)
    requires
        0 <= start,
        0 <= count <= Block::width(),
        start + count <= bits.len(),
        field_shows(field, with_field(bits, start, count, value), start, count),
    ensures
        forall|i: int| 0 <= i < Block::width() ==> field.bit(i) == (i < count && value.bit(i)),
{
    assert forall|i: int| 0 <= i < Block::width() implies field.bit(i) == (i < count && value.bit(
        i,
    )) by {
        if i < count {
            let written = with_field(bits, start, count, value);
            assert(written[start + i] == value.bit(start + i - start));
        }
    }
}

/// Writing a field and reading it back, for a value that fits: where `value`
/// has no bit set from `count` on, `get_bits(start, count)` after
/// `set_bits(start, count, value)` returns exactly `value`.
pub proof fn lemma_field_round_trip<Block: BlockType>(
    bits: Seq<bool>,
    start: int,
    count: int,
    value: Block,
    field: Block,
)
    requires
        0 <= start,
        0 <= count <= Block::width(),
        start + count <= bits.len(),
        forall|i: int| count <= i < Block::width() ==> !value.bit(i),
        field_shows(field, with_field(bits, start, count, value), start, count),
    ensures
        field == value,
{
    lemma_set_bits_then_get_bits(bits, start, count, value, field);
    Block::lemma_extensional(field, value);
}

/// Writing a field changes nothing outside it: after
/// `set_bits(start, count, value)` the vector has the length it had, and
/// every bit before `start` or from `start + count` on is what it was.
pub proof fn lemma_set_bits_keeps_the_rest<Block: BlockType>(
    bits: Seq<bool>,
    start: int,
    count: int,
    value: Block,
)
    ensures
        with_field(bits, start, count, value).len() == bits.len(),
        forall|p: int|
            0 <= p < bits.len() && !(start <= p < start + count) ==> with_field(
                bits,
                start,
                count,
                value,
            )[p] == bits[p],
{
}

/// Writing a block changes nothing outside it: after
/// `set_block(position, value)` the vector has the length it had, and every
/// bit that is stored in another block is what it was.
pub proof fn lemma_set_block_keeps_the_rest<Block: BlockType>(
    bits: Seq<bool>,
    anchor: nat,
    position: int,
    value: Block,
)
    ensures
        with_block(bits, anchor, position, value).len() == bits.len(),
        forall|p: int|
            0 <= p < bits.len() && !(position * Block::width() <= p + anchor < position
                * Block::width() + Block::width()) ==> with_block(bits, anchor, position, value)[p]
                == bits[p],
{
}

/// The bits of a vector after the `count` bits from `start` on were set one
/// at a time, lowest first, each to the bit of `value` at its place.
pub open spec fn set_bits_one_by_one<Block: BlockType>(
    bits: Seq<bool>,
    start: int,
    count: nat,
    value: Block,
) -> Seq<bool>
    decreases count,
{
    if count == 0 {
        bits
    } else {
        set_bits_one_by_one(bits, start, (count - 1) as nat, value).update(
            start + count - 1,
            value.bit(count - 1),
        )
    }
}

/// Writing a field, in one block or across two, gives what writing its bits
/// one at a time gives.
pub proof fn lemma_set_bits_is_bitwise<Block: BlockType>(
    bits: Seq<bool>,
    start: int,
    count: nat,
    value: Block,
)
    requires
        0 <= start,
        start + count <= bits.len(),
    ensures
        with_field(bits, start, count as int, value) == set_bits_one_by_one(
            bits,
            start,
            count,
            value,
        ),
    decreases count,
{
    if count > 0 {
        lemma_set_bits_is_bitwise(bits, start, (count - 1) as nat, value);
    }
    assert(with_field(bits, start, count as int, value) =~= set_bits_one_by_one(
        bits,
        start,
        count,
        value,
    ));
}

/// Reading a field, in one block or across two, gives what reading its bits
/// one at a time gives: the field is the range of bits from `start` to
/// `start + count`, as a little-endian integer.
pub proof fn lemma_get_bits_is_bitwise<Block: BlockType>(
    bits: Seq<bool>,
    start: int,
    count: int,
    field: Block,
)
    requires
        0 <= start,
        0 <= count,
        start + count <= bits.len(),
    ensures
        field_shows(field, bits, start, count) <==> block_is(
            field,
            bits.subrange(start, start + count),
        ),
{
    let range = bits.subrange(start, start + count);
    if field_shows(field, bits, start, count) {
        assert forall|i: int| 0 <= i < Block::width() implies #[trigger] field.bit(i) == (i
            < range.len() && range[i]) by {}
    }
    if block_is(field, range) {
        assert forall|i: int| 0 <= i < Block::width() implies #[trigger] field.bit(i) == (i < count
            && bits[start + i]) by {
            if i < count {
                assert(range[i] == bits[start + i]);
            }
        }
    }
}

/// What `align_block` appends: `(W - total % W) % W` bits, fewer than a
/// block, after which the total is a multiple of the width `W`; nothing
/// where it already was one.
pub proof fn lemma_align_block_count(total: nat, width: nat)
    requires
        0 < width,
    ensures
        bits_to_boundary(total, width) == (width - total % width) % (width as int),
        bits_to_boundary(total, width) < width,
        (total + bits_to_boundary(total, width)) % width == 0,
        total % width == 0 ==> bits_to_boundary(total, width) == 0,
{
    lemma_bits_to_boundary(total, width);
}

/// Pushing a bit and popping it again: after `push_bit(value)`, `pop_bit()`
/// returns `value` and leaves the vector as it was before the push.
pub proof fn lemma_push_bit_then_pop_bit(bits: Seq<bool>, value: bool)
    ensures
        bits.push(value).len() == bits.len() + 1,
        bits.push(value).last() == value,
        bits.push(value).drop_last() == bits,
{
    assert(bits.push(value).drop_last() =~= bits);
}

} // verus!
