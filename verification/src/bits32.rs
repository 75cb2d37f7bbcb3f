//! `u32` as a block of 32 bits.

use crate::storage::BlockType;
use vstd::prelude::*;

verus! {

/// Whether bit `index` of `block` is set.
pub open spec fn u32_bit(block: u32, index: u32) -> bool {
    (block >> index) & 1u32 == 1u32
}

proof fn lemma_u32_logic(a: u32, b: u32, i: u32)
    by (bit_vector)
    requires
        i < 32,
    ensures
        u32_bit(a & b, i) == (u32_bit(a, i) && u32_bit(b, i)),
        u32_bit(a | b, i) == (u32_bit(a, i) || u32_bit(b, i)),
        u32_bit(!a, i) == !u32_bit(a, i),
        !u32_bit(0u32, i),
        u32_bit(1u32, i) == (i == 0),
{
}

proof fn lemma_u32_shift(a: u32, n: u32, i: u32)
    by (bit_vector)
    requires
        i < 32,
        n < 32,
    ensures
        u32_bit(a << n, i) == (i >= n && u32_bit(a, (i - n) as u32)),
        u32_bit(a >> n, i) == (i + n < 32 && u32_bit(a, (i + n) as u32)),
{
}

proof fn lemma_u32_differ_step(a: u32, b: u32, k: u32)
    by (bit_vector)
    requires
        k < 32,
    ensures
        (a >> k) != (b >> k) ==> u32_bit(a, k) != u32_bit(b, k) || (k + 1 < 32 && (a >> (
            (k + 1) as u32
        )) != (b >> ((k + 1) as u32))),
        (a >> 0u32) == a,
{
}

/// Two blocks that differ from bit `k` upwards differ in one bit at or above
/// `k`; the result is its index.
proof fn lemma_u32_differ(a: u32, b: u32, k: u32) -> (i: u32)
    requires
        k < 32,
        (a >> k) != (b >> k),
    ensures
        k <= i < 32,
        u32_bit(a, i) != u32_bit(b, i),
    decreases 32 - k,
{
    lemma_u32_differ_step(a, b, k);
    if u32_bit(a, k) != u32_bit(b, k) {
        k
    } else {
        lemma_u32_differ(a, b, (k + 1) as u32)
    }
}

/// `<u32 as num_traits::Zero>::zero`: returns the additive identity of
/// `u32`, the number 0.
#[verifier::external_body]
fn u32_zero() -> (zero: u32)
    ensures
        zero == 0,
{
    <u32 as num_traits::Zero>::zero()
}

/// `<u32 as num_traits::One>::one`: returns the multiplicative identity of
/// `u32`, the number 1.
#[verifier::external_body]
fn u32_one() -> (one: u32)
    ensures
        one == 1,
{
    <u32 as num_traits::One>::one()
}

impl BlockType for u32 {
    open spec fn width() -> nat {
        32
    }

    open spec fn bit(self, index: int) -> bool {
        0 <= index < 32 && u32_bit(self, index as u32)
    }

    proof fn lemma_width_bounds() {
    }

    proof fn lemma_extensional(a: Self, b: Self) {
        if a != b {
            lemma_u32_differ_step(a, b, 0);
            lemma_u32_differ_step(b, a, 0);
            let i = lemma_u32_differ(a, b, 0);
            assert(a.bit(i as int) == b.bit(i as int));
        }
    }

    fn nbits() -> (n: usize) {
        32
    }

    fn zero() -> (block: Self) {
        let block: u32 = u32_zero();
        proof {
            assert forall|i: int| 0 <= i < 32 implies !#[trigger] block.bit(i) by {
                lemma_u32_logic(0, 0, i as u32);
            }
        }
        block
    }

    fn one() -> (block: Self) {
        let block: u32 = u32_one();
        proof {
            assert forall|i: int| 0 <= i < 32 implies #[trigger] block.bit(i) == (i == 0) by {
                lemma_u32_logic(0, 0, i as u32);
            }
        }
        block
    }

    fn equals(self, other: Self) -> (same: bool) {
        self == other
    }

    fn bit_and(self, other: Self) -> (block: Self) {
        let block: u32 = self & other;
        proof {
            assert forall|i: int| 0 <= i < 32 implies #[trigger] block.bit(i) == (self.bit(i)
                && other.bit(i)) by {
                lemma_u32_logic(self, other, i as u32);
            }
        }
        block
    }

    fn bit_or(self, other: Self) -> (block: Self) {
        let block: u32 = self | other;
        proof {
            assert forall|i: int| 0 <= i < 32 implies #[trigger] block.bit(i) == (self.bit(i)
                || other.bit(i)) by {
                lemma_u32_logic(self, other, i as u32);
            }
        }
        block
    }

    fn bit_not(self) -> (block: Self) {
        let block: u32 = !self;
        proof {
            assert forall|i: int| 0 <= i < 32 implies #[trigger] block.bit(i) == !self.bit(i) by {
                lemma_u32_logic(self, self, i as u32);
            }
        }
        block
    }

    fn shift_left(self, count: usize) -> (block: Self) {
        if count < 32 {
            let block: u32 = self << count;
            proof {
                assert forall|i: int| 0 <= i < 32 implies #[trigger] block.bit(i) == (count <= i
                    && self.bit(i - count)) by {
                    lemma_u32_shift(self, count as u32, i as u32);
                }
            }
            block
        } else {
            Self::zero()
        }
    }

    fn shift_right(self, count: usize) -> (block: Self) {
        if count < 32 {
            let block: u32 = self >> count;
            proof {
                assert forall|i: int| 0 <= i < 32 implies #[trigger] block.bit(i) == (i + count
                    < 32 && self.bit(i + count)) by {
                    lemma_u32_shift(self, count as u32, i as u32);
                }
            }
            block
        } else {
            Self::zero()
        }
    }
}

} // verus!
