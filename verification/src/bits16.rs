//! `u16` as a block of 16 bits.

use crate::storage::BlockType;
use vstd::prelude::*;

verus! {

/// Whether bit `index` of `block` is set.
pub open spec fn u16_bit(block: u16, index: u16) -> bool {
    (block >> index) & 1u16 == 1u16
}

proof fn lemma_u16_logic(a: u16, b: u16, i: u16)
    by (bit_vector)
    requires
        i < 16,
    ensures
        u16_bit(a & b, i) == (u16_bit(a, i) && u16_bit(b, i)),
        u16_bit(a | b, i) == (u16_bit(a, i) || u16_bit(b, i)),
        u16_bit(!a, i) == !u16_bit(a, i),
        !u16_bit(0u16, i),
        u16_bit(1u16, i) == (i == 0),
{
}

proof fn lemma_u16_shift(a: u16, n: u16, i: u16)
    by (bit_vector)
    requires
        i < 16,
        n < 16,
    ensures
        u16_bit(a << n, i) == (i >= n && u16_bit(a, (i - n) as u16)),
        u16_bit(a >> n, i) == (i + n < 16 && u16_bit(a, (i + n) as u16)),
{
}

proof fn lemma_u16_differ_step(a: u16, b: u16, k: u16)
    by (bit_vector)
    requires
        k < 16,
    ensures
        (a >> k) != (b >> k) ==> u16_bit(a, k) != u16_bit(b, k) || (k + 1 < 16 && (a >> (
            (k + 1) as u16
        )) != (b >> ((k + 1) as u16))),
        (a >> 0u16) == a,
{
}

/// Two blocks that differ from bit `k` upwards differ in one bit at or above
/// `k`; the result is its index.
proof fn lemma_u16_differ(a: u16, b: u16, k: u16) -> (i: u16)
    requires
        k < 16,
        (a >> k) != (b >> k),
    ensures
        k <= i < 16,
        u16_bit(a, i) != u16_bit(b, i),
    decreases 16 - k,
{
    lemma_u16_differ_step(a, b, k);
    if u16_bit(a, k) != u16_bit(b, k) {
        k
    } else {
        lemma_u16_differ(a, b, (k + 1) as u16)
    }
}

/// `<u16 as num_traits::Zero>::zero`: returns the additive identity of
/// `u16`, the number 0.
#[verifier::external_body]
fn u16_zero() -> (zero: u16)
    ensures
        zero == 0,
{
    <u16 as num_traits::Zero>::zero()
}

/// `<u16 as num_traits::One>::one`: returns the multiplicative identity of
/// `u16`, the number 1.
#[verifier::external_body]
fn u16_one() -> (one: u16)
    ensures
        one == 1,
{
    <u16 as num_traits::One>::one()
}

impl BlockType for u16 {
    open spec fn width() -> nat {
        16
    }

    open spec fn bit(self, index: int) -> bool {
        0 <= index < 16 && u16_bit(self, index as u16)
    }

    proof fn lemma_width_bounds() {
    }

    proof fn lemma_extensional(a: Self, b: Self) {
        if a != b {
            lemma_u16_differ_step(a, b, 0);
            lemma_u16_differ_step(b, a, 0);
            let i = lemma_u16_differ(a, b, 0);
            assert(a.bit(i as int) == b.bit(i as int));
        }
    }

    fn nbits() -> (n: usize) {
        16
    }

    fn zero() -> (block: Self) {
        let block: u16 = u16_zero();
        proof {
            assert forall|i: int| 0 <= i < 16 implies !#[trigger] block.bit(i) by {
                lemma_u16_logic(0, 0, i as u16);
            }
        }
        block
    }

    fn one() -> (block: Self) {
        let block: u16 = u16_one();
        proof {
            assert forall|i: int| 0 <= i < 16 implies #[trigger] block.bit(i) == (i == 0) by {
                lemma_u16_logic(0, 0, i as u16);
            }
        }
        block
    }

    fn equals(self, other: Self) -> (same: bool) {
        self == other
    }

    fn bit_and(self, other: Self) -> (block: Self) {
        let block: u16 = self & other;
        proof {
            assert forall|i: int| 0 <= i < 16 implies #[trigger] block.bit(i) == (self.bit(i)
                && other.bit(i)) by {
                lemma_u16_logic(self, other, i as u16);
            }
        }
        block
    }

    fn bit_or(self, other: Self) -> (block: Self) {
        let block: u16 = self | other;
        proof {
            assert forall|i: int| 0 <= i < 16 implies #[trigger] block.bit(i) == (self.bit(i)
                || other.bit(i)) by {
                lemma_u16_logic(self, other, i as u16);
            }
        }
        block
    }

    fn bit_not(self) -> (block: Self) {
        let block: u16 = !self;
        proof {
            assert forall|i: int| 0 <= i < 16 implies #[trigger] block.bit(i) == !self.bit(i) by {
                lemma_u16_logic(self, self, i as u16);
            }
        }
        block
    }

    fn shift_left(self, count: usize) -> (block: Self) {
        if count < 16 {
            let block: u16 = self << count;
            proof {
                assert forall|i: int| 0 <= i < 16 implies #[trigger] block.bit(i) == (count <= i
                    && self.bit(i - count)) by {
                    lemma_u16_shift(self, count as u16, i as u16);
                }
            }
            block
        } else {
            Self::zero()
        }
    }

    fn shift_right(self, count: usize) -> (block: Self) {
        if count < 16 {
            let block: u16 = self >> count;
            proof {
                assert forall|i: int| 0 <= i < 16 implies #[trigger] block.bit(i) == (i + count
                    < 16 && self.bit(i + count)) by {
                    lemma_u16_shift(self, count as u16, i as u16);
                }
            }
            block
        } else {
            Self::zero()
        }
    }
}

} // verus!
