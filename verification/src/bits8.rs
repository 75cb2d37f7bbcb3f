//! `u8` as a block of 8 bits.

use crate::storage::BlockType;
use vstd::prelude::*;

verus! {

/// Whether bit `index` of `block` is set.
pub open spec fn u8_bit(block: u8, index: u8) -> bool {
    (block >> index) & 1u8 == 1u8
}

proof fn lemma_u8_logic(a: u8, b: u8, i: u8)
    by (bit_vector)
    requires
        i < 8,
    ensures
        u8_bit(a & b, i) == (u8_bit(a, i) && u8_bit(b, i)),
        u8_bit(a | b, i) == (u8_bit(a, i) || u8_bit(b, i)),
        u8_bit(!a, i) == !u8_bit(a, i),
        !u8_bit(0u8, i),
        u8_bit(1u8, i) == (i == 0),
{
}

proof fn lemma_u8_shift(a: u8, n: u8, i: u8)
    by (bit_vector)
    requires
        i < 8,
        n < 8,
    ensures
        u8_bit(a << n, i) == (i >= n && u8_bit(a, (i - n) as u8)),
        u8_bit(a >> n, i) == (i + n < 8 && u8_bit(a, (i + n) as u8)),
{
}

proof fn lemma_u8_differ_step(a: u8, b: u8, k: u8)
    by (bit_vector)
    requires
        k < 8,
    ensures
        (a >> k) != (b >> k) ==> u8_bit(a, k) != u8_bit(b, k) || (k + 1 < 8 && (a >> (
            (k + 1) as u8
        )) != (b >> ((k + 1) as u8))),
        (a >> 0u8) == a,
{
}

/// Two blocks that differ from bit `k` upwards differ in one bit at or above
/// `k`; the result is its index.
proof fn lemma_u8_differ(a: u8, b: u8, k: u8) -> (i: u8)
    requires
        k < 8,
        (a >> k) != (b >> k),
    ensures
        k <= i < 8,
        u8_bit(a, i) != u8_bit(b, i),
    decreases 8 - k,
{
    lemma_u8_differ_step(a, b, k);
    if u8_bit(a, k) != u8_bit(b, k) {
        k
    } else {
        lemma_u8_differ(a, b, (k + 1) as u8)
    }
}

/// `<u8 as num_traits::Zero>::zero`: returns the additive identity of
/// `u8`, the number 0.
#[verifier::external_body]
fn u8_zero() -> (zero: u8)
    ensures
        zero == 0,
{
    <u8 as num_traits::Zero>::zero()
}

/// `<u8 as num_traits::One>::one`: returns the multiplicative identity of
/// `u8`, the number 1.
#[verifier::external_body]
fn u8_one() -> (one: u8)
    ensures
        one == 1,
{
    <u8 as num_traits::One>::one()
}

impl BlockType for u8 {
    open spec fn width() -> nat {
        8
    }

    open spec fn bit(self, index: int) -> bool {
        0 <= index < 8 && u8_bit(self, index as u8)
    }

    proof fn lemma_width_bounds() {
    }

    proof fn lemma_extensional(a: Self, b: Self) {
        if a != b {
            lemma_u8_differ_step(a, b, 0);
            lemma_u8_differ_step(b, a, 0);
            let i = lemma_u8_differ(a, b, 0);
            assert(a.bit(i as int) == b.bit(i as int));
        }
    }

    fn nbits() -> (n: usize) {
        8
    }

    fn zero() -> (block: Self) {
        let block: u8 = u8_zero();
        proof {
            assert forall|i: int| 0 <= i < 8 implies !#[trigger] block.bit(i) by {
                lemma_u8_logic(0, 0, i as u8);
            }
        }
        block
    }

    fn one() -> (block: Self) {
        let block: u8 = u8_one();
        proof {
            assert forall|i: int| 0 <= i < 8 implies #[trigger] block.bit(i) == (i == 0) by {
                lemma_u8_logic(0, 0, i as u8);
            }
        }
        block
    }

    fn equals(self, other: Self) -> (same: bool) {
        self == other
    }

    fn bit_and(self, other: Self) -> (block: Self) {
        let block: u8 = self & other;
        proof {
            assert forall|i: int| 0 <= i < 8 implies #[trigger] block.bit(i) == (self.bit(i)
                && other.bit(i)) by {
                lemma_u8_logic(self, other, i as u8);
            }
        }
        block
    }

    fn bit_or(self, other: Self) -> (block: Self) {
        let block: u8 = self | other;
        proof {
            assert forall|i: int| 0 <= i < 8 implies #[trigger] block.bit(i) == (self.bit(i)
                || other.bit(i)) by {
                lemma_u8_logic(self, other, i as u8);
            }
        }
        block
    }

    fn bit_not(self) -> (block: Self) {
        let block: u8 = !self;
        proof {
            assert forall|i: int| 0 <= i < 8 implies #[trigger] block.bit(i) == !self.bit(i) by {
                lemma_u8_logic(self, self, i as u8);
            }
        }
        block
    }

    fn shift_left(self, count: usize) -> (block: Self) {
        if count < 8 {
            let block: u8 = self << count;
            proof {
                assert forall|i: int| 0 <= i < 8 implies #[trigger] block.bit(i) == (count <= i
                    && self.bit(i - count)) by {
                    lemma_u8_shift(self, count as u8, i as u8);
                }
            }
            block
        } else {
            Self::zero()
        }
    }

    fn shift_right(self, count: usize) -> (block: Self) {
        if count < 8 {
            let block: u8 = self >> count;
            proof {
                assert forall|i: int| 0 <= i < 8 implies #[trigger] block.bit(i) == (i + count
                    < 8 && self.bit(i + count)) by {
                    lemma_u8_shift(self, count as u8, i as u8);
                }
            }
            block
        } else {
            Self::zero()
        }
    }
}

} // verus!
