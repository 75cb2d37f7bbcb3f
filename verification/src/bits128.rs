//! `u128` as a block of 128 bits.

use crate::storage::BlockType;
use vstd::prelude::*;

verus! {

/// Whether bit `index` of `block` is set.
pub open spec fn u128_bit(block: u128, index: u128) -> bool {
    (block >> index) & 1u128 == 1u128
}

proof fn lemma_u128_logic(a: u128, b: u128, i: u128)
    by (bit_vector)
    requires
        i < 128,
    ensures
        u128_bit(a & b, i) == (u128_bit(a, i) && u128_bit(b, i)),
        u128_bit(a | b, i) == (u128_bit(a, i) || u128_bit(b, i)),
        u128_bit(!a, i) == !u128_bit(a, i),
        !u128_bit(0u128, i),
        u128_bit(1u128, i) == (i == 0),
{
}

proof fn lemma_u128_shift(a: u128, n: u128, i: u128)
    by (bit_vector)
    requires
        i < 128,
        n < 128,
    ensures
        u128_bit(a << n, i) == (i >= n && u128_bit(a, (i - n) as u128)),
        u128_bit(a >> n, i) == (i + n < 128 && u128_bit(a, (i + n) as u128)),
{
}

proof fn lemma_u128_differ_step(a: u128, b: u128, k: u128)
    by (bit_vector)
    requires
        k < 128,
    ensures
        (a >> k) != (b >> k) ==> u128_bit(a, k) != u128_bit(b, k) || (k + 1 < 128 && (a >> (
            (k + 1) as u128
        )) != (b >> ((k + 1) as u128))),
        (a >> 0u128) == a,
{
}

/// Two blocks that differ from bit `k` upwards differ in one bit at or above
/// `k`; the result is its index.
proof fn lemma_u128_differ(a: u128, b: u128, k: u128) -> (i: u128)
    requires
        k < 128,
        (a >> k) != (b >> k),
    ensures
        k <= i < 128,
        u128_bit(a, i) != u128_bit(b, i),
    decreases 128 - k,
{
    lemma_u128_differ_step(a, b, k);
    if u128_bit(a, k) != u128_bit(b, k) {
        k
    } else {
        lemma_u128_differ(a, b, (k + 1) as u128)
    }
}

/// `<u128 as num_traits::Zero>::zero`: returns the additive identity of
/// `u128`, the number 0.
#[verifier::external_body]
fn u128_zero() -> (zero: u128)
    ensures
        zero == 0,
{
    <u128 as num_traits::Zero>::zero()
}

/// `<u128 as num_traits::One>::one`: returns the multiplicative identity of
/// `u128`, the number 1.
#[verifier::external_body]
fn u128_one() -> (one: u128)
    ensures
        one == 1,
{
    <u128 as num_traits::One>::one()
}

impl BlockType for u128 {
    open spec fn width() -> nat {
        128
    }

    open spec fn bit(self, index: int) -> bool {
        0 <= index < 128 && u128_bit(self, index as u128)
    }

    proof fn lemma_width_bounds() {
    }

    proof fn lemma_extensional(a: Self, b: Self) {
        if a != b {
            lemma_u128_differ_step(a, b, 0);
            lemma_u128_differ_step(b, a, 0);
            let i = lemma_u128_differ(a, b, 0);
            assert(a.bit(i as int) == b.bit(i as int));
        }
    }

    fn nbits() -> (n: usize) {
        128
    }

    fn zero() -> (block: Self) {
        let block: u128 = u128_zero();
        proof {
            assert forall|i: int| 0 <= i < 128 implies !#[trigger] block.bit(i) by {
                lemma_u128_logic(0, 0, i as u128);
            }
        }
        block
    }

    fn one() -> (block: Self) {
        let block: u128 = u128_one();
        proof {
            assert forall|i: int| 0 <= i < 128 implies #[trigger] block.bit(i) == (i == 0) by {
                lemma_u128_logic(0, 0, i as u128);
            }
        }
        block
    }

    fn equals(self, other: Self) -> (same: bool) {
        self == other
    }

    fn bit_and(self, other: Self) -> (block: Self) {
        let block: u128 = self & other;
        proof {
            assert forall|i: int| 0 <= i < 128 implies #[trigger] block.bit(i) == (self.bit(i)
                && other.bit(i)) by {
                lemma_u128_logic(self, other, i as u128);
            }
        }
        block
    }

    fn bit_or(self, other: Self) -> (block: Self) {
        let block: u128 = self | other;
        proof {
            assert forall|i: int| 0 <= i < 128 implies #[trigger] block.bit(i) == (self.bit(i)
                || other.bit(i)) by {
                lemma_u128_logic(self, other, i as u128);
            }
        }
        block
    }

    fn bit_not(self) -> (block: Self) {
        let block: u128 = !self;
        proof {
            assert forall|i: int| 0 <= i < 128 implies #[trigger] block.bit(i) == !self.bit(i) by {
                lemma_u128_logic(self, self, i as u128);
            }
        }
        block
    }

    fn shift_left(self, count: usize) -> (block: Self) {
        if count < 128 {
            let block: u128 = self << count;
            proof {
                assert forall|i: int| 0 <= i < 128 implies #[trigger] block.bit(i) == (count <= i
                    && self.bit(i - count)) by {
                    lemma_u128_shift(self, count as u128, i as u128);
                }
            }
            block
        } else {
            Self::zero()
        }
    }

    fn shift_right(self, count: usize) -> (block: Self) {
        if count < 128 {
            let block: u128 = self >> count;
            proof {
                assert forall|i: int| 0 <= i < 128 implies #[trigger] block.bit(i) == (i + count
                    < 128 && self.bit(i + count)) by {
                    lemma_u128_shift(self, count as u128, i as u128);
                }
            }
            block
        } else {
            Self::zero()
        }
    }
}

} // verus!
