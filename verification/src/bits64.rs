//! `u64` as a block of 64 bits.

use crate::storage::BlockType;
use vstd::prelude::*;

verus! {

/// Whether bit `index` of `block` is set.
pub open spec fn u64_bit(block: u64, index: u64) -> bool {
    (block >> index) & 1u64 == 1u64
}

proof fn lemma_u64_logic(a: u64, b: u64, i: u64)
    by (bit_vector)
    requires
        i < 64,
    ensures
        u64_bit(a & b, i) == (u64_bit(a, i) && u64_bit(b, i)),
        u64_bit(a | b, i) == (u64_bit(a, i) || u64_bit(b, i)),
        u64_bit(!a, i) == !u64_bit(a, i),
        !u64_bit(0u64, i),
        u64_bit(1u64, i) == (i == 0),
{
}

proof fn lemma_u64_shift(a: u64, n: u64, i: u64)
    by (bit_vector)
    requires
        i < 64,
        n < 64,
    ensures
        u64_bit(a << n, i) == (i >= n && u64_bit(a, (i - n) as u64)),
        u64_bit(a >> n, i) == (i + n < 64 && u64_bit(a, (i + n) as u64)),
{
}

proof fn lemma_u64_differ_step(a: u64, b: u64, k: u64)
    by (bit_vector)
    requires
        k < 64,
    ensures
        (a >> k) != (b >> k) ==> u64_bit(a, k) != u64_bit(b, k) || (k + 1 < 64 && (a >> (
            (k + 1) as u64
        )) != (b >> ((k + 1) as u64))),
        (a >> 0u64) == a,
{
}

/// Two blocks that differ from bit `k` upwards differ in one bit at or above
/// `k`; the result is its index.
proof fn lemma_u64_differ(a: u64, b: u64, k: u64) -> (i: u64)
    requires
        k < 64,
        (a >> k) != (b >> k),
    ensures
        k <= i < 64,
        u64_bit(a, i) != u64_bit(b, i),
    decreases 64 - k,
{
    lemma_u64_differ_step(a, b, k);
    if u64_bit(a, k) != u64_bit(b, k) {
        k
    } else {
        lemma_u64_differ(a, b, (k + 1) as u64)
    }
}

/// `<u64 as num_traits::Zero>::zero`: returns the additive identity of
/// `u64`, the number 0.
#[verifier::external_body]
fn u64_zero() -> (zero: u64)
    ensures
        zero == 0,
{
    <u64 as num_traits::Zero>::zero()
}

/// `<u64 as num_traits::One>::one`: returns the multiplicative identity of
/// `u64`, the number 1.
#[verifier::external_body]
fn u64_one() -> (one: u64)
    ensures
        one == 1,
{
    <u64 as num_traits::One>::one()
}

impl BlockType for u64 {
    open spec fn width() -> nat {
        64
    }

    open spec fn bit(self, index: int) -> bool {
        0 <= index < 64 && u64_bit(self, index as u64)
    }

    proof fn lemma_width_bounds() {
    }

    proof fn lemma_extensional(a: Self, b: Self) {
        if a != b {
            lemma_u64_differ_step(a, b, 0);
            lemma_u64_differ_step(b, a, 0);
            let i = lemma_u64_differ(a, b, 0);
            assert(a.bit(i as int) == b.bit(i as int));
        }
    }

    fn nbits() -> (n: usize) {
        64
    }

    fn zero() -> (block: Self) {
        let block: u64 = u64_zero();
        proof {
            assert forall|i: int| 0 <= i < 64 implies !#[trigger] block.bit(i) by {
                lemma_u64_logic(0, 0, i as u64);
            }
        }
        block
    }

    fn one() -> (block: Self) {
        let block: u64 = u64_one();
        proof {
            assert forall|i: int| 0 <= i < 64 implies #[trigger] block.bit(i) == (i == 0) by {
                lemma_u64_logic(0, 0, i as u64);
            }
        }
        block
    }

    fn equals(self, other: Self) -> (same: bool) {
        self == other
    }

    fn bit_and(self, other: Self) -> (block: Self) {
        let block: u64 = self & other;
        proof {
            assert forall|i: int| 0 <= i < 64 implies #[trigger] block.bit(i) == (self.bit(i)
                && other.bit(i)) by {
                lemma_u64_logic(self, other, i as u64);
            }
        }
        block
    }

    fn bit_or(self, other: Self) -> (block: Self) {
        let block: u64 = self | other;
        proof {
            assert forall|i: int| 0 <= i < 64 implies #[trigger] block.bit(i) == (self.bit(i)
                || other.bit(i)) by {
                lemma_u64_logic(self, other, i as u64);
            }
        }
        block
    }

    fn bit_not(self) -> (block: Self) {
        let block: u64 = !self;
        proof {
            assert forall|i: int| 0 <= i < 64 implies #[trigger] block.bit(i) == !self.bit(i) by {
                lemma_u64_logic(self, self, i as u64);
            }
        }
        block
    }

    fn shift_left(self, count: usize) -> (block: Self) {
        if count < 64 {
            let block: u64 = self << count;
            proof {
                assert forall|i: int| 0 <= i < 64 implies #[trigger] block.bit(i) == (count <= i
                    && self.bit(i - count)) by {
                    lemma_u64_shift(self, count as u64, i as u64);
                }
            }
            block
        } else {
            Self::zero()
        }
    }

    fn shift_right(self, count: usize) -> (block: Self) {
        if count < 64 {
            let block: u64 = self >> count;
            proof {
                assert forall|i: int| 0 <= i < 64 implies #[trigger] block.bit(i) == (i + count
                    < 64 && self.bit(i + count)) by {
                    lemma_u64_shift(self, count as u64, i as u64);
                }
            }
            block
        } else {
            Self::zero()
        }
    }
}

} // verus!
