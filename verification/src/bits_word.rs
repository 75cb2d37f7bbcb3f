//! `usize` as a block of as many bits as a word of the platform has.

use crate::storage::BlockType;
use vstd::prelude::*;

verus! {

/// Whether bit `index` of `block` is set.
pub open spec fn word_bit(block: usize, index: usize) -> bool {
    (block >> index) & 1usize == 1usize
}

proof fn lemma_word_logic(a: usize, b: usize, i: usize)
    by (bit_vector)
    requires
        i < usize::BITS,
    ensures
        word_bit(a & b, i) == (word_bit(a, i) && word_bit(b, i)),
        word_bit(a | b, i) == (word_bit(a, i) || word_bit(b, i)),
        word_bit(!a, i) == !word_bit(a, i),
        !word_bit(0usize, i),
        word_bit(1usize, i) == (i == 0),
{
}

proof fn lemma_word_shift(a: usize, n: usize, i: usize)
    by (bit_vector)
    requires
        i < usize::BITS,
        n < usize::BITS,
    ensures
        word_bit(a << n, i) == (i >= n && word_bit(a, (i - n) as usize)),
        word_bit(a >> n, i) == (i + n < usize::BITS && word_bit(a, (i + n) as usize)),
{
}

proof fn lemma_word_differ_step(a: usize, b: usize, k: usize)
    by (bit_vector)
    requires
        k < usize::BITS,
    ensures
        (a >> k) != (b >> k) ==> word_bit(a, k) != word_bit(b, k) || (k + 1 < usize::BITS && (a >> (
            (k + 1) as usize
        )) != (b >> ((k + 1) as usize))),
        (a >> 0usize) == a,
{
}

/// Two blocks that differ from bit `k` upwards differ in one bit at or above
/// `k`; the result is its index.
proof fn lemma_word_differ(a: usize, b: usize, k: usize) -> (i: usize)
    requires
        k < usize::BITS,
        (a >> k) != (b >> k),
    ensures
        k <= i < usize::BITS,
        word_bit(a, i) != word_bit(b, i),
    decreases usize::BITS - k,
{
    lemma_word_differ_step(a, b, k);
    if word_bit(a, k) != word_bit(b, k) {
        k
    } else {
        lemma_word_differ(a, b, (k + 1) as usize)
    }
}

/// `<usize as num_traits::Zero>::zero`: returns the additive identity of
/// `usize`, the number 0.
#[verifier::external_body]
fn word_zero() -> (zero: usize)
    ensures
        zero == 0,
{
    <usize as num_traits::Zero>::zero()
}

/// `<usize as num_traits::One>::one`: returns the multiplicative identity of
/// `usize`, the number 1.
#[verifier::external_body]
fn word_one() -> (one: usize)
    ensures
        one == 1,
{
    <usize as num_traits::One>::one()
}

impl BlockType for usize {
    open spec fn width() -> nat {
        usize::BITS as nat
    }

    open spec fn bit(self, index: int) -> bool {
        0 <= index < usize::BITS && word_bit(self, index as usize)
    }

    proof fn lemma_width_bounds() {
    }

    proof fn lemma_extensional(a: Self, b: Self) {
        if a != b {
            lemma_word_differ_step(a, b, 0);
            lemma_word_differ_step(b, a, 0);
            let i = lemma_word_differ(a, b, 0);
            assert(a.bit(i as int) == b.bit(i as int));
        }
    }

    fn nbits() -> (n: usize) {
        usize::BITS as usize
    }

    fn zero() -> (block: Self) {
        let block: usize = word_zero();
        proof {
            assert forall|i: int| 0 <= i < usize::BITS implies !#[trigger] block.bit(i) by {
                lemma_word_logic(0, 0, i as usize);
            }
        }
        block
    }

    fn one() -> (block: Self) {
        let block: usize = word_one();
        proof {
            assert forall|i: int| 0 <= i < usize::BITS implies
                #[trigger] block.bit(i) == (i == 0) by {
                lemma_word_logic(0, 0, i as usize);
            }
        }
        block
    }

    fn equals(self, other: Self) -> (same: bool) {
        self == other
    }

    fn bit_and(self, other: Self) -> (block: Self) {
        let block: usize = self & other;
        proof {
            assert forall|i: int| 0 <= i < usize::BITS implies
                #[trigger] block.bit(i) == (self.bit(i)
                && other.bit(i)) by {
                lemma_word_logic(self, other, i as usize);
            }
        }
        block
    }

    fn bit_or(self, other: Self) -> (block: Self) {
        let block: usize = self | other;
        proof {
            assert forall|i: int| 0 <= i < usize::BITS implies
                #[trigger] block.bit(i) == (self.bit(i)
                || other.bit(i)) by {
                lemma_word_logic(self, other, i as usize);
            }
        }
        block
    }

    fn bit_not(self) -> (block: Self) {
        let block: usize = !self;
        proof {
            assert forall|i: int| 0 <= i < usize::BITS implies
                #[trigger] block.bit(i) == !self.bit(i) by {
                lemma_word_logic(self, self, i as usize);
            }
        }
        block
    }

    fn shift_left(self, count: usize) -> (block: Self) {
        if count < usize::BITS as usize {
            let block: usize = self << count;
            proof {
                assert forall|i: int| 0 <= i < usize::BITS implies
                    #[trigger] block.bit(i) == (count <= i
                    && self.bit(i - count)) by {
                    lemma_word_shift(self, count as usize, i as usize);
                }
            }
            block
        } else {
            Self::zero()
        }
    }

    fn shift_right(self, count: usize) -> (block: Self) {
        if count < usize::BITS as usize {
            let block: usize = self >> count;
            proof {
                assert forall|i: int| 0 <= i < usize::BITS implies
                    #[trigger] block.bit(i) == (i + count
                    < usize::BITS && self.bit(i + count)) by {
                    lemma_word_shift(self, count as usize, i as usize);
                }
            }
            block
        } else {
            Self::zero()
        }
    }
}

} // verus!
