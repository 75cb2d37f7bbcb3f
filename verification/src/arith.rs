//! Division and remainder by a block width that is only known to be positive.

use vstd::prelude::*;

verus! {

/// Number of blocks of `width` bits needed to hold `total` bits: the quotient,
/// rounded up.
pub open spec fn blocks_for(total: nat, width: nat) -> nat {
    if total % width == 0 {
        total / width
    } else {
        total / width + 1
    }
}

/// Number of bits that must be appended to `total` bits to reach the next
/// multiple of `width`; zero when `total` already is one.
pub open spec fn bits_to_boundary(total: nat, width: nat) -> nat {
    ((width - total % width) % (width as int)) as nat
}

/// Quotient and remainder decompose a natural number.
pub proof fn lemma_div_mod(x: int, w: int)
    by (nonlinear_arith)
    requires
        0 <= x,
        0 < w,
    ensures
        x == (x / w) * w + x % w,
        0 <= x % w < w,
        0 <= x / w <= x,
{
}

/// A decomposition with a remainder in range is the quotient and remainder.
pub proof fn lemma_div_mod_unique(x: int, w: int, q: int, r: int)
    by (nonlinear_arith)
    requires
        0 < w,
        0 <= r < w,
        x == q * w + r,
    ensures
        x / w == q,
        x % w == r,
{
}

/// Products with a positive factor keep the order of the other factor.
pub proof fn lemma_mul_order(a: int, b: int, w: int)
    by (nonlinear_arith)
    requires
        0 < w,
    ensures
        a <= b ==> a * w <= b * w,
        a < b ==> a * w + w <= b * w,
        a * w < b * w ==> a < b,
        a * w <= b * w ==> a <= b,
        (a + 1) * w == a * w + w,
{
}

/// Every bit index below `total` lies in a block below `blocks_for(total, width)`,
/// and a block below that count starts below `total`.
pub proof fn lemma_blocks_for(total: nat, width: nat)
    requires
        0 < width,
    ensures
        blocks_for(total, width) * width >= total,
        blocks_for(total, width) * width < total + width,
        forall|i: int| 0 <= i < total ==> #[trigger] (i / width as int) < blocks_for(total, width),
        forall|p: int| 0 <= p < blocks_for(total, width) ==> #[trigger] (p * width) < total,
{
    let w = width as int;
    let t = total as int;
    let n = blocks_for(total, width) as int;
    lemma_div_mod(t, w);
    lemma_mul_order(t / w, n, w);
    assert(n * w >= t);
    assert(n * w < t + w);
    assert forall|i: int| 0 <= i < total implies #[trigger] (i / w) < n by {
        lemma_div_mod(i, w);
        lemma_mul_order(n, i / w, w);
    }
    assert forall|p: int| 0 <= p < n implies #[trigger] (p * w) < t by {
        lemma_mul_order(p, n - 1, w);
        lemma_mul_order(n - 1, n, w);
    }
}

/// A vector of `count` whole blocks of `width` bits spans `count` blocks.
pub proof fn lemma_whole_blocks(count: nat, width: nat)
    requires
        0 < width,
    ensures
        blocks_for(count * width, width) == count,
{
    lemma_div_mod_unique((count * width) as int, width as int, count as int, 0);
}

/// Appending one bit to a length that is not a multiple of `width` brings the
/// boundary one bit closer; at a multiple nothing is missing.
pub proof fn lemma_bits_to_boundary(total: nat, width: nat)
    requires
        0 < width,
    ensures
        bits_to_boundary(total, width) < width,
        (total + bits_to_boundary(total, width)) % width == 0,
        total % width == 0 <==> bits_to_boundary(total, width) == 0,
        total % width != 0 ==> bits_to_boundary(total + 1, width) + 1 == bits_to_boundary(
            total,
            width,
        ),
{
    let w = width as int;
    let t = total as int;
    let r = t % w;
    lemma_div_mod(t, w);
    if r == 0 {
        lemma_div_mod_unique(w, w, 1, 0);
    } else {
        lemma_div_mod_unique(w - r, w, 0, w - r);
        assert(bits_to_boundary(total, width) == w - r);
        lemma_mul_order(t / w, t / w, w);
        assert(t + (w - r) == (t / w + 1) * w + 0) by (nonlinear_arith)
            requires
                t == (t / w) * w + r,
        ;
        lemma_div_mod_unique(t + (w - r), w, t / w + 1, 0);
        if r + 1 < w {
            assert(t + 1 == (t / w) * w + (r + 1)) by (nonlinear_arith)
                requires
                    t == (t / w) * w + r,
            ;
            lemma_div_mod_unique(t + 1, w, t / w, r + 1);
            lemma_div_mod_unique(w - (r + 1), w, 0, w - (r + 1));
        } else {
            assert(t + 1 == (t / w + 1) * w + 0) by (nonlinear_arith)
                requires
                    t == (t / w) * w + r,
                    r + 1 == w,
            ;
            lemma_div_mod_unique(t + 1, w, t / w + 1, 0);
            lemma_div_mod_unique(w, w, 1, 0);
        }
    }
}

} // verus!
