//! Conversion of a bit index to an index into a `Vec`.

use vstd::prelude::*;

verus! {

/// `<u64 as num_traits::ToPrimitive>::to_usize`: the same number as a `usize`
/// where a `usize` can hold it, and `None` where it cannot.
#[verifier::external_body]
pub(crate) fn u64_to_usize(value: u64) -> (converted: Option<usize>)
    ensures
        converted == if value <= usize::MAX {
            Some(value as usize)
        } else {
            None
        },
{
    num_traits::ToPrimitive::to_usize(&value)
}

} // verus!
