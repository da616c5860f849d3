//! Contracts for the few `std` functions the library calls that `vstd` does
//! not specify.

use vstd::prelude::*;

verus! {

/// `Range::clone` (used by the derived `Clone` of span-carrying types):
/// nothing is claimed of the result.
pub assume_specification<Idx: Clone>[ <core::ops::Range<Idx> as Clone>::clone ](
    r: &core::ops::Range<Idx>,
) -> core::ops::Range<Idx>;

} // verus!
