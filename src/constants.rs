use vstd::prelude::*;

verus! {

/// The prime modulus of the coefficient ring, 2^23 - 2^13 + 1.
pub const Q: u32 = 8380417;

} // verus!
