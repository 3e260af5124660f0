//! Random numbers, for everything in a session that only has to differ from
//! one run to the next.

use vstd::prelude::*;

verus! {

/// `rand::random`. Any value can come back; nothing is claimed of it.
pub assume_specification<T>[ rand::random::<T> ]() -> T where
    rand::distributions::Standard: rand::distributions::Distribution<T>,
;

/// Whether `rand::random` can give `x`.
pub open spec fn drawn16(x: u16) -> bool {
    call_ensures(rand::random::<u16>, (), x)
}

/// Whether `rand::random` can give `x`.
pub open spec fn drawn32(x: u32) -> bool {
    call_ensures(rand::random::<u32>, (), x)
}

/// Whether `rand::random` can give `x`.
pub open spec fn drawn64(x: u64) -> bool {
    call_ensures(rand::random::<u64>, (), x)
}

} // verus!
