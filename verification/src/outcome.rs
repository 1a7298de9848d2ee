//! Outcomes: values or errors.

use vstd::prelude::*;

verus! {

/// Success with this value.
pub open spec fn yields<T, E>(r: Result<T, E>, v: T) -> bool {
    r == Ok::<T, E>(v)
}

/// Failure with this error.
pub open spec fn fails<T, E>(r: Result<T, E>, e: E) -> bool {
    r == Err::<T, E>(e)
}

} // verus!
