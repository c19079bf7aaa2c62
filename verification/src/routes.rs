//! The responses of two web routes.
use vstd::prelude::*;

verus! {

/// The response of the first server's root route.
pub fn hello() -> (r: &'static str)
    ensures
        r@ == "Hello, world!"@,
{
    "Hello, world!"
}

/// The response of the second server's root route.
pub fn hello2() -> (r: &'static str)
    ensures
        r@ == "Hello, world~~!"@,
{
    "Hello, world~~!"
}

} // verus!
