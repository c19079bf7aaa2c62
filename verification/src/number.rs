//! A number made from an `i32`.
use vstd::prelude::*;

verus! {

/// A wrapped `i32`.
#[derive(Debug)]
pub struct Number {
    pub value: i32,
}

impl From<i32> for Number {
    /// The number whose value is `item`.
    fn from(item: i32) -> (r: Number) {
        Number { value: item }
    }
}

impl vstd::std_specs::convert::FromSpecImpl<i32> for Number {
    open spec fn obeys_from_spec() -> bool {
        true
    }

    open spec fn from_spec(item: i32) -> Number {
        Number { value: item }
    }
}

} // verus!
