//! A slow primality check.
use vstd::prelude::*;

verus! {

/// A large prime.
pub const BIG_PRIME: u64 = 15485867;

/// Whether no number from 2 up to (not including) `num` divides `num`.
pub open spec fn no_divisor_below(num: u64) -> bool {
    forall|i: int| 2 <= i < num ==> #[trigger] (num as int % i) != 0
}

/// Whether `num` is prime: at least 2, and divisible by no number from 2
/// up to `num`.
pub open spec fn prime(num: u64) -> bool {
    num >= 2 && no_divisor_below(num)
}

/// Checks, slowly, by trial division, whether `num` is prime.
pub fn is_prime(num: u64) -> (r: bool)
    ensures
        r == prime(num),
{
    if num < 2 {
        return false;
    }
    let mut i: u64 = 2;
    while i < num
        invariant
            2 <= i,
            forall|k: int| 2 <= k < i && k < num ==> #[trigger] (num as int % k) != 0,
        decreases num - i,
    {
        if num % i == 0 {
            assert((num as int % i as int) == 0);
            return false;
        }
        i = i + 1;
    }
    true
}

} // verus!
