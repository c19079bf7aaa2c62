//! Sums of the four lanes of a vector of `i32`.
use vstd::prelude::*;
use vstd::wrapping::i32_specs::wrapping_add;

verus! {

/// The sum of the lanes.
pub open spec fn lane_sum(x: [i32; 4]) -> int {
    x[0] + x[1] + x[2] + x[3]
}

/// `v` wrapped into the range of `i32`: the `i32` that differs from it by a
/// multiple of 2^32.
pub open spec fn wrap32(v: int) -> int {
    (v + 0x8000_0000) % 0x1_0000_0000 - 0x8000_0000
}

proof fn lemma_wrapping_add(a: i32, b: i32)
    ensures
        wrapping_add(a, b) as int == wrap32(a + b),
{
    let v = a + b;
    if v > i32::MAX {
        vstd::arithmetic::div_mod::lemma_mod_multiples_vanish(1, v + 0x8000_0000 - 0x1_0000_0000, 0x1_0000_0000);
        vstd::arithmetic::div_mod::lemma_small_mod((v + 0x8000_0000 - 0x1_0000_0000) as nat, 0x1_0000_0000);
    } else if v < i32::MIN {
        vstd::arithmetic::div_mod::lemma_mod_multiples_vanish(-1, v + 0x8000_0000 + 0x1_0000_0000, 0x1_0000_0000);
        vstd::arithmetic::div_mod::lemma_small_mod((v + 0x8000_0000 + 0x1_0000_0000) as nat, 0x1_0000_0000);
    } else {
        vstd::arithmetic::div_mod::lemma_small_mod((v + 0x8000_0000) as nat, 0x1_0000_0000);
    }
}

proof fn lemma_wrap32_add(x: int, y: int)
    ensures
        wrap32(wrap32(x) + wrap32(y)) == wrap32(x + y),
{
    vstd::arithmetic::div_mod::lemma_add_mod_noop(x + 0x8000_0000, y + 0x8000_0000, 0x1_0000_0000);
    let a = (x + 0x8000_0000) % 0x1_0000_0000;
    let b = (y + 0x8000_0000) % 0x1_0000_0000;
    assert(wrap32(x) + wrap32(y) + 0x8000_0000 == a + b - 0x8000_0000);
    vstd::arithmetic::div_mod::lemma_mod_multiples_vanish(1, a + b - 0x8000_0000, 0x1_0000_0000);
    vstd::arithmetic::div_mod::lemma_add_mod_noop(x + 0x8000_0000, y - 0x8000_0000, 0x1_0000_0000);
    vstd::arithmetic::div_mod::lemma_mod_multiples_vanish(-1, y + 0x8000_0000, 0x1_0000_0000);
}

/// Sums the lanes one by one.
pub fn sum_portable(x: [i32; 4]) -> (r: i32)
    requires
        i32::MIN <= x[0] + x[1] <= i32::MAX,
        i32::MIN <= x[0] + x[1] + x[2] <= i32::MAX,
        i32::MIN <= lane_sum(x) <= i32::MAX,
    ensures
        r == lane_sum(x),
{
    let mut r: i32 = 0;
    let mut i: usize = 0;
    while i < 4
        invariant
            i <= 4,
            i32::MIN <= x[0] + x[1] <= i32::MAX,
            i32::MIN <= x[0] + x[1] + x[2] <= i32::MAX,
            i32::MIN <= lane_sum(x) <= i32::MAX,
            i == 0 ==> r == 0,
            i == 1 ==> r == x[0],
            i == 2 ==> r == x[0] + x[1],
            i == 3 ==> r == x[0] + x[1] + x[2],
            i == 4 ==> r == lane_sum(x),
        decreases 4 - i,
    {
        r = r + x[i];
        i = i + 1;
    }
    r
}

/// Sums the lanes as the SSE2 shuffle does: lanes 0 and 2 and lanes 1 and 3
/// are added, then the two sums, all with wrap-around.
pub fn sum_sse2(x: [i32; 4]) -> (r: i32)
    ensures
        r == wrap32(lane_sum(x)),
        i32::MIN <= lane_sum(x) <= i32::MAX ==> r == lane_sum(x),
{
    let a = x[0].wrapping_add(x[2]);
    let b = x[1].wrapping_add(x[3]);
    let r = a.wrapping_add(b);
    proof {
        lemma_wrapping_add(x[0], x[2]);
        lemma_wrapping_add(x[1], x[3]);
        lemma_wrapping_add(a, b);
        lemma_wrap32_add(x[0] + x[2], x[1] + x[3]);
        if i32::MIN <= lane_sum(x) <= i32::MAX {
            vstd::arithmetic::div_mod::lemma_small_mod((lane_sum(x) + 0x8000_0000) as nat, 0x1_0000_0000);
        }
    }
    r
}

/// The SSE2 sum agrees with the portable sum on every vector the portable
/// sum takes (where no partial sum overflows).
pub proof fn lemma_sse2_matches_portable(x: [i32; 4])
    requires
        i32::MIN <= x[0] + x[1] <= i32::MAX,
        i32::MIN <= x[0] + x[1] + x[2] <= i32::MAX,
        i32::MIN <= lane_sum(x) <= i32::MAX,
    ensures
        wrap32(lane_sum(x)) == lane_sum(x),
{
    vstd::arithmetic::div_mod::lemma_small_mod((lane_sum(x) + 0x8000_0000) as nat, 0x1_0000_0000);
}

/// The mask of the first `n` lanes of `lanes` that equal `key`: bit `i`
/// set exactly for each such lane `i`.
pub open spec fn match_mask(lanes: Seq<i8>, key: i8, n: nat) -> int
    decreases n,
{
    if n == 0 {
        0
    } else {
        match_mask(lanes, key, (n - 1) as nat) + if lanes[n - 1] == key {
            vstd::arithmetic::power2::pow2((n - 1) as nat) as int
        } else {
            0
        }
    }
}

proof fn lemma_match_mask_bound(lanes: Seq<i8>, key: i8, n: nat)
    ensures
        0 <= match_mask(lanes, key, n) < vstd::arithmetic::power2::pow2(n),
    decreases n,
{
    if n > 0 {
        lemma_match_mask_bound(lanes, key, (n - 1) as nat);
        vstd::arithmetic::power2::lemma_pow2_unfold(n);
        vstd::arithmetic::power2::lemma_pow2_pos((n - 1) as nat);
    } else {
        vstd::arithmetic::power2::lemma2_to64();
    }
}

/// The mask of the lanes of a 16-byte vector equal to `key`, as the SSE2
/// byte compare and move-mask give it: bit `i` set when lane `i` is `key`.
pub fn byte_match_mask(lanes: [i8; 16], key: i8) -> (r: i32)
    ensures
        r == match_mask(lanes@, key, 16),
        0 <= r < 65536,
{
    let mut r: i32 = 0;
    let mut bit: i32 = 1;
    let mut i: usize = 0;
    proof {
        vstd::arithmetic::power2::lemma2_to64();
    }
    while i < 16
        invariant
            i <= 16,
            bit == vstd::arithmetic::power2::pow2(i as nat),
            r == match_mask(lanes@, key, i as nat),
            0 <= r < bit,
            bit <= 65536,
        decreases 16 - i,
    {
        proof {
            lemma_match_mask_bound(lanes@, key, (i + 1) as nat);
            vstd::arithmetic::power2::lemma_pow2_unfold((i + 1) as nat);
            vstd::arithmetic::power2::lemma2_to64();
        }
        if lanes[i] == key {
            r = r + bit;
        }
        i = i + 1;
        if i < 16 {
            bit = bit * 2;
        } else {
            bit = 65536;
        }
    }
    r
}

} // verus!
