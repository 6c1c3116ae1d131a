//! Measured distances and when one differs from another.
//!
//! The sensor reports whole millimetres. A distance counts as its number of metres rounded to
//! double precision, and two of them differ if their difference, rounded in turn, is more than
//! 0.15. Where two distances are exactly 150 mm apart the rounding decides, so it is followed here
//! to the last bit, in units of 2^-62 m: every double from 1 mm on is a whole number of them.

use vstd::arithmetic::power2::{lemma2_to64, lemma_pow2_pos, lemma_pow2_unfold, pow2};
use vstd::prelude::*;

verus! {

/// The distance of `a` and `b` on a line.
pub open spec fn gap(a: int, b: int) -> int {
    if a < b {
        b - a
    } else {
        a - b
    }
}

/// How many units a metre has.
pub const UNITS_PER_METRE: u128 = 0x4000_0000_0000_0000;

/// The least difference, in units, that rounds to more than 0.15 m. The double next to 0.15 is
/// `0x13333333333333 * 2^-55`, an odd multiple of its last place, so the half way point above it
/// rounds up.
pub const MATCH_TOLERANCE: u128 = 0x13_3333_3333_3333 * 128 + 64;

/// The last place, in units, of the double for `mm` millimetres, if it is `u` or more: twice `u`
/// and so on while the binade of that last place begins at or below `mm`.
pub open spec fn last_place_from(mm: int, u: int) -> int
    decreases 1024 * mm - u,
{
    if 1 <= u && 2000 * u <= 1024 * mm {
        last_place_from(mm, 2 * u)
    } else {
        u
    }
}

/// The last place, in units, of the double for `mm` millimetres.
pub open spec fn last_place(mm: int) -> int {
    last_place_from(mm, 1)
}

/// `mm` millimetres as a double number of metres, in units: the multiple of the last place that is
/// nearest to `mm / 1000`.
pub open spec fn metres(mm: int) -> int {
    let u = last_place(mm);
    (mm * UNITS_PER_METRE + 500 * u) / (1000 * u) * u
}

/// `mm` millimetres are more than 0.15 m away from `other` millimetres.
pub open spec fn differs(mm: int, other: int) -> bool {
    gap(metres(mm), metres(other)) >= MATCH_TOLERANCE
}

fn find_last_place(mm: u32) -> (u: u128)
    ensures
        u == last_place(mm as int),
        1 <= u,
        u == 1 || 1000 * u <= 1024 * mm,
        1024 * mm < 2000 * u,
{
    let mut u: u128 = 1;
    while 2000 * u <= 1024 * (mm as u128)
        invariant
            1 <= u,
            u == 1 || 1000 * u <= 1024 * mm,
            last_place(mm as int) == last_place_from(mm as int, u as int),
        decreases 1024 * mm - u,
    {
        u = 2 * u;
    }
    u
}

fn to_metres(mm: u32) -> (m: u128)
    ensures
        m == metres(mm as int),
{
    let u: u128 = find_last_place(mm);
    let mm: u128 = mm as u128;
    let q: u128 = (mm * UNITS_PER_METRE + 500 * u) / (1000 * u);
    proof {
        let n = mm * UNITS_PER_METRE + 500 * u;
        assert(n / (1000 * u) * u <= n) by (nonlinear_arith)
            requires
                u >= 1,
                n >= 0,
        ;
    }
    q * u
}

/// Whether `mm` and `other` are more than 0.15 m apart.
pub fn is_apart(mm: u32, other: u32) -> (r: bool)
    ensures
        r == differs(mm as int, other as int),
{
    let a: u128 = to_metres(mm);
    let b: u128 = to_metres(other);
    if a < b {
        b - a >= MATCH_TOLERANCE
    } else {
        a - b >= MATCH_TOLERANCE
    }
}

proof fn lemma_last_place_bound(mm: int, u: int)
    requires
        1 <= u,
        0 <= mm,
        u == 1 || 1000 * u <= 1024 * mm,
    ensures
        last_place_from(mm, u) >= 1,
        last_place_from(mm, u) == 1 || 1000 * last_place_from(mm, u) <= 1024 * mm,
    decreases 1024 * mm - u,
{
    if 2000 * u <= 1024 * mm {
        lemma_last_place_bound(mm, 2 * u);
    }
}

/// A double is off by no more than half its last place.
proof fn lemma_rounding(mm: int)
    requires
        0 <= mm,
    ensures
        mm * UNITS_PER_METRE - 500 * last_place(mm) <= 1000 * metres(mm) <= mm * UNITS_PER_METRE
            + 500 * last_place(mm),
{
    let u = last_place(mm);
    lemma_last_place_bound(mm, 1);
    let n = mm * UNITS_PER_METRE + 500 * u;
    let q = n / (1000 * u);
    assert(n - 1000 * u <= 1000 * (q * u) <= n) by (nonlinear_arith)
        requires
            u >= 1,
            n >= 0,
            q == n / (1000 * u),
    ;
}

/// Distances more than 150 mm apart differ, distances less than 150 mm apart do not, and it does
/// not matter which of the two comes first.
pub proof fn lemma_tolerance(mm: int, other: int)
    requires
        0 <= mm <= u32::MAX,
        0 <= other <= u32::MAX,
    ensures
        gap(mm, other) > 150 ==> differs(mm, other),
        gap(mm, other) < 150 ==> !differs(mm, other),
        differs(mm, other) == differs(other, mm),
{
    lemma_last_place_bound(mm, 1);
    lemma_last_place_bound(other, 1);
    lemma_rounding(mm);
    lemma_rounding(other);
}

/// What doubling from a power of two on leads to is a power of two.
proof fn lemma_last_place_is_power(mm: int, u: int, e: nat) -> (f: nat)
    requires
        u == pow2(e),
        u == 1 || 1000 * u <= 1024 * mm,
        1 <= mm,
    ensures
        last_place_from(mm, u) == pow2(f),
        1000 * pow2(f) <= 1024 * mm < 2000 * pow2(f),
    decreases 1024 * mm - u,
{
    lemma_pow2_pos(e);
    if 2000 * u <= 1024 * mm {
        lemma_pow2_unfold(e + 1);
        lemma_last_place_is_power(mm, 2 * u, e + 1)
    } else {
        e
    }
}

/// `metres` is what a correctly rounded division gives: a number with 53 binary digits, that is a
/// multiple of some power of two between 2^52 and 2^53 times that power, and none is nearer to
/// `mm / 1000` metres of 2^62 units each.
pub proof fn lemma_metres_is_nearest(mm: int) -> (e: nat)
    requires
        1 <= mm <= u32::MAX,
    ensures
        metres(mm) % (pow2(e) as int) == 0,
        0x10_0000_0000_0000 * pow2(e) <= metres(mm) <= 0x20_0000_0000_0000 * pow2(e),
        gap(1000 * metres(mm), mm * 0x4000_0000_0000_0000) <= 500 * pow2(e),
{
    lemma2_to64();
    let e = lemma_last_place_is_power(mm, 1, 0);
    let u = pow2(e) as int;
    assert(u == last_place(mm));
    lemma_rounding(mm);
    let n = mm * 0x4000_0000_0000_0000 + 500 * u;
    let q = n / (1000 * u);
    assert(metres(mm) == q * u);
    vstd::arithmetic::div_mod::lemma_mod_multiples_basic(q, u);
    assert(0x10_0000_0000_0000 <= q <= 0x20_0000_0000_0000) by (nonlinear_arith)
        requires
            u >= 1,
            q == n / (1000 * u),
            n == mm * 0x4000_0000_0000_0000 + 500 * u,
            1000 * u <= 1024 * mm < 2000 * u,
    ;
    assert(0x10_0000_0000_0000 * u <= q * u <= 0x20_0000_0000_0000 * u) by (nonlinear_arith)
        requires
            u >= 1,
            0x10_0000_0000_0000 <= q <= 0x20_0000_0000_0000,
    ;
    e
}

/// Two distances differ exactly if their difference is at least half way from 0.15, which is
/// 0x13333333333333 steps of 128 units, to the next number. Nothing lies at no distance.
pub proof fn lemma_half_way_decides(mm: int, other: int)
    ensures
        differs(mm, other) <==> 2 * gap(metres(mm), metres(other)) >= (2 * 0x13_3333_3333_3333 + 1)
            * 128,
        metres(0) == 0,
{
    assert(last_place(0) == 1);
    assert(500int / 1000int * 1 == 0);
}

} // verus!
