//! Units and scaling constants.
//!
//! Frequencies are plain integers in hertz. Amplitudes and limits are in
//! dBµV, held as `i64` multiples of `1 / DB_SCALE` dB, so that the value
//! `v: i64` stands for `v / DB_SCALE` dBµV.

use vstd::prelude::*;

verus! {

/// One kilohertz, in hertz.
pub const KHZ: u64 = 1_000;

/// One megahertz, in hertz.
pub const MHZ: u64 = 1_000_000;

/// One gigahertz, in hertz.
pub const GHZ: u64 = 1_000_000_000;

/// Fixed-point scale of all amplitude and limit values: one dBµV is
/// `DB_SCALE` units.
pub const DB_SCALE: i64 = 1_000_000_000_000;

/// Largest magnitude an amplitude, limit or mask breakpoint may have:
/// 1000 dBµV in scaled units. The bound keeps every intermediate product of
/// the statistics and interpolation routines inside 128-bit arithmetic.
pub const MAX_DB: i64 = 1_000 * DB_SCALE;

/// Every value of the sequence is an amplitude within `MAX_DB` of zero.
pub open spec fn amps_bounded(s: Seq<i64>) -> bool {
    forall|i: int| 0 <= i < s.len() ==> -MAX_DB <= #[trigger] s[i] <= MAX_DB
}

/// Largest measurement batch the statistics routines accept; with amplitudes
/// bounded by `MAX_DB`, the sum of squared deviations of such a batch still
/// fits 128-bit arithmetic.
pub const MAX_BATCH: usize = 10_000_000;

/// Truncating division (the rounding of Rust's `/` operator) for a positive
/// divisor: the exact quotient rounded towards zero.
pub open spec fn div_trunc(a: int, b: int) -> int {
    if a >= 0 {
        a / b
    } else {
        -((-a) / b)
    }
}

/// Truncating division of a signed 128-bit value by a positive divisor.
pub fn div_trunc_i128(a: i128, b: i128) -> (r: i128)
    requires
        b > 0,
        -0x4000_0000_0000_0000_0000_0000_0000_0000 < a,
    ensures
        r == div_trunc(a as int, b as int),
{
    if a >= 0 {
        ((a as u128) / (b as u128)) as i128
    } else {
        let m: u128 = (-a) as u128;
        proof {
            assert(m / (b as u128) <= m) by {
                vstd::arithmetic::div_mod::lemma_div_nonincreasing(m as int, b as int);
            }
        }
        -((m / (b as u128)) as i128)
    }
}

} // verus!
