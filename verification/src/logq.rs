//! The log-frequency axis.
//!
//! EMC limit masks interpolate over the logarithm of the frequency. This
//! module defines the scale used for that axis: a piecewise linear base-two
//! logarithm in 32-bit fixed point. For a frequency `x` with
//! `2^e <= x < 2^(e+1)` the scaled log value is
//! `e * LOG_SCALE + (x - 2^e) * LOG_SCALE / 2^e`: exact at every power of
//! two, linear in between, and monotone everywhere, which is all the
//! interpolator and the mask sampler rely on. `pow_q32` is the inverse map
//! from the axis back to a frequency; on frequencies below `2^33` the two are
//! exact inverses.

use vstd::prelude::*;

verus! {

use vstd::arithmetic::power2::pow2;
use vstd::arithmetic::power2::lemma_pow2_unfold;
use vstd::arithmetic::power2::lemma_pow2_strictly_increases;
use vstd::arithmetic::power2::lemma_pow2_adds;
use vstd::arithmetic::power2::lemma_pow2_pos;
use vstd::arithmetic::div_mod::lemma_div_is_ordered;
use vstd::arithmetic::div_mod::lemma_multiply_divide_lt;
use vstd::arithmetic::div_mod::lemma_div_by_multiple;
use vstd::arithmetic::div_mod::lemma_fundamental_div_mod_converse;
use vstd::arithmetic::mul::lemma_mul_inequality;
use vstd::arithmetic::mul::lemma_mul_strict_inequality;

/// One unit of the integer part of the log-frequency axis: the axis value
/// rises by `LOG_SCALE` whenever the frequency doubles.
pub const LOG_SCALE: u64 = 0x1_0000_0000;

/// Floor of the base-two logarithm: the position of the leading one bit.
pub open spec fn floor_lg(x: nat) -> nat
    decreases x,
{
    if x < 2 {
        0
    } else {
        (1 + floor_lg((x / 2) as nat)) as nat
    }
}

/// The log-frequency axis value of `x`, in `LOG_SCALE` fixed point.
/// `lg_q32(0)` is defined as 0 so that the map is total; callers clamp
/// queries below the lowest breakpoint before ever looking at the axis.
pub open spec fn lg_q32(x: nat) -> int {
    if x == 0 {
        0
    } else {
        let e = floor_lg(x);
        e * LOG_SCALE + ((x - pow2(e)) * LOG_SCALE) / (pow2(e) as int)
    }
}

/// The inverse map of the log-frequency axis: the frequency whose axis value
/// is `v`.
pub open spec fn pow_q32(v: nat) -> int {
    let e = v / (LOG_SCALE as nat);
    let f = v % (LOG_SCALE as nat);
    pow2(e) + ((pow2(e) * f) as int) / (LOG_SCALE as int)
}

/// `floor_lg` brackets its argument between two powers of two.
pub proof fn lemma_floor_lg_bounds(x: nat)
    requires
        x >= 1,
    ensures
        pow2(floor_lg(x)) <= x < pow2(floor_lg(x) + 1),
    decreases x,
{
    if x < 2 {
        assert(pow2(0) == 1) by {
            vstd::arithmetic::power2::lemma2_to64();
        }
        assert(pow2(1) == 2) by {
            vstd::arithmetic::power2::lemma2_to64();
        }
    } else {
        let h = (x / 2) as nat;
        lemma_floor_lg_bounds(h);
        let e = floor_lg(h);
        lemma_pow2_unfold(e + 1);
        lemma_pow2_unfold(e + 2);
        assert(2 * h <= x < 2 * h + 2);
        assert(pow2(e + 1) == 2 * pow2(e));
        assert(pow2(e + 2) == 2 * pow2(e + 1));
    }
}

/// `floor_lg` is monotone.
pub proof fn lemma_floor_lg_monotone(x: nat, y: nat)
    requires
        1 <= x <= y,
    ensures
        floor_lg(x) <= floor_lg(y),
{
    lemma_floor_lg_bounds(x);
    lemma_floor_lg_bounds(y);
    if floor_lg(x) > floor_lg(y) {
        // then pow2(floor_lg(y) + 1) <= pow2(floor_lg(x)) <= x <= y
        if floor_lg(y) + 1 < floor_lg(x) {
            lemma_pow2_strictly_increases(floor_lg(y) + 1, floor_lg(x));
        }
        assert(false);
    }
}

/// The axis value of a frequency sits between its octave's start and end:
/// the integer part of the axis value is `floor_lg`.
pub proof fn lemma_lg_q32_bounds(x: nat)
    requires
        x >= 1,
    ensures
        floor_lg(x) * LOG_SCALE <= lg_q32(x) < (floor_lg(x) + 1) * LOG_SCALE,
{
    let e = floor_lg(x);
    lemma_floor_lg_bounds(x);
    lemma_pow2_pos(e);
    lemma_pow2_unfold(e + 1);
    assert(x - pow2(e) < pow2(e));
    assert(((x - pow2(e)) * LOG_SCALE) < pow2(e) * LOG_SCALE) by {
        lemma_mul_strict_inequality((x - pow2(e)) as int, pow2(e) as int, LOG_SCALE as int);
    }
    assert(((x - pow2(e)) * LOG_SCALE) / (pow2(e) as int) < LOG_SCALE) by {
        lemma_multiply_divide_lt(((x - pow2(e)) * LOG_SCALE) as int, pow2(e) as int, LOG_SCALE as int);
    }
}

/// The axis is monotone: a higher frequency never has a lower axis value.
pub proof fn lemma_lg_q32_monotone(x: nat, y: nat)
    requires
        x <= y,
    ensures
        lg_q32(x) <= lg_q32(y),
{
    if x == 0 {
        if y >= 1 {
            lemma_lg_q32_bounds(y);
        }
    } else {
        let ex = floor_lg(x);
        let ey = floor_lg(y);
        lemma_floor_lg_monotone(x, y);
        lemma_lg_q32_bounds(x);
        lemma_lg_q32_bounds(y);
        if ex == ey {
            lemma_pow2_pos(ex);
            assert((x - pow2(ex)) * LOG_SCALE <= (y - pow2(ex)) * LOG_SCALE) by {
                lemma_mul_inequality((x - pow2(ex)) as int, (y - pow2(ex)) as int, LOG_SCALE as int);
            }
            lemma_div_is_ordered(
                ((x - pow2(ex)) * LOG_SCALE) as int,
                ((y - pow2(ex)) * LOG_SCALE) as int,
                pow2(ex) as int,
            );
        } else {
            assert(lg_q32(x) < (ex + 1) * LOG_SCALE);
            assert((ex + 1) * LOG_SCALE <= ey * LOG_SCALE) by {
                lemma_mul_inequality((ex + 1) as int, ey as int, LOG_SCALE as int);
            }
        }
    }
}

/// The inverse map is monotone.
pub proof fn lemma_pow_q32_monotone(v: nat, w: nat)
    requires
        v <= w,
    ensures
        pow_q32(v) <= pow_q32(w),
{
    let ev = v / LOG_SCALE as nat;
    let ew = w / LOG_SCALE as nat;
    let fv = v % LOG_SCALE as nat;
    let fw = w % LOG_SCALE as nat;
    lemma_div_is_ordered(v as int, w as int, LOG_SCALE as int);
    lemma_pow2_pos(ev);
    lemma_pow2_pos(ew);
    if ev == ew {
        vstd::arithmetic::div_mod::lemma_fundamental_div_mod(v as int, LOG_SCALE as int);
        vstd::arithmetic::div_mod::lemma_fundamental_div_mod(w as int, LOG_SCALE as int);
        assert(fv <= fw);
        assert(pow2(ev) * fv <= pow2(ev) * fw) by {
            lemma_mul_inequality(fv as int, fw as int, pow2(ev) as int);
        }
        lemma_div_is_ordered((pow2(ev) * fv) as int, (pow2(ev) * fw) as int, LOG_SCALE as int);
    } else {
        assert(ev < ew);
        // pow_q32(v) < 2 * pow2(ev) == pow2(ev + 1) <= pow2(ew) <= pow_q32(w)
        vstd::arithmetic::div_mod::lemma_mod_division_less_than_divisor(v as int, LOG_SCALE as int);
        assert(pow2(ev) * fv < pow2(ev) * LOG_SCALE) by (nonlinear_arith)
            requires
                fv < LOG_SCALE,
                pow2(ev) >= 1,
        ;
        assert(((pow2(ev) * fv) as int) / (LOG_SCALE as int) < pow2(ev)) by {
            lemma_multiply_divide_lt((pow2(ev) * fv) as int, LOG_SCALE as int, pow2(ev) as int);
        }
        lemma_pow2_unfold(ev + 1);
        if ev + 1 < ew {
            lemma_pow2_strictly_increases(ev + 1, ew);
        }
    }
}

/// Below `2^33` the two maps are exact inverses: sampling a frequency on the
/// axis and mapping it back returns the same frequency.
pub proof fn lemma_pow_lg_identity(x: nat)
    requires
        1 <= x < 0x2_0000_0000,
    ensures
        pow_q32(lg_q32(x) as nat) == x,
{
    let e = floor_lg(x);
    lemma_floor_lg_bounds(x);
    lemma_pow2_pos(e);
    assert(pow2(33) == 0x2_0000_0000) by {
        vstd::arithmetic::power2::lemma2_to64_rest();
    }
    if e > 32 {
        // then pow2(33) <= pow2(e) <= x, contradicting x < 2^33
        if 33 < e {
            lemma_pow2_strictly_increases(33, e);
        }
        assert(false);
    }
    // e <= 32, so (x - 2^e) * 2^32 is an exact multiple of 2^e.
    let m = (x - pow2(e)) as nat;
    lemma_pow2_adds(e, (32 - e) as nat);
    assert(pow2(32) == 0x1_0000_0000) by {
        vstd::arithmetic::power2::lemma2_to64();
    }
    assert((LOG_SCALE as nat) == pow2(e) * pow2((32 - e) as nat));
    let frac = ((m * LOG_SCALE) as int) / (pow2(e) as int);
    assert(m * (pow2(e) * pow2((32 - e) as nat)) == (m * pow2((32 - e) as nat)) * pow2(e))
        by (nonlinear_arith);
    assert(frac == m * pow2((32 - e) as nat)) by {
        lemma_div_by_multiple((m * pow2((32 - e) as nat)) as int, pow2(e) as int);
    }
    assert(m < pow2(e)) by {
        lemma_pow2_unfold(e + 1);
    }
    assert(frac < LOG_SCALE) by (nonlinear_arith)
        requires
            frac == m * pow2((32 - e) as nat),
            m < pow2(e),
            (LOG_SCALE as nat) == pow2(e) * pow2((32 - e) as nat),
            pow2((32 - e) as nat) >= 1,
    ;
    let v = lg_q32(x);
    assert(v == e * LOG_SCALE + frac);
    assert(v / (LOG_SCALE as int) == e && v % (LOG_SCALE as int) == frac) by {
        lemma_fundamental_div_mod_converse(v as int, LOG_SCALE as int, e as int, frac as int);
    }
    // pow_q32(v) == 2^e + (2^e * m * 2^(32-e)) / 2^32 == 2^e + m == x
    assert(pow2(e) * frac == m * (LOG_SCALE as nat)) by (nonlinear_arith)
        requires
            frac == m * pow2((32 - e) as nat),
            (LOG_SCALE as nat) == pow2(e) * pow2((32 - e) as nat),
    ;
    assert((m * (LOG_SCALE as nat)) / (LOG_SCALE as nat) == m) by {
        lemma_div_by_multiple(m as int, LOG_SCALE as int);
    }
}

/// Computes the axis value `lg_q32(x)` of a frequency.
#[verifier::loop_isolation(false)]
pub fn log_q32(x: u64) -> (r: u64)
    ensures
        r == lg_q32(x as nat),
        r < 64 * LOG_SCALE,
{
    if x == 0 {
        assert(lg_q32(0) == 0);
        return 0;
    }
    let mut e: u64 = 0;
    let mut pw: u64 = 1;
    let mut y: u64 = x;
    proof {
        assert(pow2(0) == 1) by {
            vstd::arithmetic::power2::lemma2_to64();
        }
        assert(pow2(64) == 0x1_0000_0000_0000_0000) by {
            vstd::arithmetic::power2::lemma2_to64();
        }
    }
    while y >= 2
        invariant
            1 <= y <= x,
            e <= 63,
            pw == pow2(e as nat),
            pw <= x,
            floor_lg(x as nat) == e + floor_lg(y as nat),
        decreases y,
    {
        proof {
            lemma_pow2_pos(e as nat);
            lemma_pow2_unfold(e as nat + 1);
            // y >= 2 and pw * y <= ... keeps pw * 2 below 2^64.
            assert(floor_lg(y as nat) == 1 + floor_lg((y as nat / 2) as nat));
            lemma_floor_lg_bounds(y as nat);
            assert(pow2(e as nat + 1) <= pow2(e as nat) * pow2(floor_lg(y as nat))) by {
                lemma_pow2_adds(e as nat, floor_lg(y as nat));
                vstd::arithmetic::power2::lemma_pow2_pos(floor_lg(y as nat));
                if 1 < floor_lg(y as nat) {
                    lemma_pow2_strictly_increases(1, floor_lg(y as nat));
                }
                assert(pow2(1) == 2) by {
                    vstd::arithmetic::power2::lemma2_to64();
                }
                lemma_mul_inequality(pow2(1) as int, pow2(floor_lg(y as nat)) as int, pow2(e as nat) as int);
            }
            assert(pow2(e as nat) * pow2(floor_lg(y as nat)) <= pow2(e as nat) * pow2((floor_lg(x as nat) - e) as nat)
                == pow2(floor_lg(x as nat))) by {
                lemma_pow2_adds(e as nat, (floor_lg(x as nat) - e) as nat);
            }
            lemma_floor_lg_bounds(x as nat);
            assert(pow2(e as nat + 1) <= x);
            if e as nat + 1 > 63 {
                if 64 < e as nat + 1 {
                    lemma_pow2_strictly_increases(64, e as nat + 1);
                }
                assert(false);
            }
        }
        y = y / 2;
        e = e + 1;
        pw = pw * 2;
    }
    proof {
        assert(floor_lg(y as nat) == 0);
        assert(e == floor_lg(x as nat));
        lemma_floor_lg_bounds(x as nat);
        lemma_pow2_unfold(e as nat + 1);
        assert(x < 2 * pow2(e as nat));
    }
    let frac_wide: u128 = ((x - pw) as u128 * LOG_SCALE as u128) / (pw as u128);
    proof {
        assert((x - pw) < pw);
        assert(((x - pw) as int * LOG_SCALE as int) < pw as int * LOG_SCALE as int) by {
            lemma_mul_strict_inequality((x - pw) as int, pw as int, LOG_SCALE as int);
        }
        lemma_multiply_divide_lt(((x - pw) as int * LOG_SCALE as int), pw as int, LOG_SCALE as int);
        assert(frac_wide < LOG_SCALE);
        assert(e * LOG_SCALE + frac_wide < 64 * LOG_SCALE) by {
            lemma_mul_inequality(e as int, 63, LOG_SCALE as int);
        }
    }
    let frac: u64 = frac_wide as u64;
    e * LOG_SCALE + frac
}

/// Computes the frequency `pow_q32(v)` at an axis value.
#[verifier::loop_isolation(false)]
pub fn exp_q32(v: u64) -> (r: u64)
    requires
        v < 64 * LOG_SCALE,
    ensures
        r == pow_q32(v as nat),
        r >= 1,
{
    let e: u64 = v / LOG_SCALE;
    let f: u64 = v % LOG_SCALE;
    proof {
        assert(e < 64) by {
            lemma_multiply_divide_lt(v as int, LOG_SCALE as int, 64);
        }
    }
    let mut pw: u64 = 1;
    let mut i: u64 = 0;
    proof {
        assert(pow2(0) == 1) by {
            vstd::arithmetic::power2::lemma2_to64();
        }
        assert(pow2(63) == 0x8000000000000000) by {
            vstd::arithmetic::power2::lemma2_to64_rest();
        }
    }
    while i < e
        invariant
            i <= e < 64,
            pw == pow2(i as nat),
        decreases e - i,
    {
        proof {
            lemma_pow2_unfold(i as nat + 1);
            if (i as nat) + 1 < 63 {
                lemma_pow2_strictly_increases(i as nat + 1, 63);
            }
        }
        pw = pw * 2;
        i = i + 1;
    }
    proof {
        if (e as nat) < 63 {
            lemma_pow2_strictly_increases(e as nat, 63);
        }
        assert(pw <= 0x8000000000000000);
    }
    proof {
        assert(f < LOG_SCALE);
        lemma_pow2_pos(e as nat);
        assert((pw as int) * (f as int) < (pw as int) * (LOG_SCALE as int)) by (nonlinear_arith)
            requires
                f < LOG_SCALE,
                pw >= 1,
        ;
    }
    let add_wide: u128 = (pw as u128 * f as u128) / (LOG_SCALE as u128);
    proof {
        lemma_multiply_divide_lt((pw as int * f as int), LOG_SCALE as int, pw as int);
        assert(add_wide < pw);
    }
    pw + (add_wide as u64)
}

/// An axis value below `64 * LOG_SCALE` maps back to a frequency that fits
/// 64 bits.
pub proof fn lemma_pow_q32_bounds(v: nat)
    requires
        v < 64 * LOG_SCALE,
    ensures
        1 <= pow_q32(v) < 0x1_0000_0000_0000_0000,
{
    let e = v / (LOG_SCALE as nat);
    let f = v % (LOG_SCALE as nat);
    assert(e < 64) by {
        lemma_multiply_divide_lt(v as int, LOG_SCALE as int, 64);
    }
    lemma_pow2_pos(e);
    assert(pow2(63) == 0x8000_0000_0000_0000) by {
        vstd::arithmetic::power2::lemma2_to64_rest();
    }
    if e < 63 {
        lemma_pow2_strictly_increases(e, 63);
    }
    vstd::arithmetic::div_mod::lemma_mod_division_less_than_divisor(v as int, LOG_SCALE as int);
    assert(pow2(e) * f < pow2(e) * LOG_SCALE) by (nonlinear_arith)
        requires
            f < LOG_SCALE,
            pow2(e) >= 1,
    ;
    assert(((pow2(e) * f) as int) / (LOG_SCALE as int) < pow2(e)) by {
        lemma_multiply_divide_lt((pow2(e) * f) as int, LOG_SCALE as int, pow2(e) as int);
    }
    assert(((pow2(e) * f) as int) / (LOG_SCALE as int) >= 0) by {
        vstd::arithmetic::div_mod::lemma_div_pos_is_pos((pow2(e) * f) as int, LOG_SCALE as int);
    }
}

} // verus!
