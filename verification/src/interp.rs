//! Piecewise interpolation over ordered breakpoints.
//!
//! The interpolator takes parallel sequences of domain points (frequencies)
//! and range points (limits), a query, and a mode. It clamps queries outside
//! the domain to the first or last range value, and otherwise scans for the
//! first bracketing interval in list order and interpolates the range value
//! linearly by the query's position between the two domain points. In
//! logarithmic mode that position is measured on the log-frequency axis of
//! [`crate::logq`]; the range values are interpolated linearly in either mode,
//! since limits are in dB and therefore already logarithmic.
//!
//! Degenerate input (empty sequences, or sequences of unequal length) yields
//! the sentinel value `0` rather than an error: masks come from a data-driven
//! catalog, and a malformed mask must degrade gracefully, not crash.

use vstd::prelude::*;

verus! {

use crate::logq::lg_q32;
use crate::logq::log_q32;
use crate::logq::lemma_lg_q32_monotone;
use crate::units::MAX_DB;
use crate::units::amps_bounded;
use crate::units::div_trunc;
use crate::units::div_trunc_i128;
use vstd::arithmetic::div_mod::lemma_div_is_ordered;
use vstd::arithmetic::div_mod::lemma_div_by_multiple;
use vstd::arithmetic::mul::lemma_mul_inequality;

/// Which axis the domain points are measured on during interpolation.
#[derive(Clone, Copy, Debug, PartialEq, Eq, Structural)]
pub enum InterpMode {
    /// Interpolate by the plain difference of domain values.
    Linear,
    /// Interpolate by the difference of log-frequency axis values.
    Logarithmic,
}

/// The position of a domain point on the chosen axis.
pub open spec fn axis_spec(mode: InterpMode, x: nat) -> int {
    match mode {
        InterpMode::Linear => x as int,
        InterpMode::Logarithmic => lg_q32(x),
    }
}

/// The interpolated range value on one bracket, by the query's position
/// between the two domain points on the axis. A zero-width bracket (a step
/// encoded as a repeated frequency, or two frequencies the axis cannot tell
/// apart) has no defined slope and resolves to the left-hand range value.
pub open spec fn segment_spec(x0: int, x1: int, y0: int, y1: int, xq: int) -> int {
    if x1 == x0 {
        y0
    } else {
        y0 + div_trunc((xq - x0) * (y1 - y0), x1 - x0)
    }
}

/// The value of the ascending bracket scan started at index `i`: the first
/// interval in list order with `domain[i] <= query <= domain[i + 1]` decides;
/// if none matches, the scan falls back to the first range value.
pub open spec fn scan_spec(domain: Seq<u64>, range_vals: Seq<i64>, query: u64, mode: InterpMode, i: int) -> int
    recommends
        domain.len() == range_vals.len(),
        0 <= i,
    decreases domain.len() - i,
{
    if i + 1 >= domain.len() {
        range_vals[0] as int
    } else if domain[i] <= query && query <= domain[i + 1] {
        segment_spec(
            axis_spec(mode, domain[i] as nat),
            axis_spec(mode, domain[i + 1] as nat),
            range_vals[i] as int,
            range_vals[i + 1] as int,
            axis_spec(mode, query as nat),
        )
    } else {
        scan_spec(domain, range_vals, query, mode, i + 1)
    }
}

/// What `interpolate` returns: the sentinel `0` on degenerate input, the
/// clamped boundary value outside the domain, and the bracket scan inside it.
pub open spec fn interp_spec(domain: Seq<u64>, range_vals: Seq<i64>, query: u64, mode: InterpMode) -> int {
    if domain.len() == 0 || range_vals.len() == 0 || domain.len() != range_vals.len() {
        0
    } else if query <= domain[0] {
        range_vals[0] as int
    } else if query >= domain[domain.len() - 1] {
        range_vals[domain.len() - 1] as int
    } else {
        scan_spec(domain, range_vals, query, mode, 0)
    }
}

/// The axis position of a domain point, as executable code.
fn axis_value(mode: InterpMode, x: u64) -> (r: u64)
    ensures
        r == axis_spec(mode, x as nat),
{
    match mode {
        InterpMode::Linear => x,
        InterpMode::Logarithmic => log_q32(x),
    }
}

/// Interpolates the range value at `query` over ordered `(domain, range)`
/// breakpoints, in the chosen mode.
///
/// Degenerate input (empty or length-mismatched sequences) returns `0`;
/// a query at or outside the domain boundaries returns the clamped boundary
/// value; anything else is decided by the first bracketing interval in list
/// order. The result always lies within `MAX_DB` of zero.
#[verifier::loop_isolation(false)]
pub fn interpolate(domain: &Vec<u64>, range_vals: &Vec<i64>, query: u64, mode: InterpMode) -> (r: i64)
    requires
        amps_bounded(range_vals@),
    ensures
        r == interp_spec(domain@, range_vals@, query, mode),
        -MAX_DB <= r <= MAX_DB,
{
    if domain.len() == 0 || range_vals.len() == 0 || domain.len() != range_vals.len() {
        return 0;
    }
    if query <= domain[0] {
        return range_vals[0];
    }
    if query >= domain[domain.len() - 1] {
        return range_vals[range_vals.len() - 1];
    }
    let n = domain.len();
    let mut i: usize = 0;
    while i < n - 1
        invariant
            0 <= i <= n - 1,
            scan_spec(domain@, range_vals@, query, mode, 0) == scan_spec(
                domain@,
                range_vals@,
                query,
                mode,
                i as int,
            ),
        decreases n - i,
    {
        if domain[i] <= query && query <= domain[i + 1] {
            let x0 = axis_value(mode, domain[i]);
            let x1 = axis_value(mode, domain[i + 1]);
            let xq = axis_value(mode, query);
            proof {
                if mode is Logarithmic {
                    lemma_lg_q32_monotone(domain@[i as int] as nat, query as nat);
                    lemma_lg_q32_monotone(query as nat, domain@[i as int + 1] as nat);
                }
                assert(x0 <= xq <= x1);
            }
            if x1 == x0 {
                return range_vals[i];
            }
            let y0 = range_vals[i];
            let y1 = range_vals[i + 1];
            let num: u64 = xq - x0;
            let den: u64 = x1 - x0;
            proof {
                assert(num * (y1 - y0) <= num * (2 * MAX_DB)) by {
                    lemma_mul_inequality((y1 - y0) as int, 2 * MAX_DB, num as int);
                    vstd::arithmetic::mul::lemma_mul_is_commutative(num as int, (y1 - y0) as int);
                    vstd::arithmetic::mul::lemma_mul_is_commutative(num as int, 2 * MAX_DB);
                }
                assert(num * (-(2 * MAX_DB)) <= num * (y1 - y0)) by {
                    lemma_mul_inequality(-(2 * MAX_DB), (y1 - y0) as int, num as int);
                    vstd::arithmetic::mul::lemma_mul_is_commutative(num as int, (y1 - y0) as int);
                    vstd::arithmetic::mul::lemma_mul_is_commutative(num as int, -(2 * MAX_DB));
                }
                assert(num * (2 * MAX_DB) <= 0xffff_ffff_ffff_ffff * (2 * MAX_DB as int)) by {
                    lemma_mul_inequality(num as int, 0xffff_ffff_ffff_ffff, 2 * MAX_DB);
                }
            }
            let prod: i128 = (num as i128) * ((y1 - y0) as i128);
            let t_wide: i128 = div_trunc_i128(prod, den as i128);
            proof {
                lemma_segment_between(x0 as int, x1 as int, y0 as int, y1 as int, xq as int);
                assert(t_wide == div_trunc((xq - x0) * (y1 - y0), x1 - x0));
                if y0 <= y1 {
                    assert(y0 + t_wide <= y1);
                    assert(0 <= t_wide);
                } else {
                    assert(y1 <= y0 + t_wide);
                    assert(t_wide <= 0);
                }
            }
            let t: i64 = t_wide as i64;
            return y0 + t;
        }
        i = i + 1;
    }
    range_vals[0]
}

/// On a non-degenerate bracket the interpolated value lies between the two
/// range endpoints.
pub proof fn lemma_segment_between(x0: int, x1: int, y0: int, y1: int, xq: int)
    requires
        x0 <= xq <= x1,
        x0 < x1,
    ensures
        y0 <= y1 ==> y0 <= segment_spec(x0, x1, y0, y1, xq) <= y1,
        y1 <= y0 ==> y1 <= segment_spec(x0, x1, y0, y1, xq) <= y0,
{
    let num = xq - x0;
    let den = x1 - x0;
    let dy = y1 - y0;
    if dy >= 0 {
        let t = (num * dy) / den;
        assert(0 <= num * dy) by {
            vstd::arithmetic::mul::lemma_mul_nonnegative(num, dy);
        }
        assert(div_trunc(num * dy, den) == t);
        vstd::arithmetic::div_mod::lemma_div_pos_is_pos(num * dy, den);
        assert(num * dy <= den * dy) by {
            lemma_mul_inequality(num, den, dy);
            vstd::arithmetic::mul::lemma_mul_is_commutative(num, dy);
            vstd::arithmetic::mul::lemma_mul_is_commutative(den, dy);
        }
        lemma_div_is_ordered(num * dy, den * dy, den);
        assert((den * dy) / den == dy) by {
            lemma_div_by_multiple(dy, den);
            vstd::arithmetic::mul::lemma_mul_is_commutative(den, dy);
        }
    } else {
        let m = -dy;
        let t = (num * m) / den;
        assert(num * dy == -(num * m)) by {
            vstd::arithmetic::mul::lemma_mul_is_distributive_sub(num, 0, m);
        }
        assert(div_trunc(num * dy, den) == -t);
        assert(0 <= num * m) by {
            vstd::arithmetic::mul::lemma_mul_nonnegative(num, m);
        }
        vstd::arithmetic::div_mod::lemma_div_pos_is_pos(num * m, den);
        assert(num * m <= den * m) by {
            lemma_mul_inequality(num, den, m);
            vstd::arithmetic::mul::lemma_mul_is_commutative(num, m);
            vstd::arithmetic::mul::lemma_mul_is_commutative(den, m);
        }
        lemma_div_is_ordered(num * m, den * m, den);
        assert((den * m) / den == m) by {
            lemma_div_by_multiple(m, den);
            vstd::arithmetic::mul::lemma_mul_is_commutative(den, m);
        }
    }
}

} // verus!
