//! Log-spaced sampling of limit-mask curves for plotting.
//!
//! The sampler spreads a requested number of frequencies evenly over the
//! log-frequency axis between `f_min` and `f_max`, both included, and
//! evaluates the mask at every point. The average curve always has the full
//! number of points; a quasi-peak or peak point is kept only when its
//! evaluated limit is strictly positive, so those curves may be shorter —
//! the filter drops degenerate derived limits at the low end of a sweep.

use vstd::prelude::*;

verus! {

use crate::logq::LOG_SCALE;
use crate::logq::lg_q32;
use crate::logq::pow_q32;
use crate::logq::log_q32;
use crate::logq::exp_q32;
use crate::logq::lemma_lg_q32_monotone;
use crate::logq::lemma_pow_q32_monotone;
use crate::logq::lemma_pow_lg_identity;
use crate::mask::EMCStandard;
use vstd::arithmetic::div_mod::lemma_div_is_ordered;
use vstd::arithmetic::div_mod::lemma_div_by_multiple;
use vstd::arithmetic::mul::lemma_mul_inequality;

/// One sampled point of a limit-mask curve.
#[derive(Clone, Copy, Debug, PartialEq, Eq, Structural)]
pub struct MaskPoint {
    /// Hertz.
    pub frequency: u64,
    /// Scaled dBµV.
    pub amplitude: i64,
}

impl MaskPoint {
    pub fn new(frequency: u64, amplitude: i64) -> (r: MaskPoint)
        ensures
            r.frequency == frequency,
            r.amplitude == amplitude,
    {
        MaskPoint { frequency, amplitude }
    }
}

/// The three sampled curves of one mask. `qp` and `pk` may be shorter than
/// `avg`: callers must not assume equal lengths across detectors.
#[derive(Clone, Debug)]
pub struct EMCMask {
    pub avg: Vec<MaskPoint>,
    pub qp: Vec<MaskPoint>,
    pub pk: Vec<MaskPoint>,
}

/// `log2(10) * LOG_SCALE`, rounded: one decade measured on the log-frequency
/// axis.
pub const DECADE_Q32: u64 = 14_267_572_527;

/// The `i`-th of `points` axis positions spread evenly from the axis value
/// of `f_min` to that of `f_max`.
pub open spec fn sample_l_spec(f_min: u64, f_max: u64, points: nat, i: nat) -> nat
    recommends
        1 <= f_min <= f_max,
        points >= 2,
        i < points,
{
    (lg_q32(f_min as nat) + (i * (lg_q32(f_max as nat) - lg_q32(f_min as nat))) / (points - 1)) as nat
}

/// The `i`-th sampled frequency: the grid position mapped back to hertz.
pub open spec fn sample_freq_spec(f_min: u64, f_max: u64, points: nat, i: nat) -> u64 {
    pow_q32(sample_l_spec(f_min, f_max, points, i)) as u64
}

/// The quasi-peak curve over the first `i` sampled frequencies: one point per
/// sample whose quasi-peak limit is strictly positive.
pub open spec fn qp_curve_spec(m: &EMCStandard, f_min: u64, f_max: u64, points: nat, i: nat) -> Seq<
    MaskPoint,
>
    decreases i,
{
    if i == 0 {
        Seq::empty()
    } else {
        let prev = qp_curve_spec(m, f_min, f_max, points, (i - 1) as nat);
        let f = sample_freq_spec(f_min, f_max, points, (i - 1) as nat);
        let lim = m.qp_limit_spec(f);
        if lim > 0 {
            prev.push(MaskPoint { frequency: f, amplitude: lim as i64 })
        } else {
            prev
        }
    }
}

/// The peak curve over the first `i` sampled frequencies, filtered the same
/// way.
pub open spec fn pk_curve_spec(m: &EMCStandard, f_min: u64, f_max: u64, points: nat, i: nat) -> Seq<
    MaskPoint,
>
    decreases i,
{
    if i == 0 {
        Seq::empty()
    } else {
        let prev = pk_curve_spec(m, f_min, f_max, points, (i - 1) as nat);
        let f = sample_freq_spec(f_min, f_max, points, (i - 1) as nat);
        let lim = m.pk_limit_spec(f);
        if lim > 0 {
            prev.push(MaskPoint { frequency: f, amplitude: lim as i64 })
        } else {
            prev
        }
    }
}

/// What `generate_adaptive_mask` promises of its result for `points` sampled
/// frequencies: a full-length average curve with the sampled frequencies in
/// non-decreasing order and the evaluated average limit at each, exact
/// endpoints whenever the axis is exact there (below `2^33` hertz), and the
/// filtered quasi-peak and peak curves.
pub open spec fn mask_curves_ok(
    m: &EMCStandard,
    f_min: u64,
    f_max: u64,
    points: nat,
    r: &EMCMask,
) -> bool {
    &&& r.avg@.len() == points
    &&& (forall|i: int|
        0 <= i < points ==> (#[trigger] r.avg@[i]).frequency == sample_freq_spec(
            f_min,
            f_max,
            points,
            i as nat,
        ))
    &&& (forall|i: int|
        0 <= i < points ==> (#[trigger] r.avg@[i]).amplitude == m.avg_limit_spec(
            r.avg@[i].frequency,
        ))
    &&& (forall|i: int, j: int|
        0 <= i <= j < points ==> (#[trigger] r.avg@[i]).frequency <= (#[trigger] r.avg@[j]).frequency)
    &&& (f_max < 0x2_0000_0000 ==> r.avg@[0].frequency == f_min && r.avg@[points - 1].frequency
        == f_max)
    &&& r.qp@ == qp_curve_spec(m, f_min, f_max, points, points)
    &&& r.pk@ == pk_curve_spec(m, f_min, f_max, points, points)
}

impl EMCStandard {

    /// Evaluates the mask on `target_points` frequencies spread evenly over the
    /// log-frequency axis from `f_min` to `f_max`, both included.
    #[verifier::loop_isolation(false)]
    pub fn generate_adaptive_mask(
        &self,
        f_min: u64,
        f_max: u64,
        target_points: usize,
    ) -> (r: EMCMask)
        requires
            self.limits_bounded(),
            1 <= f_min < f_max,
            target_points >= 2,
        ensures
            mask_curves_ok(self, f_min, f_max, target_points as nat, &r),
    {
        let l_min = log_q32(f_min);
        let l_max = log_q32(f_max);
        proof {
            lemma_lg_q32_monotone(f_min as nat, f_max as nat);
        }
        let span: u64 = l_max - l_min;
        let divisor: u64 = (target_points - 1) as u64;
        let mut avg_points: Vec<MaskPoint> = Vec::new();
        let mut qp_points: Vec<MaskPoint> = Vec::new();
        let mut pk_points: Vec<MaskPoint> = Vec::new();
        let mut i: usize = 0;
        while i < target_points
            invariant
                0 <= i <= target_points,
                avg_points@.len() == i,
                forall|k: int|
                    0 <= k < i ==> (#[trigger] avg_points@[k]).frequency == sample_freq_spec(
                        f_min,
                        f_max,
                        target_points as nat,
                        k as nat,
                    ),
                forall|k: int|
                    0 <= k < i ==> (#[trigger] avg_points@[k]).amplitude == self.avg_limit_spec(
                        avg_points@[k].frequency,
                    ),
                qp_points@ == qp_curve_spec(self, f_min, f_max, target_points as nat, i as nat),
                pk_points@ == pk_curve_spec(self, f_min, f_max, target_points as nat, i as nat),
            decreases target_points - i,
        {
            proof {
                assert((i as int) * (span as int) <= (divisor as int) * (span as int)) by {
                    lemma_mul_inequality(i as int, divisor as int, span as int);
                }
                assert((divisor as int) * (span as int) <= 0xffff_ffff_ffff_ffff * (64 * LOG_SCALE as int)) by {
                    lemma_mul_inequality(divisor as int, 0xffff_ffff_ffff_ffff, span as int);
                    lemma_mul_inequality(span as int, 64 * LOG_SCALE, 0xffff_ffff_ffff_ffff);
                    vstd::arithmetic::mul::lemma_mul_is_commutative(0xffff_ffff_ffff_ffff, span as int);
                    vstd::arithmetic::mul::lemma_mul_is_commutative(0xffff_ffff_ffff_ffff, 64 * LOG_SCALE as int);
                }
            }
            let part_wide: u128 = ((i as u128) * (span as u128)) / (divisor as u128);
            proof {
                lemma_div_is_ordered(
                    (i as int) * (span as int),
                    (divisor as int) * (span as int),
                    divisor as int,
                );
                assert(((divisor as int) * (span as int)) / (divisor as int) == span) by {
                    lemma_div_by_multiple(span as int, divisor as int);
                }
                assert(part_wide <= span);
            }
            let l_i: u64 = l_min + (part_wide as u64);
            let freq: u64 = exp_q32(l_i);
            proof {
                assert(l_i == sample_l_spec(f_min, f_max, target_points as nat, i as nat));
                assert(freq == sample_freq_spec(f_min, f_max, target_points as nat, i as nat));
            }
            let limit = self.interp_log(freq);
            avg_points.push(MaskPoint { frequency: freq, amplitude: limit.dbuv_avg_limit });
            if limit.dbuv_qp_limit > 0 {
                qp_points.push(MaskPoint { frequency: freq, amplitude: limit.dbuv_qp_limit });
            }
            if limit.dbuv_pk_limit > 0 {
                pk_points.push(MaskPoint { frequency: freq, amplitude: limit.dbuv_pk_limit });
            }
            i = i + 1;
        }
        proof {
            // The grid is monotone: larger sample index, larger axis value,
            // larger frequency.
            assert forall|a: int, b: int| 0 <= a <= b < target_points implies (
            #[trigger] avg_points@[a]).frequency <= (#[trigger] avg_points@[b]).frequency by {
                let la = sample_l_spec(f_min, f_max, target_points as nat, a as nat);
                let lb = sample_l_spec(f_min, f_max, target_points as nat, b as nat);
                let span_g = lg_q32(f_max as nat) - lg_q32(f_min as nat);
                assert(a * span_g <= b * span_g) by {
                    lemma_mul_inequality(a, b, span_g);
                }
                lemma_div_is_ordered(a * span_g, b * span_g, (target_points - 1) as int);
                assert(la <= lb);
                assert(b * span_g <= ((target_points - 1) as int) * span_g) by {
                    lemma_mul_inequality(b, (target_points - 1) as int, span_g);
                }
                lemma_div_is_ordered(
                    b * span_g,
                    ((target_points - 1) as int) * span_g,
                    (target_points - 1) as int,
                );
                assert((((target_points - 1) as int) * span_g) / ((target_points - 1) as int) == span_g)
                    by {
                    lemma_div_by_multiple(span_g, (target_points - 1) as int);
                }
                assert(lb <= l_max < 64 * LOG_SCALE);
                lemma_pow_q32_monotone(la, lb);
                crate::logq::lemma_pow_q32_bounds(la);
                crate::logq::lemma_pow_q32_bounds(lb);
            }
            // Exact endpoints whenever the axis is exact up there.
            if f_max < 0x2_0000_0000 {
                let pts = target_points as nat;
                let span_g = lg_q32(f_max as nat) - lg_q32(f_min as nat);
                assert((0 * span_g) / ((pts - 1) as int) == 0) by {
                    vstd::arithmetic::div_mod::lemma_div_of0((pts - 1) as int);
                }
                assert(sample_l_spec(f_min, f_max, pts, 0) == lg_q32(f_min as nat));
                lemma_pow_lg_identity(f_min as nat);
                assert(((pts - 1) * span_g) / ((pts - 1) as int) == span_g) by {
                    lemma_div_by_multiple(span_g, (pts - 1) as int);
                    vstd::arithmetic::mul::lemma_mul_is_commutative((pts - 1) as int, span_g);
                }
                assert(sample_l_spec(f_min, f_max, pts, (pts - 1) as nat) == lg_q32(f_max as nat));
                lemma_pow_lg_identity(f_max as nat);
            }
        }
        EMCMask { avg: avg_points, qp: qp_points, pk: pk_points }
    }

}

/// How many whole grid steps a sweep covers at a given density: the axis span
/// from `f_min` to `f_max` times `points_per_decade`, divided by one decade,
/// rounded up.
pub open spec fn total_steps_spec(f_min: u64, f_max: u64, points_per_decade: usize) -> int {
    let t = ((lg_q32(f_max as nat) - lg_q32(f_min as nat)) * points_per_decade + (DECADE_Q32 - 1))
        / (DECADE_Q32 as int);
    if t == 0 {
        1
    } else {
        t
    }
}

/// Samples the mask at a density of `points_per_decade`: the sweep gets one
/// grid step per decade fraction, rounded up, and one more point than steps so
/// that both endpoints are included.
pub fn generate_emc_mask(
    standard: &EMCStandard,
    f_min: u64,
    f_max: u64,
    points_per_decade: usize,
) -> (r: EMCMask)
    requires
        standard.limits_bounded(),
        1 <= f_min < f_max,
        1 <= points_per_decade <= 0x100_0000,
    ensures
        mask_curves_ok(
            standard,
            f_min,
            f_max,
            (total_steps_spec(f_min, f_max, points_per_decade) + 1) as nat,
            &r,
        ),
{
    let l_min = log_q32(f_min);
    let l_max = log_q32(f_max);
    proof {
        lemma_lg_q32_monotone(f_min as nat, f_max as nat);
    }
    let span: u64 = l_max - l_min;
    proof {
        assert((span as int) * (points_per_decade as int) <= (64 * LOG_SCALE) * 0x100_0000) by {
            lemma_mul_inequality(span as int, 64 * LOG_SCALE, points_per_decade as int);
            lemma_mul_inequality(points_per_decade as int, 0x100_0000, 64 * LOG_SCALE);
            vstd::arithmetic::mul::lemma_mul_is_commutative(span as int, points_per_decade as int);
            vstd::arithmetic::mul::lemma_mul_is_commutative(0x100_0000, 64 * LOG_SCALE);
        }
    }
    let num_wide: u128 = (span as u128) * (points_per_decade as u128) + ((DECADE_Q32 - 1) as u128);
    let total_wide: u128 = num_wide / (DECADE_Q32 as u128);
    proof {
        lemma_div_is_ordered(
            num_wide as int,
            (64 * LOG_SCALE) * 0x100_0000 + (DECADE_Q32 - 1),
            DECADE_Q32 as int,
        );
        assert(((64 * LOG_SCALE) * 0x100_0000 + (DECADE_Q32 - 1)) / (DECADE_Q32 as int)
            < 0x2000_0000) by (nonlinear_arith);
        assert(total_wide < 0x2000_0000);
    }
    // A sweep so narrow that the axis cannot tell its ends apart still gets
    // one step, so that both endpoints are sampled.
    let total: usize = if total_wide == 0 {
        1
    } else {
        total_wide as usize
    };
    proof {
        assert(total == total_steps_spec(f_min, f_max, points_per_decade));
    }
    standard.generate_adaptive_mask(f_min, f_max, total + 1)
}

/// The log-spaced frequency grid itself, one value per sampled point, at a
/// density of `points_per_decade`.
#[verifier::loop_isolation(false)]
pub fn create_log_range(start: u64, end: u64, points_per_decade: usize) -> (r: Vec<u64>)
    requires
        1 <= start < end,
        1 <= points_per_decade <= 0x100_0000,
    ensures
        r@.len() == total_steps_spec(start, end, points_per_decade) + 1,
        forall|i: int|
            0 <= i < r@.len() ==> #[trigger] r@[i] == sample_freq_spec(
                start,
                end,
                r@.len() as nat,
                i as nat,
            ),
        forall|i: int, j: int| 0 <= i <= j < r@.len() ==> #[trigger] r@[i] <= #[trigger] r@[j],
        end < 0x2_0000_0000 ==> r@[0] == start && r@[r@.len() - 1] == end,
{
    let l_min = log_q32(start);
    let l_max = log_q32(end);
    proof {
        lemma_lg_q32_monotone(start as nat, end as nat);
    }
    let span: u64 = l_max - l_min;
    proof {
        assert((span as int) * (points_per_decade as int) <= (64 * LOG_SCALE) * 0x100_0000) by {
            lemma_mul_inequality(span as int, 64 * LOG_SCALE, points_per_decade as int);
            lemma_mul_inequality(points_per_decade as int, 0x100_0000, 64 * LOG_SCALE);
            vstd::arithmetic::mul::lemma_mul_is_commutative(span as int, points_per_decade as int);
            vstd::arithmetic::mul::lemma_mul_is_commutative(0x100_0000, 64 * LOG_SCALE);
        }
    }
    let num_wide: u128 = (span as u128) * (points_per_decade as u128) + ((DECADE_Q32 - 1) as u128);
    let total_wide: u128 = num_wide / (DECADE_Q32 as u128);
    proof {
        lemma_div_is_ordered(
            num_wide as int,
            (64 * LOG_SCALE) * 0x100_0000 + (DECADE_Q32 - 1),
            DECADE_Q32 as int,
        );
        assert(((64 * LOG_SCALE) * 0x100_0000 + (DECADE_Q32 - 1)) / (DECADE_Q32 as int)
            < 0x2000_0000) by (nonlinear_arith);
        assert(total_wide < 0x2000_0000);
    }
    let total: usize = if total_wide == 0 {
        1
    } else {
        total_wide as usize
    };
    proof {
        assert(total == total_steps_spec(start, end, points_per_decade));
    }
    let points: usize = total + 1;
    let divisor: u64 = total as u64;
    let mut freqs: Vec<u64> = Vec::new();
    let mut i: usize = 0;
    while i < points
        invariant
            0 <= i <= points,
            freqs@.len() == i,
            forall|k: int|
                0 <= k < i ==> #[trigger] freqs@[k] == sample_freq_spec(
                    start,
                    end,
                    points as nat,
                    k as nat,
                ),
        decreases points - i,
    {
        proof {
            assert((i as int) * (span as int) <= (divisor as int) * (span as int)) by {
                lemma_mul_inequality(i as int, divisor as int, span as int);
            }
            assert((divisor as int) * (span as int) <= 0xffff_ffff_ffff_ffff * (64 * LOG_SCALE as int)) by {
                lemma_mul_inequality(divisor as int, 0xffff_ffff_ffff_ffff, span as int);
                lemma_mul_inequality(span as int, 64 * LOG_SCALE, 0xffff_ffff_ffff_ffff);
                vstd::arithmetic::mul::lemma_mul_is_commutative(0xffff_ffff_ffff_ffff, span as int);
                vstd::arithmetic::mul::lemma_mul_is_commutative(0xffff_ffff_ffff_ffff, 64 * LOG_SCALE as int);
            }
        }
        let part_wide: u128 = ((i as u128) * (span as u128)) / (divisor as u128);
        proof {
            lemma_div_is_ordered(
                (i as int) * (span as int),
                (divisor as int) * (span as int),
                divisor as int,
            );
            assert(((divisor as int) * (span as int)) / (divisor as int) == span) by {
                lemma_div_by_multiple(span as int, divisor as int);
                vstd::arithmetic::mul::lemma_mul_is_commutative(divisor as int, span as int);
            }
            assert(part_wide <= span);
        }
        let l_i: u64 = l_min + (part_wide as u64);
        let freq: u64 = exp_q32(l_i);
        proof {
            assert(l_i == sample_l_spec(start, end, points as nat, i as nat));
            assert(freq == sample_freq_spec(start, end, points as nat, i as nat));
        }
        freqs.push(freq);
        i = i + 1;
    }
    proof {
        assert forall|a: int, b: int| 0 <= a <= b < points implies #[trigger] freqs@[a]
            <= #[trigger] freqs@[b] by {
            let la = sample_l_spec(start, end, points as nat, a as nat);
            let lb = sample_l_spec(start, end, points as nat, b as nat);
            let span_g = lg_q32(end as nat) - lg_q32(start as nat);
            assert(a * span_g <= b * span_g) by {
                lemma_mul_inequality(a, b, span_g);
            }
            lemma_div_is_ordered(a * span_g, b * span_g, (points - 1) as int);
            assert(la <= lb);
            assert(b * span_g <= ((points - 1) as int) * span_g) by {
                lemma_mul_inequality(b, (points - 1) as int, span_g);
            }
            lemma_div_is_ordered(b * span_g, ((points - 1) as int) * span_g, (points - 1) as int);
            assert((((points - 1) as int) * span_g) / ((points - 1) as int) == span_g) by {
                lemma_div_by_multiple(span_g, (points - 1) as int);
                vstd::arithmetic::mul::lemma_mul_is_commutative((points - 1) as int, span_g);
            }
            assert(lb <= l_max < 64 * LOG_SCALE);
            lemma_pow_q32_monotone(la, lb);
            crate::logq::lemma_pow_q32_bounds(la);
            crate::logq::lemma_pow_q32_bounds(lb);
        }
        if end < 0x2_0000_0000 {
            let pts = points as nat;
            let span_g = lg_q32(end as nat) - lg_q32(start as nat);
            assert((0 * span_g) / ((pts - 1) as int) == 0) by {
                vstd::arithmetic::div_mod::lemma_div_of0((pts - 1) as int);
            }
            assert(sample_l_spec(start, end, pts, 0) == lg_q32(start as nat));
            lemma_pow_lg_identity(start as nat);
            assert(((pts - 1) * span_g) / ((pts - 1) as int) == span_g) by {
                lemma_div_by_multiple(span_g, (pts - 1) as int);
                vstd::arithmetic::mul::lemma_mul_is_commutative((pts - 1) as int, span_g);
            }
            assert(sample_l_spec(start, end, pts, (pts - 1) as nat) == lg_q32(end as nat));
            lemma_pow_lg_identity(end as nat);
        }
    }
    freqs
}

} // verus!
