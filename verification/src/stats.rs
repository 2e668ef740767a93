//! Descriptive statistics and violation analysis over a measurement batch.
//!
//! Given parallel frequency and amplitude arrays and a limit mask, the
//! analyzer computes mean, sample standard deviation, extremes and the 95th
//! and 99th percentiles of the amplitudes, counts the measurements whose
//! amplitude exceeds the average-detector limit, tracks the worst violation
//! and its frequency, and reports the overall compliance rate.
//!
//! All routines are explicit, dependency-free integer arithmetic: the
//! percentile uses linear interpolation between closest ranks, the standard
//! deviation uses the sample divisor `n - 1` and an exact integer square
//! root, and both are `0` on batches too small to define them.

use vstd::prelude::*;

verus! {

use crate::compliance::EmcError;
use crate::mask::EMCStandard;
use crate::units::DB_SCALE;
use crate::units::MAX_DB;
use crate::units::MAX_BATCH;
use crate::units::amps_bounded;
use crate::units::div_trunc;
use crate::units::div_trunc_i128;
use vstd::seq_lib::group_to_multiset_ensures;
use vstd::arithmetic::div_mod::lemma_div_is_ordered;
use vstd::arithmetic::div_mod::lemma_div_by_multiple;

/// The scalar summary of one measurement batch. Amplitude-valued fields are
/// in scaled dBµV; `compliance_rate` is a percentage, also scaled by
/// `DB_SCALE` (so `75 * DB_SCALE` is 75 %).
#[derive(Clone, Copy, Debug, PartialEq, Eq, Structural)]
pub struct EMCStatistics {
    pub mean_amplitude: i64,
    pub std_amplitude: i64,
    pub max_amplitude: i64,
    pub min_amplitude: i64,
    pub percentile_95: i64,
    pub percentile_99: i64,
    pub violation_count: usize,
    pub max_violation: i64,
    pub max_violation_frequency: u64,
    pub compliance_rate: i64,
}

/// Sum of a sequence of amplitudes.
pub open spec fn sum_spec(s: Seq<i64>) -> int
    decreases s.len(),
{
    if s.len() == 0 {
        0
    } else {
        sum_spec(s.drop_last()) + s.last()
    }
}

/// Arithmetic mean, rounded towards zero.
pub open spec fn mean_spec(s: Seq<i64>) -> int
    recommends
        s.len() > 0,
{
    div_trunc(sum_spec(s), s.len() as int)
}

/// Largest element.
pub open spec fn max_spec(s: Seq<i64>) -> int
    recommends
        s.len() > 0,
    decreases s.len(),
{
    if s.len() <= 1 {
        s[0] as int
    } else {
        let m = max_spec(s.drop_last());
        if s.last() > m {
            s.last() as int
        } else {
            m
        }
    }
}

/// Smallest element.
pub open spec fn min_spec(s: Seq<i64>) -> int
    recommends
        s.len() > 0,
    decreases s.len(),
{
    if s.len() <= 1 {
        s[0] as int
    } else {
        let m = min_spec(s.drop_last());
        if s.last() < m {
            s.last() as int
        } else {
            m
        }
    }
}

/// The sequence is in ascending order.
pub open spec fn sorted_amps(s: Seq<i64>) -> bool {
    forall|i: int, j: int| 0 <= i <= j < s.len() ==> s[i] <= s[j]
}

/// Percentile by linear interpolation between closest ranks, over data that
/// is already sorted ascending: with fractional rank `p * (n - 1) / 100`, an
/// exact rank returns that element and anything else interpolates between the
/// floor and ceiling elements, weighted by the fractional part. Empty data
/// yields the sentinel `0`.
pub open spec fn percentile_spec(sorted_data: Seq<i64>, p: nat) -> int {
    if sorted_data.len() == 0 {
        0
    } else {
        let n = sorted_data.len();
        let idx100 = p * (n - 1);
        let lower = idx100 / 100;
        let rem = idx100 % 100;
        if rem == 0 || lower + 1 >= n {
            if lower < n {
                sorted_data[lower as int] as int
            } else {
                sorted_data[n - 1] as int
            }
        } else {
            div_trunc(
                sorted_data[lower as int] * (100 - rem) + sorted_data[lower as int + 1] * rem,
                100,
            )
        }
    }
}

/// Sum of squared deviations from `m`.
pub open spec fn sq_dev_sum(s: Seq<i64>, m: int) -> int
    decreases s.len(),
{
    if s.len() == 0 {
        0
    } else {
        sq_dev_sum(s.drop_last(), m) + (s.last() - m) * (s.last() - m)
    }
}

/// Integer square root, rounded down.
pub open spec fn floor_sqrt(v: nat) -> nat
    decreases v,
{
    if v == 0 {
        0
    } else {
        let r = 2 * floor_sqrt((v / 4) as nat);
        if (r + 1) * (r + 1) <= v {
            r + 1
        } else {
            r
        }
    }
}

/// Sample standard deviation: the integer square root of the sum of squared
/// deviations from the mean divided by `n - 1`, and `0` when `n < 2`.
pub open spec fn std_spec(s: Seq<i64>) -> int {
    if s.len() < 2 {
        0
    } else {
        floor_sqrt((sq_dev_sum(s, mean_spec(s)) / (s.len() - 1)) as nat) as int
    }
}

/// How many of the first `i` measurements exceed the average-detector limit.
pub open spec fn violation_count_spec(m: &EMCStandard, fs: Seq<u64>, amps: Seq<i64>, i: int) -> nat
    recommends
        0 <= i <= fs.len(),
        fs.len() == amps.len(),
    decreases i,
{
    if i <= 0 {
        0
    } else {
        violation_count_spec(m, fs, amps, i - 1) + if m.avg_limit_spec(fs[i - 1]) - amps[i - 1] < 0 {
            1nat
        } else {
            0nat
        }
    }
}

/// The worst violation among the first `i` measurements: the largest
/// violation magnitude and the frequency it occurred at, the first such
/// measurement winning ties. `(0, 0)` when nothing violates.
pub open spec fn worst_violation_spec(m: &EMCStandard, fs: Seq<u64>, amps: Seq<i64>, i: int) -> (
    int,
    u64,
)
    recommends
        0 <= i <= fs.len(),
        fs.len() == amps.len(),
    decreases i,
{
    if i <= 0 {
        (0, 0u64)
    } else {
        let prev = worst_violation_spec(m, fs, amps, i - 1);
        let margin = m.avg_limit_spec(fs[i - 1]) - amps[i - 1];
        if margin < 0 && -margin > prev.0 {
            (-margin, fs[i - 1])
        } else {
            prev
        }
    }
}

/// The compliance rate of `n` measurements with `v` violations, as a scaled
/// percentage rounded towards zero.
pub open spec fn compliance_rate_spec(n: int, v: int) -> int
    recommends
        0 < n,
        0 <= v <= n,
{
    div_trunc((n - v) * 100 * DB_SCALE, n)
}

/// `floor_sqrt` brackets its argument between two consecutive squares.
pub proof fn lemma_floor_sqrt_bounds(v: nat)
    ensures
        floor_sqrt(v) * floor_sqrt(v) <= v,
        v < (floor_sqrt(v) + 1) * (floor_sqrt(v) + 1),
    decreases v,
{
    if v == 0 {
        assert(floor_sqrt(0) == 0);
        assert(floor_sqrt(v) * floor_sqrt(v) <= v);
        assert(v < (floor_sqrt(v) + 1) * (floor_sqrt(v) + 1)) by (nonlinear_arith)
            requires
                v == 0,
                floor_sqrt(v) == 0,
        ;
    } else {
        let q = (v / 4) as nat;
        lemma_floor_sqrt_bounds(q);
        let r0 = floor_sqrt(q);
        let r = 2 * r0;
        assert(4 * q <= v < 4 * q + 4) by {
            vstd::arithmetic::div_mod::lemma_fundamental_div_mod(v as int, 4);
        }
        assert(r * r <= 4 * q) by (nonlinear_arith)
            requires
                r == 2 * r0,
                r0 * r0 <= q,
        ;
        assert(4 * q + 4 <= (r + 2) * (r + 2)) by (nonlinear_arith)
            requires
                r == 2 * r0,
                q < (r0 + 1) * (r0 + 1),
        ;
        let fs = floor_sqrt(v);
        assert(fs == if (r + 1) * (r + 1) <= v {
            (r + 1) as nat
        } else {
            r
        });
        assert(fs * fs <= v && v < (fs + 1) * (fs + 1)) by (nonlinear_arith)
            requires
                fs == if (r + 1) * (r + 1) <= v {
                    (r + 1) as nat
                } else {
                    r
                },
                r * r <= 4 * q,
                4 * q <= v,
                v < 4 * q + 4,
                4 * q + 4 <= (r + 2) * (r + 2),
        ;
    }
}

/// Two ascending sequences over the same multiset of values are equal.
pub proof fn lemma_sorted_unique(s: Seq<i64>, t: Seq<i64>)
    requires
        sorted_amps(s),
        sorted_amps(t),
        s.to_multiset() == t.to_multiset(),
    ensures
        s =~= t,
    decreases s.len(),
{
    broadcast use group_to_multiset_ensures;

    assert(s.to_multiset().len() == s.len());
    assert(t.to_multiset().len() == t.len());
    if s.len() == 0 {
        assert(t.len() == 0);
    } else {
        assert(s.len() == t.len());
        assert(t.len() > 0);
        // The first elements are both minima of the shared multiset.
        let x = s[0];
        let y = t[0];
        assert(s.contains(x));
        assert(t.to_multiset().count(x) > 0);
        assert(t.contains(x));
        let jx = choose|j: int| 0 <= j < t.len() && t[j] == x;
        assert(y <= x);
        assert(s.to_multiset().count(y) > 0);
        assert(s.contains(y));
        let jy = choose|j: int| 0 <= j < s.len() && s[j] == y;
        assert(x <= y);
        assert(x == y);
        // Equal heads, so the tails share a multiset and recursion applies.
        let s1 = s.remove(0);
        let t1 = t.remove(0);
        assert(s1.to_multiset() =~= s.to_multiset().remove(x));
        assert(t1.to_multiset() =~= t.to_multiset().remove(x));
        assert(sorted_amps(s1)) by {
            assert(forall|i: int| 0 <= i < s1.len() ==> s1[i] == s[i + 1]);
        }
        assert(sorted_amps(t1)) by {
            assert(forall|i: int| 0 <= i < t1.len() ==> t1[i] == t[i + 1]);
        }
        lemma_sorted_unique(s1, t1);
        assert forall|i: int| 0 <= i < s.len() implies s[i] == t[i] by {
            if i > 0 {
                assert(s1[i - 1] == t1[i - 1]);
            }
        }
    }
}

/// A permutation of a bounded sequence is bounded.
proof fn lemma_bounded_permutation(s: Seq<i64>, t: Seq<i64>)
    requires
        amps_bounded(s),
        s.to_multiset() == t.to_multiset(),
    ensures
        amps_bounded(t),
{
    broadcast use group_to_multiset_ensures;

    assert forall|i: int| 0 <= i < t.len() implies -MAX_DB <= #[trigger] t[i] <= MAX_DB by {
        assert(t.contains(t[i]));
        assert(t.to_multiset().count(t[i]) > 0);
        assert(s.contains(t[i]));
        let j = choose|j: int| 0 <= j < s.len() && s[j] == t[i];
        assert(-MAX_DB <= s[j] <= MAX_DB);
    }
}

/// Sorts amplitudes ascending by insertion into a fresh vector.
#[verifier::loop_isolation(false)]
pub fn sort_ascending(data: &Vec<i64>) -> (r: Vec<i64>)
    ensures
        sorted_amps(r@),
        r@.to_multiset() == data@.to_multiset(),
        r@.len() == data@.len(),
{
    broadcast use group_to_multiset_ensures;
    broadcast use vstd::seq_lib::to_multiset_insert;

    let n = data.len();
    let mut v: Vec<i64> = Vec::new();
    let mut i: usize = 0;
    while i < n
        invariant
            0 <= i <= n,
            v@.len() == i,
            sorted_amps(v@),
            v@.to_multiset() == data@.take(i as int).to_multiset(),
        decreases n - i,
    {
        let x = data[i];
        let mut pos: usize = 0;
        while pos < v.len() && v[pos] <= x
            invariant
                0 <= pos <= v@.len(),
                forall|k: int| 0 <= k < pos ==> v@[k] <= x,
            decreases v@.len() - pos,
        {
            pos = pos + 1;
        }
        let ghost old_v = v@;
        v.insert(pos, x);
        proof {
            assert(v@ == old_v.insert(pos as int, x));
            assert(sorted_amps(v@)) by {
                assert forall|a: int, b: int| 0 <= a <= b < v@.len() implies v@[a] <= v@[b] by {
                    if pos < old_v.len() {
                        assert(old_v[pos as int] > x);
                    }
                    assert(forall|k: int| pos <= k < old_v.len() ==> x <= #[trigger] old_v[k]);
                }
            }
            assert(data@.take(i + 1) =~= data@.take(i as int).push(x));
            assert(data@.take(i + 1).to_multiset() =~= data@.take(i as int).to_multiset().insert(x));
        }
        i = i + 1;
    }
    proof {
        assert(data@.take(n as int) =~= data@);
    }
    v
}

/// Integer square root of a 128-bit value, by bisection.
#[verifier::loop_isolation(false)]
fn isqrt_u128(v: u128) -> (r: u64)
    ensures
        r == floor_sqrt(v as nat),
{
    let mut lo: u128 = 0;
    let mut hi: u128 = 0x1_0000_0000_0000_0000;
    proof {
        assert((v as int) < hi * hi) by (nonlinear_arith)
            requires
                hi == 0x1_0000_0000_0000_0000,
                v <= 0xffff_ffff_ffff_ffff_ffff_ffff_ffff_ffff,
        ;
    }
    while lo + 1 < hi
        invariant
            0 <= lo < hi <= 0x1_0000_0000_0000_0000,
            lo * lo <= v,
            (v as int) < hi * hi,
        decreases hi - lo,
    {
        let mid: u128 = lo + (hi - lo) / 2;
        proof {
            assert(mid * mid <= 0xffff_ffff_ffff_ffff * 0xffff_ffff_ffff_ffff) by (nonlinear_arith)
                requires
                    0 <= mid <= 0xffff_ffff_ffff_ffff,
            ;
        }
        if mid * mid <= v {
            lo = mid;
        } else {
            hi = mid;
        }
    }
    proof {
        lemma_floor_sqrt_bounds(v as nat);
        let fs = floor_sqrt(v as nat);
        assert(lo == fs) by (nonlinear_arith)
            requires
                lo * lo <= v,
                (v as int) < (lo + 1) * (lo + 1),
                fs * fs <= v,
                (v as int) < (fs + 1) * (fs + 1),
                lo >= 0,
                fs >= 0,
        ;
    }
    lo as u64
}

impl EMCStandard {

    /// Percentile of data already sorted ascending, by linear interpolation
    /// between closest ranks: exactly `percentile_spec`. Empty data returns `0`.
    pub fn calculate_percentile(sorted_data: &Vec<i64>, percentile: u64) -> (r: i64)
        requires
            amps_bounded(sorted_data@),
            percentile <= 100,
        ensures
            r == percentile_spec(sorted_data@, percentile as nat),
            -MAX_DB <= r <= MAX_DB || sorted_data@.len() == 0,
    {
        if sorted_data.len() == 0 {
            return 0;
        }
        let n = sorted_data.len();
        proof {
            assert((percentile as int) * ((n - 1) as int) <= 100 * ((n - 1) as int)) by (nonlinear_arith)
                requires
                    percentile <= 100,
                    n >= 1,
            ;
        }
        let idx100: u128 = (percentile as u128) * ((n - 1) as u128);
        let lower128: u128 = idx100 / 100;
        let rem128: u128 = idx100 % 100;
        proof {
            lemma_div_is_ordered(idx100 as int, 100 * ((n - 1) as int), 100);
            lemma_div_by_multiple((n - 1) as int, 100);
            assert(lower128 <= n - 1);
        }
        let lower: usize = lower128 as usize;
        let rem: u64 = rem128 as u64;
        if rem == 0 || lower + 1 >= n {
            return sorted_data[lower];
        }
        let lo = sorted_data[lower];
        let hi = sorted_data[lower + 1];
        proof {
            assert(-100 * MAX_DB <= (lo as int) * ((100 - rem) as int) <= 100 * MAX_DB
                && -100 * MAX_DB <= (hi as int) * (rem as int) <= 100 * MAX_DB) by (nonlinear_arith)
                requires
                    -MAX_DB <= lo <= MAX_DB,
                    -MAX_DB <= hi <= MAX_DB,
                    0 < rem < 100,
            ;
        }
        let num: i128 = (lo as i128) * ((100 - rem) as i128) + (hi as i128) * (rem as i128);
        proof {
            assert(-200 * MAX_DB <= num <= 200 * MAX_DB);
        }
        proof {
            assert((lo as int) * ((100 - rem) as int) + (hi as int) * (rem as int) <= 100 * MAX_DB
                && -100 * MAX_DB <= (lo as int) * ((100 - rem) as int) + (hi as int) * (rem as int))
                by (nonlinear_arith)
                requires
                    -MAX_DB <= lo <= MAX_DB,
                    -MAX_DB <= hi <= MAX_DB,
                    0 < rem < 100,
            ;
        }
        let r_wide: i128 = div_trunc_i128(num, 100);
        proof {
            assert(div_trunc(num as int, 100) <= MAX_DB && -MAX_DB <= div_trunc(num as int, 100)) by {
                lemma_div_is_ordered(num as int, 100 * MAX_DB, 100);
                lemma_div_by_multiple(MAX_DB as int, 100);
                lemma_div_is_ordered(-num as int, 100 * MAX_DB, 100);
            }
        }
        r_wide as i64
    }

    /// Sample standard deviation of a batch, with Bessel's correction: exactly
    /// `std_spec`, and `0` when the batch has fewer than two values.
    #[verifier::loop_isolation(false)]
    pub fn calculate_std(data: &Vec<i64>) -> (r: i64)
        requires
            amps_bounded(data@),
            data@.len() <= MAX_BATCH,
        ensures
            r == std_spec(data@),
            r >= 0,
    {
        if data.len() < 2 {
            return 0;
        }
        let n = data.len();
        let mut sum: i128 = 0;
        let mut i: usize = 0;
        while i < n
            invariant
                0 <= i <= n,
                sum == sum_spec(data@.take(i as int)),
                -(i as int) * MAX_DB <= sum <= (i as int) * MAX_DB,
            decreases n - i,
        {
            proof {
                assert(data@.take(i + 1).drop_last() =~= data@.take(i as int));
                assert(data@.take(i + 1).last() == data@[i as int]);
            }
            sum = sum + (data[i] as i128);
            i = i + 1;
        }
        proof {
            assert(data@.take(n as int) =~= data@);
        }
        let mean_wide: i128 = div_trunc_i128(sum, n as i128);
        proof {
            assert(div_trunc(sum as int, n as int) <= MAX_DB && -MAX_DB <= div_trunc(sum as int, n as int))
                by {
                lemma_div_is_ordered(sum as int, (n as int) * MAX_DB, n as int);
                lemma_div_by_multiple(MAX_DB as int, n as int);
                lemma_div_is_ordered(-sum as int, (n as int) * MAX_DB, n as int);
                assert((n as int) * MAX_DB == MAX_DB * (n as int)) by (nonlinear_arith);
            }
        }
        let mean: i64 = mean_wide as i64;
        let mut ssd: u128 = 0;
        let mut j: usize = 0;
        proof {
            assert(4 * MAX_DB * MAX_DB == 4_000_000_000_000_000_000_000_000_000_000int) by (nonlinear_arith);
        }
        while j < n
            invariant
                0 <= j <= n,
                ssd == sq_dev_sum(data@.take(j as int), mean as int),
                ssd <= (j as int) * 4_000_000_000_000_000_000_000_000_000_000int,
                -MAX_DB <= mean <= MAX_DB,
            decreases n - j,
        {
            proof {
                assert(data@.take(j + 1).drop_last() =~= data@.take(j as int));
                assert(data@.take(j + 1).last() == data@[j as int]);
            }
            let d: i64 = data[j] - mean;
            proof {
                assert(0 <= (d as int) * (d as int) <= 4 * MAX_DB * MAX_DB) by (nonlinear_arith)
                    requires
                        -2 * MAX_DB <= d <= 2 * MAX_DB,
                ;
            }
            let dd: u128 = ((d as i128) * (d as i128)) as u128;
            proof {
                assert(dd == (d as int) * (d as int));
                assert(4 * MAX_DB * MAX_DB == 4_000_000_000_000_000_000_000_000_000_000int)
                    by (nonlinear_arith);
                assert(dd <= 4_000_000_000_000_000_000_000_000_000_000int);
            }
            ssd = ssd + dd;
            j = j + 1;
        }
        proof {
            assert(data@.take(n as int) =~= data@);
            assert(mean == mean_spec(data@));
        }
        proof {
            assert(ssd <= 40_000_000_000_000_000_000_000_000_000_000_000_000int);
        }
        let variance: u128 = ssd / ((n - 1) as u128);
        let root: u64 = isqrt_u128(variance);
        proof {
            lemma_floor_sqrt_bounds(variance as nat);
            assert(variance <= ssd) by {
                vstd::arithmetic::div_mod::lemma_div_nonincreasing(ssd as int, (n - 1) as int);
            }
            assert(root < 9_000_000_000_000_000_000) by (nonlinear_arith)
                requires
                    (root as int) * (root as int) <= variance,
                    variance <= 40_000_000_000_000_000_000_000_000_000_000_000_000int,
                    root >= 0,
            ;
        }
        root as i64
    }

    /// Summarises a measurement batch against a mask: descriptive statistics of
    /// the amplitudes, the count and worst case of average-limit violations, and
    /// the compliance rate.
    ///
    /// An empty batch is reported as `Err(EmcError::EmptyInput)`: the mean and
    /// percentiles of nothing are undefined, and failing fast beats returning
    /// arbitrary sentinels. Every non-empty batch succeeds.
    #[verifier::loop_isolation(false)]
    pub fn analyze_measurement_statistics(
        &self,
        frequencies: &Vec<u64>,
        amplitudes: &Vec<i64>,
    ) -> (r: Result<EMCStatistics, EmcError>)
        requires
            self.limits_bounded(),
            frequencies@.len() == amplitudes@.len(),
            amps_bounded(amplitudes@),
            amplitudes@.len() <= MAX_BATCH,
        ensures
            r is Err <==> amplitudes@.len() == 0,
            r matches Err(e) ==> e == EmcError::EmptyInput,
            r matches Ok(st) ==> {
                let n = amplitudes@.len() as int;
                &&& st.mean_amplitude == mean_spec(amplitudes@)
                &&& st.std_amplitude == std_spec(amplitudes@)
                &&& st.max_amplitude == max_spec(amplitudes@)
                &&& st.min_amplitude == min_spec(amplitudes@)
                &&& forall|ss: Seq<i64>|
                    sorted_amps(ss) && ss.to_multiset() == amplitudes@.to_multiset() ==> {
                        &&& st.percentile_95 == percentile_spec(ss, 95)
                        &&& st.percentile_99 == percentile_spec(ss, 99)
                    }
                &&& st.violation_count == violation_count_spec(self, frequencies@, amplitudes@, n)
                &&& st.max_violation == worst_violation_spec(self, frequencies@, amplitudes@, n).0
                &&& st.max_violation_frequency == worst_violation_spec(
                    self,
                    frequencies@,
                    amplitudes@,
                    n,
                ).1
                &&& st.compliance_rate == compliance_rate_spec(
                    n,
                    violation_count_spec(self, frequencies@, amplitudes@, n) as int,
                )
            },
    {
        let n = amplitudes.len();
        if n == 0 {
            return Err(EmcError::EmptyInput);
        }
        // Mean, as the running sum over the batch.
        let mut sum: i128 = 0;
        let mut i: usize = 0;
        while i < n
            invariant
                0 <= i <= n,
                sum == sum_spec(amplitudes@.take(i as int)),
                -(i as int) * MAX_DB <= sum <= (i as int) * MAX_DB,
            decreases n - i,
        {
            proof {
                assert(amplitudes@.take(i + 1).drop_last() =~= amplitudes@.take(i as int));
                assert(amplitudes@.take(i + 1).last() == amplitudes@[i as int]);
            }
            sum = sum + (amplitudes[i] as i128);
            i = i + 1;
        }
        proof {
            assert(amplitudes@.take(n as int) =~= amplitudes@);
        }
        let mean_wide: i128 = div_trunc_i128(sum, n as i128);
        proof {
            assert(div_trunc(sum as int, n as int) <= MAX_DB && -MAX_DB <= div_trunc(sum as int, n as int))
                by {
                lemma_div_is_ordered(sum as int, (n as int) * MAX_DB, n as int);
                lemma_div_by_multiple(MAX_DB as int, n as int);
                lemma_div_is_ordered(-sum as int, (n as int) * MAX_DB, n as int);
                assert((n as int) * MAX_DB == MAX_DB * (n as int)) by (nonlinear_arith);
            }
        }
        let mean_amplitude: i64 = mean_wide as i64;
        let std_amplitude = Self::calculate_std(amplitudes);
        // Extremes.
        let mut max_amplitude: i64 = amplitudes[0];
        let mut min_amplitude: i64 = amplitudes[0];
        let mut k: usize = 1;
        while k < n
            invariant
                1 <= k <= n,
                max_amplitude == max_spec(amplitudes@.take(k as int)),
                min_amplitude == min_spec(amplitudes@.take(k as int)),
            decreases n - k,
        {
            proof {
                assert(amplitudes@.take(k + 1).drop_last() =~= amplitudes@.take(k as int));
                assert(amplitudes@.take(k + 1).last() == amplitudes@[k as int]);
            }
            if amplitudes[k] > max_amplitude {
                max_amplitude = amplitudes[k];
            }
            if amplitudes[k] < min_amplitude {
                min_amplitude = amplitudes[k];
            }
            k = k + 1;
        }
        proof {
            assert(amplitudes@.take(n as int) =~= amplitudes@);
        }
        // Percentiles over the sorted batch.
        let sorted_v = sort_ascending(amplitudes);
        proof {
            lemma_bounded_permutation(amplitudes@, sorted_v@);
        }
        let percentile_95 = Self::calculate_percentile(&sorted_v, 95);
        let percentile_99 = Self::calculate_percentile(&sorted_v, 99);
        // Violations against the average-detector limit.
        let mut violation_count: usize = 0;
        let mut max_violation: i64 = 0;
        let mut max_violation_frequency: u64 = 0;
        let mut t: usize = 0;
        while t < n
            invariant
                0 <= t <= n,
                violation_count == violation_count_spec(self, frequencies@, amplitudes@, t as int),
                violation_count <= t,
                max_violation == worst_violation_spec(self, frequencies@, amplitudes@, t as int).0,
                max_violation_frequency == worst_violation_spec(
                    self,
                    frequencies@,
                    amplitudes@,
                    t as int,
                ).1,
            decreases n - t,
        {
            let limit = self.interp_log(frequencies[t]);
            let margin: i64 = limit.dbuv_avg_limit - amplitudes[t];
            if margin < 0 {
                violation_count = violation_count + 1;
                if -margin > max_violation {
                    max_violation = -margin;
                    max_violation_frequency = frequencies[t];
                }
            }
            t = t + 1;
        }
        // Compliance rate as a scaled percentage.
        let rate_wide: i128 = (((n - violation_count) as i128) * 100 * (DB_SCALE as i128)) / (
        n as i128);
        proof {
            let num = ((n - violation_count) as int) * (100 * DB_SCALE);
            assert(rate_wide == div_trunc(num, n as int));
            assert(num <= (n as int) * (100 * DB_SCALE));
            assert(div_trunc(num, n as int) <= 100 * DB_SCALE && 0 <= div_trunc(num, n as int)) by {
                lemma_div_is_ordered(num, (n as int) * (100 * DB_SCALE), n as int);
                lemma_div_by_multiple(100 * DB_SCALE, n as int);
                assert((n as int) * (100 * DB_SCALE) == (100 * DB_SCALE) * (n as int));
                vstd::arithmetic::div_mod::lemma_div_pos_is_pos(num, n as int);
            }
        }
        let compliance_rate: i64 = rate_wide as i64;
        proof {
            // Any ascending arrangement of the batch is the one we sorted.
            assert forall|ss: Seq<i64>|
                sorted_amps(ss) && ss.to_multiset() == amplitudes@.to_multiset() implies ss
                == sorted_v@ by {
                lemma_sorted_unique(ss, sorted_v@);
            }
        }
        Ok(
            EMCStatistics {
                mean_amplitude,
                std_amplitude,
                max_amplitude,
                min_amplitude,
                percentile_95,
                percentile_99,
                violation_count,
                max_violation,
                max_violation_frequency,
                compliance_rate,
            },
        )
    }

}

} // verus!
