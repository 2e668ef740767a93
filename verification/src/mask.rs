//! Limit masks and the per-detector limit evaluator.
//!
//! An [`EMCStandard`] holds one standard-and-class limit mask: parallel
//! frequency and amplitude breakpoint lists for the average detector, and
//! optional lists for the quasi-peak and peak detectors. [`EMCStandard::interp_log`]
//! evaluates all three detector limits at one frequency, interpolating on the
//! log-frequency axis and applying the fallback offsets where a detector has
//! no mask of its own: quasi-peak is average plus 6 dB, peak is quasi-peak
//! plus 10 dB.

use vstd::prelude::*;

verus! {

use crate::interp::InterpMode;
use crate::interp::interp_spec;
use crate::interp::interpolate;
use crate::units::DB_SCALE;
use crate::units::MAX_DB;
use crate::units::amps_bounded;

/// Offset added to the average limit when a mask defines no quasi-peak
/// breakpoints: the conventional 6 dB quasi-peak-over-average margin.
pub const QP_OFFSET: i64 = 6 * DB_SCALE;

/// Offset added to the quasi-peak limit when a mask defines no peak
/// breakpoints: 10 dB, the canonical choice of this library.
pub const PK_OFFSET: i64 = 10 * DB_SCALE;

/// One standard-and-class limit mask. Frequencies are in hertz, amplitudes
/// in scaled dBµV (see [`crate::units::DB_SCALE`]); the average-detector
/// breakpoints are mandatory, quasi-peak and peak are optional.
///
/// A mask from a well-formed catalog satisfies [`EMCStandard::wf`]: parallel
/// lists, ascending positive frequencies, bounded amplitudes. The evaluator
/// asks only for the amplitude bounds ([`EMCStandard::limits_bounded`]) and
/// degrades gracefully on everything else, returning the interpolator's `0`
/// sentinel for malformed breakpoint lists.
#[derive(Clone, Debug)]
pub struct EMCStandard {
    pub name: String,
    pub description: String,
    pub f_avg_limit_mask: Vec<u64>,
    pub dbuv_avg_limit_mask: Vec<i64>,
    pub f_qp_limit_mask: Option<Vec<u64>>,
    pub dbuv_qp_limit_mask: Option<Vec<i64>>,
    pub f_pk_limit_mask: Option<Vec<u64>>,
    pub dbuv_pk_limit_mask: Option<Vec<i64>>,
}

/// The three detector limits at one queried frequency. The `dbuv_` fields
/// repeat the plain fields; both spellings are part of the interface.
#[derive(Clone, Copy, Debug, PartialEq, Eq, Structural)]
pub struct EMCLimitResult {
    pub avg_limit: i64,
    pub qp_limit: i64,
    pub pk_limit: i64,
    pub dbuv_avg_limit: i64,
    pub dbuv_qp_limit: i64,
    pub dbuv_pk_limit: i64,
}

/// One breakpoint list of a standard-and-class mask, as (frequency,
/// amplitude) pairs in catalog order.
#[derive(Clone, Debug)]
pub struct StandardClass {
    pub name: String,
    pub description: String,
    pub avg_mask: Vec<(u64, i64)>,
    pub qp_mask: Option<Vec<(u64, i64)>>,
    pub pk_mask: Option<Vec<(u64, i64)>>,
}

impl EMCStandard {
    /// Every amplitude of every present breakpoint list is within `MAX_DB`.
    /// This is the precondition of the evaluator; it keeps all derived
    /// limits and margins inside 64-bit arithmetic.
    pub open spec fn limits_bounded(&self) -> bool {
        &&& amps_bounded(self.dbuv_avg_limit_mask@)
        &&& (self.dbuv_qp_limit_mask is Some ==> amps_bounded(self.dbuv_qp_limit_mask.unwrap()@))
        &&& (self.dbuv_pk_limit_mask is Some ==> amps_bounded(self.dbuv_pk_limit_mask.unwrap()@))
    }

    /// The frequencies of the sequence are positive and non-decreasing;
    /// a repeated frequency encodes a step in the limit.
    pub open spec fn freqs_ordered(s: Seq<u64>) -> bool {
        &&& (forall|i: int| 0 <= i < s.len() ==> #[trigger] s[i] >= 1)
        &&& (forall|i: int, j: int| 0 <= i <= j < s.len() ==> #[trigger] s[i] <= #[trigger] s[j])
    }

    /// A well-formed mask: the average lists are parallel and non-empty with
    /// ordered positive frequencies and bounded amplitudes, and each optional
    /// detector has either both of its lists, parallel and equally ordered,
    /// or neither.
    pub open spec fn wf(&self) -> bool {
        &&& self.limits_bounded()
        &&& self.f_avg_limit_mask@.len() == self.dbuv_avg_limit_mask@.len()
        &&& self.f_avg_limit_mask@.len() >= 1
        &&& Self::freqs_ordered(self.f_avg_limit_mask@)
        &&& (self.f_qp_limit_mask is Some <==> self.dbuv_qp_limit_mask is Some)
        &&& (self.f_qp_limit_mask is Some ==> {
            &&& self.f_qp_limit_mask.unwrap()@.len() == self.dbuv_qp_limit_mask.unwrap()@.len()
            &&& self.f_qp_limit_mask.unwrap()@.len() >= 1
            &&& Self::freqs_ordered(self.f_qp_limit_mask.unwrap()@)
        })
        &&& (self.f_pk_limit_mask is Some <==> self.dbuv_pk_limit_mask is Some)
        &&& (self.f_pk_limit_mask is Some ==> {
            &&& self.f_pk_limit_mask.unwrap()@.len() == self.dbuv_pk_limit_mask.unwrap()@.len()
            &&& self.f_pk_limit_mask.unwrap()@.len() >= 1
            &&& Self::freqs_ordered(self.f_pk_limit_mask.unwrap()@)
        })
    }

    /// The average-detector limit at `f`: log-domain interpolation over the
    /// average breakpoints.
    pub open spec fn avg_limit_spec(&self, f: u64) -> int {
        interp_spec(self.f_avg_limit_mask@, self.dbuv_avg_limit_mask@, f, InterpMode::Logarithmic)
    }

    /// The quasi-peak limit at `f`: interpolation over the quasi-peak
    /// breakpoints when the mask has them, and the average limit plus
    /// `QP_OFFSET` when it does not.
    pub open spec fn qp_limit_spec(&self, f: u64) -> int {
        if self.f_qp_limit_mask is Some && self.dbuv_qp_limit_mask is Some {
            interp_spec(
                self.f_qp_limit_mask.unwrap()@,
                self.dbuv_qp_limit_mask.unwrap()@,
                f,
                InterpMode::Logarithmic,
            )
        } else {
            self.avg_limit_spec(f) + QP_OFFSET
        }
    }

    /// The peak limit at `f`: interpolation over the peak breakpoints when
    /// the mask has them, and the quasi-peak limit plus `PK_OFFSET` when it
    /// does not.
    pub open spec fn pk_limit_spec(&self, f: u64) -> int {
        if self.f_pk_limit_mask is Some && self.dbuv_pk_limit_mask is Some {
            interp_spec(
                self.f_pk_limit_mask.unwrap()@,
                self.dbuv_pk_limit_mask.unwrap()@,
                f,
                InterpMode::Logarithmic,
            )
        } else {
            self.qp_limit_spec(f) + PK_OFFSET
        }
    }

    /// Log-domain interpolation over one pair of parallel breakpoint lists:
    /// the raw engine under the evaluator, exposed for direct use.
    pub fn interpolate_log(frequencies: &Vec<u64>, amplitudes: &Vec<i64>, target_freq: u64) -> (r:
        i64)
        requires
            amps_bounded(amplitudes@),
        ensures
            r == interp_spec(frequencies@, amplitudes@, target_freq, InterpMode::Logarithmic),
            -MAX_DB <= r <= MAX_DB,
    {
        interpolate(frequencies, amplitudes, target_freq, InterpMode::Logarithmic)
    }

    /// Evaluates the three detector limits at one frequency.
    ///
    /// Never fails: a frequency at or below the lowest breakpoint (including
    /// zero) gets the boundary-clamped value, and a malformed mask (length
    /// mismatch between parallel lists) yields the interpolator's sentinel
    /// `0`. The result is a pure function of the mask and the frequency.
    pub fn interp_log(&self, frequency: u64) -> (r: EMCLimitResult)
        requires
            self.limits_bounded(),
        ensures
            r.avg_limit == self.avg_limit_spec(frequency),
            r.qp_limit == self.qp_limit_spec(frequency),
            r.pk_limit == self.pk_limit_spec(frequency),
            r.dbuv_avg_limit == r.avg_limit,
            r.dbuv_qp_limit == r.qp_limit,
            r.dbuv_pk_limit == r.pk_limit,
            -MAX_DB <= r.avg_limit <= MAX_DB,
            -MAX_DB <= r.qp_limit <= MAX_DB + QP_OFFSET,
            -MAX_DB <= r.pk_limit <= MAX_DB + QP_OFFSET + PK_OFFSET,
    {
        let avg_limit = interpolate(
            &self.f_avg_limit_mask,
            &self.dbuv_avg_limit_mask,
            frequency,
            InterpMode::Logarithmic,
        );
        let qp_limit = if let (Some(f_qp), Some(dbuv_qp)) = (
            &self.f_qp_limit_mask,
            &self.dbuv_qp_limit_mask,
        ) {
            interpolate(f_qp, dbuv_qp, frequency, InterpMode::Logarithmic)
        } else {
            avg_limit + QP_OFFSET
        };
        let pk_limit = if let (Some(f_pk), Some(dbuv_pk)) = (
            &self.f_pk_limit_mask,
            &self.dbuv_pk_limit_mask,
        ) {
            interpolate(f_pk, dbuv_pk, frequency, InterpMode::Logarithmic)
        } else {
            qp_limit + PK_OFFSET
        };
        EMCLimitResult {
            avg_limit,
            qp_limit,
            pk_limit,
            dbuv_avg_limit: avg_limit,
            dbuv_qp_limit: qp_limit,
            dbuv_pk_limit: pk_limit,
        }
    }

    /// Builds an empty mask with the given name, to be filled in by a
    /// catalog.
    pub fn new(name: &str) -> (r: EMCStandard)
        ensures
            r.name@ == name@,
            r.description@ == Seq::<char>::empty(),
            r.f_avg_limit_mask@ == Seq::<u64>::empty(),
            r.dbuv_avg_limit_mask@ == Seq::<i64>::empty(),
            r.f_qp_limit_mask is None,
            r.dbuv_qp_limit_mask is None,
            r.f_pk_limit_mask is None,
            r.dbuv_pk_limit_mask is None,
    {
        EMCStandard {
            name: name.to_owned(),
            description: String::new(),
            f_avg_limit_mask: Vec::new(),
            dbuv_avg_limit_mask: Vec::new(),
            f_qp_limit_mask: None,
            dbuv_qp_limit_mask: None,
            f_pk_limit_mask: None,
            dbuv_pk_limit_mask: None,
        }
    }

    /// Reshapes a catalog entry's (frequency, amplitude) pair lists into the
    /// parallel-array form the evaluator works on.
    pub fn from_standard_class(class: &StandardClass) -> (r: EMCStandard)
        ensures
            r.name@ == class.name@,
            r.description@ == class.description@,
            r.f_avg_limit_mask@ == class.avg_mask@.map_values(|p: (u64, i64)| p.0),
            r.dbuv_avg_limit_mask@ == class.avg_mask@.map_values(|p: (u64, i64)| p.1),
            r.f_qp_limit_mask is Some <==> class.qp_mask is Some,
            r.dbuv_qp_limit_mask is Some <==> class.qp_mask is Some,
            class.qp_mask is Some ==> {
                &&& r.f_qp_limit_mask.unwrap()@ == class.qp_mask.unwrap()@.map_values(|p: (u64, i64)| p.0)
                &&& r.dbuv_qp_limit_mask.unwrap()@ == class.qp_mask.unwrap()@.map_values(|p: (u64, i64)| p.1)
            },
            r.f_pk_limit_mask is Some <==> class.pk_mask is Some,
            r.dbuv_pk_limit_mask is Some <==> class.pk_mask is Some,
            class.pk_mask is Some ==> {
                &&& r.f_pk_limit_mask.unwrap()@ == class.pk_mask.unwrap()@.map_values(|p: (u64, i64)| p.0)
                &&& r.dbuv_pk_limit_mask.unwrap()@ == class.pk_mask.unwrap()@.map_values(|p: (u64, i64)| p.1)
            },
    {
        let (f_avg, dbuv_avg) = unzip_mask(&class.avg_mask);
        let (f_qp, dbuv_qp) = if let Some(qp_mask) = &class.qp_mask {
            let (f, dbuv) = unzip_mask(qp_mask);
            (Some(f), Some(dbuv))
        } else {
            (None, None)
        };
        let (f_pk, dbuv_pk) = if let Some(pk_mask) = &class.pk_mask {
            let (f, dbuv) = unzip_mask(pk_mask);
            (Some(f), Some(dbuv))
        } else {
            (None, None)
        };
        EMCStandard {
            name: class.name.clone(),
            description: class.description.clone(),
            f_avg_limit_mask: f_avg,
            dbuv_avg_limit_mask: dbuv_avg,
            f_qp_limit_mask: f_qp,
            dbuv_qp_limit_mask: dbuv_qp,
            f_pk_limit_mask: f_pk,
            dbuv_pk_limit_mask: dbuv_pk,
        }
    }
}

/// Splits a list of (frequency, amplitude) pairs into its two columns.
#[verifier::loop_isolation(false)]
fn unzip_mask(pairs: &Vec<(u64, i64)>) -> (r: (Vec<u64>, Vec<i64>))
    ensures
        r.0@ == pairs@.map_values(|p: (u64, i64)| p.0),
        r.1@ == pairs@.map_values(|p: (u64, i64)| p.1),
{
    let mut freqs: Vec<u64> = Vec::new();
    let mut amps: Vec<i64> = Vec::new();
    let n = pairs.len();
    let mut i: usize = 0;
    while i < n
        invariant
            0 <= i <= n,
            freqs@ == pairs@.take(i as int).map_values(|p: (u64, i64)| p.0),
            amps@ == pairs@.take(i as int).map_values(|p: (u64, i64)| p.1),
        decreases n - i,
    {
        freqs.push(pairs[i].0);
        amps.push(pairs[i].1);
        proof {
            assert(pairs@.take(i + 1) =~= pairs@.take(i as int).push(pairs@[i as int]));
            assert(pairs@.take(i + 1).map_values(|p: (u64, i64)| p.0) =~= pairs@.take(
                i as int,
            ).map_values(|p: (u64, i64)| p.0).push(pairs@[i as int].0));
            assert(pairs@.take(i + 1).map_values(|p: (u64, i64)| p.1) =~= pairs@.take(
                i as int,
            ).map_values(|p: (u64, i64)| p.1).push(pairs@[i as int].1));
        }
        i = i + 1;
    }
    proof {
        assert(pairs@.take(n as int) =~= pairs@);
    }
    (freqs, amps)
}

/// Clamping law of the evaluator: at or below the first average breakpoint
/// the average limit is exactly the first amplitude, and at or above the
/// last breakpoint exactly the last amplitude. The second clause asks that
/// the mask spans a non-empty frequency range (or is a single point): on a
/// mask whose first and last breakpoints repeat one frequency with different
/// amplitudes, a query at that frequency resolves to the first-listed value.
pub proof fn lemma_avg_limit_clamps(m: &EMCStandard, f: u64)
    requires
        m.f_avg_limit_mask@.len() == m.dbuv_avg_limit_mask@.len(),
        m.f_avg_limit_mask@.len() >= 1,
    ensures
        f <= m.f_avg_limit_mask@[0] ==> m.avg_limit_spec(f) == m.dbuv_avg_limit_mask@[0],
        (m.f_avg_limit_mask@.len() == 1 || m.f_avg_limit_mask@[0] < m.f_avg_limit_mask@[
            m.f_avg_limit_mask@.len() - 1
        ]) ==> (f >= m.f_avg_limit_mask@[m.f_avg_limit_mask@.len() - 1] ==> m.avg_limit_spec(f)
            == m.dbuv_avg_limit_mask@[m.f_avg_limit_mask@.len() - 1]),
{
}

/// The evaluator is a pure function: two results obtained for the same mask
/// and the same frequency are identical in every field.
pub proof fn lemma_interp_log_deterministic(m: &EMCStandard, f: u64, r1: EMCLimitResult, r2: EMCLimitResult)
    requires
        r1.avg_limit == m.avg_limit_spec(f),
        r1.qp_limit == m.qp_limit_spec(f),
        r1.pk_limit == m.pk_limit_spec(f),
        r1.dbuv_avg_limit == r1.avg_limit,
        r1.dbuv_qp_limit == r1.qp_limit,
        r1.dbuv_pk_limit == r1.pk_limit,
        r2.avg_limit == m.avg_limit_spec(f),
        r2.qp_limit == m.qp_limit_spec(f),
        r2.pk_limit == m.pk_limit_spec(f),
        r2.dbuv_avg_limit == r2.avg_limit,
        r2.dbuv_qp_limit == r2.qp_limit,
        r2.dbuv_pk_limit == r2.pk_limit,
    ensures
        r1 == r2,
{
}

/// Fallback law of the evaluator: on a mask without quasi-peak and peak
/// breakpoints, the quasi-peak limit is the average limit plus `QP_OFFSET`
/// and the peak limit is the quasi-peak limit plus `PK_OFFSET`, at every
/// frequency.
pub proof fn lemma_fallback_offsets(m: &EMCStandard, f: u64)
    requires
        m.f_qp_limit_mask is None || m.dbuv_qp_limit_mask is None,
        m.f_pk_limit_mask is None || m.dbuv_pk_limit_mask is None,
    ensures
        m.qp_limit_spec(f) == m.avg_limit_spec(f) + QP_OFFSET,
        m.pk_limit_spec(f) == m.qp_limit_spec(f) + PK_OFFSET,
{
}

/// Round-trip law of serialization: two masks whose breakpoint lists agree
/// (as the decoder reproduces them from an encoded mask) evaluate to the same
/// average, quasi-peak and peak limits at every frequency.
pub proof fn lemma_equal_views_evaluate_equal(a: &EMCStandard, b: &EMCStandard, f: u64)
    requires
        a.f_avg_limit_mask@ == b.f_avg_limit_mask@,
        a.dbuv_avg_limit_mask@ == b.dbuv_avg_limit_mask@,
        a.f_qp_limit_mask is Some <==> b.f_qp_limit_mask is Some,
        a.f_qp_limit_mask is Some ==> a.f_qp_limit_mask.unwrap()@ == b.f_qp_limit_mask.unwrap()@,
        a.dbuv_qp_limit_mask is Some <==> b.dbuv_qp_limit_mask is Some,
        a.dbuv_qp_limit_mask is Some ==> a.dbuv_qp_limit_mask.unwrap()@
            == b.dbuv_qp_limit_mask.unwrap()@,
        a.f_pk_limit_mask is Some <==> b.f_pk_limit_mask is Some,
        a.f_pk_limit_mask is Some ==> a.f_pk_limit_mask.unwrap()@ == b.f_pk_limit_mask.unwrap()@,
        a.dbuv_pk_limit_mask is Some <==> b.dbuv_pk_limit_mask is Some,
        a.dbuv_pk_limit_mask is Some ==> a.dbuv_pk_limit_mask.unwrap()@
            == b.dbuv_pk_limit_mask.unwrap()@,
    ensures
        a.avg_limit_spec(f) == b.avg_limit_spec(f),
        a.qp_limit_spec(f) == b.qp_limit_spec(f),
        a.pk_limit_spec(f) == b.pk_limit_spec(f),
{
}

} // verus!
