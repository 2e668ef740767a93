//! Compliance checking of measured amplitudes against a limit mask.
//!
//! For each (frequency, amplitude) measurement the checker evaluates the
//! selected detector's limit and reports pass or fail with the signed margin:
//! positive margin means headroom below the limit, negative margin a
//! violation. Records come back in input order; no record depends on any
//! other.

use vstd::prelude::*;

verus! {

use crate::mask::EMCStandard;
use crate::units::MAX_DB;
use crate::units::amps_bounded;
use vstd::string::StrSliceExecFns;

/// The measurement detector a limit is evaluated for.
#[derive(Clone, Copy, Debug, PartialEq, Eq, Structural)]
pub enum Detector {
    Avg,
    Qp,
    Pk,
}

/// The errors the library reports to its callers.
#[derive(Clone, Copy, Debug, PartialEq, Eq, Structural)]
pub enum EmcError {
    /// A detector selector string that is not `avg`, `qp` or `pk`.
    UnknownDetector,
    /// A statistics request over an empty measurement batch.
    EmptyInput,
}

/// One measurement checked against the selected detector limit.
#[derive(Clone, Copy, Debug, PartialEq, Eq, Structural)]
pub struct ComplianceResult {
    pub frequency: u64,
    pub amplitude: i64,
    pub limit: i64,
    pub passes: bool,
    pub margin: i64,
}

/// What a detector selector string means: `avg`, `qp` or `pk`, ASCII
/// case-insensitive; anything else is unrecognized.
pub open spec fn detector_spec(s: Seq<char>) -> Option<Detector> {
    if s.len() == 3 && (s[0] == 'a' || s[0] == 'A') && (s[1] == 'v' || s[1] == 'V') && (s[2] == 'g'
        || s[2] == 'G') {
        Some(Detector::Avg)
    } else if s.len() == 2 && (s[0] == 'q' || s[0] == 'Q') && (s[1] == 'p' || s[1] == 'P') {
        Some(Detector::Qp)
    } else if s.len() == 2 && (s[0] == 'p' || s[0] == 'P') && (s[1] == 'k' || s[1] == 'K') {
        Some(Detector::Pk)
    } else {
        None
    }
}

/// Parses a detector selector string. An unrecognized selector is a caller
/// error and is reported, never defaulted.
pub fn parse_detector(s: &str) -> (r: Option<Detector>)
    ensures
        r == detector_spec(s@),
{
    let n = s.unicode_len();
    if n == 3 {
        let c0 = s.get_char(0);
        let c1 = s.get_char(1);
        let c2 = s.get_char(2);
        if (c0 == 'a' || c0 == 'A') && (c1 == 'v' || c1 == 'V') && (c2 == 'g' || c2 == 'G') {
            Some(Detector::Avg)
        } else {
            None
        }
    } else if n == 2 {
        let c0 = s.get_char(0);
        let c1 = s.get_char(1);
        if (c0 == 'q' || c0 == 'Q') && (c1 == 'p' || c1 == 'P') {
            Some(Detector::Qp)
        } else if (c0 == 'p' || c0 == 'P') && (c1 == 'k' || c1 == 'K') {
            Some(Detector::Pk)
        } else {
            None
        }
    } else {
        None
    }
}

/// The limit of the selected detector at one frequency.
pub open spec fn detector_limit_spec(m: &EMCStandard, det: Detector, f: u64) -> int {
    match det {
        Detector::Avg => m.avg_limit_spec(f),
        Detector::Qp => m.qp_limit_spec(f),
        Detector::Pk => m.pk_limit_spec(f),
    }
}

/// Checks each measurement against the selected detector limit of the mask.
///
/// Returns one record per input pair, in input order: the evaluated limit,
/// `passes` exactly when the amplitude does not exceed it, and the signed
/// margin `limit - amplitude`. An unrecognized `measurement_type` returns
/// `Err(EmcError::UnknownDetector)`, and nothing else fails.
#[verifier::loop_isolation(false)]
pub fn check_emc_compliance(
    standard: &EMCStandard,
    frequencies: &Vec<u64>,
    amplitudes: &Vec<i64>,
    measurement_type: &str,
) -> (r: Result<Vec<ComplianceResult>, EmcError>)
    requires
        standard.limits_bounded(),
        frequencies@.len() == amplitudes@.len(),
        amps_bounded(amplitudes@),
    ensures
        r is Err <==> detector_spec(measurement_type@) is None,
        r matches Err(e) ==> e == EmcError::UnknownDetector,
        r matches Ok(v) ==> {
            let det = detector_spec(measurement_type@).unwrap();
            &&& v@.len() == frequencies@.len()
            &&& forall|i: int|
                0 <= i < v@.len() ==> {
                    let lim = detector_limit_spec(standard, det, frequencies@[i]);
                    &&& (#[trigger] v@[i]).frequency == frequencies@[i]
                    &&& v@[i].amplitude == amplitudes@[i]
                    &&& v@[i].limit == lim
                    &&& v@[i].passes == (amplitudes@[i] <= lim)
                    &&& v@[i].margin == lim - amplitudes@[i]
                }
        },
{
    let det = match parse_detector(measurement_type) {
        Some(d) => d,
        None => {
            return Err(EmcError::UnknownDetector);
        },
    };
    let n = frequencies.len();
    let mut results: Vec<ComplianceResult> = Vec::new();
    let mut i: usize = 0;
    while i < n
        invariant
            0 <= i <= n,
            results@.len() == i,
            forall|j: int|
                0 <= j < i ==> {
                    let lim = detector_limit_spec(standard, det, frequencies@[j]);
                    &&& (#[trigger] results@[j]).frequency == frequencies@[j]
                    &&& results@[j].amplitude == amplitudes@[j]
                    &&& results@[j].limit == lim
                    &&& results@[j].passes == (amplitudes@[j] <= lim)
                    &&& results@[j].margin == lim - amplitudes@[j]
                },
        decreases n - i,
    {
        let freq = frequencies[i];
        let amp = amplitudes[i];
        let limits = standard.interp_log(freq);
        let limit = match det {
            Detector::Avg => limits.dbuv_avg_limit,
            Detector::Qp => limits.dbuv_qp_limit,
            Detector::Pk => limits.dbuv_pk_limit,
        };
        results.push(
            ComplianceResult {
                frequency: freq,
                amplitude: amp,
                limit,
                passes: amp <= limit,
                margin: limit - amp,
            },
        );
        i = i + 1;
    }
    Ok(results)
}

} // verus!
