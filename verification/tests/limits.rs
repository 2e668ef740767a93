use emc_limits::DB_SCALE;
use emc_limits::EMCStandard;
use emc_limits::GHZ;
use emc_limits::InterpMode;
use emc_limits::KHZ;
use emc_limits::MHZ;
use emc_limits::check_emc_compliance;
use emc_limits::create_log_range;
use emc_limits::frequency_helpers::cispr22_class_a_frequencies;
use emc_limits::frequency_helpers::cispr22_class_a_limits;
use emc_limits::frequency_helpers::ece_r10_ac_frequencies;
use emc_limits::interpolate;
use emc_limits::mask::PK_OFFSET;
use emc_limits::mask::QP_OFFSET;
use emc_limits::logq::exp_q32;
use emc_limits::logq::log_q32;
use emc_limits::logq::LOG_SCALE;
use emc_limits::parse_detector;
use emc_limits::Detector;
use emc_limits::EmcError;

fn test_standard(
    avg: (Vec<u64>, Vec<i64>),
    qp: Option<(Vec<u64>, Vec<i64>)>,
    pk: Option<(Vec<u64>, Vec<i64>)>,
) -> EMCStandard {
    let (qp_f, qp_a) = match qp {
        Some((f, a)) => (Some(f), Some(a)),
        None => (None, None),
    };
    let (pk_f, pk_a) = match pk {
        Some((f, a)) => (Some(f), Some(a)),
        None => (None, None),
    };
    EMCStandard {
        name: "Test Standard".to_string(),
        description: String::new(),
        f_avg_limit_mask: avg.0,
        dbuv_avg_limit_mask: avg.1,
        f_qp_limit_mask: qp_f,
        dbuv_qp_limit_mask: qp_a,
        f_pk_limit_mask: pk_f,
        dbuv_pk_limit_mask: pk_a,
    }
}

fn db(v: i64) -> i64 {
    v * DB_SCALE
}

#[test]
fn test_frequency_constants() {
    assert_eq!(150 * KHZ, 150_000);
    assert_eq!(30 * MHZ, 30_000_000);
    assert_eq!(1 * GHZ, 1_000_000_000);
}

#[test]
fn test_expression_frequencies() {
    let frequencies = cispr22_class_a_frequencies();
    assert_eq!(frequencies[0], 150_000);
    assert_eq!(frequencies[1], 500_000);
    assert_eq!(frequencies[2], 500_001);
    assert_eq!(frequencies[3], 30_000_000);
    assert_eq!(frequencies[4], 100_000_000);
    assert_eq!(frequencies[5], 100_000_001);
}

#[test]
fn test_log_range_generation() {
    let frequencies = create_log_range(100 * KHZ, 1 * GHZ, 10);

    assert!(frequencies.len() > 10);
    assert!(frequencies[0] >= 100_000);
    assert!(*frequencies.last().unwrap() <= 1_000_000_000);

    for i in 1..frequencies.len() {
        assert!(frequencies[i] > frequencies[i - 1]);
    }
}

#[test]
fn test_interpolate_log() {
    let frequencies = vec![150_000, 500_000, 30_000_000];
    let amplitudes = vec![db(66), db(60), db(60)];
    let target_freq = 300_000;

    let result = EMCStandard::interpolate_log(&frequencies, &amplitudes, target_freq);

    // Should interpolate between 66.0 and 60.0
    assert!(result > db(60) && result < db(66));
}

#[test]
fn test_interpolate_clamps_to_boundaries() {
    let frequencies = vec![150_000, 500_000, 30_000_000];
    let amplitudes = vec![db(66), db(60), db(55)];

    assert_eq!(EMCStandard::interpolate_log(&frequencies, &amplitudes, 1), db(66));
    assert_eq!(EMCStandard::interpolate_log(&frequencies, &amplitudes, 150_000), db(66));
    assert_eq!(EMCStandard::interpolate_log(&frequencies, &amplitudes, 30_000_000), db(55));
    assert_eq!(EMCStandard::interpolate_log(&frequencies, &amplitudes, u64::MAX), db(55));
}

#[test]
fn test_interpolate_degenerate_input_yields_zero() {
    // Mismatched lengths and empty lists degrade to the 0 sentinel.
    assert_eq!(EMCStandard::interpolate_log(&vec![100, 200], &vec![db(10)], 150), 0);
    assert_eq!(EMCStandard::interpolate_log(&vec![], &vec![], 150), 0);
    assert_eq!(interpolate(&vec![100], &vec![], 150, InterpMode::Logarithmic), 0);
}

#[test]
fn test_interpolate_exact_at_breakpoints() {
    let frequencies = vec![100, 200, 200, 300];
    let amplitudes = vec![db(10), db(20), db(30), db(40)];

    // A query at a repeated frequency resolves to the first-listed bracket.
    assert_eq!(
        EMCStandard::interpolate_log(&frequencies, &amplitudes, 200),
        db(20)
    );
    // Linear mode hits breakpoints exactly too.
    assert_eq!(interpolate(&frequencies, &amplitudes, 300, InterpMode::Linear), db(40));
    assert_eq!(interpolate(&frequencies, &amplitudes, 250, InterpMode::Linear), db(35));
}

#[test]
fn test_calculate_emc_limit_basic() {
    let standard = test_standard(
        (
            vec![150_000, 500_000, 5_000_000, 30_000_000],
            vec![db(60), db(50), db(50), db(70)],
        ),
        None,
        None,
    );

    let result = standard.interp_log(1_000_000);

    assert!(result.dbuv_avg_limit > 0);
    assert!(result.dbuv_avg_limit < db(100));
}

#[test]
fn test_interp_log_fallback_offsets() {
    let standard = test_standard(
        (vec![150_000, 30_000_000], vec![db(60), db(70)]),
        None,
        None,
    );

    for f in [0, 1, 150_000, 1_000_000, 17_500_000, 30_000_000, u64::MAX] {
        let r = standard.interp_log(f);
        assert_eq!(r.qp_limit, r.avg_limit + QP_OFFSET);
        assert_eq!(r.pk_limit, r.qp_limit + PK_OFFSET);
        assert_eq!(r.qp_limit, r.avg_limit + 6 * DB_SCALE);
        assert_eq!(r.pk_limit, r.qp_limit + 10 * DB_SCALE);
    }
}

#[test]
fn test_interp_log_idempotent() {
    let standard = test_standard(
        (
            vec![150_000, 500_000, 5_000_000, 30_000_000],
            vec![db(60), db(50), db(50), db(70)],
        ),
        Some((vec![150_000, 30_000_000], vec![db(66), db(76)])),
        None,
    );

    for f in [1, 150_000, 777_777, 5_000_000, 29_999_999, 30_000_001] {
        let a = standard.interp_log(f);
        let b = standard.interp_log(f);
        assert_eq!(a, b);
    }
}

#[test]
fn test_interp_log_uses_explicit_masks() {
    let standard = test_standard(
        (vec![150_000, 30_000_000], vec![db(60), db(70)]),
        Some((vec![150_000, 30_000_000], vec![db(80), db(90)])),
        Some((vec![150_000, 30_000_000], vec![db(95), db(99)])),
    );

    let r = standard.interp_log(150_000);
    assert_eq!(r.avg_limit, db(60));
    assert_eq!(r.qp_limit, db(80));
    assert_eq!(r.pk_limit, db(95));
    assert_eq!(r.dbuv_avg_limit, r.avg_limit);
    assert_eq!(r.dbuv_qp_limit, r.qp_limit);
    assert_eq!(r.dbuv_pk_limit, r.pk_limit);
}

#[test]
fn test_check_compliance_basic() {
    let standard = test_standard(
        (vec![150_000, 30_000_000], vec![db(60), db(70)]),
        None,
        None,
    );

    let frequencies = vec![1_000_000, 2_000_000];
    let amplitudes = vec![db(50), db(80)]; // First should pass, second should fail

    let results = check_emc_compliance(&standard, &frequencies, &amplitudes, "avg").unwrap();

    assert_eq!(results.len(), 2);
    assert!(results[0].passes); // 50 dBμV should pass
    assert!(!results[1].passes); // 80 dBμV should fail
    assert!(results[0].margin > 0);
    assert!(results[1].margin < 0);
    assert_eq!(results[0].frequency, 1_000_000);
    assert_eq!(results[0].amplitude, db(50));
    assert_eq!(results[0].limit - results[0].amplitude, results[0].margin);
}

#[test]
fn test_check_compliance_unknown_detector() {
    let standard = test_standard((vec![150_000], vec![db(60)]), None, None);
    let r = check_emc_compliance(&standard, &vec![1_000_000], &vec![db(50)], "peak");
    assert_eq!(r, Err(EmcError::UnknownDetector));
}

#[test]
fn test_parse_detector_selectors() {
    assert_eq!(parse_detector("avg"), Some(Detector::Avg));
    assert_eq!(parse_detector("AVG"), Some(Detector::Avg));
    assert_eq!(parse_detector("qp"), Some(Detector::Qp));
    assert_eq!(parse_detector("Pk"), Some(Detector::Pk));
    assert_eq!(parse_detector("peak"), None);
    assert_eq!(parse_detector(""), None);
}

#[test]
fn test_interp_log() {
    // The CISPR 22 class A mask, as the catalog defines it.
    let standard = test_standard(
        (
            vec![150_000, 500_000, 500_001, 30_000_000],
            vec![db(66), db(66), db(60), db(60)],
        ),
        Some((
            vec![150_000, 500_000, 500_001, 30_000_000],
            vec![db(79), db(79), db(73), db(73)],
        )),
        None,
    );

    // Interpolation at 1 MHz (between the 150 kHz and 30 MHz breakpoints).
    let result = standard.interp_log(1_000_000);

    assert!(result.dbuv_avg_limit > 0);
    assert!(result.dbuv_qp_limit > result.dbuv_avg_limit);
    assert!(result.dbuv_pk_limit > result.dbuv_qp_limit);
}

#[test]
fn test_generate_adaptive_mask() {
    // The CISPR 22 class B mask, as the catalog defines it.
    let standard = test_standard(
        (
            vec![150_000, 500_000, 500_001, 5_000_000, 5_000_001, 30_000_000],
            vec![db(56), db(46), db(46), db(46), db(50), db(50)],
        ),
        Some((
            vec![150_000, 500_000, 500_001, 5_000_000, 5_000_001, 30_000_000],
            vec![db(66), db(56), db(56), db(56), db(60), db(60)],
        )),
        None,
    );
    let mask = standard.generate_adaptive_mask(150_000, 30_000_000, 50);

    assert_eq!(mask.avg.len(), 50);
    assert!(!mask.qp.is_empty());

    // Verify frequency ordering
    for i in 1..mask.avg.len() {
        assert!(mask.avg[i].frequency > mask.avg[i - 1].frequency);
    }
}

#[test]
fn test_generate_adaptive_mask_fifty_points() {
    let standard = test_standard(
        (
            vec![150_000, 500_000, 5_000_000, 30_000_000],
            vec![db(60), db(50), db(50), db(70)],
        ),
        Some((
            vec![150_000, 500_000, 5_000_000, 30_000_000],
            vec![db(66), db(56), db(56), db(76)],
        )),
        Some((
            vec![150_000, 500_000, 5_000_000, 30_000_000],
            vec![db(80), db(70), db(70), db(90)],
        )),
    );

    let mask = standard.generate_adaptive_mask(150_000, 30_000_000, 50);

    assert_eq!(mask.avg.len(), 50);
    assert!(!mask.qp.is_empty());
    assert_eq!(mask.avg[0].frequency, 150_000);
    assert_eq!(mask.avg[49].frequency, 30_000_000);

    for i in 1..mask.avg.len() {
        assert!(mask.avg[i].frequency > mask.avg[i - 1].frequency);
    }
    for i in 1..mask.qp.len() {
        assert!(mask.qp[i].frequency > mask.qp[i - 1].frequency);
    }
    for i in 1..mask.pk.len() {
        assert!(mask.pk[i].frequency > mask.pk[i - 1].frequency);
    }
}

#[test]
fn test_generate_adaptive_mask_filters_nonpositive_derived_limits() {
    // At the low end the average limit is negative, so the derived quasi-peak
    // and peak limits are not positive there and are dropped.
    let standard = test_standard(
        (vec![1_000, 100_000], vec![db(-20), db(50)]),
        None,
        None,
    );

    let mask = standard.generate_adaptive_mask(1_000, 100_000, 40);

    assert_eq!(mask.avg.len(), 40);
    assert!(mask.qp.len() < mask.avg.len());
    assert!(mask.pk.len() < mask.avg.len());
    for p in &mask.qp {
        assert!(p.amplitude > 0);
    }
    for p in &mask.pk {
        assert!(p.amplitude > 0);
    }
}

#[test]
fn test_generate_emc_mask_points_per_decade() {
    let standard = test_standard(
        (vec![150_000, 30_000_000], vec![db(60), db(70)]),
        None,
        None,
    );

    let mask = emc_limits::generate_emc_mask(&standard, 150_000, 30_000_000, 10);

    // 150 kHz to 30 MHz is about 2.3 decades: roughly 24 steps, 25 points.
    assert!(mask.avg.len() >= 20 && mask.avg.len() <= 30);
    assert_eq!(mask.avg[0].frequency, 150_000);
    assert_eq!(mask.avg.last().unwrap().frequency, 30_000_000);
    for i in 1..mask.avg.len() {
        assert!(mask.avg[i].frequency > mask.avg[i - 1].frequency);
    }
}

#[test]
fn test_ece_r10_ac_frequency_table() {
    let f = ece_r10_ac_frequencies();
    assert_eq!(
        f,
        vec![150_000, 300_000, 1_400_000, 2_800_000, 30_000_000, 54_000_000, 108_000_000]
    );
    let limits = cispr22_class_a_limits();
    assert_eq!(limits[0], db(79));
    assert_eq!(limits.len(), 6);
}

#[test]
fn test_log_axis_exact_on_powers_of_two() {
    assert_eq!(log_q32(1), 0);
    assert_eq!(log_q32(1 << 20), 20 * LOG_SCALE);
    assert_eq!(exp_q32(20 * LOG_SCALE), 1 << 20);
    // Round trip below 2^33 is exact.
    for f in [1u64, 2, 3, 150_000, 30_000_000, 1_000_000_000, (1 << 33) - 1] {
        assert_eq!(exp_q32(log_q32(f)), f);
    }
    // The axis is monotone.
    let mut prev = 0;
    for f in [1u64, 2, 5, 100, 150_000, 500_000, 30_000_000, u64::MAX] {
        let l = log_q32(f);
        assert!(l >= prev);
        prev = l;
    }
}
