use emc_limits::DB_SCALE;
use emc_limits::EMCStandard;
use emc_limits::EmcError;
use emc_limits::sort_ascending;

fn db(v: i64) -> i64 {
    v * DB_SCALE
}

fn simple_standard() -> EMCStandard {
    EMCStandard {
        name: "Test Standard".to_string(),
        description: String::new(),
        f_avg_limit_mask: vec![150_000, 30_000_000],
        dbuv_avg_limit_mask: vec![db(60), db(70)],
        f_qp_limit_mask: None,
        dbuv_qp_limit_mask: None,
        f_pk_limit_mask: None,
        dbuv_pk_limit_mask: None,
    }
}

#[test]
fn test_calculate_percentile() {
    let data = vec![db(1), db(2), db(3), db(4), db(5)];
    let p50 = EMCStandard::calculate_percentile(&data, 50);
    assert_eq!(p50, db(3));

    let p95 = EMCStandard::calculate_percentile(&data, 95);
    // 4.8 dB in scaled units, exactly.
    assert_eq!(p95, 4_800_000_000_000);
}

#[test]
fn test_calculate_percentile_edges() {
    let data = vec![db(1), db(2), db(3), db(4), db(5)];
    assert_eq!(EMCStandard::calculate_percentile(&data, 0), db(1));
    assert_eq!(EMCStandard::calculate_percentile(&data, 100), db(5));
    assert_eq!(EMCStandard::calculate_percentile(&vec![], 50), 0);
    assert_eq!(EMCStandard::calculate_percentile(&vec![db(7)], 99), db(7));
}

#[test]
fn test_calculate_std() {
    let data = vec![db(1), db(2), db(3), db(4), db(5)];
    let std = EMCStandard::calculate_std(&data);
    let std_db = std as f64 / DB_SCALE as f64;
    assert!((std_db - 1.5811388300841898).abs() < 1e-10);
}

#[test]
fn test_calculate_std_degenerate() {
    assert_eq!(EMCStandard::calculate_std(&vec![]), 0);
    assert_eq!(EMCStandard::calculate_std(&vec![db(42)]), 0);
    assert_eq!(EMCStandard::calculate_std(&vec![db(5), db(5), db(5)]), 0);
}

#[test]
fn test_sort_ascending_orders_values() {
    let data = vec![db(5), db(-3), db(1), db(1), db(0)];
    let sorted = sort_ascending(&data);
    assert_eq!(sorted, vec![db(-3), db(0), db(1), db(1), db(5)]);
}

#[test]
fn test_analyze_measurement_statistics() {
    // The CISPR 22 class A mask, as the catalog defines it.
    let standard = EMCStandard {
        name: "CISPR 22 Class A".to_string(),
        description: String::new(),
        f_avg_limit_mask: vec![150_000, 500_000, 500_001, 30_000_000],
        dbuv_avg_limit_mask: vec![db(66), db(66), db(60), db(60)],
        f_qp_limit_mask: Some(vec![150_000, 500_000, 500_001, 30_000_000]),
        dbuv_qp_limit_mask: Some(vec![db(79), db(79), db(73), db(73)]),
        f_pk_limit_mask: None,
        dbuv_pk_limit_mask: None,
    };

    // Some test measurement data, some values above/below the limits.
    let frequencies = vec![500_000, 1_000_000, 5_000_000, 10_000_000];
    let amplitudes = vec![db(70), db(65), db(55), db(50)];

    let stats = standard
        .analyze_measurement_statistics(&frequencies, &amplitudes)
        .unwrap();

    assert_eq!(stats.mean_amplitude, db(60));
    assert!(stats.std_amplitude > 0);
    assert_eq!(stats.max_amplitude, db(70));
    assert_eq!(stats.min_amplitude, db(50));
    let p95 = stats.percentile_95 as f64;
    let p99 = stats.percentile_99 as f64;
    assert!(p95 >= p99 * 0.95); // P95 should be <= P99
    assert!(stats.compliance_rate >= 0 && stats.compliance_rate <= db(100));
}

#[test]
fn test_analyze_mixed_compliance() {
    let standard = simple_standard();
    let frequencies = vec![1_000_000, 2_000_000];
    let amplitudes = vec![db(50), db(80)];

    let stats = standard
        .analyze_measurement_statistics(&frequencies, &amplitudes)
        .unwrap();

    assert_eq!(stats.mean_amplitude, db(65));
    assert_eq!(stats.max_amplitude, db(80));
    assert_eq!(stats.min_amplitude, db(50));
    // Sample standard deviation of {50, 80} is 15 * sqrt(2).
    let std_db = stats.std_amplitude as f64 / DB_SCALE as f64;
    assert!((std_db - 15.0 * std::f64::consts::SQRT_2).abs() < 1e-9);
    // Percentiles of the sorted pair interpolate between 50 and 80.
    assert_eq!(stats.percentile_95, 78_500_000_000_000);
    assert_eq!(stats.percentile_99, 79_700_000_000_000);
    // Only the 80 dBµV point violates the average limit (at most 70 dBµV).
    assert_eq!(stats.violation_count, 1);
    assert_eq!(stats.max_violation_frequency, 2_000_000);
    assert!(stats.max_violation > db(10) && stats.max_violation < db(20));
    // One of two measurements passes: 50 %.
    assert_eq!(stats.compliance_rate, db(50));
}

#[test]
fn test_analyze_no_violations() {
    let standard = simple_standard();
    let frequencies = vec![200_000, 20_000_000];
    let amplitudes = vec![db(10), db(20)];

    let stats = standard
        .analyze_measurement_statistics(&frequencies, &amplitudes)
        .unwrap();

    assert_eq!(stats.violation_count, 0);
    assert_eq!(stats.max_violation, 0);
    assert_eq!(stats.max_violation_frequency, 0);
    assert_eq!(stats.compliance_rate, db(100));
}

#[test]
fn test_analyze_empty_input_fails_fast() {
    let standard = simple_standard();
    let r = standard.analyze_measurement_statistics(&vec![], &vec![]);
    assert_eq!(r, Err(EmcError::EmptyInput));
}

#[test]
fn test_analyze_worst_violation_tracks_first_maximum() {
    let standard = simple_standard();
    // Both queries clamp to the first breakpoint's 60 dBµV limit, so the two
    // violations have equal magnitude: the first one's frequency is kept.
    let frequencies = vec![100_000, 150_000, 150_002];
    let amplitudes = vec![db(90), db(90), db(10)];

    let stats = standard
        .analyze_measurement_statistics(&frequencies, &amplitudes)
        .unwrap();

    assert_eq!(stats.violation_count, 2);
    assert_eq!(stats.max_violation, db(30));
    assert_eq!(stats.max_violation_frequency, 100_000);
}
