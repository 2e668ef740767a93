use emc_limits::DB_SCALE;
use emc_limits::EMCStandard;
use emc_limits::StandardClass;
use emc_limits::decode_standard;
use emc_limits::encode_standard;

fn db(v: i64) -> i64 {
    v * DB_SCALE
}

fn sample_standard() -> EMCStandard {
    EMCStandard {
        name: "CISPR 22 Class A".to_string(),
        description: "Conducted emissions, mains ports".to_string(),
        f_avg_limit_mask: vec![150_000, 500_000, 500_001, 30_000_000],
        dbuv_avg_limit_mask: vec![db(66), db(66), db(60), db(60)],
        f_qp_limit_mask: Some(vec![150_000, 500_000, 500_001, 30_000_000]),
        dbuv_qp_limit_mask: Some(vec![db(79), db(79), db(73), db(73)]),
        f_pk_limit_mask: None,
        dbuv_pk_limit_mask: None,
    }
}

#[test]
fn test_encode_format() {
    let m = EMCStandard {
        name: "ab".to_string(),
        description: String::new(),
        f_avg_limit_mask: vec![5],
        dbuv_avg_limit_mask: vec![-3],
        f_qp_limit_mask: None,
        dbuv_qp_limit_mask: None,
        f_pk_limit_mask: None,
        dbuv_pk_limit_mask: None,
    };
    assert_eq!(encode_standard(&m), "2;ab0;1;5;1;-3;0;0;0;0;");
}

#[test]
fn test_round_trip_reproduces_every_field() {
    let m = sample_standard();
    let encoded = encode_standard(&m);
    let decoded = decode_standard(encoded.as_str()).unwrap();

    assert_eq!(decoded.name, m.name);
    assert_eq!(decoded.description, m.description);
    assert_eq!(decoded.f_avg_limit_mask, m.f_avg_limit_mask);
    assert_eq!(decoded.dbuv_avg_limit_mask, m.dbuv_avg_limit_mask);
    assert_eq!(decoded.f_qp_limit_mask, m.f_qp_limit_mask);
    assert_eq!(decoded.dbuv_qp_limit_mask, m.dbuv_qp_limit_mask);
    assert_eq!(decoded.f_pk_limit_mask, m.f_pk_limit_mask);
    assert_eq!(decoded.dbuv_pk_limit_mask, m.dbuv_pk_limit_mask);
}

#[test]
fn test_round_trip_evaluates_identically() {
    let m = sample_standard();
    let encoded = encode_standard(&m);
    let decoded = decode_standard(encoded.as_str()).unwrap();

    for f in [1, 150_000, 300_000, 500_000, 500_001, 7_000_000, 30_000_000, 100_000_000] {
        let a = m.interp_log(f);
        let b = decoded.interp_log(f);
        assert_eq!(a, b);
    }
}

#[test]
fn test_decode_rejects_malformed_text() {
    assert!(decode_standard("").is_none());
    assert!(decode_standard("xyz").is_none());
    assert!(decode_standard("2;ab").is_none());
    assert!(decode_standard("2;ab0;1;5;1;-3;0;0;0;2;").is_none());
    // Trailing garbage after a well-formed encoding is rejected too.
    assert!(decode_standard("2;ab0;1;5;1;-3;0;0;0;0;junk").is_none());
}

#[test]
fn test_from_standard_class_reshapes_pairs() {
    let class = StandardClass {
        name: "CISPR 22 Class A".to_string(),
        description: "catalog entry".to_string(),
        avg_mask: vec![(150_000, db(66)), (30_000_000, db(60))],
        qp_mask: Some(vec![(150_000, db(79)), (30_000_000, db(73))]),
        pk_mask: None,
    };

    let standard = EMCStandard::from_standard_class(&class);

    assert_eq!(standard.name, class.name);
    assert_eq!(standard.description, class.description);
    assert_eq!(standard.f_avg_limit_mask, vec![150_000, 30_000_000]);
    assert_eq!(standard.dbuv_avg_limit_mask, vec![db(66), db(60)]);
    assert_eq!(standard.f_qp_limit_mask, Some(vec![150_000, 30_000_000]));
    assert_eq!(standard.dbuv_qp_limit_mask, Some(vec![db(79), db(73)]));
    assert_eq!(standard.f_pk_limit_mask, None);
    assert_eq!(standard.dbuv_pk_limit_mask, None);
}

#[test]
fn test_new_builds_empty_standard() {
    let standard = EMCStandard::new("ECE_R_10_2012_AC");
    assert_eq!(standard.name, "ECE_R_10_2012_AC");
    assert!(standard.description.is_empty());
    assert!(standard.f_avg_limit_mask.is_empty());
    assert!(standard.dbuv_avg_limit_mask.is_empty());
    assert!(standard.f_qp_limit_mask.is_none());
}
