use teehee::mtu_budget::{
    compute_budget, exceeds_budget, validate_mtu, MtuBudget, MtuError, F32_SAMPLE_BYTES,
    FRAMING_OVERHEAD_BYTES, MTU_DEFAULT_BYTES, MTU_MAX_BYTES, MTU_MIN_BYTES,
};

#[test]
fn framing_overhead_matches_ip_udp_teehee_sum() {
    assert_eq!(FRAMING_OVERHEAD_BYTES, 53);
    assert_eq!(MTU_MIN_BYTES, 576);
    assert_eq!(MTU_DEFAULT_BYTES, 1500);
    assert_eq!(MTU_MAX_BYTES, 9000);
    assert_eq!(F32_SAMPLE_BYTES, 4);
}

#[test]
fn validate_mtu_accepts_range_inclusive() {
    assert_eq!(validate_mtu(576).unwrap(), 576);
    assert_eq!(validate_mtu(1500).unwrap(), 1500);
    assert_eq!(validate_mtu(9000).unwrap(), 9000);
}

#[test]
fn validate_mtu_rejects_below_min() {
    let err = validate_mtu(575).unwrap_err();
    assert_eq!(err, MtuError::TooSmall { got: 575, min: 576 });
}

#[test]
fn validate_mtu_rejects_above_max() {
    let err = validate_mtu(9001).unwrap_err();
    assert_eq!(
        err,
        MtuError::TooLarge {
            got: 9001,
            max: 9000
        }
    );
}

#[test]
fn stereo_mtu_576() {
    let b = compute_budget(576, 2).unwrap();
    assert_eq!(b.max_payload_bytes, 523);
    assert_eq!(b.max_chunk_samples, 65);
}

#[test]
fn stereo_mtu_1280() {
    let b = compute_budget(1280, 2).unwrap();
    assert_eq!(b.max_payload_bytes, 1227);
    assert_eq!(b.max_chunk_samples, 153);
}

#[test]
fn stereo_mtu_1500() {
    let b = compute_budget(1500, 2).unwrap();
    assert_eq!(b.max_payload_bytes, 1447);
    assert_eq!(b.max_chunk_samples, 180);
}

#[test]
fn stereo_mtu_9000() {
    let b = compute_budget(9000, 2).unwrap();
    assert_eq!(b.max_payload_bytes, 8947);
    assert_eq!(b.max_chunk_samples, 1118);
}

#[test]
fn mono_mtu_576() {
    let b = compute_budget(576, 1).unwrap();
    assert_eq!(b.max_payload_bytes, 523);
    assert_eq!(b.max_chunk_samples, 130);
}

#[test]
fn mono_mtu_1280() {
    let b = compute_budget(1280, 1).unwrap();
    assert_eq!(b.max_payload_bytes, 1227);
    assert_eq!(b.max_chunk_samples, 306);
}

#[test]
fn mono_mtu_1500() {
    let b = compute_budget(1500, 1).unwrap();
    assert_eq!(b.max_payload_bytes, 1447);
    assert_eq!(b.max_chunk_samples, 361);
}

#[test]
fn mono_mtu_9000() {
    let b = compute_budget(9000, 1).unwrap();
    assert_eq!(b.max_payload_bytes, 8947);
    assert_eq!(b.max_chunk_samples, 2236);
}

#[test]
fn compute_budget_rejects_zero_channels() {
    let err = compute_budget(1500, 0).unwrap_err();
    assert_eq!(
        err,
        MtuError::NoFrameFits {
            mtu: 1500,
            channels: 0,
            max_payload: 1500 - 53,
            max_chunk_samples: 0,
        }
    );
}

#[test]
fn compute_budget_rejects_when_no_frame_fits() {
    let err = compute_budget(576, 255).unwrap_err();
    assert_eq!(
        err,
        MtuError::NoFrameFits {
            mtu: 576,
            channels: 255,
            max_payload: 523,
            max_chunk_samples: 0,
        }
    );
}

#[test]
fn compute_budget_octaphonic_at_typical_ethernet() {
    let b = compute_budget(1500, 8).unwrap();
    assert_eq!(b.max_payload_bytes, 1447);
    assert_eq!(b.max_chunk_samples, 45);
}

#[test]
fn exceeds_budget_true_when_encoded_overshoots() {
    let b = MtuBudget {
        max_payload_bytes: 1447,
        max_chunk_samples: 180,
    };
    assert!(exceeds_budget(1448, &b));
    assert!(exceeds_budget(1500, &b));
    assert!(exceeds_budget(7705, &b));
}

#[test]
fn exceeds_budget_false_at_and_below_max() {
    let b = MtuBudget {
        max_payload_bytes: 1447,
        max_chunk_samples: 180,
    };
    assert!(!exceeds_budget(0, &b));
    assert!(!exceeds_budget(25, &b));
    assert!(!exceeds_budget(1447, &b));
}

#[test]
fn mtu_error_messages_mention_key_numbers() {
    let e1 = MtuError::TooSmall { got: 100, min: 576 };
    let s1 = e1.message();
    assert!(s1.contains("100"));
    assert!(s1.contains("576"));
    let e2 = MtuError::TooLarge {
        got: 99999,
        max: 9000,
    };
    let s2 = e2.message();
    assert!(s2.contains("99999"));
    assert!(s2.contains("9000"));
    let e3 = MtuError::NoFrameFits {
        mtu: 576,
        channels: 255,
        max_payload: 523,
        max_chunk_samples: 0,
    };
    let s3 = e3.message();
    assert!(s3.contains("576"));
    assert!(s3.contains("255"));
}

#[test]
fn one_more_frame_would_not_fit() {
    for mtu in [576usize, 577, 1280, 1500, 8999, 9000] {
        for channels in [1u8, 2, 3, 8] {
            let b = compute_budget(mtu, channels).unwrap();
            let frame = channels as usize * 4;
            assert!(b.max_chunk_samples * frame + FRAMING_OVERHEAD_BYTES <= mtu);
            assert!((b.max_chunk_samples + 1) * frame + FRAMING_OVERHEAD_BYTES > mtu);
        }
    }
}
