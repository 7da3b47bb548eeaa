use teehee::buffer_budget::{
    compute_capacity_packets, validate_buffer_ms, BufferError, RX_BUFFER_DEFAULT_MS,
    RX_BUFFER_MAX_MS, RX_BUFFER_MIN_MS,
};

#[test]
fn constants_pin_default_and_bounds() {
    assert_eq!(RX_BUFFER_MIN_MS, 100);
    assert_eq!(RX_BUFFER_DEFAULT_MS, 2_000);
    assert_eq!(RX_BUFFER_MAX_MS, 30_000);
}

#[test]
fn validate_buffer_ms_accepts_range_inclusive() {
    assert_eq!(validate_buffer_ms(100).unwrap(), 100);
    assert_eq!(validate_buffer_ms(2_000).unwrap(), 2_000);
    assert_eq!(validate_buffer_ms(30_000).unwrap(), 30_000);
}

#[test]
fn validate_buffer_ms_rejects_below_min() {
    let err = validate_buffer_ms(99).unwrap_err();
    assert_eq!(err, BufferError::TooSmall { got: 99, min: 100 });
}

#[test]
fn validate_buffer_ms_rejects_above_max() {
    let err = validate_buffer_ms(30_001).unwrap_err();
    assert_eq!(
        err,
        BufferError::TooLarge {
            got: 30_001,
            max: 30_000
        }
    );
}

#[test]
fn capacity_default_48k_stereo_chunk_20ms_rx_buf_2000() {
    let c = compute_capacity_packets(2_000, 200, 48_000, 2, 1_920).unwrap();
    assert_eq!(c, 100);
}

#[test]
fn capacity_floor_applies_when_rx_buffer_ms_at_min() {
    let c = compute_capacity_packets(100, 100, 48_000, 2, 1_920).unwrap();
    assert_eq!(c, 32, "OS-memory floor must win at the lower edge");
}

#[test]
fn capacity_at_max_rx_buffer_ms_30s() {
    let c = compute_capacity_packets(30_000, 200, 48_000, 2, 1_920).unwrap();
    assert_eq!(c, 1500);
}

#[test]
fn capacity_44_1k_mono_at_default_chunk() {
    let c = compute_capacity_packets(2_000, 200, 44_100, 1, 882).unwrap();
    assert_eq!(c, 100);
}

#[test]
fn capacity_96k_stereo_at_default_chunk() {
    let c = compute_capacity_packets(2_000, 200, 96_000, 2, 3_840).unwrap();
    assert_eq!(c, 100);
}

#[test]
fn capacity_rejects_when_rx_buffer_smaller_than_prebuffer() {
    let err = compute_capacity_packets(200, 500, 48_000, 2, 1_920).unwrap_err();
    assert_eq!(
        err,
        BufferError::BufferSmallerThanPrebuffer {
            rx_buf: 200,
            prebuf: 500
        }
    );
}

#[test]
fn capacity_accepts_at_equality() {
    let c = compute_capacity_packets(200, 200, 48_000, 2, 1_920).unwrap();
    assert_eq!(c, 32);
}

#[test]
fn buffer_budget_capacity_propagates_too_small_from_validate() {
    let err = compute_capacity_packets(50, 200, 48_000, 2, 1_920).unwrap_err();
    assert_eq!(err, BufferError::TooSmall { got: 50, min: 100 });
}

#[test]
fn buffer_error_messages_mention_key_numbers() {
    let e1 = BufferError::TooSmall { got: 50, min: 100 };
    assert!(e1.message().contains("50"));
    assert!(e1.message().contains("100"));

    let e2 = BufferError::TooLarge {
        got: 60_000,
        max: 30_000,
    };
    let s2 = e2.message();
    assert!(s2.contains("60000") || s2.contains("60_000"));

    let e3 = BufferError::BufferSmallerThanPrebuffer {
        rx_buf: 100,
        prebuf: 500,
    };
    let s3 = e3.message();
    assert!(s3.contains("100"));
    assert!(s3.contains("500"));
}

#[test]
fn buffer_error_messages_are_exact() {
    assert_eq!(
        BufferError::TooSmall { got: 50, min: 100 }.message(),
        "rx-buffer-ms 50 is below RX_BUFFER_MIN (100); the ring can never reach the max(32, packets) floor at this size"
    );
    assert_eq!(
        BufferError::TooLarge { got: 60_000, max: 30_000 }.message(),
        "rx-buffer-ms 60000 exceeds RX_BUFFER_MAX (30000); too memory-heavy"
    );
}

#[test]
fn partial_packets_round_the_capacity_up() {
    assert_eq!(compute_capacity_packets(1_000, 100, 44_100, 2, 882).unwrap(), 100);
    assert_eq!(compute_capacity_packets(1_001, 100, 44_100, 2, 882).unwrap(), 101);
}

#[test]
fn the_target_always_fits_the_ring() {
    for (rx, pre) in [(100usize, 100usize), (350, 300), (30_000, 10_000)] {
        for spp in [1usize, 7, 882, 1_920, 16_383] {
            let c = compute_capacity_packets(rx, pre, 48_000, 2, spp).unwrap();
            assert!(c * spp >= pre * 48_000 * 2 / 1000);
        }
    }
}
