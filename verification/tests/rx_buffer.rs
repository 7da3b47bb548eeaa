use teehee::buffer_budget::{
    compute_capacity_packets, validate_buffer_ms, BufferError, RX_BUFFER_DEFAULT_MS,
    RX_BUFFER_MAX_MS, RX_BUFFER_MIN_MS,
};
use teehee::jitter::{PushOutcome, Stats};

/// A reorder buffer of float samples.
struct JitterBuffer {
    inner: teehee::jitter::JitterBuffer,
}

impl JitterBuffer {
    fn new(samples_per_packet: usize, capacity: usize, target: Option<usize>) -> Self {
        Self {
            inner: teehee::jitter::JitterBuffer::new(samples_per_packet, capacity, target),
        }
    }

    fn push(&mut self, seq: u32, samples: &[f32]) -> PushOutcome {
        let bits: Vec<u32> = samples.iter().map(|s| s.to_bits()).collect();
        self.inner.push(seq, &bits)
    }

    fn pop_frames(&mut self, out: &mut [f32]) -> usize {
        let mut bits = vec![u32::MAX; out.len()];
        let n = self.inner.pop_frames(&mut bits);
        for (o, b) in out.iter_mut().zip(bits) {
            *o = f32::from_bits(b);
        }
        n
    }

    fn stats(&self) -> Stats {
        self.inner.stats()
    }
}

const DEFAULT_TX_HZ: u32 = 48_000;
const DEFAULT_TX_CH: u8 = 2;
const DEFAULT_SAMPLES_PER_PACKET: usize = 1_920;

#[test]
fn default_min_and_max_constants_round_trip() {
    assert_eq!(RX_BUFFER_MIN_MS, 100);
    assert_eq!(RX_BUFFER_DEFAULT_MS, 2_000);
    assert_eq!(RX_BUFFER_MAX_MS, 30_000);
}

#[test]
fn validate_accepts_default_2_seconds() {
    assert_eq!(validate_buffer_ms(2_000).unwrap(), 2_000);
}

#[test]
fn validate_rejects_sub_floor() {
    let err = validate_buffer_ms(99).unwrap_err();
    assert_eq!(err, BufferError::TooSmall { got: 99, min: 100 });
}

#[test]
fn validate_rejects_super_cap() {
    let err = validate_buffer_ms(30_001).unwrap_err();
    assert_eq!(
        err,
        BufferError::TooLarge {
            got: 30_001,
            max: 30_000
        }
    );
}

#[test]
fn capacity_at_boundary_rx_buffer_ms_100() {
    let c = compute_capacity_packets(
        100,
        100,
        DEFAULT_TX_HZ,
        DEFAULT_TX_CH,
        DEFAULT_SAMPLES_PER_PACKET,
    )
    .unwrap();
    assert_eq!(
        c, 32,
        "default-audio 100 ms ring reaches the OS-memory floor"
    );
}

#[test]
fn capacity_at_boundary_rx_buffer_ms_1000() {
    let c = compute_capacity_packets(
        1_000,
        200,
        DEFAULT_TX_HZ,
        DEFAULT_TX_CH,
        DEFAULT_SAMPLES_PER_PACKET,
    )
    .unwrap();
    assert_eq!(c, 50, "default-audio 1000 ms ring = 50 packets");
}

#[test]
fn capacity_at_boundary_rx_buffer_ms_2000() {
    let c = compute_capacity_packets(
        2_000,
        200,
        DEFAULT_TX_HZ,
        DEFAULT_TX_CH,
        DEFAULT_SAMPLES_PER_PACKET,
    )
    .unwrap();
    assert_eq!(c, 100);
}

#[test]
fn capacity_at_boundary_rx_buffer_ms_5000() {
    let c = compute_capacity_packets(
        5_000,
        200,
        DEFAULT_TX_HZ,
        DEFAULT_TX_CH,
        DEFAULT_SAMPLES_PER_PACKET,
    )
    .unwrap();
    assert_eq!(c, 250, "5-second default-audio ring = 250 packets");
}

#[test]
fn capacity_at_max_rx_buffer_ms_30000() {
    let c = compute_capacity_packets(
        30_000,
        200,
        DEFAULT_TX_HZ,
        DEFAULT_TX_CH,
        DEFAULT_SAMPLES_PER_PACKET,
    )
    .unwrap();
    assert_eq!(c, 1_500);
}

#[test]
fn capacity_rejects_rx_buffer_smaller_than_prebuffer() {
    let err = compute_capacity_packets(
        200,
        500,
        DEFAULT_TX_HZ,
        DEFAULT_TX_CH,
        DEFAULT_SAMPLES_PER_PACKET,
    )
    .unwrap_err();
    assert_eq!(
        err,
        BufferError::BufferSmallerThanPrebuffer {
            rx_buf: 200,
            prebuf: 500
        }
    );
}

#[test]
fn capacity_accepts_rx_buffer_at_prebuffer_equality() {
    let c = compute_capacity_packets(
        200,
        200,
        DEFAULT_TX_HZ,
        DEFAULT_TX_CH,
        DEFAULT_SAMPLES_PER_PACKET,
    )
    .unwrap();
    assert_eq!(c, 32);
}

#[test]
fn rx_buffer_tests_capacity_propagates_too_small_from_validate() {
    let err = compute_capacity_packets(
        50,
        200,
        DEFAULT_TX_HZ,
        DEFAULT_TX_CH,
        DEFAULT_SAMPLES_PER_PACKET,
    )
    .unwrap_err();
    assert!(matches!(err, BufferError::TooSmall { .. }));
}

fn small_ring() -> JitterBuffer {
    JitterBuffer::new(4, 4, None)
}

fn push_tag(buf: &mut JitterBuffer, seq: u32) {
    let mut samples = vec![seq as f32; 4];
    for s in samples.iter_mut() {
        *s += 0.001;
    }
    assert_eq!(
        buf.push(seq, &samples),
        PushOutcome::Stored,
        "expected Stored for fresh seq {seq}"
    );
}

#[test]
fn rx_buffer_tests_ring_overruns_default_is_zero() {
    let buf = small_ring();
    let s: Stats = buf.stats();
    assert_eq!(s.ring_overruns, 0);
}

#[test]
fn ring_overruns_increments_on_overwrite_of_unplayed_future_slot() {
    let mut buf = small_ring();
    for s in 0..4u32 {
        push_tag(&mut buf, s);
    }
    let mut out = [0.0_f32; 4];
    buf.pop_frames(&mut out);
    assert_eq!(buf.stats().ring_overruns, 0);

    push_tag(&mut buf, 4);
    assert_eq!(buf.stats().ring_overruns, 0);

    push_tag(&mut buf, 5);
    assert_eq!(
        buf.stats().ring_overruns,
        1,
        "overwriting unplayed future slot must increment ring_overruns"
    );
}

#[test]
fn rx_buffer_tests_ring_overruns_independent_of_mid_read_collisions() {
    let mut buf = small_ring();
    for s in 0..4u32 {
        push_tag(&mut buf, s);
    }
    let mut out = [0.0_f32; 4];
    buf.pop_frames(&mut out);
    buf.pop_frames(&mut out);
    push_tag(&mut buf, 4);
    assert_eq!(buf.stats().ring_overruns, 0);
    push_tag(&mut buf, 5);
    assert_eq!(
        buf.stats().ring_overruns,
        0,
        "store into cleared slot is not an overrun"
    );
    push_tag(&mut buf, 6);
    assert_eq!(
        buf.stats().ring_overruns,
        1,
        "slot.seq == head race window counts as overrun"
    );
    push_tag(&mut buf, 7);
    assert_eq!(
        buf.stats().ring_overruns,
        2,
        "strict future within capacity also counts as overrun"
    );
    assert_eq!(buf.stats().mid_read_collisions, 0);
}

#[test]
fn ring_overruns_does_not_fire_on_late_packets_at_anchor() {
    let mut buf = small_ring();
    push_tag(&mut buf, 0);
    let mut out = [0.0_f32; 4];
    buf.pop_frames(&mut out);
    for _ in 0..5 {
        let outcome = buf.push(0, &[99.0_f32; 4]);
        assert_eq!(outcome, PushOutcome::Late);
    }
    assert_eq!(buf.stats().late_drops, 5);
    assert_eq!(buf.stats().ring_overruns, 0);
}

#[test]
fn legacy_stats_fields_remain_after_slice10() {
    let s = Stats::default();
    let _: u64 = s.late_drops;
    let _: u64 = s.duplicates;
    let _: u64 = s.silence_insertions;
    let _: u64 = s.mid_read_collisions;
    let _: u64 = s.prebuffer_holds;
    let _: u64 = s.ring_overruns;
}

#[test]
fn capacity_meets_or_exceeds_prebuffer_requirement_at_every_boundary() {
    for (rx_buf, pre_buf) in [
        (100usize, 100usize),
        (500, 200),
        (1_000, 200),
        (2_000, 200),
        (5_000, 200),
        (10_000, 1_000),
        (30_000, 200),
    ] {
        let capacity = compute_capacity_packets(
            rx_buf,
            pre_buf,
            DEFAULT_TX_HZ,
            DEFAULT_TX_CH,
            DEFAULT_SAMPLES_PER_PACKET,
        )
        .unwrap();
        let prebuffer_frames = (pre_buf * DEFAULT_TX_HZ as usize * DEFAULT_TX_CH as usize) / 1000;
        let required = prebuffer_frames.div_ceil(DEFAULT_SAMPLES_PER_PACKET);
        assert!(
            capacity >= required,
            "capacity={capacity} must be >= required={required} for \
             rx_buf={rx_buf} pre_buf={pre_buf} (else the prebuffer gate cannot release)"
        );
    }
}
