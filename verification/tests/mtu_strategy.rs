use std::sync::atomic::{AtomicU64, Ordering};
use teehee::generated::SineSource;
use teehee::mtu_budget::{compute_budget, exceeds_budget, FRAMING_OVERHEAD_BYTES};
use teehee::protocol::{Packet, HEADER_LEN};
use teehee::sender::{SendOutcome, SendPlan, Transmitter};

const CHANNELS: u8 = 2;

fn frames_per_chunk(sample_rate: u32, chunk_ms: usize) -> usize {
    sample_rate as usize * chunk_ms / 1000
}

fn samples_per_chunk(sample_rate: u32, chunk_ms: usize, channels: u8) -> usize {
    frames_per_chunk(sample_rate, chunk_ms) * channels as usize
}

/// A packet that carries a sine tone.
fn encode_sine_packet(
    sequence: u32,
    frame_timestamp: u64,
    sample_rate: u32,
    channels: u8,
    chunk_samples: usize,
    frequency_hz: f32,
) -> Vec<u8> {
    let mut sine = SineSource::new(sample_rate, channels, frequency_hz.to_bits());
    let tone = std::f64::consts::TAU * frequency_hz as f64 / sample_rate as f64;
    let samples: Vec<u32> = sine
        .fill_chunk(chunk_samples)
        .into_iter()
        .map(|n| ((tone * n as f64).sin() as f32).to_bits())
        .collect();
    Packet::new(sequence, frame_timestamp, sample_rate, channels, &samples).encode()
}


const SAMPLE_RATE_HZ: u32 = 48_000;
const STEREO_CHANNELS: u8 = 2;

#[test]
fn boundary_mtu_576_stereo_pins_math() {
    let b = compute_budget(576, 2).expect("MTU 576 stereo is valid");
    assert_eq!(b.max_payload_bytes, 523);
    assert_eq!(b.max_chunk_samples, 65);
}

#[test]
fn boundary_mtu_1280_stereo_pins_math() {
    let b = compute_budget(1280, 2).expect("MTU 1280 stereo is valid");
    assert_eq!(b.max_payload_bytes, 1227);
    assert_eq!(b.max_chunk_samples, 153);
}

#[test]
fn boundary_mtu_1500_stereo_pins_math() {
    let b = compute_budget(1500, 2).expect("MTU 1500 stereo is valid");
    assert_eq!(b.max_payload_bytes, 1447);
    assert_eq!(b.max_chunk_samples, 180);
}

#[test]
fn boundary_mtu_9000_stereo_pins_math() {
    let b = compute_budget(9000, 2).expect("MTU 9000 stereo is valid");
    assert_eq!(b.max_payload_bytes, 8947);
    assert_eq!(b.max_chunk_samples, 1118);
}

#[test]
fn exceeds_budget_decision_at_stereo_1500() {
    let b = compute_budget(1500, 2).unwrap();
    assert!(exceeds_budget(7705, &b));
    assert!(!exceeds_budget(25, &b));
    assert!(!exceeds_budget(b.max_payload_bytes, &b));
    assert!(exceeds_budget(b.max_payload_bytes + 1, &b));
}

#[test]
fn default_chunk_ms_20_stereo_payload_overshoots_all_lan_boundary_mtus() {
    let chunk_frames = frames_per_chunk(SAMPLE_RATE_HZ, 20);
    let chunk_samples = samples_per_chunk(SAMPLE_RATE_HZ, 20, STEREO_CHANNELS);
    assert_eq!(chunk_samples, 1920);
    assert_eq!(chunk_frames, 960);
    let encoded =
        encode_sine_packet(0, 0, SAMPLE_RATE_HZ, STEREO_CHANNELS, chunk_samples, 440.0);
    assert_eq!(encoded.len(), HEADER_LEN + chunk_samples * 4);
    assert_eq!(encoded.len(), 7705);

    for &mtu in &[576usize, 1280, 1500] {
        let b = compute_budget(mtu, 2).unwrap();
        assert!(
            exceeds_budget(encoded.len(), &b),
            "default chunk_ms=20 stereo packet ({} B) should exceed MTU={}",
            encoded.len(),
            mtu
        );
    }
    let jumbo = compute_budget(9000, 2).unwrap();
    assert!(
        !exceeds_budget(encoded.len(), &jumbo),
        "default chunk_ms=20 stereo packet ({} B) fits at MTU=9000 (max {})",
        encoded.len(),
        jumbo.max_payload_bytes
    );
}

#[test]
fn chunk_ms_1_stereo_fits_at_every_boundary_mtu() {
    let chunk_samples = samples_per_chunk(SAMPLE_RATE_HZ, 1, STEREO_CHANNELS);
    let encoded =
        encode_sine_packet(0, 0, SAMPLE_RATE_HZ, STEREO_CHANNELS, chunk_samples, 440.0);
    assert_eq!(encoded.len(), 409);

    for &mtu in &[576usize, 1280, 1500, 9000] {
        let b = compute_budget(mtu, 2).expect("valid MTU");
        assert!(
            encoded.len() <= b.max_payload_bytes,
            "chunk_ms=1 at MTU={}: encoded {} B > max_payload {} B",
            mtu,
            encoded.len(),
            b.max_payload_bytes
        );
    }
}

#[test]
fn sender_loop_fragmentation_counter_increments_on_overshoot() {
    let fragmentations = AtomicU64::new(0);
    let budget = compute_budget(1500, 2).unwrap();

    let chunk_frames = frames_per_chunk(SAMPLE_RATE_HZ, 20);
    let chunk_samples = samples_per_chunk(SAMPLE_RATE_HZ, 20, STEREO_CHANNELS);
    const PACKET_COUNT: u32 = 100;
    for seq in 0..PACKET_COUNT {
        let encoded = encode_sine_packet(
            seq,
            (seq as u64) * chunk_frames as u64,
            SAMPLE_RATE_HZ,
            STEREO_CHANNELS,
            chunk_samples,
            440.0,
        );
        if encoded.len() > budget.max_payload_bytes {
            fragmentations.fetch_add(1, Ordering::Relaxed);
        }
    }
    assert_eq!(
        fragmentations.load(Ordering::Relaxed),
        PACKET_COUNT as u64,
        "every encoded packet at chunk_ms=20 stereo must overshoot MTU=1500"
    );
}

#[test]
fn sender_loop_fragmentation_counter_zero_when_packets_fit() {
    let fragmentations = AtomicU64::new(0);
    for &mtu in &[576usize, 1280, 1500, 9000] {
        let budget = compute_budget(mtu, 2).unwrap();
        let chunk_samples = samples_per_chunk(SAMPLE_RATE_HZ, 1, STEREO_CHANNELS);
        for seq in 0..10u32 {
            let encoded = encode_sine_packet(
                seq,
                seq as u64 * chunk_samples as u64 / STEREO_CHANNELS as u64,
                SAMPLE_RATE_HZ,
                STEREO_CHANNELS,
                chunk_samples,
                440.0,
            );
            if encoded.len() > budget.max_payload_bytes {
                fragmentations.fetch_add(1, Ordering::Relaxed);
            }
        }
    }
    assert_eq!(
        fragmentations.load(Ordering::Relaxed),
        0,
        "chunk_ms=1 stereo never fragments at any boundary MTU"
    );
}

#[test]
fn compute_budget_error_for_too_small_mtu() {
    let err = compute_budget(575, 2).unwrap_err();
    let msg = err.message();
    assert!(msg.contains("575"));
    assert!(msg.contains("576"));
}

#[test]
fn compute_budget_error_for_zero_channels() {
    let err = compute_budget(1500, 0).unwrap_err();
    let msg = err.message();
    assert!(msg.contains("channels"));
    assert!(msg.contains("1500"));
}

const MAX_CHUNK_MS: usize = 50;

fn chunk_samples_and_wire_size(chunk_ms: usize) -> (usize, usize) {
    let chunk_frames = SAMPLE_RATE_HZ as usize * chunk_ms / 1000;
    let chunk_samples = chunk_frames * CHANNELS as usize;
    let wire_size = HEADER_LEN + chunk_samples * 4;
    (chunk_samples, wire_size)
}

#[test]
fn mtu_boundary_sweep_at_default_stereo() {
    println!(
        "\nMTU boundary sweep at {} Hz × {} ch × f32 (default sender config):",
        SAMPLE_RATE_HZ, CHANNELS
    );
    println!(
        "  FRAMING_OVERHEAD = IP(20) + UDP(8) + teehee({}) = {} bytes",
        HEADER_LEN, FRAMING_OVERHEAD_BYTES
    );
    println!();
    println!("  chunk_ms | wire_size | raw<1500 | framed≤1500 | safe-payload ≤1400");
    println!("  ---------+-----------+----------+-------------+-------------------");

    let mut first_over_raw: Option<usize> = None;
    let mut first_over_framed_1500: Option<usize> = None;
    let mut first_over_safe_1400: Option<usize> = None;

    for chunk_ms in 1..=MAX_CHUNK_MS {
        let (chunk_samples, expected_size) = chunk_samples_and_wire_size(chunk_ms);

        let wire_size =
            encode_sine_packet(0, 0, SAMPLE_RATE_HZ, CHANNELS, chunk_samples, 440.0).len();

        assert_eq!(
            wire_size, expected_size,
            "encoded {wire_size} != computed {expected_size} at chunk_ms={chunk_ms} \
             (wire-format or chunk-arithmetic drift?)"
        );

        let raw_ok = wire_size < 1500;
        let framed_total = wire_size + FRAMING_OVERHEAD_BYTES;
        let framed_ok = framed_total <= 1500;
        let safe_ok = framed_total <= 1400;

        if !raw_ok && first_over_raw.is_none() {
            first_over_raw = Some(chunk_ms);
        }
        if !framed_ok && first_over_framed_1500.is_none() {
            first_over_framed_1500 = Some(chunk_ms);
        }
        if !safe_ok && first_over_safe_1400.is_none() {
            first_over_safe_1400 = Some(chunk_ms);
        }

        println!(
            "  {:>8} | {:>9} | {:>8} | {:>11} | {:>17}",
            chunk_ms,
            wire_size,
            if raw_ok { "yes" } else { "**no**" },
            if framed_ok { "yes" } else { "**no**" },
            if safe_ok { "yes" } else { "**no**" }
        );
    }

    println!();
    println!(
        "Boundary crossings (first `chunk_ms` that fails each threshold) at \
         {} Hz × {} ch × f32:",
        SAMPLE_RATE_HZ, CHANNELS
    );
    println!(
        "  raw<1500:                       first failing chunk_ms = {:?}",
        first_over_raw
    );
    println!(
        "  framed: size+{}≤1500 (exact):   first failing chunk_ms = {:?}",
        FRAMING_OVERHEAD_BYTES, first_over_framed_1500
    );
    println!(
        "  framed: size+{}≤1400 (safe):    first failing chunk_ms = {:?}",
        FRAMING_OVERHEAD_BYTES, first_over_safe_1400
    );

    let default_chunk_ms_size = chunk_samples_and_wire_size(20).1;
    let default_framed = default_chunk_ms_size + FRAMING_OVERHEAD_BYTES;
    println!(
        "\nv1 default chunk_ms=20 → {} B raw / {} B framed (with IP+UDP+teehee)",
        default_chunk_ms_size, default_framed
    );

    assert_eq!(
        first_over_raw,
        Some(4),
        "raw MTU boundary should be at chunk_ms=4 \
         (chunk_ms=3 → 1177 B fits; chunk_ms=4 → 1561 B fails)"
    );
    assert_eq!(
        first_over_framed_1500,
        Some(4),
        "framed-MTU ceiling should also cross at chunk_ms=4 \
         (chunk_ms=3 → 1177+53=1230 B fits ≤1500; \
         chunk_ms=4 → 1561+53=1614 B fails)"
    );
    assert_eq!(
        first_over_safe_1400,
        Some(4),
        "safe-payload ceiling should also cross at chunk_ms=4 \
         (chunk_ms=3 → 1177+53=1230 B ≤1400; \
         chunk_ms=4 → 1561+53=1614 B >1400)"
    );
}

#[test]
fn transmitter_counts_packets_larger_than_the_envelope() {
    let plan = SendPlan::new(576, 170, SAMPLE_RATE_HZ, STEREO_CHANNELS).unwrap();
    assert_eq!(plan.chunk_samples, 16_320);
    assert_eq!(plan.payload_bytes, 65_305);
    let mut tx = Transmitter::new(&plan);
    for _ in 0..30 {
        let bytes = tx.datagram(&vec![0u32; plan.chunk_samples]);
        assert_eq!(bytes.len(), plan.payload_bytes);
        tx.finish_send(SendOutcome::Sent, 0);
    }
    assert_eq!(tx.fragmentations, 30);
    assert_eq!(tx.packets_sent, 30);
}
