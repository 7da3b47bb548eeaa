use teehee::audio_io::{CapturedSampleFormat, PlayerConfig};
use teehee::capture_ring::CaptureRing;
use teehee::control::{ControlState, GainSource};
use teehee::jsonl_log::render_line;
use teehee::protocol::Packet;
use teehee::receiver::{RxSession, RxSettings};
use teehee::reports::{capture_ring_ready, recv_start, recv_stats, send_start, send_stats};
use teehee::sender::{SendOutcome, SendPlan, Transmitter};

#[test]
fn starts_are_reported() {
    let line = render_line(1, "send_start", &send_start("h:5000", 48_000, 2, 20, 1500, 200, true));
    assert_eq!(
        line.trim_end(),
        "{\"ts_ms\":1,\"event\":\"send_start\",\"target\":\"h:5000\",\"sample_rate\":48000,\
         \"channels\":2,\"chunk_ms\":20,\"mtu\":1500,\"capture_buffer_ms\":200,\"sine\":true}"
    );
    let line = render_line(1, "recv_start", &recv_start(5000, 200, 2000, false));
    assert_eq!(
        line.trim_end(),
        "{\"ts_ms\":1,\"event\":\"recv_start\",\"port\":5000,\"prebuffer_ms\":200,\
         \"rx_buffer_ms\":2000,\"mdns\":false}"
    );
    let line = render_line(1, "ready", &capture_ring_ready(200, 19_200, 9_600, 48_000, 2, "mic"));
    assert_eq!(
        line.trim_end(),
        "{\"ts_ms\":1,\"event\":\"ready\",\"capture_buffer_ms\":200,\"capacity_samples\":19200,\
         \"high_water_samples\":9600,\"sample_rate\":48000,\"channels\":2,\"source\":\"mic\"}"
    );
}

#[test]
fn senders_report_their_counters() {
    let mut tx = Transmitter::new(&SendPlan::new(1500, 20, 48_000, 2).unwrap());
    tx.datagram(&vec![0; 1_920]);
    tx.finish_send(SendOutcome::Sent, 0);
    tx.finish_send(SendOutcome::Transient, 0);
    let mut ring = CaptureRing::new(200, 48_000, 2, 1_920);
    ring.push(&vec![0; 960]);
    let mut control = ControlState::new();
    control.set_gain_with_source(0.5f32.to_bits(), GainSource::System);
    let fields = send_stats(
        &tx,
        1500,
        Some(ring.stats()),
        control,
        Some("50.000000".to_string()),
        Some("0.500000".to_string()),
    );
    let line = render_line(2, "send_stats", &fields);
    assert_eq!(
        line.trim_end(),
        "{\"ts_ms\":2,\"event\":\"send_stats\",\"packets_sent\":1,\"packets_per_sec\":50,\
         \"mtu_bytes\":1500,\"max_payload_bytes\":1447,\"fragmentations\":1,\"send_errors\":1,\
         \"capture_ring_ms\":10,\"capture_ring_high_water_ms\":10,\"capture_overruns\":0,\
         \"capture_ring_samples\":960,\"paused\":false,\"gain\":0.5,\"gain_source\":\"system\"}"
    );
    let line = render_line(2, "e", &send_stats(&tx, 1500, None, control, None, None));
    assert!(line.contains("\"capture_ring_ms\":0"));
    assert!(line.contains("\"gain\":null"));
}

#[test]
fn receivers_report_their_counters() {
    let settings = RxSettings { prebuffer_ms: 20, rx_buffer_ms: 2_000 };
    let player =
        PlayerConfig { sample_rate: 48_000, channels: 2, sample_format: CapturedSampleFormat::F32 };
    let mut rx = RxSession::new(settings, player);
    rx.receive(Packet::decode(&[]), 0);
    for seq in [0u32, 0] {
        let encoded = Packet::new(seq, 0, 48_000, 2, &[0; 480]).encode();
        rx.receive(Packet::decode(&encoded), 0);
    }
    let fields = recv_stats(
        &rx.decode_stats(),
        &rx.report().unwrap(),
        Some("-1.500000".to_string()),
        None,
    );
    let line = render_line(3, "recv_stats", &fields);
    assert_eq!(
        line.trim_end(),
        "{\"ts_ms\":3,\"event\":\"recv_stats\",\"decode_errors\":1,\"late_drops\":0,\
         \"duplicates\":1,\"silence_insertions\":0,\"prebuffer_holds\":0,\"ring_overruns\":0,\
         \"sender_restarts\":0,\"latency_trims\":0,\"underrun_resyncs\":0,\"queued_frames\":480,\
         \"queued_ms\":5,\"drift_ppm\":-1.5,\"drift_slope\":null,\"sample_rate\":48000,\
         \"channels\":2,\"format_conversion_active\":false}"
    );
}
