use teehee::audio_io::{CapturedSampleFormat, PlayerConfig};
use teehee::format_pipeline::{Blend, Mixed};
use teehee::jitter::PushOutcome;
use teehee::protocol::{Packet, ProtocolError};
use teehee::receiver::{
    queue_marks, samples_to_ms, Received, Rendered, RxSession, RxSettings, Start,
};
use teehee::sender::{SendOutcome, SendPlan, Transmitter};

const SECOND: u64 = 1_000_000_000;
const SETTINGS: RxSettings = RxSettings { prebuffer_ms: 200, rx_buffer_ms: 2_000 };

fn player(sample_rate: u32, channels: u16) -> PlayerConfig {
    PlayerConfig { sample_rate, channels, sample_format: CapturedSampleFormat::F32 }
}

fn packet(sequence: u32, rate: u32, channels: u8, samples: &[f32]) -> Packet {
    let bits: Vec<u32> = samples.iter().map(|s| s.to_bits()).collect();
    let encoded = Packet::new(sequence, 0, rate, channels, &bits).encode();
    Packet::decode(&encoded).unwrap()
}

fn blend(b: &Blend) -> f32 {
    let (a, z) = (f32::from_bits(b.left), f32::from_bits(b.right));
    a + (z - a) * (b.pos_q32 as f64 / 4_294_967_296.0) as f32
}

fn mixed(m: &Mixed<Blend>) -> f32 {
    match m {
        Mixed::Keep(b) => blend(b),
        Mixed::Silence => 0.0,
        Mixed::HalfSum(a, b) => (blend(a) + blend(b)) * 0.5,
        Mixed::Mean(all) => all.iter().map(blend).sum::<f32>() / all.len() as f32,
    }
}

fn samples(r: Rendered) -> Vec<f32> {
    match r {
        Rendered::Samples(v) => v.into_iter().map(f32::from_bits).collect(),
        Rendered::Recipes(v) => v.iter().map(mixed).collect(),
    }
}

#[test]
fn marks_leave_a_gap() {
    assert_eq!(queue_marks(SETTINGS, 48_000, 2), (19_200, 38_400));
    let short = RxSettings { prebuffer_ms: 20, rx_buffer_ms: 2_000 };
    assert_eq!(queue_marks(short, 48_000, 1), (960, 5_760));
    let tight = RxSettings { prebuffer_ms: 200, rx_buffer_ms: 200 };
    assert_eq!(queue_marks(tight, 48_000, 1), (9_600, 12_000));
    assert_eq!(samples_to_ms(19_200, 48_000, 2), 200);
}

#[test]
fn sent_audio_is_played_unchanged() {
    let plan = SendPlan::new(1500, 20, 48_000, 2).unwrap();
    let mut tx = Transmitter::new(&plan);
    let mut rx = RxSession::new(SETTINGS, player(48_000, 2));
    assert_eq!(samples(rx.render(4)), vec![0.0; 4]);
    let mut sent = Vec::new();
    for i in 0..10 {
        let chunk: Vec<f32> = (0..1_920).map(|k| (i * 1_920 + k) as f32 * 1e-5).collect();
        let bits: Vec<u32> = chunk.iter().map(|s| s.to_bits()).collect();
        let got = rx.receive(Packet::decode(&tx.datagram(&bits)), 0);
        let start = if i == 0 { Start::First } else { Start::Running };
        assert_eq!(got, Received::Taken { start, outcome: PushOutcome::Stored });
        assert!(!got.is_noteworthy());
        tx.finish_send(SendOutcome::Sent, 0);
        if i < 9 {
            assert_eq!(samples(rx.render(2)), vec![0.0; 2], "below the target");
        }
        sent.extend(chunk);
    }
    let mut played = Vec::new();
    for _ in 0..19 {
        played.extend(samples(rx.render(1_000)));
    }
    assert_eq!(played, sent[..19_000].to_vec());
    let report = rx.report().unwrap();
    assert_eq!(report.jitter.prebuffer_holds, 9);
    assert!(!report.converting);
    assert_eq!((report.rate, report.channels), (48_000, 2));
}

#[test]
fn packets_may_come_in_any_order() {
    let settings = RxSettings { prebuffer_ms: 20, rx_buffer_ms: 2_000 };
    let mut rx = RxSession::new(settings, player(1_000, 1));
    let order = [1u32, 0, 3, 2, 4];
    for seq in order {
        let value = seq as f32 + 1.0;
        rx.receive(Ok(packet(seq, 1_000, 1, &[value; 4])), 0);
    }
    let expected: Vec<f32> = (0..20).map(|i| (i / 4) as f32 + 1.0).collect();
    assert_eq!(samples(rx.render(20)), expected);
}

#[test]
fn silence_stands_in_for_lost_packets() {
    let settings = RxSettings { prebuffer_ms: 20, rx_buffer_ms: 2_000 };
    let mut rx = RxSession::new(settings, player(1_000, 1));
    for seq in [6u32, 0, 4, 2, 5] {
        rx.receive(Ok(packet(seq, 1_000, 1, &[seq as f32 + 1.0; 4])), 0);
    }
    let mut expected = Vec::new();
    for v in [1.0, 0.0, 3.0, 0.0, 5.0, 6.0, 7.0] {
        expected.extend([v; 4]);
    }
    assert_eq!(samples(rx.render(28)), expected);
    assert_eq!(rx.report().unwrap().jitter.silence_insertions, 2);
}

#[test]
fn broken_datagrams_are_counted() {
    let mut rx = RxSession::new(SETTINGS, player(48_000, 2));
    let got = rx.receive(Packet::decode(&[0u8; 3]), 0);
    assert!(matches!(got, Received::Refused(ProtocolError::TruncatedHeader { have: 3 })));
    assert!(got.is_noteworthy());
    assert_eq!(rx.decode_stats().total(), 1);
    assert!(rx.report().is_none());
    assert_eq!(samples(rx.render(3)), vec![0.0; 3]);
}

#[test]
fn bad_depths_drop_the_first_packet() {
    let settings = RxSettings { prebuffer_ms: 3_000, rx_buffer_ms: 2_000 };
    let mut rx = RxSession::new(settings, player(48_000, 2));
    let got = rx.receive(Ok(packet(0, 48_000, 2, &[0.0; 4])), 0);
    assert!(matches!(got, Received::Dropped(_)));
    assert!(rx.report().is_none());
}

#[test]
fn another_format_starts_over() {
    let mut rx = RxSession::new(SETTINGS, player(48_000, 2));
    rx.receive(Ok(packet(0, 48_000, 2, &[0.5; 480])), 0);
    let got = rx.receive(Ok(packet(1, 44_100, 1, &[0.5; 441])), 0);
    let start = Start::Changed { old_rate: 48_000, old_channels: 2, old_samples_per_packet: 480 };
    assert_eq!(got, Received::Taken { start, outcome: PushOutcome::Stored });
    let report = rx.report().unwrap();
    assert_eq!((report.rate, report.channels), (44_100, 1));
    assert_eq!((report.player_rate, report.player_channels), (48_000, 2));
    assert_eq!(report.queued_frames, 441);
    assert_eq!(report.queued_ms, 10);
    assert!(report.converting);
}

#[test]
fn requests_are_answered_in_full_after_conversion() {
    let settings = RxSettings { prebuffer_ms: 100, rx_buffer_ms: 2_000 };
    let mut rx = RxSession::new(settings, player(48_000, 2));
    for seq in 0..20u32 {
        rx.receive(Ok(packet(seq, 44_100, 1, &[0.25; 441])), 0);
    }
    for _ in 0..10 {
        let out = samples(rx.render(512));
        assert_eq!(out.len(), 512);
        assert!(out.iter().all(|s| (s - 0.25).abs() < 1e-6));
    }
    assert_eq!(samples(rx.render(7)).len(), 7);
}

#[test]
fn drift_is_known_after_the_stream_settled() {
    let mut rx = RxSession::new(SETTINGS, player(48_000, 1));
    rx.receive(Ok(packet(0, 48_000, 1, &[0.0; 960])), 0);
    assert!(rx.observe(SECOND).is_none());
    for i in 0..49u64 {
        assert!(rx.observe(3 * SECOND + i * 100_000_000).is_none());
    }
    let fit = rx.observe(8 * SECOND).unwrap();
    assert_eq!(fit.n, 50);
    assert_eq!(fit.latest, 960);
    assert_eq!(fit.target, 9_600);
    let nominal = rx.nominal_step_q32().unwrap();
    assert_eq!(nominal, 1 << 32);
    rx.correct(nominal + 1);
    assert!(rx.report().unwrap().converting);
}
