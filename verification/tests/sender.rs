use teehee::capture_ring::CaptureRing;
use teehee::mtu_budget::MtuError;
use teehee::protocol::Packet;
use teehee::sender::{
    hold_while_paused, next_chunk, Pacer, SendOutcome, SendPlan, SendStep, Transmitter,
};

const MS: u64 = 1_000_000;
const IP_UDP_BYTES: usize = 28;

#[test]
fn plan_measures_a_chunk() {
    let plan = SendPlan::new(1500, 20, 48_000, 2).unwrap();
    assert_eq!(plan.chunk_frames, 960);
    assert_eq!(plan.chunk_samples, 1_920);
    assert_eq!(plan.payload_bytes, 7_705);
    assert_eq!(plan.budget.max_payload_bytes, 1_447);
    assert!(!plan.fits_in_mtu());
    assert_eq!(plan.max_fitting_chunk_ms(), 1);
    assert!(SendPlan::new(1500, 3, 48_000, 2).unwrap().fits_in_mtu());
    assert!(plan.check_size().is_ok());
}

#[test]
fn advised_chunk_is_sent_whole() {
    for (mtu, rate, channels) in [(1500, 48_000, 2u8), (9000, 44_100, 6), (1280, 16_000, 1)] {
        let wide = SendPlan::new(mtu, 200, rate, channels).unwrap();
        let advised = wide.max_fitting_chunk_ms();
        assert!(advised > 0);
        let plan = SendPlan::new(mtu, advised, rate, channels).unwrap();
        assert!(plan.payload_bytes + IP_UDP_BYTES <= mtu);
    }
}

#[test]
fn plan_refuses_a_bad_link() {
    assert!(matches!(SendPlan::new(575, 20, 48_000, 2), Err(MtuError::TooSmall { .. })));
    assert!(matches!(SendPlan::new(1500, 20, 48_000, 0), Err(MtuError::NoFrameFits { .. })));
}

#[test]
fn plan_refuses_a_chunk_that_no_packet_holds() {
    let e = SendPlan::new(1500, 200, 48_000, 2).unwrap().check_size().unwrap_err();
    assert_eq!(e.max_ms, 170);
    assert_eq!(
        e.message(),
        "--chunk-ms 200 at 48000 Hz × 2 ch produces 76825 bytes per packet, exceeding the protocol \
         limit of 65560 bytes. Lower --chunk-ms to 170 or fewer."
    );
    assert!(SendPlan::new(1500, 170, 48_000, 2).unwrap().check_size().is_ok());
}

#[test]
fn pacer_sleeps_until_the_packet_is_due() {
    let mut p = Pacer::new(1_000);
    assert_eq!(p.tick(1_000, 20 * MS), 20 * MS);
    assert_eq!(p.tick(1_000 + 30 * MS, 20 * MS), 10 * MS);
    assert_eq!(p.tick(1_000 + 75 * MS, 20 * MS), 0);
    assert_eq!(p.next_tick_ns, 1_000 + 60 * MS);
}

#[test]
fn pacer_makes_up_for_no_more_than_the_bound() {
    let mut p = Pacer::new(0);
    assert_eq!(p.tick(1_000 * MS, 20 * MS), 0);
    assert_eq!(p.next_tick_ns, 800 * MS);
    let mut burst = 0;
    while p.tick(1_000 * MS, 20 * MS) == 0 {
        burst += 1;
    }
    assert_eq!(burst, 10);
    p.reset(5_000 * MS);
    assert_eq!(p.tick(5_000 * MS, 20 * MS), 20 * MS);
}

#[test]
fn chunks_come_from_the_ring_or_are_silent() {
    let mut none = None;
    assert_eq!(next_chunk(&mut none, 3), vec![0, 0, 0]);
    let mut ring = Some(CaptureRing::new(200, 48_000, 1, 2));
    ring.as_mut().unwrap().push(&[7, 8, 9]);
    assert_eq!(next_chunk(&mut ring, 2), vec![7, 8]);
    assert_eq!(next_chunk(&mut ring, 2), vec![0, 0]);
    assert_eq!(ring.as_ref().unwrap().len(), 1);
}

#[test]
fn nothing_old_is_sent_after_a_pause() {
    let mut ring = Some(CaptureRing::new(200, 48_000, 1, 2));
    ring.as_mut().unwrap().push(&[7, 8, 9]);
    let mut pacer = Pacer::new(0);
    hold_while_paused(&mut ring, &mut pacer, 900 * MS);
    assert!(ring.as_ref().unwrap().is_empty());
    assert_eq!(pacer.tick(900 * MS, 20 * MS), 20 * MS);
}

#[test]
fn packets_follow_on() {
    let plan = SendPlan::new(1500, 1, 48_000, 2).unwrap();
    let mut tx = Transmitter::new(&plan);
    let samples = vec![0.5f32.to_bits(); plan.chunk_samples];
    for i in 0..3u32 {
        let p = Packet::decode(&tx.datagram(&samples)).unwrap();
        assert_eq!(p.sequence, i);
        assert_eq!(p.frame_timestamp, i as u64 * 48);
        assert_eq!(p.sample_rate, 48_000);
        assert_eq!(p.channels, 2);
        assert_eq!(p.pcm_f32(), samples);
        assert_eq!(tx.finish_send(SendOutcome::Sent, 0), SendStep::Continue { log: false });
    }
    assert_eq!(tx.packets_sent, 3);
    assert_eq!(tx.fragmentations, 0);
    tx.seq = u32::MAX;
    tx.finish_send(SendOutcome::Sent, 0);
    assert_eq!(tx.seq, 0);
}

#[test]
fn send_errors_are_logged_once_a_second() {
    let mut tx = Transmitter::new(&SendPlan::new(1500, 1, 48_000, 2).unwrap());
    assert_eq!(tx.finish_send(SendOutcome::Transient, 5), SendStep::Continue { log: true });
    assert_eq!(tx.finish_send(SendOutcome::Transient, 999 * MS), SendStep::Continue { log: false });
    let late = 5 + 1_000 * MS;
    assert_eq!(tx.finish_send(SendOutcome::Transient, late), SendStep::Continue { log: true });
    assert_eq!(tx.send_errors, 3);
    assert_eq!(tx.packets_sent, 0);
    assert_eq!(tx.seq, 3);
    assert_eq!(tx.finish_send(SendOutcome::Fatal, late), SendStep::Stop);
    assert_eq!(tx.seq, 3);
}

#[test]
fn a_run_of_packets_is_numbered_and_counted() {
    let plan = SendPlan::new(576, 1, 48_000, 2).unwrap();
    let mut tx = Transmitter::new(&plan);
    tx.seq = u32::MAX - 1;
    let sizes = [96usize, 96, 200, 96, 200];
    for (k, n) in sizes.into_iter().enumerate() {
        let p = Packet::decode(&tx.datagram(&vec![0; n])).unwrap();
        assert_eq!(p.sequence, (u32::MAX - 1).wrapping_add(k as u32));
        assert_eq!(p.frame_timestamp, p.sequence as u64 * 48);
        let outcome = if k == 1 { SendOutcome::Transient } else { SendOutcome::Sent };
        assert!(matches!(tx.finish_send(outcome, 0), SendStep::Continue { .. }));
    }
    assert_eq!(tx.fragmentations, 2);
    assert_eq!((tx.packets_sent, tx.send_errors), (4, 1));
}

#[test]
fn a_plan_without_a_rate_has_empty_packets() {
    let plan = SendPlan::new(1500, 200, 0, 2).unwrap();
    assert_eq!(plan.chunk_samples, 0);
    assert!(plan.check_size().is_ok());
}
