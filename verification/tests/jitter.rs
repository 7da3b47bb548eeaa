use teehee::jitter::{modular_is_earlier_or_equal, PushOutcome, Stats};

/// A reorder buffer of float samples.
struct JitterBuffer {
    inner: teehee::jitter::JitterBuffer,
}

impl JitterBuffer {
    fn new(samples_per_packet: usize, capacity: usize, target: Option<usize>) -> Self {
        Self {
            inner: teehee::jitter::JitterBuffer::new(samples_per_packet, capacity, target),
        }
    }

    fn with_high_water(
        samples_per_packet: usize,
        capacity: usize,
        target: Option<usize>,
        high_water: Option<usize>,
    ) -> Self {
        Self {
            inner: teehee::jitter::JitterBuffer::with_high_water(
                samples_per_packet,
                capacity,
                target,
                high_water,
            ),
        }
    }

    fn push(&mut self, seq: u32, samples: &[f32]) -> PushOutcome {
        let bits: Vec<u32> = samples.iter().map(|s| s.to_bits()).collect();
        self.inner.push(seq, &bits)
    }

    fn pop_frames(&mut self, out: &mut [f32]) -> usize {
        let mut bits = vec![u32::MAX; out.len()];
        let n = self.inner.pop_frames(&mut bits);
        for (o, b) in out.iter_mut().zip(bits) {
            *o = f32::from_bits(b);
        }
        n
    }

    fn queued_frames(&self) -> usize {
        self.inner.queued_frames()
    }

    fn stats(&self) -> Stats {
        self.inner.stats()
    }
}

#[test]
fn modular_compare_basic() {
    assert!(modular_is_earlier_or_equal(0, 0));
    assert!(modular_is_earlier_or_equal(0, 1));
    assert!(!modular_is_earlier_or_equal(1, 0));
    assert!(modular_is_earlier_or_equal(u32::MAX - 1, u32::MAX));
    assert!(modular_is_earlier_or_equal(u32::MAX, 0));
    assert!(modular_is_earlier_or_equal(u32::MAX - 1, 0));
    assert!(!modular_is_earlier_or_equal(0, u32::MAX - 1));
}

fn small_buffer() -> JitterBuffer {
    JitterBuffer::new(4, 4, None)
}

fn gated_buffer(prebuffer_target_frames: usize) -> JitterBuffer {
    JitterBuffer::new(4, 4, Some(prebuffer_target_frames))
}

fn tag_packet(buf: &mut JitterBuffer, seq: u32) {
    let mut samples = vec![seq as f32; 4];
    for s in samples.iter_mut() {
        *s += 0.001;
    }
    assert_eq!(
        buf.push(seq, &samples),
        PushOutcome::Stored,
        "expected Stored for fresh seq {seq}"
    );
}

#[test]
fn partial_request_in_prebuffer_emits_silence_without_advancing() {
    let mut buf = small_buffer();
    let mut out = [99.0_f32; 2];
    let n = buf.pop_frames(&mut out);
    assert_eq!(n, 2);
    assert_eq!(out, [0.0, 0.0], "prebuffer must silence-fill");
    assert_eq!(buf.stats().silence_insertions, 0, "no packet-silence yet");
    assert_eq!(buf.queued_frames(), 0, "still in prebuffer");
}

#[test]
fn three_partial_pops_do_not_yet_cross_silence_boundary() {
    let mut buf = small_buffer();
    tag_packet(&mut buf, 0);

    let mut a = [99.0_f32; 2];
    buf.pop_frames(&mut a);
    let mut b = [99.0_f32; 2];
    buf.pop_frames(&mut b);
    let mut c = [99.0_f32; 2];
    buf.pop_frames(&mut c);

    assert_eq!(a, [0.001, 0.001]);
    assert_eq!(b, [0.001, 0.001]);
    assert_eq!(c, [0.0, 0.0], "silence for slot[1] mid-read");
    assert_eq!(
        buf.stats().silence_insertions,
        0,
        "boundary not yet crossed after 3 partial pops"
    );
}

#[test]
fn partial_reads_from_single_packet_then_underrun_freeze() {
    let mut buf = small_buffer();
    tag_packet(&mut buf, 0);

    let mut a = [99.0_f32; 2];
    buf.pop_frames(&mut a);
    assert_eq!(a, [0.001, 0.001]);

    let mut b = [99.0_f32; 2];
    buf.pop_frames(&mut b);
    assert_eq!(b, [0.001, 0.001]);

    let mut c = [99.0_f32; 2];
    buf.pop_frames(&mut c);
    assert_eq!(c, [0.0, 0.0], "underrun freeze silence-fills");
    assert_eq!(
        buf.stats().underrun_resyncs,
        1,
        "one underrun resync recorded"
    );
    assert_eq!(
        buf.stats().silence_insertions,
        0,
        "no silence_insertions — we froze, not advanced"
    );

    let mut d = [99.0_f32; 2];
    buf.pop_frames(&mut d);
    assert_eq!(d, [0.0, 0.0], "prebuffer silence after freeze");
}

#[test]
fn partial_read_crosses_packet_boundary_cleanly() {
    let mut buf = small_buffer();
    tag_packet(&mut buf, 0);
    tag_packet(&mut buf, 1);

    let mut out = [99.0_f32; 6];
    buf.pop_frames(&mut out);
    assert_eq!(out.len(), 6);
    assert_eq!(&out[..4], &[0.001, 0.001, 0.001, 0.001][..]);
    assert_eq!(&out[4..6], &[1.001, 1.001][..]);
    assert_eq!(
        buf.stats().silence_insertions,
        0,
        "no missing packets in this scenario"
    );
}

#[test]
fn partial_reads_count_silence_once_per_missing_packet() {
    let mut buf = small_buffer();
    tag_packet(&mut buf, 0);
    tag_packet(&mut buf, 2);

    let mut a = [99.0_f32; 2];
    buf.pop_frames(&mut a);
    let mut b = [99.0_f32; 2];
    buf.pop_frames(&mut b);
    let mut c = [99.0_f32; 2];
    buf.pop_frames(&mut c);
    let mut d = [99.0_f32; 2];
    buf.pop_frames(&mut d);

    assert_eq!(c, [0.0, 0.0]);
    assert_eq!(d, [0.0, 0.0]);
    assert_eq!(
        buf.stats().silence_insertions,
        1,
        "exactly one missing-packet silence event counted"
    );

    let mut e = [99.0_f32; 4];
    buf.pop_frames(&mut e);
    assert_eq!(e, [2.001, 2.001, 2.001, 2.001]);
    assert_eq!(
        buf.stats().silence_insertions,
        1,
        "still one — no new missing packet"
    );
}

#[test]
fn mid_read_slot_collision_short_circuits_to_mid_read_outcome() {
    let mut buf = JitterBuffer::new(4, 4, None);
    tag_packet(&mut buf, 0);

    let mut a = [0.0_f32; 2];
    buf.pop_frames(&mut a);
    assert_eq!(buf.stats().silence_insertions, 0);

    let mut collision_packet = vec![99.0_f32; 4];
    for s in collision_packet.iter_mut() {
        *s = 42.0;
    }
    let outcome = buf.push(4, &collision_packet);
    assert_eq!(
        outcome,
        PushOutcome::MidReadCollision,
        "mid-read slot collision must be refused"
    );
    assert_eq!(
        buf.stats().mid_read_collisions,
        1,
        "mid_read_collisions counter must increment"
    );

    let mut b = [0.0_f32; 2];
    buf.pop_frames(&mut b);
    assert_eq!(b, [0.001, 0.001], "active slot data must survive");
}

#[test]
fn mid_read_collision_does_not_fire_when_head_offset_is_zero() {
    let mut buf = JitterBuffer::new(4, 4, None);
    tag_packet(&mut buf, 0);
    let mut out = [0.0_f32; 4];
    buf.pop_frames(&mut out);
    assert_eq!(
        buf.stats().silence_insertions,
        0,
        "seq=0 was present, not silence"
    );

    let mut tag = [42.0_f32; 4];
    for s in tag.iter_mut() {
        *s = 4.0 + 0.001;
    }
    let outcome = buf.push(4, &tag);
    assert_eq!(
        outcome,
        PushOutcome::Stored,
        "head_offset=0 means no mid-read; clean store"
    );
    assert_eq!(buf.stats().mid_read_collisions, 0);
}

#[test]
fn queued_frames_tracks_buffered_samples_including_head_offset() {
    let mut buf = small_buffer();
    tag_packet(&mut buf, 0);
    tag_packet(&mut buf, 1);
    tag_packet(&mut buf, 2);
    assert_eq!(buf.queued_frames(), 12, "3 full packets = 12 frames");

    let mut a = [0.0_f32; 5];
    buf.pop_frames(&mut a);
    assert_eq!(
        buf.queued_frames(),
        7,
        "head_offset=1 on seq=1 leaves 3 frames in slot 1; slot 2 still full"
    );
}

#[test]
fn queued_frames_in_prebuffer_counts_all_filled_slots() {
    let mut buf = small_buffer();
    assert_eq!(buf.queued_frames(), 0, "no packets yet");
    tag_packet(&mut buf, 0);
    assert_eq!(buf.queued_frames(), 4);
    tag_packet(&mut buf, 1);
    assert_eq!(buf.queued_frames(), 8);
    tag_packet(&mut buf, 2);
    assert_eq!(buf.queued_frames(), 12, "3 full packets, no head anchor");
}

#[test]
fn prebuffer_gate_holds_silence_until_target_met() {
    let mut buf = gated_buffer(8);
    tag_packet(&mut buf, 0);
    assert_eq!(buf.queued_frames(), 4, "1 packet = 4 frames");

    let mut out = [99.0_f32; 4];
    let n = buf.pop_frames(&mut out);
    assert_eq!(n, 4);
    assert_eq!(out, [0.0, 0.0, 0.0, 0.0], "gate holds silence");
    assert_eq!(
        buf.stats().prebuffer_holds,
        1,
        "one pop_frames call hit the prebuffer gate"
    );
    assert_eq!(buf.stats().silence_insertions, 0, "no packet-silence yet");
    assert_eq!(buf.queued_frames(), 4, "gate held; no anchor");
}

#[test]
fn prebuffer_gate_releases_when_queued_crosses_target() {
    let mut buf = gated_buffer(8);
    tag_packet(&mut buf, 0);
    tag_packet(&mut buf, 1);
    assert_eq!(buf.queued_frames(), 8, "2 packets = 8 frames = target");

    let mut out = [99.0_f32; 4];
    let n = buf.pop_frames(&mut out);
    assert_eq!(n, 4);
    assert_eq!(
        out,
        [0.001, 0.001, 0.001, 0.001],
        "gate released; seq=0 plays"
    );
    assert_eq!(
        buf.stats().prebuffer_holds,
        0,
        "gate did not fire on the call that crossed the target"
    );
    assert_eq!(buf.stats().silence_insertions, 0);
}

#[test]
fn prebuffer_gate_does_not_reengage_after_playback_starts() {
    let mut buf = gated_buffer(8);
    tag_packet(&mut buf, 0);
    tag_packet(&mut buf, 1);

    let mut first = [99.0_f32; 4];
    buf.pop_frames(&mut first);
    assert_eq!(first, [0.001, 0.001, 0.001, 0.001]);
    assert_eq!(buf.queued_frames(), 4, "fill is now below target");

    let mut second = [99.0_f32; 4];
    buf.pop_frames(&mut second);
    assert_eq!(
        second,
        [1.001, 1.001, 1.001, 1.001],
        "an anchored stream must keep playing below the startup target"
    );
    assert_eq!(buf.stats().prebuffer_holds, 0);
}

#[test]
fn prebuffer_gate_holds_with_partial_fill_then_releases() {
    let mut buf = gated_buffer(8);

    tag_packet(&mut buf, 0);
    {
        let mut out = [99.0_f32; 4];
        buf.pop_frames(&mut out);
        assert_eq!(out, [0.0, 0.0, 0.0, 0.0], "first pop held by gate");
        assert_eq!(buf.stats().prebuffer_holds, 1);
    }

    tag_packet(&mut buf, 1);
    {
        let mut out = [99.0_f32; 4];
        buf.pop_frames(&mut out);
        assert_eq!(
            out,
            [0.001, 0.001, 0.001, 0.001],
            "second pop releases; seq=0 plays"
        );
        assert_eq!(
            buf.stats().prebuffer_holds,
            1,
            "still 1 — this pop DID NOT hit the prebuffer gate"
        );
    }
}

#[test]
fn jitter_ring_overruns_default_is_zero() {
    let buf = small_buffer();
    assert_eq!(buf.stats().ring_overruns, 0);
}

#[test]
fn ring_overruns_does_not_fire_on_a_clean_store_in_empty_slot() {
    let mut buf = small_buffer();
    tag_packet(&mut buf, 0);
    assert_eq!(buf.stats().ring_overruns, 0);
}

#[test]
fn ring_overruns_does_not_fire_on_duplicate_of_same_seq() {
    let mut buf = small_buffer();
    tag_packet(&mut buf, 0);
    assert_eq!(
        buf.push(0, &[99.0_f32; 4]),
        PushOutcome::Duplicate,
        "duplicate must NOT be classified as overrun"
    );
    assert_eq!(buf.stats().ring_overruns, 0);
}

#[test]
fn ring_overruns_does_not_fire_on_late_packet_in_prebuffer() {
    let mut buf = small_buffer();
    for s in 0..16u32 {
        tag_packet(&mut buf, s);
    }
    assert_eq!(buf.stats().ring_overruns, 0);
}

#[test]
fn ring_overruns_increments_when_overwriting_unplayed_future_slot() {
    let mut buf = small_buffer();
    for s in 0..4u32 {
        tag_packet(&mut buf, s);
    }
    let mut out = [0.0_f32; 4];
    buf.pop_frames(&mut out);
    assert_eq!(
        buf.stats().ring_overruns,
        0,
        "first push after anchor cannot yet overrun"
    );
    let mut s4 = [4.0_f32; 4];
    s4[0] += 0.001;
    assert_eq!(buf.push(4, &s4), PushOutcome::Stored);
    assert_eq!(
        buf.stats().ring_overruns,
        0,
        "store into cleared slot is not an overrun"
    );
    let mut s5 = [5.0_f32; 4];
    s5[0] += 0.001;
    let outcome = buf.push(5, &s5);
    assert_eq!(
        outcome,
        PushOutcome::Stored,
        "overwriting future slot is Stored"
    );
    assert_eq!(
        buf.stats().ring_overruns,
        1,
        "overwriting unplayed future slot must increment ring_overruns"
    );
}

#[test]
fn ring_overruns_does_not_fire_on_mid_read_collision() {
    let mut buf = JitterBuffer::new(4, 4, None);
    tag_packet(&mut buf, 0);
    let mut a = [0.0_f32; 2];
    buf.pop_frames(&mut a);
    let collision_packet = vec![42.0_f32; 4];
    let outcome = buf.push(4, &collision_packet);
    assert_eq!(outcome, PushOutcome::MidReadCollision);
    assert_eq!(
        buf.stats().ring_overruns,
        0,
        "refused push must not count as overrun"
    );
}

#[test]
fn latency_trim_skips_packets_when_over_high_water() {
    let mut buf = JitterBuffer::with_high_water(4, 8, Some(8), Some(16));
    for s in 0..6u32 {
        tag_packet(&mut buf, s);
    }
    assert_eq!(buf.queued_frames(), 24);
    let mut out = [0.0_f32; 4];
    buf.pop_frames(&mut out);
    assert!(
        buf.stats().latency_trims > 0,
        "expected latency trims when fill > high-water"
    );
    assert!(
        buf.queued_frames() <= 16,
        "fill should be at or under high-water after trim; got {}",
        buf.queued_frames()
    );
}

#[test]
fn sender_restart_after_underrun_freeze_is_accepted() {
    let mut buf = JitterBuffer::new(4, 4, None);
    for s in 100..104u32 {
        tag_packet(&mut buf, s);
    }
    let mut out = [0.0_f32; 20];
    buf.pop_frames(&mut out);
    assert_eq!(
        &out[..16],
        &[
            100.001, 100.001, 100.001, 100.001,
            101.001, 101.001, 101.001, 101.001,
            102.001, 102.001, 102.001, 102.001,
            103.001, 103.001, 103.001, 103.001,
        ],
        "4 packets play, then underrun silence"
    );
    assert_eq!(&out[16..20], &[0.0, 0.0, 0.0, 0.0], "underrun silence");
    assert_eq!(
        buf.stats().underrun_resyncs,
        1,
        "underrun freeze at head=104"
    );

    let restart_samples = vec![0.0_f32; 4];
    let result = buf.push(0, &restart_samples);
    assert_eq!(
        result,
        PushOutcome::Stored,
        "sender restart after freeze must be accepted"
    );
    assert_eq!(
        buf.stats().sender_restarts,
        1,
        "sender_restarts must increment"
    );
    let mut pop_out = [0.0_f32; 4];
    buf.pop_frames(&mut pop_out);
    assert_eq!(pop_out, [0.0, 0.0, 0.0, 0.0], "restart packet plays");
}

#[test]
fn seq_equals_head_with_zero_offset_stores_not_late() {
    let mut buf = small_buffer();
    tag_packet(&mut buf, 0);
    let mut out = [0.0_f32; 4];
    buf.pop_frames(&mut out);
    assert_eq!(out, [0.001, 0.001, 0.001, 0.001]);
    let samples = vec![9.9_f32; 4];
    let result = buf.push(1, &samples);
    assert_eq!(result, PushOutcome::Stored, "seq==head, offset=0 → Stored");
    let mut pop_out = [0.0_f32; 4];
    buf.pop_frames(&mut pop_out);
    assert_eq!(pop_out, [9.9, 9.9, 9.9, 9.9], "stored packet must play");
}

#[test]
fn idle_gap_resume_with_zero_packet_loss() {
    let mut buf = small_buffer();
    for s in 0..4u32 {
        tag_packet(&mut buf, s);
    }
    let mut out = [0.0_f32; 12];
    buf.pop_frames(&mut out);
    assert_eq!(&out[..4], &[0.001, 0.001, 0.001, 0.001], "seq 0 plays");
    assert_eq!(&out[4..8], &[1.001, 1.001, 1.001, 1.001], "seq 1 plays");
    assert_eq!(&out[8..12], &[2.001, 2.001, 2.001, 2.001], "seq 2 plays");

    let mut out2 = [0.0_f32; 8];
    buf.pop_frames(&mut out2);
    assert_eq!(&out2[..4], &[3.001, 3.001, 3.001, 3.001], "seq 3 plays");
    assert_eq!(buf.stats().underrun_resyncs, 1, "underrun freeze");

    for s in 4..8u32 {
        tag_packet(&mut buf, s);
    }
    let mut out3 = [0.0_f32; 4];
    buf.pop_frames(&mut out3);
    assert_eq!(
        out3,
        [4.001, 4.001, 4.001, 4.001],
        "resume must play from the re-anchor point"
    );
    assert_eq!(buf.stats().late_drops, 0, "zero packet loss on resume");
}

#[test]
fn jitter_ring_overruns_independent_of_mid_read_collisions() {
    let mut buf = small_buffer();
    for s in 0..4u32 {
        tag_packet(&mut buf, s);
    }
    let mut out = [0.0_f32; 4];
    buf.pop_frames(&mut out);
    let mut s4 = [4.0_f32; 4];
    s4[0] += 0.001;
    buf.push(4, &s4);
    assert_eq!(buf.stats().ring_overruns, 0);
    let mut s5 = [5.0_f32; 4];
    s5[0] += 0.001;
    buf.push(5, &s5);
    assert_eq!(
        buf.stats().ring_overruns,
        1,
        "slot.seq == head race window counts as overrun"
    );
    let mut s6 = [6.0_f32; 4];
    s6[0] += 0.001;
    buf.push(6, &s6);
    assert_eq!(
        buf.stats().ring_overruns,
        2,
        "strict future within capacity also counts"
    );
    assert_eq!(buf.stats().mid_read_collisions, 0);
}

const SAMPLES_PER_PACKET: usize = 4;
const CAPACITY_PACKETS: usize = 8;

fn buffer() -> JitterBuffer {
    JitterBuffer::new(SAMPLES_PER_PACKET, CAPACITY_PACKETS, None)
}

fn quiet() -> [f32; SAMPLES_PER_PACKET] {
    [0.0; SAMPLES_PER_PACKET]
}

#[test]
fn push_then_pop_yields_pushed_samples() {
    let mut jb = buffer();
    assert_eq!(jb.push(0, &[1.0, 2.0, 3.0, 4.0]), PushOutcome::Stored);

    let mut out = quiet();
    let n = jb.pop_frames(&mut out);
    assert_eq!(n, SAMPLES_PER_PACKET);
    assert_eq!(out, [1.0, 2.0, 3.0, 4.0]);
}

#[test]
fn pop_before_any_push_yields_zero_silence() {
    let mut jb = buffer();
    let mut out = [99.0_f32; SAMPLES_PER_PACKET];
    let n = jb.pop_frames(&mut out);
    assert_eq!(n, SAMPLES_PER_PACKET);
    assert_eq!(out, quiet());
}

#[test]
fn missing_packets_play_silence_and_advance() {
    let mut jb = buffer();
    jb.push(0, &[1.0, 2.0, 3.0, 4.0]);
    jb.push(2, &[9.0, 10.0, 11.0, 12.0]);

    let mut out = [0.0_f32; SAMPLES_PER_PACKET * 3];
    let n = jb.pop_frames(&mut out);
    assert_eq!(n, SAMPLES_PER_PACKET * 3);
    assert_eq!(&out[0..4], &[1.0, 2.0, 3.0, 4.0]);
    assert_eq!(&out[4..8], &[0.0, 0.0, 0.0, 0.0]);
    assert_eq!(&out[8..12], &[9.0, 10.0, 11.0, 12.0]);

    assert_eq!(jb.stats().silence_insertions, 1);
}

#[test]
fn out_of_order_packets_are_played_in_seq_order() {
    let mut jb = buffer();
    jb.push(2, &[9.0, 10.0, 11.0, 12.0]);
    jb.push(0, &[1.0, 2.0, 3.0, 4.0]);
    jb.push(1, &[5.0, 6.0, 7.0, 8.0]);

    let mut out = [0.0_f32; SAMPLES_PER_PACKET * 3];
    let n = jb.pop_frames(&mut out);
    assert_eq!(n, SAMPLES_PER_PACKET * 3);
    assert_eq!(&out[0..4], &[1.0, 2.0, 3.0, 4.0]);
    assert_eq!(&out[4..8], &[5.0, 6.0, 7.0, 8.0]);
    assert_eq!(&out[8..12], &[9.0, 10.0, 11.0, 12.0]);
}

#[test]
fn late_packet_after_head_advances_is_dropped() {
    let mut jb = buffer();
    jb.push(0, &[1.0, 2.0, 3.0, 4.0]);

    let mut out = quiet();
    let n = jb.pop_frames(&mut out);
    assert_eq!(n, SAMPLES_PER_PACKET);

    let outcome = jb.push(0, &[99.0; SAMPLES_PER_PACKET]);
    assert_eq!(outcome, PushOutcome::Late);
    assert_eq!(jb.stats().late_drops, 1);
}

#[test]
fn duplicate_packet_before_playout_is_ignored() {
    let mut jb = buffer();
    assert_eq!(jb.push(0, &[1.0; SAMPLES_PER_PACKET]), PushOutcome::Stored);

    let outcome = jb.push(0, &[99.0; SAMPLES_PER_PACKET]);
    assert_eq!(outcome, PushOutcome::Duplicate);
    assert_eq!(jb.stats().duplicates, 1);

    let mut out = quiet();
    let n = jb.pop_frames(&mut out);
    assert_eq!(n, SAMPLES_PER_PACKET);
    assert_eq!(out, [1.0; SAMPLES_PER_PACKET]);
}

#[test]
fn sequence_wraparound_plays_in_forward_ring_order() {
    let mut jb = buffer();
    jb.push(u32::MAX - 1, &[1.0, 2.0, 3.0, 4.0]);
    jb.push(u32::MAX, &[5.0, 6.0, 7.0, 8.0]);
    jb.push(0, &[9.0, 10.0, 11.0, 12.0]);

    let mut out = [0.0_f32; SAMPLES_PER_PACKET * 3];
    let n = jb.pop_frames(&mut out);
    assert_eq!(n, SAMPLES_PER_PACKET * 3);
    assert_eq!(&out[0..4], &[1.0, 2.0, 3.0, 4.0]);
    assert_eq!(&out[4..8], &[5.0, 6.0, 7.0, 8.0]);
    assert_eq!(&out[8..12], &[9.0, 10.0, 11.0, 12.0]);
}

#[test]
fn stats_aggregate_across_multiple_events() {
    let mut jb = buffer();
    jb.push(0, &[1.0; SAMPLES_PER_PACKET]);
    jb.push(3, &[99.0; SAMPLES_PER_PACKET]);

    assert_eq!(
        jb.push(3, &[0.0; SAMPLES_PER_PACKET]),
        PushOutcome::Duplicate
    );

    let mut out = [0.0_f32; SAMPLES_PER_PACKET * 4];
    jb.pop_frames(&mut out);

    assert_eq!(jb.push(0, &[0.0; SAMPLES_PER_PACKET]), PushOutcome::Late);

    let s = jb.stats();
    assert_eq!(s.silence_insertions, 2);
    assert_eq!(s.duplicates, 1);
    assert_eq!(s.late_drops, 1);
}

#[test]
fn pop_filling_partial_packet_pads_the_rest_with_silence() {
    let mut jb = buffer();
    jb.push(0, &[1.0, 2.0, 3.0, 4.0]);

    let mut out = [99.0_f32; 6];
    let n = jb.pop_frames(&mut out);
    assert_eq!(n, 6);
    assert_eq!(&out[0..4], &[1.0, 2.0, 3.0, 4.0]);
    assert_eq!(&out[4..6], &[0.0, 0.0]);
}

#[test]
fn empty_request_yields_zero_bytes_written() {
    let mut jb = buffer();
    jb.push(0, &[1.0, 2.0, 3.0, 4.0]);

    let mut out = [0.0_f32; 0];
    let n = jb.pop_frames(&mut out);
    assert_eq!(n, 0);
}

#[test]
fn a_restart_behind_the_play_head_empties_the_ring() {
    let mut buf = JitterBuffer::new(4, 4, None);
    for s in 100..104u32 {
        tag_packet(&mut buf, s);
    }
    let mut out = [0.0_f32; 6];
    buf.pop_frames(&mut out);
    assert_eq!(buf.push(3, &[7.0; 4]), PushOutcome::StreamReset);
    assert_eq!(buf.stats().sender_restarts, 1);
    assert_eq!(buf.queued_frames(), 4);
    let mut next = [0.0_f32; 4];
    buf.pop_frames(&mut next);
    assert_eq!(next, [7.0; 4]);
}

#[test]
fn a_packet_just_behind_the_play_head_is_late() {
    let mut buf = JitterBuffer::new(4, 4, None);
    for s in 100..104u32 {
        tag_packet(&mut buf, s);
    }
    let mut out = [0.0_f32; 6];
    buf.pop_frames(&mut out);
    assert_eq!(buf.push(97, &[7.0; 4]), PushOutcome::Late);
    assert_eq!(buf.push(96, &[7.0; 4]), PushOutcome::StreamReset);
}

#[test]
fn trimming_stops_at_the_target() {
    let mut buf = JitterBuffer::with_high_water(4, 8, Some(8), Some(16));
    for s in 0..6u32 {
        tag_packet(&mut buf, s);
    }
    let mut out = [0.0_f32; 4];
    buf.pop_frames(&mut out);
    assert_eq!(buf.stats().latency_trims, 2);
    assert_eq!(out, [2.001; 4]);
    assert_eq!(buf.queued_frames(), 12);
}

#[test]
fn two_requests_in_a_row_are_one_long_request() {
    let mut split = JitterBuffer::new(4, 8, None);
    let mut whole = JitterBuffer::new(4, 8, None);
    for s in [0u32, 1, 3, 4] {
        tag_packet(&mut split, s);
        tag_packet(&mut whole, s);
    }
    let mut a = [0.0_f32; 7];
    let mut b = [0.0_f32; 9];
    let mut c = [0.0_f32; 16];
    split.pop_frames(&mut a);
    split.pop_frames(&mut b);
    whole.pop_frames(&mut c);
    assert_eq!(&c[..7], &a[..]);
    assert_eq!(&c[7..], &b[..]);
    assert_eq!(split.stats(), whole.stats());
}

#[test]
fn played_packets_are_never_played_again() {
    let mut buf = small_buffer();
    tag_packet(&mut buf, 5);
    let mut out = [0.0_f32; 8];
    buf.pop_frames(&mut out);
    assert_eq!(buf.stats().underrun_resyncs, 1);
    assert_eq!(buf.push(5, &[1.0; 4]), PushOutcome::Late);
    assert_eq!(buf.push(6, &[1.0; 4]), PushOutcome::Stored);
}

#[test]
fn packets_in_any_order_and_repeated_come_out_in_sequence() {
    let mut buf = JitterBuffer::new(4, 8, Some(16));
    let mut expected = Vec::new();
    for i in 0..4u32 {
        expected.extend([i as f32 + 0.5; 4]);
    }
    for (i, seq) in [(2u32, 0u32), (0, u32::MAX - 1), (2, 0), (3, 1), (1, u32::MAX)] {
        buf.push(seq, &[i as f32 + 0.5; 4]);
    }
    assert_eq!(buf.stats().duplicates, 1);
    let mut out = [0.0_f32; 16];
    buf.pop_frames(&mut out);
    assert_eq!(out.to_vec(), expected);
}

#[test]
fn a_restart_after_playback_stopped_empties_the_ring() {
    let mut buf = small_buffer();
    tag_packet(&mut buf, 1_000);
    let mut out = [0.0_f32; 8];
    buf.pop_frames(&mut out);
    assert_eq!(buf.stats().underrun_resyncs, 1);
    assert_eq!(buf.push(1_002, &[2.0; 4]), PushOutcome::Stored);
    assert_eq!(buf.push(3, &[3.0; 4]), PushOutcome::Stored);
    assert_eq!(buf.stats().sender_restarts, 1);
    assert_eq!(buf.queued_frames(), 4);
    buf.pop_frames(&mut out);
    assert_eq!(&out[..4], &[3.0; 4]);
    assert_eq!(&out[4..], &[0.0; 4]);
}

#[test]
fn a_refused_packet_leaves_everything_but_its_count() {
    let mut buf = JitterBuffer::new(4, 8, None);
    let mut twin = JitterBuffer::new(4, 8, None);
    for b in [&mut buf, &mut twin] {
        for s in 10..14u32 {
            tag_packet(b, s);
        }
        let mut out = [0.0_f32; 6];
        b.pop_frames(&mut out);
    }
    assert_eq!(buf.push(12, &[7.0; 4]), PushOutcome::Duplicate);
    assert_eq!(buf.push(10, &[7.0; 4]), PushOutcome::Late);
    assert_eq!(buf.push(19, &[7.0; 4]), PushOutcome::MidReadCollision);
    let mut expected = twin.stats();
    expected.duplicates += 1;
    expected.late_drops += 1;
    expected.mid_read_collisions += 1;
    assert_eq!(buf.stats(), expected);
    assert_eq!(buf.queued_frames(), twin.queued_frames());
    let mut a = [0.0_f32; 12];
    let mut b = [0.0_f32; 12];
    buf.pop_frames(&mut a);
    twin.pop_frames(&mut b);
    assert_eq!(a, b);
}

#[test]
fn gaps_are_heard_as_silence_whatever_the_order() {
    for order in [[0u32, 3, 4, 7], [7, 4, 3, 0], [3, 0, 7, 4]] {
        let mut buf = JitterBuffer::new(4, 8, None);
        for i in order {
            buf.push((u32::MAX - 3).wrapping_add(i), &[i as f32 + 0.5; 4]);
        }
        let mut out = [9.0_f32; 32];
        buf.pop_frames(&mut out);
        for (i, packet) in out.chunks(4).enumerate() {
            let expected = if order.contains(&(i as u32)) { i as f32 + 0.5 } else { 0.0 };
            assert_eq!(packet, &[expected; 4]);
        }
        assert_eq!(buf.stats().silence_insertions, 4);
    }
}

#[test]
fn a_fill_at_the_mark_is_not_trimmed() {
    let mut buf = JitterBuffer::with_high_water(4, 8, Some(8), Some(16));
    for s in 0..4u32 {
        tag_packet(&mut buf, s);
    }
    let mut out = [0.0_f32; 4];
    buf.pop_frames(&mut out);
    assert_eq!(buf.stats().latency_trims, 0);
    assert_eq!(buf.queued_frames(), 12);
}

#[test]
fn a_split_request_differs_only_in_the_holds_counted() {
    let mut split = JitterBuffer::with_high_water(4, 16, Some(8), Some(16));
    let mut whole = JitterBuffer::with_high_water(4, 16, Some(8), Some(16));
    for s in 0..9u32 {
        tag_packet(&mut split, s);
        tag_packet(&mut whole, s);
    }
    let mut a = [0.0_f32; 21];
    let mut b = [0.0_f32; 9];
    let mut c = [0.0_f32; 30];
    split.pop_frames(&mut a);
    split.pop_frames(&mut b);
    whole.pop_frames(&mut c);
    assert_eq!(&c[..21], &a[..]);
    assert_eq!(&c[21..], &b[..]);
    let mut expected = whole.stats();
    expected.prebuffer_holds += 1;
    assert_eq!(split.stats(), expected);
    assert_eq!(whole.stats().latency_trims, 5);
}

#[test]
fn no_request_leaves_more_than_the_mark() {
    let mut buf = JitterBuffer::with_high_water(4, 16, Some(8), Some(16));
    let mut out = [0.0_f32; 1];
    buf.pop_frames(&mut out);
    assert_eq!((buf.queued_frames(), buf.stats().latency_trims), (0, 0));
    for s in 0..12u32 {
        tag_packet(&mut buf, s);
    }
    buf.pop_frames(&mut out);
    assert_eq!(buf.stats().latency_trims, 8);
    assert_eq!(buf.queued_frames(), 15);
    buf.pop_frames(&mut out);
    assert_eq!(buf.stats().latency_trims, 8);
    assert_eq!(buf.queued_frames(), 14);
}
