/// A sine tone of float samples.
struct SineSource {
    inner: teehee::generated::SineSource,
}

impl SineSource {
    fn new(sample_rate: u32, channels: u8, frequency: f32) -> Self {
        Self {
            inner: teehee::generated::SineSource::new(sample_rate, channels, frequency.to_bits()),
        }
    }

    fn fill_chunk(&mut self, out: &mut [f32]) {
        let rate = self.inner.sample_rate as f64;
        let frequency = f32::from_bits(self.inner.frequency) as f64;
        let frames = self.inner.fill_chunk(out.len());
        for (o, n) in out.iter_mut().zip(frames) {
            *o = (std::f64::consts::TAU * frequency * n as f64 / rate).sin() as f32;
        }
    }
}

#[test]
fn sine_source_first_sample_is_zero() {
    let mut src = SineSource::new(48_000, 1, 440.0);
    let mut out = [1.0_f32; 1];
    src.fill_chunk(&mut out);
    assert!(
        out[0].abs() < 1e-6,
        "first sample must be sin(0) = 0; got {}",
        out[0]
    );
}

#[test]
fn sine_source_output_is_bounded_in_neg1_to_1() {
    let mut src = SineSource::new(48_000, 2, 440.0);
    let mut out = vec![0.0_f32; 4800];
    src.fill_chunk(&mut out);
    for (i, &s) in out.iter().enumerate() {
        assert!(s >= -1.0 && s <= 1.0, "sample {i} out of range: {s}");
    }
}

#[test]
fn sine_source_stereo_channels_are_identical() {
    let mut src = SineSource::new(48_000, 2, 440.0);
    let mut out = vec![0.0_f32; 20];
    src.fill_chunk(&mut out);
    for i in 0..10 {
        assert_eq!(
            out[i * 2],
            out[i * 2 + 1],
            "stereo L/R must be identical at frame {i}"
        );
    }
}

#[test]
fn sine_source_mono_matches_stereo_left_channel() {
    let mut mono = SineSource::new(48_000, 1, 440.0);
    let mut stereo = SineSource::new(48_000, 2, 440.0);
    let mut mono_out = vec![0.0_f32; 5];
    let mut stereo_out = vec![0.0_f32; 10];
    mono.fill_chunk(&mut mono_out);
    stereo.fill_chunk(&mut stereo_out);
    for i in 0..5 {
        assert!(
            (mono_out[i] - stereo_out[i * 2]).abs() < 1e-6,
            "mono[{i}] = {} must match stereo L[{i}] = {}",
            mono_out[i],
            stereo_out[i * 2]
        );
    }
}

#[test]
fn sine_source_across_chunk_boundaries_is_continuous() {
    let mut src = SineSource::new(48_000, 2, 440.0);
    let mut chunk1 = vec![0.0_f32; 200];
    let mut chunk2 = vec![0.0_f32; 200];
    src.fill_chunk(&mut chunk1);
    src.fill_chunk(&mut chunk2);
    let last = chunk1[198];
    let first = chunk2[0];
    let max_step = 2.0 * std::f32::consts::PI * 440.0 / 48_000.0;
    assert!(
        (first - last).abs() < max_step + 1e-3,
        "discontinuity at chunk boundary: last={last}, first={first}"
    );
}

#[test]
fn sine_source_frequency_accuracy_peak_at_expected_bin() {
    let mut src = SineSource::new(48_000, 1, 440.0);
    let mut out = vec![0.0_f32; 48_000];
    src.fill_chunk(&mut out);
    let power: f64 = out.iter().map(|&s| (s as f64).powi(2)).sum::<f64>() / 48_000.0;
    assert!(
        (power - 0.5).abs() < 0.01,
        "mean power of sine wave should be ~0.5; got {power}"
    );
}

#[test]
fn sine_source_empty_out_is_noop() {
    let mut src = SineSource::new(48_000, 2, 440.0);
    let mut out: [f32; 0] = [];
    src.fill_chunk(&mut out);
    assert_eq!(src.inner.sample_pos, 0);
}

fn source() -> SineSource {
    SineSource::new(48_000, 2, 440.0)
}

#[test]
fn first_stereo_frame_at_phase_zero_is_zero() {
    let mut s = source();
    let mut out = [99.0_f32; 2];
    s.fill_chunk(&mut out);
    assert!(out[0].abs() < 1e-6, "L = {} (want ~0)", out[0]);
    assert!(out[1].abs() < 1e-6, "R = {} (want ~0)", out[1]);
}

#[test]
fn stereo_channels_broadcast_the_same_value_per_frame() {
    let mut s = source();
    let mut out = [0.0_f32; 512];
    s.fill_chunk(&mut out);
    for frame in 0..(out.len() / 2) {
        assert_eq!(
            out[frame * 2],
            out[frame * 2 + 1],
            "L != R at frame {frame}"
        );
    }
}

#[test]
fn next_chunk_continues_phase_where_previous_left_off() {
    let mut split = source();
    let mut split_buf = [0.0_f32; 8];
    split.fill_chunk(&mut split_buf[..4]);
    split.fill_chunk(&mut split_buf[4..]);

    let mut whole = source();
    let mut whole_buf = [0.0_f32; 8];
    whole.fill_chunk(&mut whole_buf);

    let eps = 1e-6;
    for i in 0..8 {
        assert!(
            (split_buf[i] - whole_buf[i]).abs() < eps,
            "sample {i}: split={} whole={}",
            split_buf[i],
            whole_buf[i]
        );
    }
}

#[test]
fn samples_are_bounded_between_minus_one_and_one() {
    let mut s = source();
    let mut out = [0.0_f32; 4096];
    s.fill_chunk(&mut out);
    let min = out.iter().cloned().fold(f32::INFINITY, f32::min);
    let max = out.iter().cloned().fold(f32::NEG_INFINITY, f32::max);
    assert!(min >= -1.0, "min sample out of range: {min}");
    assert!(max <= 1.0, "max sample out of range: {max}");
}

#[test]
fn sine_produces_full_period_at_unitary_sample_rate() {
    let mut s = SineSource::new(4, 1, 1.0);
    let mut buf = [0.0_f32; 4];
    s.fill_chunk(&mut buf);
    let eps = 1e-5;
    assert!(buf[0].abs() < eps, "start = {} (want ~0)", buf[0]);
    assert!(
        (buf[1] - 1.0).abs() < eps,
        "quarter = {} (want ~+1)",
        buf[1]
    );
    assert!(buf[2].abs() < eps, "half = {} (want ~0)", buf[2]);
    assert!(
        (buf[3] - -1.0).abs() < eps,
        "three-quarter = {} (want ~-1)",
        buf[3]
    );
}

#[test]
fn stereo_output_broadcasts_one_phase_per_frame() {
    let mut s = SineSource::new(4, 2, 1.0);
    let mut buf = [0.0_f32; 8];
    s.fill_chunk(&mut buf);
    let eps = 1e-5;
    assert!(buf[0].abs() < eps, "L0 = {}", buf[0]);
    assert!(buf[1].abs() < eps, "R0 = {}", buf[1]);
    assert!((buf[2] - 1.0).abs() < eps, "L1 = {}", buf[2]);
    assert!((buf[3] - 1.0).abs() < eps, "R1 = {}", buf[3]);
    assert!(buf[4].abs() < eps, "L2 = {}", buf[4]);
    assert!(buf[5].abs() < eps, "R2 = {}", buf[5]);
    assert!((buf[6] - -1.0).abs() < eps, "L3 = {}", buf[6]);
    assert!((buf[7] - -1.0).abs() < eps, "R3 = {}", buf[7]);
}

#[test]
fn frame_numbers_repeat_per_channel() {
    let mut s = teehee::generated::SineSource::new(48_000, 3, 0);
    assert_eq!(s.fill_chunk(7), vec![0, 0, 0, 1, 1, 1]);
    assert_eq!(s.sample_pos, 2);
    assert_eq!(s.fill_chunk(3), vec![2, 2, 2]);
    assert_eq!(s.fill_chunk(2), Vec::<u64>::new());
    assert_eq!(s.sample_pos, 3);
}

#[test]
fn chunks_of_whole_frames_join() {
    let mut split = teehee::generated::SineSource::new(48_000, 2, 0);
    let mut whole = split;
    let mut joined = split.fill_chunk(6);
    joined.extend(split.fill_chunk(9));
    assert_eq!(joined, whole.fill_chunk(15));
    assert_eq!(split, whole);
}
