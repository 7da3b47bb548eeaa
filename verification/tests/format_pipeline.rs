use teehee::format_pipeline::{Blend, FormatStats, Mixed};
use teehee::jitter::PushOutcome;

/// The value of a blend.
fn blended(b: &Blend) -> f32 {
    let a = f32::from_bits(b.left);
    let c = f32::from_bits(b.right);
    let t = (b.pos_q32 as f64 / 4_294_967_296.0) as f32;
    a + (c - a) * t
}

/// The value of a mixed sample.
fn mixed<T>(m: &Mixed<T>, value: &dyn Fn(&T) -> f32) -> f32 {
    match m {
        Mixed::Keep(v) => value(v),
        Mixed::Silence => 0.0,
        Mixed::HalfSum(l, r) => (value(l) + value(r)) * 0.5,
        Mixed::Mean(v) => v.iter().map(value).sum::<f32>() / v.len() as f32,
    }
}

fn bits(samples: &[f32]) -> Vec<u32> {
    samples.iter().map(|s| s.to_bits()).collect()
}

/// A rate conversion of float samples.
struct LinearResampler {
    inner: teehee::format_pipeline::LinearResampler,
}

impl LinearResampler {
    fn new(input_rate: u32, output_rate: u32, channels: u8) -> Self {
        Self {
            inner: teehee::format_pipeline::LinearResampler::new(input_rate, output_rate, channels),
        }
    }

    fn is_passthrough(&self) -> bool {
        self.inner.is_passthrough()
    }

    fn process(&mut self, input: &[f32], out: &mut [f32]) -> usize {
        let channels = self.inner.input_channels() as usize;
        let blends = self.inner.process(&bits(input), out.len() / channels);
        for (o, b) in out.iter_mut().zip(&blends) {
            *o = blended(b);
        }
        blends.len() / channels
    }
}

/// A channel conversion of float samples.
struct ChannelMixer {
    inner: teehee::format_pipeline::ChannelMixer,
}

impl ChannelMixer {
    fn new(input: u8, output: u8) -> Self {
        Self {
            inner: teehee::format_pipeline::ChannelMixer::new(input, output),
        }
    }

    fn is_passthrough(&self) -> bool {
        self.inner.is_passthrough()
    }

    fn process(&self, input: &[f32], out: &mut [f32]) -> usize {
        let recipes = self.inner.process(&bits(input), out.len());
        for (o, m) in out.iter_mut().zip(&recipes) {
            *o = mixed(m, &|b: &u32| f32::from_bits(*b));
        }
        recipes.len() / self.inner.output_channels() as usize
    }
}

/// A whole conversion of float samples.
struct FormatPipeline {
    inner: teehee::format_pipeline::FormatPipeline,
}

impl FormatPipeline {
    fn new(input_rate: u32, output_rate: u32, input: u8, output: u8) -> Self {
        Self {
            inner: teehee::format_pipeline::FormatPipeline::new(
                input_rate,
                output_rate,
                input,
                output,
            ),
        }
    }

    fn is_passthrough(&self) -> bool {
        self.inner.is_passthrough()
    }

    fn feed(&mut self, input: &[f32]) {
        self.inner.feed(&bits(input));
    }

    fn pending_output_frames(&self) -> usize {
        self.inner.pending_output_frames()
    }

    fn drain(&mut self, out: &mut [f32]) -> usize {
        let recipes = self.inner.drain(out.len());
        for (o, m) in out.iter_mut().zip(&recipes) {
            *o = mixed(m, &blended);
        }
        recipes.len() / self.inner.mixer().output_channels() as usize
    }

    fn process(&mut self, input: &[f32], out: &mut [f32]) -> usize {
        self.feed(input);
        self.drain(out)
    }

    fn stats(&self) -> FormatStats {
        self.inner.stats()
    }
}

/// A reorder buffer of float samples.
struct JitterBuffer {
    inner: teehee::jitter::JitterBuffer,
}

impl JitterBuffer {
    fn new(samples_per_packet: usize, capacity: usize, target: Option<usize>) -> Self {
        Self {
            inner: teehee::jitter::JitterBuffer::new(samples_per_packet, capacity, target),
        }
    }

    fn push(&mut self, seq: u32, samples: &[f32]) -> PushOutcome {
        let bits: Vec<u32> = samples.iter().map(|s| s.to_bits()).collect();
        self.inner.push(seq, &bits)
    }

    fn pop_frames(&mut self, out: &mut [f32]) -> usize {
        let mut bits = vec![u32::MAX; out.len()];
        let n = self.inner.pop_frames(&mut bits);
        for (o, b) in out.iter_mut().zip(bits) {
            *o = f32::from_bits(b);
        }
        n
    }
}

fn resampler_between(ir: u32, or: u32) -> LinearResampler {
    LinearResampler::new(ir, or, 1)
}

#[test]
fn resampler_is_passthrough_only_at_exact_1_to_1() {
    assert!(resampler_between(48_000, 48_000).is_passthrough());
    assert!(!resampler_between(48_000, 44_100).is_passthrough());
    assert!(!resampler_between(44_100, 48_000).is_passthrough());
}

#[test]
fn resampler_identity_passes_each_input_through_one_output() {
    let mut r = resampler_between(48_000, 48_000);
    let input: Vec<f32> = (0..8).map(|i| i as f32).collect();
    let mut out = vec![0.0_f32; 9];
    let n = r.process(&input, &mut out);
    assert_eq!(
        n, 7,
        "1:1 ratio: 8 inputs → 7 outputs (last is left anchor)"
    );
    for (i, v) in out.iter().enumerate().take(7) {
        assert_eq!(*v, i as f32, "out[{i}] must equal input frame {i}");
    }
}

#[test]
fn resampler_dc_input_remains_constant_across_ratios() {
    for (ir, or) in [
        (48_000_u32, 48_000_u32),
        (48_000, 44_100),
        (96_000, 48_000),
        (44_100, 48_000),
    ] {
        let mut r = LinearResampler::new(ir, or, 1);
        let input = vec![0.5_f32; 200];
        let mut out = vec![0.0_f32; 240];
        let n = r.process(&input, &mut out);
        assert!(n > 0, "rate pair ({ir}→{or}) produced no output");
        for (f, &v) in out[..n].iter().enumerate() {
            assert!(
                (v - 0.5).abs() < 1e-6,
                "DC drift at ({ir}→{or}) frame {f}: {v}"
            );
        }
    }
}

#[test]
fn resampler_2_to_1_downsample_interpolates_between_pairs() {
    let mut r = resampler_between(96_000, 48_000);
    assert!(!r.is_passthrough());
    let input = vec![0.5_f32; 10];
    let mut out = vec![0.0_f32; 6];
    let n = r.process(&input, &mut out);
    assert!(
        (4..=6).contains(&n),
        "expected 4-6 outputs for 10 DC inputs, got {n}"
    );
    for v in &out[..n] {
        assert!((v - 0.5).abs() < 1e-6, "DC drift: {v}");
    }
}

#[test]
fn resampler_1_to_2_upsample_walks_at_half_step() {
    let mut r = resampler_between(48_000, 96_000);
    assert!(!r.is_passthrough());
    let input: Vec<f32> = (0..5).map(|i| i as f32).collect();
    let mut out = vec![0.0_f32; 12];
    let n = r.process(&input, &mut out);
    assert_eq!(n, 8, "1:2 upsample: 5 inputs → 8 outputs");
    assert_eq!(out[0], 0.0, "seeded first output (t=0)");
    assert!((out[1] - 0.5).abs() < 1e-6, "half-step interp");
    assert_eq!(out[2], 1.0, "anchor at input[1]");
    assert!((out[3] - 1.5).abs() < 1e-6, "t=0.5 between [1] and [2]");
    assert_eq!(out[6], 3.0, "anchor at input[3]");
    assert!((out[7] - 3.5).abs() < 1e-6, "t=0.5 between [3] and [4]");
}

#[test]
fn resampler_keeps_running_process_via_carry() {
    let mut r = resampler_between(96_000, 48_000);
    let first = vec![1.0_f32; 4];
    let second = vec![2.0_f32; 4];
    let mut out1 = vec![0.0_f32; 4];
    let n1 = r.process(&first, &mut out1);
    assert!(n1 >= 1, "first batch produced at least 1 output");
    let mut out2 = vec![0.0_f32; 4];
    let n2 = r.process(&second, &mut out2);
    for v in out1.iter().take(n1) {
        assert!((v - 1.0).abs() < 1e-6, "first batch DC {v}");
    }
    for v in out2.iter().take(n2) {
        assert!(
            (v - 2.0).abs() < 1e-6 || (v - 1.5).abs() < 1e-6,
            "second batch DC merge {v}"
        );
    }
}

#[test]
fn mixer_passthrough_copies_in_place() {
    let m = ChannelMixer::new(2, 2);
    assert!(m.is_passthrough());
    let input = [1.0_f32, -1.0, 0.5, 0.25];
    let mut out = [0.0_f32; 4];
    let n = m.process(&input, &mut out);
    assert_eq!(n, 2);
    assert_eq!(out, input);
}

#[test]
fn mixer_mono_to_stereo_broadcasts() {
    let m = ChannelMixer::new(1, 2);
    let input = [0.3_f32, -0.7, 0.0];
    let mut out = [0.0_f32; 6];
    let n = m.process(&input, &mut out);
    assert_eq!(n, 3);
    assert_eq!(out, [0.3, 0.3, -0.7, -0.7, 0.0, 0.0]);
}

#[test]
fn mixer_stereo_to_mono_averages_l_plus_r_over_two() {
    let m = ChannelMixer::new(2, 1);
    let input = [0.4_f32, 0.6, -1.0, 1.0];
    let mut out = [0.0_f32; 2];
    let n = m.process(&input, &mut out);
    assert_eq!(n, 2);
    assert_eq!(out[0], 0.5);
    assert_eq!(out[1], 0.0);
}

#[test]
fn mixer_4_to_2_averages_pairs() {
    let m = ChannelMixer::new(4, 2);
    let input = [1.0_f32, 3.0, 5.0, 7.0];
    let mut out = [0.0_f32; 2];
    let n = m.process(&input, &mut out);
    assert_eq!(n, 1);
    assert_eq!(out[0], 2.0);
    assert_eq!(out[1], 6.0);
}

#[test]
fn mixer_4_to_1_averages_all_four() {
    let m = ChannelMixer::new(4, 1);
    let input = [1.0, 2.0, 3.0, 4.0];
    let mut out = [0.0_f32; 1];
    let n = m.process(&input, &mut out);
    assert_eq!(n, 1);
    assert_eq!(out[0], 2.5);
}

#[test]
fn mixer_1_to_3_defensive_zero_pads() {
    let m = ChannelMixer::new(1, 3);
    let input = [0.42_f32, 0.0];
    let mut out = [0.0_f32; 6];
    let n = m.process(&input, &mut out);
    assert_eq!(n, 2);
    assert_eq!(out, [0.42, 0.0, 0.0, 0.0, 0.0, 0.0]);
}

#[test]
fn pipeline_passthrough_copies_correctly() {
    let mut p = FormatPipeline::new(48_000, 48_000, 2, 2);
    assert!(p.is_passthrough());
    let input = [1.0_f32, -1.0, 0.5, 0.25, 0.0, 0.75, -0.5, 1.0];
    let mut out = [0.0_f32; 8];
    let n = p.process(&input, &mut out);
    assert_eq!(n, 3, "passthrough: 4 frames → 3 (last carried)");
    assert_eq!(&out[..6], &[1.0, -1.0, 0.5, 0.25, 0.0, 0.75]);
}

#[test]
fn pipeline_stereo_to_mono_passes_mixer_only() {
    let mut p = FormatPipeline::new(48_000, 48_000, 2, 1);
    assert!(!p.is_passthrough());
    let input = [0.4_f32, 0.6, -1.0, 1.0, 0.0, 0.0];
    let mut out = [0.0_f32; 3];
    let n = p.process(&input, &mut out);
    assert_eq!(n, 2, "stereo→mono: 3 frames → 2 (last carried)");
    assert_eq!(out[0], 0.5);
    assert_eq!(out[1], 0.0);
}

#[test]
fn pipeline_mono_to_stereo_passes_mixer_only() {
    let mut p = FormatPipeline::new(48_000, 48_000, 1, 2);
    assert!(!p.is_passthrough());
    let input = [0.3_f32, -0.7, 0.0];
    let mut out = [0.0_f32; 6];
    let n = p.process(&input, &mut out);
    assert_eq!(n, 2, "mono→stereo: 3 frames → 2 (last carried)");
    assert_eq!(out[..4], [0.3, 0.3, -0.7, -0.7]);
}

#[test]
fn pipeline_48_stereo_to_44_1_mono_preserves_dc() {
    let mut p = FormatPipeline::new(48_000, 44_100, 2, 1);
    assert!(!p.is_passthrough());
    let input = vec![0.5_f32; 400];
    p.feed(&input);
    let n = p.pending_output_frames();
    assert!(n > 0, "feed must produce output frames");
    let mut out = vec![0.0_f32; n];
    p.drain(&mut out);
    for (f, &v) in out[..n].iter().enumerate() {
        assert!((v - 0.5).abs() < 1e-6, "DC drift at frame {f}: {v}",);
    }
    let s = p.stats();
    assert!(s.samples_in > 0);
    assert!(s.samples_out > 0);
}

#[test]
fn pipeline_grows_scratch_on_oversized_input() {
    let mut p = FormatPipeline::new(48_000, 44_100, 2, 2);
    let n_frames = 10_000;
    let input = [0.8_f32, -0.8_f32].repeat(n_frames);
    p.feed(&input);
    let n = p.pending_output_frames();
    let mut out = vec![0.0_f32; n * 2];
    p.drain(&mut out);
    let expected_n = (n_frames * 44_100).div_ceil(48_000);
    assert!(
        (n as i64 - expected_n as i64).unsigned_abs() <= 1,
        "expected ~{expected_n} output frames, got {n}"
    );
    for f in 0..n {
        let l = out[f * 2];
        let r = out[f * 2 + 1];
        assert!((l - 0.8).abs() < 1e-6, "DC drift on L at {f}: {l}");
        assert!((r + 0.8).abs() < 1e-6, "DC drift on R at {f}: {r}");
    }
}

#[test]
fn pipeline_high_ratio_upsample_fills_output_capacity() {
    let mut p = FormatPipeline::new(8_000, 192_000, 1, 1);
    let input = vec![0.25_f32; 21];
    p.feed(&input);
    let n = p.pending_output_frames();
    let mut out = vec![0.0_f32; n];
    p.drain(&mut out);
    assert!(n >= 480, "24× upsample should produce ≥480 frames, got {n}");
    for (f, &v) in out[..n].iter().enumerate() {
        assert!((v - 0.25).abs() < 1e-6, "DC drift at frame {f}: {v}");
    }
}

#[test]
fn resampler_drift_regression_48k_to_44_1k() {
    let mut p = FormatPipeline::new(48_000, 44_100, 1, 1);
    let mut total_in: u64 = 0;
    let mut total_out: u64 = 0;
    let mut out_buf = vec![0.0_f32; 512];

    while total_out < 500 * 512 {
        p.feed(&[0.5_f32]);
        total_in += 1;
        while p.pending_output_frames() >= 512 {
            let n = p.drain(&mut out_buf);
            assert_eq!(n, 512, "drain must return exactly 512 frames");
            total_out += n as u64;
        }
    }

    let expected_in = total_out as f64 * 48_000.0 / 44_100.0;
    let diff = (total_in as f64 - expected_in).abs();
    assert!(
        diff <= 2.0,
        "drift exceeded ±2 input frames: total_in={total_in} \
         expected={expected_in:.1} diff={diff:.3}"
    );
}

#[test]
fn pipeline_feed_drain_pending_round_trip() {
    let mut p = FormatPipeline::new(48_000, 44_100, 1, 1);
    assert_eq!(p.pending_output_frames(), 0, "no output before feed");

    p.feed(&[0.5_f32; 480]);
    let pending = p.pending_output_frames();
    assert!(pending > 0, "feed must produce output");
    assert!(
        pending <= 441,
        "10 ms at 44.1 kHz ≈ 441 frames max, got {pending}"
    );

    let mut out = vec![0.0_f32; pending];
    let drained = p.drain(&mut out);
    assert_eq!(drained, pending, "drain must return all pending frames");
    assert_eq!(
        p.pending_output_frames(),
        0,
        "FIFO must be empty after full drain"
    );
    for (f, &v) in out.iter().enumerate() {
        assert!((v - 0.5).abs() < 1e-6, "DC drift at frame {f}: {v}");
    }
}

const SAMPLES_PER_PACKET: usize = 1920;

#[test]
fn jitter_drain_through_pipeline_preserves_dc_across_sr_and_channels() {
    let mut jb = JitterBuffer::new(SAMPLES_PER_PACKET, 32, None);
    for seq in 0..3u32 {
        let packet = vec![0.5_f32; SAMPLES_PER_PACKET];
        let outcome = jb.push(seq, &packet);
        assert_eq!(outcome, PushOutcome::Stored);
    }

    let mut pipeline = FormatPipeline::new(48_000, 44_100, 2, 1);
    assert!(
        !pipeline.is_passthrough(),
        "stereo→mono, 48→44.1 must be active"
    );

    let mut input_scratch = vec![0.0_f32; 3 * SAMPLES_PER_PACKET];
    let popped = jb.pop_frames(&mut input_scratch);
    assert_eq!(
        popped,
        input_scratch.len(),
        "pop_frames must return out.len() per its contract"
    );
    for (f, &val) in input_scratch[..popped].iter().enumerate() {
        assert!(
            (val - 0.5).abs() < 1e-6,
            "queued audio must be DC = 0.5 across all {popped} input samples, got {val} at {f}",
        );
    }

    let output_cap = 2700;
    let mut output = vec![0.0_f32; output_cap];
    let written = pipeline.process(&input_scratch, &mut output);
    assert!(
        written > 0,
        "pipeline must produce at least one output frame"
    );
    let expected = 2646;
    assert!(
        written == expected || written == expected - 1 || written == expected + 1,
        "expected {expected} ±1 output frames (resampler carry boundary), got {written}"
    );
    for (f, &v) in output[..written].iter().enumerate() {
        assert!((v - 0.5).abs() < 1e-5, "DC drift at output frame {f}: {v}");
    }

    let s: FormatStats = pipeline.stats();
    assert_eq!(s.samples_in as usize, input_scratch.len());
    assert_eq!(
        s.samples_out as usize, written,
        "samples_out accounts only for what hit the output buffer"
    );
    assert!(s.resampler_frames_in > 0);
    assert!(s.resampler_frames_out > 0);
    assert!(
        s.mixer_frames_in > 0,
        "mixer must have processed resampled frames"
    );
}

#[test]
fn scratch_sizing_2x_downsample_to_mono() {
    let mut jb = JitterBuffer::new(SAMPLES_PER_PACKET, 32, None);
    let mut packet = vec![0.7_f32; SAMPLES_PER_PACKET];
    for seq in 0..4u32 {
        let outcome = jb.push(seq, &packet);
        assert_eq!(outcome, PushOutcome::Stored);
    }
    packet.clear();
    let mut pipeline = FormatPipeline::new(96_000, 48_000, 2, 1);

    let mut input_scratch = vec![0.0_f32; 4 * SAMPLES_PER_PACKET];
    let popped = jb.pop_frames(&mut input_scratch);
    assert_eq!(popped, input_scratch.len());

    let mut output = vec![0.0_f32; 1920];
    let written = pipeline.process(&input_scratch, &mut output);
    let expected = 1920;
    assert!(
        written == expected || written == expected - 1 || written == expected + 1,
        "expected {expected} ±1 output frames for 2x downsample, got {written}"
    );
    for (f, &v) in output[..written].iter().enumerate() {
        assert!(
            (v - 0.7).abs() < 1e-5,
            "DC drift at 2x-downsample output frame {f}: {v}"
        );
    }
}

#[test]
fn chunks_of_any_size_give_the_same_output() {
    let input: Vec<f32> = (0..400).map(|i| (i as f32 * 0.37).sin()).collect();
    let mut whole = FormatPipeline::new(44_100, 48_000, 2, 2);
    whole.feed(&input);
    let mut a = vec![0.0_f32; whole.pending_output_frames() * 2];
    whole.drain(&mut a);
    let mut split = FormatPipeline::new(44_100, 48_000, 2, 2);
    for chunk in input.chunks(26) {
        split.feed(chunk);
    }
    let mut b = vec![0.0_f32; split.pending_output_frames() * 2];
    split.drain(&mut b);
    assert_eq!(a, b);
}

#[test]
fn a_share_of_the_channels_is_never_counted_twice() {
    let m = ChannelMixer::new(3, 2);
    let mut out = [0.0_f32; 2];
    assert_eq!(m.process(&[1.0, 2.0, 6.0], &mut out), 1);
    assert_eq!(out, [1.5, 6.0]);
    let m = ChannelMixer::new(5, 2);
    assert_eq!(m.process(&[1.0, 2.0, 3.0, 10.0, 20.0], &mut out), 1);
    assert_eq!(out, [2.0, 15.0]);
}

#[test]
fn a_corrected_step_ends_the_passthrough() {
    let mut p = teehee::format_pipeline::FormatPipeline::new(48_000, 48_000, 1, 1);
    assert!(p.is_passthrough() && !p.drift_active());
    assert_eq!(p.resampler().nominal_step_q32(), 0x1_0000_0000);
    p.set_drift_correction(0x1_0000_0000 + 2_147_484);
    assert!(!p.is_passthrough() && p.drift_active());
    let input: Vec<u32> = (0..4001).map(|i| (i as f32).to_bits()).collect();
    p.feed(&input);
    assert_eq!(p.pending_output_frames(), 3_999);
}

#[test]
fn positions_are_exact() {
    let mut r = teehee::format_pipeline::LinearResampler::new(48_000, 44_100, 1);
    let input: Vec<u32> = (0..10u32).collect();
    let out = r.process(&input, 100);
    assert_eq!(out.len(), 9);
    let step = 48_000u64 * 0x1_0000_0000 / 44_100;
    for (k, b) in out.iter().enumerate() {
        let at = k as u64 * step;
        assert_eq!(b.left as u64, at >> 32);
        assert_eq!(b.right as u64, (at >> 32) + 1);
        assert_eq!(b.pos_q32, at & 0xffff_ffff);
    }
}

#[test]
fn a_slowed_conversion_is_not_cut_short() {
    let mut p = teehee::format_pipeline::FormatPipeline::new(48_000, 44_100, 1, 1);
    let nominal = p.resampler().nominal_step_q32();
    let step = nominal - nominal / 2_000;
    p.set_drift_correction(step);
    let frames = 20_000u64;
    p.feed(&vec![0; frames as usize]);
    let expected = ((frames - 1) * 0x1_0000_0000).div_ceil(step);
    assert!(expected > (frames * 44_100).div_ceil(48_000));
    assert_eq!(p.pending_output_frames() as u64, expected);
}

#[test]
fn input_without_output_is_counted_too() {
    let mut p = teehee::format_pipeline::FormatPipeline::new(48_000, 48_000, 2, 1);
    p.feed(&[1, 2]);
    assert_eq!(p.pending_output_frames(), 0);
    assert_eq!(p.stats().samples_in, 2);
    assert_eq!(p.stats().samples_out, 0);
    p.feed(&[3, 4]);
    assert_eq!(p.pending_output_frames(), 1);
    assert_eq!(p.stats().samples_in, 4);
    assert_eq!(p.stats().samples_out, 1);
}

#[test]
fn a_feed_gives_all_that_its_input_allows() {
    for (ir, or, step, frames) in [
        (48_000u32, 48_000u32, 0x4000_0000u64, 1_000u64),
        (8_000, 192_000, 0x1_0000_0000 / 24, 777),
        (1, 4_000_000_000, 0x30_0000, 3),
    ] {
        let mut p = teehee::format_pipeline::FormatPipeline::new(ir, or, 1, 1);
        p.set_drift_correction(step);
        p.feed(&vec![0; frames as usize]);
        assert_eq!(p.pending_output_frames() as u64, ((frames - 1) << 32).div_ceil(step));
    }
}

#[test]
fn input_may_be_fed_in_pieces() {
    let input: Vec<u32> = (0..300).collect();
    let mut whole = teehee::format_pipeline::FormatPipeline::new(44_100, 48_000, 3, 2);
    let mut split = teehee::format_pipeline::FormatPipeline::new(44_100, 48_000, 3, 2);
    whole.feed(&input);
    for piece in [&input[..3], &input[3..36], &input[36..36], &input[36..]] {
        split.feed(piece);
    }
    assert_eq!(whole.stats(), split.stats());
    let (a, b) = (whole.drain(10_000), split.drain(10_000));
    assert_eq!(a.len(), 216);
    assert_eq!(format!("{a:?}"), format!("{b:?}"));
}

#[test]
fn mono_survives_a_trip_through_stereo() {
    let up = teehee::format_pipeline::ChannelMixer::new(1, 2);
    let input = [0.25_f32, -0.5, 0.125].map(f32::to_bits);
    let stereo: Vec<u32> = up
        .process(&input, 6)
        .into_iter()
        .map(|m| match m {
            Mixed::Keep(v) => v,
            _ => panic!("a copied sample"),
        })
        .collect();
    let down = teehee::format_pipeline::ChannelMixer::new(2, 1);
    for (m, v) in down.process(&stereo, 3).into_iter().zip(input) {
        assert!(matches!(m, Mixed::HalfSum(l, r) if l == v && r == v));
        let v = f32::from_bits(v);
        assert_eq!((v + v) * 0.5, v);
    }
}

#[test]
fn an_empty_chunk_changes_nothing() {
    let input: Vec<u32> = (0..40).collect();
    for cuts in [[0, 0, 40], [0, 20, 20], [20, 40, 40], [2, 2, 2]] {
        let mut whole = teehee::format_pipeline::LinearResampler::new(44_100, 48_000, 2);
        let mut split = teehee::format_pipeline::LinearResampler::new(44_100, 48_000, 2);
        let expected = whole.process(&input, 100);
        let mut from = 0;
        let mut got = Vec::new();
        for to in cuts.into_iter().chain([40]) {
            got.extend(split.process(&input[from..to], 100));
            from = to;
        }
        assert_eq!(expected.len(), 42);
        assert_eq!(got, expected);
        assert_eq!(split.stats(), whole.stats());
    }
}

#[test]
fn a_constant_channel_stays_constant_at_any_rates() {
    for (ir, or) in [(48_000, 44_100), (44_100, 48_000), (8_000, 192_000), (192_000, 7)] {
        let mut r = teehee::format_pipeline::LinearResampler::new(ir, or, 2);
        let mut made = 0;
        for chunk in 0..5u32 {
            let input: Vec<u32> = (0..60_000).map(|i| if i % 2 == 0 { i + chunk } else { 77 }).collect();
            for b in r.process(&input, 1_000).iter().skip(1).step_by(2) {
                assert_eq!((b.left, b.right), (77, 77));
                made += 1;
            }
        }
        assert!(made > 0);
    }
}
