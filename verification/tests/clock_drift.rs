use std::time::Instant;
use teehee::clock_drift::{ClockDriftTracker as Tracker, MIN_SAMPLES};

const MAX_DRIFT_PPM: f32 = 500.0;

/// A tracker on the real clock that computes the correction from the fit.
struct ClockDriftTracker {
    inner: Tracker,
    start: Instant,
    ppm: f32,
    slope: f32,
}

impl ClockDriftTracker {
    fn new(nominal_rate: u32, target: usize, channels: u8) -> Self {
        Self {
            inner: Tracker::new(nominal_rate, target, channels),
            start: Instant::now(),
            ppm: 0.0,
            slope: 0.0,
        }
    }

    fn update(&mut self, queued: usize) {
        self.inner.update(self.start.elapsed().as_nanos() as u64, queued);
        if let Some(f) = self.inner.fit() {
            let n = f.n as f64;
            let ch = f.channels as f64;
            let (st, sq) = (f.sum_t as f64 * 1e-9, f.sum_q as f64 / ch);
            let (stt, stq) = (f.sum_tt as f64 * 1e-18, f.sum_tq as f64 * 1e-9 / ch);
            let spread = n * stt - st * st;
            let slope = if spread.abs() < 1e-12 { 0.0 } else { (n * stq - st * sq) / spread };
            let offset = (f.latest as f64 - f.target as f64) / ch;
            let total = slope / f.nominal_rate as f64 * 1_000_000.0 + 0.5 * offset;
            self.ppm = (total as f32).clamp(-MAX_DRIFT_PPM, MAX_DRIFT_PPM);
            self.slope = slope as f32;
        }
    }

    fn is_warmed_up(&self) -> bool {
        self.inner.is_warmed_up()
    }

    fn current_ppm(&self) -> f32 {
        if self.is_warmed_up() {
            self.ppm
        } else {
            0.0
        }
    }

    fn current_slope(&self) -> f32 {
        self.slope
    }

    fn reset(&mut self) {
        self.inner.reset();
        self.ppm = 0.0;
        self.slope = 0.0;
    }
}

fn make_tracker(target: usize) -> ClockDriftTracker {
    ClockDriftTracker::new(48_000, target, 1)
}

#[test]
fn tracker_starts_cold() {
    let t = make_tracker(9600);
    assert!(!t.is_warmed_up());
    assert_eq!(t.current_ppm(), 0.0);
    assert_eq!(t.current_slope(), 0.0);
}

#[test]
fn tracker_warms_up_after_min_samples() {
    let mut t = make_tracker(9600);
    for i in 0..MIN_SAMPLES {
        t.update(9600);
        if i < MIN_SAMPLES - 1 {
            assert!(!t.is_warmed_up());
        }
    }
    assert!(t.is_warmed_up());
}

#[test]
fn stable_fill_produces_near_zero_drift() {
    let mut t = make_tracker(9600);
    for _ in 0..200 {
        t.update(9600);
    }
    let ppm = t.current_ppm();
    assert!(
        ppm.abs() < 5.0,
        "stable fill should produce near-zero drift, got {ppm} ppm"
    );
}

#[test]
fn growing_fill_produces_positive_drift() {
    let mut t = make_tracker(9600);
    for i in 0..200 {
        t.update(9600 + i * 10);
    }
    let ppm = t.current_ppm();
    assert!(
        ppm > 10.0,
        "growing fill should produce positive drift correction, got {ppm} ppm"
    );
    assert!(
        t.current_slope() > 0.0,
        "slope should be positive for growing fill"
    );
}

#[test]
fn shrinking_fill_produces_negative_drift() {
    let mut t = make_tracker(9600);
    for i in 0..200 {
        let fill = 9600_usize.saturating_sub(i * 10);
        t.update(fill);
    }
    let ppm = t.current_ppm();
    assert!(
        ppm < -10.0,
        "shrinking fill should produce negative drift correction, got {ppm} ppm"
    );
    assert!(
        t.current_slope() < 0.0,
        "slope should be negative for shrinking fill"
    );
}

#[test]
fn drift_is_clamped_to_max() {
    let mut t = make_tracker(9600);
    for i in 0..200 {
        t.update(9600 + i * 1000);
    }
    let ppm = t.current_ppm();
    assert!(
        ppm.abs() <= MAX_DRIFT_PPM + 0.1,
        "drift must be clamped to ±{MAX_DRIFT_PPM}, got {ppm}"
    );
}

#[test]
fn proportional_term_pulls_toward_target() {
    let mut t = make_tracker(9600);
    for _ in 0..200 {
        t.update(10100);
    }
    let ppm = t.current_ppm();
    assert!(
        ppm > 100.0,
        "fill above target should produce strong positive correction, got {ppm} ppm"
    );
}

#[test]
fn stereo_normalises_samples_to_frames() {
    let mut t = ClockDriftTracker::new(48_000, 9600, 2);
    for _ in 0..200 {
        t.update(9600);
    }
    let ppm = t.current_ppm();
    assert!(
        ppm.abs() < 5.0,
        "stereo stable fill should produce near-zero drift, got {ppm} ppm"
    );
}

#[test]
fn stereo_growing_fill_produces_correct_drift() {
    let mut t_stereo = ClockDriftTracker::new(48_000, 9600, 2);
    let mut t_mono = ClockDriftTracker::new(48_000, 4800, 1);
    for i in 0..200 {
        t_stereo.update(9600 + i * 20);
        t_mono.update(4800 + i * 10);
    }
    let ppm_s = t_stereo.current_ppm();
    let ppm_m = t_mono.current_ppm();
    let diff = (ppm_s - ppm_m).abs();
    let avg = (ppm_s.abs() + ppm_m.abs()) / 2.0;
    assert!(
        diff / avg.max(0.01) < 0.05,
        "stereo and mono drift should match after D1 fix: stereo={ppm_s}, mono={ppm_m}"
    );
}

#[test]
fn reset_clears_all_state() {
    let mut t = make_tracker(9600);
    for i in 0..200 {
        t.update(9600 + i * 10);
    }
    assert!(t.is_warmed_up());
    assert!(t.current_ppm() != 0.0);
    assert!(t.current_slope() != 0.0);

    t.reset();
    assert!(!t.is_warmed_up(), "must be cold after reset");
    assert_eq!(t.current_ppm(), 0.0, "ppm must zero after reset");
    assert_eq!(t.current_slope(), 0.0, "slope must zero after reset");
}

#[test]
fn reset_then_re_warm_produces_fresh_estimate() {
    let mut t = make_tracker(9600);
    for _ in 0..200 {
        t.update(10100);
    }
    assert!(t.current_ppm() > 0.0);
    let old_ppm = t.current_ppm();

    t.reset();
    assert_eq!(t.current_ppm(), 0.0);

    for _ in 0..200 {
        t.update(9600);
    }
    assert!(t.is_warmed_up());
    let new_ppm = t.current_ppm();
    assert!(
        new_ppm.abs() < 5.0,
        "after reset + stable fill, ppm should be near zero, got {new_ppm} (was {old_ppm})"
    );
}

#[test]
fn fills_older_than_the_window_are_dropped() {
    let mut t = Tracker::new(48_000, 9600, 1);
    let step = 100_000_000;
    for i in 0..=80u64 {
        t.update(i * step, 9600);
    }
    assert_eq!(t.fit().unwrap().n, 81);
    t.update(81 * step, 9600);
    assert_eq!(t.fit().unwrap().n, 81);
    t.update(8_100_000_001, 9600);
    let f = t.fit().unwrap();
    assert_eq!(f.n, 81);
    assert_eq!(f.sum_q, 81 * 9600);
    assert_eq!(f.latest, 9600);
}

#[test]
fn sums_are_exact_and_count_from_the_oldest_fill() {
    let mut t = Tracker::new(48_000, 0, 0);
    for i in 0..50u64 {
        t.update(1_000_000_000_000 + i * 10, 3 * i as usize + 5);
    }
    let f = t.fit().unwrap();
    assert_eq!(f.channels, 1);
    assert_eq!(f.sum_t, 12_250);
    assert_eq!(f.sum_q, 3 * 1_225 + 250);
    assert_eq!(f.sum_tt, 4_042_500);
    assert_eq!(f.sum_tq, 3 * 404_250 + 5 * 12_250);
    let rise = f.n * f.sum_tq - f.sum_t * f.sum_q;
    let spread = f.n * f.sum_tt - f.sum_t * f.sum_t;
    assert_eq!(10 * rise, 3 * spread);
}

#[test]
fn channels_scale_the_fit() {
    let mut one = Tracker::new(48_000, 1_000, 1);
    let mut six = Tracker::new(48_000, 6_000, 6);
    for i in 0..60u64 {
        let queued = 900 + (i * i % 41) as usize;
        one.update(i * 7_000_000, queued);
        six.update(i * 7_000_000, 6 * queued);
        assert_eq!(one.is_warmed_up(), six.is_warmed_up());
    }
    let (f, g) = (one.fit().unwrap(), six.fit().unwrap());
    assert_eq!((g.n, g.sum_t, g.sum_tt), (f.n, f.sum_t, f.sum_tt));
    assert_eq!((g.sum_q, g.sum_tq), (6 * f.sum_q, 6 * f.sum_tq));
    assert_eq!((g.latest, g.target), (6 * f.latest, 6 * f.target));
}

#[test]
fn fifty_updates_within_eight_seconds_warm_up() {
    let second = 1_000_000_000u64;
    let mut t = Tracker::new(48_000, 100, 1);
    for i in 0..49 {
        t.update(i, 7);
    }
    assert!(!t.is_warmed_up());
    // The first 49 are just outside the window, but for the last of them.
    t.update(8 * second + 48, 7);
    assert!(!t.is_warmed_up());
    for i in 0..47 {
        t.update(8 * second + 48, i);
        assert!(!t.is_warmed_up());
    }
    t.update(8 * second + 48, 7);
    assert!(t.is_warmed_up());
    assert_eq!(t.fit().unwrap().n, 50);
    t.update(8 * second + 49, 7);
    assert!(t.is_warmed_up());
    assert_eq!(t.fit().unwrap().n, 50);
    t.reset();
    assert!(!t.is_warmed_up() && t.fit().is_none());
}
