//! Watches how the fill of the receive buffer drifts.
//!
//! The sender's and the receiver's clocks never agree exactly. Over minutes
//! the receive buffer fills up or runs dry, unless playback is sped up or
//! slowed down a little. The tracker keeps the fills of the last eight
//! seconds and adds up what a straight-line fit through them needs. All sums
//! are exact: times are whole nanoseconds, fills whole samples.
//!
//! With `n` fills `q` at times `t`, the slope of the fit is `rise / spread`,
//! where `rise` is `n * sum(t * q) - sum(t) * sum(q)` and `spread` is
//! `n * sum(t * t) - sum(t) * sum(t)`.

use std::collections::VecDeque;
use vstd::prelude::*;

verus! {

/// How far back fills are kept.
pub const WINDOW_NS: u64 = 8_000_000_000;

/// Fills needed before the fit means anything.
pub const MIN_SAMPLES: usize = 50;

/// The most fills that the sums have room for.
pub const MAX_SAMPLES: usize = 0x8000_0000;

/// The fill of the receive buffer at one moment.
#[derive(Debug, Clone, Copy, PartialEq, Eq, Structural)]
pub struct Sample {
    /// When, in nanoseconds.
    pub t_ns: u64,
    /// How many interleaved samples were queued.
    pub queued: usize,
}

/// The state of a tracker.
#[verifier::ext_equal]
pub struct DriftModel {
    pub nominal_rate: u32,
    /// The wanted fill, in interleaved samples.
    pub target: usize,
    pub channels: u8,
    /// The fills kept, oldest first.
    pub samples: Seq<Sample>,
}

/// `s` without the leading fills from before `cutoff`.
pub open spec fn since(s: Seq<Sample>, cutoff: int) -> Seq<Sample>
    decreases s.len(),
{
    if s.len() > 0 && s[0].t_ns < cutoff {
        since(s.drop_first(), cutoff)
    } else {
        s
    }
}

impl DriftModel {
    /// Times do not run backwards, and no fill is older than the window.
    pub open spec fn wf(self) -> bool {
        &&& self.channels > 0
        &&& forall|i: int, j: int|
            0 <= i <= j < self.samples.len() ==> (#[trigger] self.samples[i]).t_ns <= (
            #[trigger] self.samples[j]).t_ns
        &&& self.samples.len() > 0 ==> self.samples.last().t_ns - self.samples[0].t_ns <= WINDOW_NS
        &&& self.samples.len() <= MAX_SAMPLES
    }

    /// A tracker that has seen nothing. No channels count as one.
    pub open spec fn fresh(nominal_rate: u32, target: usize, channels: u8) -> DriftModel {
        DriftModel {
            nominal_rate,
            target,
            channels: if channels == 0 {
                1
            } else {
                channels
            },
            samples: Seq::empty(),
        }
    }

    /// One more fill; those that the window has passed are dropped.
    pub open spec fn updated(self, now_ns: u64, queued: usize) -> DriftModel {
        DriftModel {
            samples: since(self.samples.push(Sample { t_ns: now_ns, queued }), now_ns - WINDOW_NS),
            ..self
        }
    }

    /// Everything seen is forgotten.
    pub open spec fn cleared(self) -> DriftModel {
        DriftModel { samples: Seq::empty(), ..self }
    }

    /// Enough fills have been seen.
    pub open spec fn warm(self) -> bool {
        self.samples.len() >= MIN_SAMPLES
    }
}

/// Sum of the times, counted from `a`.
pub open spec fn sum_t(s: Seq<Sample>, a: int) -> int
    decreases s.len(),
{
    if s.len() == 0 {
        0
    } else {
        sum_t(s.drop_last(), a) + (s.last().t_ns - a)
    }
}

/// Sum of the fills.
pub open spec fn sum_q(s: Seq<Sample>) -> int
    decreases s.len(),
{
    if s.len() == 0 {
        0
    } else {
        sum_q(s.drop_last()) + s.last().queued
    }
}

/// Sum of the squared times, counted from `a`.
pub open spec fn sum_tt(s: Seq<Sample>, a: int) -> int
    decreases s.len(),
{
    if s.len() == 0 {
        0
    } else {
        sum_tt(s.drop_last(), a) + (s.last().t_ns - a) * (s.last().t_ns - a)
    }
}

/// Sum of the products of time, counted from `a`, and fill.
pub open spec fn sum_tq(s: Seq<Sample>, a: int) -> int
    decreases s.len(),
{
    if s.len() == 0 {
        0
    } else {
        sum_tq(s.drop_last(), a) + (s.last().t_ns - a) * s.last().queued
    }
}

/// The numerator of the slope.
pub open spec fn rise(s: Seq<Sample>, a: int) -> int {
    s.len() * sum_tq(s, a) - sum_t(s, a) * sum_q(s)
}

/// The denominator of the slope.
pub open spec fn spread(s: Seq<Sample>, a: int) -> int {
    s.len() * sum_tt(s, a) - sum_t(s, a) * sum_t(s, a)
}

/// What a straight-line fit needs to know. Times count from the oldest fill
/// kept.
#[derive(Debug, Clone, Copy, PartialEq, Eq, Structural)]
pub struct Fit {
    /// How many fills.
    pub n: u128,
    pub sum_t: u128,
    pub sum_q: u128,
    pub sum_tt: u128,
    pub sum_tq: u128,
    /// The latest fill.
    pub latest: usize,
    /// The wanted fill.
    pub target: usize,
    pub channels: u8,
    pub nominal_rate: u32,
}

/// `f` holds the sums of the fit through the fills of `m`.
pub open spec fn fit_of(m: DriftModel, f: Fit) -> bool {
    let s = m.samples;
    let a = s[0].t_ns as int;
    &&& f.n == s.len()
    &&& f.sum_t == sum_t(s, a)
    &&& f.sum_q == sum_q(s)
    &&& f.sum_tt == sum_tt(s, a)
    &&& f.sum_tq == sum_tq(s, a)
    &&& f.latest == s.last().queued
    &&& f.target == m.target
    &&& f.channels == m.channels
    &&& f.nominal_rate == m.nominal_rate
}

/// Tracks the fill of the receive buffer.
pub struct ClockDriftTracker {
    samples: VecDeque<Sample>,
    nominal_rate: u32,
    target: usize,
    channels: u8,
}

impl View for ClockDriftTracker {
    type V = DriftModel;

    closed spec fn view(&self) -> DriftModel {
        DriftModel {
            nominal_rate: self.nominal_rate,
            target: self.target,
            channels: self.channels,
            samples: self.samples@,
        }
    }
}

impl ClockDriftTracker {
    /// A tracker for a stream of the given nominal rate; `target_frames` is
    /// the wanted fill in interleaved samples.
    pub fn new(nominal_rate: u32, target_frames: usize, channels: u8) -> (r: ClockDriftTracker)
        ensures
            r@.wf(),
            r@ == DriftModel::fresh(nominal_rate, target_frames, channels),
    {
        let r: ClockDriftTracker = ClockDriftTracker {
            samples: VecDeque::new(),
            nominal_rate,
            target: target_frames,
            channels: if channels == 0 {
                1
            } else {
                channels
            },
        };
        assert(r@.samples =~= Seq::empty());
        r
    }

    /// Takes in the fill at the time `now_ns`.
    pub fn update(&mut self, now_ns: u64, queued_samples: usize)
        requires
            old(self)@.wf(),
            old(self)@.samples.len() > 0 ==> old(self)@.samples.last().t_ns <= now_ns,
            old(self)@.samples.len() < MAX_SAMPLES,
        ensures
            final(self)@.wf(),
            final(self)@ == old(self)@.updated(now_ns, queued_samples),
    {
        let ghost s = self@;
        let ghost cutoff: int = now_ns - WINDOW_NS;
        self.samples.push_back(Sample { t_ns: now_ns, queued: queued_samples });
        let ghost all = self.samples@;
        assert(all == s.samples.push(Sample { t_ns: now_ns, queued: queued_samples }));
        while self.samples.len() > 0 && now_ns - self.samples[0].t_ns > WINDOW_NS
            invariant
                0 < self.samples@.len() <= all.len() <= MAX_SAMPLES,
                self.nominal_rate == s.nominal_rate,
                self.target == s.target,
                self.channels == s.channels,
                self.samples@.last().t_ns == now_ns,
                forall|i: int, j: int|
                    0 <= i <= j < self.samples@.len() ==> (#[trigger] self.samples@[i]).t_ns <= (
                    #[trigger] self.samples@[j]).t_ns,
                since(all, cutoff) == since(self.samples@, cutoff),
                cutoff == now_ns - WINDOW_NS,
            decreases self.samples@.len(),
        {
            let ghost before = self.samples@;
            let _ = self.samples.pop_front();
            assert(self.samples@ =~= before.drop_first());
        }
    }

    /// Whether enough fills have been seen for a correction.
    pub fn is_warmed_up(&self) -> (r: bool)
        ensures
            r == self@.warm(),
    {
        self.samples.len() >= MIN_SAMPLES
    }

    /// Forgets everything seen. To be called when the fill has jumped for
    /// reasons other than drift.
    pub fn reset(&mut self)
        requires
            old(self)@.wf(),
        ensures
            final(self)@.wf(),
            final(self)@ == old(self)@.cleared(),
    {
        self.samples.clear();
        assert(self@.samples =~= Seq::empty());
    }

    /// The sums of the fit, once enough fills have been seen.
    pub fn fit(&self) -> (r: Option<Fit>)
        requires
            self@.wf(),
        ensures
            r is Some <==> self@.warm(),
            r matches Some(f) ==> fit_of(self@, f),
    {
        let n: usize = self.samples.len();
        if n < MIN_SAMPLES {
            return None;
        }
        let a: u64 = self.samples[0].t_ns;
        let mut st: u128 = 0;
        let mut sq: u128 = 0;
        let mut stt: u128 = 0;
        let mut stq: u128 = 0;
        let mut i: usize = 0;
        let ghost s = self@.samples;
        while i < n
            invariant
                i <= n == self.samples@.len() <= MAX_SAMPLES,
                s == self.samples@,
                self@.wf(),
                self@.samples == s,
                n > 0 ==> a == s[0].t_ns,
                st == sum_t(s.take(i as int), a as int),
                sq == sum_q(s.take(i as int)),
                stt == sum_tt(s.take(i as int), a as int),
                stq == sum_tq(s.take(i as int), a as int),
                st <= i * 8_000_000_000,
                sq <= i * 0xffff_ffff_ffff_ffff,
                stt <= i * 64_000_000_000_000_000_000,
                stq <= i * 147_573_952_589_676_412_920_000_000_000,
            decreases n - i,
        {
            let x: Sample = self.samples[i];
            assert(x == s[i as int]);
            assert(s[0].t_ns <= s[i as int].t_ns <= s.last().t_ns);
            let t: u128 = (x.t_ns - a) as u128;
            let q: u128 = x.queued as u128;
            proof {
                assert(s.take(i + 1).drop_last() =~= s.take(i as int));
                assert(s.take(i + 1).last() == s[i as int]);
                assert(t * t <= 64_000_000_000_000_000_000) by (nonlinear_arith)
                    requires
                        t <= 8_000_000_000,
                ;
                assert(t * q <= 147_573_952_589_676_412_920_000_000_000) by (nonlinear_arith)
                    requires
                        t <= 8_000_000_000,
                        q <= 0xffff_ffff_ffff_ffff,
                ;
            }
            st = st + t;
            sq = sq + q;
            stt = stt + t * t;
            stq = stq + t * q;
            i += 1;
        }
        assert(s.take(n as int) =~= s);
        Some(
            Fit {
                n: n as u128,
                sum_t: st,
                sum_q: sq,
                sum_tt: stt,
                sum_tq: stq,
                latest: self.samples[n - 1].queued,
                target: self.target,
                channels: self.channels,
                nominal_rate: self.nominal_rate,
            },
        )
    }
}

/// Dropping leading fills drops every fill from before the cutoff, where
/// times do not run backwards, and no other.
proof fn lemma_since(s: Seq<Sample>, cutoff: int)
    requires
        forall|i: int, j: int|
            0 <= i <= j < s.len() ==> (#[trigger] s[i]).t_ns <= (#[trigger] s[j]).t_ns,
    ensures
        since(s, cutoff).len() <= s.len(),
        since(s, cutoff) == s.skip(s.len() - since(s, cutoff).len()),
        forall|i: int| 0 <= i < since(s, cutoff).len() ==> (#[trigger] since(s, cutoff)[i]).t_ns >= cutoff,
        forall|i: int|
            0 <= i < s.len() - since(s, cutoff).len() ==> (#[trigger] s[i]).t_ns < cutoff,
    decreases s.len(),
{
    if s.len() > 0 && s[0].t_ns < cutoff {
        let rest = s.drop_first();
        lemma_since(rest, cutoff);
        let k = rest.len() - since(rest, cutoff).len();
        assert(rest.skip(k) =~= s.skip(k + 1));
        assert forall|i: int| 0 <= i < k + 1 implies (#[trigger] s[i]).t_ns < cutoff by {
            if i > 0 {
                assert(rest[i - 1] == s[i]);
            }
        }
    } else {
        assert(s.skip(0) =~= s);
        assert forall|i: int| 0 <= i < s.len() implies (#[trigger] s[i]).t_ns >= cutoff by {
            assert(s[0].t_ns <= s[i].t_ns);
        }
    }
}

/// After an update the tracker holds exactly the latest fills: those of the
/// last eight seconds, the new one among them.
pub proof fn law_window_holds_the_latest(s: DriftModel, now_ns: u64, queued: usize)
    requires
        s.wf(),
        s.samples.len() > 0 ==> s.samples.last().t_ns <= now_ns,
    ensures
        ({
            let all = s.samples.push(Sample { t_ns: now_ns, queued });
            let kept = s.updated(now_ns, queued).samples;
            let dropped = all.len() - kept.len();
            &&& kept.len() > 0 && kept.last() == (Sample { t_ns: now_ns, queued })
            &&& dropped >= 0 && kept == all.skip(dropped)
            &&& forall|i: int|
                0 <= i < kept.len() ==> now_ns - (#[trigger] kept[i]).t_ns <= WINDOW_NS
            &&& forall|i: int| 0 <= i < dropped ==> now_ns - (#[trigger] all[i]).t_ns > WINDOW_NS
        }),
{
    let all = s.samples.push(Sample { t_ns: now_ns, queued });
    assert forall|i: int, j: int| 0 <= i <= j < all.len() implies (#[trigger] all[i]).t_ns <= (
    #[trigger] all[j]).t_ns by {
        if j == s.samples.len() && i < j {
            assert(s.samples[i].t_ns <= s.samples.last().t_ns);
        }
    }
    lemma_since(all, now_ns - WINDOW_NS);
    let kept = since(all, now_ns - WINDOW_NS);
    if kept.len() == 0 {
        assert(all.last().t_ns < now_ns - WINDOW_NS);
    }
}

/// A tracker after a run of updates.
pub open spec fn after_updates(m: DriftModel, run: Seq<Sample>) -> DriftModel
    decreases run.len(),
{
    if run.len() == 0 {
        m
    } else {
        after_updates(m, run.drop_last()).updated(run.last().t_ns, run.last().queued)
    }
}

/// The times of a run do not run backwards.
pub open spec fn in_order(run: Seq<Sample>) -> bool {
    forall|i: int, j: int|
        0 <= i <= j < run.len() ==> (#[trigger] run[i]).t_ns <= (#[trigger] run[j]).t_ns
}

/// The updates of a run that are no older than the window when it ends.
pub open spec fn recent(run: Seq<Sample>) -> Seq<Sample> {
    run.filter(|x: Sample| x.t_ns >= run.last().t_ns - WINDOW_NS)
}

/// An earlier, smaller cutoff makes no difference to a later one.
proof fn lemma_since_twice(s: Seq<Sample>, x: Sample, c1: int, c2: int)
    requires
        c1 <= c2,
    ensures
        since(since(s, c1).push(x), c2) == since(s.push(x), c2),
    decreases s.len(),
{
    if s.len() > 0 && s[0].t_ns < c1 {
        let t = s.push(x);
        assert(t.drop_first() =~= s.drop_first().push(x));
        assert(t[0] == s[0]);
        lemma_since_twice(s.drop_first(), x, c1, c2);
    }
}

/// In a run in order, what is left behind the leading old fills is all that is
/// not old.
proof fn lemma_since_is_filter(s: Seq<Sample>, cutoff: int)
    requires
        in_order(s),
    ensures
        since(s, cutoff) == s.filter(|x: Sample| x.t_ns >= cutoff),
    decreases s.len(),
{
    let young = |x: Sample| x.t_ns >= cutoff;
    reveal(Seq::filter);
    if s.len() > 0 {
        let r = s.drop_last();
        assert(in_order(r)) by {
            assert forall|i: int, j: int| 0 <= i <= j < r.len() implies (#[trigger] r[i]).t_ns <= (
            #[trigger] r[j]).t_ns by {
                assert(s[i].t_ns <= s[j].t_ns);
            }
        }
        lemma_since_is_filter(r, cutoff);
        lemma_since(r, cutoff);
        lemma_since(s, cutoff);
        let x = s.last();
        let k = s.len() - since(s, cutoff).len();
        let l = r.len() - since(r, cutoff).len();
        if x.t_ns >= cutoff {
            lemma_since_push(r, x, cutoff);
            assert(r.push(x) =~= s);
        } else {
            if since(s, cutoff).len() > 0 {
                assert(since(s, cutoff)[0].t_ns >= cutoff);
                assert(since(s, cutoff)[0] == s[k]);
                assert(s[k].t_ns <= s[s.len() - 1].t_ns);
            }
            if since(r, cutoff).len() > 0 {
                assert(since(r, cutoff)[0].t_ns >= cutoff);
                assert(since(r, cutoff)[0] == r[l]);
                assert(s[l].t_ns <= s[s.len() - 1].t_ns);
            }
            assert(since(s, cutoff) =~= since(r, cutoff));
        }
    }
}

/// A fill that is not old stays at the end.
proof fn lemma_since_push(r: Seq<Sample>, x: Sample, cutoff: int)
    requires
        x.t_ns >= cutoff,
    ensures
        since(r.push(x), cutoff) == since(r, cutoff).push(x),
    decreases r.len(),
{
    let t = r.push(x);
    if r.len() > 0 {
        assert(t[0] == r[0]);
        if r[0].t_ns < cutoff {
            assert(t.drop_first() =~= r.drop_first().push(x));
            lemma_since_push(r.drop_first(), x, cutoff);
        }
    } else {
        assert(t[0] == x);
    }
}

/// A run of updates of a tracker that has seen nothing, new or reset, leaves the
/// updates of the last eight seconds, and the tracker is warmed up exactly where
/// these are at least fifty. Only then is there a fit, and so a correction.
pub proof fn law_warm_up(m: DriftModel, run: Seq<Sample>)
    requires
        m.samples.len() == 0,
        in_order(run),
    ensures
        after_updates(m, run) == (DriftModel { samples: recent(run), ..m }),
        after_updates(m, run).warm() <==> recent(run).len() >= 50,
{
    lemma_after_updates(m, run);
    if run.len() > 0 {
        lemma_since_is_filter(run, run.last().t_ns - WINDOW_NS);
    } else {
        reveal(Seq::filter);
        assert(m.samples =~= recent(run));
    }
}

proof fn lemma_after_updates(m: DriftModel, run: Seq<Sample>)
    requires
        m.samples.len() == 0,
        in_order(run),
    ensures
        run.len() == 0 ==> after_updates(m, run) == m,
        run.len() > 0 ==> after_updates(m, run) == (DriftModel {
            samples: since(run, run.last().t_ns - WINDOW_NS),
            ..m
        }),
    decreases run.len(),
{
    if run.len() > 0 {
        let r = run.drop_last();
        let x = run.last();
        assert(in_order(r)) by {
            assert forall|i: int, j: int| 0 <= i <= j < r.len() implies (#[trigger] r[i]).t_ns <= (
            #[trigger] r[j]).t_ns by {
                assert(run[i].t_ns <= run[j].t_ns);
            }
        }
        lemma_after_updates(m, r);
        assert(r.push(x) =~= run);
        assert(Sample { t_ns: x.t_ns, queued: x.queued } == x);
        if r.len() > 0 {
            assert(run[r.len() - 1].t_ns <= run[run.len() - 1].t_ns);
            lemma_since_twice(r, x, r.last().t_ns - WINDOW_NS, x.t_ns - WINDOW_NS);
        } else {
            assert(m.samples =~= r);
        }
    }
}

/// How the sums change when times count from another moment.
proof fn lemma_sums_shift(s: Seq<Sample>, a: int, b: int)
    ensures
        sum_t(s, b) == sum_t(s, a) + s.len() * (a - b),
        sum_tq(s, b) == sum_tq(s, a) + (a - b) * sum_q(s),
        sum_tt(s, b) == sum_tt(s, a) + 2 * (a - b) * sum_t(s, a) + s.len() * ((a - b) * (a - b)),
    decreases s.len(),
{
    let d = a - b;
    if s.len() == 0 {
        assert(s.len() * d == 0 && d * sum_q(s) == 0 && 2 * d * sum_t(s, a) == 0 && s.len() * (d
            * d) == 0) by (nonlinear_arith)
            requires
                s.len() == 0,
                sum_q(s) == 0,
                sum_t(s, a) == 0,
        ;
    } else {
        let r = s.drop_last();
        let n = r.len() as int;
        let t = s.last().t_ns - a;
        let q = s.last().queued as int;
        let st = sum_t(r, a);
        lemma_sums_shift(r, a, b);
        assert((n + 1) * d == n * d + d) by (nonlinear_arith);
        assert((t + d) * q == t * q + d * q) by (nonlinear_arith);
        assert(d * (sum_q(r) + q) == d * sum_q(r) + d * q) by (nonlinear_arith);
        assert((t + d) * (t + d) == t * t + 2 * d * t + d * d) by (nonlinear_arith);
        assert(2 * d * (st + t) == 2 * d * st + 2 * d * t) by (nonlinear_arith);
        assert((n + 1) * (d * d) == n * (d * d) + d * d) by (nonlinear_arith);
    }
}

/// The fit does not depend on the moment that times count from.
pub proof fn law_fit_ignores_the_origin(s: Seq<Sample>, a: int, b: int)
    ensures
        rise(s, a) == rise(s, b),
        spread(s, a) == spread(s, b),
{
    lemma_sums_shift(s, a, b);
    let d = a - b;
    let n = s.len() as int;
    let st = sum_t(s, a);
    let sq = sum_q(s);
    let stq = sum_tq(s, a);
    let stt = sum_tt(s, a);
    assert(n * (stq + d * sq) - (st + n * d) * sq == n * stq - st * sq) by (nonlinear_arith);
    assert(n * (stt + 2 * d * st + n * (d * d)) - (st + n * d) * (st + n * d) == n * stt - st * st)
        by (nonlinear_arith);
}

/// Fills on a straight line, `m` samples per nanosecond from `c` on at the
/// moment `a`, make sums that are on the line too.
proof fn lemma_line_sums(s: Seq<Sample>, a: int, m: int, c: int)
    requires
        forall|i: int| 0 <= i < s.len() ==> (#[trigger] s[i]).queued == m * (s[i].t_ns - a) + c,
    ensures
        sum_q(s) == m * sum_t(s, a) + s.len() * c,
        sum_tq(s, a) == m * sum_tt(s, a) + c * sum_t(s, a),
    decreases s.len(),
{
    if s.len() == 0 {
        assert(m * sum_t(s, a) == 0 && s.len() * c == 0 && m * sum_tt(s, a) == 0 && c * sum_t(s, a)
            == 0) by (nonlinear_arith)
            requires
                s.len() == 0,
                sum_t(s, a) == 0,
                sum_tt(s, a) == 0,
        ;
    } else {
        let r = s.drop_last();
        let n = r.len() as int;
        let t = s.last().t_ns - a;
        assert forall|i: int| 0 <= i < r.len() implies (#[trigger] r[i]).queued == m * (r[i].t_ns
            - a) + c by {
            assert(r[i] == s[i]);
        }
        lemma_line_sums(r, a, m, c);
        assert(s[s.len() - 1] == s.last());
        assert(m * (sum_t(r, a) + t) == m * sum_t(r, a) + m * t) by (nonlinear_arith);
        assert((n + 1) * c == n * c + c) by (nonlinear_arith);
        assert(t * (m * t + c) == m * (t * t) + c * t) by (nonlinear_arith);
        assert(m * (sum_tt(r, a) + t * t) == m * sum_tt(r, a) + m * (t * t)) by (nonlinear_arith);
        assert(c * (sum_t(r, a) + t) == c * sum_t(r, a) + c * t) by (nonlinear_arith);
    }
}

/// Where the fill changes at an even pace, that pace is the slope of the fit.
/// In particular a steady fill has no slope.
pub proof fn law_even_pace_is_the_slope(s: Seq<Sample>, a: int, m: int, c: int)
    requires
        forall|i: int| 0 <= i < s.len() ==> (#[trigger] s[i]).queued == m * (s[i].t_ns - a) + c,
    ensures
        rise(s, a) == m * spread(s, a),
{
    lemma_line_sums(s, a, m, c);
    let n = s.len() as int;
    let st = sum_t(s, a);
    let stt = sum_tt(s, a);
    assert(n * (m * stt + c * st) - st * (m * st + n * c) == m * (n * stt - st * st))
        by (nonlinear_arith);
}

/// `many` is what `one` is for a stream of `c` channels in place of one: the
/// same times, and `c` times the fills.
pub open spec fn interleaved(one: DriftModel, many: DriftModel, c: u8) -> bool {
    &&& one.channels == 1
    &&& many.channels == c
    &&& many.nominal_rate == one.nominal_rate
    &&& many.target == c * one.target
    &&& c_fold(one.samples, many.samples, c)
}

/// The same times, and `c` times the fills.
pub open spec fn c_fold(one: Seq<Sample>, many: Seq<Sample>, c: u8) -> bool {
    &&& many.len() == one.len()
    &&& forall|i: int| 0 <= i < one.len() ==> (#[trigger] many[i]).t_ns == one[i].t_ns
    &&& forall|i: int| 0 <= i < one.len() ==> (#[trigger] many[i]).queued == c * one[i].queued
}

proof fn lemma_since_c_fold(one: Seq<Sample>, many: Seq<Sample>, c: u8, cutoff: int)
    requires
        c_fold(one, many, c),
    ensures
        c_fold(since(one, cutoff), since(many, cutoff), c),
    decreases one.len(),
{
    if one.len() > 0 {
        assert(many[0].t_ns == one[0].t_ns);
        let a = one.drop_first();
        let b = many.drop_first();
        assert forall|i: int| 0 <= i < a.len() implies (#[trigger] b[i]).t_ns == a[i].t_ns
            && b[i].queued == c * a[i].queued by {
            assert(b[i] == many[i + 1] && a[i] == one[i + 1]);
        }
        lemma_since_c_fold(a, b, c, cutoff);
    }
}

proof fn lemma_sums_c_fold(one: Seq<Sample>, many: Seq<Sample>, c: u8, a: int)
    requires
        c_fold(one, many, c),
    ensures
        sum_t(many, a) == sum_t(one, a),
        sum_tt(many, a) == sum_tt(one, a),
        sum_q(many) == c * sum_q(one),
        sum_tq(many, a) == c * sum_tq(one, a),
    decreases one.len(),
{
    if one.len() > 0 {
        let x = one.drop_last();
        let y = many.drop_last();
        assert forall|i: int| 0 <= i < x.len() implies (#[trigger] y[i]).t_ns == x[i].t_ns
            && y[i].queued == c * x[i].queued by {
            assert(y[i] == many[i] && x[i] == one[i]);
        }
        lemma_sums_c_fold(x, y, c, a);
        assert(many[one.len() - 1].t_ns == one[one.len() - 1].t_ns);
        let t = one.last().t_ns - a;
        let q = one.last().queued as int;
        let sq = sum_q(x);
        let st = sum_tq(x, a);
        let k = c as int;
        assert(k * (sq + q) == k * sq + k * q && k * (st + t * q) == k * st + t * (k * q))
            by (nonlinear_arith);
    } else {
        assert(c * 0 == 0) by (nonlinear_arith);
    }
}

/// A stream of `c` channels drifts as one of a single channel does. Seen with
/// `c` times the fills and `c` times the target, every update keeps it so; the
/// trackers are warmed up at the same moment; and the fit is the same but for
/// the fills, of which everything is `c` times as much, the slope too.
pub proof fn law_channels_scale_the_fit(
    one: DriftModel,
    many: DriftModel,
    c: u8,
    now_ns: u64,
    queued: usize,
)
    requires
        interleaved(one, many, c),
        c > 0,
        c * queued <= usize::MAX,
    ensures
        interleaved(one.updated(now_ns, queued), many.updated(now_ns, (c * queued) as usize), c),
        one.warm() == many.warm(),
        forall|f: Fit, g: Fit| #[trigger]
            fit_of(one, f) && #[trigger] fit_of(many, g) && one.samples.len() > 0 ==> {
                &&& g.n == f.n
                &&& g.sum_t == f.sum_t
                &&& g.sum_tt == f.sum_tt
                &&& g.sum_q == c * f.sum_q
                &&& g.sum_tq == c * f.sum_tq
                &&& g.latest == c * f.latest
                &&& g.target == c * f.target
                &&& g.nominal_rate == f.nominal_rate
            },
        forall|a: int| #[trigger] rise(many.samples, a) == c * rise(one.samples, a),
        forall|a: int| #[trigger] spread(many.samples, a) == spread(one.samples, a),
{
    let x = one.samples.push(Sample { t_ns: now_ns, queued });
    let y = many.samples.push(Sample { t_ns: now_ns, queued: (c * queued) as usize });
    assert(c * queued >= 0) by (nonlinear_arith);
    assert forall|i: int| 0 <= i < x.len() implies (#[trigger] y[i]).t_ns == x[i].t_ns
        && y[i].queued == c * x[i].queued by {
        if i < one.samples.len() {
            assert(y[i] == many.samples[i] && x[i] == one.samples[i]);
        }
    }
    lemma_since_c_fold(x, y, c, now_ns - WINDOW_NS);
    if one.samples.len() > 0 {
        assert(many.samples[0].t_ns == one.samples[0].t_ns);
        assert(many.samples[one.samples.len() - 1].queued == c * one.samples.last().queued);
        lemma_sums_c_fold(one.samples, many.samples, c, one.samples[0].t_ns as int);
    }
    assert forall|a: int| #[trigger] rise(many.samples, a) == c * rise(one.samples, a) by {
        lemma_sums_c_fold(one.samples, many.samples, c, a);
        let n = one.samples.len() as int;
        let p = sum_tq(one.samples, a);
        let t = sum_t(one.samples, a);
        let q = sum_q(one.samples);
        let k = c as int;
        assert(n * (k * p) - t * (k * q) == k * (n * p - t * q)) by (nonlinear_arith);
    }
    assert forall|a: int| #[trigger] spread(many.samples, a) == spread(one.samples, a) by {
        lemma_sums_c_fold(one.samples, many.samples, c, a);
    }
}

/// The sums of a fit are sums over the fills that the tracker keeps, with the
/// times counted from the oldest; and the fit names how many they are, the latest
/// of them, and what the tracker was made with.
pub proof fn law_fit_adds_up_the_fills(m: DriftModel, f: Fit)
    requires
        m.samples.len() > 0,
        fit_of(m, f),
    ensures
        ({
            let t0 = m.samples[0].t_ns as int;
            let zero = 0int;
            &&& f.n == m.samples.len()
            &&& f.sum_t == m.samples.fold_left(zero, |a: int, x: Sample| a + (x.t_ns - t0))
            &&& f.sum_q == m.samples.fold_left(zero, |a: int, x: Sample| a + x.queued)
            &&& f.sum_tt == m.samples.fold_left(
                zero,
                |a: int, x: Sample| a + (x.t_ns - t0) * (x.t_ns - t0),
            )
            &&& f.sum_tq == m.samples.fold_left(
                zero,
                |a: int, x: Sample| a + (x.t_ns - t0) * x.queued,
            )
            &&& f.latest == m.samples[m.samples.len() - 1].queued
            &&& f.target == m.target
            &&& f.channels == m.channels
            &&& f.nominal_rate == m.nominal_rate
        }),
{
    lemma_sums_fold(m.samples, m.samples[0].t_ns as int);
}

proof fn lemma_sums_fold(s: Seq<Sample>, t0: int)
    ensures
        sum_t(s, t0) == s.fold_left(0int, |a: int, x: Sample| a + (x.t_ns - t0)),
        sum_q(s) == s.fold_left(0int, |a: int, x: Sample| a + x.queued),
        sum_tt(s, t0) == s.fold_left(
            0int,
            |a: int, x: Sample| a + (x.t_ns - t0) * (x.t_ns - t0),
        ),
        sum_tq(s, t0) == s.fold_left(0int, |a: int, x: Sample| a + (x.t_ns - t0) * x.queued),
    decreases s.len(),
{
    reveal(Seq::fold_left);
    if s.len() > 0 {
        lemma_sums_fold(s.drop_last(), t0);
    }
}

/// After an update a fit speaks of that update: its latest fill is the one that
/// was just seen. Target, channels and rate are those that the tracker was made
/// with, no channels counting as one; and forgetting leaves nothing to fit.
pub proof fn law_fit_follows_the_update(
    m: DriftModel,
    now_ns: u64,
    queued: usize,
    f: Fit,
    nominal_rate: u32,
    target: usize,
    channels: u8,
)
    requires
        m.wf(),
        m.samples.len() > 0 ==> m.samples.last().t_ns <= now_ns,
    ensures
        fit_of(m.updated(now_ns, queued), f) ==> f.latest == queued && f.target == m.target
            && f.channels == m.channels && f.nominal_rate == m.nominal_rate,
        m.updated(now_ns, queued).target == m.target,
        m.updated(now_ns, queued).channels == m.channels,
        m.updated(now_ns, queued).nominal_rate == m.nominal_rate,
        ({
            let fresh = DriftModel::fresh(nominal_rate, target, channels);
            &&& fresh.samples.len() == 0
            &&& fresh.target == target
            &&& fresh.nominal_rate == nominal_rate
            &&& channels > 0 ==> fresh.channels == channels
            &&& channels == 0 ==> fresh.channels == 1
        }),
        m.cleared().samples.len() == 0,
        m.cleared().target == m.target && m.cleared().channels == m.channels
            && m.cleared().nominal_rate == m.nominal_rate,
{
    law_window_holds_the_latest(m, now_ns, queued);
}

/// The window in numbers: of a run of updates the tracker keeps those of the last
/// eight seconds, and there is a fit from fifty of them on.
pub proof fn law_window_is_eight_seconds(
    nominal_rate: u32,
    target: usize,
    channels: u8,
    run: Seq<Sample>,
)
    requires
        in_order(run),
        run.len() > 0,
    ensures
        ({
            let m = after_updates(DriftModel::fresh(nominal_rate, target, channels), run);
            let end = run[run.len() - 1].t_ns;
            let kept = run.filter(|x: Sample| x.t_ns + 8_000_000_000 >= end);
            &&& m.samples == kept
            &&& m.warm() <==> kept.len() >= 50
        }),
{
    law_warm_up(DriftModel::fresh(nominal_rate, target, channels), run);
    let end = run[run.len() - 1].t_ns;
    assert((|x: Sample| x.t_ns + 8_000_000_000 >= end) =~= (|x: Sample|
        x.t_ns >= run.last().t_ns - WINDOW_NS));
}

/// The fit of a tracker that was just updated speaks of that update, and of what the
/// tracker was made with; there is one exactly from the fiftieth fill on.
pub proof fn law_fit_is_of_the_latest_fill(
    m: DriftModel,
    now_ns: u64,
    queued: usize,
    t: ClockDriftTracker,
    r: Option<Fit>,
)
    requires
        m.wf(),
        m.samples.len() > 0 ==> m.samples.last().t_ns <= now_ns,
        t@ == m.updated(now_ns, queued),
        call_ensures(ClockDriftTracker::fit, (&t,), r),
    ensures
        r is Some <==> t@.samples.len() >= 50,
        r matches Some(f) ==> f.latest == queued && f.n == t@.samples.len() && f.target == m.target
            && f.channels == m.channels && f.nominal_rate == m.nominal_rate,
{
    if let Some(f) = r {
        law_fit_follows_the_update(m, now_ns, queued, f, 0, 0, 0);
    }
}

} // verus!
