//! Bounded buffer between audio capture and the send loop.
//!
//! The capture callback appends samples, the send loop takes whole chunks.
//! When the buffer is full the oldest samples go, so that the delay cannot
//! grow without limit. When more is queued than the catch-up mark, the send
//! loop sends without pausing.
//!
//! Samples are interleaved, as the bit patterns of 32-bit floats.

use crate::arith;
#[allow(unused_imports)]
use vstd::arithmetic::div_mod::*;
use vstd::prelude::*;

verus! {

/// Depth where none is given, in milliseconds.
pub const CAPTURE_BUFFER_DEFAULT_MS: usize = 200;

/// Smallest depth.
pub const CAPTURE_BUFFER_MIN_MS: usize = 40;

/// Largest depth.
pub const CAPTURE_BUFFER_MAX_MS: usize = 5_000;

/// What the buffer reports of itself.
#[derive(Debug, Default, Clone, Copy, PartialEq, Eq, Structural)]
pub struct CaptureRingStats {
    /// Samples queued.
    pub samples: usize,
    /// The same in milliseconds.
    pub depth_ms: u64,
    /// The most that was ever queued, in milliseconds.
    pub high_water_ms: u64,
    /// Samples lost because the buffer was full.
    pub overruns: u64,
    /// Samples that fit.
    pub capacity_samples: usize,
}

/// The state of a capture buffer.
#[verifier::ext_equal]
pub struct CaptureModel {
    /// What is queued, oldest first.
    pub samples: Seq<u32>,
    pub capacity: nat,
    pub sample_rate: u32,
    pub channels: u8,
    /// Fill above which the send loop catches up.
    pub catch_up: nat,
    pub overruns: nat,
    /// The most that was ever queued.
    pub peak: nat,
}

/// The depth within its limits.
pub open spec fn clamped_ms(ms: nat) -> nat {
    if ms < CAPTURE_BUFFER_MIN_MS {
        CAPTURE_BUFFER_MIN_MS as nat
    } else if ms > CAPTURE_BUFFER_MAX_MS {
        CAPTURE_BUFFER_MAX_MS as nat
    } else {
        ms
    }
}

/// `n` as a machine word.
pub open spec fn word(n: nat) -> nat {
    n as usize as nat
}

/// Samples that fit: the depth in whole frames, at least four chunks.
pub open spec fn capacity_of(buffer_ms: nat, sample_rate: u32, channels: u8, chunk: nat) -> nat {
    arith::larger(
        arith::capped_product(
            word(clamped_ms(buffer_ms) * sample_rate as nat / 1000),
            channels as nat,
            usize::MAX as nat,
        ),
        arith::capped_product(chunk, 4, usize::MAX as nat),
    )
}

/// The catch-up mark: two chunks or 50 ms, whichever is more, but below the
/// capacity.
pub open spec fn catch_up_of(capacity: nat, sample_rate: u32, channels: u8, chunk: nat) -> nat {
    arith::smaller(
        arith::larger(
            arith::capped_product(chunk, 2, usize::MAX as nat),
            word(50 * sample_rate as nat * channels as nat / 1000),
        ),
        arith::larger(
            if capacity == 0 {
                0
            } else {
                (capacity - 1) as nat
            },
            chunk,
        ),
    )
}

/// `n` samples in milliseconds.
pub open spec fn ms_of(n: nat, sample_rate: u32, channels: u8) -> nat {
    n * 1000 / (sample_rate as nat * channels as nat)
}

/// `a + b`, or `u64::MAX` where that is less.
pub open spec fn capped_sum(a: nat, b: nat) -> nat {
    if a + b > u64::MAX {
        u64::MAX as nat
    } else {
        a + b
    }
}

impl CaptureModel {
    /// What every operation keeps; above all, the depth is capped.
    pub open spec fn wf(self) -> bool {
        &&& self.sample_rate > 0
        &&& self.channels > 0
        &&& self.samples.len() <= self.capacity
        &&& self.samples.len() <= self.peak
        &&& self.overruns <= u64::MAX
    }

    /// An empty buffer.
    pub open spec fn fresh(
        buffer_ms: nat,
        sample_rate: u32,
        channels: u8,
        chunk: nat,
    ) -> CaptureModel {
        let capacity = capacity_of(buffer_ms, sample_rate, channels, chunk);
        CaptureModel {
            samples: Seq::empty(),
            capacity,
            sample_rate,
            channels,
            catch_up: catch_up_of(capacity, sample_rate, channels, chunk),
            overruns: 0,
            peak: 0,
        }
    }

    /// How many samples are lost when `n` arrive: none where all fit, else the
    /// oldest, in whole frames, as many as are in the way. Where the new
    /// samples alone fill the buffer, all old ones go, and the first of the new.
    pub open spec fn lost(self, n: nat) -> nat {
        let total = self.samples.len() + n;
        if total <= self.capacity {
            0
        } else if n >= self.capacity {
            (total - self.capacity) as nat
        } else {
            let ch = self.channels as nat;
            arith::smaller(
                arith::ceil_div((total - self.capacity) as nat, ch) * ch,
                self.samples.len(),
            )
        }
    }

    /// `data` arrives.
    pub open spec fn pushed(self, data: Seq<u32>) -> CaptureModel {
        let lost = self.lost(data.len());
        let queue = (self.samples + data).skip(lost as int);
        CaptureModel {
            samples: queue,
            overruns: capped_sum(self.overruns, lost),
            peak: arith::larger(self.peak, queue.len()),
            ..self
        }
    }

    /// The oldest `n` samples are taken, if that many are queued.
    pub open spec fn taken(self, n: nat) -> (CaptureModel, Option<Seq<u32>>) {
        if self.samples.len() < n {
            (self, None)
        } else {
            (
                CaptureModel { samples: self.samples.skip(n as int), ..self },
                Some(self.samples.take(n as int)),
            )
        }
    }
}

/// A bounded buffer of captured samples.
pub struct CaptureRing {
    samples: Vec<u32>,
    capacity_samples: usize,
    sample_rate: u32,
    channels: u8,
    high_water_samples: usize,
    overruns: u64,
    high_water_samples_seen: usize,
}

impl View for CaptureRing {
    type V = CaptureModel;

    closed spec fn view(&self) -> CaptureModel {
        CaptureModel {
            samples: self.samples@,
            capacity: self.capacity_samples as nat,
            sample_rate: self.sample_rate,
            channels: self.channels,
            catch_up: self.high_water_samples as nat,
            overruns: self.overruns as nat,
            peak: self.high_water_samples_seen as nat,
        }
    }
}

impl CaptureRing {
    /// A buffer for `buffer_ms` of audio, taken in chunks of `chunk_samples`.
    pub fn new(buffer_ms: usize, sample_rate: u32, channels: u8, chunk_samples: usize) -> (r:
        CaptureRing)
        requires
            sample_rate > 0,
            channels > 0,
            chunk_samples > 0,
        ensures
            r@.wf(),
            r@ == CaptureModel::fresh(
                buffer_ms as nat,
                sample_rate,
                channels,
                chunk_samples as nat,
            ),
    {
        let ms: usize = if buffer_ms < CAPTURE_BUFFER_MIN_MS {
            CAPTURE_BUFFER_MIN_MS
        } else if buffer_ms > CAPTURE_BUFFER_MAX_MS {
            CAPTURE_BUFFER_MAX_MS
        } else {
            buffer_ms
        };
        assert(ms * sample_rate <= 5000 * 0xffff_ffff) by (nonlinear_arith)
            requires
                ms <= 5000,
                sample_rate <= 0xffff_ffff,
        ;
        assert(50 * sample_rate * channels <= 50 * 0xffff_ffff * 255) by (nonlinear_arith)
            requires
                sample_rate <= 0xffff_ffff,
                channels <= 255,
        ;
        let frames: u64 = ms as u64 * sample_rate as u64 / 1000;
        let capacity_samples: usize = arith::max_usize(
            arith::saturating_product(frames as usize, channels as usize),
            arith::saturating_product(chunk_samples, 4),
        );
        let fifty_ms: u64 = 50 * sample_rate as u64 * channels as u64 / 1000;
        let high_water_samples: usize = arith::min_usize(
            arith::max_usize(arith::saturating_product(chunk_samples, 2), fifty_ms as usize),
            arith::max_usize(capacity_samples.saturating_sub(1), chunk_samples),
        );
        CaptureRing {
            samples: Vec::with_capacity(capacity_samples),
            capacity_samples,
            sample_rate,
            channels,
            high_water_samples,
            overruns: 0,
            high_water_samples_seen: 0,
        }
    }

    /// Appends captured samples. What does not fit pushes the oldest out.
    pub fn push(&mut self, data: &[u32])
        requires
            old(self)@.wf(),
            old(self)@.samples.len() + data@.len() <= usize::MAX,
        ensures
            final(self)@.wf(),
            final(self)@ == old(self)@.pushed(data@),
    {
        let need: usize = data.len();
        let have: usize = self.samples.len();
        if have + need <= self.capacity_samples {
            self.samples.extend_from_slice(data);
        } else if need >= self.capacity_samples {
            let start: usize = need - self.capacity_samples;
            self.overruns = self.overruns.saturating_add((have + start) as u64);
            self.samples.clear();
            self.samples.extend_from_slice(&data[start..need]);
        } else {
            let overflow: usize = have + need - self.capacity_samples;
            let ch: usize = self.channels as usize;
            let frames: usize = arith::div_ceil(overflow, ch);
            let drop: usize = arith::min_usize(arith::saturating_product(frames, ch), have);
            proof {
                arith::lemma_ceil_div_covers(overflow as nat, ch as nat);
            }
            self.overruns = self.overruns.saturating_add(drop as u64);
            let mut rest: Vec<u32> = self.samples.split_off(drop);
            rest.extend_from_slice(data);
            self.samples = rest;
        }
        if self.samples.len() > self.high_water_samples_seen {
            self.high_water_samples_seen = self.samples.len();
        }
        proof {
            law_depth_is_capped(old(self)@, data@);
        }
        assert(self@.samples =~= old(self)@.pushed(data@).samples);
    }

    /// Takes the oldest `chunk_samples` samples, if that many are queued.
    pub fn pop_chunk(&mut self, chunk_samples: usize) -> (r: Option<Vec<u32>>)
        requires
            old(self)@.wf(),
        ensures
            final(self)@.wf(),
            match r {
                None => old(self)@.samples.len() < chunk_samples && final(self)@ == old(self)@,
                Some(chunk) => {
                    &&& old(self)@.samples.len() >= chunk_samples
                    &&& chunk@ == old(self)@.samples.take(chunk_samples as int)
                    &&& final(self)@ == (CaptureModel {
                        samples: old(self)@.samples.skip(chunk_samples as int),
                        ..old(self)@
                    })
                },
            },
            (
                final(self)@,
                match r {
                    Some(chunk) => Some(chunk@),
                    None => None,
                },
            ) == old(self)@.taken(chunk_samples as nat),
    {
        if self.samples.len() < chunk_samples {
            return None;
        }
        let mut chunk: Vec<u32> = self.samples.split_off(chunk_samples);
        core::mem::swap(&mut chunk, &mut self.samples);
        assert(chunk@ =~= old(self)@.samples.take(chunk_samples as int));
        assert(self.samples@ =~= old(self)@.samples.skip(chunk_samples as int));
        Some(chunk)
    }

    /// Throws away what is queued.
    pub fn clear(&mut self)
        requires
            old(self)@.wf(),
        ensures
            final(self)@.wf(),
            final(self)@ == (CaptureModel { samples: Seq::empty(), ..old(self)@ }),
    {
        self.samples.clear();
    }

    /// Samples queued.
    pub fn len(&self) -> (r: usize)
        ensures
            r == self@.samples.len(),
    {
        self.samples.len()
    }

    pub fn is_empty(&self) -> (r: bool)
        ensures
            r == (self@.samples.len() == 0),
    {
        self.samples.len() == 0
    }

    /// Whether the send loop should send without pausing.
    pub fn should_catch_up(&self) -> (r: bool)
        ensures
            r == (self@.samples.len() > self@.catch_up),
    {
        self.samples.len() > self.high_water_samples
    }

    /// Samples that fit.
    pub fn capacity_samples(&self) -> (r: usize)
        ensures
            r == self@.capacity,
    {
        self.capacity_samples
    }

    /// The catch-up mark.
    pub fn high_water_samples(&self) -> (r: usize)
        ensures
            r == self@.catch_up,
    {
        self.high_water_samples
    }

    fn samples_to_ms(&self, n: usize) -> (r: u64)
        requires
            self@.wf(),
            n * 1000 <= u64::MAX,
        ensures
            r == ms_of(n as nat, self@.sample_rate, self@.channels),
    {
        proof {
            let rate = self.sample_rate as nat;
            let ch = self.channels as nat;
            assert(0 < rate * ch <= 0xffff_ffff * 255) by (nonlinear_arith)
                requires
                    0 < rate <= 0xffff_ffff,
                    0 < ch <= 255,
            ;
        }
        (n as u64 * 1000) / (self.sample_rate as u64 * self.channels as u64)
    }

    /// The state in numbers.
    pub fn stats(&self) -> (r: CaptureRingStats)
        requires
            self@.wf(),
            self@.peak * 1000 <= u64::MAX,
        ensures
            r.samples == self@.samples.len(),
            r.depth_ms == ms_of(self@.samples.len(), self@.sample_rate, self@.channels),
            r.high_water_ms == ms_of(self@.peak, self@.sample_rate, self@.channels),
            r.overruns == self@.overruns,
            r.capacity_samples == self@.capacity,
    {
        CaptureRingStats {
            samples: self.samples.len(),
            depth_ms: self.samples_to_ms(self.samples.len()),
            high_water_ms: self.samples_to_ms(self.high_water_samples_seen),
            overruns: self.overruns,
            capacity_samples: self.capacity_samples,
        }
    }
}

/// The depth is capped: whatever arrives, whole frames or not, no more is
/// queued afterwards than fits. The peak never falls, and every sample lost is
/// counted.
pub proof fn law_depth_is_capped(s: CaptureModel, data: Seq<u32>)
    requires
        s.wf(),
    ensures
        ({
            let t = s.pushed(data);
            &&& t.wf()
            &&& t.capacity == s.capacity
            &&& t.samples.len() <= s.capacity
            &&& t.peak >= s.peak
            &&& t.samples.len() + s.lost(data.len()) == s.samples.len() + data.len()
            &&& t.overruns == capped_sum(s.overruns, s.lost(data.len()))
        }),
{
    let total = s.samples.len() + data.len();
    if total > s.capacity {
        arith::lemma_ceil_div_covers((total - s.capacity) as nat, s.channels as nat);
    }
}

/// The newest samples survive: whatever arrives ends the queue, or is cut to
/// the capacity where it is larger than that.
pub proof fn law_newest_survive(s: CaptureModel, data: Seq<u32>)
    requires
        s.wf(),
    ensures
        ({
            let q = s.pushed(data).samples;
            if data.len() <= s.capacity {
                q.len() >= data.len() && q.skip(q.len() - data.len()) == data
            } else {
                q == data.skip(data.len() - s.capacity)
            }
        }),
{
    law_depth_is_capped(s, data);
    let q = s.pushed(data).samples;
    if data.len() <= s.capacity {
        assert(q.skip(q.len() - data.len()) =~= data);
    } else {
        assert(q =~= data.skip(data.len() - s.capacity));
    }
}

/// In whole frames, the queue after a push is the newest part, as much as
/// fits, of what was there and what arrived: only whole frames are lost, and
/// the channels keep their places.
pub proof fn law_whole_frames_stay_aligned(s: CaptureModel, data: Seq<u32>)
    requires
        s.wf(),
        s.capacity % (s.channels as nat) == 0,
        s.samples.len() % (s.channels as nat) == 0,
        data.len() % (s.channels as nat) == 0,
    ensures
        ({
            let t = s.pushed(data);
            let all = s.samples + data;
            let kept = arith::smaller(all.len(), s.capacity);
            &&& t.samples == all.skip(all.len() - kept)
            &&& t.samples.len() % (s.channels as nat) == 0
            &&& s.lost(data.len()) % (s.channels as nat) == 0
            &&& t.overruns == capped_sum(s.overruns, (all.len() - kept) as nat)
        }),
{
    let ch = s.channels as nat;
    let all = s.samples + data;
    lemma_small_mod(0, ch);
    lemma_add_mod_noop(s.samples.len() as int, data.len() as int, ch as int);
    if all.len() > s.capacity {
        let overflow = (all.len() - s.capacity) as nat;
        lemma_sub_mod_noop(all.len() as int, s.capacity as int, ch as int);
        assert(overflow % ch == 0);
        assert(overflow / ch * ch == overflow) by (nonlinear_arith)
            requires
                ch > 0,
                overflow % ch == 0,
        ;
        assert(s.lost(data.len()) == overflow);
    }
}

/// What went in comes out again, in order: a push that fits, followed by
/// taking everything, gives the queue and then the new samples.
pub proof fn law_push_then_pop(s: CaptureModel, data: Seq<u32>)
    requires
        s.wf(),
        s.samples.len() + data.len() <= s.capacity,
    ensures
        s.pushed(data).samples == s.samples + data,
        s.pushed(data).overruns == s.overruns,
{
    assert((s.samples + data).skip(0) =~= s.samples + data);
}

/// The capacity holds whole frames where the chunk does, as long as four
/// chunks, and the depth in samples, fit a machine word.
pub proof fn law_capacity_is_whole_frames(
    buffer_ms: nat,
    sample_rate: u32,
    channels: u8,
    chunk: nat,
)
    requires
        channels > 0,
        chunk % (channels as nat) == 0,
        chunk * 4 <= usize::MAX,
        word(clamped_ms(buffer_ms) * sample_rate as nat / 1000) * channels as nat <= usize::MAX,
    ensures
        capacity_of(buffer_ms, sample_rate, channels, chunk) % (channels as nat) == 0,
        capacity_of(buffer_ms, sample_rate, channels, chunk) >= 4 * chunk,
{
    let ch = channels as nat;
    let frames = word(clamped_ms(buffer_ms) * sample_rate as nat / 1000);
    assert((frames * ch) % ch == 0) by (nonlinear_arith)
        requires
            ch > 0,
    ;
    lemma_small_mod(0, ch);
    lemma_mul_mod_noop_left(chunk as int, 4, ch as int);
}

/// The capacity is the depth, taken from 40 ms to 5 s, in whole frames, or four
/// chunks where these are more. The catch-up mark is two chunks, or 50 ms where
/// these are more, but stays below the capacity. A new buffer holds nothing.
pub proof fn law_buffer_is_sized_by_time(
    buffer_ms: nat,
    sample_rate: u32,
    channels: u8,
    chunk: nat,
    frames: nat,
    fifty: nat,
)
    requires
        channels > 0,
        chunk > 0,
        4 * chunk <= usize::MAX,
        ({
            let ms: nat = if buffer_ms < 40 {
                40
            } else if buffer_ms > 5000 {
                5000
            } else {
                buffer_ms
            };
            frames * 1000 <= ms * (sample_rate as nat) < (frames + 1) * 1000
        }),
        frames * channels as nat <= usize::MAX,
        fifty * 1000 <= 50 * sample_rate as nat * (channels as nat) < (fifty + 1) * 1000,
        fifty <= usize::MAX,
    ensures
        ({
            let m = CaptureModel::fresh(buffer_ms, sample_rate, channels, chunk);
            let depth = frames * channels as nat;
            let mark: nat = if 2 * chunk > fifty {
                2 * chunk
            } else {
                fifty
            };
            &&& m.capacity == if depth > 4 * chunk {
                depth
            } else {
                4 * chunk
            }
            &&& m.catch_up == if mark < m.capacity {
                mark
            } else {
                (m.capacity - 1) as nat
            }
            &&& m.samples.len() == 0 && m.overruns == 0 && m.peak == 0
            &&& m.sample_rate == sample_rate && m.channels == channels
        }),
{
    let c = channels as nat;
    assert(frames <= frames * c) by (nonlinear_arith)
        requires
            c > 0,
    ;
}

/// A fill in milliseconds is rounded down.
pub proof fn law_fill_in_milliseconds(n: nat, sample_rate: u32, channels: u8)
    requires
        sample_rate > 0,
        channels > 0,
    ensures
        ({
            let per_second = sample_rate as nat * channels as nat;
            let ms = ms_of(n, sample_rate, channels);
            ms * per_second <= n * 1000 < (ms + 1) * per_second
        }),
{
    let d = sample_rate as nat * channels as nat;
    let x = n * 1000;
    assert(d > 0) by (nonlinear_arith)
        requires
            d == sample_rate as nat * channels as nat,
            sample_rate > 0,
            channels > 0,
    ;
    vstd::arithmetic::div_mod::lemma_fundamental_div_mod(x as int, d as int);
    let q = ms_of(n, sample_rate, channels);
    assert(q * d <= x && x < (q + 1) * d) by (nonlinear_arith)
        requires
            x == d * q + x % d,
            0 <= x % d < d,
    ;
}

/// No more is lost than has to be: what does not fit, rounded up to whole frames as
/// far as old samples are there to go. It is counted as long as it can be, and the
/// peak is the most that was ever queued.
pub proof fn law_no_more_is_lost_than_needed(s: CaptureModel, data: Seq<u32>)
    requires
        s.wf(),
    ensures
        ({
            let t = s.pushed(data);
            let lost = s.samples.len() + data.len() - t.samples.len();
            let excess = s.samples.len() + data.len() - s.capacity;
            &&& excess <= 0 ==> lost == 0
            &&& excess > 0 ==> excess <= lost < excess + s.channels
            &&& 0 < lost < s.samples.len() ==> lost % (s.channels as int) == 0
            &&& t.samples == (s.samples + data).skip(lost)
            &&& s.overruns + lost <= u64::MAX ==> t.overruns == s.overruns + lost
            &&& s.overruns + lost > u64::MAX ==> t.overruns == u64::MAX
            &&& t.peak == if t.samples.len() > s.peak {
                t.samples.len()
            } else {
                s.peak
            }
        }),
{
    let n = data.len();
    let total = s.samples.len() + n;
    let ch = s.channels as nat;
    if total > s.capacity && n < s.capacity {
        let e = (total - s.capacity) as nat;
        arith::law_bounds_and_rounding(e, ch, 0);
        let c = arith::ceil_div(e, ch);
        assert(c * ch < e + ch) by (nonlinear_arith)
            requires
                (c - 1) * ch < e,
        ;
        vstd::arithmetic::div_mod::lemma_mod_multiples_basic(c as int, ch as int);
    } else if total > s.capacity {
        assert(s.lost(n) == total - s.capacity);
    }
}

/// The chunks of `n` samples that are taken one after the other, at most `k`, and
/// what is left.
pub open spec fn chunks_taken(s: CaptureModel, n: nat, k: nat) -> (CaptureModel, Seq<Seq<u32>>)
    decreases k,
{
    if k == 0 {
        (s, Seq::empty())
    } else {
        let (before, chunks) = chunks_taken(s, n, (k - 1) as nat);
        match before.taken(n) {
            (after, Some(chunk)) => (after, chunks.push(chunk)),
            (after, None) => (after, chunks),
        }
    }
}

/// Captured audio is sent in its order and without a gap: chunk by chunk the queue
/// comes out from its oldest sample on, and what was not taken stays.
pub proof fn law_chunks_come_out_in_order(s: CaptureModel, n: nat, k: nat)
    requires
        k * n <= s.samples.len(),
    ensures
        ({
            let (t, chunks) = chunks_taken(s, n, k);
            &&& chunks.len() == k
            &&& forall|i: int| 0 <= i < k ==> (#[trigger] chunks[i]).len() == n
            &&& chunks.flatten() == s.samples.take((k * n) as int)
            &&& t == (CaptureModel { samples: s.samples.skip((k * n) as int), ..s })
            &&& (s.samples.len() - k * n < n ==> t.taken(n) == (t, None::<Seq<u32>>))
        }),
    decreases k,
{
    let (t, chunks) = chunks_taken(s, n, k);
    if k > 0 {
        let j = (k - 1) as nat;
        assert(k * n == j * n + n) by (nonlinear_arith)
            requires
                k == j + 1,
        ;
        law_chunks_come_out_in_order(s, n, j);
        let (before, earlier) = chunks_taken(s, n, j);
        let chunk = before.samples.take(n as int);
        earlier.lemma_flatten_push(chunk);
        assert(s.samples.take((j * n) as int) + chunk =~= s.samples.take((k * n) as int));
        assert(t.samples =~= s.samples.skip((k * n) as int));
        assert(chunks == earlier.push(chunk));
    } else {
        assert(0 * n == 0) by (nonlinear_arith);
        assert(chunks.flatten() =~= Seq::<u32>::empty());
        assert(s.samples.take(0) =~= Seq::<u32>::empty());
        assert(s.samples.skip(0) =~= s.samples);
    }
}

} // verus!
