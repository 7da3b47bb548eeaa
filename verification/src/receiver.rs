//! The receiving side: datagrams in, audio out.
//!
//! A session starts with no stream. The first packet tells the sender's format
//! and sizes the reorder buffer; a packet of another format starts the stream
//! over. Playback asks for samples: where both formats are equal they come
//! straight from the reorder buffer, else they go through rate and channel
//! conversion. While playing, the fill of the reorder buffer is watched to
//! correct for the drift between the two clocks.
//!
//! Times are nanoseconds from any fixed moment.

use crate::arith;
use crate::audio_io::PlayerConfig;
use crate::buffer_budget;
use crate::buffer_budget::BufferError;
use crate::clock_drift;
use crate::clock_drift::{ClockDriftTracker, DriftModel, Fit, Sample, MAX_SAMPLES};
use crate::format_pipeline;
use crate::format_pipeline::{
    Blend, ChannelMixer, FormatPipeline, FormatStats, Mixed, MixedView, PipelineModel, ResamplerModel,
};
use crate::jitter;
use crate::jitter::{JitterBuffer, JitterModel, PushOutcome, Stats, Stored};
use crate::protocol;
use crate::protocol::{DecodeStats, Packet, PacketView, ProtocolError};
use vstd::prelude::*;

verus! {

/// How long the fill is left alone after a stream started: it swings until
/// playback has settled.
pub const DRIFT_SETTLE_NS: u64 = 3_000_000_000;

/// Runs of input that one request may pull through the conversion.
pub const MAX_PULLS: u32 = 8;

/// Slots of the reorder buffer where the settings do not allow for any number.
pub const FALLBACK_CAPACITY: usize = 32;

/// Depths of the reorder buffer, in milliseconds.
#[derive(Debug, Clone, Copy, PartialEq, Eq, Structural)]
pub struct RxSettings {
    /// What must be queued before playback starts.
    pub prebuffer_ms: usize,
    /// What can be queued.
    pub rx_buffer_ms: usize,
}

impl RxSettings {
    /// Interleaved samples to queue before playback starts.
    pub open spec fn target(self, rate: u32, channels: u8) -> nat {
        buffer_budget::samples_in(self.prebuffer_ms as nat, rate as nat, channels as nat)
    }

    /// Fill above which packets are skipped: twice the target or 100 ms above
    /// it, whichever is more, but no more than the depth; and in any case
    /// 50 ms above the target, or every packet would be skipped.
    pub open spec fn high_water(self, rate: u32, channels: u8) -> nat {
        arith::larger(
            arith::smaller(
                arith::larger(
                    2 * self.target(rate, channels),
                    buffer_budget::samples_in(
                        self.prebuffer_ms as nat + 100,
                        rate as nat,
                        channels as nat,
                    ),
                ),
                buffer_budget::samples_in(self.rx_buffer_ms as nat, rate as nat, channels as nat),
            ),
            self.target(rate, channels) + buffer_budget::samples_in(
                50,
                rate as nat,
                channels as nat,
            ),
        )
    }

    /// The numbers of samples fit a machine word.
    pub open spec fn fits(self, rate: u32, channels: u8) -> bool {
        (arith::larger(self.prebuffer_ms as nat, self.rx_buffer_ms as nat) + 100) * rate as nat
            * channels as nat <= usize::MAX
    }
}

/// Interleaved samples in `ms` milliseconds of audio.
fn samples_in(ms: usize, rate: u32, channels: u8, Ghost(limit): Ghost<nat>) -> (r: usize)
    requires
        ms <= limit,
        limit * rate as nat * channels as nat <= usize::MAX,
        channels > 0,
    ensures
        r == buffer_budget::samples_in(ms as nat, rate as nat, channels as nat),
        r <= usize::MAX / 1000,
{
    proof {
        let m = ms as nat;
        let f = rate as nat;
        let c = channels as nat;
        assert(m * f <= m * f * c && m * f * c <= limit * f * c) by (nonlinear_arith)
            requires
                m <= limit,
                c > 0,
        ;
    }
    ms * rate as usize * channels as usize / 1000
}

/// Samples of the reorder buffer for one stream format: the target and the
/// high-water mark.
pub fn queue_marks(settings: RxSettings, rate: u32, channels: u8) -> (r: (usize, usize))
    requires
        settings.fits(rate, channels),
        rate > 0,
        channels > 0,
    ensures
        r.0 == settings.target(rate, channels),
        r.1 == settings.high_water(rate, channels),
        r.0 <= usize::MAX / 1000,
{
    let ghost limit: nat = arith::larger(
        settings.prebuffer_ms as nat,
        settings.rx_buffer_ms as nat,
    ) + 100;
    proof {
        let f = rate as nat;
        let c = channels as nat;
        assert(limit <= limit * f * c) by (nonlinear_arith)
            requires
                f > 0,
                c > 0,
        ;
    }
    let target: usize = samples_in(settings.prebuffer_ms, rate, channels, Ghost(limit));
    let plus_100: usize = samples_in(settings.prebuffer_ms + 100, rate, channels, Ghost(limit));
    let depth: usize = samples_in(settings.rx_buffer_ms, rate, channels, Ghost(limit));
    let min_gap: usize = samples_in(50, rate, channels, Ghost(limit));
    let wanted: usize = arith::max_usize(arith::saturating_product(target, 2), plus_100);
    (target, arith::max_usize(arith::min_usize(wanted, depth), target + min_gap))
}

/// One stream, from the packet that started it on.
#[verifier::ext_equal]
pub struct StreamModel {
    pub jb: JitterModel,
    pub pipeline: PipelineModel,
    pub drift: DriftModel,
    pub rate: u32,
    pub channels: u8,
    /// Underruns and trims that the drift tracker has been told of.
    pub seen_underruns: u64,
    pub seen_trims: u64,
    /// When the stream started.
    pub created_ns: u64,
}

/// Where samples of the stream are found in the packet.
pub open spec fn samples_per_packet(p: PacketView) -> nat {
    p.payload.len() / 4
}

impl StreamModel {
    /// A stream in the format of the packet `p`.
    pub open spec fn fresh(
        settings: RxSettings,
        player: PlayerConfig,
        p: PacketView,
        capacity: nat,
        now_ns: u64,
    ) -> StreamModel {
        let target = arith::larger(settings.target(p.sample_rate, p.channels), 1) as usize;
        let high = arith::larger(settings.high_water(p.sample_rate, p.channels), 1) as usize;
        StreamModel {
            jb: JitterModel::fresh(samples_per_packet(p), capacity, Some(target), Some(high)),
            pipeline: PipelineModel::fresh(
                p.sample_rate,
                player.sample_rate,
                p.channels,
                player.channels as u8,
            ),
            drift: DriftModel::fresh(p.sample_rate, target, p.channels),
            rate: p.sample_rate,
            channels: p.channels,
            seen_underruns: 0,
            seen_trims: 0,
            created_ns: now_ns,
        }
    }

    /// The packet has the stream's format.
    pub open spec fn same_format(self, p: PacketView) -> bool {
        p.sample_rate == self.rate && p.channels == self.channels && samples_per_packet(p)
            == self.jb.samples_per_packet
    }

    /// The packet goes into the reorder buffer.
    pub open spec fn pushed(self, p: PacketView) -> (StreamModel, PushOutcome) {
        let (jb, outcome) = self.jb.pushed(p.sequence, protocol::samples_of(p.payload));
        (StreamModel { jb, ..self }, outcome)
    }

    /// What every operation keeps, for playback in the given format.
    pub open spec fn wf(self, player: PlayerConfig) -> bool {
        &&& self.jb.wf()
        &&& self.pipeline.wf()
        &&& self.drift.wf()
        &&& self.rate > 0
        &&& self.channels > 0
        &&& self.pipeline.resampler.input_rate == self.rate
        &&& self.pipeline.resampler.output_rate == player.sample_rate
        &&& self.pipeline.resampler.channels == self.channels
        &&& self.pipeline.mixer.oc() == player.channels
    }
}

/// A packet that can be received holds whole samples, at least one.
proof fn lemma_whole_samples(p: PacketView)
    requires
        p.acceptable(),
    ensures
        p.payload.len() >= 4,
        p.payload.len() % 4 == 0,
{
    let len = p.payload.len() as int;
    let c = p.channels as int;
    let q = len / (4 * c);
    vstd::arithmetic::div_mod::lemma_fundamental_div_mod(len, 4 * c);
    let x = c * q;
    assert(len == 4 * x) by (nonlinear_arith)
        requires
            len == 4 * c * q,
            x == c * q,
    ;
}

/// How a packet related to the stream.
#[derive(Debug, Clone, Copy, PartialEq, Eq, Structural)]
pub enum Start {
    /// It was the first one.
    First,
    /// It had the stream's format.
    Running,
    /// It had another format than this one, and the stream was started over.
    Changed { old_rate: u32, old_channels: u8, old_samples_per_packet: usize },
}

/// What became of a datagram.
#[derive(Debug, Clone, Copy, PartialEq, Eq, Structural)]
pub enum Received {
    /// It is no packet.
    Refused(ProtocolError),
    /// It is the first packet and no reorder buffer can be made.
    Dropped(BufferError),
    /// It went to the reorder buffer.
    Taken { start: Start, outcome: PushOutcome },
}

impl Received {
    /// Whether the log should mention the outcome. Late packets and
    /// duplicates are only counted.
    pub fn is_noteworthy(&self) -> (r: bool)
        ensures
            r == !(*self matches Received::Taken { start, outcome } && (outcome
                == PushOutcome::Stored || outcome == PushOutcome::Late || outcome
                == PushOutcome::Duplicate)),
    {
        match self {
            Received::Taken { outcome, .. } => match outcome {
                PushOutcome::Stored | PushOutcome::Late | PushOutcome::Duplicate => false,
                _ => true,
            },
            _ => true,
        }
    }
}

/// The state of a session.
#[verifier::ext_equal]
pub struct SessionModel {
    pub settings: RxSettings,
    pub player: PlayerConfig,
    pub decode_stats: DecodeStats,
    pub stream: Option<StreamModel>,
}

impl SessionModel {
    pub open spec fn wf(self) -> bool {
        &&& self.player.sample_rate > 0
        &&& 0 < self.player.channels <= 255
        &&& self.stream matches Some(st) ==> st.wf(self.player)
    }

    /// Slots of the reorder buffer for the format of `p`.
    pub open spec fn capacity(self, p: PacketView) -> Result<nat, BufferError> {
        match buffer_budget::buffer_ms_fits(self.settings.rx_buffer_ms, self.settings.prebuffer_ms) {
            Err(e) => Err(e),
            Ok(ms) => Ok(
                buffer_budget::capacity_for(
                    ms as nat,
                    p.sample_rate as nat,
                    p.channels as nat,
                    samples_per_packet(p),
                ),
            ),
        }
    }

    /// A stream in the format of `p`.
    pub open spec fn started(self, p: PacketView, capacity: nat, now_ns: u64) -> StreamModel {
        StreamModel::fresh(self.settings, self.player, p, capacity, now_ns)
    }

    /// The packet goes to the stream `st`.
    pub open spec fn taken(self, st: StreamModel, p: PacketView, start: Start) -> (
        SessionModel,
        Received,
    ) {
        let (stream, outcome) = st.pushed(p);
        (
            SessionModel { stream: Some(stream), ..self },
            Received::Taken { start, outcome },
        )
    }

    /// A datagram arrives, which holds a packet or does not.
    pub open spec fn received(
        self,
        datagram: Result<PacketView, ProtocolError>,
        now_ns: u64,
    ) -> (SessionModel, Received) {
        match datagram {
            Err(e) => (
                SessionModel { decode_stats: self.decode_stats.recorded(e), ..self },
                Received::Refused(e),
            ),
            Ok(p) => match self.stream {
                None => match self.capacity(p) {
                    Err(e) => (self, Received::Dropped(e)),
                    Ok(n) => self.taken(self.started(p, n, now_ns), p, Start::First),
                },
                Some(st) => if st.same_format(p) {
                    self.taken(st, p, Start::Running)
                } else {
                    let n = match self.capacity(p) {
                        Ok(n) => n,
                        Err(_) => FALLBACK_CAPACITY as nat,
                    };
                    self.taken(
                        self.started(p, n, now_ns),
                        p,
                        Start::Changed {
                            old_rate: st.rate,
                            old_channels: st.channels,
                            old_samples_per_packet: st.jb.samples_per_packet as usize,
                        },
                    )
                },
            },
        }
    }

    /// There is room to take the datagram in: counters do not overflow, and
    /// the numbers of samples fit a machine word.
    pub open spec fn can_receive(self, datagram: Result<PacketView, ProtocolError>) -> bool {
        match datagram {
            Err(e) => self.decode_stats.has_room(e),
            Ok(p) => {
                &&& p.acceptable()
                &&& p.sample_rate > 0
                &&& self.settings.fits(p.sample_rate, p.channels)
                &&& self.stream matches Some(st) ==> st.same_format(p) ==> st.jb.stats.has_room(1)
            },
        }
    }
}

/// One stream, from the packet that started it on.
struct Stream {
    jb: JitterBuffer,
    pipeline: FormatPipeline,
    drift: ClockDriftTracker,
    rate: u32,
    channels: u8,
    seen_underruns: u64,
    seen_trims: u64,
    created_ns: u64,
}

impl Stream {
    spec fn model(self) -> StreamModel {
        StreamModel {
            jb: self.jb@,
            pipeline: self.pipeline@,
            drift: self.drift@,
            rate: self.rate,
            channels: self.channels,
            seen_underruns: self.seen_underruns,
            seen_trims: self.seen_trims,
            created_ns: self.created_ns,
        }
    }

    spec fn inv(self, player: PlayerConfig) -> bool {
        self.jb.inv() && self.model().wf(player)
    }

    /// A stream in the given format.
    fn start(
        settings: RxSettings,
        player: PlayerConfig,
        p: &Packet,
        capacity: usize,
        now_ns: u64,
    ) -> (r: Stream)
        requires
            player.sample_rate > 0,
            0 < player.channels <= 255,
            p@.acceptable(),
            p@.sample_rate > 0,
            settings.fits(p@.sample_rate, p@.channels),
            capacity > 0,
            samples_per_packet(p@) * capacity <= usize::MAX,
        ensures
            r.inv(player),
            r.model() == StreamModel::fresh(settings, player, p@, capacity as nat, now_ns),
    {
        let marks: (usize, usize) = queue_marks(settings, p.sample_rate, p.channels);
        let target: usize = arith::max_usize(marks.0, 1);
        let high: usize = arith::max_usize(marks.1, 1);
        let spp: usize = p.payload.len() / 4;
        proof {
            lemma_whole_samples(p@);
        }
        let jb: JitterBuffer = JitterBuffer::with_high_water(
            spp,
            capacity,
            Some(target),
            Some(high),
        );
        let pipeline: FormatPipeline = FormatPipeline::new(
            p.sample_rate,
            player.sample_rate,
            p.channels,
            player.channels as u8,
        );
        let drift: ClockDriftTracker = ClockDriftTracker::new(p.sample_rate, target, p.channels);
        proof {
            jb.lemma_inv_wf();
            ChannelMixer::lemma_between(p@.channels, player.channels as u8);
        }
        Stream {
            jb,
            pipeline,
            drift,
            rate: p.sample_rate,
            channels: p.channels,
            seen_underruns: 0,
            seen_trims: 0,
            created_ns: now_ns,
        }
    }

    /// Hands a packet of the stream's format to the reorder buffer.
    fn push(&mut self, p: &Packet, Ghost(player): Ghost<PlayerConfig>) -> (r: PushOutcome)
        requires
            old(self).inv(player),
            old(self).model().same_format(p@),
            p@.payload.len() % 4 == 0,
            old(self).model().jb.stats.has_room(1),
        ensures
            final(self).inv(player),
            (final(self).model(), r) == old(self).model().pushed(p@),
    {
        let samples: Vec<u32> = p.pcm_f32();
        proof {
            jitter::law_push_keeps_wf(self.jb@, p@.sequence, samples@);
        }
        self.jb.push(p.sequence, samples.as_slice())
    }
}

/// The receiving side of a connection.
pub struct RxSession {
    settings: RxSettings,
    player: PlayerConfig,
    decode_stats: DecodeStats,
    stream: Option<Stream>,
}

impl View for RxSession {
    type V = SessionModel;

    closed spec fn view(&self) -> SessionModel {
        SessionModel {
            settings: self.settings,
            player: self.player,
            decode_stats: self.decode_stats,
            stream: match self.stream {
                None => None,
                Some(st) => Some(st.model()),
            },
        }
    }
}

/// A reorder buffer of the wanted depth, or of the smallest one, fits a
/// machine word.
proof fn lemma_ring_fits(m: SessionModel, p: PacketView)
    requires
        p.acceptable(),
        m.settings.fits(p.sample_rate, p.channels),
    ensures
        m.capacity(p) matches Ok(n) ==> 0 < n && samples_per_packet(p) * n <= usize::MAX,
        samples_per_packet(p) * FALLBACK_CAPACITY as nat <= usize::MAX,
{
    let spp = samples_per_packet(p);
    assert(spp * 32 <= 16383 * 32);
    if let Ok(n) = m.capacity(p) {
        let ms = m.settings.rx_buffer_ms as nat;
        let f = p.sample_rate as nat;
        let c = p.channels as nat;
        let limit = arith::larger(m.settings.prebuffer_ms as nat, ms) + 100;
        assert(ms * f * c <= limit * f * c) by (nonlinear_arith)
            requires
                ms <= limit,
        ;
        let all = buffer_budget::ring_samples(ms, f, c);
        assert(all <= usize::MAX / 1000);
        lemma_whole_samples(p);
        let q = all / spp;
        assert(spp * q <= all) by (nonlinear_arith)
            requires
                q == all / spp,
                spp > 0,
        ;
        assert(spp * (q + 1) == spp * q + spp) by (nonlinear_arith);
    }
}

impl RxSession {
    /// The representation is sound.
    pub closed spec fn inv(&self) -> bool {
        &&& self.player.sample_rate > 0
        &&& 0 < self.player.channels <= 255
        &&& self.stream matches Some(st) ==> st.inv(self.player)
    }

    /// A sound session has a well-formed state.
    pub proof fn lemma_inv_wf(&self)
        requires
            self.inv(),
        ensures
            self@.wf(),
    {
    }

    /// A session that plays on a device of the given format.
    pub fn new(settings: RxSettings, player: PlayerConfig) -> (r: RxSession)
        requires
            player.sample_rate > 0,
            0 < player.channels <= 255,
        ensures
            r.inv(),
            r@ == (SessionModel {
                settings,
                player,
                decode_stats: DecodeStats { truncated: 0, bad_magic: 0, bad_version: 0, bad_format: 0 },
                stream: None,
            }),
    {
        RxSession { settings, player, decode_stats: DecodeStats::default(), stream: None }
    }

    /// Takes in a datagram: the packet it holds, or why it holds none.
    pub fn receive(&mut self, datagram: Result<Packet, ProtocolError>, now_ns: u64) -> (r: Received)
        requires
            old(self).inv(),
            old(self)@.can_receive(
                match datagram {
                    Ok(p) => Ok(p@),
                    Err(e) => Err(e),
                },
            ),
        ensures
            final(self).inv(),
            (final(self)@, r) == old(self)@.received(
                match datagram {
                    Ok(p) => Ok(p@),
                    Err(e) => Err(e),
                },
                now_ns,
            ),
    {
        let ghost m = self@;
        let p: Packet = match datagram {
            Ok(p) => p,
            Err(e) => {
                self.decode_stats.record(&e);
                return Received::Refused(e);
            },
        };
        let spp: usize = p.payload.len() / 4;
        proof {
            lemma_ring_fits(m, p@);
            lemma_whole_samples(p@);
        }
        let running: Option<Stream> = self.stream.take();
        let (mut st, start): (Stream, Start) = match running {
            None => {
                match buffer_budget::compute_capacity_packets(
                    self.settings.rx_buffer_ms,
                    self.settings.prebuffer_ms,
                    p.sample_rate,
                    p.channels,
                    spp,
                ) {
                    Ok(n) => (
                        Stream::start(self.settings, self.player, &p, n, now_ns),
                        Start::First,
                    ),
                    Err(e) => {
                        return Received::Dropped(e);
                    },
                }
            },
            Some(st) => {
                let old_spp: usize = st.jb.samples_per_packet();
                if p.sample_rate == st.rate && p.channels == st.channels && spp == old_spp {
                    (st, Start::Running)
                } else {
                    let n: usize = match buffer_budget::compute_capacity_packets(
                        self.settings.rx_buffer_ms,
                        self.settings.prebuffer_ms,
                        p.sample_rate,
                        p.channels,
                        spp,
                    ) {
                        Ok(n) => n,
                        Err(_) => FALLBACK_CAPACITY,
                    };
                    (
                        Stream::start(self.settings, self.player, &p, n, now_ns),
                        Start::Changed {
                            old_rate: st.rate,
                            old_channels: st.channels,
                            old_samples_per_packet: old_spp,
                        },
                    )
                }
            },
        };
        let outcome: PushOutcome = st.push(&p, Ghost(self.player));
        self.stream = Some(st);
        Received::Taken { start, outcome }
    }
}

/// What a request for samples was answered with.
pub enum Rendered {
    /// Samples, by their bit patterns.
    Samples(Vec<u32>),
    /// How to compute each sample.
    Recipes(Vec<Mixed<Blend>>),
}

/// The contents of a `Rendered`.
#[verifier::ext_equal]
pub enum RenderedView {
    Samples(Seq<u32>),
    Recipes(Seq<MixedView<Blend>>),
}

impl View for Rendered {
    type V = RenderedView;

    open spec fn view(&self) -> RenderedView {
        match *self {
            Rendered::Samples(v) => RenderedView::Samples(v@),
            Rendered::Recipes(v) => RenderedView::Recipes(format_pipeline::views(v@)),
        }
    }
}

/// `n` recipes for silence.
pub open spec fn quiet(n: nat) -> Seq<MixedView<Blend>> {
    Seq::new(n, |i: int| MixedView::Silence)
}

impl StreamModel {
    /// The fill is looked at. After an underrun the tracker starts over. The
    /// fill counts once the stream has settled, except right after packets
    /// were skipped.
    pub open spec fn observed(self, now_ns: u64) -> StreamModel {
        let stats = self.jb.stats;
        let known = if stats.underrun_resyncs != self.seen_underruns {
            self.drift.cleared()
        } else {
            self.drift
        };
        let settled = now_ns - self.created_ns >= DRIFT_SETTLE_NS;
        StreamModel {
            drift: if stats.latency_trims == self.seen_trims && settled {
                known.updated(now_ns, self.jb.queued() as usize)
            } else {
                known
            },
            seen_underruns: stats.underrun_resyncs,
            seen_trims: stats.latency_trims,
            ..self
        }
    }

    /// Input frames to pull for `need` output frames, at least one.
    pub open spec fn pull(self, need: nat) -> nat {
        arith::larger(
            arith::ceil_div(
                need * self.rate as nat,
                self.pipeline.resampler.output_rate as nat,
            ),
            1,
        )
    }

    /// One run of `frames` input frames goes from the reorder buffer through
    /// the conversion.
    pub open spec fn pulled(self, frames: nat) -> StreamModel {
        let (jb, samples) = self.jb.popped(frames * self.channels as nat);
        StreamModel { jb, pipeline: self.pipeline.fed(samples), ..self }
    }

    /// The oldest converted samples are taken, at most `n`.
    pub open spec fn taken(self, n: nat) -> (StreamModel, Seq<MixedView<Blend>>) {
        let k = arith::smaller(self.pipeline.pending.len(), n) as int;
        (
            StreamModel {
                pipeline: PipelineModel {
                    pending: self.pipeline.pending.skip(k),
                    ..self.pipeline
                },
                ..self
            },
            self.pipeline.pending.take(k),
        )
    }

    /// A request for `len` samples is filled up by up to `rounds` runs of
    /// input. `out` is what is there already; it counts in whole frames.
    pub open spec fn topped_up(self, out: Seq<MixedView<Blend>>, len: nat, rounds: nat) -> (
        StreamModel,
        Seq<MixedView<Blend>>,
    )
        decreases rounds,
    {
        let oc = self.pipeline.mixer.oc();
        let have = out.len() / oc;
        if rounds == 0 || have >= len / oc {
            (self, out)
        } else {
            let (next, more) = self.pulled(self.pull((len / oc - have) as nat)).taken(
                (len - have * oc) as nat,
            );
            next.topped_up(out.take((have * oc) as int) + more, len, (rounds - 1) as nat)
        }
    }

    /// A request for `len` samples in the player's format. What cannot be
    /// filled is silence.
    pub open spec fn rendered(self, len: nat) -> (StreamModel, RenderedView) {
        if self.pipeline.passes_through() {
            let (jb, samples) = self.jb.popped(len);
            (StreamModel { jb, ..self }, RenderedView::Samples(samples))
        } else {
            let (first, flushed) = self.taken(len);
            let (last, out) = first.topped_up(flushed, len, MAX_PULLS as nat);
            let oc = self.pipeline.mixer.oc();
            let whole = out.len() / oc * oc;
            (
                last,
                RenderedView::Recipes(out.take(whole as int) + quiet((len - whole) as nat)),
            )
        }
    }

    /// The counters have room for `rounds` runs of input for a request of
    /// `len` samples, and the runs fit a machine word.
    pub open spec fn has_room(self, len: nat, rounds: nat) -> bool {
        let oc = self.pipeline.mixer.oc();
        let ic = self.channels as nat;
        let r = self.pipeline.resampler;
        let frames = self.pull(len / oc);
        let n = frames * ic;
        let budget = format_pipeline::frame_budget(frames, r.step);
        &&& len / oc * self.rate as nat <= u64::MAX
        &&& n <= usize::MAX
        &&& budget * ic <= usize::MAX
        &&& budget * oc <= usize::MAX
        &&& self.jb.stats.has_room(rounds)
        &&& self.jb.stats.silence_insertions + rounds * n <= u64::MAX
        &&& self.jb.stats.latency_trims + rounds * 0x1_0000_0000 <= u64::MAX
        &&& r.frames_in + rounds * n <= u64::MAX
        &&& r.frames_out + rounds * budget <= u64::MAX
        &&& self.pipeline.samples_in + rounds * n <= u64::MAX
        &&& self.pipeline.samples_out + rounds * (budget * oc) <= u64::MAX
        &&& self.pipeline.mixer_frames_in + rounds * budget <= u64::MAX
    }

    /// A request for `len` samples can be answered.
    pub open spec fn can_render(self, len: nat) -> bool {
        &&& self.jb.stats.has_room(1)
        &&& self.jb.stats.silence_insertions + len <= u64::MAX
        &&& self.jb.stats.latency_trims + 0x1_0000_0000 <= u64::MAX
        &&& !self.pipeline.passes_through() ==> self.has_room(len, MAX_PULLS as nat)
    }
}

/// Rounding up keeps the order.
proof fn lemma_ceil_div_mono(a: nat, b: nat, d: nat)
    requires
        a <= b,
        d > 0,
    ensures
        arith::ceil_div(a, d) <= arith::ceil_div(b, d),
{
    arith::lemma_ceil_div_covers(b, d);
    let q = arith::ceil_div(b, d);
    if arith::ceil_div(a, d) > q {
        vstd::arithmetic::div_mod::lemma_fundamental_div_mod(a as int, d as int);
        let p = a / d;
        assert(p * d + a % d == a) by (nonlinear_arith)
            requires
                a == d * p + a % d,
        ;
        if a % d == 0 {
            assert(p * d >= (q + 1) * d) by (nonlinear_arith)
                requires
                    p >= q + 1,
            ;
            assert((q + 1) * d == q * d + d) by (nonlinear_arith);
        } else {
            assert(p * d >= q * d) by (nonlinear_arith)
                requires
                    p >= q,
            ;
        }
    }
}

/// A smaller need pulls no more, and allows for no more output.
proof fn lemma_pull_mono(s: StreamModel, a: nat, b: nat)
    requires
        s.rate > 0,
        s.pipeline.resampler.output_rate > 0,
        s.pipeline.resampler.step > 0,
        a <= b,
    ensures
        s.pull(a) <= s.pull(b),
        s.pull(a) * s.channels as nat <= s.pull(b) * s.channels as nat,
        format_pipeline::frame_budget(s.pull(a), s.pipeline.resampler.step)
            <= format_pipeline::frame_budget(s.pull(b), s.pipeline.resampler.step),
{
    let ir = s.rate as nat;
    let or = s.pipeline.resampler.output_rate as nat;
    let step = s.pipeline.resampler.step;
    let one = format_pipeline::ONE_FRAME_Q32 as nat;
    let c = s.channels as nat;
    assert(a * ir <= b * ir) by (nonlinear_arith)
        requires
            a <= b,
    ;
    lemma_ceil_div_mono(a * ir, b * ir, or);
    let x = s.pull(a);
    let y = s.pull(b);
    assert(x * c <= y * c && x * one <= y * one) by (nonlinear_arith)
        requires
            x <= y,
    ;
    lemma_ceil_div_mono(x * one, y * one, step);
}

/// One run of input for `need` frames can be pulled, and leaves room for one
/// run less.
proof fn lemma_pull_room(s: StreamModel, player: PlayerConfig, len: nat, need: nat, rounds: nat)
    requires
        s.wf(player),
        player.sample_rate > 0,
        player.channels > 0,
        rounds > 0,
        s.has_room(len, rounds),
        need <= len / s.pipeline.mixer.oc(),
    ensures
        ({
            let n = s.pull(need) * s.channels as nat;
            let (jb, samples) = s.jb.popped(n);
            let p = s.pipeline;
            &&& n <= usize::MAX
            &&& need * s.rate as nat <= u64::MAX
            &&& s.jb.stats.has_room(1)
            &&& s.jb.stats.silence_insertions + n <= u64::MAX
            &&& s.jb.stats.latency_trims + 0x1_0000_0000 <= u64::MAX
            &&& samples.len() == n
            &&& n % s.channels as nat == 0
            &&& p.budget(samples) * p.mixer.ic() <= usize::MAX
            &&& p.budget(samples) * p.mixer.oc() <= usize::MAX
            &&& p.has_room(samples)
        }),
        s.pulled(s.pull(need)).wf(player),
        s.pulled(s.pull(need)).has_room(len, (rounds - 1) as nat),
{
    let oc = s.pipeline.mixer.oc();
    let ic = s.channels as nat;
    let r = s.pipeline.resampler;
    let f = s.pull(need);
    let n = f * ic;
    let top = s.pull(len / oc);
    let top_n = top * ic;
    let top_b = format_pipeline::frame_budget(top, r.step);
    lemma_pull_mono(s, need, len / oc);
    let b = format_pipeline::frame_budget(f, r.step);
    let one = (rounds - 1) as nat;
    assert(rounds * top_n == one * top_n + top_n && one * top_n >= 0) by (nonlinear_arith)
        requires
            rounds == one + 1,
    ;
    assert(rounds * top_b == one * top_b + top_b && one * top_b >= 0) by (nonlinear_arith)
        requires
            rounds == one + 1,
    ;
    assert(rounds * (top_b * oc) == one * (top_b * oc) + top_b * oc && one * (top_b * oc) >= 0)
        by (nonlinear_arith)
        requires
            rounds == one + 1,
    ;
    assert(need * s.rate as nat <= len / oc * s.rate as nat) by (nonlinear_arith)
        requires
            need <= len / oc,
    ;
    assert(b * ic <= top_b * ic && b * oc <= top_b * oc) by (nonlinear_arith)
        requires
            b <= top_b,
    ;
    jitter::law_pop_keeps_wf(s.jb, n);
    jitter::law_pop_counts_are_bounded(s.jb, n);
    let samples = s.jb.popped(n).1;
    vstd::arithmetic::div_mod::lemma_fundamental_div_mod_converse(n as int, ic as int, f as int, 0);
    assert(r.frames(samples) == f);
    assert(s.pipeline.budget(samples) == b);
    let t = s.pulled(f);
    let k = r.produced(samples, b);
    assert(k * oc <= b * oc) by (nonlinear_arith)
        requires
            k <= b,
    ;
    assert(f <= n) by (nonlinear_arith)
        requires
            n == f * ic,
            ic > 0,
    ;
    assert(t.pipeline.resampler.frames_in <= r.frames_in + n);
    assert(t.pipeline.resampler.frames_out <= r.frames_out + b);
    assert(t.pipeline.samples_in <= s.pipeline.samples_in + n);
    assert(t.pipeline.samples_out <= s.pipeline.samples_out + b * oc);
    assert(t.pipeline.mixer_frames_in <= s.pipeline.mixer_frames_in + b);
    assert(one <= one * top_n) by (nonlinear_arith)
        requires
            top_n == top * ic,
            top >= 1,
            ic >= 1,
    ;
}

impl Stream {
    /// Pulls one run of `frames` input frames through the conversion.
    fn pull(&mut self, frames: usize, Ghost(player): Ghost<PlayerConfig>)
        requires
            old(self).inv(player),
            ({
                let s = old(self).model();
                let n = frames * s.channels;
                let (jb, samples) = s.jb.popped(n as nat);
                let p = s.pipeline;
                &&& n <= usize::MAX
                &&& s.jb.stats.has_room(1)
                &&& s.jb.stats.silence_insertions + n <= u64::MAX
                &&& s.jb.stats.latency_trims + 0x1_0000_0000 <= u64::MAX
                &&& samples.len() == n
                &&& n % s.channels as int == 0
                &&& p.budget(samples) * p.mixer.ic() <= usize::MAX
                &&& p.budget(samples) * p.mixer.oc() <= usize::MAX
                &&& p.has_room(samples)
            }),
            old(self).model().pulled(frames as nat).wf(player),
        ensures
            final(self).inv(player),
            final(self).model() == old(self).model().pulled(frames as nat),
    {
        let n: usize = frames * self.channels as usize;
        let mut samples: Vec<u32> = vec![0u32; n];
        let _ = self.jb.pop_frames(samples.as_mut_slice());
        self.pipeline.feed(samples.as_slice());
    }

    /// Input frames to pull for `need` output frames.
    fn frames_for(&self, need: usize, out_rate: u32) -> (r: usize)
        requires
            need * self.rate <= u64::MAX,
            out_rate > 0,
            out_rate == self.model().pipeline.resampler.output_rate,
            self.model().pull(need as nat) <= usize::MAX,
        ensures
            r == self.model().pull(need as nat),
    {
        let wanted: u64 = need as u64 * self.rate as u64;
        let whole: u64 = wanted / out_rate as u64;
        let up: u64 = if wanted % out_rate as u64 == 0 {
            whole
        } else {
            whole + 1
        };
        if up > 1 {
            up as usize
        } else {
            1
        }
    }

    /// Answers a request for `out_len` samples.
    fn render(&mut self, out_len: usize, player: PlayerConfig) -> (r: Rendered)
        requires
            old(self).inv(player),
            player.sample_rate > 0,
            0 < player.channels <= 255,
            old(self).model().can_render(out_len as nat),
        ensures
            final(self).inv(player),
            (final(self).model(), r@) == old(self).model().rendered(out_len as nat),
    {
        let ghost m = self.model();
        if self.pipeline.is_passthrough() {
            let mut samples: Vec<u32> = vec![0u32; out_len];
            proof {
                jitter::law_pop_keeps_wf(self.jb@, out_len as nat);
            }
            let _ = self.jb.pop_frames(samples.as_mut_slice());
            return Rendered::Samples(samples);
        }
        let oc: usize = player.channels as usize;
        let out_frames: usize = out_len / oc;
        let mut out: Vec<Mixed<Blend>> = self.pipeline.drain(out_len);
        let mut have: usize = out.len() / oc;
        let mut rounds: u32 = MAX_PULLS;
        let ghost len = out_len as nat;
        assert(self.model() == m.taken(len).0);
        while have < out_frames && rounds > 0
            invariant
                self.inv(player),
                player.sample_rate > 0,
                0 < player.channels <= 255,
                oc == player.channels,
                len == out_len,
                out_frames == len / oc as nat,
                out@.len() <= len,
                have == out@.len() / oc as nat,
                rounds <= MAX_PULLS,
                self.model().has_room(len, rounds as nat),
                m.taken(len).0.topped_up(m.taken(len).1, len, MAX_PULLS as nat)
                    == self.model().topped_up(format_pipeline::views(out@), len, rounds as nat),
            decreases rounds,
        {
            let ghost s = self.model();
            let ghost so_far = format_pipeline::views(out@);
            let need: usize = out_frames - have;
            proof {
                lemma_pull_room(s, player, len, need as nat, rounds as nat);
                assert(s.pull(need as nat) <= s.pull(need as nat) * s.channels as nat)
                    by (nonlinear_arith)
                    requires
                        s.channels > 0,
                ;
                assert(have * oc <= out@.len()) by (nonlinear_arith)
                    requires
                        have == out@.len() / oc as nat,
                        oc > 0,
                ;
            }
            let frames: usize = self.frames_for(need, player.sample_rate);
            self.pull(frames, Ghost(player));
            let ghost fed = self.model();
            let mut more: Vec<Mixed<Blend>> = self.pipeline.drain(out_len - have * oc);
            let ghost added = more@;
            out.truncate(have * oc);
            out.append(&mut more);
            proof {
                let k = arith::smaller(fed.pipeline.pending.len(), (len - have * oc) as nat);
                assert(format_pipeline::views(out@) =~= so_far.take(have * oc)
                    + format_pipeline::views(added));
                assert(self.model() == fed.taken((len - have * oc) as nat).0);
                assert(s.topped_up(so_far, len, rounds as nat) == self.model().topped_up(
                    format_pipeline::views(out@),
                    len,
                    (rounds - 1) as nat,
                ));
            }
            rounds -= 1;
            have = out.len() / oc;
        }
        let ghost unpadded = format_pipeline::views(out@);
        proof {
            assert(have * oc <= out@.len()) by (nonlinear_arith)
                requires
                    have == out@.len() / oc as nat,
                    oc > 0,
            ;
            assert(m.taken(len).0.topped_up(m.taken(len).1, len, MAX_PULLS as nat) == (
                self.model(),
                unpadded,
            ));
        }
        let whole: usize = have * oc;
        out.truncate(whole);
        while out.len() < out_len
            invariant
                whole <= out@.len() <= out_len,
                whole <= unpadded.len(),
                format_pipeline::views(out@) == unpadded.take(whole as int) + quiet(
                    (out@.len() - whole) as nat,
                ),
            decreases out_len - out@.len(),
        {
            let ghost before = out@;
            out.push(Mixed::Silence);
            assert(format_pipeline::views(out@) =~= unpadded.take(whole as int) + quiet(
                (out@.len() - whole) as nat,
            )) by {
                assert(format_pipeline::views(out@) =~= format_pipeline::views(before).push(
                    MixedView::Silence,
                ));
            }
        }
        Rendered::Recipes(out)
    }
}

/// Milliseconds of audio in `samples` interleaved samples.
pub open spec fn duration_ms(samples: nat, rate: u32, channels: u8) -> nat {
    if rate > 0 && channels > 0 {
        samples * 1000 / (rate as nat * channels as nat)
    } else {
        0
    }
}

/// Milliseconds of audio in `samples` interleaved samples; none where the
/// format has no rate or no channels.
pub fn samples_to_ms(samples: u64, rate: u32, channels: u8) -> (r: u64)
    requires
        samples * 1000 <= u64::MAX,
    ensures
        r == duration_ms(samples as nat, rate, channels),
{
    if rate > 0 && channels > 0 {
        proof {
            let f = rate as nat;
            let c = channels as nat;
            assert(0 < f * c <= 0xffff_ffff * 255) by (nonlinear_arith)
                requires
                    0 < f <= 0xffff_ffff,
                    0 < c <= 255,
            ;
        }
        samples * 1000 / (rate as u64 * channels as u64)
    } else {
        0
    }
}

/// A snapshot of a stream.
#[derive(Debug, Clone, Copy, PartialEq, Eq, Structural)]
pub struct StreamReport {
    pub jitter: Stats,
    /// Interleaved samples queued.
    pub queued_frames: usize,
    pub queued_ms: u64,
    pub format: FormatStats,
    /// Samples are being converted.
    pub converting: bool,
    /// The sender's format.
    pub rate: u32,
    pub channels: u8,
    /// The player's format.
    pub player_rate: u32,
    pub player_channels: u8,
}

impl StreamModel {
    /// What a snapshot shows.
    pub open spec fn reported_as(self, r: StreamReport) -> bool {
        &&& r.jitter == self.jb.stats
        &&& r.queued_frames == self.jb.queued()
        &&& r.queued_ms == duration_ms(self.jb.queued(), self.rate, self.channels)
        &&& r.format.samples_in == self.pipeline.samples_in
        &&& r.format.samples_out == self.pipeline.samples_out
        &&& r.format.resampler_frames_in == self.pipeline.resampler.frames_in
        &&& r.format.resampler_frames_out == self.pipeline.resampler.frames_out
        &&& r.format.mixer_frames_in == self.pipeline.mixer_frames_in
        &&& r.converting == !self.pipeline.passes_through()
        &&& r.rate == self.rate
        &&& r.channels == self.channels
        &&& r.player_rate == self.pipeline.resampler.output_rate
        &&& r.player_channels == self.pipeline.mixer.oc()
    }
}

impl SessionModel {
    /// The fill of the stream, if there is one, is looked at.
    pub open spec fn observed(self, now_ns: u64) -> SessionModel {
        SessionModel {
            stream: match self.stream {
                None => None,
                Some(st) => Some(st.observed(now_ns)),
            },
            ..self
        }
    }

    /// The step of the rate conversion is corrected.
    pub open spec fn corrected(self, step_q32: u64) -> SessionModel {
        SessionModel {
            stream: match self.stream {
                None => None,
                Some(st) => Some(
                    StreamModel {
                        pipeline: PipelineModel {
                            resampler: ResamplerModel {
                                drift_active: true,
                                step: if step_q32 == 0 {
                                    1
                                } else {
                                    step_q32 as nat
                                },
                                ..st.pipeline.resampler
                            },
                            ..st.pipeline
                        },
                        ..st
                    },
                ),
            },
            ..self
        }
    }

    /// A request for `len` samples; silence as long as there is no stream.
    pub open spec fn rendered(self, len: nat) -> (SessionModel, RenderedView) {
        match self.stream {
            None => (self, RenderedView::Samples(jitter::silence(len))),
            Some(st) => {
                let (stream, out) = st.rendered(len);
                (SessionModel { stream: Some(stream), ..self }, out)
            },
        }
    }

    /// The tracker can take in the fill at the time `now_ns`.
    pub open spec fn can_observe(self, now_ns: u64) -> bool {
        self.stream matches Some(st) ==> {
            &&& st.drift.samples.len() > 0 ==> st.drift.samples.last().t_ns <= now_ns
            &&& st.drift.samples.len() < MAX_SAMPLES
        }
    }

    /// A request for `len` samples can be answered.
    pub open spec fn can_render(self, len: nat) -> bool {
        self.stream matches Some(st) ==> st.can_render(len)
    }
}

impl RxSession {
    /// Looks at the fill of the stream. Once the drift is known, returns what
    /// a correction needs.
    pub fn observe(&mut self, now_ns: u64) -> (r: Option<Fit>)
        requires
            old(self).inv(),
            old(self)@.can_observe(now_ns),
        ensures
            final(self).inv(),
            final(self)@ == old(self)@.observed(now_ns),
            match final(self)@.stream {
                None => r is None,
                Some(st) => {
                    &&& r is Some <==> st.drift.warm()
                    &&& r matches Some(f) ==> clock_drift::fit_of(st.drift, f)
                },
            },
    {
        let mut st: Stream = match self.stream.take() {
            None => {
                return None;
            },
            Some(st) => st,
        };
        let ghost m = st.model();
        let stats: Stats = st.jb.stats();
        if stats.underrun_resyncs != st.seen_underruns {
            st.drift.reset();
            st.seen_underruns = stats.underrun_resyncs;
        }
        let skip: bool = stats.latency_trims != st.seen_trims;
        if skip {
            st.seen_trims = stats.latency_trims;
        }
        let settled: bool = now_ns >= st.created_ns && now_ns - st.created_ns >= DRIFT_SETTLE_NS;
        if !skip && settled {
            let queued: usize = st.jb.queued_frames();
            st.drift.update(now_ns, queued);
        }
        assert(st.model() == m.observed(now_ns));
        let fit: Option<Fit> = st.drift.fit();
        self.stream = Some(st);
        fit
    }

    /// Corrects the step of the rate conversion.
    pub fn correct(&mut self, step_q32: u64)
        requires
            old(self).inv(),
            step_q32 <= format_pipeline::MAX_STEP_Q32,
        ensures
            final(self).inv(),
            final(self)@ == old(self)@.corrected(step_q32),
    {
        if let Some(mut st) = self.stream.take() {
            st.pipeline.set_drift_correction(step_q32);
            self.stream = Some(st);
        }
    }

    /// The step of the rate conversion by the two nominal rates.
    pub fn nominal_step_q32(&self) -> (r: Option<u64>)
        ensures
            match self@.stream {
                None => r is None,
                Some(st) => r is Some && r->0 == st.pipeline.resampler.nominal_step,
            },
    {
        match &self.stream {
            None => None,
            Some(st) => Some(st.pipeline.resampler().nominal_step_q32()),
        }
    }

    /// Answers a request for `out_len` samples in the player's format.
    pub fn render(&mut self, out_len: usize) -> (r: Rendered)
        requires
            old(self).inv(),
            old(self)@.can_render(out_len as nat),
        ensures
            final(self).inv(),
            (final(self)@, r@) == old(self)@.rendered(out_len as nat),
    {
        match self.stream.take() {
            None => {
                let samples: Vec<u32> = vec![0u32; out_len];
                assert(samples@ =~= jitter::silence(out_len as nat));
                Rendered::Samples(samples)
            },
            Some(mut st) => {
                let r: Rendered = st.render(out_len, self.player);
                self.stream = Some(st);
                r
            },
        }
    }

    /// Datagrams refused so far.
    pub fn decode_stats(&self) -> (r: DecodeStats)
        ensures
            r == self@.decode_stats,
    {
        self.decode_stats
    }

    /// A snapshot of the stream, if there is one.
    pub fn report(&self) -> (r: Option<StreamReport>)
        requires
            self.inv(),
            self@.stream matches Some(st) ==> st.jb.queued() * 1000 <= u64::MAX,
        ensures
            match self@.stream {
                None => r is None,
                Some(st) => r is Some && st.reported_as(r->0),
            },
    {
        match &self.stream {
            None => None,
            Some(st) => {
                let queued: usize = st.jb.queued_frames();
                Some(
                    StreamReport {
                        jitter: st.jb.stats(),
                        queued_frames: queued,
                        queued_ms: samples_to_ms(queued as u64, st.rate, st.channels),
                        format: st.pipeline.stats(),
                        converting: !st.pipeline.is_passthrough(),
                        rate: st.rate,
                        channels: st.channels,
                        player_rate: st.pipeline.resampler().output_rate_hz(),
                        player_channels: st.pipeline.mixer().output_channels(),
                    },
                )
            },
        }
    }
}

/// Trimming keeps clear of playback: the high-water mark is at least 50 ms of
/// audio above the target.
pub proof fn law_trimming_keeps_a_gap(settings: RxSettings, rate: u32, channels: u8)
    ensures
        settings.high_water(rate, channels) >= settings.target(rate, channels)
            + buffer_budget::samples_in(50, rate as nat, channels as nat),
{
}

/// The target can be reached: it fits into the reorder buffer that the same
/// settings give.
pub proof fn law_target_fits_the_ring(m: SessionModel, p: PacketView)
    requires
        p.acceptable(),
        p.sample_rate > 0,
        m.settings.fits(p.sample_rate, p.channels),
    ensures
        m.capacity(p) matches Ok(n) ==> m.settings.target(p.sample_rate, p.channels) <= n
            * samples_per_packet(p),
{
    if let Ok(n) = m.capacity(p) {
        let ms = m.settings.rx_buffer_ms as nat;
        let f = p.sample_rate as nat;
        let c = p.channels as nat;
        let limit = arith::larger(m.settings.prebuffer_ms as nat, ms) + 100;
        lemma_whole_samples(p);
        assert(ms * f * c <= limit * f * c && ms * f <= ms * f * c) by (nonlinear_arith)
            requires
                ms <= limit,
                c > 0,
        ;
        buffer_budget::law_gate_is_reachable(
            ms,
            m.settings.prebuffer_ms as nat,
            f,
            c,
            samples_per_packet(p),
        );
    }
}

/// The reorder buffer of a stream that was just started is well-formed.
proof fn lemma_fresh_wf(m: SessionModel, p: PacketView, capacity: nat, now_ns: u64)
    requires
        m.wf(),
        p.acceptable(),
        p.sample_rate > 0,
        m.settings.fits(p.sample_rate, p.channels),
        capacity > 0,
    ensures
        m.started(p, capacity, now_ns).jb.wf(),
{
    let st = m.started(p, capacity, now_ns);
    lemma_whole_samples(p);
    lemma_marks_fit(m.settings, p.sample_rate, p.channels);
    jitter::lemma_fresh_wf(
        samples_per_packet(p),
        capacity,
        st.jb.prebuffer_target,
        st.jb.high_water,
    );
}

/// Whatever arrives, a packet that was taken has the stream's format
/// afterwards: the stream never mixes formats. A datagram that is no packet is
/// counted once and leaves the stream alone.
pub proof fn law_stream_follows_the_packet(
    m: SessionModel,
    datagram: Result<PacketView, ProtocolError>,
    now_ns: u64,
)
    requires
        m.wf(),
        m.can_receive(datagram),
    ensures
        ({
            let (t, r) = m.received(datagram, now_ns);
            &&& t.settings == m.settings && t.player == m.player
            &&& match datagram {
                Err(e) => {
                    &&& t.stream == m.stream
                    &&& r == Received::Refused(e)
                    &&& t.decode_stats == m.decode_stats.recorded(e)
                    &&& t.decode_stats.spec_total() == m.decode_stats.spec_total() + 1
                },
                Ok(p) => {
                    &&& t.decode_stats == m.decode_stats
                    &&& r is Taken ==> t.stream is Some && t.stream->0.same_format(p)
                    &&& r is Dropped ==> t.stream is None && m.stream is None
                    &&& !(r is Refused)
                },
            }
        }),
{
}

/// The samples that a sender put into a packet are the samples that the
/// reorder buffer holds once the packet is stored, whatever bytes follow the
/// packet in its datagram.
pub proof fn law_sent_samples_are_held(
    m: SessionModel,
    sent: PacketView,
    samples: Seq<u32>,
    trailing: Seq<u8>,
    now_ns: u64,
)
    requires
        m.wf(),
        sent.acceptable(),
        sent.payload == protocol::sample_bytes(samples),
        m.can_receive(Ok(sent)),
        m.capacity(sent) is Ok,
    ensures
        ({
            let (t, r) = m.received(protocol::decoded(sent.encoded() + trailing), now_ns);
            &&& r matches Received::Taken { start, outcome } ==> outcome == PushOutcome::Stored ==> {
                let jb = t.stream->0.jb;
                jb.slots[jb.index(sent.sequence)] == Some(
                    Stored { seq: sent.sequence, samples },
                )
            }
            &&& r is Taken
        }),
{
    protocol::law_decode_encode(sent, trailing);
    protocol::law_samples_round_trip(samples);
    lemma_ring_fits(m, sent);
    lemma_whole_samples(sent);
    match m.stream {
        None => {
            let st = m.started(sent, m.capacity(sent)->Ok_0, now_ns);
            lemma_fresh_wf(m, sent, m.capacity(sent)->Ok_0, now_ns);
            if st.pushed(sent).1 == PushOutcome::Stored {
                jitter::law_stored_packet_is_held(st.jb, sent.sequence, samples);
            }
        },
        Some(old) => {
            if old.same_format(sent) {
                if old.pushed(sent).1 == PushOutcome::Stored {
                    jitter::law_stored_packet_is_held(old.jb, sent.sequence, samples);
                }
            } else {
                let st = m.started(sent, m.capacity(sent)->Ok_0, now_ns);
                lemma_fresh_wf(m, sent, m.capacity(sent)->Ok_0, now_ns);
                if st.pushed(sent).1 == PushOutcome::Stored {
                    jitter::law_stored_packet_is_held(st.jb, sent.sequence, samples);
                }
            }
        },
    }
}

/// The marks fit a machine word where the settings do.
proof fn lemma_marks_fit(settings: RxSettings, rate: u32, channels: u8)
    requires
        settings.fits(rate, channels),
        channels > 0,
    ensures
        settings.target(rate, channels) <= usize::MAX,
        settings.high_water(rate, channels) <= usize::MAX,
{
    let f = rate as nat;
    let c = channels as nat;
    let pre = settings.prebuffer_ms as nat;
    let depth = settings.rx_buffer_ms as nat;
    let limit = arith::larger(pre, depth) + 100;
    assert(pre * f * c <= limit * f * c && (pre + 100) * f * c <= limit * f * c && depth * f * c
        <= limit * f * c && 50 * f * c <= limit * f * c) by (nonlinear_arith)
        requires
            pre + 100 <= limit,
            depth <= limit,
            limit >= 100,
    ;
}

/// The first packet of a stream is always stored.
pub proof fn law_first_packet_is_stored(m: SessionModel, p: PacketView, now_ns: u64)
    requires
        m.wf(),
        m.stream is None,
        m.can_receive(Ok(p)),
        m.capacity(p) is Ok,
    ensures
        m.received(Ok(p), now_ns).1 == (Received::Taken {
            start: Start::First,
            outcome: PushOutcome::Stored,
        }),
{
    lemma_ring_fits(m, p);
    let st = m.started(p, m.capacity(p)->Ok_0, now_ns);
    let i = st.jb.index(p.sequence);
    assert(0 <= i < st.jb.capacity) by {
        vstd::arithmetic::div_mod::lemma_mod_bound(p.sequence as int, st.jb.capacity as int);
    }
    assert(st.jb.slots[i] is None);
}

/// A packet of another rate, channel count or length starts everything anew for
/// its format: the reorder buffer, the conversion and the drift tracker are
/// fresh, and the packet alone is in the buffer.
pub proof fn law_changed_format_starts_over(
    m: SessionModel,
    st: StreamModel,
    p: PacketView,
    now_ns: u64,
)
    requires
        m.wf(),
        m.stream == Some(st),
        m.can_receive(Ok(p)),
        p.sample_rate != st.rate || p.channels != st.channels || samples_per_packet(p)
            != st.jb.samples_per_packet,
    ensures
        ({
            let (t, r) = m.received(Ok(p), now_ns);
            let n = match m.capacity(p) {
                Ok(n) => n,
                Err(_) => FALLBACK_CAPACITY as nat,
            };
            let fresh = m.started(p, n, now_ns);
            &&& r == (Received::Taken {
                start: Start::Changed {
                    old_rate: st.rate,
                    old_channels: st.channels,
                    old_samples_per_packet: st.jb.samples_per_packet as usize,
                },
                outcome: PushOutcome::Stored,
            })
            &&& t.stream matches Some(u) && u == (StreamModel { jb: u.jb, ..fresh }) && u.jb
                == (JitterModel {
                slots: fresh.jb.slots.update(
                    fresh.jb.index(p.sequence),
                    Some(Stored { seq: p.sequence, samples: protocol::samples_of(p.payload) }),
                ),
                min_pushed: Some(p.sequence),
                ..fresh.jb
            })
            &&& forall|i: int| 0 <= i < n ==> #[trigger] fresh.jb.slots[i] is None
        }),
{
    let n = match m.capacity(p) {
        Ok(n) => n,
        Err(_) => FALLBACK_CAPACITY as nat,
    };
    if m.capacity(p) is Ok {
        lemma_ring_fits(m, p);
    }
    let fresh = m.started(p, n, now_ns);
    let i = fresh.jb.index(p.sequence);
    assert(0 <= i < fresh.jb.capacity) by {
        vstd::arithmetic::div_mod::lemma_mod_bound(p.sequence as int, fresh.jb.capacity as int);
    }
    assert(fresh.jb.slots[i] is None);
}

/// What is there is never longer than the request.
proof fn lemma_topped_up_len(s: StreamModel, out: Seq<MixedView<Blend>>, len: nat, rounds: nat)
    requires
        s.pipeline.mixer.oc() > 0,
        out.len() <= len,
    ensures
        s.topped_up(out, len, rounds).1.len() <= len,
    decreases rounds,
{
    let oc = s.pipeline.mixer.oc();
    let have = out.len() / oc;
    if rounds > 0 && have < len / oc {
        assert(have * oc <= out.len()) by (nonlinear_arith)
            requires
                have == out.len() / oc,
                oc > 0,
        ;
        let pulled = s.pulled(s.pull((len / oc - have) as nat));
        let (next, more) = pulled.taken((len - have * oc) as nat);
        lemma_topped_up_len(
            next,
            out.take((have * oc) as int) + more,
            len,
            (rounds - 1) as nat,
        );
    }
}

/// A request is always answered in full.
pub proof fn law_requests_are_answered_in_full(m: SessionModel, len: nat)
    requires
        m.wf(),
    ensures
        match m.rendered(len).1 {
            RenderedView::Samples(v) => v.len() == len,
            RenderedView::Recipes(v) => v.len() == len,
        },
{
    if let Some(st) = m.stream {
        jitter::law_pop_keeps_wf(st.jb, len);
        let (first, flushed) = st.taken(len);
        lemma_topped_up_len(first, flushed, len, MAX_PULLS as nat);
        let (last, out) = first.topped_up(flushed, len, MAX_PULLS as nat);
        let oc = st.pipeline.mixer.oc();
        assert(out.len() / oc * oc <= out.len()) by (nonlinear_arith)
            requires
                oc > 0,
        ;
    }
}

/// Where sender and player have the same format and no drift was corrected,
/// playback hands out the samples of the reorder buffer as they are.
pub proof fn law_equal_formats_play_unchanged(st: StreamModel, player: PlayerConfig, len: nat)
    requires
        st.wf(player),
        st.rate == player.sample_rate,
        st.channels == player.channels,
        !st.pipeline.resampler.drift_active,
    ensures
        st.rendered(len).0 == (StreamModel { jb: st.jb.popped(len).0, ..st }),
        st.rendered(len).1 == RenderedView::Samples(st.jb.popped(len).1),
{
    assert(st.pipeline.mixer.ic() == st.channels);
}

/// The datagrams of the packets number `order[0]`, `order[1]` and so on of
/// `sent` arrive one after the other.
pub open spec fn listened(
    m: SessionModel,
    sent: Seq<PacketView>,
    order: Seq<nat>,
    now_ns: u64,
) -> SessionModel
    decreases order.len(),
{
    if order.len() == 0 {
        m
    } else {
        listened(m, sent, order.drop_last(), now_ns).received(
            protocol::decoded(sent[order.last() as int].encoded()),
            now_ns,
        ).0
    }
}

/// `sent` carries the chunks one by one, with consecutive sequence numbers
/// from `h` on, all in the format of `p`.
pub open spec fn carries(
    sent: Seq<PacketView>,
    h: u32,
    chunks: Seq<Seq<u32>>,
    p: PacketView,
) -> bool {
    &&& sent.len() == chunks.len()
    &&& forall|i: int|
        0 <= i < sent.len() ==> {
            &&& (#[trigger] sent[i]).acceptable()
            &&& sent[i].sequence == jitter::seq_after(h, i as nat)
            &&& sent[i].sample_rate == p.sample_rate
            &&& sent[i].channels == p.channels
            &&& sent[i].payload == protocol::sample_bytes(chunks[i])
            &&& chunks[i].len() == samples_per_packet(p)
        }
}

/// After some packets of a stream arrived, the reorder buffer has taken in
/// just these.
proof fn lemma_listened(
    m: SessionModel,
    h: u32,
    chunks: Seq<Seq<u32>>,
    p: PacketView,
    sent: Seq<PacketView>,
    order: Seq<nat>,
    now_ns: u64,
)
    requires
        m.wf(),
        m.stream is None,
        m.capacity(p) is Ok,
        carries(sent, h, chunks, p),
        forall|k: int| 0 <= k < order.len() ==> #[trigger] order[k] < sent.len(),
    ensures
        ({
            let t = listened(m, sent, order, now_ns);
            let fresh = m.started(p, m.capacity(p)->Ok_0, now_ns);
            &&& t == (SessionModel { stream: t.stream, ..m })
            &&& order.len() == 0 ==> t.stream is None
            &&& order.len() > 0 ==> t.stream == Some(
                StreamModel { jb: jitter::arrived(fresh.jb, h, chunks, order), ..fresh },
            )
        }),
    decreases order.len(),
{
    if order.len() > 0 {
        let before = order.drop_last();
        assert forall|k: int| 0 <= k < before.len() implies #[trigger] before[k] < sent.len() by {
            assert(before[k] == order[k]);
        }
        lemma_listened(m, h, chunks, p, sent, before, now_ns);
        let u = listened(m, sent, before, now_ns);
        let i = order.last() as int;
        assert(order[order.len() - 1] == i);
        let q = sent[i];
        protocol::law_decode_encode(q, Seq::empty());
        assert(q.encoded() + Seq::<u8>::empty() =~= q.encoded());
        protocol::lemma_sample_bytes_len(chunks[i]);
        protocol::law_samples_round_trip(chunks[i]);
        assert(samples_per_packet(q) == samples_per_packet(p));
        assert(u.capacity(q) == m.capacity(p));
        let n = m.capacity(p)->Ok_0;
        assert(u.started(q, n, now_ns) == m.started(p, n, now_ns));
        let fresh = m.started(p, n, now_ns);
        if before.len() == 0 {
            assert(before =~= Seq::empty());
            assert(jitter::arrived(fresh.jb, h, chunks, before) == fresh.jb);
        } else {
            jitter::lemma_arrived_shape(fresh.jb, h, chunks, before);
            assert(u.stream->0.same_format(q));
        }
    }
}

/// What was sent is played: in whatever order the datagrams of a stream
/// arrive, and however often each, a player of the sender's format gets the
/// samples that were sent, in order and unchanged, once the prebuffer is
/// filled and as long as the high-water mark is not passed. Silence stands in
/// for datagrams that never arrive, between the first and the last that do.
pub proof fn law_sent_audio_is_played(
    m: SessionModel,
    h: u32,
    chunks: Seq<Seq<u32>>,
    p: PacketView,
    sent: Seq<PacketView>,
    order: Seq<nat>,
    now_ns: u64,
)
    requires
        m.wf(),
        m.stream is None,
        p.acceptable(),
        m.can_receive(Ok(p)),
        m.capacity(p) is Ok,
        p.sample_rate == m.player.sample_rate,
        p.channels == m.player.channels,
        carries(sent, h, chunks, p),
        0 < sent.len() < 0x7fff_ffff,
        forall|k: int| 0 <= k < order.len() ==> #[trigger] order[k] < sent.len(),
        order.contains(0),
        order.contains((sent.len() - 1) as nat),
        jitter::apart(m.capacity(p)->Ok_0, h, sent.len()),
        m.settings.target(p.sample_rate, p.channels) <= order.to_set().len()
            * samples_per_packet(p) <= m.settings.high_water(p.sample_rate, p.channels),
    ensures
        ({
            let heard = jitter::heard(samples_per_packet(p), chunks, order.to_set());
            let played = listened(m, sent, order, now_ns).rendered(
                sent.len() * samples_per_packet(p),
            ).1;
            &&& played == RenderedView::Samples(heard.flatten())
            &&& (forall|i: nat| i < sent.len() ==> #[trigger] order.contains(i)) ==> played
                == RenderedView::Samples(chunks.flatten())
        }),
{
    let n = m.capacity(p)->Ok_0;
    lemma_ring_fits(m, p);
    lemma_whole_samples(p);
    lemma_fresh_wf(m, p, n, now_ns);
    lemma_marks_fit(m.settings, p.sample_rate, p.channels);
    let total = sent.len() * samples_per_packet(p);
    let present = order.to_set();
    vstd::seq_lib::seq_to_set_is_finite(order);
    assert(present.len() == present.remove(0).len() + 1);
    assert(total > 0 && present.len() * samples_per_packet(p) > 0) by (nonlinear_arith)
        requires
            total == sent.len() * samples_per_packet(p),
            sent.len() > 0,
            present.len() > 0,
            samples_per_packet(p) > 0,
    ;
    lemma_listened(m, h, chunks, p, sent, order, now_ns);
    let fresh = m.started(p, n, now_ns);
    assert(order.len() > 0);
    ChannelMixer::lemma_between(p.channels, m.player.channels as u8);
    assert forall|i: int| 0 <= i < chunks.len() implies (#[trigger] chunks[i]).len()
        == samples_per_packet(p) by {
        assert(sent[i].acceptable());
    }
    jitter::law_gaps_are_silence(
        samples_per_packet(p),
        n,
        fresh.jb.prebuffer_target,
        fresh.jb.high_water,
        h,
        chunks,
        order,
    );
    if forall|i: nat| i < sent.len() ==> #[trigger] order.contains(i) {
        let heard = jitter::heard(samples_per_packet(p), chunks, present);
        assert forall|i: int| 0 <= i < chunks.len() implies heard[i] == chunks[i] by {
            assert(order.contains(i as nat));
        }
        assert(heard =~= chunks);
    }
}

/// The drift tracker sees nothing of a stream that has not settled, nothing
/// right after packets were skipped, and starts over after an underrun: none
/// of these jumps of the fill is taken for drift.
pub proof fn law_jumps_are_not_drift(s: StreamModel, now_ns: u64)
    ensures
        ({
            let t = s.observed(now_ns);
            let fresh_underrun = s.jb.stats.underrun_resyncs != s.seen_underruns;
            let known = if fresh_underrun {
                Seq::<Sample>::empty()
            } else {
                s.drift.samples
            };
            &&& now_ns - s.created_ns < DRIFT_SETTLE_NS ==> t.drift.samples == known
            &&& s.jb.stats.latency_trims != s.seen_trims ==> t.drift.samples == known
            &&& fresh_underrun ==> t.drift.samples.len() <= 1 && !t.drift.warm()
        }),
{
    if s.jb.stats.underrun_resyncs != s.seen_underruns {
        let one = s.drift.cleared().samples.push(
            Sample { t_ns: now_ns, queued: s.jb.queued() as usize },
        );
        assert(one[0].t_ns == now_ns);
        assert(clock_drift::since(one, now_ns - clock_drift::WINDOW_NS) == one);
    }
}

/// `t` is where a stream `s` stands after `n` samples were popped and converted
/// and `k` converted samples were taken, but for the counts of the reorder
/// buffer.
pub open spec fn went_through(s: StreamModel, t: StreamModel, n: nat, k: nat) -> bool {
    let (jb, samples) = s.jb.popped(n);
    let whole = s.pipeline.fed(samples);
    &&& n % (s.channels as nat) == 0
    &&& k <= whole.pending.len()
    &&& t.pipeline == (PipelineModel { pending: whole.pending.skip(k as int), ..whole })
    &&& t.jb == jb.with_stats(t.jb.stats)
    &&& t == (StreamModel { jb: t.jb, pipeline: t.pipeline, ..s })
}

/// Converted samples that wait do not matter to the conversion of more.
proof fn lemma_fed_behind(s: PipelineModel, input: Seq<u32>, k: nat)
    requires
        k <= s.pending.len(),
    ensures
        ({
            let cut = PipelineModel { pending: s.pending.skip(k as int), ..s };
            cut.fed(input) == (PipelineModel {
                pending: s.fed(input).pending.skip(k as int),
                ..s.fed(input)
            })
        }),
        s.fed(input).pending.len() >= s.pending.len(),
{
    let cut = PipelineModel { pending: s.pending.skip(k as int), ..s };
    format_pipeline::law_feed_appends(s, input);
    assert(cut.fed(input).pending =~= s.fed(input).pending.skip(k as int));
}

/// Converting keeps the conversion sound.
proof fn lemma_fed_wf(s: PipelineModel, input: Seq<u32>)
    requires
        s.wf(),
    ensures
        s.fed(input).wf(),
        s.fed(input).resampler.channels == s.resampler.channels,
        s.fed(input).resampler.input_rate == s.resampler.input_rate,
        s.fed(input).resampler.output_rate == s.resampler.output_rate,
        s.fed(input).resampler.drift_active == s.resampler.drift_active,
        s.fed(input).mixer == s.mixer,
        s.fed(input).pending.len() % s.mixer.oc() == s.pending.len() % s.mixer.oc(),
{
    let oc = s.mixer.oc();
    let n = s.resampler.produced(input, s.budget(input));
    if s.resampler.frames(input) > 0 {
        assert((s.pending.len() + n * oc) as int % oc as int == s.pending.len() as int % oc as int)
            by {
            vstd::arithmetic::div_mod::lemma_mod_multiples_vanish(
                n as int,
                s.pending.len() as int,
                oc as int,
            );
            assert(oc as int * n as int == (n * oc) as int) by (nonlinear_arith);
        }
    }
}

/// Two stretches in a row are one.
proof fn lemma_went_on(
    s: StreamModel,
    t: StreamModel,
    u: StreamModel,
    n1: nat,
    k1: nat,
    n2: nat,
    k2: nat,
)
    requires
        s.jb.wf(),
        s.pipeline.wf(),
        s.channels > 0,
        s.pipeline.resampler.channels == s.channels,
        went_through(s, t, n1, k1),
        went_through(t, u, n2, k2),
    ensures
        went_through(s, u, n1 + n2, k1 + k2),
        ({
            let whole = s.pipeline.fed(s.jb.popped(n1 + n2).1);
            let first = s.pipeline.fed(s.jb.popped(n1).1);
            let second = t.pipeline.fed(t.jb.popped(n2).1);
            &&& whole.pending.take(k1 as int) == first.pending.take(k1 as int)
            &&& whole.pending.subrange(k1 as int, (k1 + k2) as int) == second.pending.take(
                k2 as int,
            )
        }),
{
    let ch = s.channels as nat;
    let (jb1, x) = s.jb.popped(n1);
    let (jb2, y) = t.jb.popped(n2);
    jitter::law_pop_keeps_wf(s.jb, n1);
    jitter::law_pop_keeps_wf(t.jb, n2);
    jitter::law_counts_do_not_steer(jb1, t.jb.stats, n2);
    jitter::law_playback_splits(s.jb, n1, n2);
    assert(t.jb == jb1.with_stats(t.jb.stats));
    assert(jb1.popped(n2).1 == y);
    let (jb, z) = s.jb.popped(n1 + n2);
    assert(z == x + y);
    let p1 = s.pipeline.fed(x);
    lemma_fed_wf(s.pipeline, x);
    format_pipeline::law_feeds_join(s.pipeline, x, y);
    let whole = s.pipeline.fed(z);
    lemma_fed_behind(p1, y, k1);
    let second = t.pipeline.fed(y);
    assert(second == (PipelineModel { pending: whole.pending.skip(k1 as int), ..whole }));
    format_pipeline::law_feed_appends(p1, y);
    assert(whole.pending.take(k1 as int) =~= p1.pending.take(k1 as int)) by {
        assert forall|i: int| 0 <= i < k1 implies whole.pending[i] == p1.pending[i] by {
            assert(whole.pending.take(p1.pending.len() as int)[i] == p1.pending[i]);
        }
    }
    assert(whole.pending.subrange(k1 as int, (k1 + k2) as int) =~= second.pending.take(k2 as int));
    assert(u.pipeline.pending =~= whole.pending.skip((k1 + k2) as int));
    vstd::arithmetic::div_mod::lemma_add_mod_noop(n1 as int, n2 as int, ch as int);
    vstd::arithmetic::div_mod::lemma_small_mod(0, ch);
    assert(u.jb == jb.with_stats(u.jb.stats));
}

/// What filling up a request comes to.
spec fn filled_up(
    s: StreamModel,
    out: Seq<MixedView<Blend>>,
    len: nat,
    rounds: nat,
    n: nat,
) -> bool {
    let (t, r) = s.topped_up(out, len, rounds);
    let whole = s.pipeline.fed(s.jb.popped(n).1);
    let k = (r.len() - out.len()) as nat;
    &&& out.len() <= r.len() <= len
    &&& r.len() % s.pipeline.mixer.oc() == 0
    &&& went_through(s, t, n, k)
    &&& r == out + whole.pending.take(k as int)
    &&& r.len() < len ==> t.pipeline.pending.len() == 0 && n >= rounds * s.channels as nat
}

#[verifier::rlimit(60)]
#[verifier::spinoff_prover]
proof fn lemma_filled_up(s: StreamModel, out: Seq<MixedView<Blend>>, len: nat, rounds: nat) -> (n:
    nat)
    requires
        s.jb.wf(),
        s.pipeline.wf(),
        s.channels > 0,
        s.pipeline.resampler.channels == s.channels,
        len % s.pipeline.mixer.oc() == 0,
        out.len() % s.pipeline.mixer.oc() == 0,
        s.pipeline.pending.len() % s.pipeline.mixer.oc() == 0,
        out.len() <= len,
        out.len() < len ==> s.pipeline.pending.len() == 0,
    ensures
        filled_up(s, out, len, rounds, n),
    decreases rounds,
{
    let oc = s.pipeline.mixer.oc();
    let ch = s.channels as nat;
    let have = out.len() / oc;
    vstd::arithmetic::div_mod::lemma_fundamental_div_mod(out.len() as int, oc as int);
    vstd::arithmetic::div_mod::lemma_fundamental_div_mod(len as int, oc as int);
    assert(have * oc == out.len() && len / oc * oc == len) by (nonlinear_arith)
        requires
            out.len() == oc * have,
            len == oc * (len / oc),
    ;
    assert(have < len / oc <==> out.len() < len) by (nonlinear_arith)
        requires
            out.len() == have * oc,
            len == len / oc * oc,
            oc > 0,
    ;
    if rounds == 0 || have >= len / oc {
        let n = 0nat;
        vstd::arithmetic::div_mod::lemma_small_mod(0, ch);
        assert(s.jb.popped(0) == (s.jb, Seq::<u32>::empty()));
        assert(s.pipeline.resampler.frames(Seq::<u32>::empty()) == 0) by (nonlinear_arith)
            requires
                ch > 0,
                s.pipeline.resampler.frames(Seq::<u32>::empty()) == 0nat / ch,
        ;
        assert(s.pipeline.pending.skip(0) =~= s.pipeline.pending);
        assert(out + s.pipeline.pending.take(0) =~= out);
        assert(0 * ch == 0) by (nonlinear_arith);
        n
    } else {
        let f = s.pull((len / oc - have) as nat);
        let room = (len - have * oc) as nat;
        let n1 = f * ch;
        let fed = s.pulled(f);
        let (next, more) = fed.taken(room);
        let k1 = more.len();
        let x = s.jb.popped(n1).1;
        assert(n1 % ch == 0) by (nonlinear_arith)
            requires
                n1 == f * ch,
                ch > 0,
        ;
        jitter::law_pop_keeps_wf(s.jb, n1);
        lemma_fed_wf(s.pipeline, x);
        assert(went_through(s, next, n1, k1));
        assert(out.take((have * oc) as int) =~= out);
        let out1 = out + more;
        let pend = fed.pipeline.pending.len();
        assert(room % oc == 0 && k1 % oc == 0 && out1.len() % oc == 0
            && next.pipeline.pending.len() % oc == 0) by {
            vstd::arithmetic::div_mod::lemma_sub_mod_noop(len as int, out.len() as int, oc as int);
            vstd::arithmetic::div_mod::lemma_add_mod_noop(out.len() as int, k1 as int, oc as int);
            vstd::arithmetic::div_mod::lemma_sub_mod_noop(pend as int, k1 as int, oc as int);
            vstd::arithmetic::div_mod::lemma_small_mod(0, oc);
        }
        let n2 = lemma_filled_up(next, out1, len, (rounds - 1) as nat);
        let (t, r) = next.topped_up(out1, len, (rounds - 1) as nat);
        let k2 = (r.len() - out1.len()) as nat;
        lemma_went_on(s, next, t, n1, k1, n2, k2);
        let whole = s.pipeline.fed(s.jb.popped(n1 + n2).1);
        assert(r =~= out + whole.pending.take((k1 + k2) as int)) by {
            let first = s.pipeline.fed(x);
            assert(more == first.pending.take(k1 as int));
            assert(whole.pending.take((k1 + k2) as int) =~= whole.pending.take(k1 as int)
                + whole.pending.subrange(k1 as int, (k1 + k2) as int));
        }
        assert(n1 >= ch && rounds * ch == (rounds - 1) * ch + ch) by (nonlinear_arith)
            requires
                n1 == f * ch,
                f >= 1,
        ;
        n1 + n2
    }
}

/// What answering a request of whole frames comes to.
spec fn answered(st: StreamModel, len: nat, n: nat, k: nat) -> bool {
    let (t, r) = st.rendered(len);
    let whole = st.pipeline.fed(st.jb.popped(n).1);
    &&& went_through(st, t, n, k)
    &&& k <= len
    &&& r matches RenderedView::Recipes(out) && out == whole.pending.take(k as int) + Seq::new(
        (len - k) as nat,
        |i: int| MixedView::<Blend>::Silence,
    )
    &&& k < len ==> t.pipeline.pending.len() == 0 && n >= MAX_PULLS * st.channels
    &&& k == st.taken(len).0.topped_up(st.taken(len).1, len, MAX_PULLS as nat).1.len()
    &&& t.pipeline.pending.len() % st.pipeline.mixer.oc() == 0
}

proof fn lemma_answered(st: StreamModel, player: PlayerConfig, len: nat) -> (r: (nat, nat))
    requires
        st.wf(player),
        !st.pipeline.passes_through(),
        len % (player.channels as nat) == 0,
        st.pipeline.pending.len() % (player.channels as nat) == 0,
    ensures
        answered(st, len, r.0, r.1),
{
    let oc = st.pipeline.mixer.oc();
    let ch = st.channels as nat;
    let (first, flushed) = st.taken(len);
    let k0 = flushed.len();
    let pend = st.pipeline.pending.len();
    assert(k0 % oc == 0 && first.pipeline.pending.len() % oc == 0) by {
        vstd::arithmetic::div_mod::lemma_sub_mod_noop(pend as int, k0 as int, oc as int);
        vstd::arithmetic::div_mod::lemma_small_mod(0, oc);
    }
    let n = lemma_filled_up(first, flushed, len, MAX_PULLS as nat);
    let (t, r) = first.topped_up(flushed, len, MAX_PULLS as nat);
    let k1 = (r.len() - k0) as nat;
    assert(went_through(st, first, 0, k0)) by {
        vstd::arithmetic::div_mod::lemma_small_mod(0, ch);
        assert(st.pipeline.resampler.frames(Seq::<u32>::empty()) == 0) by (nonlinear_arith)
            requires
                ch > 0,
                st.pipeline.resampler.frames(Seq::<u32>::empty()) == 0nat / ch,
        ;
    }
    lemma_went_on(st, first, t, 0, k0, n, k1);
    let whole = st.pipeline.fed(st.jb.popped(0 + n).1);
    assert(0 + n == n);
    assert(st.pipeline.fed(Seq::<u32>::empty()) == st.pipeline);
    assert(r =~= whole.pending.take((k0 + k1) as int)) by {
        assert(whole.pending.take((k0 + k1) as int) =~= whole.pending.take(k0 as int)
            + whole.pending.subrange(k0 as int, (k0 + k1) as int));
    }
    vstd::arithmetic::div_mod::lemma_fundamental_div_mod(r.len() as int, oc as int);
    assert(r.len() / oc * oc == r.len()) by (nonlinear_arith)
        requires
            r.len() == oc * (r.len() / oc),
    ;
    assert(r.take(r.len() as int) =~= r);
    assert(quiet((len - r.len()) as nat) =~= Seq::new(
        (len - r.len()) as nat,
        |i: int| MixedView::<Blend>::Silence,
    ));
    assert(went_through(st, t, n, k0 + k1));
    lemma_fed_wf(st.pipeline, st.jb.popped(n).1);
    assert(t.pipeline.pending.len() % oc == 0) by {
        vstd::arithmetic::div_mod::lemma_sub_mod_noop(
            whole.pending.len() as int,
            r.len() as int,
            oc as int,
        );
        vstd::arithmetic::div_mod::lemma_small_mod(0, oc);
    }
    (n, k0 + k1)
}

/// Conversion keeps the order and loses nothing. Where the formats differ, a
/// request of whole frames is answered with what was converted before and waited,
/// followed by what the next samples of the reorder buffer come to, in that
/// order; what is converted beyond the request waits for the next one. Silence
/// stands only at the end, where nothing is left waiting and the allowed number
/// of runs of input was used up.
pub proof fn law_conversion_keeps_the_order(st: StreamModel, player: PlayerConfig, len: nat)
    requires
        st.wf(player),
        !st.pipeline.passes_through(),
        len % (player.channels as nat) == 0,
        st.pipeline.pending.len() % (player.channels as nat) == 0,
    ensures
        ({
            let (t, r) = st.rendered(len);
            exists|n: nat, k: nat|
                {
                    let whole = st.pipeline.fed(st.jb.popped(n).1);
                    &&& #[trigger] went_through(st, t, n, k)
                    &&& k <= len
                    &&& r matches RenderedView::Recipes(out) && out == whole.pending.take(k as int)
                        + Seq::new((len - k) as nat, |i: int| MixedView::<Blend>::Silence)
                    &&& k < len ==> t.pipeline.pending.len() == 0 && n >= MAX_PULLS
                        * st.channels
                }
        }),
        st.rendered(len).0.pipeline.pending.len() % (player.channels as nat) == 0,
{
    let (n, k) = lemma_answered(st, player, len);
    assert(went_through(st, st.rendered(len).0, n, k));
}

/// A request that is not full is filled by one more run of input, where the
/// conversion is steady and under way.
proof fn lemma_round_fills(s: StreamModel, out: Seq<MixedView<Blend>>, len: nat, rounds: nat)
    requires
        s.jb.wf(),
        s.pipeline.wf(),
        s.channels > 0,
        s.rate > 0,
        s.pipeline.resampler.channels == s.channels,
        s.pipeline.resampler.input_rate == s.rate,
        format_pipeline::is_steady(s.pipeline.resampler),
        len % s.pipeline.mixer.oc() == 0,
        out.len() % s.pipeline.mixer.oc() == 0,
        s.pipeline.pending.len() % s.pipeline.mixer.oc() == 0,
        out.len() <= len,
        rounds >= if s.pipeline.resampler.seeded {
            1nat
        } else {
            2nat
        },
    ensures
        s.topped_up(out, len, rounds).1.len() == len,
    decreases rounds,
{
    let oc = s.pipeline.mixer.oc();
    let ch = s.channels as nat;
    let have = out.len() / oc;
    vstd::arithmetic::div_mod::lemma_fundamental_div_mod(out.len() as int, oc as int);
    vstd::arithmetic::div_mod::lemma_fundamental_div_mod(len as int, oc as int);
    assert(have * oc == out.len() && len / oc * oc == len) by (nonlinear_arith)
        requires
            out.len() == oc * have,
            len == oc * (len / oc),
    ;
    assert(have < len / oc <==> out.len() < len) by (nonlinear_arith)
        requires
            out.len() == have * oc,
            len == len / oc * oc,
            oc > 0,
    ;
    if have < len / oc {
        let need = (len / oc - have) as nat;
        let f = s.pull(need);
        let room = (len - have * oc) as nat;
        let n = f * ch;
        let x = s.jb.popped(n).1;
        jitter::law_pop_keeps_wf(s.jb, n);
        assert(n > 0 && n % ch == 0) by (nonlinear_arith)
            requires
                n == f * ch,
                f >= 1,
                ch > 0,
        ;
        vstd::arithmetic::div_mod::lemma_fundamental_div_mod_converse(
            n as int,
            ch as int,
            f as int,
            0,
        );
        arith::lemma_ceil_div_covers(
            need * s.rate as nat,
            s.pipeline.resampler.output_rate as nat,
        );
        assert(need * s.rate as nat <= f * s.pipeline.resampler.output_rate as nat) by {
            let g = arith::ceil_div(
                need * s.rate as nat,
                s.pipeline.resampler.output_rate as nat,
            );
            let or = s.pipeline.resampler.output_rate as nat;
            assert(g * or <= f * or) by (nonlinear_arith)
                requires
                    g <= f,
            ;
        }
        format_pipeline::law_steady_conversion_delivers(s.pipeline, x, need);
        lemma_fed_wf(s.pipeline, x);
        let (next, more) = s.pulled(f).taken(room);
        let out1 = out.take((have * oc) as int) + more;
        assert(room == need * oc) by (nonlinear_arith)
            requires
                room == len - have * oc,
                len == len / oc * oc,
                need == len / oc - have,
        ;
        if more.len() < room {
            assert(!s.pipeline.resampler.seeded);
            assert(out1.len() % oc == 0) by {
                vstd::arithmetic::div_mod::lemma_add_mod_noop(
                    out.len() as int,
                    more.len() as int,
                    oc as int,
                );
                vstd::arithmetic::div_mod::lemma_small_mod(0, oc);
            }
            vstd::arithmetic::div_mod::lemma_small_mod(0, oc);
            lemma_round_fills(next, out1, len, (rounds - 1) as nat);
        } else {
            assert(out1.len() == len);
        }
        assert(s.topped_up(out, len, rounds) == next.topped_up(out1, len, (rounds - 1) as nat));
    }
}

/// Nothing but silence of the sender is heard as silence: as long as the drift is
/// not corrected, a request of whole frames that takes conversion is answered
/// with converted samples alone, and so is the next one.
pub proof fn law_uncorrected_requests_are_filled(st: StreamModel, player: PlayerConfig, len: nat)
    requires
        st.wf(player),
        !st.pipeline.passes_through(),
        format_pipeline::is_steady(st.pipeline.resampler),
        len % (player.channels as nat) == 0,
        st.pipeline.pending.len() % (player.channels as nat) == 0,
    ensures
        ({
            let (t, r) = st.rendered(len);
            exists|n: nat| #[trigger]
                went_through(st, t, n, len) && r == RenderedView::Recipes(
                    st.pipeline.fed(st.jb.popped(n).1).pending.take(len as int),
                )
        }),
        format_pipeline::is_steady(st.rendered(len).0.pipeline.resampler),
        st.rendered(len).0.pipeline.pending.len() % (player.channels as nat) == 0,
{
    let oc = st.pipeline.mixer.oc();
    let (first, flushed) = st.taken(len);
    let pend = st.pipeline.pending.len();
    assert(flushed.len() % oc == 0 && first.pipeline.pending.len() % oc == 0) by {
        vstd::arithmetic::div_mod::lemma_sub_mod_noop(
            pend as int,
            flushed.len() as int,
            oc as int,
        );
        vstd::arithmetic::div_mod::lemma_small_mod(0, oc);
    }
    lemma_round_fills(first, flushed, len, MAX_PULLS as nat);
    let (n, k) = lemma_answered(st, player, len);
    let whole = st.pipeline.fed(st.jb.popped(n).1);
    assert(k == len);
    assert(whole.pending.take(k as int) + Seq::new(
        (len - k) as nat,
        |i: int| MixedView::<Blend>::Silence,
    ) =~= whole.pending.take(len as int));
    assert(went_through(st, st.rendered(len).0, n, len));
    jitter::law_pop_keeps_wf(st.jb, n);
    if n > 0 {
        assert(0 * st.pipeline.resampler.input_rate == 0) by (nonlinear_arith);
        assert(n / (st.channels as nat) * st.pipeline.resampler.output_rate >= 0)
            by (nonlinear_arith)
            requires
                n / (st.channels as nat) >= 0,
        ;
        format_pipeline::law_steady_conversion_delivers(st.pipeline, st.jb.popped(n).1, 0);
    } else {
        let ch = st.channels as nat;
        assert(st.pipeline.resampler.frames(Seq::<u32>::empty()) == 0) by (nonlinear_arith)
            requires
                ch > 0,
                st.pipeline.resampler.frames(Seq::<u32>::empty()) == 0nat / ch,
        ;
    }
}

/// `x` and `y`, each up to the silence at its end, are together what `n` samples
/// of the reorder buffer of `st` come to, from what waited on.
pub open spec fn is_one_stretch(
    st: StreamModel,
    n: nat,
    x: Seq<MixedView<Blend>>,
    k1: nat,
    y: Seq<MixedView<Blend>>,
    k2: nat,
) -> bool {
    let whole = st.pipeline.fed(st.jb.popped(n).1).pending;
    &&& k1 <= x.len() && k2 <= y.len()
    &&& k1 + k2 <= whole.len()
    &&& x.take(k1 as int) + y.take(k2 as int) == whole.take((k1 + k2) as int)
    &&& forall|i: int| k1 <= i < x.len() ==> #[trigger] x[i] == MixedView::<Blend>::Silence
    &&& forall|i: int| k2 <= i < y.len() ==> #[trigger] y[i] == MixedView::<Blend>::Silence
}

/// One request after another takes up where the last one ended: put behind one
/// another, the converted samples of the two answers are what the samples of the
/// reorder buffer come to, from what waited before the first on, with nothing
/// left out, repeated or put in another place.
#[verifier::rlimit(80)]
#[verifier::spinoff_prover]
pub proof fn law_successive_requests_follow_on(
    st: StreamModel,
    player: PlayerConfig,
    a: nat,
    b: nat,
)
    requires
        st.wf(player),
        player.channels > 0,
        !st.pipeline.passes_through(),
        a % (player.channels as nat) == 0,
        b % (player.channels as nat) == 0,
        st.pipeline.pending.len() % (player.channels as nat) == 0,
    ensures
        ({
            let (t, r1) = st.rendered(a);
            let (u, r2) = t.rendered(b);
            &&& r1 is Recipes && r1->Recipes_0.len() == a
            &&& r2 is Recipes && r2->Recipes_0.len() == b
            &&& exists|n: nat, k1: nat, k2: nat|
                #![trigger is_one_stretch(st, n, r1->Recipes_0, k1, r2->Recipes_0, k2)]
                is_one_stretch(st, n, r1->Recipes_0, k1, r2->Recipes_0, k2) && went_through(
                    st,
                    u,
                    n,
                    k1 + k2,
                )
        }),
{
    let (t, r1) = st.rendered(a);
    let (n1, k1) = lemma_answered(st, player, a);
    jitter::law_pop_keeps_wf(st.jb, n1);
    lemma_fed_wf(st.pipeline, st.jb.popped(n1).1);
    assert(t.wf(player));
    let (n2, k2) = lemma_answered(t, player, b);
    let (u, r2) = t.rendered(b);
    lemma_went_on(st, t, u, n1, k1, n2, k2);
    let n = n1 + n2;
    let whole = st.pipeline.fed(st.jb.popped(n).1).pending;
    let first = st.pipeline.fed(st.jb.popped(n1).1).pending;
    let second = t.pipeline.fed(t.jb.popped(n2).1).pending;
    let x = r1->Recipes_0;
    let y = r2->Recipes_0;
    assert(x.take(k1 as int) =~= first.take(k1 as int));
    assert(y.take(k2 as int) =~= second.take(k2 as int));
    assert(whole.take((k1 + k2) as int) =~= whole.take(k1 as int) + whole.subrange(
        k1 as int,
        (k1 + k2) as int,
    ));
    assert(is_one_stretch(st, n, x, k1, y, k2));
}

/// A run of input lasts at least as long as the output frames that are needed,
/// and by less than a frame longer; it is never empty.
pub proof fn law_a_pull_is_just_enough(st: StreamModel, need: nat)
    requires
        st.pipeline.resampler.output_rate > 0,
    ensures
        ({
            let f = st.pull(need);
            let or = st.pipeline.resampler.output_rate as nat;
            &&& f >= 1
            &&& f * or >= need * st.rate as nat
            &&& f > 1 ==> (f - 1) * or < need * st.rate as nat
        }),
{
    let or = st.pipeline.resampler.output_rate as nat;
    let x = need * st.rate as nat;
    let g = arith::ceil_div(x, or);
    let f = st.pull(need);
    arith::lemma_ceil_div_covers(x, or);
    vstd::arithmetic::div_mod::lemma_fundamental_div_mod(x as int, or as int);
    assert(g > 0 ==> (g - 1) * or < x) by (nonlinear_arith)
        requires
            x == or * (x / or) + x % or,
            x % or == 0 ==> g == x / or,
            x % or != 0 ==> g == x / or + 1,
            or > 0,
    ;
    assert(g * or <= f * or) by (nonlinear_arith)
        requires
            g <= f,
    ;
}

/// The marks of the reorder buffer are times in samples, rounded down: the target is
/// the prebuffer; packets are skipped above twice that, or above 100 ms more where
/// this is more, though not above the ring depth, and never within 50 ms of the
/// target.
pub proof fn law_queue_marks_are_times(
    settings: RxSettings,
    rate: u32,
    channels: u8,
    target: nat,
    more: nat,
    depth: nat,
    gap: nat,
)
    requires
        target * 1000 <= settings.prebuffer_ms as nat * rate as nat * (channels as nat) < (target + 1)
            * 1000,
        more * 1000 <= (settings.prebuffer_ms as nat + 100) * rate as nat * (channels as nat) < (more
            + 1) * 1000,
        depth * 1000 <= settings.rx_buffer_ms as nat * rate as nat * (channels as nat) < (depth + 1)
            * 1000,
        gap * 1000 <= 50 * rate as nat * (channels as nat) < (gap + 1) * 1000,
    ensures
        settings.target(rate, channels) == target,
        ({
            let high = settings.high_water(rate, channels);
            let wanted = if 2 * target > more {
                2 * target
            } else {
                more
            };
            let limited = if wanted > depth {
                depth
            } else {
                wanted
            };
            &&& high == if limited < target + gap {
                target + gap
            } else {
                limited
            }
        }),
{
}

/// A stream starts in the format of its packet and plays in that of the device. Its
/// marks are at least one sample; the drift tracker aims at the same target.
pub proof fn law_stream_starts_in_the_packets_format(
    settings: RxSettings,
    player: PlayerConfig,
    p: PacketView,
    capacity: nat,
    now_ns: u64,
)
    requires
        p.channels > 0,
        0 < player.channels <= 255,
        settings.target(p.sample_rate, p.channels) <= usize::MAX,
        settings.high_water(p.sample_rate, p.channels) <= usize::MAX,
    ensures
        ({
            let s = StreamModel::fresh(settings, player, p, capacity, now_ns);
            let target = settings.target(p.sample_rate, p.channels);
            let high = settings.high_water(p.sample_rate, p.channels);
            &&& s.rate == p.sample_rate && s.channels == p.channels
            &&& 4 * s.jb.samples_per_packet <= p.payload.len() < 4 * s.jb.samples_per_packet + 4
            &&& s.jb.capacity == capacity
            &&& s.jb.prebuffer_target matches Some(t) && t == if target == 0 {
                1
            } else {
                target
            }
            &&& s.jb.high_water matches Some(h) && h == if high == 0 {
                1
            } else {
                high
            }
            &&& s.drift.target == s.jb.prebuffer_target->0 && s.drift.nominal_rate == p.sample_rate
                && s.drift.channels == p.channels && s.drift.samples.len() == 0
            &&& s.pipeline.resampler.input_rate == p.sample_rate
                && s.pipeline.resampler.output_rate == player.sample_rate
                && s.pipeline.mixer.ic() == p.channels && s.pipeline.mixer.oc() == player.channels
            &&& s.pipeline.pending.len() == 0
            &&& s.seen_underruns == 0 && s.seen_trims == 0 && s.created_ns == now_ns
        }),
{
    format_pipeline::law_new_pipeline_is_idle(
        p.sample_rate,
        player.sample_rate,
        p.channels,
        player.channels as u8,
    );
}

/// The ring of a stream: none where the depth is not from 100 to 30000 ms or below
/// the prebuffer, and then a stream that is running still goes on with 32 slots.
pub proof fn law_ring_of_a_stream(m: SessionModel, p: PacketView, now_ns: u64)
    requires
        m.wf(),
        m.can_receive(Ok(p)),
    ensures
        ({
            let good = 100 <= m.settings.rx_buffer_ms <= 30_000 && m.settings.prebuffer_ms
                <= m.settings.rx_buffer_ms;
            let (t, r) = m.received(Ok(p), now_ns);
            &&& good <==> m.capacity(p) is Ok
            &&& good ==> r is Taken
            &&& good && m.stream is None ==> t.stream->0.jb.capacity == buffer_budget::capacity_for(
                m.settings.rx_buffer_ms as nat,
                p.sample_rate as nat,
                p.channels as nat,
                p.payload.len() / 4,
            )
            &&& !good && m.stream is None ==> r is Dropped && t == m
            &&& !good && (m.stream matches Some(st) && (st.rate != p.sample_rate || st.channels
                != p.channels)) ==> t.stream->0.jb.capacity == 32
        }),
{
    buffer_budget::law_ring_depth_limits(m.settings.rx_buffer_ms, m.settings.prebuffer_ms);
}

/// The fill is watched from three seconds after the start of a stream on: each look
/// that finds no newly skipped packets takes the fill in, behind what is known, or
/// behind nothing right after the ring ran empty. A look changes nothing else.
pub proof fn law_fill_is_watched(s: StreamModel, now_ns: u64)
    ensures
        ({
            let t = s.observed(now_ns);
            let emptied = s.jb.stats.underrun_resyncs != s.seen_underruns;
            let skipped = s.jb.stats.latency_trims != s.seen_trims;
            let known = DriftModel {
                samples: if emptied {
                    Seq::empty()
                } else {
                    s.drift.samples
                },
                ..s.drift
            };
            &&& t.drift == if !skipped && now_ns >= s.created_ns + 3_000_000_000 {
                known.updated(now_ns, s.jb.queued() as usize)
            } else {
                known
            }
            &&& t.seen_underruns == s.jb.stats.underrun_resyncs
            &&& t.seen_trims == s.jb.stats.latency_trims
            &&& t.jb == s.jb && t.pipeline == s.pipeline && t.rate == s.rate && t.channels
                == s.channels && t.created_ns == s.created_ns
        }),
{
}

/// A correction sets the step of the rate conversion, at least to one, and marks it
/// as corrected; it touches nothing else, and nothing without a stream.
pub proof fn law_correction_sets_the_step(m: SessionModel, step_q32: u64)
    ensures
        ({
            let t = m.corrected(step_q32);
            &&& t.settings == m.settings && t.player == m.player && t.decode_stats == m.decode_stats
            &&& m.stream is None ==> t.stream is None
            &&& m.stream matches Some(s) ==> t.stream matches Some(u) && u.jb == s.jb && u.drift
                == s.drift && u.pipeline.pending == s.pipeline.pending && u.pipeline.mixer
                == s.pipeline.mixer && u.pipeline.resampler.drift_active
                && !u.pipeline.passes_through() && (step_q32 > 0 ==> u.pipeline.resampler.step
                == step_q32) && (step_q32 == 0 ==> u.pipeline.resampler.step == 1)
                && u.pipeline.resampler.pos == s.pipeline.resampler.pos
                && u.pipeline.resampler.anchor == s.pipeline.resampler.anchor
                && u.pipeline.resampler.nominal_step == s.pipeline.resampler.nominal_step
        }),
{
}

/// A report shows what there is: the counts and the fill as they are, the fill also
/// in milliseconds, rounded down, both formats, and that samples are converted
/// exactly where the formats differ or drift was corrected.
pub proof fn law_report_shows_the_stream(st: StreamModel, player: PlayerConfig, r: StreamReport)
    requires
        st.wf(player),
        st.reported_as(r),
    ensures
        r.jitter == st.jb.stats,
        r.queued_frames == st.jb.queued(),
        ({
            let per_second = st.rate as nat * st.channels as nat;
            r.queued_ms * per_second <= st.jb.queued() * 1000 < (r.queued_ms + 1) * per_second
        }),
        r.rate == st.rate && r.channels == st.channels,
        r.player_rate == player.sample_rate && r.player_channels == player.channels,
        r.converting <==> st.rate != player.sample_rate || st.pipeline.mixer.ic() != player.channels
            || st.pipeline.resampler.drift_active,
        r.format.samples_in == st.pipeline.samples_in,
        r.format.samples_out == st.pipeline.samples_out,
        r.format.resampler_frames_in == st.pipeline.resampler.frames_in,
        r.format.resampler_frames_out == st.pipeline.resampler.frames_out,
        r.format.mixer_frames_in == st.pipeline.mixer_frames_in,
{
    law_duration_is_rounded_down(st.jb.queued(), st.rate, st.channels);
}

/// Samples in milliseconds are rounded down; without a rate or channels there is no
/// duration.
pub proof fn law_duration_is_rounded_down(samples: nat, rate: u32, channels: u8)
    ensures
        ({
            let ms = duration_ms(samples, rate, channels);
            let per_second = rate as nat * channels as nat;
            if rate > 0 && channels > 0 {
                ms * per_second <= samples * 1000 < (ms + 1) * per_second
            } else {
                ms == 0
            }
        }),
{
    let d = rate as nat * channels as nat;
    let x = samples * 1000;
    if rate > 0 && channels > 0 {
        assert(d > 0) by (nonlinear_arith)
            requires
                d == rate as nat * channels as nat,
                rate > 0,
                channels > 0,
        ;
        vstd::arithmetic::div_mod::lemma_fundamental_div_mod(x as int, d as int);
        let q = duration_ms(samples, rate, channels);
        assert(q * d <= x && x < (q + 1) * d) by (nonlinear_arith)
            requires
                x == d * q + x % d,
                0 <= x % d < d,
        ;
    }
}

/// As long as there is no stream a request gets silence, and changes nothing.
pub proof fn law_silence_without_a_stream(m: SessionModel, len: nat)
    requires
        m.stream is None,
    ensures
        m.rendered(len).0 == m,
        m.rendered(len).1 matches RenderedView::Samples(v) && v.len() == len && forall|i: int|
            0 <= i < len ==> #[trigger] v[i] == 0u32,
{
}

/// A packet in the format of the running stream, by rate, channels and length, goes
/// to its reorder buffer with its own sequence number and samples; nothing else of
/// the stream or the session changes.
pub proof fn law_running_stream_takes_the_packet(
    m: SessionModel,
    st: StreamModel,
    p: PacketView,
    now_ns: u64,
)
    requires
        m.stream == Some(st),
        p.sample_rate == st.rate,
        p.channels == st.channels,
        4 * st.jb.samples_per_packet <= p.payload.len() < 4 * st.jb.samples_per_packet + 4,
    ensures
        ({
            let (jb, outcome) = st.jb.pushed(p.sequence, protocol::samples_of(p.payload));
            m.received(Ok(p), now_ns) == (
                SessionModel { stream: Some(StreamModel { jb, ..st }), ..m },
                Received::Taken { start: Start::Running, outcome },
            )
        }),
{
}

/// A request that has to be converted is filled from what is pending and from up to
/// eight runs of input.
pub proof fn law_up_to_eight_runs_of_input(st: StreamModel, len: nat)
    requires
        !st.pipeline.passes_through(),
    ensures
        ({
            let (first, flushed) = st.taken(len);
            st.rendered(len).0 == first.topped_up(flushed, len, 8).0
        }),
{
}

/// The log mentions every datagram but those that are stored, late or there already.
pub proof fn law_ordinary_packets_are_not_logged(r: Received, mentioned: bool)
    requires
        call_ensures(Received::is_noteworthy, (&r,), mentioned),
    ensures
        r is Refused || r is Dropped ==> mentioned,
        r matches Received::Taken { start, outcome } ==> (mentioned <==> outcome
            == PushOutcome::MidReadCollision || outcome == PushOutcome::StreamReset),
{
}

/// A session plays and watches its stream, and changes nothing else.
pub proof fn law_session_plays_its_stream(m: SessionModel, st: StreamModel, len: nat, now_ns: u64)
    requires
        m.stream == Some(st),
    ensures
        m.rendered(len) == (
            SessionModel { stream: Some(st.rendered(len).0), ..m },
            st.rendered(len).1,
        ),
        m.observed(now_ns) == (SessionModel { stream: Some(st.observed(now_ns)), ..m }),
{
}

} // verus!
