//! The sending side: chunks of captured audio in, datagrams out.
//!
//! Before the stream starts, a plan fixes how many samples go into a packet
//! and whether such packets fit the link. Then one packet is sent per chunk,
//! paced by a clock that bursts to catch up after a stall, but not for long.
//!
//! Times are nanoseconds from any fixed moment.

use crate::capture_ring::{CaptureModel, CaptureRing};
use crate::jitter;
use crate::mtu_budget;
use crate::mtu_budget::{MtuBudget, MtuError};
use crate::protocol;
use crate::protocol::{Packet, PacketView, SampleFormat, HEADER_LEN, MAX_PAYLOAD_LEN};
use crate::receiver;
use crate::text;
use vstd::prelude::*;

verus! {

/// How far the pace may fall behind before what was missed is given up.
pub const SEND_CATCHUP_BOUND_NS: u64 = 200_000_000;

/// The most bytes that one packet can have.
pub const MAX_PACKET_BYTES: usize = 65_560;

/// Transient errors are logged at most once in this time.
pub const ERROR_LOG_INTERVAL_NS: u64 = 1_000_000_000;

/// How long a paused sender sleeps before it looks again.
pub const PAUSE_POLL_MS: u64 = 250;

/// Frames in a chunk of `chunk_ms` milliseconds.
pub open spec fn frames_in(sample_rate: u32, chunk_ms: nat) -> nat {
    sample_rate as nat * chunk_ms / 1000
}

/// Bytes of the packet for a chunk of `chunk_ms` milliseconds.
pub open spec fn packet_bytes(sample_rate: u32, channels: u8, chunk_ms: nat) -> nat {
    HEADER_LEN as nat + frames_in(sample_rate, chunk_ms) * channels as nat * 4
}

/// The longest chunk, in milliseconds, that one packet can carry.
pub open spec fn longest_chunk_ms(sample_rate: u32, channels: u8) -> nat {
    MAX_PAYLOAD_LEN as nat / 4 / channels as nat * 1000 / sample_rate as nat
}

/// The chunk length, in milliseconds, to suggest where packets are split.
pub open spec fn advised_chunk_ms(max_chunk_samples: nat, sample_rate: u32, channels: u8) -> nat {
    max_chunk_samples * 1000 / (sample_rate as nat * channels as nat)
}

/// The shape of the packets of a stream.
#[derive(Debug, Clone, Copy, PartialEq, Eq, Structural)]
pub struct SendPlan {
    pub chunk_ms: usize,
    pub sample_rate: u32,
    pub channels: u8,
    /// Frames in a chunk.
    pub chunk_frames: usize,
    /// Interleaved samples in a chunk.
    pub chunk_samples: usize,
    /// Bytes of a packet.
    pub payload_bytes: usize,
    pub budget: MtuBudget,
}

/// A chunk does not fit into one packet.
#[derive(Debug, Clone, Copy, PartialEq, Eq, Structural)]
pub struct ChunkTooLarge {
    pub chunk_ms: usize,
    pub sample_rate: u32,
    pub channels: u8,
    pub payload_bytes: usize,
    /// The longest chunk that fits.
    pub max_ms: usize,
}

impl ChunkTooLarge {
    /// The error in words.
    pub open spec fn spec_message(self) -> Seq<char> {
        "--chunk-ms "@ + text::decimal(self.chunk_ms as nat) + " at "@ + text::decimal(
            self.sample_rate as nat,
        ) + " Hz × "@ + text::decimal(self.channels as nat) + " ch produces "@ + text::decimal(
            self.payload_bytes as nat,
        ) + " bytes per packet, exceeding the protocol limit of "@ + text::decimal(
            MAX_PACKET_BYTES as nat,
        ) + " bytes. Lower --chunk-ms to "@ + text::decimal(self.max_ms as nat) + " or fewer."@
    }

    /// The error in words.
    pub fn message(&self) -> (r: String)
        ensures
            r@ == self.spec_message(),
    {
        let mut out: String = "--chunk-ms ".to_owned();
        text::push_decimal(&mut out, self.chunk_ms as u64);
        out.append(" at ");
        text::push_decimal(&mut out, self.sample_rate as u64);
        out.append(" Hz × ");
        text::push_decimal(&mut out, self.channels as u64);
        out.append(" ch produces ");
        text::push_decimal(&mut out, self.payload_bytes as u64);
        out.append(" bytes per packet, exceeding the protocol limit of ");
        text::push_decimal(&mut out, MAX_PACKET_BYTES as u64);
        out.append(" bytes. Lower --chunk-ms to ");
        text::push_decimal(&mut out, self.max_ms as u64);
        out.append(" or fewer.");
        assert(out@ =~= self.spec_message());
        out
    }
}

impl SendPlan {
    /// What every plan keeps.
    pub open spec fn wf(self) -> bool {
        &&& self.channels > 0
        &&& self.chunk_frames == frames_in(self.sample_rate, self.chunk_ms as nat)
        &&& self.chunk_samples == self.chunk_frames * self.channels
        &&& self.payload_bytes == packet_bytes(
            self.sample_rate,
            self.channels,
            self.chunk_ms as nat,
        )
        &&& self.budget.max_chunk_samples <= 65_535
    }

    /// The plan for the given link, chunk length and audio format.
    pub fn new(mtu: usize, chunk_ms: usize, sample_rate: u32, channels: u8) -> (r: Result<
        SendPlan,
        MtuError,
    >)
        requires
            sample_rate * chunk_ms <= usize::MAX,
            packet_bytes(sample_rate, channels, chunk_ms as nat) <= usize::MAX,
        ensures
            match r {
                Err(e) => match mtu_budget::mtu_in_range(mtu) {
                    Err(bad) => e == bad,
                    Ok(_) => mtu_budget::frames_that_fit(mtu, channels) == 0 && e
                        == (MtuError::NoFrameFits {
                        mtu,
                        channels,
                        max_payload: (mtu - mtu_budget::FRAMING_OVERHEAD_BYTES) as usize,
                        max_chunk_samples: 0,
                    }),
                },
                Ok(p) => {
                    &&& mtu_budget::mtu_in_range(mtu) is Ok
                    &&& mtu_budget::frames_that_fit(mtu, channels) > 0
                    &&& p.wf()
                    &&& p.chunk_ms == chunk_ms && p.sample_rate == sample_rate && p.channels
                        == channels
                    &&& p.budget.max_payload_bytes == mtu - mtu_budget::FRAMING_OVERHEAD_BYTES
                    &&& p.budget.max_chunk_samples == mtu_budget::frames_that_fit(mtu, channels)
                },
            },
    {
        let budget: MtuBudget = match mtu_budget::compute_budget(mtu, channels) {
            Ok(b) => b,
            Err(e) => {
                return Err(e);
            },
        };
        proof {
            let a = (mtu - mtu_budget::FRAMING_OVERHEAD_BYTES) as nat;
            let d = channels as nat * 4;
            assert(a / d <= a) by (nonlinear_arith)
                requires
                    d > 0,
            ;
        }
        let chunk_frames: usize = sample_rate as usize * chunk_ms / 1000;
        let chunk_samples: usize = chunk_frames * channels as usize;
        Ok(
            SendPlan {
                chunk_ms,
                sample_rate,
                channels,
                chunk_frames,
                chunk_samples,
                payload_bytes: HEADER_LEN + chunk_samples * 4,
                budget,
            },
        )
    }

    /// Whether packets fit the link without being split.
    pub fn fits_in_mtu(&self) -> (r: bool)
        ensures
            r == (self.payload_bytes <= self.budget.max_payload_bytes),
    {
        self.payload_bytes <= self.budget.max_payload_bytes
    }

    /// The chunk length to suggest where packets are split.
    pub fn max_fitting_chunk_ms(&self) -> (r: usize)
        requires
            self.wf(),
            self.sample_rate > 0,
            self.sample_rate * self.channels <= usize::MAX,
        ensures
            r == advised_chunk_ms(
                self.budget.max_chunk_samples as nat,
                self.sample_rate,
                self.channels,
            ),
    {
        proof {
            let f = self.sample_rate as nat;
            let c = self.channels as nat;
            assert(f * c > 0) by (nonlinear_arith)
                requires
                    f > 0,
                    c > 0,
            ;
        }
        self.budget.max_chunk_samples * 1000 / (self.sample_rate as usize * self.channels as usize)
    }

    /// A stream can be sent if a chunk fits into one packet.
    pub fn check_size(&self) -> (r: Result<(), ChunkTooLarge>)
        requires
            self.wf(),
        ensures
            r is Ok <==> self.payload_bytes <= MAX_PACKET_BYTES,
            r matches Err(e) ==> e == (ChunkTooLarge {
                chunk_ms: self.chunk_ms,
                sample_rate: self.sample_rate,
                channels: self.channels,
                payload_bytes: self.payload_bytes,
                max_ms: longest_chunk_ms(self.sample_rate, self.channels) as usize,
            }),
    {
        if self.payload_bytes > HEADER_LEN + MAX_PAYLOAD_LEN {
            // At a rate of zero there is nothing in a chunk.
            assert(self.sample_rate > 0) by {
                let ms = self.chunk_ms as nat;
                let c = self.channels as nat;
                assert(0 * ms == 0 && 0 * c == 0) by (nonlinear_arith);
            }
            let frames: usize = MAX_PAYLOAD_LEN / 4 / self.channels as usize;
            assert(frames <= 16383) by (nonlinear_arith)
                requires
                    frames == 16383nat / self.channels as nat,
                    self.channels > 0,
            ;
            let max_ms: usize = frames * 1000 / self.sample_rate as usize;
            return Err(
                ChunkTooLarge {
                    chunk_ms: self.chunk_ms,
                    sample_rate: self.sample_rate,
                    channels: self.channels,
                    payload_bytes: self.payload_bytes,
                    max_ms,
                },
            );
        }
        Ok(())
    }
}

/// The chunk length that the error names does fit into one packet.
pub proof fn law_longest_chunk_fits(sample_rate: u32, channels: u8)
    requires
        sample_rate > 0,
        channels > 0,
    ensures
        packet_bytes(sample_rate, channels, longest_chunk_ms(sample_rate, channels))
            <= MAX_PACKET_BYTES,
{
    let f = sample_rate as nat;
    let c = channels as nat;
    let k = 16383nat / c;
    let ms = k * 1000 / f;
    assert(f * ms <= k * 1000) by (nonlinear_arith)
        requires
            ms == k * 1000 / f,
            f > 0,
    ;
    let frames = f * ms / 1000;
    assert(frames <= k);
    assert(frames * c <= k * c && k * c <= 16383) by (nonlinear_arith)
        requires
            frames <= k,
            k == 16383nat / c,
            c > 0,
    ;
}

/// The chunk length that is suggested where packets are split makes packets
/// that the link carries whole.
pub proof fn law_advised_chunk_is_not_split(mtu: usize, sample_rate: u32, channels: u8)
    requires
        mtu_budget::MTU_MIN_BYTES <= mtu <= mtu_budget::MTU_MAX_BYTES,
        sample_rate > 0,
        channels > 0,
    ensures
        ({
            let ms = advised_chunk_ms(
                mtu_budget::frames_that_fit(mtu, channels),
                sample_rate,
                channels,
            );
            packet_bytes(sample_rate, channels, ms) + (mtu_budget::FRAMING_OVERHEAD_BYTES
                - HEADER_LEN) <= mtu
        }),
{
    let f = sample_rate as nat;
    let c = channels as nat;
    let n = mtu_budget::frames_that_fit(mtu, channels);
    let d = f * c;
    assert(d > 0) by (nonlinear_arith)
        requires
            f > 0,
            c > 0,
            d == f * c,
    ;
    let ms = n * 1000 / d;
    mtu_budget::law_budget_is_tight(mtu, channels);
    assert(d * ms <= n * 1000) by (nonlinear_arith)
        requires
            ms == n * 1000 / d,
            d > 0,
    ;
    let frames = f * ms / 1000;
    assert(frames * 1000 <= f * ms);
    assert(frames * c * 1000 <= d * ms) by (nonlinear_arith)
        requires
            frames * 1000 <= f * ms,
            d == f * c,
    ;
    assert(frames * c <= n);
    assert(n * (c * 4) >= n * 4) by (nonlinear_arith)
        requires
            c > 0,
    ;
}

/// Keeps the pace of one packet per period.
#[derive(Debug, Clone, Copy, PartialEq, Eq, Structural)]
pub struct Pacer {
    /// When the next packet is due.
    pub next_tick_ns: u64,
}

impl Pacer {
    /// A pace that starts at the time `now_ns`.
    pub fn new(now_ns: u64) -> (r: Pacer)
        ensures
            r.next_tick_ns == now_ns,
    {
        Pacer { next_tick_ns: now_ns }
    }

    /// When the packet after the next is due, seen at the time `now_ns`.
    pub open spec fn due(self, now_ns: u64, period_ns: u64) -> int {
        let next = self.next_tick_ns + period_ns;
        if now_ns - next > SEND_CATCHUP_BOUND_NS {
            now_ns - SEND_CATCHUP_BOUND_NS
        } else {
            next
        }
    }

    /// How long to sleep, seen at the time `now_ns`, until the packet after the next
    /// is due.
    pub open spec fn sleep(self, now_ns: u64, period_ns: u64) -> int {
        if self.due(now_ns, period_ns) > now_ns {
            self.due(now_ns, period_ns) - now_ns
        } else {
            0
        }
    }

    /// Moves on by one period and returns how long to sleep: until the packet
    /// is due, or not at all where it is overdue. What lies more than
    /// `SEND_CATCHUP_BOUND_NS` back is given up.
    pub fn tick(&mut self, now_ns: u64, period_ns: u64) -> (sleep_ns: u64)
        requires
            old(self).next_tick_ns + period_ns <= u64::MAX,
        ensures
            final(self).next_tick_ns == old(self).due(now_ns, period_ns),
            sleep_ns == if final(self).next_tick_ns > now_ns {
                final(self).next_tick_ns - now_ns
            } else {
                0
            },
            sleep_ns == old(self).sleep(now_ns, period_ns),
    {
        self.next_tick_ns = self.next_tick_ns + period_ns;
        if self.next_tick_ns > now_ns {
            self.next_tick_ns - now_ns
        } else {
            if now_ns - self.next_tick_ns > SEND_CATCHUP_BOUND_NS {
                self.next_tick_ns = now_ns - SEND_CATCHUP_BOUND_NS;
            }
            0
        }
    }

    /// Starts over at the time `now_ns`: nothing is made up for.
    pub fn reset(&mut self, now_ns: u64)
        ensures
            final(self).next_tick_ns == now_ns,
    {
        self.next_tick_ns = now_ns;
    }
}

/// A stall makes up for at most the bound: what is sent in a burst afterwards
/// is limited.
pub proof fn law_bursts_are_bounded(p: Pacer, now_ns: u64, period_ns: u64)
    ensures
        now_ns - p.due(now_ns, period_ns) <= SEND_CATCHUP_BOUND_NS,
{
}

/// `k` packets after `start`, if no stall was longer than the bound.
pub open spec fn kept_pace(start: nat, period: nat, k: nat) -> nat {
    start + k * period
}

/// No time is lost: as long as the pace falls behind by no more than the
/// bound, packet `k` is due exactly `k` periods after the start, however late
/// the ones before were sent.
pub proof fn law_pace_does_not_slip(p: Pacer, start: nat, k: nat, now_ns: u64, period_ns: u64)
    requires
        p.next_tick_ns == kept_pace(start, period_ns as nat, k),
        now_ns - (p.next_tick_ns + period_ns) <= SEND_CATCHUP_BOUND_NS,
    ensures
        p.due(now_ns, period_ns) == kept_pace(start, period_ns as nat, k + 1),
{
    assert((k + 1) * period_ns as nat == k * period_ns as nat + period_ns as nat)
        by (nonlinear_arith);
}

/// What a ring holds, where there is one.
pub open spec fn ring_model(ring: Option<CaptureRing>) -> Option<CaptureModel> {
    match ring {
        Some(c) => Some(c@),
        None => None,
    }
}

/// The next chunk of captured audio, and what the ring holds then.
pub open spec fn chunk_from(ring: Option<CaptureModel>, n: nat) -> (Option<CaptureModel>, Seq<u32>) {
    match ring {
        None => (None, jitter::silence(n)),
        Some(c) => match c.taken(n) {
            (rest, Some(chunk)) => (Some(rest), chunk),
            (rest, None) => (Some(rest), jitter::silence(n)),
        },
    }
}

/// The next chunk of captured audio: the oldest samples, or silence where
/// there are not enough yet.
pub fn next_chunk(ring: &mut Option<CaptureRing>, chunk_samples: usize) -> (r: Vec<u32>)
    requires
        *old(ring) matches Some(c) ==> c@.wf(),
    ensures
        *final(ring) matches Some(c) ==> c@.wf(),
        match *old(ring) {
            None => *final(ring) is None && r@ == jitter::silence(chunk_samples as nat),
            Some(c) => *final(ring) is Some && if c@.samples.len() >= chunk_samples {
                r@ == c@.samples.take(chunk_samples as int) && (*final(ring))->0@ == (CaptureModel {
                    samples: c@.samples.skip(chunk_samples as int),
                    ..c@
                })
            } else {
                r@ == jitter::silence(chunk_samples as nat) && (*final(ring))->0@ == c@
            },
        },
        (ring_model(*final(ring)), r@) == chunk_from(ring_model(*old(ring)), chunk_samples as nat),
{
    if let Some(mut c) = ring.take() {
        let popped: Option<Vec<u32>> = c.pop_chunk(chunk_samples);
        *ring = Some(c);
        if let Some(chunk) = popped {
            return chunk;
        }
    }
    let quiet: Vec<u32> = vec![0u32; chunk_samples];
    assert(quiet@ =~= jitter::silence(chunk_samples as nat));
    quiet
}

/// While paused, captured audio is thrown away and the pace starts over, so
/// that nothing old is sent after resuming.
pub fn hold_while_paused(ring: &mut Option<CaptureRing>, pacer: &mut Pacer, now_ns: u64)
    requires
        *old(ring) matches Some(c) ==> c@.wf(),
    ensures
        final(pacer).next_tick_ns == now_ns,
        match *old(ring) {
            None => *final(ring) is None,
            Some(c) => *final(ring) is Some && (*final(ring))->0@.wf() && (*final(ring))->0@ == (
            CaptureModel { samples: Seq::empty(), ..c@ }),
        },
{
    if let Some(mut c) = ring.take() {
        c.clear();
        *ring = Some(c);
    }
    pacer.reset(now_ns);
}

/// How handing a datagram to the network ended.
#[derive(Debug, Clone, Copy, PartialEq, Eq, Structural)]
pub enum SendOutcome {
    Sent,
    /// Nobody listens at the other end at the moment.
    Transient,
    /// Any other error.
    Fatal,
}

/// What the send loop does next.
#[derive(Debug, Clone, Copy, PartialEq, Eq, Structural)]
pub enum SendStep {
    /// Go on, and log the error if `log` is set.
    Continue { log: bool },
    /// Stop with the error.
    Stop,
}

/// The sending side of a stream.
#[derive(Debug, Clone, Copy, PartialEq, Eq, Structural)]
pub struct Transmitter {
    /// Sequence number of the next packet.
    pub seq: u32,
    pub sample_rate: u32,
    pub channels: u8,
    /// Frames in a chunk.
    pub chunk_frames: usize,
    /// Larger packets are split on their way.
    pub max_payload_bytes: usize,
    pub packets_sent: u64,
    pub send_errors: u64,
    /// Packets larger than `max_payload_bytes`.
    pub fragmentations: u64,
    /// When a transient error was last logged.
    pub last_error_log_ns: Option<u64>,
}

impl Transmitter {
    /// The beginning of a stream.
    pub fn new(plan: &SendPlan) -> (r: Transmitter)
        ensures
            r == (Transmitter {
                seq: 0,
                sample_rate: plan.sample_rate,
                channels: plan.channels,
                chunk_frames: plan.chunk_frames,
                max_payload_bytes: plan.budget.max_payload_bytes,
                packets_sent: 0,
                send_errors: 0,
                fragmentations: 0,
                last_error_log_ns: None,
            }),
    {
        Transmitter {
            seq: 0,
            sample_rate: plan.sample_rate,
            channels: plan.channels,
            chunk_frames: plan.chunk_frames,
            max_payload_bytes: plan.budget.max_payload_bytes,
            packets_sent: 0,
            send_errors: 0,
            fragmentations: 0,
            last_error_log_ns: None,
        }
    }

    /// The packet that carries `samples` next. It is stamped with the number
    /// of frames before it.
    pub open spec fn packet(self, samples: Seq<u32>) -> PacketView {
        PacketView {
            sequence: self.seq,
            frame_timestamp: (self.seq * self.chunk_frames) as u64,
            sample_rate: self.sample_rate,
            channels: self.channels,
            sample_format: SampleFormat::F32,
            payload: protocol::sample_bytes(samples),
        }
    }

    /// A packet of `n` samples is larger than the link carries whole.
    pub open spec fn splits(self, n: nat) -> bool {
        HEADER_LEN as nat + 4 * n > self.max_payload_bytes
    }

    /// What is counted when a packet of `n` samples is made.
    pub open spec fn after_packing(self, n: nat) -> Transmitter {
        Transmitter {
            fragmentations: if self.splits(n) {
                (self.fragmentations + 1) as u64
            } else {
                self.fragmentations
            },
            ..self
        }
    }

    /// The datagram that carries `samples` next. It is counted where it is
    /// larger than the link carries whole.
    pub fn datagram(&mut self, samples: &[u32]) -> (r: Vec<u8>)
        requires
            old(self).channels > 0,
            samples@.len() % old(self).channels as nat == 0,
            samples@.len() * 4 <= MAX_PAYLOAD_LEN,
            old(self).chunk_frames <= 0xffff_ffff,
            old(self).fragmentations < u64::MAX,
        ensures
            r@ == old(self).packet(samples@).encoded(),
            r@.len() == HEADER_LEN + 4 * samples@.len(),
            *final(self) == old(self).after_packing(samples@.len()),
    {
        proof {
            protocol::lemma_sample_bytes_len(samples@);
            assert(self.seq * self.chunk_frames <= 0xffff_ffff * 0xffff_ffff) by (nonlinear_arith)
                requires
                    self.seq <= 0xffff_ffff,
                    self.chunk_frames <= 0xffff_ffff,
            ;
        }
        let stamp: u64 = self.seq as u64 * self.chunk_frames as u64;
        let p: Packet = Packet::new(self.seq, stamp, self.sample_rate, self.channels, samples);
        let encoded: Vec<u8> = p.encode();
        proof {
            protocol::lemma_encoded_len(p@);
        }
        if encoded.len() > self.max_payload_bytes {
            self.fragmentations = self.fragmentations + 1;
        }
        encoded
    }

    /// A transient error at the time `now_ns` is due to be logged.
    pub open spec fn log_due(self, now_ns: u64) -> bool {
        self.last_error_log_ns matches Some(t) ==> now_ns - t >= ERROR_LOG_INTERVAL_NS
    }

    /// What is counted after sending ended with `outcome`. The sequence goes
    /// on unless the stream stops.
    pub open spec fn after_send(self, outcome: SendOutcome, now_ns: u64) -> (Transmitter, SendStep) {
        match outcome {
            SendOutcome::Sent => (
                Transmitter {
                    seq: jitter::next_seq(self.seq),
                    packets_sent: (self.packets_sent + 1) as u64,
                    ..self
                },
                SendStep::Continue { log: false },
            ),
            SendOutcome::Transient => (
                Transmitter {
                    seq: jitter::next_seq(self.seq),
                    send_errors: (self.send_errors + 1) as u64,
                    last_error_log_ns: if self.log_due(now_ns) {
                        Some(now_ns)
                    } else {
                        self.last_error_log_ns
                    },
                    ..self
                },
                SendStep::Continue { log: self.log_due(now_ns) },
            ),
            SendOutcome::Fatal => (self, SendStep::Stop),
        }
    }

    /// Counts how sending ended, and says what to do next.
    pub fn finish_send(&mut self, outcome: SendOutcome, now_ns: u64) -> (r: SendStep)
        requires
            old(self).packets_sent < u64::MAX,
            old(self).send_errors < u64::MAX,
        ensures
            (*final(self), r) == old(self).after_send(outcome, now_ns),
    {
        let step: SendStep = match outcome {
            SendOutcome::Fatal => {
                return SendStep::Stop;
            },
            SendOutcome::Sent => {
                self.packets_sent = self.packets_sent + 1;
                SendStep::Continue { log: false }
            },
            SendOutcome::Transient => {
                self.send_errors = self.send_errors + 1;
                let log: bool = match self.last_error_log_ns {
                    None => true,
                    Some(t) => now_ns >= t && now_ns - t >= ERROR_LOG_INTERVAL_NS,
                };
                if log {
                    self.last_error_log_ns = Some(now_ns);
                }
                SendStep::Continue { log }
            },
        };
        self.seq = self.seq.wrapping_add(1);
        step
    }
}

/// Every packet that carries at least one frame is one that receivers accept.
pub proof fn law_packets_are_acceptable(t: Transmitter, samples: Seq<u32>)
    requires
        t.channels > 0,
        samples.len() > 0,
        samples.len() % t.channels as nat == 0,
        samples.len() * 4 <= MAX_PAYLOAD_LEN,
    ensures
        t.packet(samples).acceptable(),
{
    protocol::lemma_sample_bytes_len(samples);
    let n = samples.len() as int;
    let c = t.channels as int;
    vstd::arithmetic::div_mod::lemma_fundamental_div_mod(n, c);
    let q = n / c;
    assert(4 * n == (4 * c) * q) by (nonlinear_arith)
        requires
            n == c * q,
    ;
    vstd::arithmetic::div_mod::lemma_fundamental_div_mod_converse(4 * n, 4 * c, q, 0);
}

/// One packet of a stream: how many samples it carries, and how and when
/// sending it ended.
pub struct Sending {
    pub samples: nat,
    pub outcome: SendOutcome,
    pub now_ns: u64,
}

/// The sending side after a run of packets.
pub open spec fn after_run(t: Transmitter, run: Seq<Sending>) -> Transmitter
    decreases run.len(),
{
    if run.len() == 0 {
        t
    } else {
        let s = run.last();
        after_run(t, run.drop_last()).after_packing(s.samples).after_send(s.outcome, s.now_ns).0
    }
}

/// Nothing is sent twice and nothing is passed over. After a run of packets that
/// did not stop the stream, the next one has the sequence number that is as many
/// steps on, starting over after the highest, and is stamped with its sequence
/// number times the frames of a chunk. Every packet was counted as sent or as
/// failed, and those that the link does not carry whole as split.
pub proof fn law_packets_follow_on(t: Transmitter, run: Seq<Sending>, next: Seq<u32>)
    requires
        t.chunk_frames <= 0xffff_ffff,
        forall|i: int| 0 <= i < run.len() ==> (#[trigger] run[i]).outcome != SendOutcome::Fatal,
        t.fragmentations + run.len() <= u64::MAX,
        t.packets_sent + t.send_errors + run.len() <= u64::MAX,
    ensures
        ({
            let u = after_run(t, run);
            let p = u.packet(next);
            &&& p.sequence == (t.seq + run.len()) % 0x1_0000_0000
            &&& p.frame_timestamp == p.sequence * t.chunk_frames
            &&& u.packets_sent + u.send_errors == t.packets_sent + t.send_errors + run.len()
            &&& u.fragmentations == t.fragmentations + run.filter(
                |s: Sending| t.splits(s.samples),
            ).len()
        }),
    decreases run.len(),
{
    let larger = |s: Sending| t.splits(s.samples);
    let u = after_run(t, run);
    reveal(Seq::filter);
    if run.len() > 0 {
        let before = run.drop_last();
        assert forall|i: int| 0 <= i < before.len() implies (#[trigger] before[i]).outcome
            != SendOutcome::Fatal by {
            assert(before[i] == run[i]);
        }
        law_packets_follow_on(t, before, next);
        lemma_run_keeps_format(t, before);
        assert(run[run.len() - 1].outcome != SendOutcome::Fatal);
        before.lemma_filter_len(larger);
    }
    lemma_run_keeps_format(t, run);
    let s = u.seq as nat;
    let f = t.chunk_frames as nat;
    assert(s * f <= 0xffff_ffff * 0xffff_ffff) by (nonlinear_arith)
        requires
            s <= 0xffff_ffff,
            f <= 0xffff_ffff,
    ;
}

/// A run leaves the shape of the packets alone.
proof fn lemma_run_keeps_format(t: Transmitter, run: Seq<Sending>)
    ensures
        after_run(t, run).chunk_frames == t.chunk_frames,
        after_run(t, run).max_payload_bytes == t.max_payload_bytes,
        after_run(t, run).sample_rate == t.sample_rate,
        after_run(t, run).channels == t.channels,
    decreases run.len(),
{
    if run.len() > 0 {
        lemma_run_keeps_format(t, run.drop_last());
    }
}

/// A datagram says what it carries: a receiver reads from it, whatever bytes
/// follow, the stream's own rate and channel count, the next sequence number, the
/// number of frames before it, and the very samples that were put in.
pub proof fn law_datagram_says_what_it_carries(t: Transmitter, samples: Seq<u32>, trailing: Seq<u8>)
    requires
        t.channels > 0,
        samples.len() > 0,
        samples.len() % t.channels as nat == 0,
        samples.len() * 4 <= 65535,
        t.chunk_frames <= 0xffff_ffff,
    ensures
        ({
            let d = t.packet(samples).encoded();
            &&& d.len() == 25 + 4 * samples.len()
            &&& protocol::decoded(d + trailing) matches Ok(p) && p.sample_rate == t.sample_rate
                && p.channels == t.channels && p.sequence == t.seq && p.frame_timestamp == t.seq
                * t.chunk_frames && p.sample_format == SampleFormat::F32 && protocol::samples_of(
                p.payload,
            ) == samples && p.payload == protocol::sample_bytes(samples)
        }),
{
    law_packets_are_acceptable(t, samples);
    let p = t.packet(samples);
    protocol::law_decode_encode(p, trailing);
    protocol::law_samples_round_trip(samples);
    protocol::lemma_sample_bytes_len(samples);
    protocol::law_wire_layout(p);
    let s = t.seq as nat;
    let f = t.chunk_frames as nat;
    assert(s * f <= 0xffff_ffff * 0xffff_ffff) by (nonlinear_arith)
        requires
            s <= 0xffff_ffff,
            f <= 0xffff_ffff,
    ;
}

/// Sending ends in one of three ways: a packet that went out is counted as sent,
/// one that met nobody is counted as failed and the stream goes on, and any other
/// error stops the stream where it is. Failures are logged at most once a second.
pub proof fn law_outcomes_are_counted_apart(t: Transmitter, outcome: SendOutcome, now_ns: u64)
    requires
        t.packets_sent < u64::MAX,
        t.send_errors < u64::MAX,
    ensures
        ({
            let (u, step) = t.after_send(outcome, now_ns);
            let next = if t.seq == 0xffff_ffff {
                0int
            } else {
                t.seq + 1
            };
            &&& match outcome {
                SendOutcome::Sent => u.packets_sent == t.packets_sent + 1 && u.send_errors
                    == t.send_errors && u.seq == next && u.last_error_log_ns == t.last_error_log_ns
                    && step == (SendStep::Continue { log: false }),
                SendOutcome::Transient => {
                    let due = match t.last_error_log_ns {
                        None => true,
                        Some(last) => now_ns >= last + 1_000_000_000,
                    };
                    &&& u.send_errors == t.send_errors + 1 && u.packets_sent == t.packets_sent
                        && u.seq == next
                    &&& step == (SendStep::Continue { log: due })
                    &&& u.last_error_log_ns == if due {
                        Some(now_ns)
                    } else {
                        t.last_error_log_ns
                    }
                },
                SendOutcome::Fatal => u == t && step == SendStep::Stop,
            }
            &&& u.fragmentations == t.fragmentations
            &&& u.sample_rate == t.sample_rate && u.channels == t.channels && u.chunk_frames
                == t.chunk_frames && u.max_payload_bytes == t.max_payload_bytes
        }),
{
}

/// A packet is counted as split exactly where its 25 bytes of header and four
/// bytes a sample are more than the link carries whole; making a packet changes
/// nothing else.
pub proof fn law_split_packets_are_counted(t: Transmitter, n: nat)
    requires
        t.fragmentations < u64::MAX,
    ensures
        t.after_packing(n).fragmentations == t.fragmentations + if 25 + 4 * n
            > t.max_payload_bytes {
            1int
        } else {
            0int
        },
        t.after_packing(n) == (Transmitter {
            fragmentations: t.after_packing(n).fragmentations,
            ..t
        }),
{
}

/// Packets come one per period. A packet that is late by at most 200 ms does not
/// move the ones after it; what is later than that is made up for from 200 ms
/// back.
pub proof fn law_one_packet_per_period(p: Pacer, now_ns: u64, period_ns: u64)
    ensures
        now_ns <= p.next_tick_ns + period_ns + 200_000_000 ==> p.due(now_ns, period_ns)
            == p.next_tick_ns + period_ns,
        now_ns > p.next_tick_ns + period_ns + 200_000_000 ==> p.due(now_ns, period_ns) == now_ns
            - 200_000_000,
{
}

/// A chunk holds the whole frames of its time, and a packet 25 bytes and four for
/// each sample of these. The longest chunk that the error names is the longest
/// whose frames, taken from the time, are no more than `most`, the frames that
/// 65535 bytes hold; and the advice for the link is the longest time whose samples
/// are no more than the budget names.
pub proof fn law_chunk_arithmetic(
    sample_rate: u32,
    channels: u8,
    chunk_ms: nat,
    most: nat,
    budget: nat,
)
    requires
        sample_rate > 0,
        channels > 0,
        4 * most * channels as nat <= 65535,
        4 * (most + 1) * channels as nat > 65535,
    ensures
        ({
            let f = frames_in(sample_rate, chunk_ms);
            let l = longest_chunk_ms(sample_rate, channels);
            let a = advised_chunk_ms(budget, sample_rate, channels);
            let r = sample_rate as nat;
            let c = channels as nat;
            &&& f * 1000 <= r * chunk_ms < (f + 1) * 1000
            &&& packet_bytes(sample_rate, channels, chunk_ms) == 25 + 4 * (f * c)
            &&& l * r <= most * 1000 < (l + 1) * r
            &&& a * (r * c) <= budget * 1000 < (a + 1) * (r * c)
        }),
{
    let r = sample_rate as nat;
    let c = channels as nat;
    let f = frames_in(sample_rate, chunk_ms);
    assert(packet_bytes(sample_rate, channels, chunk_ms) == 25 + f * c * 4);
    let k = 16383nat / c;
    vstd::arithmetic::div_mod::lemma_fundamental_div_mod(16383, c as int);
    assert(k == most) by (nonlinear_arith)
        requires
            16383 == c * k + 16383nat % c,
            0 <= 16383nat % c < c,
            4 * most * c <= 65535,
            4 * (most + 1) * c > 65535,
            c > 0,
    ;
    let l = longest_chunk_ms(sample_rate, channels);
    vstd::arithmetic::div_mod::lemma_fundamental_div_mod((k * 1000) as int, r as int);
    assert(l * r <= k * 1000 < (l + 1) * r) by (nonlinear_arith)
        requires
            k * 1000 == r * l + (k * 1000) % r,
            0 <= (k * 1000) % r < r,
    ;
    let d = r * c;
    assert(d > 0) by (nonlinear_arith)
        requires
            d == r * c,
            r > 0,
            c > 0,
    ;
    let a = advised_chunk_ms(budget, sample_rate, channels);
    vstd::arithmetic::div_mod::lemma_fundamental_div_mod((budget * 1000) as int, d as int);
    assert(a * d <= budget * 1000 < (a + 1) * d) by (nonlinear_arith)
        requires
            budget * 1000 == d * a + (budget * 1000) % d,
            0 <= (budget * 1000) % d < d,
    ;
}

/// The packets that carry `chunks`, one after the other, sent as `run` tells.
pub open spec fn sent_packets(t: Transmitter, run: Seq<Sending>, chunks: Seq<Seq<u32>>) -> Seq<
    PacketView,
> {
    Seq::new(chunks.len(), |i: int| after_run(t, run.take(i)).packet(chunks[i]))
}

/// A run of packets carries the chunks: with consecutive sequence numbers, in the
/// stream's own format, each with the samples of its chunk, whether or not
/// somebody listened at the time. A receiver takes each of them for what it is.
#[verifier::spinoff_prover]
pub proof fn law_run_carries_the_chunks(t: Transmitter, run: Seq<Sending>, chunks: Seq<Seq<u32>>)
    requires
        t.channels > 0,
        t.chunk_frames <= 0xffff_ffff,
        chunks.len() > 0,
        run.len() == chunks.len(),
        forall|i: int|
            0 <= i < run.len() ==> (#[trigger] run[i]).outcome != SendOutcome::Fatal
                && run[i].samples == chunks[i].len(),
        forall|i: int|
            0 <= i < chunks.len() ==> (#[trigger] chunks[i]).len() == t.chunk_frames * t.channels,
        0 < t.chunk_frames * t.channels * 4 <= 65535,
        t.fragmentations + run.len() <= u64::MAX,
        t.packets_sent + t.send_errors + run.len() <= u64::MAX,
    ensures
        ({
            let sent = sent_packets(t, run, chunks);
            &&& receiver::carries(sent, t.seq, chunks, t.packet(chunks[0]))
            &&& forall|i: int|
                0 <= i < chunks.len() ==> {
                    let p = #[trigger] sent[i];
                    &&& protocol::decoded(p.encoded()) == Ok::<PacketView, protocol::ProtocolError>(
                        p,
                    )
                    &&& p.sequence == (t.seq + i) % 0x1_0000_0000
                    &&& p.sample_rate == t.sample_rate
                    &&& p.channels == t.channels
                    &&& p.frame_timestamp == p.sequence * t.chunk_frames
                    &&& protocol::samples_of(p.payload) == chunks[i]
                }
        }),
{
    let sent = sent_packets(t, run, chunks);
    let p0 = t.packet(chunks[0]);
    let n = t.chunk_frames * t.channels;
    protocol::lemma_sample_bytes_len(chunks[0]);
    assert(n % (t.channels as int) == 0) by {
        vstd::arithmetic::div_mod::lemma_mod_multiples_basic(
            t.chunk_frames as int,
            t.channels as int,
        );
    }
    assert forall|i: int| 0 <= i < chunks.len() implies {
        let p = #[trigger] sent[i];
        &&& p.acceptable()
        &&& protocol::decoded(p.encoded()) == Ok::<PacketView, protocol::ProtocolError>(p)
        &&& p.sequence == (t.seq + i) % 0x1_0000_0000
        &&& p.sequence == jitter::seq_after(t.seq, i as nat)
        &&& p.sample_rate == t.sample_rate
        &&& p.channels == t.channels
        &&& p.frame_timestamp == p.sequence * t.chunk_frames
        &&& p.payload == protocol::sample_bytes(chunks[i])
        &&& protocol::samples_of(p.payload) == chunks[i]
    } by {
        let before = run.take(i);
        let u = after_run(t, before);
        assert forall|k: int| 0 <= k < before.len() implies (#[trigger] before[k]).outcome
            != SendOutcome::Fatal by {
            assert(before[k] == run[k]);
        }
        law_packets_follow_on(t, before, chunks[i]);
        lemma_run_keeps_format(t, before);
        law_packets_are_acceptable(u, chunks[i]);
        law_datagram_says_what_it_carries(u, chunks[i], Seq::empty());
        protocol::law_decode_encode(u.packet(chunks[i]), Seq::empty());
        assert(u.packet(chunks[i]).encoded() + Seq::<u8>::empty() =~= u.packet(
            chunks[i],
        ).encoded());
        assert(sent[i] == u.packet(chunks[i]));
    }
    assert forall|i: int| 0 <= i < sent.len() implies chunks[i].len()
        == receiver::samples_per_packet(p0) && (#[trigger] sent[i]).sample_rate == p0.sample_rate
        && sent[i].channels == p0.channels by {
        assert(chunks[i].len() == n);
    }
}

/// What is sent is what is played, from end to end. A receiver that plays the
/// stream's format and has room for a run of packets, plays the chunks, sample
/// for sample and in the order in which they were sent, once all of them arrived;
/// they may arrive in any order and more than once.
pub proof fn law_sent_chunks_are_played(
    t: Transmitter,
    run: Seq<Sending>,
    chunks: Seq<Seq<u32>>,
    m: receiver::SessionModel,
    order: Seq<nat>,
    now_ns: u64,
)
    requires
        t.channels > 0,
        t.chunk_frames <= 0xffff_ffff,
        0 < chunks.len() < 0x7fff_ffff,
        run.len() == chunks.len(),
        forall|i: int|
            0 <= i < run.len() ==> (#[trigger] run[i]).outcome != SendOutcome::Fatal
                && run[i].samples == chunks[i].len(),
        forall|i: int|
            0 <= i < chunks.len() ==> (#[trigger] chunks[i]).len() == t.chunk_frames * t.channels,
        0 < t.chunk_frames * t.channels * 4 <= 65535,
        t.fragmentations + run.len() <= u64::MAX,
        t.packets_sent + t.send_errors + run.len() <= u64::MAX,
        m.wf(),
        m.stream is None,
        m.player.sample_rate == t.sample_rate,
        m.player.channels == t.channels,
        m.can_receive(Ok(t.packet(chunks[0]))),
        m.capacity(t.packet(chunks[0])) is Ok,
        forall|k: int| 0 <= k < order.len() ==> #[trigger] order[k] < chunks.len(),
        forall|i: nat| i < chunks.len() ==> #[trigger] order.contains(i),
        jitter::apart(m.capacity(t.packet(chunks[0]))->Ok_0, t.seq, chunks.len()),
        m.settings.target(t.sample_rate, t.channels) <= chunks.len() * (t.chunk_frames * t.channels)
            <= m.settings.high_water(t.sample_rate, t.channels),
    ensures
        receiver::listened(m, sent_packets(t, run, chunks), order, now_ns).rendered(
            (chunks.len() * (t.chunk_frames * t.channels)) as nat,
        ).1 == receiver::RenderedView::Samples(chunks.flatten()),
{
    let sent = sent_packets(t, run, chunks);
    let p0 = t.packet(chunks[0]);
    law_run_carries_the_chunks(t, run, chunks);
    protocol::lemma_sample_bytes_len(chunks[0]);
    assert(run.take(0) =~= Seq::<Sending>::empty());
    assert(sent[0] == p0);
    let n = chunks.len();
    assert(chunks[0].len() == t.chunk_frames * t.channels);
    assert(receiver::samples_per_packet(p0) == t.chunk_frames * t.channels);
    let all = order.to_set();
    let full = vstd::set_lib::set_int_range(0, n as int);
    vstd::set_lib::lemma_int_range(0, n as int);
    vstd::seq_lib::seq_to_set_is_finite(order);
    assert(all.len() == n) by {
        let f = |i: nat| i as int;
        assert(vstd::relations::injective(f));
        assert(all.map(f) =~= full) by {
            assert forall|x: int| full.contains(x) implies all.map(f).contains(x) by {
                assert(order.contains(x as nat));
                assert(all.contains(x as nat));
                assert(f(x as nat) == x);
            }
            assert forall|x: int| all.map(f).contains(x) implies full.contains(x) by {
                let i = choose|i: nat| all.contains(i) && f(i) == x;
                assert(order.contains(i));
            }
        }
        vstd::set_lib::lemma_map_size(all, full, f);
    }
    receiver::law_sent_audio_is_played(m, t.seq, chunks, p0, sent, order, now_ns);
}

/// The message of a chunk that is too large names its length and format, the bytes
/// it would take, the limit of 65560 bytes, and the longest chunk that fits.
pub proof fn law_large_chunks_are_told(e: ChunkTooLarge)
    ensures
        e.spec_message() == "--chunk-ms "@ + text::decimal(e.chunk_ms as nat) + " at "@
            + text::decimal(e.sample_rate as nat) + " Hz × "@ + text::decimal(e.channels as nat)
            + " ch produces "@ + text::decimal(e.payload_bytes as nat)
            + " bytes per packet, exceeding the protocol limit of "@ + text::decimal(65560)
            + " bytes. Lower --chunk-ms to "@ + text::decimal(e.max_ms as nat) + " or fewer."@,
        MAX_PACKET_BYTES == 25 + 65535,
{
}

/// A sender sleeps until the next packet is due and no longer; where it is due
/// already, the sender goes on at once.
pub proof fn law_sleep_ends_when_due(p: Pacer, now_ns: u64, period_ns: u64)
    ensures
        p.next_tick_ns + period_ns > now_ns ==> now_ns + p.sleep(now_ns, period_ns)
            == p.next_tick_ns + period_ns,
        p.next_tick_ns + period_ns <= now_ns ==> p.sleep(now_ns, period_ns) == 0,
{
}

/// A chunk always has its full length. It is the oldest audio where enough is
/// queued; else it is silence, and what is queued waits for the rest.
pub proof fn law_chunks_are_full(ring: Option<CaptureModel>, n: nat)
    ensures
        chunk_from(ring, n).1.len() == n,
        ring matches Some(c) && c.samples.len() >= n ==> {
            let (rest, chunk) = chunk_from(ring, n);
            &&& rest is Some && chunk + rest->0.samples == ring->0.samples
            &&& rest->0 == (CaptureModel { samples: rest->0.samples, ..ring->0 })
        },
        !(ring matches Some(c) && c.samples.len() >= n) ==> chunk_from(ring, n).0 == ring && forall|
            i: int,
        |
            0 <= i < n ==> #[trigger] chunk_from(ring, n).1[i] == 0u32,
{
    if let Some(c) = ring {
        if c.samples.len() >= n {
            assert(c.samples.take(n as int) + c.samples.skip(n as int) =~= c.samples);
        }
    }
}

/// A plan follows from the format: the whole frames of a chunk, a sample of each
/// channel for each, and four bytes a sample behind 25 of header. A stream can be sent
/// where the samples take no more than 65535 bytes, and is not split where the packet
/// is no larger than what the link leaves behind 53 bytes.
pub proof fn law_plan_follows_the_format(
    mtu: usize,
    chunk_ms: usize,
    sample_rate: u32,
    channels: u8,
    r: Result<SendPlan, MtuError>,
    sized: Result<(), ChunkTooLarge>,
    whole: bool,
)
    requires
        sample_rate > 0,
        call_ensures(SendPlan::new, (mtu, chunk_ms, sample_rate, channels), r),
    ensures
        r is Ok <==> 576 <= mtu <= 9000 && channels > 0 && mtu >= 53 + 4 * channels,
        r matches Ok(p) ==> {
            &&& p.sample_rate == sample_rate && p.channels == channels && p.chunk_ms == chunk_ms
            &&& p.chunk_frames * 1000 <= sample_rate * chunk_ms < (p.chunk_frames + 1) * 1000
            &&& p.chunk_samples == p.chunk_frames * channels
            &&& p.payload_bytes == 25 + 4 * p.chunk_samples
            &&& call_ensures(SendPlan::check_size, (&p,), sized) ==> (sized is Ok <==> 4
                * p.chunk_samples <= 65535)
            &&& call_ensures(SendPlan::fits_in_mtu, (&p,), whole) ==> (whole <==> 25 + 4
                * p.chunk_samples <= mtu - 53)
        },
{
    mtu_budget::law_mtu_limits(mtu, channels);
    if 576 <= mtu <= 9000 && channels > 0 {
        let c = channels as nat;
        let f = mtu_budget::frames_that_fit(mtu, channels);
        assert(c * (0 + 1) == c) by (nonlinear_arith);
        assert(f > 0 ==> c * f >= c) by (nonlinear_arith)
            requires
                c >= 0,
        ;
    }
    if let Ok(p) = r {
        let f = p.chunk_frames as nat;
        let c = channels as nat;
        assert(f * c * 4 == 4 * (f * c)) by (nonlinear_arith);
    }
}

/// A stream carries the format of its plan: whatever the plan is, the first datagram
/// reads back as packet 0 with the plan's rate and channels and the given samples.
pub proof fn law_stream_carries_the_format_of_its_plan(
    plan: SendPlan,
    t: Transmitter,
    samples: Seq<u32>,
    trailing: Seq<u8>,
)
    requires
        plan.wf(),
        call_ensures(Transmitter::new, (&plan,), t),
        samples.len() == plan.chunk_samples,
        0 < 4 * samples.len() <= 65535,
        plan.chunk_frames <= 0xffff_ffff,
    ensures
        protocol::decoded(t.packet(samples).encoded() + trailing) matches Ok(p) && p.sample_rate
            == plan.sample_rate && p.channels == plan.channels && p.sequence == 0
            && p.frame_timestamp == 0 && protocol::samples_of(p.payload) == samples,
        t.packets_sent == 0 && t.send_errors == 0 && t.fragmentations == 0,
        t.chunk_frames == plan.chunk_frames && t.max_payload_bytes
            == plan.budget.max_payload_bytes,
{
    assert(samples.len() % (t.channels as nat) == 0) by {
        vstd::arithmetic::div_mod::lemma_mod_multiples_basic(
            plan.chunk_frames as int,
            plan.channels as int,
        );
    }
    law_datagram_says_what_it_carries(t, samples, trailing);
    assert(0 * plan.chunk_frames == 0) by (nonlinear_arith);
}

} // verus!
