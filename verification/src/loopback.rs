//! Capturing what the default output device plays.
//!
//! The device hands out the audio in its mix format, which must be 32-bit
//! floats, as packets of little-endian bytes. A worker polls for packets until
//! it is stopped or the device fails.

use crate::audio_io::{CapturedSampleFormat, CapturerConfig};
use crate::protocol;
use crate::text;
use vstd::prelude::*;

verus! {

/// Format tag of integer samples.
pub const WAVE_FORMAT_PCM: u16 = 0x0001;

/// Format tag of float samples.
pub const WAVE_FORMAT_IEEE_FLOAT: u16 = 0x0003;

/// Format tag of an extended description; such devices mix in floats.
pub const WAVE_FORMAT_EXTENSIBLE: u16 = 0xfffe;

/// Length of the device's buffer, in units of 100 ns.
pub const BUFFER_DURATION_HNS: u64 = 1_000_000;

/// How long the worker sleeps when no packet is ready.
pub const IDLE_SLEEP_MS: u64 = 5;

/// The mix format of a device.
#[derive(Debug, Clone, Copy, PartialEq, Eq, Structural)]
pub struct MixFormat {
    pub sample_rate: u32,
    pub channels: u16,
    pub format_tag: u16,
    pub bits_per_sample: u16,
}

/// Why a mix format cannot be captured.
#[derive(Debug, Clone, Copy, PartialEq, Eq, Structural)]
pub enum MixFormatError {
    /// Integer samples.
    Pcm { bits_per_sample: u16 },
    /// An unknown format tag.
    Unsupported { format_tag: u16 },
    /// No channels.
    NoChannels,
}

impl MixFormatError {
    /// The error in words.
    pub open spec fn spec_message(self) -> Seq<char> {
        match self {
            MixFormatError::Pcm { bits_per_sample } => "render device mix format is PCM ("@
                + text::decimal(bits_per_sample as nat)
                + " bits/sample); teehee v1 WASAPI loopback requires IEEE_FLOAT. Switch to a render endpoint that exposes a float mix format, or update teehee to add PCM i16/i24 normalization in a follow-up slice"@,
            MixFormatError::Unsupported { format_tag } =>
            "render device uses unsupported mix format 0x"@ + text::hex(format_tag as nat, 4)
                + "; teehee v1 supports 0x0003 (IEEE_FLOAT) and 0xFFFE (EXTENSIBLE)"@,
            MixFormatError::NoChannels =>
            "render device reports 0 channels; cannot initialize LOOPBACK"@,
        }
    }

    /// The error in words.
    pub fn message(&self) -> (r: String)
        ensures
            r@ == self.spec_message(),
    {
        match self {
            MixFormatError::Pcm { bits_per_sample } => {
                let mut out: String = "render device mix format is PCM (".to_owned();
                text::push_decimal(&mut out, *bits_per_sample as u64);
                out.append(
                    " bits/sample); teehee v1 WASAPI loopback requires IEEE_FLOAT. Switch to a render endpoint that exposes a float mix format, or update teehee to add PCM i16/i24 normalization in a follow-up slice",
                );
                out
            },
            MixFormatError::Unsupported { format_tag } => {
                let mut out: String = "render device uses unsupported mix format 0x".to_owned();
                text::push_hex(&mut out, *format_tag as u32, 4);
                out.append("; teehee v1 supports 0x0003 (IEEE_FLOAT) and 0xFFFE (EXTENSIBLE)");
                out
            },
            MixFormatError::NoChannels =>
            "render device reports 0 channels; cannot initialize LOOPBACK".to_owned(),
        }
    }
}

/// What capturing a mix format comes to: floats at the device's rate and
/// channel count. The format tag is looked at before the channels.
pub open spec fn captured_as(mix: MixFormat) -> Result<CapturerConfig, MixFormatError> {
    if mix.format_tag == WAVE_FORMAT_PCM {
        Err(MixFormatError::Pcm { bits_per_sample: mix.bits_per_sample })
    } else if mix.format_tag != WAVE_FORMAT_IEEE_FLOAT && mix.format_tag
        != WAVE_FORMAT_EXTENSIBLE {
        Err(MixFormatError::Unsupported { format_tag: mix.format_tag })
    } else if mix.channels == 0 {
        Err(MixFormatError::NoChannels)
    } else {
        Ok(
            CapturerConfig {
                sample_rate: mix.sample_rate,
                channels: mix.channels,
                sample_format: CapturedSampleFormat::F32,
            },
        )
    }
}

/// The format in which a device is captured.
pub fn accept_mix_format(mix: MixFormat) -> (r: Result<CapturerConfig, MixFormatError>)
    ensures
        r == captured_as(mix),
{
    if mix.format_tag == WAVE_FORMAT_PCM {
        return Err(MixFormatError::Pcm { bits_per_sample: mix.bits_per_sample });
    }
    if mix.format_tag != WAVE_FORMAT_IEEE_FLOAT && mix.format_tag != WAVE_FORMAT_EXTENSIBLE {
        return Err(MixFormatError::Unsupported { format_tag: mix.format_tag });
    }
    if mix.channels == 0 {
        return Err(MixFormatError::NoChannels);
    }
    Ok(
        CapturerConfig {
            sample_rate: mix.sample_rate,
            channels: mix.channels,
            sample_format: CapturedSampleFormat::F32,
        },
    )
}

/// Samples to make room for at the start: one device buffer, at least 2048.
pub fn initial_samples(config: CapturerConfig) -> (r: u64)
    ensures
        ({
            let frames = BUFFER_DURATION_HNS as nat * config.sample_rate as nat / 10_000_000;
            let n = frames * config.channels as nat;
            r == if n < 2048 {
                2048
            } else {
                n
            }
        }),
{
    proof {
        let frames = BUFFER_DURATION_HNS as nat * config.sample_rate as nat / 10_000_000;
        let c = config.channels as nat;
        assert(frames * c <= 429_496_730 * 65535) by (nonlinear_arith)
            requires
                frames <= 429_496_730,
                c <= 65535,
        ;
    }
    let frames: u64 = BUFFER_DURATION_HNS * config.sample_rate as u64 / 10_000_000;
    let n: u64 = frames * config.channels as u64;
    if n < 2048 {
        2048
    } else {
        n
    }
}

/// Bytes of a packet of `frames` frames.
pub fn packet_bytes(frames: u32, channels: u16) -> (r: u64)
    ensures
        r == frames * channels * 4,
{
    proof {
        let f = frames as nat;
        let c = channels as nat;
        assert(f * c <= 0xffff_ffff * 0xffff) by (nonlinear_arith)
            requires
                f <= 0xffff_ffff,
                c <= 0xffff,
        ;
    }
    frames as u64 * channels as u64 * 4
}

/// The samples of a packet of which `consumed` frames were read into `bytes`;
/// `None` where nothing was read.
pub fn packet_samples(bytes: &[u8], consumed: u32, channels: u16) -> (r: Option<Vec<u32>>)
    requires
        consumed * channels * 4 <= bytes@.len(),
    ensures
        r is None <==> consumed == 0,
        r matches Some(v) ==> v@ == protocol::samples_of(
            bytes@.take((consumed * channels * 4) as int),
        ),
{
    if consumed == 0 {
        return None;
    }
    let total: usize = bytes.len();
    let len: u64 = packet_bytes(consumed, channels);
    assert(len <= total);
    let mut samples: Vec<u32> = Vec::new();
    protocol::read_samples(&bytes[0..len as usize], &mut samples);
    assert(bytes@.subrange(0, len as int) =~= bytes@.take(len as int));
    Some(samples)
}

/// What polling for a packet brought.
#[derive(Debug, Clone, Copy, PartialEq, Eq, Structural)]
pub enum Polled {
    Packet,
    NotReady,
    Failed,
}

/// What the worker does next.
#[derive(Debug, Clone, Copy, PartialEq, Eq, Structural)]
pub enum WorkerStep {
    /// Poll the device.
    Poll,
    /// Hand the packet on, then poll again.
    Deliver,
    /// Sleep for this many milliseconds, then poll again.
    Sleep { ms: u64 },
    /// Stop, and log the failure if `failed` is set.
    Stop { failed: bool },
}

/// What the worker does before it polls: it stops where it was asked to.
pub open spec fn step_before(stop_requested: bool) -> WorkerStep {
    if stop_requested {
        WorkerStep::Stop { failed: false }
    } else {
        WorkerStep::Poll
    }
}

/// What the worker does after it polled.
pub open spec fn step_after(polled: Polled) -> WorkerStep {
    match polled {
        Polled::Packet => WorkerStep::Deliver,
        Polled::NotReady => WorkerStep::Sleep { ms: IDLE_SLEEP_MS },
        Polled::Failed => WorkerStep::Stop { failed: true },
    }
}

/// What the worker does before it polls: it stops where it was asked to.
pub fn before_poll(stop_requested: bool) -> (r: WorkerStep)
    ensures
        r == step_before(stop_requested),
{
    if stop_requested {
        WorkerStep::Stop { failed: false }
    } else {
        WorkerStep::Poll
    }
}

/// What the worker does after it polled.
pub fn after_poll(polled: Polled) -> (r: WorkerStep)
    ensures
        r == step_after(polled),
{
    match polled {
        Polled::Packet => WorkerStep::Deliver,
        Polled::NotReady => WorkerStep::Sleep { ms: IDLE_SLEEP_MS },
        Polled::Failed => WorkerStep::Stop { failed: true },
    }
}

/// One turn of the worker: whether it was asked to stop, and what a poll brings.
pub struct Turn {
    pub stop_requested: bool,
    pub polled: Polled,
    /// The samples, where a packet came.
    pub packet: Seq<u32>,
}

impl Turn {
    /// The worker ends in this turn.
    pub open spec fn ends(self) -> bool {
        self.stop_requested || self.polled == Polled::Failed
    }
}

/// What a worker does in a run of turns: the packets that it hands on, and what
/// each turn ends with. It takes no turn after it stopped.
pub open spec fn worked(turns: Seq<Turn>) -> (Seq<Seq<u32>>, Seq<WorkerStep>)
    decreases turns.len(),
{
    if turns.len() == 0 {
        (Seq::empty(), Seq::empty())
    } else {
        let turn = turns.first();
        let before = step_before(turn.stop_requested);
        let step = if before == WorkerStep::Poll {
            step_after(turn.polled)
        } else {
            before
        };
        let (packets, steps) = worked(turns.drop_first());
        match step {
            WorkerStep::Stop { failed } => (Seq::empty(), seq![step]),
            WorkerStep::Deliver => (seq![turn.packet] + packets, seq![step] + steps),
            _ => (packets, seq![step] + steps),
        }
    }
}

/// The packets among what a run of polls brought, in their order.
pub open spec fn packets_of(turns: Seq<Turn>) -> Seq<Seq<u32>>
    decreases turns.len(),
{
    if turns.len() == 0 {
        Seq::empty()
    } else if turns.first().polled == Polled::Packet {
        seq![turns.first().packet] + packets_of(turns.drop_first())
    } else {
        packets_of(turns.drop_first())
    }
}

/// A worker hands on every packet that came before the first failure, or the
/// first request to stop, once each and in their order, and nothing after. It
/// stops once, at the end, and tells a failure from a request.
pub proof fn law_packets_are_handed_on(turns: Seq<Turn>, k: nat)
    requires
        k <= turns.len(),
        forall|i: int| 0 <= i < k ==> !(#[trigger] turns[i]).ends(),
        k < turns.len() ==> turns[k as int].ends(),
    ensures
        ({
            let (packets, steps) = worked(turns);
            &&& packets == packets_of(turns.take(k as int))
            &&& steps.len() == if k < turns.len() {
                k + 1
            } else {
                k
            }
            &&& forall|i: int| 0 <= i < k ==> !(#[trigger] steps[i] is Stop)
            &&& k < turns.len() ==> steps[k as int] == (WorkerStep::Stop {
                failed: !turns[k as int].stop_requested,
            })
        }),
    decreases turns.len(),
{
    if turns.len() > 0 && k > 0 {
        let rest = turns.drop_first();
        assert(!turns[0].ends());
        assert forall|i: int| 0 <= i < k - 1 implies !(#[trigger] rest[i]).ends() by {
            assert(rest[i] == turns[i + 1]);
        }
        law_packets_are_handed_on(rest, (k - 1) as nat);
        assert(turns.take(k as int).drop_first() =~= rest.take(k - 1));
        let (packets, steps) = worked(turns);
        let (p, q) = worked(rest);
        assert(steps.len() == q.len() + 1);
        assert forall|i: int| 0 <= i < k implies !(#[trigger] steps[i] is Stop) by {
            if i > 0 {
                assert(steps[i] == q[i - 1]);
            }
        }
    } else {
        assert(turns.take(k as int) =~= Seq::empty());
    }
}

/// The error where the platform has no loopback capture.
pub const LOOPBACK_UNSUPPORTED: &'static str = "WASAPI loopback is Windows-only; on macOS/Linux use --capture-source=default with a virtual input device (BlackHole / PulseAudio monitor) installed as the system-default input, or run --sine for a 440 Hz dry-run";

/// A device is captured exactly where it mixes in floats, by its tag 3 or an extended
/// description, and has channels; then at its own rate and channel count. Else the
/// error tells what is wrong, the tag before the channels.
pub proof fn law_what_can_be_captured(mix: MixFormat)
    ensures
        match captured_as(mix) {
            Ok(c) => (mix.format_tag == 3 || mix.format_tag == 0xfffe) && mix.channels > 0
                && c.sample_rate == mix.sample_rate && c.channels == mix.channels
                && c.sample_format == CapturedSampleFormat::F32,
            Err(MixFormatError::Pcm { bits_per_sample }) => mix.format_tag == 1 && bits_per_sample
                == mix.bits_per_sample,
            Err(MixFormatError::Unsupported { format_tag }) => mix.format_tag != 1
                && mix.format_tag != 3 && mix.format_tag != 0xfffe && format_tag == mix.format_tag,
            Err(MixFormatError::NoChannels) => (mix.format_tag == 3 || mix.format_tag == 0xfffe)
                && mix.channels == 0,
        },
{
}

/// A worker that is not asked to stop polls; it hands on what a poll brings, sleeps
/// 5 ms where that is nothing, and stops where it fails.
pub proof fn law_worker_steps(stop_requested: bool, polled: Polled)
    ensures
        stop_requested ==> step_before(stop_requested) == (WorkerStep::Stop { failed: false }),
        !stop_requested ==> step_before(stop_requested) == WorkerStep::Poll,
        polled == Polled::Packet <==> step_after(polled) == WorkerStep::Deliver,
        polled == Polled::NotReady <==> step_after(polled) == (WorkerStep::Sleep { ms: 5 }),
        polled == Polled::Failed <==> step_after(polled) == (WorkerStep::Stop { failed: true }),
{
}

/// There is room for a tenth of a second at the start, and for at least 2048 samples.
pub proof fn law_room_at_the_start(config: CapturerConfig, frames: nat, r: u64)
    requires
        call_ensures(initial_samples, (config,), r),
        frames * 10 <= config.sample_rate < (frames + 1) * 10,
    ensures
        r >= 2048 && r >= frames * config.channels,
        r == 2048 || r == frames * config.channels,
{
}

/// A packet gives a sample for each channel of each frame that was read, from four
/// bytes each, lowest first; one of which nothing was read gives none.
pub proof fn law_packets_hold_float_samples(
    bytes: &[u8],
    consumed: u32,
    channels: u16,
    r: Option<Vec<u32>>,
    i: int,
)
    requires
        consumed * channels * 4 <= bytes@.len(),
        call_ensures(packet_samples, (bytes, consumed, channels), r),
    ensures
        r is None <==> consumed == 0,
        r matches Some(v) ==> v@.len() == consumed * channels && (0 <= i < v@.len() ==> v@[i]
            == protocol::word_at(bytes@, 4 * i)),
{
    let n = consumed * channels;
    let part = bytes@.take(n * 4);
    protocol::law_samples_on_the_wire(Seq::empty(), part, i);
    assert(n >= 0) by (nonlinear_arith)
        requires
            n == consumed * channels,
    ;
}

} // verus!
