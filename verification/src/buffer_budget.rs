//! How many packets the receive ring must hold.
//!
//! Two settings meet here: the prebuffer (how much must be queued before
//! playback starts) and the ring depth (how much can be queued at all). The
//! ring is never smaller than the prebuffer, or playback would never start.

use crate::arith;
use crate::text;
use vstd::prelude::*;

verus! {

/// Smallest accepted ring depth, in milliseconds.
pub const RX_BUFFER_MIN_MS: usize = 100;

/// Ring depth where none is given.
pub const RX_BUFFER_DEFAULT_MS: usize = 2_000;

/// Largest accepted ring depth.
pub const RX_BUFFER_MAX_MS: usize = 30_000;

/// The ring never has fewer slots than this.
pub const MIN_CAPACITY_PACKETS: usize = 32;

/// Why a ring depth cannot be used.
#[derive(Debug, Clone, Copy, PartialEq, Eq, Structural)]
pub enum BufferError {
    /// Below the smallest accepted value.
    TooSmall { got: usize, min: usize },
    /// Above the largest accepted value.
    TooLarge { got: usize, max: usize },
    /// Below the prebuffer.
    BufferSmallerThanPrebuffer { rx_buf: usize, prebuf: usize },
}

impl BufferError {
    /// The error in words.
    pub open spec fn spec_message(self) -> Seq<char> {
        match self {
            BufferError::TooSmall { got, min } => "rx-buffer-ms "@ + text::decimal(got as nat)
                + " is below RX_BUFFER_MIN ("@ + text::decimal(min as nat)
                + "); the ring can never reach the max(32, packets) floor at this size"@,
            BufferError::TooLarge { got, max } => "rx-buffer-ms "@ + text::decimal(got as nat)
                + " exceeds RX_BUFFER_MAX ("@ + text::decimal(max as nat) + "); too memory-heavy"@,
            BufferError::BufferSmallerThanPrebuffer { rx_buf, prebuf } => "rx-buffer-ms "@
                + text::decimal(rx_buf as nat) + " must be >= --prebuffer-ms "@ + text::decimal(
                prebuf as nat,
            )
                + "; the \\\n         prebuffer gate target must fit inside the ring it is gating"@,
        }
    }

    /// The error in words.
    pub fn message(&self) -> (r: String)
        ensures
            r@ == self.spec_message(),
    {
        let mut out: String = String::new();
        match *self {
            BufferError::TooSmall { got, min } => {
                out.append("rx-buffer-ms ");
                text::push_decimal(&mut out, got as u64);
                out.append(" is below RX_BUFFER_MIN (");
                text::push_decimal(&mut out, min as u64);
                out.append("); the ring can never reach the max(32, packets) floor at this size");
            },
            BufferError::TooLarge { got, max } => {
                out.append("rx-buffer-ms ");
                text::push_decimal(&mut out, got as u64);
                out.append(" exceeds RX_BUFFER_MAX (");
                text::push_decimal(&mut out, max as u64);
                out.append("); too memory-heavy");
            },
            BufferError::BufferSmallerThanPrebuffer { rx_buf, prebuf } => {
                out.append("rx-buffer-ms ");
                text::push_decimal(&mut out, rx_buf as u64);
                out.append(" must be >= --prebuffer-ms ");
                text::push_decimal(&mut out, prebuf as u64);
                out.append(
                    "; the \\\n         prebuffer gate target must fit inside the ring it is gating",
                );
            },
        }
        assert(out@ =~= self.spec_message());
        out
    }
}

/// Whether a ring depth is in the accepted range.
pub open spec fn buffer_ms_in_range(n: usize) -> Result<usize, BufferError> {
    if n < RX_BUFFER_MIN_MS {
        Err(BufferError::TooSmall { got: n, min: RX_BUFFER_MIN_MS })
    } else if n > RX_BUFFER_MAX_MS {
        Err(BufferError::TooLarge { got: n, max: RX_BUFFER_MAX_MS })
    } else {
        Ok(n)
    }
}

/// Whether a ring depth is in the accepted range and holds the prebuffer.
pub open spec fn buffer_ms_fits(rx_buffer_ms: usize, prebuffer_ms: usize) -> Result<
    usize,
    BufferError,
> {
    match buffer_ms_in_range(rx_buffer_ms) {
        Err(e) => Err(e),
        Ok(n) => if n < prebuffer_ms {
            Err(BufferError::BufferSmallerThanPrebuffer { rx_buf: n, prebuf: prebuffer_ms })
        } else {
            Ok(n)
        },
    }
}

/// Accepts a ring depth between `RX_BUFFER_MIN_MS` and `RX_BUFFER_MAX_MS`.
pub fn validate_buffer_ms(n: usize) -> (r: Result<usize, BufferError>)
    ensures
        r == buffer_ms_in_range(n),
{
    if n < RX_BUFFER_MIN_MS {
        return Err(BufferError::TooSmall { got: n, min: RX_BUFFER_MIN_MS });
    }
    if n > RX_BUFFER_MAX_MS {
        return Err(BufferError::TooLarge { got: n, max: RX_BUFFER_MAX_MS });
    }
    Ok(n)
}

/// Interleaved samples in `ms` milliseconds of audio, rounded down.
pub open spec fn samples_in(ms: nat, sample_rate: nat, channels: nat) -> nat {
    ms * sample_rate * channels / 1000
}

/// Samples that the ring is sized for; none where the product of the three
/// factors does not fit a machine word.
pub open spec fn ring_samples(ms: nat, sample_rate: nat, channels: nat) -> nat {
    if ms * sample_rate > usize::MAX || ms * sample_rate * channels > usize::MAX {
        0
    } else {
        samples_in(ms, sample_rate, channels)
    }
}

/// Packets that the ring must hold: enough for its depth, at least
/// `MIN_CAPACITY_PACKETS`.
pub open spec fn capacity_for(
    ms: nat,
    sample_rate: nat,
    channels: nat,
    samples_per_packet: nat,
) -> nat {
    arith::larger(
        MIN_CAPACITY_PACKETS as nat,
        arith::ceil_div(ring_samples(ms, sample_rate, channels), samples_per_packet),
    )
}

/// Slots of the receive ring for the given settings and stream format.
pub fn compute_capacity_packets(
    rx_buffer_ms: usize,
    prebuffer_ms: usize,
    sample_rate_hz: u32,
    channels: u8,
    samples_per_packet: usize,
) -> (r: Result<usize, BufferError>)
    requires
        buffer_ms_fits(rx_buffer_ms, prebuffer_ms) is Ok ==> samples_per_packet > 0,
    ensures
        match buffer_ms_fits(rx_buffer_ms, prebuffer_ms) {
            Err(e) => r == Err::<usize, BufferError>(e),
            Ok(ms) => r is Ok && r->Ok_0 == capacity_for(
                ms as nat,
                sample_rate_hz as nat,
                channels as nat,
                samples_per_packet as nat,
            ),
        },
{
    let rx_buf: usize = match validate_buffer_ms(rx_buffer_ms) {
        Ok(n) => n,
        Err(e) => {
            return Err(e);
        },
    };
    if rx_buf < prebuffer_ms {
        return Err(BufferError::BufferSmallerThanPrebuffer { rx_buf, prebuf: prebuffer_ms });
    }
    let frames: usize = match rx_buf.checked_mul(sample_rate_hz as usize) {
        None => 0,
        Some(x) => match x.checked_mul(channels as usize) {
            None => 0,
            Some(y) => y / 1000,
        },
    };
    let packets: usize = arith::div_ceil(frames, samples_per_packet);
    Ok(arith::max_usize(MIN_CAPACITY_PACKETS, packets))
}

/// The prebuffer always fits into the ring: playback can start. This needs
/// the number of samples in the ring's depth to fit a machine word.
pub proof fn law_gate_is_reachable(
    rx_buffer_ms: nat,
    prebuffer_ms: nat,
    sample_rate: nat,
    channels: nat,
    samples_per_packet: nat,
)
    requires
        prebuffer_ms <= rx_buffer_ms,
        rx_buffer_ms * sample_rate <= usize::MAX,
        rx_buffer_ms * sample_rate * channels <= usize::MAX,
        samples_per_packet > 0,
    ensures
        samples_in(prebuffer_ms, sample_rate, channels) <= capacity_for(
            rx_buffer_ms,
            sample_rate,
            channels,
            samples_per_packet,
        ) * samples_per_packet,
{
    let small = prebuffer_ms * sample_rate * channels;
    let big = rx_buffer_ms * sample_rate * channels;
    assert(small <= big) by (nonlinear_arith)
        requires
            small == prebuffer_ms * sample_rate * channels,
            big == rx_buffer_ms * sample_rate * channels,
            prebuffer_ms <= rx_buffer_ms,
    ;
    let frames = big / 1000;
    arith::lemma_ceil_div_covers(frames, samples_per_packet);
    let packets = arith::ceil_div(frames, samples_per_packet);
    let cap = capacity_for(rx_buffer_ms, sample_rate, channels, samples_per_packet);
    assert(packets * samples_per_packet <= cap * samples_per_packet) by (nonlinear_arith)
        requires
            packets <= cap,
    ;
}

/// A ring depth is accepted from 100 to 30000 milliseconds, and where it is no less
/// than the prebuffer; the error names the limit that it is beyond.
pub proof fn law_ring_depth_limits(ms: usize, prebuffer_ms: usize)
    ensures
        buffer_ms_in_range(ms) == if ms < 100 {
            Err::<usize, BufferError>(BufferError::TooSmall { got: ms, min: 100 })
        } else if ms > 30_000 {
            Err(BufferError::TooLarge { got: ms, max: 30_000 })
        } else {
            Ok(ms)
        },
        buffer_ms_fits(ms, prebuffer_ms) is Ok <==> 100 <= ms <= 30_000 && prebuffer_ms <= ms,
        100 <= ms <= 30_000 && prebuffer_ms > ms ==> buffer_ms_fits(ms, prebuffer_ms) == Err::<
            usize,
            BufferError,
        >(BufferError::BufferSmallerThanPrebuffer { rx_buf: ms, prebuf: prebuffer_ms }),
        ms < 100 || ms > 30_000 ==> buffer_ms_fits(ms, prebuffer_ms) == buffer_ms_in_range(ms),
        buffer_ms_fits(ms, prebuffer_ms) matches Ok(n) ==> n == ms,
{
}

/// The ring has the fewest slots, from 32 on, that hold the whole samples of its
/// depth; 32 where these are too many to count.
pub proof fn law_ring_holds_its_depth(
    ms: nat,
    sample_rate: nat,
    channels: nat,
    samples_per_packet: nat,
    samples: nat,
)
    requires
        samples_per_packet > 0,
        channels > 0,
        samples * 1000 <= ms * sample_rate * channels < (samples + 1) * 1000,
    ensures
        ({
            let n = capacity_for(ms, sample_rate, channels, samples_per_packet);
            &&& n >= 32
            &&& ms * sample_rate * channels <= usize::MAX ==> n * samples_per_packet >= samples && (n
                == 32 || (n - 1) * samples_per_packet < samples)
            &&& ms * sample_rate * channels > usize::MAX ==> n == 32
        }),
        samples_in(ms, sample_rate, channels) == samples,
{
    let a = ms * sample_rate;
    assert(a <= a * channels) by (nonlinear_arith)
        requires
            channels > 0,
    ;
    let r = ring_samples(ms, sample_rate, channels);
    arith::law_bounds_and_rounding(r, samples_per_packet, 0);
    let n = capacity_for(ms, sample_rate, channels, samples_per_packet);
    let c = arith::ceil_div(r, samples_per_packet);
    assert(n * samples_per_packet >= c * samples_per_packet) by (nonlinear_arith)
        requires
            n >= c,
    ;
}

/// The slots of a ring by its settings: refused where the depth is not from 100 to
/// 30000 ms or below the prebuffer, else the fewest, from 32 on, that hold the whole
/// samples of its depth.
pub proof fn law_slots_by_the_settings(
    rx_buffer_ms: usize,
    prebuffer_ms: usize,
    rate: u32,
    channels: u8,
    samples_per_packet: usize,
    samples: nat,
    r: Result<usize, BufferError>,
)
    requires
        samples_per_packet > 0,
        channels > 0,
        samples * 1000 <= rx_buffer_ms * rate * channels < (samples + 1) * 1000,
        rx_buffer_ms * rate * channels <= usize::MAX,
        call_ensures(
            compute_capacity_packets,
            (rx_buffer_ms, prebuffer_ms, rate, channels, samples_per_packet),
            r,
        ),
    ensures
        r is Ok <==> 100 <= rx_buffer_ms <= 30_000 && prebuffer_ms <= rx_buffer_ms,
        r matches Ok(n) ==> n >= 32 && n * samples_per_packet >= samples && (n == 32 || (n - 1)
            * samples_per_packet < samples),
{
    law_ring_depth_limits(rx_buffer_ms, prebuffer_ms);
    law_ring_holds_its_depth(
        rx_buffer_ms as nat,
        rate as nat,
        channels as nat,
        samples_per_packet as nat,
        samples,
    );
}

} // verus!
