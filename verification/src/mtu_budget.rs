//! How much of a packet fits into one link frame.
//!
//! A frame carries the IP header (20 bytes), the UDP header (8 bytes), the
//! packet header and the payload. A packet that does not fit is still sent:
//! the network layer splits it, and the sender counts it.

use crate::protocol::HEADER_LEN;
use crate::text;
use vstd::prelude::*;

verus! {

/// Bytes of a frame that are not payload: IP, UDP and packet header.
pub const FRAMING_OVERHEAD_BYTES: usize = 20 + 8 + HEADER_LEN;

/// Smallest accepted link MTU.
pub const MTU_MIN_BYTES: usize = 576;

/// Link MTU of ordinary Ethernet.
pub const MTU_DEFAULT_BYTES: usize = 1500;

/// Largest accepted link MTU: jumbo frames.
pub const MTU_MAX_BYTES: usize = 9000;

/// Bytes of one float sample.
pub const F32_SAMPLE_BYTES: usize = 4;

/// Why a link MTU cannot be used.
#[derive(Debug, Clone, Copy, PartialEq, Eq, Structural)]
pub enum MtuError {
    /// Below the smallest accepted value.
    TooSmall { got: usize, min: usize },
    /// Above the largest accepted value.
    TooLarge { got: usize, max: usize },
    /// Not even one frame of samples fits.
    NoFrameFits { mtu: usize, channels: u8, max_payload: usize, max_chunk_samples: usize },
}

impl MtuError {
    /// The error in words.
    pub open spec fn spec_message(self) -> Seq<char> {
        match self {
            MtuError::TooSmall { got, min } => "mtu "@ + text::decimal(got as nat)
                + " is below MTU_MIN ("@ + text::decimal(min as nat)
                + "); teehee needs at least (mtu - framing_overhead) > 0 bytes for any payload"@,
            MtuError::TooLarge { got, max } => "mtu "@ + text::decimal(got as nat)
                + " exceeds MTU_MAX ("@ + text::decimal(max as nat) + "); jumbo+ unsupported"@,
            MtuError::NoFrameFits { mtu, channels, max_payload, max_chunk_samples } => "mtu "@
                + text::decimal(mtu as nat) + " leaves no room for an f32 frame at channels="@
                + text::decimal(channels as nat) + "; (mtu - framing_overhead = "@ + text::decimal(
                max_payload as nat,
            ) + ") / (channels \\u00b7 4) = "@ + text::decimal(max_chunk_samples as nat)
                + " samples"@,
        }
    }

    /// The error in words.
    pub fn message(&self) -> (r: String)
        ensures
            r@ == self.spec_message(),
    {
        let mut out: String = String::new();
        match *self {
            MtuError::TooSmall { got, min } => {
                out.append("mtu ");
                text::push_decimal(&mut out, got as u64);
                out.append(" is below MTU_MIN (");
                text::push_decimal(&mut out, min as u64);
                out.append(
                    "); teehee needs at least (mtu - framing_overhead) > 0 bytes for any payload",
                );
            },
            MtuError::TooLarge { got, max } => {
                out.append("mtu ");
                text::push_decimal(&mut out, got as u64);
                out.append(" exceeds MTU_MAX (");
                text::push_decimal(&mut out, max as u64);
                out.append("); jumbo+ unsupported");
            },
            MtuError::NoFrameFits { mtu, channels, max_payload, max_chunk_samples } => {
                out.append("mtu ");
                text::push_decimal(&mut out, mtu as u64);
                out.append(" leaves no room for an f32 frame at channels=");
                text::push_decimal(&mut out, channels as u64);
                out.append("; (mtu - framing_overhead = ");
                text::push_decimal(&mut out, max_payload as u64);
                out.append(") / (channels \\u00b7 4) = ");
                text::push_decimal(&mut out, max_chunk_samples as u64);
                out.append(" samples");
            },
        }
        assert(out@ =~= self.spec_message());
        out
    }
}

/// What fits into one frame.
#[derive(Debug, Clone, Copy, PartialEq, Eq, Structural)]
pub struct MtuBudget {
    /// Bytes left for the payload.
    pub max_payload_bytes: usize,
    /// Frames of samples that fit into those bytes.
    pub max_chunk_samples: usize,
}

/// Whether a link MTU is in the accepted range.
pub open spec fn mtu_in_range(n: usize) -> Result<usize, MtuError> {
    if n < MTU_MIN_BYTES {
        Err(MtuError::TooSmall { got: n, min: MTU_MIN_BYTES })
    } else if n > MTU_MAX_BYTES {
        Err(MtuError::TooLarge { got: n, max: MTU_MAX_BYTES })
    } else {
        Ok(n)
    }
}

/// Accepts a link MTU between `MTU_MIN_BYTES` and `MTU_MAX_BYTES`.
pub fn validate_mtu(n: usize) -> (r: Result<usize, MtuError>)
    ensures
        r == mtu_in_range(n),
{
    if n < MTU_MIN_BYTES {
        return Err(MtuError::TooSmall { got: n, min: MTU_MIN_BYTES });
    }
    if n > MTU_MAX_BYTES {
        return Err(MtuError::TooLarge { got: n, max: MTU_MAX_BYTES });
    }
    Ok(n)
}

/// Frames of `channels` float samples that fit behind the headers.
pub open spec fn frames_that_fit(mtu: usize, channels: u8) -> nat {
    if channels == 0 {
        0
    } else {
        ((mtu - FRAMING_OVERHEAD_BYTES) as nat) / (channels as nat * F32_SAMPLE_BYTES as nat)
    }
}

/// What fits into a frame of a link with the given MTU.
pub fn compute_budget(mtu_bytes: usize, channels: u8) -> (r: Result<MtuBudget, MtuError>)
    ensures
        r == (match mtu_in_range(mtu_bytes) {
            Err(e) => Err(e),
            Ok(mtu) => if frames_that_fit(mtu, channels) == 0 {
                Err(
                    MtuError::NoFrameFits {
                        mtu,
                        channels,
                        max_payload: (mtu - FRAMING_OVERHEAD_BYTES) as usize,
                        max_chunk_samples: 0,
                    },
                )
            } else {
                Ok(
                    MtuBudget {
                        max_payload_bytes: (mtu - FRAMING_OVERHEAD_BYTES) as usize,
                        max_chunk_samples: frames_that_fit(mtu, channels) as usize,
                    },
                )
            },
        }),
{
    let mtu: usize = match validate_mtu(mtu_bytes) {
        Ok(n) => n,
        Err(e) => {
            return Err(e);
        },
    };
    let max_payload: usize = mtu - FRAMING_OVERHEAD_BYTES;
    if channels == 0 {
        return Err(MtuError::NoFrameFits { mtu, channels: 0, max_payload, max_chunk_samples: 0 });
    }
    let max_chunk_samples: usize = max_payload / (channels as usize * F32_SAMPLE_BYTES);
    if max_chunk_samples == 0 {
        return Err(MtuError::NoFrameFits { mtu, channels, max_payload, max_chunk_samples });
    }
    Ok(MtuBudget { max_payload_bytes: max_payload, max_chunk_samples })
}

/// Whether a packet of the given size is split on its way.
pub fn exceeds_budget(encoded_bytes: usize, budget: &MtuBudget) -> (r: bool)
    ensures
        r == (encoded_bytes > budget.max_payload_bytes),
{
    encoded_bytes > budget.max_payload_bytes
}

/// The most frames that the budget names fit into its bytes; one more does
/// not.
pub proof fn law_budget_is_tight(mtu: usize, channels: u8)
    requires
        MTU_MIN_BYTES <= mtu <= MTU_MAX_BYTES,
        channels > 0,
    ensures
        frames_that_fit(mtu, channels) * (channels as nat * 4) + FRAMING_OVERHEAD_BYTES <= mtu,
        (frames_that_fit(mtu, channels) + 1) * (channels as nat * 4) + FRAMING_OVERHEAD_BYTES > mtu,
{
    let room = (mtu - FRAMING_OVERHEAD_BYTES) as nat;
    let frame = channels as nat * 4;
    assert((room / frame) * frame <= room && room < (room / frame + 1) * frame)
        by (nonlinear_arith)
        requires
            frame > 0,
    ;
}

/// A link MTU is accepted from 576 to 9000 bytes, and the error names the limit that
/// it is beyond. Behind 53 bytes of headers the frames that fit take no more than
/// what is left, and one more would; without channels nothing fits.
pub proof fn law_mtu_limits(mtu: usize, channels: u8)
    ensures
        576 <= mtu <= 9000 <==> mtu_in_range(mtu) is Ok,
        mtu_in_range(mtu) matches Ok(n) ==> n == mtu,
        mtu < 576 ==> mtu_in_range(mtu) == Err::<usize, MtuError>(
            MtuError::TooSmall { got: mtu, min: 576 },
        ),
        mtu > 9000 ==> mtu_in_range(mtu) == Err::<usize, MtuError>(
            MtuError::TooLarge { got: mtu, max: 9000 },
        ),
        channels == 0 ==> frames_that_fit(mtu, channels) == 0,
        channels > 0 && mtu >= 53 ==> 53 + 4 * (channels as nat * frames_that_fit(mtu, channels))
            <= mtu < 53 + 4 * (channels as nat * (frames_that_fit(mtu, channels) + 1)),
{
    if channels > 0 && mtu >= 53 {
        let c = channels as nat;
        let q = frames_that_fit(mtu, channels);
        let d = c * 4;
        let m = (mtu - 53) as nat;
        vstd::arithmetic::div_mod::lemma_fundamental_div_mod(m as int, d as int);
        assert(q == m / d);
        assert(4 * (c * q) <= m && m < 4 * (c * (q + 1))) by (nonlinear_arith)
            requires
                m == d * q + m % d,
                0 <= m % d < d,
                d == c * 4,
        ;
    }
}

/// The messages name the MTU and the limit, or what is left for samples.
pub proof fn law_mtu_messages(got: usize, limit: usize, channels: u8, left: usize, fit: usize)
    ensures
        (MtuError::TooSmall { got, min: limit }).spec_message() == "mtu "@ + text::decimal(
            got as nat,
        ) + " is below MTU_MIN ("@ + text::decimal(limit as nat)
            + "); teehee needs at least (mtu - framing_overhead) > 0 bytes for any payload"@,
        (MtuError::TooLarge { got, max: limit }).spec_message() == "mtu "@ + text::decimal(
            got as nat,
        ) + " exceeds MTU_MAX ("@ + text::decimal(limit as nat) + "); jumbo+ unsupported"@,
        (MtuError::NoFrameFits {
            mtu: got,
            channels,
            max_payload: left,
            max_chunk_samples: fit,
        }).spec_message() == "mtu "@ + text::decimal(got as nat)
            + " leaves no room for an f32 frame at channels="@ + text::decimal(channels as nat)
            + "; (mtu - framing_overhead = "@ + text::decimal(left as nat)
            + ") / (channels \\u00b7 4) = "@ + text::decimal(fit as nat) + " samples"@,
{
}

/// The budget of a link is what it leaves behind 53 bytes of headers, and the frames
/// that fit in there; a packet is split exactly where it is larger.
pub proof fn law_budget_of_a_link(
    mtu: usize,
    channels: u8,
    r: Result<MtuBudget, MtuError>,
    encoded: usize,
    split: bool,
)
    requires
        call_ensures(compute_budget, (mtu, channels), r),
    ensures
        r is Ok <==> 576 <= mtu <= 9000 && channels > 0 && mtu >= 53 + 4 * channels,
        r matches Ok(b) ==> {
            &&& b.max_payload_bytes == mtu - 53
            &&& 4 * (channels * b.max_chunk_samples) <= b.max_payload_bytes < 4 * (channels * (
            b.max_chunk_samples + 1))
            &&& call_ensures(exceeds_budget, (encoded, &b), split) ==> (split <==> encoded + 53
                > mtu)
        },
{
    law_mtu_limits(mtu, channels);
    if 576 <= mtu <= 9000 && channels > 0 {
        let c = channels as nat;
        let f = frames_that_fit(mtu, channels);
        assert(c * (0 + 1) == c) by (nonlinear_arith);
        assert(f > 0 ==> c * f >= c) by (nonlinear_arith)
            requires
                c >= 0,
        ;
    }
}

} // verus!
