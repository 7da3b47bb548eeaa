//! Wire format of the audio packets.
//!
//! A packet is a fixed 25-byte header followed by interleaved PCM samples.
//! All multi-byte fields are little-endian:
//!
//! ```text
//! offset  size  field
//!   0       4   magic            b"TEHE"
//!   4       1   version          1
//!   5       4   sequence         u32
//!   9       8   frame_timestamp  u64, the first frame in the payload
//!  17       4   sample_rate      u32, Hz
//!  21       1   channels         u8
//!  22       1   sample_format    u8, see `SampleFormat`
//!  23       2   payload_len      u16, bytes of payload
//!  25       ..  payload
//! ```
//!
//! Every packet can be read on its own: a receiver may start at any of them.
//! Samples are carried as the bit patterns of 32-bit floats (`f32::to_bits`).

use crate::bytes;
use crate::text;
use vstd::prelude::*;

verus! {

/// First bytes of every packet: "TEHE".
pub const MAGIC: [u8; 4] = [0x54, 0x45, 0x48, 0x45];

/// Protocol version of this build.
pub const VERSION: u8 = 1;

/// Bytes in the fixed header.
pub const HEADER_LEN: usize = 25;

/// Largest payload that the length field can announce.
pub const MAX_PAYLOAD_LEN: usize = 65535;

/// How the payload spells its samples.
#[derive(Debug, Clone, Copy, PartialEq, Eq, Hash, Structural)]
pub enum SampleFormat {
    /// 32-bit floating point, tag 1. The only format that is sent.
    F32,
    /// 16-bit signed integer, tag 2. Known on the wire, refused on receipt.
    I16,
}

impl SampleFormat {
    /// The tag byte of the format.
    pub open spec fn spec_tag(self) -> u8 {
        match self {
            SampleFormat::F32 => 1,
            SampleFormat::I16 => 2,
        }
    }

    /// Bytes per sample.
    pub open spec fn spec_sample_size(self) -> nat {
        match self {
            SampleFormat::F32 => 4,
            SampleFormat::I16 => 2,
        }
    }

    /// The format with the given tag, if there is one.
    pub fn from_tag(tag: u8) -> (r: Option<SampleFormat>)
        ensures
            r matches Some(f) ==> f.spec_tag() == tag,
            r is None <==> tag != 1 && tag != 2,
    {
        match tag {
            1 => Some(SampleFormat::F32),
            2 => Some(SampleFormat::I16),
            _ => None,
        }
    }

    /// The tag byte of the format.
    pub fn tag(self) -> (r: u8)
        ensures
            r == self.spec_tag(),
    {
        match self {
            SampleFormat::F32 => 1,
            SampleFormat::I16 => 2,
        }
    }

    /// Size in bytes of one sample.
    pub fn sample_size_bytes(self) -> (r: usize)
        ensures
            r == self.spec_sample_size(),
    {
        match self {
            SampleFormat::F32 => 4,
            SampleFormat::I16 => 2,
        }
    }
}

impl vstd::std_specs::convert::TryFromSpecImpl<u8> for SampleFormat {
    open spec fn obeys_try_from_spec() -> bool {
        true
    }

    open spec fn try_from_spec(tag: u8) -> Result<SampleFormat, ()> {
        if tag == SampleFormat::F32.spec_tag() {
            Ok(SampleFormat::F32)
        } else if tag == SampleFormat::I16.spec_tag() {
            Ok(SampleFormat::I16)
        } else {
            Err(())
        }
    }
}

impl TryFrom<u8> for SampleFormat {
    type Error = ();

    fn try_from(tag: u8) -> (r: Result<SampleFormat, ()>) {
        match SampleFormat::from_tag(tag) {
            Some(f) => Ok(f),
            None => Err(()),
        }
    }
}

/// Why some bytes are not a packet.
#[derive(Debug, Clone, Copy, PartialEq, Eq, Structural)]
pub enum ProtocolError {
    /// Fewer bytes than a header.
    TruncatedHeader { have: usize },
    /// The announced payload does not fit in the datagram.
    TruncatedPayload { needed: usize, available: usize },
    /// The first four bytes are not `MAGIC`.
    BadMagic,
    /// The version byte is not `VERSION`.
    UnsupportedVersion { found: u8 },
    /// The format byte is no known tag.
    UnsupportedSampleFormat(u8),
    /// No channels.
    InvalidChannels { channels: u8 },
    /// The payload is empty or no whole number of frames.
    InvalidPayloadLength { payload_len: usize, channels: u8 },
    /// 16-bit integer samples, which receivers of this version refuse.
    UnsupportedInboundFormatI16,
}

/// One audio packet.
#[derive(Debug, Clone, PartialEq)]
pub struct Packet {
    pub sequence: u32,
    pub frame_timestamp: u64,
    pub sample_rate: u32,
    pub channels: u8,
    pub sample_format: SampleFormat,
    /// Interleaved samples, little-endian.
    pub payload: Vec<u8>,
}

/// The contents of a packet.
#[verifier::ext_equal]
pub struct PacketView {
    pub sequence: u32,
    pub frame_timestamp: u64,
    pub sample_rate: u32,
    pub channels: u8,
    pub sample_format: SampleFormat,
    pub payload: Seq<u8>,
}

impl View for Packet {
    type V = PacketView;

    open spec fn view(&self) -> PacketView {
        PacketView {
            sequence: self.sequence,
            frame_timestamp: self.frame_timestamp,
            sample_rate: self.sample_rate,
            channels: self.channels,
            sample_format: self.sample_format,
            payload: self.payload@,
        }
    }
}

/// The bytes of a run of samples, four per sample.
pub open spec fn sample_bytes(samples: Seq<u32>) -> Seq<u8>
    decreases samples.len(),
{
    if samples.len() == 0 {
        Seq::empty()
    } else {
        sample_bytes(samples.drop_last()) + bytes::le_bytes(samples.last() as nat, 4)
    }
}

/// The samples spelled by the whole groups of four bytes in `payload`.
pub open spec fn samples_of(payload: Seq<u8>) -> Seq<u32> {
    Seq::new(
        payload.len() / 4,
        |i: int| bytes::le_value(payload.subrange(4 * i, 4 * i + 4)) as u32,
    )
}

impl PacketView {
    /// The 25 header bytes.
    pub open spec fn header(self) -> Seq<u8> {
        MAGIC@ + seq![VERSION] + bytes::le_bytes(self.sequence as nat, 4) + bytes::le_bytes(
            self.frame_timestamp as nat,
            8,
        ) + bytes::le_bytes(self.sample_rate as nat, 4) + seq![
            self.channels,
            self.sample_format.spec_tag(),
        ] + bytes::le_bytes(self.payload.len(), 2)
    }

    /// The packet on the wire.
    pub open spec fn encoded(self) -> Seq<u8> {
        self.header() + self.payload
    }

    /// What a receiver accepts: float samples in whole frames, at least one,
    /// no more than the length field can announce.
    pub open spec fn acceptable(self) -> bool {
        &&& self.sample_format == SampleFormat::F32
        &&& self.channels > 0
        &&& 0 < self.payload.len() <= MAX_PAYLOAD_LEN
        &&& self.payload.len() % (4 * self.channels as nat) == 0
    }
}

/// The length that a header announces for its payload.
pub open spec fn announced_len(b: Seq<u8>) -> nat {
    bytes::le_value(b.subrange(23, 25))
}

/// What a receiver makes of the bytes of one datagram. Bytes behind the
/// announced payload are ignored.
pub open spec fn decoded(b: Seq<u8>) -> Result<PacketView, ProtocolError> {
    if b.len() < HEADER_LEN {
        Err(ProtocolError::TruncatedHeader { have: b.len() as usize })
    } else if b.subrange(0, 4) != MAGIC@ {
        Err(ProtocolError::BadMagic)
    } else if b[4] != VERSION {
        Err(ProtocolError::UnsupportedVersion { found: b[4] })
    } else if b[22] != SampleFormat::F32.spec_tag() && b[22] != SampleFormat::I16.spec_tag() {
        Err(ProtocolError::UnsupportedSampleFormat(b[22]))
    } else if b[22] == SampleFormat::I16.spec_tag() {
        Err(ProtocolError::UnsupportedInboundFormatI16)
    } else if b.len() < HEADER_LEN + announced_len(b) {
        Err(
            ProtocolError::TruncatedPayload {
                needed: (HEADER_LEN + announced_len(b)) as usize,
                available: b.len() as usize,
            },
        )
    } else if b[21] == 0 {
        Err(ProtocolError::InvalidChannels { channels: 0 })
    } else if announced_len(b) == 0 || announced_len(b) % (4 * b[21] as nat) != 0 {
        Err(
            ProtocolError::InvalidPayloadLength {
                payload_len: announced_len(b) as usize,
                channels: b[21],
            },
        )
    } else {
        Ok(
            PacketView {
                sequence: bytes::le_value(b.subrange(5, 9)) as u32,
                frame_timestamp: bytes::le_value(b.subrange(9, 17)) as u64,
                sample_rate: bytes::le_value(b.subrange(17, 21)) as u32,
                channels: b[21],
                sample_format: SampleFormat::F32,
                payload: b.subrange(25, 25 + announced_len(b) as int),
            },
        )
    }
}

/// Four bytes per sample.
pub proof fn lemma_sample_bytes_len(samples: Seq<u32>)
    ensures
        sample_bytes(samples).len() == 4 * samples.len(),
    decreases samples.len(),
{
    if samples.len() > 0 {
        lemma_sample_bytes_len(samples.drop_last());
        bytes::lemma_le_bytes_len(samples.last() as nat, 4);
    }
}

/// Replaces what `out` holds by the samples whose bytes are given.
pub fn read_samples(bytes: &[u8], out: &mut Vec<u32>)
    ensures
        final(out)@ == samples_of(bytes@),
{
    out.clear();
    let len: usize = bytes.len();
    let n: usize = len / 4;
    out.reserve(n);
    let mut i: usize = 0;
    while i < n
        invariant
            len == bytes@.len(),
            i <= n == len / 4,
            out@ == samples_of(bytes@).take(i as int),
        decreases n - i,
    {
        let v: u64 = bytes::read_le(bytes, 4 * i, 4);
        proof {
            bytes::lemma_pow256_values();
        }
        out.push(v as u32);
        i += 1;
        assert(out@ =~= samples_of(bytes@).take(i as int));
    }
    assert(out@ =~= samples_of(bytes@));
}

impl Packet {
    /// A packet that carries interleaved float samples, given by their bit
    /// patterns.
    pub fn new(
        sequence: u32,
        frame_timestamp: u64,
        sample_rate: u32,
        channels: u8,
        samples: &[u32],
    ) -> (p: Packet)
        requires
            channels > 0,
            samples@.len() % (channels as nat) == 0,
        ensures
            p@ == (PacketView {
                sequence,
                frame_timestamp,
                sample_rate,
                channels,
                sample_format: SampleFormat::F32,
                payload: sample_bytes(samples@),
            }),
    {
        let mut payload: Vec<u8> = Vec::new();
        let n: usize = samples.len();
        let mut i: usize = 0;
        while i < n
            invariant
                i <= n == samples@.len(),
                payload@ == sample_bytes(samples@.take(i as int)),
            decreases n - i,
        {
            bytes::push_le(&mut payload, samples[i] as u64, 4);
            proof {
                assert(samples@.take(i + 1).drop_last() =~= samples@.take(i as int));
            }
            i += 1;
        }
        assert(samples@.take(n as int) =~= samples@);
        Packet {
            sequence,
            frame_timestamp,
            sample_rate,
            channels,
            sample_format: SampleFormat::F32,
            payload,
        }
    }

    /// Frames in the payload: samples per channel.
    pub fn pcm_frames(&self) -> (r: usize)
        requires
            self.channels > 0,
        ensures
            r == self@.payload.len() / self.sample_format.spec_sample_size() / (
            self.channels as nat),
    {
        self.payload.len() / self.sample_format.sample_size_bytes() / self.channels as usize
    }

    /// The samples of the payload, read as floats, by their bit patterns.
    pub fn pcm_f32(&self) -> (r: Vec<u32>)
        ensures
            r@ == samples_of(self@.payload),
    {
        let mut out: Vec<u32> = Vec::new();
        self.pcm_f32_into(&mut out);
        out
    }

    /// Replaces what `out` holds by the samples of the payload.
    pub fn pcm_f32_into(&self, out: &mut Vec<u32>)
        ensures
            final(out)@ == samples_of(self@.payload),
    {
        read_samples(self.payload.as_slice(), out);
    }

    /// The packet as wire bytes.
    pub fn encode(&self) -> (out: Vec<u8>)
        requires
            self@.payload.len() <= MAX_PAYLOAD_LEN,
        ensures
            out@ == self@.encoded(),
    {
        let mut out: Vec<u8> = Vec::with_capacity(HEADER_LEN + self.payload.len());
        out.push(MAGIC[0]);
        out.push(MAGIC[1]);
        out.push(MAGIC[2]);
        out.push(MAGIC[3]);
        assert(out@ =~= MAGIC@);
        out.push(VERSION);
        assert(out@ =~= MAGIC@ + seq![VERSION]);
        bytes::push_le(&mut out, self.sequence as u64, 4);
        bytes::push_le(&mut out, self.frame_timestamp, 8);
        bytes::push_le(&mut out, self.sample_rate as u64, 4);
        let ghost upto_rate = out@;
        out.push(self.channels);
        out.push(self.sample_format.tag());
        assert(out@ =~= upto_rate + seq![self.channels, self.sample_format.spec_tag()]);
        bytes::push_le(&mut out, self.payload.len() as u64, 2);
        assert(out@ == self@.header());
        out.extend_from_slice(self.payload.as_slice());
        assert(out@ =~= self@.encoded());
        out
    }

    /// Reads a packet from the bytes of one datagram.
    pub fn decode(bytes: &[u8]) -> (r: Result<Packet, ProtocolError>)
        ensures
            match r {
                Ok(p) => decoded(bytes@) == Ok::<PacketView, ProtocolError>(p@),
                Err(e) => decoded(bytes@) == Err::<PacketView, ProtocolError>(e),
            },
    {
        let len: usize = bytes.len();
        if len < HEADER_LEN {
            return Err(ProtocolError::TruncatedHeader { have: len });
        }
        let magic_ok: bool = bytes[0] == MAGIC[0] && bytes[1] == MAGIC[1] && bytes[2] == MAGIC[2]
            && bytes[3] == MAGIC[3];
        assert(magic_ok <==> bytes@.subrange(0, 4) =~= MAGIC@) by {
            let s = bytes@.subrange(0, 4);
            assert(s[0] == bytes@[0] && s[1] == bytes@[1] && s[2] == bytes@[2] && s[3] == bytes@[3]);
            assert(MAGIC@.len() == 4);
        }
        if !magic_ok {
            return Err(ProtocolError::BadMagic);
        }
        if bytes[4] != VERSION {
            return Err(ProtocolError::UnsupportedVersion { found: bytes[4] });
        }
        proof {
            bytes::lemma_pow256_values();
        }
        let sequence: u32 = bytes::read_le(bytes, 5, 4) as u32;
        let frame_timestamp: u64 = bytes::read_le(bytes, 9, 8);
        let sample_rate: u32 = bytes::read_le(bytes, 17, 4) as u32;
        let channels: u8 = bytes[21];
        let sample_format: SampleFormat = match SampleFormat::from_tag(bytes[22]) {
            Some(f) => f,
            None => {
                return Err(ProtocolError::UnsupportedSampleFormat(bytes[22]));
            },
        };
        if sample_format == SampleFormat::I16 {
            return Err(ProtocolError::UnsupportedInboundFormatI16);
        }
        let payload_len: usize = bytes::read_le(bytes, 23, 2) as usize;
        if len < HEADER_LEN + payload_len {
            return Err(
                ProtocolError::TruncatedPayload {
                    needed: HEADER_LEN + payload_len,
                    available: len,
                },
            );
        }
        if channels == 0 {
            return Err(ProtocolError::InvalidChannels { channels });
        }
        let frame_bytes: usize = sample_format.sample_size_bytes() * channels as usize;
        if payload_len == 0 || payload_len % frame_bytes != 0 {
            return Err(ProtocolError::InvalidPayloadLength { payload_len, channels });
        }
        let mut payload: Vec<u8> = Vec::with_capacity(payload_len);
        let end: usize = HEADER_LEN + payload_len;
        payload.extend_from_slice(&bytes[HEADER_LEN..end]);
        assert(payload@ =~= bytes@.subrange(25, 25 + payload_len));
        Ok(
            Packet {
                sequence,
                frame_timestamp,
                sample_rate,
                channels,
                sample_format,
                payload,
            },
        )
    }
}

impl ProtocolError {
    /// The error in words.
    pub open spec fn spec_message(self) -> Seq<char> {
        match self {
            ProtocolError::TruncatedHeader { have } => "packet too short to contain header ("@
                + text::decimal(have as nat) + " < "@ + text::decimal(HEADER_LEN as nat) + ")"@,
            ProtocolError::TruncatedPayload { needed, available } => "payload truncated: declared "@
                + text::decimal(needed as nat) + " bytes but only "@ + text::decimal(
                available as nat,
            ) + " available"@,
            ProtocolError::BadMagic => "packet magic did not match expected teehee marker"@,
            ProtocolError::UnsupportedVersion { found } => "unsupported protocol version: "@
                + text::decimal(found as nat),
            ProtocolError::UnsupportedSampleFormat(tag) => "unsupported sample format tag: 0x"@
                + text::hex(tag as nat, 2),
            ProtocolError::InvalidChannels { channels } =>
            "invalid channel count in packet header: "@ + text::decimal(channels as nat)
                + " (must be >= 1)"@,
            ProtocolError::InvalidPayloadLength { payload_len, channels } =>
            "invalid f32 payload length "@ + text::decimal(payload_len as nat) + " for "@
                + text::decimal(channels as nat)
                + " channel(s); payload must be non-empty and a whole number of interleaved f32 frames"@,
            ProtocolError::UnsupportedInboundFormatI16 =>
            "inbound I16 sample format is unsupported in teehee v1; update sender to emit f32 (the default) for v1 receivers"@,
        }
    }

    /// The error in words.
    pub fn message(&self) -> (r: String)
        ensures
            r@ == self.spec_message(),
    {
        let mut out: String = String::new();
        match *self {
            ProtocolError::TruncatedHeader { have } => {
                out.append("packet too short to contain header (");
                text::push_decimal(&mut out, have as u64);
                out.append(" < ");
                text::push_decimal(&mut out, HEADER_LEN as u64);
                out.append(")");
            },
            ProtocolError::TruncatedPayload { needed, available } => {
                out.append("payload truncated: declared ");
                text::push_decimal(&mut out, needed as u64);
                out.append(" bytes but only ");
                text::push_decimal(&mut out, available as u64);
                out.append(" available");
            },
            ProtocolError::BadMagic => {
                out.append("packet magic did not match expected teehee marker");
            },
            ProtocolError::UnsupportedVersion { found } => {
                out.append("unsupported protocol version: ");
                text::push_decimal(&mut out, found as u64);
            },
            ProtocolError::UnsupportedSampleFormat(tag) => {
                out.append("unsupported sample format tag: 0x");
                text::push_hex(&mut out, tag as u32, 2);
            },
            ProtocolError::InvalidChannels { channels } => {
                out.append("invalid channel count in packet header: ");
                text::push_decimal(&mut out, channels as u64);
                out.append(" (must be >= 1)");
            },
            ProtocolError::InvalidPayloadLength { payload_len, channels } => {
                out.append("invalid f32 payload length ");
                text::push_decimal(&mut out, payload_len as u64);
                out.append(" for ");
                text::push_decimal(&mut out, channels as u64);
                out.append(
                    " channel(s); payload must be non-empty and a whole number of interleaved f32 frames",
                );
            },
            ProtocolError::UnsupportedInboundFormatI16 => {
                out.append(
                    "inbound I16 sample format is unsupported in teehee v1; update sender to emit f32 (the default) for v1 receivers",
                );
            },
        }
        assert(out@ =~= self.spec_message());
        out
    }
}

/// The four groups of decode errors.
pub enum DecodeBucket {
    Truncated,
    BadMagic,
    BadVersion,
    BadFormat,
}

impl ProtocolError {
    /// The group that an error is counted in.
    pub open spec fn bucket(self) -> DecodeBucket {
        match self {
            ProtocolError::TruncatedHeader { .. } => DecodeBucket::Truncated,
            ProtocolError::TruncatedPayload { .. } => DecodeBucket::Truncated,
            ProtocolError::BadMagic => DecodeBucket::BadMagic,
            ProtocolError::UnsupportedVersion { .. } => DecodeBucket::BadVersion,
            _ => DecodeBucket::BadFormat,
        }
    }
}

/// Running counts of decode errors.
#[derive(Debug, Clone, Copy, PartialEq, Eq, Structural)]
pub struct DecodeStats {
    /// The header or the announced payload does not fit in the datagram.
    pub truncated: u64,
    /// Not a packet of this protocol.
    pub bad_magic: u64,
    /// Another protocol version.
    pub bad_version: u64,
    /// Unknown or refused sample format, no channels, or no whole frames.
    pub bad_format: u64,
}

impl Default for DecodeStats {
    fn default() -> (r: DecodeStats)
        ensures
            r == (DecodeStats { truncated: 0, bad_magic: 0, bad_version: 0, bad_format: 0 }),
    {
        DecodeStats { truncated: 0, bad_magic: 0, bad_version: 0, bad_format: 0 }
    }
}

impl DecodeStats {
    /// All errors counted so far.
    pub open spec fn spec_total(self) -> nat {
        (self.truncated + self.bad_magic + self.bad_version + self.bad_format) as nat
    }

    /// All errors counted so far.
    pub fn total(&self) -> (r: u64)
        requires
            self.spec_total() <= u64::MAX,
        ensures
            r == self.spec_total(),
    {
        self.truncated + self.bad_magic + self.bad_version + self.bad_format
    }

    /// One more error in its group.
    pub open spec fn recorded(self, err: ProtocolError) -> DecodeStats {
        match err.bucket() {
            DecodeBucket::Truncated => DecodeStats {
                truncated: (self.truncated + 1) as u64,
                ..self
            },
            DecodeBucket::BadMagic => DecodeStats {
                bad_magic: (self.bad_magic + 1) as u64,
                ..self
            },
            DecodeBucket::BadVersion => DecodeStats {
                bad_version: (self.bad_version + 1) as u64,
                ..self
            },
            DecodeBucket::BadFormat => DecodeStats {
                bad_format: (self.bad_format + 1) as u64,
                ..self
            },
        }
    }

    /// The group of this error can count one more.
    pub open spec fn has_room(self, err: ProtocolError) -> bool {
        match err.bucket() {
            DecodeBucket::Truncated => self.truncated < u64::MAX,
            DecodeBucket::BadMagic => self.bad_magic < u64::MAX,
            DecodeBucket::BadVersion => self.bad_version < u64::MAX,
            DecodeBucket::BadFormat => self.bad_format < u64::MAX,
        }
    }

    /// Counts one error in its group.
    pub fn record(&mut self, err: &ProtocolError)
        requires
            old(self).has_room(*err),
        ensures
            *final(self) == old(self).recorded(*err),
            final(self).spec_total() == old(self).spec_total() + 1,
    {
        match err {
            ProtocolError::TruncatedHeader { .. } | ProtocolError::TruncatedPayload { .. } => {
                self.truncated = self.truncated + 1;
            },
            ProtocolError::BadMagic => {
                self.bad_magic = self.bad_magic + 1;
            },
            ProtocolError::UnsupportedVersion { .. } => {
                self.bad_version = self.bad_version + 1;
            },
            ProtocolError::UnsupportedSampleFormat(_)
            | ProtocolError::InvalidChannels { .. }
            | ProtocolError::InvalidPayloadLength { .. }
            | ProtocolError::UnsupportedInboundFormatI16 => {
                self.bad_format = self.bad_format + 1;
            },
        }
    }
}

/// Where each field of a header stands.
proof fn lemma_header_layout(p: PacketView)
    requires
        p.payload.len() <= MAX_PAYLOAD_LEN,
    ensures
        p.header().len() == HEADER_LEN,
        p.header().subrange(0, 4) == MAGIC@,
        p.header()[4] == VERSION,
        p.header().subrange(5, 9) == bytes::le_bytes(p.sequence as nat, 4),
        p.header().subrange(9, 17) == bytes::le_bytes(p.frame_timestamp as nat, 8),
        p.header().subrange(17, 21) == bytes::le_bytes(p.sample_rate as nat, 4),
        p.header()[21] == p.channels,
        p.header()[22] == p.sample_format.spec_tag(),
        p.header().subrange(23, 25) == bytes::le_bytes(p.payload.len(), 2),
{
    bytes::lemma_le_bytes_len(p.sequence as nat, 4);
    bytes::lemma_le_bytes_len(p.frame_timestamp as nat, 8);
    bytes::lemma_le_bytes_len(p.sample_rate as nat, 4);
    bytes::lemma_le_bytes_len(p.payload.len(), 2);
    let h = p.header();
    assert(h.subrange(0, 4) =~= MAGIC@);
    assert(h.subrange(5, 9) =~= bytes::le_bytes(p.sequence as nat, 4));
    assert(h.subrange(9, 17) =~= bytes::le_bytes(p.frame_timestamp as nat, 8));
    assert(h.subrange(17, 21) =~= bytes::le_bytes(p.sample_rate as nat, 4));
    assert(h.subrange(23, 25) =~= bytes::le_bytes(p.payload.len(), 2));
}

/// A packet takes the header and its payload on the wire.
pub proof fn lemma_encoded_len(p: PacketView)
    requires
        p.payload.len() <= MAX_PAYLOAD_LEN,
    ensures
        p.encoded().len() == HEADER_LEN + p.payload.len(),
{
    lemma_header_layout(p);
}

/// Reading the wire bytes of an acceptable packet gives the packet back,
/// whatever bytes follow it in the datagram.
pub proof fn law_decode_encode(p: PacketView, trailing: Seq<u8>)
    requires
        p.acceptable(),
    ensures
        decoded(p.encoded() + trailing) == Ok::<PacketView, ProtocolError>(p),
{
    let h = p.header();
    let b = p.encoded() + trailing;
    lemma_header_layout(p);
    assert(b.subrange(0, 4) =~= h.subrange(0, 4));
    assert(b.subrange(5, 9) =~= h.subrange(5, 9));
    assert(b.subrange(9, 17) =~= h.subrange(9, 17));
    assert(b.subrange(17, 21) =~= h.subrange(17, 21));
    assert(b.subrange(23, 25) =~= h.subrange(23, 25));
    assert(b.subrange(25, 25 + p.payload.len() as int) =~= p.payload);
    bytes::lemma_pow256_values();
    bytes::lemma_le_value_of_bytes(p.sequence as nat, 4);
    bytes::lemma_le_value_of_bytes(p.frame_timestamp as nat, 8);
    bytes::lemma_le_value_of_bytes(p.sample_rate as nat, 4);
    bytes::lemma_le_value_of_bytes(p.payload.len(), 2);
}

/// A packet that was read is acceptable, and its wire bytes are those it was
/// read from, up to the end of its payload.
pub proof fn law_encode_decoded(b: Seq<u8>)
    ensures
        decoded(b) matches Ok(p) ==> p.acceptable() && HEADER_LEN + p.payload.len() <= b.len()
            && p.encoded() == b.take(HEADER_LEN + p.payload.len()),
{
    if let Ok(p) = decoded(b) {
        bytes::lemma_pow256_values();
        let seq_bytes = b.subrange(5, 9);
        let ts_bytes = b.subrange(9, 17);
        let rate_bytes = b.subrange(17, 21);
        let len_bytes = b.subrange(23, 25);
        bytes::lemma_le_value_bound(seq_bytes);
        bytes::lemma_le_value_bound(ts_bytes);
        bytes::lemma_le_value_bound(rate_bytes);
        bytes::lemma_le_value_bound(len_bytes);
        bytes::lemma_le_bytes_of_value(seq_bytes);
        bytes::lemma_le_bytes_of_value(ts_bytes);
        bytes::lemma_le_bytes_of_value(rate_bytes);
        bytes::lemma_le_bytes_of_value(len_bytes);
        assert(p.payload.len() == announced_len(b));
        lemma_header_layout(p);
        let e = p.encoded();
        let want = b.take(HEADER_LEN + p.payload.len());
        assert(e.len() == want.len());
        assert forall|i: int| 0 <= i < e.len() implies e[i] == want[i] by {
            if i < 4 {
                assert(e[i] == p.header().subrange(0, 4)[i]);
                assert(b[i] == b.subrange(0, 4)[i]);
            } else if 5 <= i < 9 {
                assert(e[i] == p.header().subrange(5, 9)[i - 5]);
                assert(b[i] == seq_bytes[i - 5]);
            } else if 9 <= i < 17 {
                assert(e[i] == p.header().subrange(9, 17)[i - 9]);
                assert(b[i] == ts_bytes[i - 9]);
            } else if 17 <= i < 21 {
                assert(e[i] == p.header().subrange(17, 21)[i - 17]);
                assert(b[i] == rate_bytes[i - 17]);
            } else if 23 <= i < 25 {
                assert(e[i] == p.header().subrange(23, 25)[i - 23]);
                assert(b[i] == len_bytes[i - 23]);
            } else if i >= 25 {
                assert(e[i] == p.payload[i - 25]);
            }
        }
        assert(e =~= want);
    }
}

/// Retagging a packet as 16-bit integers makes a receiver refuse it for its
/// format, even where its payload is empty, uneven or cut short.
pub proof fn law_integer_samples_are_refused(p: PacketView, cut: nat)
    requires
        p.sample_format == SampleFormat::I16,
        p.payload.len() <= MAX_PAYLOAD_LEN,
        HEADER_LEN <= cut <= p.encoded().len(),
    ensures
        decoded(p.encoded().take(cut as int)) == Err::<PacketView, ProtocolError>(
            ProtocolError::UnsupportedInboundFormatI16,
        ),
{
    lemma_header_layout(p);
    let b = p.encoded().take(cut as int);
    assert(b.subrange(0, 4) =~= p.header().subrange(0, 4));
    assert(b[4] == p.header()[4]);
    assert(b[22] == p.header()[22]);
}

/// Four-byte groups of concatenated sample bytes.
proof fn lemma_sample_bytes_group(samples: Seq<u32>, i: int)
    requires
        0 <= i < samples.len(),
    ensures
        sample_bytes(samples).len() == 4 * samples.len(),
        sample_bytes(samples).subrange(4 * i, 4 * i + 4) == bytes::le_bytes(samples[i] as nat, 4),
    decreases samples.len(),
{
    let front = samples.drop_last();
    lemma_sample_bytes_len(samples);
    lemma_sample_bytes_len(front);
    bytes::lemma_le_bytes_len(samples.last() as nat, 4);
    if i < front.len() {
        lemma_sample_bytes_group(front, i);
        assert(sample_bytes(samples).subrange(4 * i, 4 * i + 4) =~= sample_bytes(front).subrange(
            4 * i,
            4 * i + 4,
        ));
    } else {
        assert(sample_bytes(samples).subrange(4 * i, 4 * i + 4) =~= bytes::le_bytes(
            samples.last() as nat,
            4,
        ));
    }
}

/// The samples that a packet was made from are the samples that it hands out.
pub proof fn law_samples_round_trip(samples: Seq<u32>)
    ensures
        samples_of(sample_bytes(samples)) == samples,
{
    lemma_sample_bytes_len(samples);
    bytes::lemma_pow256_values();
    assert forall|i: int| 0 <= i < samples.len() implies samples_of(sample_bytes(samples))[i]
        == samples[i] by {
        lemma_sample_bytes_group(samples, i);
        bytes::lemma_le_value_of_bytes(samples[i] as nat, 4);
    }
    assert(samples_of(sample_bytes(samples)) =~= samples);
}

/// Four bytes, read with the lowest first.
proof fn lemma_four_bytes(b: Seq<u8>)
    requires
        b.len() == 4,
    ensures
        bytes::le_value(b) == b[0] + 0x100 * b[1] + 0x1_0000 * b[2] + 0x100_0000 * b[3],
{
    reveal_with_fuel(bytes::le_value, 5);
    let b1 = b.drop_first();
    let b2 = b1.drop_first();
    let b3 = b2.drop_first();
    assert(b1[0] == b[1] && b2[0] == b[2] && b3[0] == b[3]);
    assert(b3.drop_first().len() == 0);
}

proof fn lemma_two_bytes(b: Seq<u8>)
    requires
        b.len() == 2,
    ensures
        bytes::le_value(b) == b[0] + 0x100 * b[1],
{
    reveal_with_fuel(bytes::le_value, 3);
    assert(b.drop_first()[0] == b[1]);
    assert(b.drop_first().drop_first().len() == 0);
}

/// Eight bytes are two times four.
proof fn lemma_eight_bytes(b: Seq<u8>)
    requires
        b.len() == 8,
    ensures
        bytes::le_value(b) == bytes::le_value(b.take(4)) + 0x1_0000_0000 * bytes::le_value(b.skip(4)),
{
    let b1 = b.drop_first();
    let b2 = b1.drop_first();
    let b3 = b2.drop_first();
    let b4 = b3.drop_first();
    assert(b4 =~= b.skip(4));
    assert(b1[0] == b[1] && b2[0] == b[2] && b3[0] == b[3]);
    assert(bytes::le_value(b) == b[0] + 256 * bytes::le_value(b1));
    assert(bytes::le_value(b1) == b[1] + 256 * bytes::le_value(b2));
    assert(bytes::le_value(b2) == b[2] + 256 * bytes::le_value(b3));
    assert(bytes::le_value(b3) == b[3] + 256 * bytes::le_value(b4));
    lemma_four_bytes(b.take(4));
}

/// The number in the four bytes of `b` from `at` on, lowest first.
pub open spec fn word_at(b: Seq<u8>, at: int) -> int {
    b[at] + 0x100 * b[at + 1] + 0x1_0000 * b[at + 2] + 0x100_0000 * b[at + 3]
}

/// Where everything stands on the wire: "TEHE", the version 1, then, lowest byte
/// first, the sequence number, the time stamp and the rate; the channels; the
/// format, 1 for floats and 2 for integers; the length of the payload; and the
/// payload as it is.
pub proof fn law_wire_layout(p: PacketView)
    requires
        p.payload.len() <= 65535,
    ensures
        ({
            let b = p.encoded();
            &&& b.len() == 25 + p.payload.len()
            &&& b[0] == 'T' as u8 && b[1] == 'E' as u8 && b[2] == 'H' as u8 && b[3] == 'E' as u8
            &&& b[4] == 1
            &&& word_at(b, 5) == p.sequence
            &&& word_at(b, 9) + 0x1_0000_0000 * word_at(b, 13) == p.frame_timestamp
            &&& word_at(b, 17) == p.sample_rate
            &&& b[21] == p.channels
            &&& b[22] == if p.sample_format == SampleFormat::F32 {
                1u8
            } else {
                2u8
            }
            &&& b[23] + 0x100 * b[24] == p.payload.len()
            &&& b.skip(25) == p.payload
        }),
{
    bytes::lemma_pow256_values();
    let seq = bytes::le_bytes(p.sequence as nat, 4);
    let time = bytes::le_bytes(p.frame_timestamp as nat, 8);
    let rate = bytes::le_bytes(p.sample_rate as nat, 4);
    let len = bytes::le_bytes(p.payload.len(), 2);
    bytes::lemma_le_bytes_len(p.sequence as nat, 4);
    bytes::lemma_le_bytes_len(p.frame_timestamp as nat, 8);
    bytes::lemma_le_bytes_len(p.sample_rate as nat, 4);
    bytes::lemma_le_bytes_len(p.payload.len(), 2);
    bytes::lemma_le_value_of_bytes(p.sequence as nat, 4);
    bytes::lemma_le_value_of_bytes(p.frame_timestamp as nat, 8);
    bytes::lemma_le_value_of_bytes(p.sample_rate as nat, 4);
    bytes::lemma_le_value_of_bytes(p.payload.len(), 2);
    lemma_four_bytes(seq);
    lemma_eight_bytes(time);
    lemma_four_bytes(time.take(4));
    lemma_four_bytes(time.skip(4));
    lemma_four_bytes(rate);
    lemma_two_bytes(len);
    let b = p.encoded();
    assert(b.subrange(5, 9) =~= seq);
    assert(b.subrange(9, 17) =~= time);
    assert(b.subrange(17, 21) =~= rate);
    assert(b.subrange(23, 25) =~= len);
    assert forall|i: int| 0 <= i < 4 implies b[5 + i] == #[trigger] seq[i] && b[17 + i] == rate[i]
        by {
        assert(b.subrange(5, 9)[i] == seq[i]);
        assert(b.subrange(17, 21)[i] == rate[i]);
    }
    assert forall|i: int| 0 <= i < 8 implies b[9 + i] == #[trigger] time[i] by {
        assert(b.subrange(9, 17)[i] == time[i]);
    }
    assert forall|i: int| 0 <= i < 2 implies b[23 + i] == #[trigger] len[i] by {
        assert(b.subrange(23, 25)[i] == len[i]);
    }
    assert(b[5] == seq[0] && b[6] == seq[1] && b[7] == seq[2] && b[8] == seq[3]);
    assert(b[17] == rate[0] && b[18] == rate[1] && b[19] == rate[2] && b[20] == rate[3]);
    assert(b[9] == time[0] && b[10] == time[1] && b[11] == time[2] && b[12] == time[3]);
    assert(b[13] == time[4] && b[14] == time[5] && b[15] == time[6] && b[16] == time[7]);
    assert(b[23] == len[0] && b[24] == len[1]);
    assert(b.skip(25) =~= p.payload);
    assert(MAGIC@ =~= seq![0x54u8, 0x45u8, 0x48u8, 0x45u8]);
}

/// A datagram holds a packet exactly where it begins with a header of "TEHE",
/// version 1 and float samples, all of the announced payload is there, and that
/// is a whole number of frames, at least one, of at least one channel. What the
/// packet says is what stands in the header; the first thing that is wrong is the
/// error.
pub proof fn law_what_is_a_packet(b: Seq<u8>)
    requires
        b.len() <= usize::MAX,
    ensures
        ({
            let len = b[23] + 0x100 * b[24];
            let magic = b[0] == 'T' as u8 && b[1] == 'E' as u8 && b[2] == 'H' as u8 && b[3]
                == 'E' as u8;
            match decoded(b) {
                Ok(p) => {
                    &&& b.len() >= 25 + len && magic && b[4] == 1 && b[22] == 1
                    &&& b[21] > 0 && len > 0 && len % (4 * b[21]) == 0
                    &&& p.sequence == word_at(b, 5)
                    &&& p.frame_timestamp == word_at(b, 9) + 0x1_0000_0000 * word_at(b, 13)
                    &&& p.sample_rate == word_at(b, 17)
                    &&& p.channels == b[21]
                    &&& p.sample_format == SampleFormat::F32
                    &&& p.payload == b.subrange(25, 25 + len)
                },
                Err(ProtocolError::TruncatedHeader { have }) => b.len() < 25 && have == b.len(),
                Err(ProtocolError::BadMagic) => b.len() >= 25 && !magic,
                Err(ProtocolError::UnsupportedVersion { found }) => b.len() >= 25 && magic && b[4]
                    != 1 && found == b[4],
                Err(ProtocolError::UnsupportedSampleFormat(tag)) => b.len() >= 25 && magic && b[4]
                    == 1 && tag == b[22] && tag != 1 && tag != 2,
                Err(ProtocolError::UnsupportedInboundFormatI16) => b.len() >= 25 && magic && b[4]
                    == 1 && b[22] == 2,
                Err(ProtocolError::TruncatedPayload { needed, available }) => b.len() >= 25 && magic
                    && b[4] == 1 && b[22] == 1 && b.len() < 25 + len && needed == 25 + len
                    && available == b.len(),
                Err(ProtocolError::InvalidChannels { channels }) => b.len() >= 25 + len && magic
                    && b[4] == 1 && b[22] == 1 && b[21] == 0 && channels == 0,
                Err(ProtocolError::InvalidPayloadLength { payload_len, channels }) => b.len() >= 25
                    + len && magic && b[4] == 1 && b[22] == 1 && b[21] > 0 && payload_len == len
                    && channels == b[21] && (len == 0 || len % (4 * b[21]) != 0),
            }
        }),
{
    if b.len() >= 25 {
        let m = b.subrange(0, 4);
        assert(m[0] == b[0] && m[1] == b[1] && m[2] == b[2] && m[3] == b[3]);
        assert(MAGIC@ =~= seq![0x54u8, 0x45u8, 0x48u8, 0x45u8]);
        assert(m == MAGIC@ <==> (b[0] == 0x54 && b[1] == 0x45 && b[2] == 0x48 && b[3] == 0x45)) by {
            if b[0] == 0x54 && b[1] == 0x45 && b[2] == 0x48 && b[3] == 0x45 {
                assert(m =~= MAGIC@);
            }
        }
        let l = b.subrange(23, 25);
        lemma_two_bytes(l);
        assert(l[0] == b[23] && l[1] == b[24]);
        let s = b.subrange(5, 9);
        lemma_four_bytes(s);
        assert(s[0] == b[5] && s[1] == b[6] && s[2] == b[7] && s[3] == b[8]);
        let r = b.subrange(17, 21);
        lemma_four_bytes(r);
        assert(r[0] == b[17] && r[1] == b[18] && r[2] == b[19] && r[3] == b[20]);
        let t = b.subrange(9, 17);
        lemma_eight_bytes(t);
        lemma_four_bytes(t.take(4));
        lemma_four_bytes(t.skip(4));
        assert(t[0] == b[9] && t[1] == b[10] && t[2] == b[11] && t[3] == b[12]);
        assert(t[4] == b[13] && t[5] == b[14] && t[6] == b[15] && t[7] == b[16]);
    }
}

/// A sample takes four bytes, lowest first: sample `i` stands in the bytes from
/// `4 * i` on, and bytes that make no whole sample are left out.
pub proof fn law_samples_on_the_wire(samples: Seq<u32>, payload: Seq<u8>, i: int)
    ensures
        sample_bytes(samples).len() == 4 * samples.len(),
        0 <= i < samples.len() ==> word_at(sample_bytes(samples), 4 * i) == samples[i],
        4 * samples_of(payload).len() <= payload.len() < 4 * samples_of(payload).len() + 4,
        0 <= 4 * i && 4 * i + 4 <= payload.len() ==> samples_of(payload)[i] == word_at(
            payload,
            4 * i,
        ),
{
    lemma_sample_bytes_len(samples);
    if 0 <= 4 * i && 4 * i + 4 <= payload.len() {
        let g = payload.subrange(4 * i, 4 * i + 4);
        lemma_four_bytes(g);
        assert(g[0] == payload[4 * i] && g[1] == payload[4 * i + 1] && g[2] == payload[4 * i + 2]
            && g[3] == payload[4 * i + 3]);
    }
    if 0 <= i < samples.len() {
        let b = sample_bytes(samples);
        law_samples_round_trip(samples);
        let g = b.subrange(4 * i, 4 * i + 4);
        lemma_four_bytes(g);
        assert(g[0] == b[4 * i] && g[1] == b[4 * i + 1] && g[2] == b[4 * i + 2] && g[3] == b[4 * i
            + 3]);
        assert(samples_of(b)[i] == samples[i]);
    }
}

/// Every refused datagram is counted in one of the four groups, and each group
/// says what is wrong: too little data, no packet of this protocol, another
/// version, or audio that cannot be played.
pub proof fn law_refusals_are_grouped(s: DecodeStats, e: ProtocolError)
    requires
        s.has_room(e),
    ensures
        ({
            let t = s.recorded(e);
            match e {
                ProtocolError::TruncatedHeader { .. } | ProtocolError::TruncatedPayload {
                    ..
                } => t.truncated == s.truncated + 1 && t.bad_magic == s.bad_magic && t.bad_version
                    == s.bad_version && t.bad_format == s.bad_format,
                ProtocolError::BadMagic => t.bad_magic == s.bad_magic + 1 && t.truncated
                    == s.truncated && t.bad_version == s.bad_version && t.bad_format
                    == s.bad_format,
                ProtocolError::UnsupportedVersion { .. } => t.bad_version == s.bad_version + 1
                    && t.truncated == s.truncated && t.bad_magic == s.bad_magic && t.bad_format
                    == s.bad_format,
                _ => t.bad_format == s.bad_format + 1 && t.truncated == s.truncated && t.bad_magic
                    == s.bad_magic && t.bad_version == s.bad_version,
            }
        }),
        s.spec_total() == s.truncated + s.bad_magic + s.bad_version + s.bad_format,
        SampleFormat::F32.spec_sample_size() == 4,
        SampleFormat::I16.spec_sample_size() == 2,
{
}

/// The messages name what was found, and what was expected in numbers.
pub proof fn law_refusals_are_told(have: usize, needed: usize, found: u8, payload_len: usize)
    ensures
        (ProtocolError::TruncatedHeader { have }).spec_message()
            == "packet too short to contain header ("@ + text::decimal(have as nat) + " < "@
            + text::decimal(25) + ")"@,
        (ProtocolError::TruncatedPayload { needed, available: have }).spec_message()
            == "payload truncated: declared "@ + text::decimal(needed as nat)
            + " bytes but only "@ + text::decimal(have as nat) + " available"@,
        (ProtocolError::UnsupportedVersion { found }).spec_message()
            == "unsupported protocol version: "@ + text::decimal(found as nat),
        ProtocolError::UnsupportedSampleFormat(found).spec_message()
            == "unsupported sample format tag: 0x"@ + text::hex(found as nat, 2),
        (ProtocolError::InvalidChannels { channels: found }).spec_message()
            == "invalid channel count in packet header: "@ + text::decimal(found as nat)
            + " (must be >= 1)"@,
        (ProtocolError::InvalidPayloadLength { payload_len, channels: found }).spec_message()
            == "invalid f32 payload length "@ + text::decimal(payload_len as nat) + " for "@
            + text::decimal(found as nat)
            + " channel(s); payload must be non-empty and a whole number of interleaved f32 frames"@,
{
}

/// What is encoded decodes as it was, in every field: a packet of whole frames of
/// floats survives the wire.
pub proof fn law_packets_survive_the_wire(
    p: Packet,
    encoded: Vec<u8>,
    bytes: &[u8],
    r: Result<Packet, ProtocolError>,
)
    requires
        p@.acceptable(),
        call_ensures(Packet::encode, (&p,), encoded),
        bytes@ == encoded@,
        call_ensures(Packet::decode, (bytes,), r),
    ensures
        r matches Ok(q) && q@.sequence == p@.sequence && q@.frame_timestamp == p@.frame_timestamp
            && q@.sample_rate == p@.sample_rate && q@.channels == p@.channels && q@.payload
            == p@.payload,
{
    law_decode_encode(p@, Seq::empty());
    assert(p@.encoded() + Seq::<u8>::empty() =~= p@.encoded());
}

} // verus!
