//! Command-line settings: their types, defaults, ranges and cross-checks.

use crate::buffer_budget::{RX_BUFFER_MAX_MS, RX_BUFFER_MIN_MS};
use crate::mtu_budget::{MTU_MAX_BYTES, MTU_MIN_BYTES};
use crate::text;
use vstd::prelude::*;

verus! {

/// UDP port where none is given.
pub const DEFAULT_PORT: u16 = 5000;

/// Length of a packet in milliseconds where none is given.
pub const DEFAULT_CHUNK_MS: usize = 20;

/// Sample rate of the generated tone where none is given.
pub const DEFAULT_SAMPLE_RATE: u32 = 48_000;

/// Channels of the generated tone where none are given.
pub const DEFAULT_CHANNELS: u8 = 2;

/// Prebuffer where none is given.
pub const DEFAULT_PREBUFFER_MS: usize = 200;

/// Shortest and longest packet, in milliseconds.
pub const CHUNK_MIN_MS: usize = 1;

pub const CHUNK_MAX_MS: usize = 200;

/// Shortest and longest prebuffer, in milliseconds.
pub const PREBUFFER_MIN_MS: usize = 20;

pub const PREBUFFER_MAX_MS: usize = 10_000;

/// Most channels that can be sent.
pub const CHANNELS_MAX: u8 = 8;

/// A whole command line.
#[derive(Debug, Clone)]
pub struct Cli {
    pub command: Command,
}

/// What to do.
#[derive(Debug, Clone)]
pub enum Command {
    /// Capture or generate audio and send it.
    Send(SendArgs),
    /// Receive audio and play it.
    Recv(RecvArgs),
    /// List the audio devices.
    Devices,
}

/// Settings of the sender.
///
/// The destination is given as `host` or as `host_flag`, not both, and may
/// carry a port (`host:port`), unless `port` is set as well; or it is looked
/// up on the local network (`mdns`).
#[derive(Debug, Clone)]
pub struct SendArgs {
    /// Destination, given by position.
    pub host: Option<String>,
    /// Destination, given by `--host`.
    pub host_flag: Option<String>,
    /// Destination port.
    pub port: u16,
    /// Length of a packet in milliseconds.
    pub chunk_ms: usize,
    /// Link MTU in bytes.
    pub mtu: usize,
    /// Sample rate of the generated tone.
    pub sample_rate: u32,
    /// Channels of the generated tone.
    pub channels: u8,
    /// Send a generated tone instead of captured audio.
    pub sine: bool,
    /// Report regularly.
    pub stats: bool,
    /// Where to capture from.
    pub capture_source: CaptureSource,
    /// Refuse `CaptureSource::Auto`.
    pub exact_capture_source: bool,
    /// Look the receiver up on the local network.
    pub mdns: bool,
    /// How long to look, in milliseconds.
    pub mdns_timeout_ms: u64,
    /// Depth of the capture buffer in milliseconds.
    pub capture_buffer_ms: usize,
    /// File for structured logs.
    pub log_file: Option<String>,
    /// Port of the control server on this machine; 0 for none.
    pub control_port: u16,
    /// Follow the system's volume.
    pub follow_system_volume: bool,
}

/// Where captured audio comes from.
#[derive(Debug, Clone, Copy, PartialEq, Eq, Structural)]
pub enum CaptureSource {
    /// The default input device.
    Default,
    /// What the default output device plays (Windows only).
    Loopback,
    /// The default input device or, where that fails on Windows, what the
    /// default output device plays.
    Auto,
}

/// Settings of the receiver.
#[derive(Debug, Clone)]
pub struct RecvArgs {
    /// Port to listen on.
    pub port: u16,
    /// Audio that must be queued before playback starts, in milliseconds.
    pub prebuffer_ms: usize,
    /// Audio that can be queued at all, in milliseconds.
    pub rx_buffer_ms: usize,
    /// Report regularly.
    pub stats: bool,
    /// Announce the receiver on the local network.
    pub mdns: bool,
    /// File for structured logs.
    pub log_file: Option<String>,
}

/// A number within `min..=max`, with the messages for what is not one.
pub open spec fn in_range(s: Seq<char>, name: Seq<char>, min: nat, max: nat, word_max: nat) -> Result<
    nat,
    Seq<char>,
> {
    match text::parsed(s, word_max) {
        Err(e) => Err(e.spec_message()),
        Ok(n) => if n < min || n > max {
            Err(
                name + " must be in "@ + text::decimal(min) + "..="@ + text::decimal(max)
                    + " (got "@ + text::decimal(n) + ")"@,
            )
        } else {
            Ok(n)
        },
    }
}

/// The result and the text of its error, if any.
pub open spec fn usize_result(r: Result<usize, String>) -> Result<nat, Seq<char>> {
    match r {
        Ok(n) => Ok(n as nat),
        Err(e) => Err(e@),
    }
}

/// Reads a number within `min..=max`.
fn parse_in_range(s: &str, name: &str, min: usize, max: usize) -> (r: Result<usize, String>)
    ensures
        usize_result(r) == in_range(s@, name@, min as nat, max as nat, usize::MAX as nat),
{
    let n: u64 = match text::parse_number(s, usize::MAX as u64) {
        Ok(n) => n,
        Err(e) => {
            return Err(e.message().to_owned());
        },
    };
    if n < min as u64 || n > max as u64 {
        let mut out: String = String::new();
        out.append(name);
        out.append(" must be in ");
        text::push_decimal(&mut out, min as u64);
        out.append("..=");
        text::push_decimal(&mut out, max as u64);
        out.append(" (got ");
        text::push_decimal(&mut out, n);
        out.append(")");
        assert(out@ =~= name@ + " must be in "@ + text::decimal(min as nat) + "..="@
            + text::decimal(max as nat) + " (got "@ + text::decimal(n as nat) + ")"@);
        return Err(out);
    }
    Ok(n as usize)
}

/// Reads a prebuffer in milliseconds.
pub fn parse_prebuffer_ms(s: &str) -> (r: Result<usize, String>)
    ensures
        usize_result(r) == in_range(
            s@,
            "prebuffer-ms"@,
            PREBUFFER_MIN_MS as nat,
            PREBUFFER_MAX_MS as nat,
            usize::MAX as nat,
        ),
{
    parse_in_range(s, "prebuffer-ms", PREBUFFER_MIN_MS, PREBUFFER_MAX_MS)
}

/// Reads a packet length in milliseconds.
pub fn parse_chunk_ms(s: &str) -> (r: Result<usize, String>)
    ensures
        usize_result(r) == in_range(
            s@,
            "chunk-ms"@,
            CHUNK_MIN_MS as nat,
            CHUNK_MAX_MS as nat,
            usize::MAX as nat,
        ),
{
    parse_in_range(s, "chunk-ms", CHUNK_MIN_MS, CHUNK_MAX_MS)
}

/// Reads a ring depth in milliseconds.
pub fn parse_rx_buffer_ms(s: &str) -> (r: Result<usize, String>)
    ensures
        usize_result(r) == in_range(
            s@,
            "rx-buffer-ms"@,
            RX_BUFFER_MIN_MS as nat,
            RX_BUFFER_MAX_MS as nat,
            usize::MAX as nat,
        ),
{
    parse_in_range(s, "rx-buffer-ms", RX_BUFFER_MIN_MS, RX_BUFFER_MAX_MS)
}

/// Reads a link MTU in bytes.
pub fn parse_mtu(s: &str) -> (r: Result<usize, String>)
    ensures
        usize_result(r) == in_range(
            s@,
            "mtu"@,
            MTU_MIN_BYTES as nat,
            MTU_MAX_BYTES as nat,
            usize::MAX as nat,
        ),
{
    parse_in_range(s, "mtu", MTU_MIN_BYTES, MTU_MAX_BYTES)
}

/// A port, with the messages for what is not one.
pub open spec fn port_of(s: Seq<char>) -> Result<u16, Seq<char>> {
    match text::parsed(s, u32::MAX as nat) {
        Err(e) => Err(e.spec_message()),
        Ok(n) => if n > u16::MAX {
            Err(
                "port must be in 1..="@ + text::decimal(u16::MAX as nat) + " (got "@
                    + text::decimal(n) + ")"@,
            )
        } else {
            Ok(n as u16)
        },
    }
}

/// Reads a port.
pub fn parse_port(s: &str) -> (r: Result<u16, String>)
    ensures
        match r {
            Ok(p) => port_of(s@) == Ok::<u16, Seq<char>>(p),
            Err(e) => port_of(s@) == Err::<u16, Seq<char>>(e@),
        },
{
    let n: u64 = match text::parse_number(s, u32::MAX as u64) {
        Ok(n) => n,
        Err(e) => {
            return Err(e.message().to_owned());
        },
    };
    if n > u16::MAX as u64 {
        let mut out: String = String::new();
        out.append("port must be in 1..=");
        text::push_decimal(&mut out, u16::MAX as u64);
        out.append(" (got ");
        text::push_decimal(&mut out, n);
        out.append(")");
        assert(out@ =~= "port must be in 1..="@ + text::decimal(u16::MAX as nat) + " (got "@
            + text::decimal(n as nat) + ")"@);
        return Err(out);
    }
    Ok(n as u16)
}

impl CaptureSource {
    /// The name of a source on the command line.
    pub open spec fn spec_name(self) -> Seq<char> {
        match self {
            CaptureSource::Default => "default"@,
            CaptureSource::Loopback => "loopback"@,
            CaptureSource::Auto => "auto"@,
        }
    }
}

/// The three names are different.
proof fn lemma_source_names_differ()
    ensures
        CaptureSource::Default.spec_name() != CaptureSource::Loopback.spec_name(),
        CaptureSource::Default.spec_name() != CaptureSource::Auto.spec_name(),
        CaptureSource::Loopback.spec_name() != CaptureSource::Auto.spec_name(),
{
    reveal_strlit("default");
    reveal_strlit("loopback");
    reveal_strlit("auto");
    assert("default"@.len() == 7);
    assert("loopback"@.len() == 8);
    assert("auto"@.len() == 4);
}

/// The source with the given name. Names are taken exactly: no other case, no
/// abbreviation.
pub fn parse_capture_source(s: &str) -> (r: Result<CaptureSource, String>)
    ensures
        match r {
            Ok(c) => s@ == c.spec_name(),
            Err(e) => {
                &&& s@ != CaptureSource::Default.spec_name()
                &&& s@ != CaptureSource::Loopback.spec_name()
                &&& s@ != CaptureSource::Auto.spec_name()
                &&& e@ == "possible values: default, loopback, auto (got "@ + s@ + ")"@
            },
        },
        s@ == CaptureSource::Default.spec_name() ==> r == Ok::<CaptureSource, String>(
            CaptureSource::Default,
        ),
        s@ == CaptureSource::Loopback.spec_name() ==> r == Ok::<CaptureSource, String>(
            CaptureSource::Loopback,
        ),
        s@ == CaptureSource::Auto.spec_name() ==> r == Ok::<CaptureSource, String>(
            CaptureSource::Auto,
        ),
{
    proof {
        lemma_source_names_differ();
    }
    if text::same_text(s, "default") {
        Ok(CaptureSource::Default)
    } else if text::same_text(s, "loopback") {
        Ok(CaptureSource::Loopback)
    } else if text::same_text(s, "auto") {
        Ok(CaptureSource::Auto)
    } else {
        let mut out: String = String::new();
        out.append("possible values: default, loopback, auto (got ");
        out.append(s);
        out.append(")");
        assert(out@ =~= "possible values: default, loopback, auto (got "@ + s@ + ")"@);
        Err(out)
    }
}

/// A destination.
#[derive(Debug, Clone, PartialEq, Eq)]
pub enum ResolvedTarget {
    /// A host and a port.
    Explicit { host: String, port: u16 },
    /// Whatever receiver is found on the local network within the given time.
    Mdns { timeout_ms: u64 },
}

/// The contents of a destination.
pub enum TargetView {
    Explicit { host: Seq<char>, port: u16 },
    Mdns { timeout_ms: u64 },
}

impl View for ResolvedTarget {
    type V = TargetView;

    open spec fn view(&self) -> TargetView {
        match *self {
            ResolvedTarget::Explicit { host, port } => TargetView::Explicit { host: host@, port },
            ResolvedTarget::Mdns { timeout_ms } => TargetView::Mdns { timeout_ms },
        }
    }
}

impl ResolvedTarget {
    /// The host, where it is known.
    pub fn host(&self) -> (r: Option<&str>)
        ensures
            match self@ {
                TargetView::Explicit { host, port } => r is Some && r->0@ == host,
                TargetView::Mdns { timeout_ms } => r is None,
            },
    {
        match self {
            ResolvedTarget::Explicit { host, port: _ } => Some(host.as_str()),
            ResolvedTarget::Mdns { timeout_ms: _ } => None,
        }
    }

    /// The port, where it is known.
    pub fn port(&self) -> (r: Option<u16>)
        ensures
            r == (match self@ {
                TargetView::Explicit { host, port } => Some(port),
                TargetView::Mdns { timeout_ms } => None,
            }),
    {
        match self {
            ResolvedTarget::Explicit { host: _, port } => Some(*port),
            ResolvedTarget::Mdns { timeout_ms: _ } => None,
        }
    }

    /// `host:port`, as a socket takes it.
    pub fn to_socket_string(&self) -> (r: String)
        requires
            self is Explicit,
        ensures
            self@ matches TargetView::Explicit { host, port } && r@ == host + ":"@
                + text::decimal(port as nat),
    {
        let mut out: String = String::new();
        match self {
            ResolvedTarget::Explicit { host, port } => {
                out.append(host.as_str());
                out.append(":");
                text::push_decimal(&mut out, *port as u64);
                assert(out@ =~= host@ + ":"@ + text::decimal(*port as nat));
            },
            ResolvedTarget::Mdns { timeout_ms: _ } => {},
        }
        out
    }
}

/// `text` between single quotes.
pub open spec fn quoted(text: Seq<char>) -> Seq<char> {
    "'"@ + text + "'"@
}

/// The port behind a colon, in a destination given as `raw`.
pub open spec fn port_after_colon(digits: Seq<char>, raw: Seq<char>) -> Result<u16, Seq<char>> {
    if digits.len() == 0 {
        Err("empty port in "@ + quoted(raw))
    } else {
        match text::parsed(digits, u16::MAX as nat) {
            Ok(p) => Ok(p as u16),
            Err(e) => Err("invalid port in "@ + quoted(raw) + ": "@ + e.spec_message()),
        }
    }
}

/// Splits a destination into its host and its port, if it has one. A host in
/// square brackets keeps them; without brackets a single colon sets the port
/// off, and more than one belong to the host.
pub open spec fn host_port(raw: Seq<char>) -> Result<(Seq<char>, Option<u16>), Seq<char>> {
    if raw.len() > 0 && raw[0] == '[' {
        match text::first_index(raw.skip(1), ']') {
            None => Err("unterminated '[' in "@ + quoted(raw)),
            Some(end) => {
                let host = raw.subrange(0, end as int + 2);
                let after = raw.skip(end as int + 2);
                if after.len() == 0 {
                    Ok((host, None))
                } else if after[0] == ':' {
                    match port_after_colon(after.skip(1), raw) {
                        Ok(p) => Ok((host, Some(p))),
                        Err(e) => Err(e),
                    }
                } else {
                    Err("unexpected trailing "@ + quoted(after) + " after ']' in "@ + quoted(raw))
                }
            },
        }
    } else if text::occurrences(raw, ':') == 1 {
        let colon = text::first_index(raw, ':')->0 as int;
        match port_after_colon(raw.skip(colon + 1), raw) {
            Ok(p) => Ok((raw.take(colon), Some(p))),
            Err(e) => Err(e),
        }
    } else {
        Ok((raw, None))
    }
}

/// Appends `chars[from..]` between single quotes.
fn push_quoted(out: &mut String, chars: &[char], from: usize)
    requires
        from <= chars@.len(),
    ensures
        final(out)@ == old(out)@ + quoted(chars@.skip(from as int)),
{
    out.append("'");
    text::push_chars(out, chars, from, chars.len());
    out.append("'");
    assert(chars@.subrange(from as int, chars@.len() as int) =~= chars@.skip(from as int));
    assert(out@ =~= old(out)@ + quoted(chars@.skip(from as int)));
}

/// Reads the port in `chars[from..]`.
fn parse_port_after_colon(chars: &[char], from: usize) -> (r: Result<u16, String>)
    requires
        from <= chars@.len(),
    ensures
        match r {
            Ok(p) => port_after_colon(chars@.skip(from as int), chars@) == Ok::<u16, Seq<char>>(p),
            Err(e) => port_after_colon(chars@.skip(from as int), chars@) == Err::<u16, Seq<char>>(
                e@,
            ),
        },
{
    let n: usize = chars.len();
    let mut out: String = String::new();
    assert(chars@.skip(0) =~= chars@);
    if from == n {
        out.append("empty port in ");
        push_quoted(&mut out, chars, 0);
        assert(out@ =~= "empty port in "@ + quoted(chars@));
        return Err(out);
    }
    assert(chars@.subrange(from as int, n as int) =~= chars@.skip(from as int));
    match text::parse_chars(&chars[from..n], u16::MAX as u64) {
        Ok(p) => Ok(p as u16),
        Err(e) => {
            out.append("invalid port in ");
            push_quoted(&mut out, chars, 0);
            out.append(": ");
            out.append(e.message());
            assert(out@ =~= "invalid port in "@ + quoted(chars@) + ": "@ + e.spec_message());
            Err(out)
        },
    }
}

/// Splits a destination into its host and its port.
pub fn parse_host_port(raw: &str) -> (r: Result<(String, Option<u16>), String>)
    ensures
        match r {
            Ok((host, port)) => host_port(raw@) == Ok::<(Seq<char>, Option<u16>), Seq<char>>(
                (host@, port),
            ),
            Err(e) => host_port(raw@) == Err::<(Seq<char>, Option<u16>), Seq<char>>(e@),
        },
{
    let chars: Vec<char> = text::chars_of(raw);
    let n: usize = chars.len();
    let mut out: String = String::new();
    assert(chars@.skip(0) =~= chars@);
    if n > 0 && chars[0] == '[' {
        let end: usize = match text::find_char(chars.as_slice(), 1, ']') {
            Some(i) => i,
            None => {
                out.append("unterminated '[' in ");
                push_quoted(&mut out, chars.as_slice(), 0);
                assert(out@ =~= "unterminated '[' in "@ + quoted(raw@));
                return Err(out);
            },
        };
        let host: String = text::string_of(chars.as_slice(), 0, end + 1);
        let ghost after = raw@.skip(end + 1);
        if end + 1 == n {
            return Ok((host, None));
        }
        assert(after[0] == chars@[end + 1]);
        if chars[end + 1] == ':' {
            assert(after.skip(1) =~= raw@.skip(end + 2));
            return match parse_port_after_colon(chars.as_slice(), end + 2) {
                Ok(p) => Ok((host, Some(p))),
                Err(e) => Err(e),
            };
        }
        out.append("unexpected trailing ");
        push_quoted(&mut out, chars.as_slice(), end + 1);
        out.append(" after ']' in ");
        push_quoted(&mut out, chars.as_slice(), 0);
        assert(out@ =~= "unexpected trailing "@ + quoted(after) + " after ']' in "@ + quoted(raw@));
        return Err(out);
    }
    if text::count_char(chars.as_slice(), ':') != 1 {
        return Ok((raw.to_owned(), None));
    }
    proof {
        text::lemma_first_index(raw@, ':');
    }
    match text::find_char(chars.as_slice(), 0, ':') {
        Some(colon) => {
            let host: String = text::string_of(chars.as_slice(), 0, colon);
            assert(raw@.subrange(0, colon as int) =~= raw@.take(colon as int));
            match parse_port_after_colon(chars.as_slice(), colon + 1) {
                Ok(p) => Ok((host, Some(p))),
                Err(e) => Err(e),
            }
        },
        None => Ok((raw.to_owned(), None)),
    }
}

/// The text of an optional string.
pub open spec fn text_of(s: Option<String>) -> Option<Seq<char>> {
    match s {
        Some(t) => Some(t@),
        None => None,
    }
}

/// The destination `raw` with its port: its own, or else `port`. A port of
/// its own beside a `port` other than the default is ambiguous.
pub open spec fn explicit_target(raw: Seq<char>, port: u16) -> Result<TargetView, Seq<char>> {
    match host_port(raw) {
        Err(e) => Err(e),
        Ok((host, None)) => Ok(TargetView::Explicit { host, port }),
        Ok((host, Some(p))) => if port == DEFAULT_PORT {
            Ok(TargetView::Explicit { host, port: p })
        } else {
            Err(
                "ambiguous port: --port "@ + text::decimal(port as nat)
                    + " conflicts with embedded port "@ + text::decimal(p as nat) + " in "@
                    + quoted(raw) + "; pass only one"@,
            )
        },
    }
}

impl SendArgs {
    /// The destination that the settings name, or what is wrong with them.
    pub open spec fn spec_validate(self) -> Result<TargetView, Seq<char>> {
        if self.channels == 0 || self.channels > CHANNELS_MAX {
            Err("channels must be in 1..=8 (got "@ + text::decimal(self.channels as nat) + ")"@)
        } else if self.chunk_ms < CHUNK_MIN_MS || self.chunk_ms > CHUNK_MAX_MS {
            Err("chunk-ms must be in 1..=200 (got "@ + text::decimal(self.chunk_ms as nat) + ")"@)
        } else if self.exact_capture_source && self.capture_source == CaptureSource::Auto {
            Err(
                "--exact-capture-source: --capture-source=auto is rejected. Pass --capture-source=default (or =loopback on Windows) explicitly, or unset --exact-capture-source to keep the auto-probe behaviour."@,
            )
        } else {
            match (text_of(self.host), text_of(self.host_flag)) {
                (None, None) => if self.mdns {
                    Ok(TargetView::Mdns { timeout_ms: self.mdns_timeout_ms })
                } else {
                    Err(
                        "destination host required (pass positional HOST, --host or --mdns)"@,
                    )
                },
                (Some(h), None) => if self.mdns {
                    Err("specify destination as either a host or --mdns, not both"@)
                } else {
                    explicit_target(h, self.port)
                },
                (None, Some(h)) => if self.mdns {
                    Err("specify destination as either a host or --mdns, not both"@)
                } else {
                    explicit_target(h, self.port)
                },
                (Some(_), Some(_)) => Err(
                    "specify destination as either HOST positional or --host, not both"@,
                ),
            }
        }
    }

    /// Checks the settings and returns the destination.
    pub fn validate(&self) -> (r: Result<ResolvedTarget, String>)
        ensures
            match r {
                Ok(t) => self.spec_validate() == Ok::<TargetView, Seq<char>>(t@),
                Err(e) => self.spec_validate() == Err::<TargetView, Seq<char>>(e@),
            },
    {
        let mut out: String = String::new();
        if self.channels == 0 || self.channels > CHANNELS_MAX {
            out.append("channels must be in 1..=8 (got ");
            text::push_decimal(&mut out, self.channels as u64);
            out.append(")");
            assert(out@ =~= "channels must be in 1..=8 (got "@ + text::decimal(
                self.channels as nat,
            ) + ")"@);
            return Err(out);
        }
        if self.chunk_ms < CHUNK_MIN_MS || self.chunk_ms > CHUNK_MAX_MS {
            out.append("chunk-ms must be in 1..=200 (got ");
            text::push_decimal(&mut out, self.chunk_ms as u64);
            out.append(")");
            assert(out@ =~= "chunk-ms must be in 1..=200 (got "@ + text::decimal(
                self.chunk_ms as nat,
            ) + ")"@);
            return Err(out);
        }
        if self.exact_capture_source && self.capture_source == CaptureSource::Auto {
            return Err(
                "--exact-capture-source: --capture-source=auto is rejected. Pass --capture-source=default (or =loopback on Windows) explicitly, or unset --exact-capture-source to keep the auto-probe behaviour.".to_owned(),
            );
        }
        let raw: &String = match (&self.host, &self.host_flag) {
            (Some(_), Some(_)) => {
                return Err(
                    "specify destination as either HOST positional or --host, not both".to_owned(),
                );
            },
            (None, None) => {
                if self.mdns {
                    return Ok(ResolvedTarget::Mdns { timeout_ms: self.mdns_timeout_ms });
                }
                return Err(
                    "destination host required (pass positional HOST, --host or --mdns)".to_owned(),
                );
            },
            (Some(h), None) => h,
            (None, Some(h)) => h,
        };
        if self.mdns {
            return Err("specify destination as either a host or --mdns, not both".to_owned());
        }
        match parse_host_port(raw.as_str()) {
            Err(e) => Err(e),
            Ok((host, None)) => Ok(ResolvedTarget::Explicit { host, port: self.port }),
            Ok((host, Some(p))) => {
                if self.port == DEFAULT_PORT {
                    return Ok(ResolvedTarget::Explicit { host, port: p });
                }
                out.append("ambiguous port: --port ");
                text::push_decimal(&mut out, self.port as u64);
                out.append(" conflicts with embedded port ");
                text::push_decimal(&mut out, p as u64);
                out.append(" in '");
                out.append(raw.as_str());
                out.append("'; pass only one");
                proof {
                    reveal_strlit(" in '");
                    reveal_strlit(" in ");
                    reveal_strlit("'");
                    reveal_strlit("'; pass only one");
                    reveal_strlit("; pass only one");
                    assert(" in '"@ =~= " in "@ + "'"@);
                    assert("'; pass only one"@ =~= "'"@ + "; pass only one"@);
                }
                assert(out@ =~= "ambiguous port: --port "@ + text::decimal(self.port as nat)
                    + " conflicts with embedded port "@ + text::decimal(p as nat) + " in "@
                    + quoted(raw@) + "; pass only one"@);
                Err(out)
            },
        }
    }
}

impl RecvArgs {
    /// Checks that the prebuffer fits into the ring.
    pub fn validate(&self) -> (r: Result<(), String>)
        ensures
            match r {
                Ok(_) => self.rx_buffer_ms >= self.prebuffer_ms,
                Err(e) => {
                    &&& self.rx_buffer_ms < self.prebuffer_ms
                    &&& e@ == "--rx-buffer-ms ("@ + text::decimal(self.rx_buffer_ms as nat)
                        + ") must be >= --prebuffer-ms ("@ + text::decimal(self.prebuffer_ms as nat)
                        + "); \\\n                 the prebuffer gate target must fit inside the ring it is \\\n                 gating — raise --rx-buffer-ms or lower --prebuffer-ms"@
                },
            },
    {
        if self.rx_buffer_ms >= self.prebuffer_ms {
            return Ok(());
        }
        let mut out: String = String::new();
        out.append("--rx-buffer-ms (");
        text::push_decimal(&mut out, self.rx_buffer_ms as u64);
        out.append(") must be >= --prebuffer-ms (");
        text::push_decimal(&mut out, self.prebuffer_ms as u64);
        out.append(
            "); \\\n                 the prebuffer gate target must fit inside the ring it is \\\n                 gating — raise --rx-buffer-ms or lower --prebuffer-ms",
        );
        assert(out@ =~= "--rx-buffer-ms ("@ + text::decimal(self.rx_buffer_ms as nat)
            + ") must be >= --prebuffer-ms ("@ + text::decimal(self.prebuffer_ms as nat)
            + "); \\\n                 the prebuffer gate target must fit inside the ring it is \\\n                 gating — raise --rx-buffer-ms or lower --prebuffer-ms"@);
        Err(out)
    }
}

/// A host that a destination can name together with a port: one without colons
/// and opening bracket, or one in square brackets.
pub open spec fn takes_a_port(host: Seq<char>) -> bool {
    if host.len() > 0 && host[0] == '[' {
        host.len() >= 2 && host.last() == ']' && text::occurrences(
            host.subrange(1, host.len() - 1),
            ']',
        ) == 0
    } else {
        text::occurrences(host, ':') == 0
    }
}

/// A destination made of a host and a port, as a socket takes it, reads back as
/// that host and port. A host with colons must stand in square brackets.
pub proof fn law_socket_string_reads_back(host: Seq<char>, port: u16)
    requires
        takes_a_port(host),
    ensures
        host_port(host + ":"@ + text::decimal(port as nat)) == Ok::<
            (Seq<char>, Option<u16>),
            Seq<char>,
        >((host, Some(port))),
{
    reveal_strlit(":");
    let digits = text::decimal(port as nat);
    let raw = host + ":"@ + digits;
    text::law_parse_decimal(port as nat, u16::MAX as nat);
    text::lemma_decimal_is_digits(port as nat);
    if host.len() > 0 && host[0] == '[' {
        let inner = host.subrange(1, host.len() - 1);
        let tail = ":"@ + digits;
        assert(raw.skip(1) =~= inner + seq![']'] + tail);
        lemma_first_bracket(inner, tail);
        let end = inner.len() as int;
        assert(raw.subrange(0, end + 2) =~= host);
        assert(raw.skip(end + 2) =~= tail);
        assert(tail.skip(1) =~= digits);
    } else {
        lemma_split_at_colon(host, digits, port as nat);
        assert(raw.skip(host.len() as int + 1) =~= digits);
        assert(raw.take(host.len() as int) =~= host);
    }
}

/// The first closing bracket behind text without one.
proof fn lemma_first_bracket(inner: Seq<char>, tail: Seq<char>)
    requires
        text::occurrences(inner, ']') == 0,
    ensures
        text::first_index(inner + seq![']'] + tail, ']') == Some(inner.len()),
    decreases inner.len(),
{
    let s = inner + seq![']'] + tail;
    if inner.len() > 0 {
        assert(s.drop_first() =~= inner.drop_first() + seq![']'] + tail);
        lemma_first_bracket(inner.drop_first(), tail);
    }
}

/// Where a host without colons is followed by a colon and a number, that
/// colon is the only one.
proof fn lemma_split_at_colon(host: Seq<char>, digits: Seq<char>, n: nat)
    requires
        text::occurrences(host, ':') == 0,
        digits == text::decimal(n),
    ensures
        text::first_index(host + ":"@ + digits, ':') == Some(host.len()),
        text::occurrences(host + ":"@ + digits, ':') == 1,
    decreases host.len(),
{
    reveal_strlit(":");
    let raw = host + ":"@ + digits;
    if host.len() == 0 {
        assert(raw.drop_first() =~= digits);
        text::lemma_decimal_is_digits(n);
        text::lemma_no_occurrence(digits, ':');
    } else {
        assert(raw.drop_first() =~= host.drop_first() + ":"@ + digits);
        lemma_split_at_colon(host.drop_first(), digits, n);
    }
}

/// A setting is taken from its first value to its last, both included: of a number
/// in decimal, that very number where it is in range, and else a message that names
/// the setting, the range and the number.
pub proof fn law_settings_keep_to_their_range(
    name: Seq<char>,
    n: nat,
    min: nat,
    max: nat,
    word_max: nat,
)
    requires
        n <= word_max,
    ensures
        min <= n <= max ==> in_range(text::decimal(n), name, min, max, word_max) == Ok::<
            nat,
            Seq<char>,
        >(n),
        n < min || n > max ==> in_range(text::decimal(n), name, min, max, word_max) == Err::<
            nat,
            Seq<char>,
        >(
            name + " must be in "@ + text::decimal(min) + "..="@ + text::decimal(max) + " (got "@
                + text::decimal(n) + ")"@,
        ),
{
    text::law_parse_decimal(n, word_max);
}

/// The ranges in numbers: packets of 1 to 200 ms, a prebuffer of 20 to 10000 ms, a
/// ring of 100 to 30000 ms, and a link MTU of 576 to 9000 bytes.
pub proof fn law_ranges_of_the_settings(n: nat)
    requires
        n <= usize::MAX,
    ensures
        ({
            let s = text::decimal(n);
            let top = usize::MAX as nat;
            &&& in_range(s, "chunk-ms"@, CHUNK_MIN_MS as nat, CHUNK_MAX_MS as nat, top) is Ok <==> 1
                <= n <= 200
            &&& in_range(
                s,
                "prebuffer-ms"@,
                PREBUFFER_MIN_MS as nat,
                PREBUFFER_MAX_MS as nat,
                top,
            ) is Ok <==> 20 <= n <= 10_000
            &&& in_range(
                s,
                "rx-buffer-ms"@,
                RX_BUFFER_MIN_MS as nat,
                RX_BUFFER_MAX_MS as nat,
                top,
            ) is Ok <==> 100 <= n <= 30_000
            &&& in_range(s, "mtu"@, MTU_MIN_BYTES as nat, MTU_MAX_BYTES as nat, top) is Ok <==> 576
                <= n <= 9000
        }),
{
    text::law_parse_decimal(n, usize::MAX as nat);
}

/// A port is a number up to 65535, and a larger one is named in the message.
pub proof fn law_ports_have_sixteen_bits(n: nat)
    requires
        n <= 0xffff_ffff,
    ensures
        n <= 65535 ==> port_of(text::decimal(n)) == Ok::<u16, Seq<char>>(n as u16),
        n > 65535 ==> port_of(text::decimal(n)) == Err::<u16, Seq<char>>(
            "port must be in 1..="@ + text::decimal(65535) + " (got "@ + text::decimal(n) + ")"@,
        ),
{
    text::law_parse_decimal(n, 0xffff_ffff);
}

/// Where a destination has no port. Without brackets that is so unless there is
/// exactly one colon; with brackets, where nothing stands behind them. The host is
/// then all of the text.
pub proof fn law_hosts_without_a_port(raw: Seq<char>)
    ensures
        (raw.len() == 0 || raw[0] != '[') && raw.filter(|x: char| x == ':').len() != 1
            ==> host_port(raw) == Ok::<(Seq<char>, Option<u16>), Seq<char>>((raw, None)),
        raw.len() > 1 && raw[0] == '[' && raw.last() == ']' && !raw.subrange(
            1,
            raw.len() - 1,
        ).contains(']') ==> host_port(raw) == Ok::<(Seq<char>, Option<u16>), Seq<char>>(
            (raw, None),
        ),
{
    text::law_first_index_is_the_first(raw, ':');
    if raw.len() > 1 && raw[0] == '[' && raw.last() == ']' && !raw.subrange(
        1,
        raw.len() - 1,
    ).contains(']') {
        let inner = raw.subrange(1, raw.len() - 1);
        let rest = raw.skip(1);
        text::law_first_index_is_the_first(rest, ']');
        assert(rest[rest.len() - 1] == ']');
        assert(rest.contains(']'));
        let end = text::first_index(rest, ']')->0 as int;
        if end < rest.len() - 1 {
            assert(inner[end] == rest[end]);
            assert(inner.contains(']'));
        }
        assert(raw.subrange(0, end + 2) =~= raw);
    }
}

/// What is wrong with a destination: an opening bracket without its closing one,
/// something other than a port behind that, or a colon without a proper port behind
/// it. Nothing is read from such a text.
pub proof fn law_bad_destinations_are_refused(raw: Seq<char>, host: Seq<char>, rest: Seq<char>)
    ensures
        raw.len() > 0 && raw[0] == '[' && !raw.skip(1).contains(']') ==> host_port(raw) == Err::<
            (Seq<char>, Option<u16>),
            Seq<char>,
        >("unterminated '[' in '"@ + raw + "'"@),
        takes_a_port(host) && host.len() > 0 && host[0] == '[' && rest.len() > 0 && rest[0] != ':'
            && raw == host + rest ==> host_port(raw) == Err::<
            (Seq<char>, Option<u16>),
            Seq<char>,
        >("unexpected trailing '"@ + rest + "' after ']' in '"@ + raw + "'"@),
        (host.len() == 0 || host[0] != '[') && !host.contains(':') && !rest.contains(':') && raw
            == host + seq![':'] + rest ==> match host_port(raw) {
            Ok((h, p)) => {
                &&& h == host
                &&& p matches Some(n)
                &&& rest.len() > 0
                &&& text::parsed(rest, 65535) == Ok::<nat, text::ParseIntError>(n as nat)
            },
            Err(e) => if rest.len() == 0 {
                e == "empty port in '"@ + raw + "'"@
            } else {
                text::parsed(rest, 65535) is Err && e == "invalid port in '"@ + raw + "'"@ + ": "@
                    + text::parsed(rest, 65535)->Err_0.spec_message()
            },
        },
{
    text::law_first_index_is_the_first(raw.skip(1), ']');
    assert("unterminated '[' in "@ + quoted(raw) =~= "unterminated '[' in '"@ + raw + "'"@) by {
        reveal_strlit("unterminated '[' in ");
        reveal_strlit("unterminated '[' in '");
        reveal_strlit("'");
    }
    assert("empty port in "@ + quoted(raw) =~= "empty port in '"@ + raw + "'"@) by {
        reveal_strlit("empty port in ");
        reveal_strlit("empty port in '");
        reveal_strlit("'");
    }
    assert("invalid port in "@ + quoted(raw) =~= "invalid port in '"@ + raw + "'"@) by {
        reveal_strlit("invalid port in ");
        reveal_strlit("invalid port in '");
        reveal_strlit("'");
    }
    assert("unexpected trailing "@ + quoted(rest) + " after ']' in "@ + quoted(raw)
        =~= "unexpected trailing '"@ + rest + "' after ']' in '"@ + raw + "'"@) by {
        reveal_strlit("unexpected trailing ");
        reveal_strlit("unexpected trailing '");
        reveal_strlit(" after ']' in ");
        reveal_strlit("' after ']' in '");
        reveal_strlit("'");
    }
    if takes_a_port(host) && host.len() > 0 && host[0] == '[' && rest.len() > 0 && rest[0] != ':'
        && raw == host + rest {
        let inner = host.subrange(1, host.len() - 1);
        let tail = raw.skip(1);
        text::lemma_first_index(inner, ']');
        text::law_first_index_is_the_first(inner, ']');
        text::law_first_index_is_the_first(tail, ']');
        assert(tail[host.len() - 2] == ']');
        assert(tail.contains(']'));
        let end = text::first_index(tail, ']')->0 as int;
        if end < host.len() - 2 {
            assert(inner[end] == tail[end]);
            assert(inner.contains(']'));
        }
        assert(end == host.len() - 2);
        assert(raw.skip(end + 2) =~= rest);
    }
    if (host.len() == 0 || host[0] != '[') && !host.contains(':') && !rest.contains(':') && raw
        == host + seq![':'] + rest {
        let colon = |x: char| x == ':';
        text::law_first_index_is_the_first(raw, ':');
        text::law_first_index_is_the_first(host, ':');
        text::law_first_index_is_the_first(rest, ':');
        text::lemma_first_index(host, ':');
        text::lemma_first_index(rest, ':');
        assert(seq![':'].filter(colon).len() == 1) by {
            text::law_first_index_is_the_first(seq![':'], ':');
            text::lemma_first_index(seq![':'], ':');
            assert(text::occurrences(seq![':'], ':') == 1) by {
                assert(seq![':'].drop_first() =~= Seq::<char>::empty());
                assert(text::occurrences(Seq::<char>::empty(), ':') == 0);
            }
        }
        Seq::filter_distributes_over_add(host, seq![':'], colon);
        Seq::filter_distributes_over_add(host + seq![':'], rest, colon);
        assert(text::occurrences(raw, ':') == 1);
        assert(raw[host.len() as int] == ':');
        assert(raw.contains(':'));
        let at = text::first_index(raw, ':')->0 as int;
        if at < host.len() {
            assert(host[at] == raw[at]);
            assert(host.contains(':'));
        }
        assert(at == host.len());
        assert(raw.skip(at + 1) =~= rest);
        assert(raw.take(at) =~= host);
        text::law_what_is_a_number(rest, 65535);
        assert(raw[0] == if host.len() > 0 {
            host[0]
        } else {
            ':'
        });
    }
}

/// A port in the destination itself counts where no other is given, that is where
/// the port is 5000; beside another one it is ambiguous. A destination without a
/// port gets the one that is given.
pub proof fn law_one_port_is_enough(raw: Seq<char>, port: u16)
    ensures
        match host_port(raw) {
            Err(e) => explicit_target(raw, port) == Err::<TargetView, Seq<char>>(e),
            Ok((host, None)) => explicit_target(raw, port) == Ok::<TargetView, Seq<char>>(
                TargetView::Explicit { host, port },
            ),
            Ok((host, Some(p))) => {
                &&& port == 5000 ==> explicit_target(raw, port) == Ok::<TargetView, Seq<char>>(
                    TargetView::Explicit { host, port: p },
                )
                &&& port != 5000 ==> explicit_target(raw, port) is Err
            },
        },
{
}

/// Settings of a sender are accepted exactly where the channels are 1 to 8, the
/// packets 1 to 200 ms, an exact source is not the automatic choice, and there is one
/// destination: a host given in one way, which can be read, or the search. The
/// destination is what was given.
pub proof fn law_one_destination(a: SendArgs)
    ensures
        ({
            let sound = 1 <= a.channels <= 8 && 1 <= a.chunk_ms <= 200 && !(a.exact_capture_source
                && a.capture_source == CaptureSource::Auto);
            let r = a.spec_validate();
            &&& !sound ==> r is Err
            &&& a.host is Some && a.host_flag is Some ==> r is Err
            &&& (a.host is Some || a.host_flag is Some) && a.mdns ==> r is Err
            &&& a.host is None && a.host_flag is None && !a.mdns ==> r is Err
            &&& sound && a.host is None && a.host_flag is None && a.mdns ==> r == Ok::<
                TargetView,
                Seq<char>,
            >(TargetView::Mdns { timeout_ms: a.mdns_timeout_ms })
            &&& sound && !a.mdns && a.host_flag is None ==> (a.host matches Some(h) ==> r
                == explicit_target(h@, a.port))
            &&& sound && !a.mdns && a.host is None ==> (a.host_flag matches Some(h) ==> r
                == explicit_target(h@, a.port))
        }),
{
}

/// What is wrong with the settings of a sender is told in a fixed order: channels,
/// packet length, source, destination.
pub proof fn law_first_fault_is_told(a: SendArgs)
    ensures
        !(1 <= a.channels <= 8) ==> a.spec_validate() == Err::<TargetView, Seq<char>>(
            "channels must be in 1..=8 (got "@ + text::decimal(a.channels as nat) + ")"@,
        ),
        1 <= a.channels <= 8 && !(1 <= a.chunk_ms <= 200) ==> a.spec_validate() == Err::<
            TargetView,
            Seq<char>,
        >("chunk-ms must be in 1..=200 (got "@ + text::decimal(a.chunk_ms as nat) + ")"@),
        1 <= a.channels <= 8 && 1 <= a.chunk_ms <= 200 && !(a.exact_capture_source
            && a.capture_source == CaptureSource::Auto) ==> {
            &&& a.host is Some && a.host_flag is Some ==> a.spec_validate() == Err::<
                TargetView,
                Seq<char>,
            >("specify destination as either HOST positional or --host, not both"@)
            &&& a.mdns && (a.host is Some != a.host_flag is Some) ==> a.spec_validate() == Err::<
                TargetView,
                Seq<char>,
            >("specify destination as either a host or --mdns, not both"@)
            &&& !a.mdns && a.host is None && a.host_flag is None ==> a.spec_validate() == Err::<
                TargetView,
                Seq<char>,
            >("destination host required (pass positional HOST, --host or --mdns)"@)
        },
{
}

/// The three sources go by three different names.
pub proof fn law_sources_have_names(a: CaptureSource, b: CaptureSource)
    ensures
        a.spec_name() == b.spec_name() <==> a == b,
        CaptureSource::Default.spec_name() == "default"@,
        CaptureSource::Loopback.spec_name() == "loopback"@,
        CaptureSource::Auto.spec_name() == "auto"@,
{
    reveal_strlit("default");
    reveal_strlit("loopback");
    reveal_strlit("auto");
    assert("default"@[0] == 'd' && "loopback"@[0] == 'l' && "auto"@[0] == 'a');
}

/// Each setting has its own range: a number in decimal is taken, as it is, from 1 to
/// 200 for the length of a packet, from 20 to 10000 for the prebuffer, from 100 to
/// 30000 for the ring, and from 576 to 9000 for the link MTU.
pub proof fn law_each_setting_has_its_range(s: &str, n: nat, r: Result<usize, String>)
    requires
        s@ == text::decimal(n),
        n <= usize::MAX,
    ensures
        call_ensures(parse_chunk_ms, (s,), r) ==> (if 1 <= n <= 200 {
            r is Ok && r->Ok_0 == n
        } else {
            r is Err
        }),
        call_ensures(parse_prebuffer_ms, (s,), r) ==> (if 20 <= n <= 10_000 {
            r is Ok && r->Ok_0 == n
        } else {
            r is Err
        }),
        call_ensures(parse_rx_buffer_ms, (s,), r) ==> (if 100 <= n <= 30_000 {
            r is Ok && r->Ok_0 == n
        } else {
            r is Err
        }),
        call_ensures(parse_mtu, (s,), r) ==> (if 576 <= n <= 9000 {
            r is Ok && r->Ok_0 == n
        } else {
            r is Err
        }),
{
    text::law_parse_decimal(n, usize::MAX as nat);
}

/// A receiver is accepted exactly where its ring holds the prebuffer; a port where it
/// has sixteen bits.
pub proof fn law_ring_holds_the_prebuffer(
    a: RecvArgs,
    r: Result<(), String>,
    s: &str,
    n: nat,
    port: Result<u16, String>,
)
    requires
        s@ == text::decimal(n),
        n <= 0xffff_ffff,
    ensures
        call_ensures(RecvArgs::validate, (&a,), r) ==> (r is Ok <==> a.prebuffer_ms
            <= a.rx_buffer_ms),
        call_ensures(parse_port, (s,), port) ==> (if n <= 65535 {
            port is Ok && port->Ok_0 == n
        } else {
            port is Err
        }),
{
    law_ports_have_sixteen_bits(n);
}

/// A destination as a socket takes it reads back as that host and port.
pub proof fn law_targets_read_back(
    t: ResolvedTarget,
    shown: String,
    raw: &str,
    r: Result<(String, Option<u16>), String>,
)
    requires
        t@ matches TargetView::Explicit { host, port } && takes_a_port(host),
        call_ensures(ResolvedTarget::to_socket_string, (&t,), shown),
        raw@ == shown@,
        call_ensures(parse_host_port, (raw,), r),
    ensures
        t@ matches TargetView::Explicit { host, port } && (r matches Ok((h, p)) && h@ == host && p
            == Some(port)),
{
    if let TargetView::Explicit { host, port } = t@ {
        law_socket_string_reads_back(host, port);
    }
}

} // verus!
