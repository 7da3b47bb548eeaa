//! Decisions about audio devices: which capture source to open, which sample
//! formats can be converted, and what to tell the user.

use crate::text;
use vstd::prelude::*;

verus! {

/// Fragments of device names that suggest a microphone.
pub const MICROPHONE_HEURISTICS: [&'static str; 23] = [
    "Microphone",
    "Headset",
    "Webcam",
    "Mic Array",
    "Array",
    "Realtek Mic",
    "Front Mic",
    "Rear Mic",
    "Internal Mic",
    "USB Mic",
    "USB Microphone",
    "Yeti",
    "PodMic",
    "AT2020",
    "Blue Mic",
    "Snowball",
    "Plantronics",
    "Jabra",
    "Logitech Webcam",
    "Logi ",
    "Intel SST",
    "Synaptics",
    "Conexant",
];

/// Environment variable that makes the automatic choice go straight to
/// loopback capture.
pub const STRICT_LOOPBACK_ENV: &'static str = "TEEHEE_STRICT_LOOPBACK";

/// A text in lower case.
pub uninterp spec fn lowercase(s: Seq<char>) -> Seq<char>;

/// A character below 128.
pub open spec fn is_ascii_char(c: char) -> bool {
    c <= '\u{7f}'
}

/// The lower-case form of an ASCII letter; other characters as they are.
pub open spec fn ascii_lower(c: char) -> char {
    if 'A' <= c <= 'Z' {
        (c as int + 32) as char
    } else {
        c
    }
}

/// All characters are ASCII.
pub open spec fn is_ascii_text(s: Seq<char>) -> bool {
    forall|i: int| 0 <= i < s.len() ==> is_ascii_char(#[trigger] s[i])
}

/// An ASCII text in lower case.
pub open spec fn ascii_lowered(s: Seq<char>) -> Seq<char> {
    s.map_values(|c: char| ascii_lower(c))
}

/// `str::to_lowercase`: the text in lower case. On ASCII text that is each
/// letter in lower case and every other character unchanged.
#[verifier::external_body]
fn to_lowercase(s: &str) -> (r: String)
    ensures
        r@ == lowercase(s@),
        is_ascii_text(s@) ==> r@ == ascii_lowered(s@),
{
    s.to_lowercase()
}

/// `needle` stands in `hay` from position `at` on.
pub open spec fn stands_at(hay: Seq<char>, needle: Seq<char>, at: int) -> bool {
    0 <= at && at + needle.len() <= hay.len() && hay.subrange(at, at + needle.len()) == needle
}

/// `needle` stands somewhere in `hay`.
pub open spec fn contains_text(hay: Seq<char>, needle: Seq<char>) -> bool {
    exists|at: int| stands_at(hay, needle, at)
}

/// Whether `needle` stands somewhere in `hay`.
pub fn has_fragment(hay: &str, needle: &str) -> (r: bool)
    ensures
        r == contains_text(hay@, needle@),
{
    let h: Vec<char> = text::chars_of(hay);
    let n: Vec<char> = text::chars_of(needle);
    if n.len() > h.len() {
        return false;
    }
    let hay_len: usize = h.len();
    let last: usize = hay_len - n.len();
    let mut at: usize = 0;
    loop
        invariant
            h@ == hay@,
            n@ == needle@,
            hay_len == h@.len(),
            at <= last == h@.len() - n@.len(),
            forall|k: int| 0 <= k < at ==> !stands_at(hay@, needle@, k),
        ensures
            at <= last == h@.len() - n@.len(),
            forall|k: int| 0 <= k <= last ==> !stands_at(hay@, needle@, k),
        decreases last - at,
    {
        let mut i: usize = 0;
        while i < n.len() && h[at + i] == n[i]
            invariant
                h@ == hay@,
                n@ == needle@,
                hay_len == h@.len(),
                at <= last == h@.len() - n@.len(),
                i <= n@.len(),
                forall|k: int| 0 <= k < i ==> h@[at + k] == n@[k],
            decreases n@.len() - i,
        {
            i += 1;
        }
        if i == n.len() {
            assert(hay@.subrange(at as int, at + needle@.len()) =~= needle@);
            assert(stands_at(hay@, needle@, at as int));
            return true;
        }
        assert(hay@.subrange(at as int, at + needle@.len())[i as int] != needle@[i as int]);
        if at == last {
            break;
        }
        at += 1;
    }
    false
}

/// One of the fragments stands in a name given in lower case.
pub open spec fn suggests_microphone(lower: Seq<char>) -> bool {
    exists|i: int|
        0 <= i < 23 && contains_text(lower, ascii_lowered(#[trigger] MICROPHONE_HEURISTICS@[i]@))
}

/// The fragments are ASCII.
proof fn lemma_fragments_are_ascii(i: int)
    requires
        0 <= i < 23,
    ensures
        is_ascii_text(MICROPHONE_HEURISTICS@[i]@),
{
    reveal_strlit("Microphone");
    reveal_strlit("Headset");
    reveal_strlit("Webcam");
    reveal_strlit("Mic Array");
    reveal_strlit("Array");
    reveal_strlit("Realtek Mic");
    reveal_strlit("Front Mic");
    reveal_strlit("Rear Mic");
    reveal_strlit("Internal Mic");
    reveal_strlit("USB Mic");
    reveal_strlit("USB Microphone");
    reveal_strlit("Yeti");
    reveal_strlit("PodMic");
    reveal_strlit("AT2020");
    reveal_strlit("Blue Mic");
    reveal_strlit("Snowball");
    reveal_strlit("Plantronics");
    reveal_strlit("Jabra");
    reveal_strlit("Logitech Webcam");
    reveal_strlit("Logi ");
    reveal_strlit("Intel SST");
    reveal_strlit("Synaptics");
    reveal_strlit("Conexant");
}

/// Whether one of the fragments stands in a name given in lower case.
pub fn lower_name_suggests_microphone(lower: &str) -> (r: bool)
    ensures
        r == suggests_microphone(lower@),
{
    let mut i: usize = 0;
    while i < 23
        invariant
            i <= 23,
            forall|k: int|
                0 <= k < i ==> !contains_text(
                    lower@,
                    ascii_lowered(#[trigger] MICROPHONE_HEURISTICS@[k]@),
                ),
        decreases 23 - i,
    {
        proof {
            lemma_fragments_are_ascii(i as int);
        }
        let needle: String = to_lowercase(MICROPHONE_HEURISTICS[i]);
        if has_fragment(lower, needle.as_str()) {
            return true;
        }
        i += 1;
    }
    false
}

/// Whether a device's name suggests a microphone: one of the fragments stands
/// in it, whatever the case of the letters.
pub fn looks_like_microphone(name: &str) -> (r: bool)
    ensures
        r == suggests_microphone(lowercase(name@)),
        is_ascii_text(name@) ==> r == suggests_microphone(ascii_lowered(name@)),
{
    let lower: String = to_lowercase(name);
    lower_name_suggests_microphone(lower.as_str())
}

/// Sample formats that a device may have.
#[derive(Debug, Clone, Copy, PartialEq, Eq, Structural)]
pub enum CapturedSampleFormat {
    I8,
    I16,
    I32,
    I64,
    U8,
    U16,
    U32,
    U64,
    F32,
    F64,
}

impl CapturedSampleFormat {
    /// The name of the format.
    pub open spec fn spec_name(self) -> Seq<char> {
        match self {
            CapturedSampleFormat::I8 => "I8"@,
            CapturedSampleFormat::I16 => "I16"@,
            CapturedSampleFormat::I32 => "I32"@,
            CapturedSampleFormat::I64 => "I64"@,
            CapturedSampleFormat::U8 => "U8"@,
            CapturedSampleFormat::U16 => "U16"@,
            CapturedSampleFormat::U32 => "U32"@,
            CapturedSampleFormat::U64 => "U64"@,
            CapturedSampleFormat::F32 => "F32"@,
            CapturedSampleFormat::F64 => "F64"@,
        }
    }

    /// The name of the format.
    pub fn name(self) -> (r: &'static str)
        ensures
            r@ == self.spec_name(),
    {
        match self {
            CapturedSampleFormat::I8 => "I8",
            CapturedSampleFormat::I16 => "I16",
            CapturedSampleFormat::I32 => "I32",
            CapturedSampleFormat::I64 => "I64",
            CapturedSampleFormat::U8 => "U8",
            CapturedSampleFormat::U16 => "U16",
            CapturedSampleFormat::U32 => "U32",
            CapturedSampleFormat::U64 => "U64",
            CapturedSampleFormat::F32 => "F32",
            CapturedSampleFormat::F64 => "F64",
        }
    }

    /// Samples of this format can be converted to and from 32-bit floats.
    pub open spec fn convertible(self) -> bool {
        self == CapturedSampleFormat::F32 || self == CapturedSampleFormat::I16 || self
            == CapturedSampleFormat::U16
    }
}

/// A stream can be opened in the formats that can be converted; any other is
/// named in the error.
pub fn check_stream_format(format: CapturedSampleFormat) -> (r: Result<(), String>)
    ensures
        r is Ok <==> format.convertible(),
        r matches Err(e) ==> e@ == "unsupported sample format tag: "@ + format.spec_name(),
{
    match format {
        CapturedSampleFormat::F32 | CapturedSampleFormat::I16 | CapturedSampleFormat::U16 => Ok(()),
        _ => {
            let mut e: String = "unsupported sample format tag: ".to_owned();
            e.append(format.name());
            Err(e)
        },
    }
}

/// The format that a capture device was opened with.
#[derive(Debug, Clone, Copy, PartialEq, Eq, Structural)]
pub struct CapturerConfig {
    pub sample_rate: u32,
    pub channels: u16,
    /// The device's own sample format; samples are converted to floats.
    pub sample_format: CapturedSampleFormat,
}

/// The format that a playback device was opened with.
#[derive(Debug, Clone, Copy, PartialEq, Eq, Structural)]
pub struct PlayerConfig {
    pub sample_rate: u32,
    pub channels: u16,
    /// The device's own sample format; samples are converted from floats.
    pub sample_format: CapturedSampleFormat,
}

/// What is shown of a device.
#[derive(Debug, Clone, PartialEq, Eq)]
pub struct DeviceInfo {
    pub name: String,
    pub is_default: bool,
    pub channels: u16,
    pub sample_rate_hz: u32,
}

impl DeviceInfo {
    /// The line that shows a device.
    pub open spec fn line(self) -> Seq<char> {
        "  "@ + (if self.is_default {
            "* "@
        } else {
            "  "@
        }) + self.name@ + ": "@ + text::decimal(self.channels as nat) + " ch @ "@ + text::decimal(
            self.sample_rate_hz as nat,
        ) + " Hz\n"@
    }
}

/// The lines that show the first `n` devices.
pub open spec fn device_lines(devices: Seq<DeviceInfo>, n: nat) -> Seq<char>
    decreases n,
{
    if n == 0 {
        Seq::empty()
    } else {
        device_lines(devices, (n - 1) as nat) + devices[n - 1].line()
    }
}

/// A heading and one line per device, or a note that there is none.
pub open spec fn device_section(heading: Seq<char>, devices: Seq<DeviceInfo>) -> Seq<char> {
    heading + "\n"@ + if devices.len() == 0 {
        "  (none reported by cpal)\n"@
    } else {
        device_lines(devices, devices.len())
    }
}

fn push_device(out: &mut String, d: &DeviceInfo)
    ensures
        final(out)@ == old(out)@ + d.line(),
{
    out.append("  ");
    if d.is_default {
        out.append("* ");
    } else {
        out.append("  ");
    }
    out.append(d.name.as_str());
    out.append(": ");
    text::push_decimal(out, d.channels as u64);
    out.append(" ch @ ");
    text::push_decimal(out, d.sample_rate_hz as u64);
    out.append(" Hz\n");
    assert(out@ =~= old(out)@ + d.line());
}

fn push_device_section(out: &mut String, heading: &str, devices: &[DeviceInfo])
    ensures
        final(out)@ == old(out)@ + device_section(heading@, devices@),
{
    let ghost start = out@;
    out.append(heading);
    out.append("\n");
    if devices.len() == 0 {
        out.append("  (none reported by cpal)\n");
        assert(out@ =~= start + device_section(heading@, devices@));
    } else {
        let n: usize = devices.len();
        let mut i: usize = 0;
        assert(out@ =~= start + heading@ + "\n"@ + device_lines(devices@, 0));
        while i < n
            invariant
                i <= n == devices@.len(),
                out@ == start + heading@ + "\n"@ + device_lines(devices@, i as nat),
            decreases n - i,
        {
            push_device(out, &devices[i]);
            i += 1;
            assert(out@ =~= start + heading@ + "\n"@ + device_lines(devices@, i as nat));
        }
        assert(out@ =~= start + device_section(heading@, devices@));
    }
}

/// The table of capture and playback devices.
pub fn device_table(inputs: &[DeviceInfo], outputs: &[DeviceInfo]) -> (r: String)
    ensures
        r@ == device_section("Input (capture) devices:"@, inputs@) + "\n"@ + device_section(
            "Output (playback) devices:"@,
            outputs@,
        ),
{
    let mut out: String = String::new();
    push_device_section(&mut out, "Input (capture) devices:", inputs);
    out.append("\n");
    push_device_section(&mut out, "Output (playback) devices:", outputs);
    assert(out@ =~= device_section("Input (capture) devices:"@, inputs@) + "\n"@ + device_section(
        "Output (playback) devices:"@,
        outputs@,
    ));
    out
}

/// The error where loopback was asked for and could not be opened.
pub open spec fn strict_loopback_failed_text(e_loop: Seq<char>) -> Seq<char> {
    STRICT_LOOPBACK_ENV@ + " is set but WASAPI loopback open_default failed: "@ + e_loop + "\nFix path: unset "@ + STRICT_LOOPBACK_ENV@ + " to fall through to the auto probe, OR confirm a float-mix-format render endpoint is enabled (Settings → Sound → Output → your speakers, format = 32-bit float), OR run `teehee send --sine --host <ip>` for a 440 Hz dry-run without hardware capture."@
}

/// The error where loopback was asked for and could not be opened.
pub fn strict_loopback_failed(e_loop: &str) -> (r: String)
    ensures
        r@ == strict_loopback_failed_text(e_loop@),
{
    let mut out: String = String::new();
    out.append(STRICT_LOOPBACK_ENV);
    out.append(" is set but WASAPI loopback open_default failed: ");
    out.append(e_loop);
    out.append("\nFix path: unset ");
    out.append(STRICT_LOOPBACK_ENV);
    out.append(" to fall through to the auto probe, OR confirm a float-mix-format render endpoint is enabled (Settings → Sound → Output → your speakers, format = 32-bit float), OR run `teehee send --sine --host <ip>` for a 440 Hz dry-run without hardware capture.");
    assert(out@ =~= strict_loopback_failed_text(e_loop@));
    out
}

/// The error where loopback was asked for on a platform without it.
pub open spec fn strict_loopback_unsupported_text(platform: Seq<char>) -> Seq<char> {
    "--capture-source=auto on "@ + platform + " with "@ + STRICT_LOOPBACK_ENV@ + "=1 set: the WASAPI loopback route is Windows-only, and this env var short-circuits the auto probe directly to loopback. The override is therefore unimplemented on macOS / Linux. Unset "@ + STRICT_LOOPBACK_ENV@ + " and either install a virtual input device (BlackHole / PulseAudio monitor) as the default input or run `teehee send --sine --host <ip>` for a 440 Hz dry-run without hardware capture."@
}

/// The error where loopback was asked for on a platform without it.
pub fn strict_loopback_unsupported(platform: &str) -> (r: String)
    ensures
        r@ == strict_loopback_unsupported_text(platform@),
{
    let mut out: String = String::new();
    out.append("--capture-source=auto on ");
    out.append(platform);
    out.append(" with ");
    out.append(STRICT_LOOPBACK_ENV);
    out.append("=1 set: the WASAPI loopback route is Windows-only, and this env var short-circuits the auto probe directly to loopback. The override is therefore unimplemented on macOS / Linux. Unset ");
    out.append(STRICT_LOOPBACK_ENV);
    out.append(" and either install a virtual input device (BlackHole / PulseAudio monitor) as the default input or run `teehee send --sine --host <ip>` for a 440 Hz dry-run without hardware capture.");
    assert(out@ =~= strict_loopback_unsupported_text(platform@));
    out
}

/// The error where neither the default input nor loopback could be opened.
pub open spec fn both_attempts_failed_text(e_def: Seq<char>, e_loop: Seq<char>) -> Seq<char> {
    "--capture-source=auto: both capture attempts failed on Windows\n  1) cpal default-input error: "@ + e_def + "\n  2) WASAPI loopback fallback error: "@ + e_loop + "\nFix path: confirm a default-input device is enabled (Settings → Sound → Input → your microphone, or Stereo Mix), OR enable a float-mix-format render endpoint for WASAPI loopback, OR run `teehee send --sine --host <ip>` for a 440 Hz dry-run without hardware capture."@
}

/// The error where neither the default input nor loopback could be opened.
pub fn both_attempts_failed(e_def: &str, e_loop: &str) -> (r: String)
    ensures
        r@ == both_attempts_failed_text(e_def@, e_loop@),
{
    let mut out: String = String::new();
    out.append("--capture-source=auto: both capture attempts failed on Windows\n  1) cpal default-input error: ");
    out.append(e_def);
    out.append("\n  2) WASAPI loopback fallback error: ");
    out.append(e_loop);
    out.append("\nFix path: confirm a default-input device is enabled (Settings → Sound → Input → your microphone, or Stereo Mix), OR enable a float-mix-format render endpoint for WASAPI loopback, OR run `teehee send --sine --host <ip>` for a 440 Hz dry-run without hardware capture.");
    assert(out@ =~= both_attempts_failed_text(e_def@, e_loop@));
    out
}

/// The error where the default input could not be opened and there is no loopback.
pub open spec fn default_input_failed_text(platform: Seq<char>, e_def: Seq<char>) -> Seq<char> {
    "--capture-source=auto on "@ + platform + ": default-input capture failed (loopback fallback is Windows-only) — "@ + e_def + "\nFix path on macOS / Linux: install a virtual input device (BlackHole / PulseAudio monitor) and mark it as the system default input, or run `teehee send --sine --host <ip>` for a 440 Hz dry-run without hardware capture."@
}

/// The error where the default input could not be opened and there is no loopback.
pub fn default_input_failed(platform: &str, e_def: &str) -> (r: String)
    ensures
        r@ == default_input_failed_text(platform@, e_def@),
{
    let mut out: String = String::new();
    out.append("--capture-source=auto on ");
    out.append(platform);
    out.append(": default-input capture failed (loopback fallback is Windows-only) — ");
    out.append(e_def);
    out.append("\nFix path on macOS / Linux: install a virtual input device (BlackHole / PulseAudio monitor) and mark it as the system default input, or run `teehee send --sine --host <ip>` for a 440 Hz dry-run without hardware capture.");
    assert(out@ =~= default_input_failed_text(platform@, e_def@));
    out
}

/// The warning that a microphone is about to be broadcast.
pub open spec fn microphone_notice_text(device_name: Seq<char>) -> Seq<char> {
    "--capture-source=auto: default-input device name `"@ + device_name + "` matches the microphone heuristic. If you intended system-audio capture (browser, Spotify, YouTube, system beeps), teehee will broadcast microphone audio on this host. Switch to --capture-source=loopback (Windows-only, captures the render endpoint's mix) or pass --capture-source=default and confirm your virtual input device (BlackHole / PulseAudio monitor) is the system-default input."@
}

/// The warning that a microphone is about to be broadcast.
pub fn microphone_notice(device_name: &str) -> (r: String)
    ensures
        r@ == microphone_notice_text(device_name@),
{
    let mut out: String = String::new();
    out.append("--capture-source=auto: default-input device name `");
    out.append(device_name);
    out.append("` matches the microphone heuristic. If you intended system-audio capture (browser, Spotify, YouTube, system beeps), teehee will broadcast microphone audio on this host. Switch to --capture-source=loopback (Windows-only, captures the render endpoint's mix) or pass --capture-source=default and confirm your virtual input device (BlackHole / PulseAudio monitor) is the system-default input.");
    assert(out@ =~= microphone_notice_text(device_name@));
    out
}

/// A way to capture audio.
#[derive(Debug, Clone, Copy, PartialEq, Eq, Structural)]
pub enum Attempt {
    /// The default input device.
    DefaultInput,
    /// What the default output device plays (Windows only).
    Loopback,
}

/// What the automatic choice does next.
#[derive(Debug, Clone, PartialEq, Eq)]
pub enum ProbeStep {
    /// Try to open this source.
    Try(Attempt),
    /// Give up with this error.
    Fail(String),
}

/// The sources that the automatic choice tries, in their order, as long as none
/// can be opened: the default input, and then loopback where there is one. With
/// `strict` the default input is passed over.
pub open spec fn attempts(strict: bool, windows: bool) -> Seq<Attempt> {
    (if strict {
        Seq::empty()
    } else {
        seq![Attempt::DefaultInput]
    }) + (if windows {
        seq![Attempt::Loopback]
    } else {
        Seq::empty()
    })
}

/// The first source that the automatic choice tries: the default input, or
/// loopback where `strict` asks for it. Loopback is never tried where there
/// is none.
pub fn first_attempt(strict: bool, windows: bool, platform: &str) -> (r: ProbeStep)
    ensures
        match r {
            ProbeStep::Try(a) => attempts(strict, windows).len() > 0 && a == attempts(
                strict,
                windows,
            )[0],
            ProbeStep::Fail(e) => attempts(strict, windows).len() == 0 && e@
                == strict_loopback_unsupported_text(platform@),
        },
{
    if !strict {
        ProbeStep::Try(Attempt::DefaultInput)
    } else if windows {
        ProbeStep::Try(Attempt::Loopback)
    } else {
        ProbeStep::Fail(strict_loopback_unsupported(platform))
    }
}

/// After the default input failed: loopback where there is one.
pub fn after_default_input_failed(windows: bool, platform: &str, e_def: &str) -> (r: ProbeStep)
    ensures
        match r {
            ProbeStep::Try(a) => attempts(false, windows).len() > 1 && a == attempts(
                false,
                windows,
            )[1],
            ProbeStep::Fail(e) => attempts(false, windows).len() == 1 && e@
                == default_input_failed_text(platform@, e_def@),
        },
{
    if windows {
        ProbeStep::Try(Attempt::Loopback)
    } else {
        ProbeStep::Fail(default_input_failed(platform, e_def))
    }
}

/// After loopback failed there is nothing left to try. `e_def` is the error of
/// the default input, where that was tried before.
pub fn after_loopback_failed(e_def: Option<&str>, e_loop: &str) -> (r: String)
    ensures
        match e_def {
            None => r@ == strict_loopback_failed_text(e_loop@),
            Some(d) => r@ == both_attempts_failed_text(d@, e_loop@),
        },
{
    match e_def {
        None => strict_loopback_failed(e_loop),
        Some(d) => both_attempts_failed(d, e_loop),
    }
}

/// The automatic choice never tries loopback where there is none, and there does
/// what the default input alone would do; it never touches the default input
/// where `strict` rules that out; and otherwise the default input comes first.
pub proof fn law_probe_order(strict: bool, windows: bool)
    ensures
        attempts(strict, windows).contains(Attempt::Loopback) <==> windows,
        attempts(strict, windows).contains(Attempt::DefaultInput) <==> !strict,
        !strict ==> attempts(strict, windows)[0] == Attempt::DefaultInput,
        windows ==> attempts(strict, windows).last() == Attempt::Loopback,
        attempts(false, false) == seq![Attempt::DefaultInput],
        attempts(strict, windows).no_duplicates(),
{
    let all = attempts(strict, windows);
    if windows {
        assert(all[all.len() - 1] == Attempt::Loopback);
    }
    if !strict {
        assert(all[0] == Attempt::DefaultInput);
    }
    assert(attempts(false, false) =~= seq![Attempt::DefaultInput]);
}

/// How the log calls the source that the automatic choice opened.
pub fn auto_label(strict: bool, opened: Attempt) -> (r: &'static str)
    ensures
        r@ == (match (opened, strict) {
            (Attempt::DefaultInput, _) => "cpal default input (auto-probed)"@,
            (Attempt::Loopback, true) => "WASAPI loopback (strict)"@,
            (Attempt::Loopback, false) => "WASAPI loopback (auto-fallback)"@,
        }),
{
    match opened {
        Attempt::DefaultInput => "cpal default input (auto-probed)",
        Attempt::Loopback => if strict {
            "WASAPI loopback (strict)"
        } else {
            "WASAPI loopback (auto-fallback)"
        },
    }
}

/// The warning due when the automatic choice opened the input device of this
/// name: one if the name suggests a microphone.
pub fn microphone_warning(device_name: &str) -> (r: Option<String>)
    ensures
        r is Some <==> suggests_microphone(lowercase(device_name@)),
        r matches Some(w) ==> w@ == microphone_notice_text(device_name@),
{
    if looks_like_microphone(device_name) {
        Some(microphone_notice(device_name))
    } else {
        None
    }
}

/// A name suggests a microphone wherever a fragment stands in it, whatever stands
/// around that and whatever the case of its letters; and where none does, it does
/// not.
pub proof fn law_fragments_suggest_a_microphone(
    before: Seq<char>,
    shown: Seq<char>,
    after: Seq<char>,
    i: int,
)
    requires
        0 <= i < 23,
        ascii_lowered(shown) == ascii_lowered(MICROPHONE_HEURISTICS@[i]@),
    ensures
        suggests_microphone(ascii_lowered(before + shown + after)),
{
    let name = before + shown + after;
    let low = ascii_lowered(name);
    let f = ascii_lowered(shown);
    let at = before.len() as int;
    assert(low.subrange(at, at + f.len()) =~= f);
    assert(stands_at(low, f, at));
    assert(contains_text(low, ascii_lowered(MICROPHONE_HEURISTICS@[i]@)));
}

/// A stream can be opened in floats of 32 bits and integers of 16, and in nothing
/// else.
pub proof fn law_formats_that_convert(f: CapturedSampleFormat)
    ensures
        f.convertible() <==> match f {
            CapturedSampleFormat::F32 | CapturedSampleFormat::I16 | CapturedSampleFormat::U16 => true,
            _ => false,
        },
{
}

/// A table lists the devices in their order, one line each; the default one carries
/// a star.
pub proof fn law_devices_are_listed_in_order(
    heading: Seq<char>,
    devices: Seq<DeviceInfo>,
    d: DeviceInfo,
)
    ensures
        device_section(heading, Seq::empty()) == heading + "\n"@ + "  (none reported by cpal)\n"@,
        device_section(heading, seq![d]) == heading + "\n"@ + d.line(),
        devices.len() > 0 ==> device_section(heading, devices.push(d)) == device_section(
            heading,
            devices,
        ) + d.line(),
        d.line() == (if d.is_default {
            "  * "@
        } else {
            "    "@
        }) + d.name@ + ": "@ + text::decimal(d.channels as nat) + " ch @ "@ + text::decimal(
            d.sample_rate_hz as nat,
        ) + " Hz\n"@,
{
    reveal_strlit("  ");
    reveal_strlit("* ");
    reveal_strlit("  * ");
    reveal_strlit("    ");
    lemma_lines_of_a_longer_list(devices, d, devices.len());
    assert(device_lines(seq![d], 1) =~= d.line()) by {
        assert(device_lines(seq![d], 0) =~= Seq::<char>::empty());
    }
    assert("  "@ + "* "@ =~= "  * "@);
    assert("  "@ + "  "@ =~= "    "@);
    let more = devices.push(d);
    if devices.len() > 0 {
        assert(device_lines(more, more.len()) == device_lines(more, devices.len()) + d.line());
        assert(device_section(heading, more) =~= device_section(heading, devices) + d.line());
    }
}

proof fn lemma_lines_of_a_longer_list(devices: Seq<DeviceInfo>, d: DeviceInfo, n: nat)
    requires
        n <= devices.len(),
    ensures
        device_lines(devices.push(d), n) == device_lines(devices, n),
    decreases n,
{
    if n > 0 {
        lemma_lines_of_a_longer_list(devices, d, (n - 1) as nat);
    }
}

/// A stream is opened in the formats that can be converted and refused in any other;
/// the refusal names the format.
pub proof fn law_streams_in_convertible_formats(f: CapturedSampleFormat, r: Result<(), String>)
    requires
        call_ensures(check_stream_format, (f,), r),
    ensures
        r is Ok <==> f == CapturedSampleFormat::F32 || f == CapturedSampleFormat::I16 || f
            == CapturedSampleFormat::U16,
        r matches Err(e) ==> e@ == "unsupported sample format tag: "@ + f.spec_name(),
{
}

/// A name in lower case suggests a microphone only where one of the fragments stands
/// in it.
pub proof fn law_no_fragment_no_microphone(lower: Seq<char>)
    ensures
        suggests_microphone(lower) ==> exists|i: int, at: int|
            0 <= i < 23 && 0 <= at && at + MICROPHONE_HEURISTICS@[i]@.len() <= lower.len()
                && #[trigger] lower.subrange(at, at + MICROPHONE_HEURISTICS@[i]@.len())
                == ascii_lowered(MICROPHONE_HEURISTICS@[i]@),
{
    if suggests_microphone(lower) {
        let i = choose|i: int|
            0 <= i < 23 && contains_text(
                lower,
                ascii_lowered(#[trigger] MICROPHONE_HEURISTICS@[i]@),
            );
        let f = ascii_lowered(MICROPHONE_HEURISTICS@[i]@);
        let at = choose|at: int| stands_at(lower, f, at);
        assert(f.len() == MICROPHONE_HEURISTICS@[i]@.len());
        assert(lower.subrange(at, at + MICROPHONE_HEURISTICS@[i]@.len()) == f);
    }
}

proof fn lemma_fragment_at(before: Seq<char>, word: Seq<char>, after: Seq<char>, i: int)
    requires
        0 <= i < 23,
        word == ascii_lowered(MICROPHONE_HEURISTICS@[i]@),
    ensures
        suggests_microphone(before + word + after),
{
    let name = before + word + after;
    let at = before.len() as int;
    assert(name.subrange(at, at + word.len()) =~= word);
    assert(stands_at(name, word, at));
    assert(contains_text(name, ascii_lowered(MICROPHONE_HEURISTICS@[i]@)));
}

/// The words and brands that suggest a microphone, wherever they stand in a name
/// given in lower case.
pub proof fn law_words_for_microphones(before: Seq<char>, after: Seq<char>)
    ensures
        suggests_microphone(before + "microphone"@ + after),
        suggests_microphone(before + "headset"@ + after),
        suggests_microphone(before + "webcam"@ + after),
        suggests_microphone(before + "mic array"@ + after),
        suggests_microphone(before + "array"@ + after),
        suggests_microphone(before + "realtek mic"@ + after),
        suggests_microphone(before + "front mic"@ + after),
        suggests_microphone(before + "rear mic"@ + after),
        suggests_microphone(before + "internal mic"@ + after),
        suggests_microphone(before + "usb mic"@ + after),
        suggests_microphone(before + "usb microphone"@ + after),
        suggests_microphone(before + "yeti"@ + after),
        suggests_microphone(before + "podmic"@ + after),
        suggests_microphone(before + "at2020"@ + after),
        suggests_microphone(before + "blue mic"@ + after),
        suggests_microphone(before + "snowball"@ + after),
        suggests_microphone(before + "plantronics"@ + after),
        suggests_microphone(before + "jabra"@ + after),
        suggests_microphone(before + "logitech webcam"@ + after),
        suggests_microphone(before + "logi "@ + after),
        suggests_microphone(before + "intel sst"@ + after),
        suggests_microphone(before + "synaptics"@ + after),
        suggests_microphone(before + "conexant"@ + after),
{
    reveal_strlit("Microphone");
    reveal_strlit("microphone");
    assert(ascii_lowered("Microphone"@) =~= "microphone"@);
    reveal_strlit("Headset");
    reveal_strlit("headset");
    assert(ascii_lowered("Headset"@) =~= "headset"@);
    reveal_strlit("Webcam");
    reveal_strlit("webcam");
    assert(ascii_lowered("Webcam"@) =~= "webcam"@);
    reveal_strlit("Mic Array");
    reveal_strlit("mic array");
    assert(ascii_lowered("Mic Array"@) =~= "mic array"@);
    reveal_strlit("Array");
    reveal_strlit("array");
    assert(ascii_lowered("Array"@) =~= "array"@);
    reveal_strlit("Realtek Mic");
    reveal_strlit("realtek mic");
    assert(ascii_lowered("Realtek Mic"@) =~= "realtek mic"@);
    reveal_strlit("Front Mic");
    reveal_strlit("front mic");
    assert(ascii_lowered("Front Mic"@) =~= "front mic"@);
    reveal_strlit("Rear Mic");
    reveal_strlit("rear mic");
    assert(ascii_lowered("Rear Mic"@) =~= "rear mic"@);
    reveal_strlit("Internal Mic");
    reveal_strlit("internal mic");
    assert(ascii_lowered("Internal Mic"@) =~= "internal mic"@);
    reveal_strlit("USB Mic");
    reveal_strlit("usb mic");
    assert(ascii_lowered("USB Mic"@) =~= "usb mic"@);
    reveal_strlit("USB Microphone");
    reveal_strlit("usb microphone");
    assert(ascii_lowered("USB Microphone"@) =~= "usb microphone"@);
    reveal_strlit("Yeti");
    reveal_strlit("yeti");
    assert(ascii_lowered("Yeti"@) =~= "yeti"@);
    reveal_strlit("PodMic");
    reveal_strlit("podmic");
    assert(ascii_lowered("PodMic"@) =~= "podmic"@);
    reveal_strlit("AT2020");
    reveal_strlit("at2020");
    assert(ascii_lowered("AT2020"@) =~= "at2020"@);
    reveal_strlit("Blue Mic");
    reveal_strlit("blue mic");
    assert(ascii_lowered("Blue Mic"@) =~= "blue mic"@);
    reveal_strlit("Snowball");
    reveal_strlit("snowball");
    assert(ascii_lowered("Snowball"@) =~= "snowball"@);
    reveal_strlit("Plantronics");
    reveal_strlit("plantronics");
    assert(ascii_lowered("Plantronics"@) =~= "plantronics"@);
    reveal_strlit("Jabra");
    reveal_strlit("jabra");
    assert(ascii_lowered("Jabra"@) =~= "jabra"@);
    reveal_strlit("Logitech Webcam");
    reveal_strlit("logitech webcam");
    assert(ascii_lowered("Logitech Webcam"@) =~= "logitech webcam"@);
    reveal_strlit("Logi ");
    reveal_strlit("logi ");
    assert(ascii_lowered("Logi "@) =~= "logi "@);
    reveal_strlit("Intel SST");
    reveal_strlit("intel sst");
    assert(ascii_lowered("Intel SST"@) =~= "intel sst"@);
    reveal_strlit("Synaptics");
    reveal_strlit("synaptics");
    assert(ascii_lowered("Synaptics"@) =~= "synaptics"@);
    reveal_strlit("Conexant");
    reveal_strlit("conexant");
    assert(ascii_lowered("Conexant"@) =~= "conexant"@);
    lemma_fragment_at(before, "microphone"@, after, 0);
    lemma_fragment_at(before, "headset"@, after, 1);
    lemma_fragment_at(before, "webcam"@, after, 2);
    lemma_fragment_at(before, "mic array"@, after, 3);
    lemma_fragment_at(before, "array"@, after, 4);
    lemma_fragment_at(before, "realtek mic"@, after, 5);
    lemma_fragment_at(before, "front mic"@, after, 6);
    lemma_fragment_at(before, "rear mic"@, after, 7);
    lemma_fragment_at(before, "internal mic"@, after, 8);
    lemma_fragment_at(before, "usb mic"@, after, 9);
    lemma_fragment_at(before, "usb microphone"@, after, 10);
    lemma_fragment_at(before, "yeti"@, after, 11);
    lemma_fragment_at(before, "podmic"@, after, 12);
    lemma_fragment_at(before, "at2020"@, after, 13);
    lemma_fragment_at(before, "blue mic"@, after, 14);
    lemma_fragment_at(before, "snowball"@, after, 15);
    lemma_fragment_at(before, "plantronics"@, after, 16);
    lemma_fragment_at(before, "jabra"@, after, 17);
    lemma_fragment_at(before, "logitech webcam"@, after, 18);
    lemma_fragment_at(before, "logi "@, after, 19);
    lemma_fragment_at(before, "intel sst"@, after, 20);
    lemma_fragment_at(before, "synaptics"@, after, 21);
    lemma_fragment_at(before, "conexant"@, after, 22);
}

} // verus!
