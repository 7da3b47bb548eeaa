//! Runtime control of a sender: pause, resume and volume.
//!
//! Commands are lines of text. A line is first read into a request; the
//! request is then carried out on the control state and answered with a line
//! of text. Gains are 32-bit floats, kept by their bit patterns; their decimal
//! forms are handed in with the request.

use crate::text;
use vstd::prelude::*;

verus! {

/// The bit pattern of the gain 1.
pub const UNITY_GAIN: u32 = 0x3f80_0000;

/// The answer to `help`.
pub const HELP_TEXT: &'static str = "commands: pause, resume, volume <0-100>, gain <0.0-10.0>, status, help\nvolume accepts a percentage (0=silent, 100=unity)\ngain accepts a raw multiplier (0.0=mute, 1.0=unity, 10.0=max)\n\nPowerShell example:\n> $c = New-Object System.Net.Sockets.TcpClient('127.0.0.1', 9090)\n> $s = $c.GetStream()\n> $w = New-Object System.IO.StreamWriter($s)\n> $w.WriteLine('volume 50'); $w.Flush()\n> $r = New-Object System.IO.StreamReader($s); $r.ReadLine()\n> $c.Close()";

/// Who set the gain last.
#[derive(Debug, Clone, Copy, PartialEq, Eq, Structural)]
pub enum GainSource {
    /// A command.
    Manual,
    /// The system volume.
    System,
}

impl GainSource {
    /// How the source is shown.
    pub open spec fn spec_label(self) -> Seq<char> {
        match self {
            GainSource::Manual => "manual"@,
            GainSource::System => "system"@,
        }
    }

    /// How the source is shown.
    pub fn label(self) -> (r: &'static str)
        ensures
            r@ == self.spec_label(),
    {
        match self {
            GainSource::Manual => "manual",
            GainSource::System => "system",
        }
    }
}

/// The bit pattern of a finite float.
pub open spec fn is_finite_bits(bits: u32) -> bool {
    bits / 0x80_0000 % 0x100 != 0xff
}

/// The bit pattern of a float from 0 to 10. Zero may carry a sign.
pub open spec fn is_gain_bits(bits: u32) -> bool {
    bits <= 0x4120_0000 || bits == 0x8000_0000
}

/// Whether a bit pattern is that of a finite float.
fn is_finite(bits: u32) -> (r: bool)
    ensures
        r == is_finite_bits(bits),
{
    bits / 0x80_0000 % 0x100 != 0xff
}

/// What commands change and the sender obeys.
#[derive(Debug, Clone, Copy, PartialEq, Eq, Structural)]
pub struct ControlState {
    pub paused: bool,
    /// The bit pattern of the gain.
    pub gain: u32,
    pub gain_source: GainSource,
}

impl Default for ControlState {
    fn default() -> (r: ControlState)
        ensures
            r == ControlState::initial(),
    {
        ControlState::new()
    }
}

impl ControlState {
    /// Running at unity gain.
    pub open spec fn initial() -> ControlState {
        ControlState { paused: false, gain: UNITY_GAIN, gain_source: GainSource::Manual }
    }

    /// Running at unity gain.
    pub fn new() -> (r: ControlState)
        ensures
            r == ControlState::initial(),
    {
        ControlState { paused: false, gain: UNITY_GAIN, gain_source: GainSource::Manual }
    }

    /// Whether sending is paused.
    pub fn is_paused(&self) -> (r: bool)
        ensures
            r == self.paused,
    {
        self.paused
    }

    /// The bit pattern of the gain.
    pub fn gain(&self) -> (r: u32)
        ensures
            r == self.gain,
    {
        self.gain
    }

    /// Who set the gain last.
    pub fn gain_source(&self) -> (r: GainSource)
        ensures
            r == self.gain_source,
    {
        self.gain_source
    }

    /// The gain set by `source`. What is not finite is not taken over.
    pub open spec fn with_gain(self, bits: u32, source: GainSource) -> ControlState {
        if is_finite_bits(bits) {
            ControlState { gain: bits, gain_source: source, ..self }
        } else {
            self
        }
    }

    /// Sets the gain. An infinite gain, or one that is not a number, is ignored.
    pub fn set_gain_with_source(&mut self, bits: u32, source: GainSource)
        ensures
            *final(self) == old(self).with_gain(bits, source),
    {
        if is_finite(bits) {
            self.gain = bits;
            self.gain_source = source;
        }
    }

    /// Whether samples pass through unchanged.
    pub fn is_unity(&self) -> (r: bool)
        ensures
            r == (self.gain == UNITY_GAIN),
    {
        self.gain == UNITY_GAIN
    }

    /// Takes over the system volume, if it could be read. It is handed back even
    /// where it is not finite and so not taken over.
    pub fn apply_system_volume(&mut self, bits: Option<u32>) -> (r: Result<u32, &'static str>)
        ensures
            match bits {
                Some(b) => {
                    &&& r == Ok::<u32, &'static str>(b)
                    &&& *final(self) == old(self).with_gain(b, GainSource::System)
                },
                None => {
                    &&& r is Err
                    &&& r->Err_0@
                        == "failed to read system volume (no audio device or unsupported platform)"@
                    &&& *final(self) == *old(self)
                },
            },
    {
        match bits {
            Some(b) => {
                self.set_gain_with_source(b, GainSource::System);
                Ok(b)
            },
            None => Err(
                "failed to read system volume (no audio device or unsupported platform)",
            ),
        }
    }
}

/// What a line of text asks for.
#[derive(Debug, Clone, PartialEq, Eq)]
pub enum Request {
    Pause,
    Resume,
    ShowVolume,
    /// Set the volume, in percent.
    SetVolume(u32),
    ShowGain,
    /// Set the gain to the number with this text.
    SetGain(String),
    ShowStatus,
    /// Nothing but this answer.
    Reply(String),
}

/// The contents of a `Request`.
pub enum RequestView {
    Pause,
    Resume,
    ShowVolume,
    SetVolume(u32),
    ShowGain,
    SetGain(Seq<char>),
    ShowStatus,
    Reply(Seq<char>),
}

impl View for Request {
    type V = RequestView;

    open spec fn view(&self) -> RequestView {
        match *self {
            Request::Pause => RequestView::Pause,
            Request::Resume => RequestView::Resume,
            Request::ShowVolume => RequestView::ShowVolume,
            Request::SetVolume(p) => RequestView::SetVolume(p),
            Request::ShowGain => RequestView::ShowGain,
            Request::SetGain(t) => RequestView::SetGain(t@),
            Request::ShowStatus => RequestView::ShowStatus,
            Request::Reply(t) => RequestView::Reply(t@),
        }
    }
}

/// What the words behind `volume` ask for: one number up to 100, or none.
pub open spec fn volume_request(args: Seq<Seq<char>>) -> RequestView {
    if args.len() == 0 {
        RequestView::ShowVolume
    } else if args.len() > 1 {
        RequestView::Reply(
            "error: unexpected arguments after '"@ + args[0]
                + "' (volume takes a single value 0..100)"@,
        )
    } else {
        match text::parsed(args[0], u32::MAX as nat) {
            Ok(n) => if n <= 100 {
                RequestView::SetVolume(n as u32)
            } else {
                RequestView::Reply(
                    "error: volume must be 0..100 (got "@ + text::decimal(n) + ")"@,
                )
            },
            Err(_) => RequestView::Reply("error: invalid percentage '"@ + args[0] + "'"@),
        }
    }
}

/// What the words behind `gain` ask for: one number, or none.
pub open spec fn gain_request(args: Seq<Seq<char>>) -> RequestView {
    if args.len() == 0 {
        RequestView::ShowGain
    } else if args.len() > 1 {
        RequestView::Reply(
            "error: unexpected arguments after '"@ + args[0]
                + "' (gain takes a single value 0.0..10.0)"@,
        )
    } else {
        RequestView::SetGain(args[0])
    }
}

/// What a line asks for, by its words.
pub open spec fn requested(words: Seq<Seq<char>>) -> RequestView {
    if words.len() == 0 {
        RequestView::Reply("OK"@)
    } else {
        let verb = words[0];
        let args = words.drop_first();
        if verb == "pause"@ || verb == "p"@ {
            RequestView::Pause
        } else if verb == "resume"@ || verb == "r"@ {
            RequestView::Resume
        } else if verb == "volume"@ || verb == "v"@ {
            volume_request(args)
        } else if verb == "gain"@ || verb == "g"@ {
            gain_request(args)
        } else if verb == "status"@ || verb == "s"@ {
            RequestView::ShowStatus
        } else if verb == "help"@ || verb == "h"@ || verb == "?"@ {
            RequestView::Reply(HELP_TEXT@)
        } else {
            RequestView::Reply("unknown: '"@ + verb + "' (try 'help')"@)
        }
    }
}

/// `before`, `middle` and `after` in a row.
fn joined(before: &str, middle: &str, after: &str) -> (r: String)
    ensures
        r@ == before@ + middle@ + after@,
{
    let mut out: String = before.to_owned();
    out.append(middle);
    out.append(after);
    out
}

fn read_volume(words: &Vec<String>) -> (r: Request)
    requires
        words@.len() > 0,
    ensures
        r@ == volume_request(text::string_views(words@).drop_first()),
{
    let ghost args = text::string_views(words@).drop_first();
    if words.len() == 1 {
        return Request::ShowVolume;
    }
    assert(args[0] == words@[1]@);
    let val: &str = words[1].as_str();
    if words.len() > 2 {
        return Request::Reply(
            joined(
                "error: unexpected arguments after '",
                val,
                "' (volume takes a single value 0..100)",
            ),
        );
    }
    match text::parse_number(val, u32::MAX as u64) {
        Ok(n) => if n <= 100 {
            Request::SetVolume(n as u32)
        } else {
            let mut out: String = "error: volume must be 0..100 (got ".to_owned();
            text::push_decimal(&mut out, n);
            out.append(")");
            Request::Reply(out)
        },
        Err(_) => Request::Reply(joined("error: invalid percentage '", val, "'")),
    }
}

fn read_gain(words: &Vec<String>) -> (r: Request)
    requires
        words@.len() > 0,
    ensures
        r@ == gain_request(text::string_views(words@).drop_first()),
{
    let ghost args = text::string_views(words@).drop_first();
    if words.len() == 1 {
        return Request::ShowGain;
    }
    assert(args[0] == words@[1]@);
    let val: &str = words[1].as_str();
    if words.len() > 2 {
        return Request::Reply(
            joined(
                "error: unexpected arguments after '",
                val,
                "' (gain takes a single value 0.0..10.0)",
            ),
        );
    }
    Request::SetGain(val.to_owned())
}

/// Reads a line of text.
pub fn read_request(cmd: &str) -> (r: Request)
    ensures
        r@ == requested(text::words(cmd@)),
{
    let words: Vec<String> = text::split_words(cmd);
    if words.len() == 0 {
        return Request::Reply("OK".to_owned());
    }
    let verb: &str = words[0].as_str();
    assert(text::string_views(words@)[0] == verb@);
    if text::same_text(verb, "pause") || text::same_text(verb, "p") {
        Request::Pause
    } else if text::same_text(verb, "resume") || text::same_text(verb, "r") {
        Request::Resume
    } else if text::same_text(verb, "volume") || text::same_text(verb, "v") {
        read_volume(&words)
    } else if text::same_text(verb, "gain") || text::same_text(verb, "g") {
        read_gain(&words)
    } else if text::same_text(verb, "status") || text::same_text(verb, "s") {
        Request::ShowStatus
    } else if text::same_text(verb, "help") || text::same_text(verb, "h") || text::same_text(
        verb,
        "?",
    ) {
        Request::Reply(HELP_TEXT.to_owned())
    } else {
        Request::Reply(joined("unknown: '", verb, "' (try 'help')"))
    }
}

/// Reads a line from a connection. A blank line asks for nothing and is not
/// answered.
pub fn read_line(line: &str) -> (r: Option<Request>)
    ensures
        r is None <==> text::words(line@).len() == 0,
        r matches Some(q) ==> q@ == requested(text::words(line@)),
{
    let words: Vec<String> = text::split_words(line);
    assert(text::string_views(words@).len() == words@.len());
    if words.len() == 0 {
        None
    } else {
        Some(read_request(line))
    }
}

/// What the number of a request comes to.
#[derive(Debug, Clone, PartialEq, Eq)]
pub enum Reading {
    /// The text is no number.
    Invalid,
    /// The number is infinite or not a number; this is how it is shown.
    NotFinite(String),
    /// A gain from 0 to 10, and its text with three decimals.
    Gain { bits: u32, fixed3: String },
}

/// The gains that an answer shows.
#[derive(Debug, Clone, PartialEq, Eq)]
pub struct Given {
    /// The present gain with three decimals.
    pub gain_text: String,
    /// The present gain in whole percent.
    pub percent: u32,
    /// What the number of the request comes to: a volume in percent as a
    /// gain, or the text of a gain limited to the range 0 to 10.
    pub new: Reading,
}

impl Given {
    /// The numbers that the request needs are there, and in range.
    pub open spec fn suits(self, request: RequestView) -> bool {
        &&& self.new matches Reading::Gain { bits, fixed3 } ==> is_gain_bits(bits)
        &&& request is SetVolume ==> self.new is Gain
    }
}

impl ControlState {
    /// A request is carried out and answered.
    pub open spec fn executed(self, request: RequestView, given: Given) -> (ControlState, Seq<char>) {
        match request {
            RequestView::Pause => (ControlState { paused: true, ..self }, "paused"@),
            RequestView::Resume => (ControlState { paused: false, ..self }, "resumed"@),
            RequestView::ShowVolume => (
                self,
                "volume="@ + text::decimal(given.percent as nat) + "% gain="@ + given.gain_text@,
            ),
            RequestView::SetVolume(pct) => (
                self.with_gain(given.new->bits, GainSource::Manual),
                "volume="@ + text::decimal(pct as nat) + "% gain="@ + given.new->fixed3@,
            ),
            RequestView::ShowGain => (self, "gain="@ + given.gain_text@),
            RequestView::SetGain(val) => match given.new {
                Reading::Invalid => (self, "error: invalid number '"@ + val + "'"@),
                Reading::NotFinite(shown) => (
                    self,
                    "error: gain must be a finite number (got "@ + shown@ + ")"@,
                ),
                Reading::Gain { bits, fixed3 } => (
                    self.with_gain(bits, GainSource::Manual),
                    "gain="@ + fixed3@,
                ),
            },
            RequestView::ShowStatus => (
                self,
                (if self.paused {
                    "paused=true"@
                } else {
                    "paused=false"@
                }) + " gain="@ + given.gain_text@ + " source="@ + self.gain_source.spec_label(),
            ),
            RequestView::Reply(answer) => (self, answer),
        }
    }

    /// Carries out a request and answers it.
    pub fn execute(&mut self, request: &Request, given: &Given) -> (r: String)
        requires
            given.suits(request@),
        ensures
            (*final(self), r@) == old(self).executed(request@, *given),
    {
        match request {
            Request::Pause => {
                self.paused = true;
                "paused".to_owned()
            },
            Request::Resume => {
                self.paused = false;
                "resumed".to_owned()
            },
            Request::ShowVolume => {
                let mut out: String = "volume=".to_owned();
                text::push_decimal(&mut out, given.percent as u64);
                out.append("% gain=");
                out.append(given.gain_text.as_str());
                out
            },
            Request::SetVolume(pct) => {
                let mut out: String = "volume=".to_owned();
                text::push_decimal(&mut out, *pct as u64);
                out.append("% gain=");
                if let Reading::Gain { bits, fixed3 } = &given.new {
                    self.set_gain_with_source(*bits, GainSource::Manual);
                    out.append(fixed3.as_str());
                }
                out
            },
            Request::ShowGain => {
                let mut out: String = "gain=".to_owned();
                out.append(given.gain_text.as_str());
                out
            },
            Request::SetGain(val) => match &given.new {
                Reading::Invalid => joined("error: invalid number '", val.as_str(), "'"),
                Reading::NotFinite(shown) => joined(
                    "error: gain must be a finite number (got ",
                    shown.as_str(),
                    ")",
                ),
                Reading::Gain { bits, fixed3 } => {
                    self.set_gain_with_source(*bits, GainSource::Manual);
                    let mut out: String = "gain=".to_owned();
                    out.append(fixed3.as_str());
                    out
                },
            },
            Request::ShowStatus => {
                let mut out: String = if self.paused {
                    "paused=true".to_owned()
                } else {
                    "paused=false".to_owned()
                };
                out.append(" gain=");
                out.append(given.gain_text.as_str());
                out.append(" source=");
                out.append(self.gain_source.label());
                out
            },
            Request::Reply(answer) => answer.clone(),
        }
    }
}

/// Polls the system volume and remembers how often that failed in a row.
#[derive(Debug, Clone, Copy, PartialEq, Eq, Structural)]
pub struct VolumeFollower {
    pub errors: u64,
}

impl VolumeFollower {
    pub fn new() -> (r: VolumeFollower)
        ensures
            r.errors == 0,
    {
        VolumeFollower { errors: 0 }
    }

    /// A reading of the system volume is taken over; says whether a failure should be
    /// logged.
    pub open spec fn polled(self, state: ControlState, bits: Option<u32>) -> (
        VolumeFollower,
        ControlState,
        bool,
    ) {
        match bits {
            Some(b) => (
                VolumeFollower { errors: 0 },
                state.with_gain(b, GainSource::System),
                false,
            ),
            None => {
                let errors = self.errors + 1;
                (
                    VolumeFollower { errors: errors as u64 },
                    state,
                    errors == 1 || errors % 60 == 0,
                )
            },
        }
    }

    /// Takes over a reading of the system volume. Returns whether a failure
    /// should be logged: the first in a row, and then every sixtieth.
    pub fn poll(&mut self, state: &mut ControlState, bits: Option<u32>) -> (log: bool)
        requires
            old(self).errors < u64::MAX,
        ensures
            match bits {
                Some(b) => {
                    &&& !log
                    &&& final(self).errors == 0
                    &&& *final(state) == old(state).with_gain(b, GainSource::System)
                },
                None => {
                    &&& final(self).errors == old(self).errors + 1
                    &&& log == (final(self).errors == 1 || final(self).errors % 60 == 0)
                    &&& *final(state) == *old(state)
                },
            },
            (*final(self), *final(state), log) == old(self).polled(*old(state), bits),
    {
        match bits {
            Some(b) => {
                self.errors = 0;
                state.set_gain_with_source(b, GainSource::System);
                false
            },
            None => {
                self.errors = self.errors + 1;
                self.errors == 1 || self.errors % 60 == 0
            },
        }
    }
}

/// A request changes only what it is about: pausing leaves the gain alone, a
/// new gain leaves the pause alone and counts as set by hand, and whatever is
/// merely shown or refused changes nothing.
pub proof fn law_requests_change_what_they_name(s: ControlState, request: RequestView, given: Given)
    requires
        given.suits(request),
    ensures
        ({
            let t = s.executed(request, given).0;
            &&& match request {
                RequestView::Pause => t == (ControlState { paused: true, ..s }),
                RequestView::Resume => t == (ControlState { paused: false, ..s }),
                RequestView::SetVolume(_) => t == (ControlState {
                    gain: given.new->bits,
                    gain_source: GainSource::Manual,
                    ..s
                }),
                RequestView::SetGain(_) => if given.new is Gain {
                    t == (ControlState {
                        gain: given.new->bits,
                        gain_source: GainSource::Manual,
                        ..s
                    })
                } else {
                    t == s
                },
                _ => t == s,
            }
        }),
{
}

/// A command leaves the gain in the range 0 to 10, and so finite: where it sets
/// the gain, whatever that was before, and where it does not, as it was.
pub proof fn law_commands_keep_the_gain_in_range(s: ControlState, request: RequestView, given: Given)
    requires
        given.suits(request),
    ensures
        ({
            let t = s.executed(request, given).0;
            &&& is_gain_bits(s.gain) ==> is_gain_bits(t.gain)
            &&& t.gain != s.gain ==> is_gain_bits(t.gain)
            &&& is_gain_bits(t.gain) ==> is_finite_bits(t.gain)
        }),
{
}

/// The gain is finite whoever sets it: a bit pattern that is not finite leaves
/// the gain, and who set it, as they were.
pub proof fn law_gain_stays_finite(s: ControlState, bits: u32, source: GainSource)
    requires
        is_finite_bits(s.gain),
    ensures
        is_finite_bits(s.with_gain(bits, source).gain),
        !is_finite_bits(bits) ==> s.with_gain(bits, source) == s,
        is_finite_bits(bits) ==> s.with_gain(bits, source).gain == bits,
        is_finite_bits(ControlState::initial().gain),
        is_gain_bits(ControlState::initial().gain),
{
}

/// A line never sets a volume above 100.
pub proof fn law_volume_is_at_most_unity(line: Seq<char>)
    ensures
        requested(text::words(line)) matches RequestView::SetVolume(pct) ==> pct <= 100,
{
}

/// The commands differ from each other.
proof fn lemma_commands_differ()
    ensures
        "pause"@ == seq!['p', 'a', 'u', 's', 'e'],
        "p"@ == seq!['p'],
        "resume"@ == seq!['r', 'e', 's', 'u', 'm', 'e'],
        "r"@ == seq!['r'],
        "volume"@ == seq!['v', 'o', 'l', 'u', 'm', 'e'],
        "v"@ == seq!['v'],
        "gain"@ == seq!['g', 'a', 'i', 'n'],
        "g"@ == seq!['g'],
        "status"@ == seq!['s', 't', 'a', 't', 'u', 's'],
        "s"@ == seq!['s'],
        "help"@ == seq!['h', 'e', 'l', 'p'],
        "h"@ == seq!['h'],
        "?"@ == seq!['?'],
{
    reveal_strlit("pause");
    reveal_strlit("p");
    reveal_strlit("resume");
    reveal_strlit("r");
    reveal_strlit("volume");
    reveal_strlit("v");
    reveal_strlit("gain");
    reveal_strlit("g");
    reveal_strlit("status");
    reveal_strlit("s");
    reveal_strlit("help");
    reveal_strlit("h");
    reveal_strlit("?");
}

/// `volume`, or `v`, with a number sets the volume to this very number where it is
/// no more than 100, and is refused above. A word that spells a number in another
/// way, with a plus sign or zeros in front, counts the same.
pub proof fn law_volume_is_set_as_asked(verb: Seq<char>, word: Seq<char>, n: nat)
    requires
        verb == "volume"@ || verb == "v"@,
        n <= 0xffff_ffff,
        word == text::decimal(n) || word == "+"@ + text::decimal(n) || word == "0"@ + text::decimal(n),
    ensures
        n <= 100 ==> requested(seq![verb, word]) == RequestView::SetVolume(n as u32),
        n > 100 ==> requested(seq![verb, word]) == RequestView::Reply(
            "error: volume must be 0..100 (got "@ + text::decimal(n) + ")"@,
        ),
{
    lemma_commands_differ();
    reveal_strlit("+");
    reveal_strlit("0");
    let words = seq![verb, word];
    assert(words.drop_first() =~= seq![word]);
    assert(verb[0] == 'v');
    let d = text::decimal(n);
    text::law_decimal_spells_the_number(n);
    text::law_what_is_a_number(word, 0xffff_ffff);
    if word == "+"@ + d {
        assert(word.drop_first() =~= d);
    } else if word == "0"@ + d {
        text::lemma_leading_zero(d);
        assert(word =~= seq!['0'] + d);
        assert forall|i: int| 0 <= i < word.len() implies '0' as int <= (#[trigger] word[i]) as int
            && word[i] as int <= '9' as int by {
            if i > 0 {
                assert(word[i] == d[i - 1]);
            }
        }
    }
}

/// The same of whole lines, with any white space between the command and the
/// number.
pub proof fn law_volume_line_is_obeyed(space: char, n: nat)
    requires
        n <= 100,
        space == ' ' || space == '\t',
    ensures
        requested(text::words("volume"@ + seq![space] + text::decimal(n)))
            == RequestView::SetVolume(n as u32),
        requested(text::words("v"@ + seq![space] + text::decimal(n))) == RequestView::SetVolume(
            n as u32,
        ),
{
    lemma_commands_differ();
    let d = text::decimal(n);
    text::law_decimal_spells_the_number(n);
    assert forall|i: int| 0 <= i < d.len() implies !text::is_space(#[trigger] d[i]) by {
        text::law_what_is_space(d[i]);
    }
    text::law_words_are_parted_by_space(d, space, Seq::empty());
    text::law_words_are_parted_by_space("volume"@, space, d);
    text::law_words_are_parted_by_space("v"@, space, d);
    assert(seq!["volume"@] + seq![d] =~= seq!["volume"@, d]);
    assert(seq!["v"@] + seq![d] =~= seq!["v"@, d]);
    law_volume_is_set_as_asked("volume"@, d, n);
    law_volume_is_set_as_asked("v"@, d, n);
}

/// What is no number is not taken for a volume, nor are several words; the answer
/// names the word. Without one the volume is shown.
pub proof fn law_volume_takes_one_number(words: Seq<Seq<char>>)
    requires
        words.len() > 0,
        words[0] == "volume"@ || words[0] == "v"@,
    ensures
        words.len() == 1 ==> requested(words) == RequestView::ShowVolume,
        words.len() > 2 ==> requested(words) == RequestView::Reply(
            "error: unexpected arguments after '"@ + words[1]
                + "' (volume takes a single value 0..100)"@,
        ),
        words.len() == 2 && (words[1].len() == 0 || text::parsed(words[1], 0xffff_ffff) is Err)
            ==> requested(words) == RequestView::Reply(
            "error: invalid percentage '"@ + words[1] + "'"@,
        ),
{
    lemma_commands_differ();
    assert(words[0][0] == 'v');
    if words.len() > 1 {
        assert(words.drop_first()[0] == words[1]);
    }
}

/// `gain`, or `g`, hands on the one word behind it as it is, refuses more, and
/// shows the gain without any.
pub proof fn law_gain_takes_one_number(words: Seq<Seq<char>>)
    requires
        words.len() > 0,
        words[0] == "gain"@ || words[0] == "g"@,
    ensures
        words.len() == 1 ==> requested(words) == RequestView::ShowGain,
        words.len() == 2 ==> requested(words) == RequestView::SetGain(words[1]),
        words.len() > 2 ==> requested(words) == RequestView::Reply(
            "error: unexpected arguments after '"@ + words[1]
                + "' (gain takes a single value 0.0..10.0)"@,
        ),
{
    lemma_commands_differ();
    assert(words[0][0] == 'g');
    if words.len() > 1 {
        assert(words.drop_first()[0] == words[1]);
    }
}

/// Each of the other commands has its word and its letter, whatever follows; a
/// line without words is agreed to, and any other word is answered with that it is
/// unknown.
pub proof fn law_commands_have_a_word_and_a_letter(words: Seq<Seq<char>>)
    ensures
        words.len() == 0 ==> requested(words) == RequestView::Reply("OK"@),
        words.len() > 0 && (words[0] == "pause"@ || words[0] == "p"@) ==> requested(words)
            == RequestView::Pause,
        words.len() > 0 && (words[0] == "resume"@ || words[0] == "r"@) ==> requested(words)
            == RequestView::Resume,
        words.len() > 0 && (words[0] == "status"@ || words[0] == "s"@) ==> requested(words)
            == RequestView::ShowStatus,
        words.len() > 0 && (words[0] == "help"@ || words[0] == "h"@ || words[0] == "?"@)
            ==> requested(words) == RequestView::Reply(HELP_TEXT@),
        requested(words) is Pause ==> words[0] == "pause"@ || words[0] == "p"@,
        requested(words) is Resume ==> words[0] == "resume"@ || words[0] == "r"@,
        requested(words) is ShowStatus ==> words[0] == "status"@ || words[0] == "s"@,
        requested(words) is SetVolume || requested(words) is ShowVolume ==> words[0] == "volume"@
            || words[0] == "v"@,
        requested(words) is SetGain || requested(words) is ShowGain ==> words[0] == "gain"@
            || words[0] == "g"@,
        words.len() > 0 && !seq![
            "pause"@,
            "p"@,
            "resume"@,
            "r"@,
            "volume"@,
            "v"@,
            "gain"@,
            "g"@,
            "status"@,
            "s"@,
            "help"@,
            "h"@,
            "?"@,
        ].contains(words[0]) ==> requested(words) == RequestView::Reply(
            "unknown: '"@ + words[0] + "' (try 'help')"@,
        ),
{
    lemma_commands_differ();
    let all = seq![
        "pause"@,
        "p"@,
        "resume"@,
        "r"@,
        "volume"@,
        "v"@,
        "gain"@,
        "g"@,
        "status"@,
        "s"@,
        "help"@,
        "h"@,
        "?"@,
    ];
    if words.len() > 0 {
        let w = words[0];
        assert(all[0] == "pause"@ && all[1] == "p"@ && all[2] == "resume"@ && all[3] == "r"@);
        assert(all[4] == "volume"@ && all[5] == "v"@ && all[6] == "gain"@ && all[7] == "g"@);
        assert(all[8] == "status"@ && all[9] == "s"@ && all[10] == "help"@ && all[11] == "h"@);
        assert(all[12] == "?"@);
        if w == "status"@ || w == "s"@ {
            assert(w[0] == 's');
        }
        if w == "help"@ || w == "h"@ {
            assert(w[0] == 'h');
        }
        if w == "?"@ {
            assert(w[0] == '?');
        }
        if w == "resume"@ || w == "r"@ {
            assert(w[0] == 'r');
        }
    }
}

/// Every request is answered: what was set is confirmed with what was asked for,
/// what is shown is what there is, and a number that cannot be taken is named.
pub proof fn law_answers_tell_what_happened(s: ControlState, given: Given, pct: u32, val: Seq<char>)
    ensures
        s.executed(RequestView::Pause, given).1 == "paused"@,
        s.executed(RequestView::Resume, given).1 == "resumed"@,
        s.executed(RequestView::ShowVolume, given).1 == "volume="@ + text::decimal(
            given.percent as nat,
        ) + "% gain="@ + given.gain_text@,
        given.new matches Reading::Gain { bits, fixed3 } ==> s.executed(
            RequestView::SetVolume(pct),
            given,
        ).1 == "volume="@ + text::decimal(pct as nat) + "% gain="@ + fixed3@ && s.executed(
            RequestView::SetGain(val),
            given,
        ).1 == "gain="@ + fixed3@,
        s.executed(RequestView::ShowGain, given).1 == "gain="@ + given.gain_text@,
        given.new is Invalid ==> s.executed(RequestView::SetGain(val), given).1
            == "error: invalid number '"@ + val + "'"@,
        given.new matches Reading::NotFinite(shown) ==> s.executed(
            RequestView::SetGain(val),
            given,
        ).1 == "error: gain must be a finite number (got "@ + shown@ + ")"@,
        s.paused && s.gain_source == GainSource::Manual ==> s.executed(
            RequestView::ShowStatus,
            given,
        ).1 == "paused=true"@ + " gain="@ + given.gain_text@ + " source="@ + "manual"@,
        !s.paused && s.gain_source == GainSource::System ==> s.executed(
            RequestView::ShowStatus,
            given,
        ).1 == "paused=false"@ + " gain="@ + given.gain_text@ + " source="@ + "system"@,
        s.executed(RequestView::Reply(val), given).1 == val,
{
}

/// A float is finite where, its sign aside, its bit pattern is below that of
/// infinity; and the gains from 0 to 10 are the patterns from that of 0 to that of
/// 10, and the negative zero. A new gain is taken over with who set it.
pub proof fn law_gains_by_their_bits(s: ControlState, bits: u32, source: GainSource)
    ensures
        is_finite_bits(bits) <==> bits as int % 0x8000_0000 < 0x7f80_0000,
        is_gain_bits(bits) <==> bits <= 0x4120_0000 || bits == 0x8000_0000,
        bits as int % 0x8000_0000 < 0x7f80_0000 ==> s.with_gain(bits, source) == (ControlState {
            paused: s.paused,
            gain: bits,
            gain_source: source,
        }),
        ControlState::initial() == (ControlState {
            paused: false,
            gain: 0x3f80_0000,
            gain_source: GainSource::Manual,
        }),
{
}

/// A follower after `k` failures in a row, and whether the last of them was logged.
pub open spec fn after_failures(f: VolumeFollower, state: ControlState, k: nat) -> (
    VolumeFollower,
    ControlState,
    bool,
)
    decreases k,
{
    if k == 0 {
        (f, state, false)
    } else {
        let (g, s, _) = after_failures(f, state, (k - 1) as nat);
        g.polled(s, None)
    }
}

/// Failures to read the system volume leave the gain alone. Of a run of them behind a
/// reading that succeeded, the first is logged, and then every sixtieth.
pub proof fn law_failures_are_logged_sparingly(
    f: VolumeFollower,
    state: ControlState,
    bits: u32,
    k: nat,
)
    requires
        0 < k <= u64::MAX,
    ensures
        ({
            let (fresh, s, logged) = f.polled(state, Some(bits));
            let (g, t, log) = after_failures(fresh, s, k);
            &&& !logged
            &&& t == s
            &&& g.errors == k
            &&& log <==> k == 1 || k % 60 == 0
            &&& bits as int % 0x8000_0000 < 0x7f80_0000 ==> s.gain == bits && s.gain_source
                == GainSource::System && s.paused == state.paused
            &&& bits as int % 0x8000_0000 >= 0x7f80_0000 ==> s == state
        }),
    decreases k,
{
    law_gains_by_their_bits(state, bits, GainSource::System);
    if k > 1 {
        law_failures_are_logged_sparingly(f, state, bits, (k - 1) as nat);
    } else {
        let (fresh, s, logged) = f.polled(state, Some(bits));
        assert(after_failures(fresh, s, 0) == (fresh, s, false));
    }
}

/// A line that asks for a volume is read as that request, and the answer confirms
/// this very volume; the gain becomes the one that the volume comes to.
pub proof fn law_volume_line_is_read(line: &str, n: nat, r: Request, s: ControlState, given: Given)
    requires
        n <= 100,
        line@ == "volume"@ + seq![' '] + text::decimal(n) || line@ == "v"@ + seq![' ']
            + text::decimal(n),
        call_ensures(read_request, (line,), r),
        given.suits(r@),
    ensures
        r matches Request::SetVolume(pct) && pct == n,
        ({
            let (t, answer) = s.executed(r@, given);
            &&& t.gain == given.new->bits && t.gain_source == GainSource::Manual && t.paused
                == s.paused
            &&& answer == "volume="@ + text::decimal(n) + "% gain="@ + given.new->fixed3@
        }),
{
    law_volume_line_is_obeyed(' ', n);
    law_commands_keep_the_gain_in_range(s, r@, given);
    law_requests_change_what_they_name(s, r@, given);
}

} // verus!
