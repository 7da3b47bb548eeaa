//! Structured log lines: one JSON object per line.

use crate::text;
use vstd::prelude::*;

verus! {

/// The value of a field.
#[derive(Debug, Clone)]
pub enum JsonVal {
    Null,
    Bool(bool),
    U64(u64),
    I64(i64),
    /// A float, by its text with six decimals; none where it is infinite or
    /// not a number.
    F64(Option<String>),
    Str(String),
}

impl vstd::std_specs::convert::FromSpecImpl<bool> for JsonVal {
    open spec fn obeys_from_spec() -> bool {
        true
    }

    open spec fn from_spec(v: bool) -> JsonVal {
        JsonVal::Bool(v)
    }
}

impl From<bool> for JsonVal {
    fn from(v: bool) -> (r: JsonVal) {
        JsonVal::Bool(v)
    }
}

impl vstd::std_specs::convert::FromSpecImpl<u64> for JsonVal {
    open spec fn obeys_from_spec() -> bool {
        true
    }

    open spec fn from_spec(v: u64) -> JsonVal {
        JsonVal::U64(v)
    }
}

impl From<u64> for JsonVal {
    fn from(v: u64) -> (r: JsonVal) {
        JsonVal::U64(v)
    }
}

impl vstd::std_specs::convert::FromSpecImpl<u32> for JsonVal {
    open spec fn obeys_from_spec() -> bool {
        true
    }

    open spec fn from_spec(v: u32) -> JsonVal {
        JsonVal::U64(v as u64)
    }
}

impl From<u32> for JsonVal {
    fn from(v: u32) -> (r: JsonVal) {
        JsonVal::U64(v as u64)
    }
}

impl vstd::std_specs::convert::FromSpecImpl<u8> for JsonVal {
    open spec fn obeys_from_spec() -> bool {
        true
    }

    open spec fn from_spec(v: u8) -> JsonVal {
        JsonVal::U64(v as u64)
    }
}

impl From<u8> for JsonVal {
    fn from(v: u8) -> (r: JsonVal) {
        JsonVal::U64(v as u64)
    }
}

impl vstd::std_specs::convert::FromSpecImpl<u16> for JsonVal {
    open spec fn obeys_from_spec() -> bool {
        true
    }

    open spec fn from_spec(v: u16) -> JsonVal {
        JsonVal::U64(v as u64)
    }
}

impl From<u16> for JsonVal {
    fn from(v: u16) -> (r: JsonVal) {
        JsonVal::U64(v as u64)
    }
}

impl vstd::std_specs::convert::FromSpecImpl<usize> for JsonVal {
    open spec fn obeys_from_spec() -> bool {
        true
    }

    open spec fn from_spec(v: usize) -> JsonVal {
        JsonVal::U64(v as u64)
    }
}

impl From<usize> for JsonVal {
    fn from(v: usize) -> (r: JsonVal) {
        JsonVal::U64(v as u64)
    }
}

impl vstd::std_specs::convert::FromSpecImpl<i64> for JsonVal {
    open spec fn obeys_from_spec() -> bool {
        true
    }

    open spec fn from_spec(v: i64) -> JsonVal {
        JsonVal::I64(v)
    }
}

impl From<i64> for JsonVal {
    fn from(v: i64) -> (r: JsonVal) {
        JsonVal::I64(v)
    }
}

impl vstd::std_specs::convert::FromSpecImpl<String> for JsonVal {
    open spec fn obeys_from_spec() -> bool {
        true
    }

    open spec fn from_spec(v: String) -> JsonVal {
        JsonVal::Str(v)
    }
}

impl From<String> for JsonVal {
    fn from(v: String) -> (r: JsonVal) {
        JsonVal::Str(v)
    }
}

impl JsonVal {
    /// A text.
    pub fn text(v: &str) -> (r: JsonVal)
        ensures
            r matches JsonVal::Str(s) && s@ == v@,
    {
        JsonVal::Str(v.to_owned())
    }
}

/// `s` without trailing characters `c`.
pub open spec fn without_trailing(s: Seq<char>, c: char) -> Seq<char>
    decreases s.len(),
{
    if s.len() > 0 && s.last() == c {
        without_trailing(s.drop_last(), c)
    } else {
        s
    }
}

/// A number with decimals in its shortest form: trailing zeros and a trailing
/// point are left out.
pub open spec fn shortened(s: Seq<char>) -> Seq<char> {
    let t = without_trailing(without_trailing(s, '0'), '.');
    if t.len() == 0 || t == seq!['-'] {
        seq!['0']
    } else {
        t
    }
}

/// A control character.
pub open spec fn is_control(c: char) -> bool {
    '\u{0}' <= c <= '\u{1f}' || '\u{7f}' <= c <= '\u{9f}'
}

/// How a character is written inside a JSON string.
pub open spec fn escape_of(c: char) -> Seq<char> {
    if c == '"' {
        seq!['\\', '"']
    } else if c == '\\' {
        seq!['\\', '\\']
    } else if c == '\n' {
        seq!['\\', 'n']
    } else if c == '\r' {
        seq!['\\', 'r']
    } else if c == '\t' {
        seq!['\\', 't']
    } else if is_control(c) {
        seq!['\\', 'u'] + text::hex(c as nat, 4)
    } else {
        seq![c]
    }
}

/// How a text is written inside a JSON string.
pub open spec fn escaped(s: Seq<char>) -> Seq<char>
    decreases s.len(),
{
    if s.len() == 0 {
        Seq::empty()
    } else {
        escape_of(s[0]) + escaped(s.drop_first())
    }
}

/// A JSON string.
pub open spec fn quoted(s: Seq<char>) -> Seq<char> {
    seq!['"'] + escaped(s) + seq!['"']
}

/// A signed number in decimal.
pub open spec fn signed_decimal(n: int) -> Seq<char> {
    if n < 0 {
        seq!['-'] + text::decimal((-n) as nat)
    } else {
        text::decimal(n as nat)
    }
}

/// The contents of a value.
#[verifier::ext_equal]
pub enum JsonView {
    Null,
    Bool(bool),
    U64(u64),
    I64(i64),
    F64(Option<Seq<char>>),
    Str(Seq<char>),
}

impl View for JsonVal {
    type V = JsonView;

    open spec fn view(&self) -> JsonView {
        match *self {
            JsonVal::Null => JsonView::Null,
            JsonVal::Bool(b) => JsonView::Bool(b),
            JsonVal::U64(n) => JsonView::U64(n),
            JsonVal::I64(n) => JsonView::I64(n),
            JsonVal::F64(None) => JsonView::F64(None),
            JsonVal::F64(Some(t)) => JsonView::F64(Some(t@)),
            JsonVal::Str(s) => JsonView::Str(s@),
        }
    }
}

impl JsonView {
    /// How the value is written.
    pub open spec fn text(self) -> Seq<char> {
        match self {
            JsonView::Null => "null"@,
            JsonView::Bool(b) => if b {
                "true"@
            } else {
                "false"@
            },
            JsonView::U64(n) => text::decimal(n as nat),
            JsonView::I64(n) => signed_decimal(n as int),
            JsonView::F64(None) => "null"@,
            JsonView::F64(Some(t)) => shortened(t),
            JsonView::Str(s) => quoted(s),
        }
    }
}

/// The contents of a list of fields.
pub open spec fn field_views(fields: Seq<(&str, JsonVal)>) -> Seq<(Seq<char>, JsonView)> {
    Seq::new(fields.len(), |i: int| (fields[i].0@, fields[i].1@))
}

/// A name and its value.
pub open spec fn pair_text(key: Seq<char>, val: JsonView) -> Seq<char> {
    quoted(key) + seq![':'] + val.text()
}

/// The first `n` fields, each behind a comma.
pub open spec fn fields_text(fields: Seq<(Seq<char>, JsonView)>, n: nat) -> Seq<char>
    decreases n,
{
    if n == 0 {
        Seq::empty()
    } else {
        fields_text(fields, (n - 1) as nat) + seq![','] + pair_text(
            fields[n - 1].0,
            fields[n - 1].1,
        )
    }
}

/// A whole line: time, event, fields.
pub open spec fn line_text(
    ts_ms: u64,
    event: Seq<char>,
    fields: Seq<(Seq<char>, JsonView)>,
) -> Seq<char> {
    seq!['{'] + (quoted("ts_ms"@) + seq![':'] + text::decimal(ts_ms as nat)) + seq![','] + (quoted(
        "event"@,
    ) + seq![':'] + quoted(event)) + fields_text(fields, fields.len()) + seq!['}', '\n']
}

/// Escaping goes character by character.
proof fn lemma_escaped_push(s: Seq<char>, c: char)
    ensures
        escaped(s.push(c)) == escaped(s) + escape_of(c),
    decreases s.len(),
{
    let t = s.push(c);
    if s.len() == 0 {
        assert(t.drop_first() =~= Seq::<char>::empty());
        assert(t[0] == c);
        assert(escaped(t.drop_first()) == Seq::<char>::empty());
        assert(escaped(t) =~= escape_of(c));
        assert(escaped(s) + escape_of(c) =~= escape_of(c));
    } else {
        assert(t.drop_first() =~= s.drop_first().push(c));
        lemma_escaped_push(s.drop_first(), c);
        assert(escaped(t) =~= escaped(s) + escape_of(c));
    }
}

/// Appends a character as it is written inside a JSON string.
fn push_escaped(out: &mut String, c: char)
    ensures
        final(out)@ == old(out)@ + escape_of(c),
{
    if c == '"' {
        out.push('\\');
        out.push('"');
    } else if c == '\\' {
        out.push('\\');
        out.push('\\');
    } else if c == '\n' {
        out.push('\\');
        out.push('n');
    } else if c == '\r' {
        out.push('\\');
        out.push('r');
    } else if c == '\t' {
        out.push('\\');
        out.push('t');
    } else if c <= '\u{1f}' || ('\u{7f}' <= c && c <= '\u{9f}') {
        out.push('\\');
        out.push('u');
        text::push_hex(out, c as u32, 4);
    } else {
        out.push(c);
    }
    assert(out@ =~= old(out)@ + escape_of(c));
}

/// Appends a text as it is written inside a JSON string.
pub fn escape_str(out: &mut String, s: &str)
    ensures
        final(out)@ == old(out)@ + escaped(s@),
{
    let chars: Vec<char> = text::chars_of(s);
    let n: usize = chars.len();
    let mut i: usize = 0;
    assert(s@.take(0) =~= Seq::empty());
    assert(out@ + escaped(s@.take(0)) =~= out@);
    while i < n
        invariant
            i <= n == chars@.len(),
            chars@ == s@,
            out@ == old(out)@ + escaped(s@.take(i as int)),
        decreases n - i,
    {
        push_escaped(out, chars[i]);
        proof {
            lemma_escaped_push(s@.take(i as int), s@[i as int]);
            assert(s@.take(i as int).push(s@[i as int]) =~= s@.take(i + 1));
            assert(out@ =~= old(out)@ + escaped(s@.take(i + 1)));
        }
        i += 1;
    }
    assert(s@.take(n as int) =~= s@);
}

fn push_quoted(out: &mut String, s: &str)
    ensures
        final(out)@ == old(out)@ + quoted(s@),
{
    out.push('"');
    escape_str(out, s);
    out.push('"');
    assert(out@ =~= old(out)@ + quoted(s@));
}

/// How many characters are left without the trailing characters `c`.
fn trimmed_len(chars: &[char], len: usize, c: char) -> (r: usize)
    requires
        len <= chars@.len(),
    ensures
        r <= len,
        chars@.take(r as int) == without_trailing(chars@.take(len as int), c),
{
    let mut n: usize = len;
    while n > 0 && chars[n - 1] == c
        invariant
            n <= len <= chars@.len(),
            without_trailing(chars@.take(len as int), c) == without_trailing(
                chars@.take(n as int),
                c,
            ),
        decreases n,
    {
        assert(chars@.take(n as int).drop_last() =~= chars@.take(n - 1));
        n -= 1;
    }
    n
}

/// Appends a number with decimals in its shortest form.
fn push_shortened(out: &mut String, s: &str)
    ensures
        final(out)@ == old(out)@ + shortened(s@),
{
    let chars: Vec<char> = text::chars_of(s);
    let a: usize = trimmed_len(chars.as_slice(), chars.len(), '0');
    let b: usize = trimmed_len(chars.as_slice(), a, '.');
    assert(chars@.take(chars@.len() as int) =~= s@);
    let ghost t = chars@.take(b as int);
    assert(t == without_trailing(without_trailing(s@, '0'), '.'));
    assert(chars@.subrange(0, b as int) =~= t);
    if b == 0 || (b == 1 && chars[0] == '-') {
        assert(b == 1 ==> t =~= seq!['-']);
        out.push('0');
        assert(out@ =~= old(out)@ + shortened(s@));
    } else {
        assert(t == seq!['-'] ==> t[0] == '-' && t.len() == 1);
        text::push_chars(out, chars.as_slice(), 0, b);
    }
}

/// Appends a value.
fn write_val(out: &mut String, val: &JsonVal)
    ensures
        final(out)@ == old(out)@ + val@.text(),
{
    match val {
        JsonVal::Null => out.append("null"),
        JsonVal::Bool(b) => if *b {
            out.append("true")
        } else {
            out.append("false")
        },
        JsonVal::U64(n) => text::push_decimal(out, *n),
        JsonVal::I64(n) => {
            if *n < 0 {
                out.push('-');
                let size: u64 = if *n == i64::MIN {
                    0x8000_0000_0000_0000
                } else {
                    (-*n) as u64
                };
                text::push_decimal(out, size);
                assert(out@ =~= old(out)@ + val@.text());
            } else {
                text::push_decimal(out, *n as u64);
            }
        },
        JsonVal::F64(f) => match f {
            Some(t) => push_shortened(out, t.as_str()),
            None => out.append("null"),
        },
        JsonVal::Str(s) => push_quoted(out, s.as_str()),
    }
}

/// Appends a name and its value.
fn write_kv(out: &mut String, key: &str, val: &JsonVal)
    ensures
        final(out)@ == old(out)@ + pair_text(key@, val@),
{
    push_quoted(out, key);
    out.push(':');
    write_val(out, val);
    assert(out@ =~= old(out)@ + pair_text(key@, val@));
}

/// The line for an event: `{"ts_ms":..,"event":"..",..}`.
pub fn render_line(ts_ms: u64, event: &str, fields: &[(&str, JsonVal)]) -> (r: String)
    ensures
        r@ == line_text(ts_ms, event@, field_views(fields@)),
{
    let mut out: String = String::new();
    out.push('{');
    write_kv(&mut out, "ts_ms", &JsonVal::U64(ts_ms));
    out.push(',');
    push_quoted(&mut out, "event");
    out.push(':');
    push_quoted(&mut out, event);
    let ghost start = out@;
    let n: usize = fields.len();
    let mut i: usize = 0;
    assert(start + fields_text(field_views(fields@), 0) =~= start);
    while i < n
        invariant
            i <= n == fields@.len(),
            out@ == start + fields_text(field_views(fields@), i as nat),
        decreases n - i,
    {
        out.push(',');
        write_kv(&mut out, fields[i].0, &fields[i].1);
        i += 1;
        assert(out@ =~= start + fields_text(field_views(fields@), i as nat));
    }
    out.push('}');
    out.push('\n');
    assert(out@ =~= line_text(ts_ms, event@, field_views(fields@)));
    out
}

/// The value of a hexadecimal digit.
pub open spec fn hex_digit(c: char) -> nat {
    if '0' <= c <= '9' {
        (c as nat - '0' as nat) as nat
    } else {
        (c as nat - 'a' as nat + 10) as nat
    }
}

/// Reads what stands inside a JSON string; `None` where a quote or a backslash
/// stands there that does not belong.
pub open spec fn unescaped(s: Seq<char>) -> Option<Seq<char>>
    decreases s.len(),
{
    if s.len() == 0 {
        Some(Seq::empty())
    } else if s[0] == '"' {
        None
    } else if s[0] != '\\' {
        match unescaped(s.skip(1)) {
            Some(rest) => Some(seq![s[0]] + rest),
            None => None,
        }
    } else if s.len() >= 2 && (s[1] == '"' || s[1] == '\\' || s[1] == 'n' || s[1] == 'r' || s[1]
        == 't') {
        let c = if s[1] == 'n' {
            '\n'
        } else if s[1] == 'r' {
            '\r'
        } else if s[1] == 't' {
            '\t'
        } else {
            s[1]
        };
        match unescaped(s.skip(2)) {
            Some(rest) => Some(seq![c] + rest),
            None => None,
        }
    } else if s.len() >= 6 && s[1] == 'u' {
        let code = hex_digit(s[2]) * 4096 + hex_digit(s[3]) * 256 + hex_digit(s[4]) * 16
            + hex_digit(s[5]);
        match unescaped(s.skip(6)) {
            Some(rest) => Some(seq![code as char] + rest),
            None => None,
        }
    } else {
        None
    }
}

/// The four digits of a small code.
proof fn lemma_four_digits(v: nat)
    requires
        v < 0x100,
    ensures
        text::hex(v, 4) == seq!['0', '0', text::hex_char(v / 16), text::hex_char(v % 16)],
        hex_digit(text::hex_char(v / 16)) * 16 + hex_digit(text::hex_char(v % 16)) == v,
        hex_digit('0') == 0,
{
    reveal_with_fuel(text::hex, 5);
    let a = v / 16;
    assert(a / 16 == 0 && a % 16 == a);
    assert(text::hex(v, 4) =~= seq!['0', '0', text::hex_char(a), text::hex_char(v % 16)]);
}

/// A text can be read back from its JSON string: nothing is lost.
pub proof fn law_strings_read_back(s: Seq<char>)
    ensures
        unescaped(escaped(s)) == Some(s),
    decreases s.len(),
{
    if s.len() == 0 {
        assert(s =~= Seq::<char>::empty());
    } else {
        let c = s[0];
        let rest = escaped(s.drop_first());
        law_strings_read_back(s.drop_first());
        let all = escape_of(c) + rest;
        assert(seq![c] + s.drop_first() =~= s);
        if c == '"' || c == '\\' || c == '\n' || c == '\r' || c == '\t' {
            assert(all.skip(2) =~= rest);
            assert(all[0] == '\\');
            assert(unescaped(all) == Some(seq![c] + s.drop_first()));
        } else if is_control(c) {
            lemma_four_digits(c as nat);
            assert(all.skip(6) =~= rest);
            assert(all[0] == '\\' && all[1] == 'u' && all[2] == '0' && all[3] == '0');
            assert(unescaped(all) == Some(seq![c] + s.drop_first()));
        } else {
            assert(all.skip(1) =~= rest);
            assert(all[0] == c);
            assert(unescaped(all) == Some(seq![c] + s.drop_first()));
        }
    }
}

/// No control character stands in `s`.
pub open spec fn is_plain(s: Seq<char>) -> bool {
    forall|i: int| 0 <= i < s.len() ==> !is_control(#[trigger] s[i])
}

/// A JSON string holds no control character.
pub proof fn lemma_quoted_is_plain(s: Seq<char>)
    ensures
        is_plain(escaped(s)),
        is_plain(quoted(s)),
    decreases s.len(),
{
    if s.len() > 0 {
        lemma_quoted_is_plain(s.drop_first());
        let c = s[0];
        if is_control(c) {
            lemma_four_digits(c as nat);
        }
        assert(is_plain(escape_of(c)));
    }
}

/// A character that is not written as it is.
pub open spec fn is_special(c: char) -> bool {
    c == '"' || c == '\\' || is_control(c)
}

/// Escaping goes text by text.
proof fn lemma_escaped_join(s: Seq<char>, t: Seq<char>)
    ensures
        escaped(s + t) == escaped(s) + escaped(t),
    decreases s.len(),
{
    if s.len() == 0 {
        assert(s + t =~= t);
        assert(escaped(s) + escaped(t) =~= escaped(t));
    } else {
        assert((s + t).drop_first() =~= s.drop_first() + t);
        lemma_escaped_join(s.drop_first(), t);
        assert(escaped(s + t) =~= escaped(s) + escaped(t));
    }
}

/// Text without special characters is written as it is.
proof fn lemma_escaped_keeps(s: Seq<char>)
    requires
        forall|i: int| 0 <= i < s.len() ==> !is_special(#[trigger] s[i]),
    ensures
        escaped(s) == s,
    decreases s.len(),
{
    if s.len() > 0 {
        let t = s.drop_first();
        assert forall|i: int| 0 <= i < t.len() implies !is_special(#[trigger] t[i]) by {
            assert(t[i] == s[i + 1]);
        }
        lemma_escaped_keeps(t);
        assert(!is_special(s[0]));
        assert(escaped(s) =~= s);
    } else {
        assert(escaped(s) =~= s);
    }
}

/// Escaping is safe, and takes no more than it must. The escaped text holds no
/// control character, and no quote or backslash that does not belong to an
/// escape: it can be read, and reads back as the text. Quotes, backslashes and
/// control characters are escaped one by one; runs of other characters are
/// copied.
pub proof fn law_escaping(before: Seq<char>, run: Seq<char>, after: Seq<char>)
    ensures
        is_plain(escaped(run)),
        unescaped(escaped(run)) == Some(run),
        escaped(before + run + after) == escaped(before) + escaped(run) + escaped(after),
        run.len() == 1 ==> escaped(run) == escape_of(run[0]),
        (forall|i: int| 0 <= i < run.len() ==> !is_special(#[trigger] run[i])) ==> escaped(run)
            == run,
{
    lemma_quoted_is_plain(run);
    law_strings_read_back(run);
    lemma_escaped_join(before + run, after);
    lemma_escaped_join(before, run);
    if run.len() == 1 {
        assert(run.drop_first() =~= Seq::empty());
        assert(escaped(run.drop_first()) == Seq::<char>::empty());
        assert(escaped(run) =~= escape_of(run[0]));
    }
    if forall|i: int| 0 <= i < run.len() ==> !is_special(#[trigger] run[i]) {
        lemma_escaped_keeps(run);
    }
}

/// Digits are no control characters.
proof fn lemma_decimal_is_plain(n: nat)
    ensures
        is_plain(text::decimal(n)),
    decreases n,
{
    if n >= 10 {
        lemma_decimal_is_plain(n / 10);
    }
}

/// What is left of a plain text is plain.
proof fn lemma_trimmed_is_plain(s: Seq<char>, c: char)
    requires
        is_plain(s),
    ensures
        is_plain(without_trailing(s, c)),
    decreases s.len(),
{
    if s.len() > 0 && s.last() == c {
        assert(is_plain(s.drop_last()));
        lemma_trimmed_is_plain(s.drop_last(), c);
    }
}

/// The text of a float, if there is one, is plain.
pub open spec fn is_plain_value(v: JsonView) -> bool {
    v matches JsonView::F64(Some(t)) ==> is_plain(t)
}

proof fn lemma_value_is_plain(v: JsonView)
    requires
        is_plain_value(v),
    ensures
        is_plain(v.text()),
{
    reveal_strlit("null");
    reveal_strlit("true");
    reveal_strlit("false");
    match v {
        JsonView::U64(n) => {
            lemma_decimal_is_plain(n as nat);
        },
        JsonView::I64(n) => {
            if n < 0 {
                lemma_decimal_is_plain((-n) as nat);
            } else {
                lemma_decimal_is_plain(n as nat);
            }
        },
        JsonView::F64(Some(t)) => {
            lemma_trimmed_is_plain(t, '0');
            lemma_trimmed_is_plain(without_trailing(t, '0'), '.');
        },
        JsonView::Str(s) => {
            lemma_quoted_is_plain(s);
        },
        _ => {},
    }
}

proof fn lemma_fields_are_plain(fields: Seq<(Seq<char>, JsonView)>, n: nat)
    requires
        n <= fields.len(),
        forall|i: int| 0 <= i < fields.len() ==> is_plain_value((#[trigger] fields[i]).1),
    ensures
        is_plain(fields_text(fields, n)),
    decreases n,
{
    if n > 0 {
        lemma_fields_are_plain(fields, (n - 1) as nat);
        lemma_quoted_is_plain(fields[n - 1].0);
        lemma_value_is_plain(fields[n - 1].1);
        assert(is_plain(pair_text(fields[n - 1].0, fields[n - 1].1)));
    }
}

/// One event is one line: whatever the event and the fields hold, the only
/// line break is the one at the end.
pub proof fn law_one_line_per_event(
    ts_ms: u64,
    event: Seq<char>,
    fields: Seq<(Seq<char>, JsonView)>,
)
    requires
        forall|i: int| 0 <= i < fields.len() ==> is_plain_value((#[trigger] fields[i]).1),
    ensures
        line_text(ts_ms, event, fields).last() == '\n',
        is_plain(line_text(ts_ms, event, fields).drop_last()),
{
    lemma_quoted_is_plain("ts_ms"@);
    lemma_quoted_is_plain("event"@);
    lemma_quoted_is_plain(event);
    lemma_decimal_is_plain(ts_ms as nat);
    lemma_fields_are_plain(fields, fields.len());
    let head = seq!['{'] + (quoted("ts_ms"@) + seq![':'] + text::decimal(ts_ms as nat)) + seq![',']
        + (quoted("event"@) + seq![':'] + quoted(event));
    assert(is_plain(head));
    let body = head + fields_text(fields, fields.len());
    assert(is_plain(body));
    assert(line_text(ts_ms, event, fields).drop_last() =~= body + seq!['}']);
}

/// What is left of a text without trailing characters: the text but for a run of
/// these, and it does not end in one.
pub proof fn law_trailing_characters_go(s: Seq<char>, c: char)
    ensures
        ({
            let t = without_trailing(s, c);
            &&& t.len() <= s.len() && t == s.take(t.len() as int)
            &&& forall|i: int| t.len() <= i < s.len() ==> #[trigger] s[i] == c
            &&& t.len() > 0 ==> t.last() != c
        }),
    decreases s.len(),
{
    let t = without_trailing(s, c);
    if s.len() > 0 && s.last() == c {
        law_trailing_characters_go(s.drop_last(), c);
        assert(t =~= s.take(t.len() as int));
        assert forall|i: int| t.len() <= i < s.len() implies #[trigger] s[i] == c by {
            if i < s.len() - 1 {
                assert(s.drop_last()[i] == s[i]);
            }
        }
    } else {
        assert(t =~= s.take(t.len() as int));
    }
}

/// Trailing characters go whatever stands before them.
proof fn lemma_trailing_run(s: Seq<char>, c: char, k: nat)
    requires
        s.len() > 0 ==> s.last() != c,
    ensures
        without_trailing(s + Seq::new(k, |i: int| c), c) == s,
    decreases k,
{
    let run = Seq::new(k, |i: int| c);
    if k == 0 {
        assert(s + run =~= s);
    } else {
        let less = Seq::new((k - 1) as nat, |i: int| c);
        assert((s + run).drop_last() =~= s + less);
        lemma_trailing_run(s, c, (k - 1) as nat);
    }
}

/// A number with decimals loses the zeros at its end, and the point where nothing is
/// left behind it, and nothing else. `whole` is what stands before the point and
/// `part` what stands behind it, without the `zeros` zeros at the end.
pub proof fn law_numbers_are_shortened(whole: Seq<char>, part: Seq<char>, zeros: nat)
    requires
        whole.len() > 0,
        whole.last() != '.',
        whole != seq!['-'],
        part.len() > 0 ==> part.last() != '0' && part.last() != '.',
    ensures
        shortened(whole + seq!['.'] + part + Seq::new(zeros, |i: int| '0')) == if part.len() > 0 {
            whole + seq!['.'] + part
        } else {
            whole
        },
{
    let a = whole + seq!['.'] + part;
    let s = a + Seq::new(zeros, |i: int| '0');
    if part.len() > 0 {
        assert(a.last() == part.last());
        lemma_trailing_run(a, '0', zeros);
        assert(a.len() >= 3);
    } else {
        assert(a.last() == '.');
        lemma_trailing_run(a, '0', zeros);
        lemma_trailing_run(whole, '.', 1);
        assert(a =~= whole + Seq::new(1, |i: int| '.'));
    }
}

/// Values are written as JSON has them: a number in decimal, with a minus sign where
/// it is below zero; a text between quotes; and `null` also for a float that is not
/// finite.
pub proof fn law_values_are_json(n: u64, i: i64, b: bool, t: Seq<char>)
    ensures
        text::spelled(JsonView::U64(n).text()) == n,
        i >= 0 ==> text::spelled(JsonView::I64(i).text()) == i,
        i < 0 ==> JsonView::I64(i).text()[0] == '-' && text::spelled(
            JsonView::I64(i).text().drop_first(),
        ) == -i,
        JsonView::Bool(true).text() == "true"@ && JsonView::Bool(false).text() == "false"@,
        JsonView::Null.text() == "null"@ && JsonView::F64(None).text() == "null"@,
        JsonView::Str(t).text() == seq!['"'] + escaped(t) + seq!['"'],
{
    text::law_decimal_spells_the_number(n as nat);
    if i >= 0 {
        text::law_decimal_spells_the_number(i as nat);
    } else {
        text::law_decimal_spells_the_number((-i) as nat);
        assert(JsonView::I64(i).text().drop_first() =~= text::decimal((-i) as nat));
    }
}

/// A line is an object of the time, the event and the fields, in their order: one
/// more field adds itself before the closing brace, behind a comma, and changes
/// nothing else.
pub proof fn law_lines_are_objects(
    ts_ms: u64,
    event: Seq<char>,
    fields: Seq<(Seq<char>, JsonView)>,
    key: Seq<char>,
    val: JsonView,
)
    ensures
        line_text(ts_ms, event, Seq::empty()) == "{\"ts_ms\":"@ + text::decimal(ts_ms as nat)
            + ",\"event\":\""@ + escaped(event) + "\"}\n"@,
        ({
            let before = line_text(ts_ms, event, fields);
            line_text(ts_ms, event, fields.push((key, val))) == before.take(before.len() - 2)
                + ",\""@ + escaped(key) + "\":"@ + val.text() + "}\n"@
        }),
{
    reveal_strlit("{\"ts_ms\":");
    reveal_strlit(",\"event\":\"");
    reveal_strlit("\"}\n");
    reveal_strlit(",\"");
    reveal_strlit("\":");
    reveal_strlit("}\n");
    reveal_strlit("ts_ms");
    reveal_strlit("event");
    lemma_plain_is_copied("ts_ms"@);
    lemma_plain_is_copied("event"@);
    let none = Seq::<(Seq<char>, JsonView)>::empty();
    assert(fields_text(none, 0) =~= Seq::<char>::empty());
    assert(line_text(ts_ms, event, none) =~= "{\"ts_ms\":"@ + text::decimal(ts_ms as nat)
        + ",\"event\":\""@ + escaped(event) + "\"}\n"@);
    let more = fields.push((key, val));
    lemma_fields_of_a_longer_list(fields, (key, val), fields.len());
    let before = line_text(ts_ms, event, fields);
    assert(line_text(ts_ms, event, more) =~= before.take(before.len() - 2) + ",\""@ + escaped(key)
        + "\":"@ + val.text() + "}\n"@);
}

proof fn lemma_plain_is_copied(s: Seq<char>)
    requires
        forall|i: int| 0 <= i < s.len() ==> !is_special(#[trigger] s[i]),
    ensures
        escaped(s) == s,
{
    law_escaping(Seq::empty(), s, Seq::empty());
}

proof fn lemma_fields_of_a_longer_list(
    fields: Seq<(Seq<char>, JsonView)>,
    f: (Seq<char>, JsonView),
    n: nat,
)
    requires
        n <= fields.len(),
    ensures
        fields_text(fields.push(f), n) == fields_text(fields, n),
    decreases n,
{
    if n > 0 {
        lemma_fields_of_a_longer_list(fields, f, (n - 1) as nat);
    }
}

/// How each character is written: a quote, a backslash, and the common line ends and
/// tabs behind a backslash; any other control character by its code in four
/// hexadecimal digits; and all others as they are.
pub proof fn law_escapes_by_character(c: char)
    ensures
        ({
            let e = escape_of(c);
            let n = c as int;
            &&& c == '"' ==> e == seq!['\\', '"']
            &&& c == '\\' ==> e == seq!['\\', '\\']
            &&& n == 10 ==> e == seq!['\\', 'n']
            &&& n == 13 ==> e == seq!['\\', 'r']
            &&& n == 9 ==> e == seq!['\\', 't']
            &&& (n < 32 || 127 <= n <= 159) && n != 9 && n != 10 && n != 13 ==> e.len() == 6 && e[0]
                == '\\' && e[1] == 'u' && e.skip(2) == text::hex(c as nat, 4)
            &&& n >= 32 && !(127 <= n <= 159) && c != '"' && c != '\\' ==> e == seq![c]
        }),
{
    text::law_hex_spells_the_number(c as nat, 4);
    let digits = text::hex(c as nat, 4);
    assert((seq!['\\', 'u'] + digits).skip(2) =~= digits);
}

} // verus!
