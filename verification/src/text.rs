//! Text: numbers in decimal and hexadecimal, characters and words.

use vstd::prelude::*;

verus! {

/// `std::string::String::push`: the string gains the character at its end.
pub assume_specification[ String::push ](s: &mut String, ch: char)
    ensures
        final(s)@ == old(s)@.push(ch),
;

/// The character of the decimal digit `d`.
pub open spec fn digit_char(d: nat) -> char {
    ('0' as nat + d) as char
}

/// `n` in decimal, without leading zeros.
pub open spec fn decimal(n: nat) -> Seq<char>
    decreases n,
{
    if n < 10 {
        seq![digit_char(n)]
    } else {
        decimal(n / 10).push(digit_char(n % 10))
    }
}

fn digit_to_char(d: u64) -> (c: char)
    requires
        d < 10,
    ensures
        c == digit_char(d as nat),
{
    (48 + d as u8) as char
}

/// Appends `n` in decimal.
pub fn push_decimal(out: &mut String, n: u64)
    ensures
        final(out)@ == old(out)@ + decimal(n as nat),
    decreases n,
{
    if n >= 10 {
        push_decimal(out, n / 10);
    }
    out.push(digit_to_char(n % 10));
    assert(out@ =~= old(out)@ + decimal(n as nat));
}

/// Appends `n` in decimal.
pub fn push_decimal_wide(out: &mut String, n: u128)
    ensures
        final(out)@ == old(out)@ + decimal(n as nat),
    decreases n,
{
    if n >= 10 {
        push_decimal_wide(out, n / 10);
    }
    out.push(digit_to_char((n % 10) as u64));
    assert(out@ =~= old(out)@ + decimal(n as nat));
}

/// The character of the hexadecimal digit `d`, in lower case.
pub open spec fn hex_char(d: nat) -> char {
    if d < 10 {
        ('0' as nat + d) as char
    } else {
        ('a' as nat + d - 10) as char
    }
}

/// The `n` low hexadecimal digits of `v`, with leading zeros.
pub open spec fn hex(v: nat, n: nat) -> Seq<char>
    decreases n,
{
    if n == 0 {
        Seq::empty()
    } else {
        hex(v / 16, (n - 1) as nat).push(hex_char(v % 16))
    }
}

/// Appends the `n` low hexadecimal digits of `v`.
pub fn push_hex(out: &mut String, v: u32, n: u32)
    ensures
        final(out)@ == old(out)@ + hex(v as nat, n as nat),
    decreases n,
{
    if n > 0 {
        push_hex(out, v / 16, n - 1);
        let d: u8 = (v % 16) as u8;
        out.push(
            if d < 10 {
                (48 + d) as char
            } else {
                (87 + d) as char
            },
        );
    }
    assert(out@ =~= old(out)@ + hex(v as nat, n as nat));
}

/// Why a text is no number of the wanted range.
#[derive(Debug, Clone, Copy, PartialEq, Eq, Structural)]
pub enum ParseIntError {
    /// The text is empty.
    Empty,
    /// A character is no digit.
    InvalidDigit,
    /// The number is above the range.
    PosOverflow,
}

impl ParseIntError {
    /// The error in words.
    pub open spec fn spec_message(self) -> Seq<char> {
        match self {
            ParseIntError::Empty => "cannot parse integer from empty string"@,
            ParseIntError::InvalidDigit => "invalid digit found in string"@,
            ParseIntError::PosOverflow => "number too large to fit in target type"@,
        }
    }

    /// The error in words.
    pub fn message(self) -> (r: &'static str)
        ensures
            r@ == self.spec_message(),
    {
        match self {
            ParseIntError::Empty => "cannot parse integer from empty string",
            ParseIntError::InvalidDigit => "invalid digit found in string",
            ParseIntError::PosOverflow => "number too large to fit in target type",
        }
    }
}

pub open spec fn is_digit(c: char) -> bool {
    '0' <= c <= '9'
}

pub open spec fn digit_value(c: char) -> nat {
    (c as int - '0' as int) as nat
}

/// Reads the digits `s` behind the number `acc`, up to `max`. The first
/// character that cannot be taken decides the error.
pub open spec fn parsed_digits(s: Seq<char>, acc: nat, max: nat) -> Result<nat, ParseIntError>
    decreases s.len(),
{
    if s.len() == 0 {
        Ok(acc)
    } else if !is_digit(s[0]) {
        Err(ParseIntError::InvalidDigit)
    } else if acc * 10 + digit_value(s[0]) > max {
        Err(ParseIntError::PosOverflow)
    } else {
        parsed_digits(s.drop_first(), acc * 10 + digit_value(s[0]), max)
    }
}

/// The number in `0..=max` that `s` spells: decimal digits, with or without
/// a plus sign in front.
pub open spec fn parsed(s: Seq<char>, max: nat) -> Result<nat, ParseIntError> {
    if s.len() == 0 {
        Err(ParseIntError::Empty)
    } else if s[0] == '+' && s.len() > 1 {
        parsed_digits(s.drop_first(), 0, max)
    } else {
        parsed_digits(s, 0, max)
    }
}

/// The characters of `s`.
pub fn chars_of(s: &str) -> (r: Vec<char>)
    ensures
        r@ == s@,
{
    let mut out: Vec<char> = Vec::new();
    for c in it: s.chars()
        invariant
            out@ == s@.take(it.index() as int),
            it.seq() == s@,
    {
        out.push(c);
        assert(out@ =~= s@.take(it.index() + 1));
    }
    assert(s@.take(s@.len() as int) =~= s@);
    out
}

/// Reads a number in `0..=max` from the characters `s`.
pub fn parse_chars(s: &[char], max: u64) -> (r: Result<u64, ParseIntError>)
    ensures
        match r {
            Ok(n) => parsed(s@, max as nat) == Ok::<nat, ParseIntError>(n as nat),
            Err(e) => parsed(s@, max as nat) == Err::<nat, ParseIntError>(e),
        },
{
    let n: usize = s.len();
    if n == 0 {
        return Err(ParseIntError::Empty);
    }
    let mut i: usize = 0;
    if s[0] == '+' && n > 1 {
        i = 1;
    }
    let mut acc: u64 = 0;
    assert(s@.skip(0) =~= s@);
    assert(s@.skip(1) =~= s@.drop_first());
    while i < n
        invariant
            i <= n == s@.len(),
            acc <= max,
            parsed(s@, max as nat) == parsed_digits(s@.skip(i as int), acc as nat, max as nat),
        decreases n - i,
    {
        let c: char = s[i];
        proof {
            assert(s@.skip(i as int)[0] == c);
            assert(s@.skip(i as int).drop_first() =~= s@.skip(i + 1));
        }
        if c < '0' || c > '9' {
            return Err(ParseIntError::InvalidDigit);
        }
        let d: u64 = c as u64 - 48;
        if d > max || acc > max / 10 || acc * 10 > max - d {
            return Err(ParseIntError::PosOverflow);
        }
        acc = acc * 10 + d;
        i += 1;
    }
    Ok(acc)
}

/// Reads a number in `0..=max`.
pub fn parse_number(s: &str, max: u64) -> (r: Result<u64, ParseIntError>)
    ensures
        match r {
            Ok(n) => parsed(s@, max as nat) == Ok::<nat, ParseIntError>(n as nat),
            Err(e) => parsed(s@, max as nat) == Err::<nat, ParseIntError>(e),
        },
{
    let chars: Vec<char> = chars_of(s);
    parse_chars(chars.as_slice(), max)
}

/// Appends the characters `chars[from..to]`.
pub fn push_chars(out: &mut String, chars: &[char], from: usize, to: usize)
    requires
        from <= to <= chars@.len(),
    ensures
        final(out)@ == old(out)@ + chars@.subrange(from as int, to as int),
{
    let mut i: usize = from;
    assert(chars@.subrange(from as int, from as int) =~= Seq::empty());
    assert(out@ + Seq::<char>::empty() =~= out@);
    while i < to
        invariant
            from <= i <= to <= chars@.len(),
            out@ == old(out)@ + chars@.subrange(from as int, i as int),
        decreases to - i,
    {
        out.push(chars[i]);
        i += 1;
        assert(out@ =~= old(out)@ + chars@.subrange(from as int, i as int));
    }
}

/// The string with the characters `chars[from..to]`.
pub fn string_of(chars: &[char], from: usize, to: usize) -> (r: String)
    requires
        from <= to <= chars@.len(),
    ensures
        r@ == chars@.subrange(from as int, to as int),
{
    let mut out: String = String::new();
    push_chars(&mut out, chars, from, to);
    assert(Seq::<char>::empty() + chars@.subrange(from as int, to as int) =~= chars@.subrange(
        from as int,
        to as int,
    ));
    out
}

/// Where `c` first occurs in `s`.
pub open spec fn first_index(s: Seq<char>, c: char) -> Option<nat>
    decreases s.len(),
{
    if s.len() == 0 {
        None
    } else if s[0] == c {
        Some(0)
    } else {
        match first_index(s.drop_first(), c) {
            Some(i) => Some(i + 1),
            None => None,
        }
    }
}

/// How often `c` occurs in `s`.
pub open spec fn occurrences(s: Seq<char>, c: char) -> nat
    decreases s.len(),
{
    if s.len() == 0 {
        0
    } else {
        occurrences(s.drop_first(), c) + if s[0] == c {
            1nat
        } else {
            0nat
        }
    }
}

/// Where `c` first occurs in `s[from..]`, as a position in `s`.
pub fn find_char(s: &[char], from: usize, c: char) -> (r: Option<usize>)
    requires
        from <= s@.len(),
    ensures
        match r {
            Some(i) => from <= i < s@.len() && first_index(s@.skip(from as int), c) == Some(
                (i - from) as nat,
            ),
            None => first_index(s@.skip(from as int), c) is None,
        },
{
    let n: usize = s.len();
    let mut i: usize = from;
    while i < n
        invariant
            from <= i <= n == s@.len(),
            first_index(s@.skip(from as int), c) == (match first_index(s@.skip(i as int), c) {
                Some(k) => Some(k + (i - from) as nat),
                None => None,
            }),
        decreases n - i,
    {
        assert(s@.skip(i as int)[0] == s@[i as int]);
        if s[i] == c {
            return Some(i);
        }
        assert(s@.skip(i as int).drop_first() =~= s@.skip(i + 1));
        i += 1;
    }
    None
}

/// How often `c` occurs in `s`.
pub fn count_char(s: &[char], c: char) -> (r: usize)
    ensures
        r == occurrences(s@, c),
{
    let n: usize = s.len();
    let mut i: usize = 0;
    let mut count: usize = 0;
    assert(s@.skip(0) =~= s@);
    while i < n
        invariant
            i <= n == s@.len(),
            count <= i,
            occurrences(s@, c) == count + occurrences(s@.skip(i as int), c),
        decreases n - i,
    {
        assert(s@.skip(i as int)[0] == s@[i as int]);
        assert(s@.skip(i as int).drop_first() =~= s@.skip(i + 1));
        if s[i] == c {
            count += 1;
        }
        i += 1;
    }
    count
}

/// A first occurrence is an occurrence.
pub proof fn lemma_first_index(s: Seq<char>, c: char)
    ensures
        first_index(s, c) matches Some(i) ==> i < s.len() && s[i as int] == c,
        first_index(s, c) is None <==> occurrences(s, c) == 0,
    decreases s.len(),
{
    if s.len() > 0 {
        lemma_first_index(s.drop_first(), c);
    }
}

/// Reading a number written in decimal gives the number back.
pub proof fn law_parse_decimal(n: nat, max: nat)
    requires
        n <= max,
    ensures
        parsed(decimal(n), max) == Ok::<nat, ParseIntError>(n),
{
    lemma_decimal_is_digits(n);
    lemma_parse_prefix(n, Seq::empty(), max);
    assert(decimal(n) + Seq::<char>::empty() =~= decimal(n));
}

/// Reading a decimal number, then what follows it.
proof fn lemma_parse_prefix(n: nat, rest: Seq<char>, max: nat)
    requires
        n <= max,
    ensures
        parsed_digits(decimal(n) + rest, 0, max) == parsed_digits(rest, n, max),
    decreases n,
{
    if n < 10 {
        assert((decimal(n) + rest).drop_first() =~= rest);
        assert(digit_value(digit_char(n)) == n);
    } else {
        let last = digit_char(n % 10);
        lemma_parse_prefix(n / 10, seq![last] + rest, max);
        assert(decimal(n) + rest =~= decimal(n / 10) + (seq![last] + rest));
        assert((seq![last] + rest).drop_first() =~= rest);
        assert(digit_value(last) == n % 10);
    }
}

/// Every character of a decimal number is a digit.
pub proof fn lemma_decimal_is_digits(n: nat)
    ensures
        decimal(n).len() > 0,
        forall|i: int| 0 <= i < decimal(n).len() ==> is_digit(#[trigger] decimal(n)[i]),
    decreases n,
{
    if n >= 10 {
        lemma_decimal_is_digits(n / 10);
    }
}

/// What occurs nowhere is counted zero times.
pub proof fn lemma_no_occurrence(s: Seq<char>, c: char)
    requires
        forall|i: int| 0 <= i < s.len() ==> s[i] != c,
    ensures
        occurrences(s, c) == 0,
    decreases s.len(),
{
    if s.len() > 0 {
        lemma_no_occurrence(s.drop_first(), c);
    }
}

/// Whether `s` consists of the characters of `name`.
pub fn same_text(s: &str, name: &str) -> (r: bool)
    ensures
        r == (s@ == name@),
{
    let a: Vec<char> = chars_of(s);
    let b: Vec<char> = chars_of(name);
    if a.len() != b.len() {
        return false;
    }
    let mut i: usize = 0;
    while i < a.len()
        invariant
            i <= a@.len() == b@.len(),
            a@ == s@,
            b@ == name@,
            forall|k: int| 0 <= k < i ==> a@[k] == b@[k],
        decreases a@.len() - i,
    {
        if a[i] != b[i] {
            return false;
        }
        i += 1;
    }
    assert(s@ =~= name@);
    true
}

/// A white-space character, as Unicode has it.
pub open spec fn is_space(c: char) -> bool {
    ||| '\u{9}' <= c <= '\u{d}'
    ||| c == ' '
    ||| c == '\u{85}'
    ||| c == '\u{a0}'
    ||| c == '\u{1680}'
    ||| '\u{2000}' <= c <= '\u{200a}'
    ||| c == '\u{2028}'
    ||| c == '\u{2029}'
    ||| c == '\u{202f}'
    ||| c == '\u{205f}'
    ||| c == '\u{3000}'
}

/// Whether `c` is a white-space character.
pub fn is_whitespace(c: char) -> (r: bool)
    ensures
        r == is_space(c),
{
    ('\u{9}' <= c && c <= '\u{d}') || c == ' ' || c == '\u{85}' || c == '\u{a0}' || c == '\u{1680}'
        || ('\u{2000}' <= c && c <= '\u{200a}') || c == '\u{2028}' || c == '\u{2029}' || c
        == '\u{202f}' || c == '\u{205f}' || c == '\u{3000}'
}

/// How many characters of `s` come before the first that is (`space`) or is
/// not (`!space`) white space.
pub open spec fn run_len(s: Seq<char>, space: bool) -> nat
    decreases s.len(),
{
    if s.len() > 0 && is_space(s[0]) == space {
        1 + run_len(s.drop_first(), space)
    } else {
        0
    }
}

/// The runs of `s` between white space.
pub open spec fn words(s: Seq<char>) -> Seq<Seq<char>>
    decreases s.len(),
{
    let t = s.skip(run_len(s, true) as int);
    if run_len(s, true) >= s.len() {
        Seq::empty()
    } else {
        proof {
            lemma_run_len(s, true);
            lemma_run_len(t, false);
            assert(t[0] == s[run_len(s, true) as int]);
            assert(run_len(t, false) >= 1);
        }
        seq![t.take(run_len(t, false) as int)] + words(t.skip(run_len(t, false) as int))
    }
}

/// A run is part of the text, and ends where the text does or changes.
pub proof fn lemma_run_len(s: Seq<char>, space: bool)
    ensures
        run_len(s, space) <= s.len(),
        forall|i: int| 0 <= i < run_len(s, space) ==> is_space(#[trigger] s[i]) == space,
        run_len(s, space) < s.len() ==> is_space(s[run_len(s, space) as int]) != space,
    decreases s.len(),
{
    if s.len() > 0 && is_space(s[0]) == space {
        let rest = s.drop_first();
        lemma_run_len(rest, space);
        let n = run_len(rest, space);
        assert forall|i: int| 0 <= i < n + 1 implies is_space(#[trigger] s[i]) == space by {
            if i > 0 {
                assert(rest[i - 1] == s[i]);
            }
        }
        if n < rest.len() {
            assert(rest[n as int] == s[n as int + 1]);
        }
    }
}

/// The contents of a list of strings.
pub open spec fn string_views(v: Seq<String>) -> Seq<Seq<char>> {
    Seq::new(v.len(), |i: int| v[i]@)
}

/// Where the run from `from` on ends.
fn run_end(chars: &[char], from: usize, space: bool) -> (r: usize)
    requires
        from <= chars@.len(),
    ensures
        r == from + run_len(chars@.skip(from as int), space),
        from <= r <= chars@.len(),
{
    let n: usize = chars.len();
    let mut i: usize = from;
    while i < n && is_whitespace(chars[i]) == space
        invariant
            from <= i <= n == chars@.len(),
            run_len(chars@.skip(from as int), space) == (i - from) + run_len(
                chars@.skip(i as int),
                space,
            ),
        decreases n - i,
    {
        assert(chars@.skip(i as int)[0] == chars@[i as int]);
        assert(chars@.skip(i as int).drop_first() =~= chars@.skip(i + 1));
        i += 1;
    }
    if i < n {
        assert(chars@.skip(i as int)[0] == chars@[i as int]);
    }
    i
}

/// Splits a text at white space.
pub fn split_words(s: &str) -> (r: Vec<String>)
    ensures
        string_views(r@) == words(s@),
{
    let chars: Vec<char> = chars_of(s);
    let n: usize = chars.len();
    let mut out: Vec<String> = Vec::new();
    let mut i: usize = 0;
    assert(s@.skip(0) =~= s@);
    assert(string_views(out@) + words(s@) =~= words(s@));
    loop
        invariant
            i <= n == chars@.len(),
            chars@ == s@,
            words(s@) == string_views(out@) + words(s@.skip(i as int)),
        ensures
            words(s@) == string_views(out@),
        decreases n - i,
    {
        let ghost rest = s@.skip(i as int);
        let start: usize = run_end(chars.as_slice(), i, true);
        proof {
            assert(rest.skip(run_len(rest, true) as int) =~= s@.skip(start as int));
            lemma_run_len(rest, true);
        }
        if start == n {
            assert(words(rest) =~= Seq::empty());
            assert(string_views(out@) + words(rest) =~= string_views(out@));
            break;
        }
        let end: usize = run_end(chars.as_slice(), start, false);
        let ghost t = s@.skip(start as int);
        proof {
            assert(t[0] == s@[start as int]);
            assert(rest[run_len(rest, true) as int] == t[0]);
            assert(run_len(t, false) >= 1);
            assert(t.skip(run_len(t, false) as int) =~= s@.skip(end as int));
            assert(t.take(run_len(t, false) as int) =~= s@.subrange(start as int, end as int));
        }
        let ghost before = out@;
        out.push(string_of(chars.as_slice(), start, end));
        proof {
            assert(string_views(out@) =~= string_views(before).push(
                s@.subrange(start as int, end as int),
            ));
            assert(string_views(before) + (seq![s@.subrange(start as int, end as int)] + words(
                s@.skip(end as int),
            )) =~= string_views(out@) + words(s@.skip(end as int)));
        }
        i = end;
    }
    out
}

/// The number that digits spell, the highest first.
pub open spec fn spelled(s: Seq<char>) -> int {
    s.fold_left(0int, |a: int, c: char| 10 * a + (c as int - '0' as int))
}

/// The characters from 0 to 9 and no others.
pub open spec fn all_digits(s: Seq<char>) -> bool {
    forall|i: int|
        0 <= i < s.len() ==> '0' as int <= (#[trigger] s[i]) as int && s[i] as int <= '9' as int
}

proof fn lemma_spelled_push(s: Seq<char>, c: char)
    ensures
        spelled(s.push(c)) == 10 * spelled(s) + (c as int - '0' as int),
{
    reveal(Seq::fold_left);
    assert(s.push(c).drop_last() =~= s);
}

/// A number in decimal is made of digits, spells the number, and does not begin
/// with a zero unless it is one digit.
pub proof fn law_decimal_spells_the_number(n: nat)
    ensures
        spelled(decimal(n)) == n,
        decimal(n).len() > 0,
        forall|i: int|
            0 <= i < decimal(n).len() ==> '0' as int <= (#[trigger] decimal(n)[i]) as int
                && decimal(n)[i] as int <= '9' as int,
        n > 0 ==> decimal(n)[0] != '0',
        n == 0 ==> decimal(n) == seq!['0'],
    decreases n,
{
    reveal(Seq::fold_left);
    if n < 10 {
        assert(decimal(n) =~= Seq::<char>::empty().push(digit_char(n)));
        lemma_spelled_push(Seq::empty(), digit_char(n));
    } else {
        law_decimal_spells_the_number(n / 10);
        lemma_spelled_push(decimal(n / 10), digit_char(n % 10));
        lemma_decimal_is_digits(n);
    }
}

proof fn lemma_parsed_digits(s: Seq<char>, read: Seq<char>, max: nat)
    requires
        0 <= spelled(read) <= max,
    ensures
        ({
            let r = parsed_digits(s, spelled(read) as nat, max);
            let digits = all_digits(s);
            &&& r matches Ok(n) ==> digits && n == spelled(read + s) && n <= max
            &&& r is Err && digits ==> spelled(read + s) > max && r->Err_0
                == ParseIntError::PosOverflow
            &&& r matches Err(e) ==> e == ParseIntError::PosOverflow || e
                == ParseIntError::InvalidDigit && !digits
        }),
    decreases s.len(),
{
    if s.len() == 0 {
        assert(read + s =~= read);
    } else if is_digit(s[0]) {
        let next = read.push(s[0]);
        lemma_spelled_push(read, s[0]);
        assert(next + s.drop_first() =~= read + s);
        if spelled(next) <= max {
            lemma_parsed_digits(s.drop_first(), next, max);
            if all_digits(s.drop_first()) {
                assert forall|i: int| 0 <= i < s.len() implies '0' as int <= (#[trigger] s[i]) as int
                    && s[i] as int <= '9' as int by {
                    if i > 0 {
                        assert(s[i] == s.drop_first()[i - 1]);
                    }
                }
            }
        } else {
            if all_digits(s) {
                lemma_spelled_grows(next, s.drop_first());
            }
        }
    } else {
        assert(!('0' as int <= s[0] as int && s[0] as int <= '9' as int));
    }
}

/// More digits make no smaller number.
proof fn lemma_spelled_grows(read: Seq<char>, s: Seq<char>)
    requires
        spelled(read) >= 0,
        forall|i: int|
            0 <= i < s.len() ==> '0' as int <= (#[trigger] s[i]) as int && s[i] as int <= '9' as int,
    ensures
        spelled(read + s) >= spelled(read),
    decreases s.len(),
{
    if s.len() == 0 {
        assert(read + s =~= read);
    } else {
        let t = s.drop_last();
        lemma_spelled_grows(read, t);
        lemma_spelled_push(read + t, s.last());
        assert((read + t).push(s.last()) =~= read + s);
    }
}

/// A text is a number exactly where it is made of digits, at least one, with or
/// without a plus sign in front, and what these spell is in range; it is then the
/// number that they spell. The error tells an empty text, another character, and
/// a number that is too large apart; of the last two, whichever comes first.
pub proof fn law_what_is_a_number(s: Seq<char>, max: nat)
    ensures
        ({
            let d = if s.len() > 1 && s[0] == '+' {
                s.drop_first()
            } else {
                s
            };
            let digits = all_digits(d);
            &&& parsed(s, max) is Ok <==> d.len() > 0 && digits && spelled(d) <= max
            &&& parsed(s, max) matches Ok(n) ==> n == spelled(d)
            &&& s.len() == 0 <==> parsed(s, max) == Err::<nat, ParseIntError>(ParseIntError::Empty)
            &&& s.len() > 0 && digits && spelled(d) > max ==> parsed(s, max) == Err::<
                nat,
                ParseIntError,
            >(ParseIntError::PosOverflow)
            &&& parsed(s, max) == Err::<nat, ParseIntError>(ParseIntError::InvalidDigit) ==> !digits
        }),
{
    reveal(Seq::fold_left);
    let e = Seq::<char>::empty();
    let d = if s.len() > 1 && s[0] == '+' {
        s.drop_first()
    } else {
        s
    };
    assert(spelled(e) == 0);
    lemma_parsed_digits(d, e, max);
    assert(e + d =~= d);
}

proof fn lemma_run_of(w: Seq<char>, rest: Seq<char>, space: bool)
    requires
        forall|i: int| 0 <= i < w.len() ==> is_space(#[trigger] w[i]) == space,
        rest.len() > 0 ==> is_space(rest[0]) != space,
    ensures
        run_len(w + rest, space) == w.len(),
    decreases w.len(),
{
    if w.len() == 0 {
        assert(w + rest =~= rest);
    } else {
        assert((w + rest).drop_first() =~= w.drop_first() + rest);
        assert forall|i: int| 0 <= i < w.drop_first().len() implies is_space(
            #[trigger] w.drop_first()[i],
        ) == space by {
            assert(w.drop_first()[i] == w[i + 1]);
        }
        lemma_run_of(w.drop_first(), rest, space);
    }
}

/// Words are what white space parts: white space in front is passed over, and a
/// stretch without any, up to the next white space or the end, is the first word.
pub proof fn law_words_are_parted_by_space(w: Seq<char>, c: char, rest: Seq<char>)
    requires
        is_space(c),
    ensures
        words(Seq::<char>::empty()) == Seq::<Seq<char>>::empty(),
        words(seq![c] + rest) == words(rest),
        w.len() > 0 && (forall|i: int| 0 <= i < w.len() ==> !is_space(#[trigger] w[i])) ==> words(w)
            == seq![w] && words(w + seq![c] + rest) == seq![w] + words(rest),
{
    lemma_run_len(rest, true);
    let a = seq![c] + rest;
    assert(a.drop_first() =~= rest);
    assert(run_len(a, true) == 1 + run_len(rest, true));
    assert(a.skip(run_len(a, true) as int) =~= rest.skip(run_len(rest, true) as int));
    assert(words(a) == words(rest));
    if w.len() > 0 && (forall|i: int| 0 <= i < w.len() ==> !is_space(#[trigger] w[i])) {
        lemma_run_of(w, Seq::empty(), false);
        assert(w + Seq::<char>::empty() =~= w);
        assert(!is_space(w[0]));
        assert(run_len(w, true) == 0);
        assert(w.skip(0) =~= w);
        assert(w.take(w.len() as int) =~= w);
        assert(w.skip(w.len() as int) =~= Seq::<char>::empty());
        assert(words(Seq::<char>::empty()) =~= Seq::<Seq<char>>::empty());
        let b = w + a;
        lemma_run_of(w, a, false);
        assert(b =~= w + seq![c] + rest);
        assert(b[0] == w[0]);
        assert(run_len(b, true) == 0);
        assert(b.skip(0) =~= b);
        assert(b.take(w.len() as int) =~= w);
        assert(b.skip(w.len() as int) =~= a);
        assert(words(b) =~= seq![w] + words(a));
        assert(words(w) =~= seq![w]);
    }
}

/// White space by its codes: blanks, tabs and line ends, and what Unicode adds to
/// these. The visible characters of ASCII are none.
pub proof fn law_what_is_space(c: char)
    ensures
        is_space(c) <==> ({
            let n = c as int;
            ||| 9 <= n <= 13
            ||| n == 32
            ||| n == 0x85
            ||| n == 0xa0
            ||| n == 0x1680
            ||| 0x2000 <= n <= 0x200a
            ||| n == 0x2028
            ||| n == 0x2029
            ||| n == 0x202f
            ||| n == 0x205f
            ||| n == 0x3000
        }),
        c == ' ' || c == '\t' || c == '\n' || c == '\r' ==> is_space(c),
        '!' as int <= c as int <= '~' as int ==> !is_space(c),
{
}

/// The first index is that of an occurrence with none before it, and there is one
/// wherever the character occurs.
pub proof fn law_first_index_is_the_first(s: Seq<char>, c: char)
    ensures
        first_index(s, c) is Some <==> s.contains(c),
        first_index(s, c) matches Some(k) ==> k < s.len() && s[k as int] == c && forall|i: int|
            0 <= i < k ==> s[i] != c,
        occurrences(s, c) == s.filter(|x: char| x == c).len(),
    decreases s.len(),
{
    let same = |x: char| x == c;
    if s.len() == 0 {
        reveal(Seq::filter);
    } else {
        let t = s.drop_first();
        law_first_index_is_the_first(t, c);
        assert(s =~= seq![s[0]] + t);
        assert(seq![s[0]].filter(same).len() == if s[0] == c {
            1nat
        } else {
            0nat
        }) by {
            reveal(Seq::filter);
            assert(seq![s[0]].drop_last() =~= Seq::<char>::empty());
            assert(Seq::<char>::empty().filter(same).len() == 0);
        }
        Seq::filter_distributes_over_add(seq![s[0]], t, same);
        if s[0] != c {
            if s.contains(c) {
                let i = choose|i: int| 0 <= i < s.len() && s[i] == c;
                assert(t[i - 1] == c);
            }
            match first_index(t, c) {
                Some(k) => {
                    assert(s[k as int + 1] == t[k as int]);
                    assert forall|i: int| 0 <= i < k + 1 implies s[i] != c by {
                        if i > 0 {
                            assert(s[i] == t[i - 1]);
                        }
                    }
                },
                None => {},
            }
        } else {
            assert(s[0] == c);
        }
    }
}

/// Hexadecimal digits: as many as asked for, from 0 to f in lower case, which
/// spell the low part of the number, the highest first.
pub proof fn law_hex_spells_the_number(v: nat, n: nat)
    ensures
        hex(v, n).len() == n,
        forall|i: int|
            0 <= i < n ==> {
                let c = #[trigger] hex(v, n)[i] as int;
                '0' as int <= c <= '9' as int || 'a' as int <= c <= 'f' as int
            },
        n > 0 ==> hex(v, n).drop_last() == hex(v / 16, (n - 1) as nat),
        n > 0 ==> v % 16 == if hex(v, n)[n - 1] as int <= '9' as int {
            hex(v, n)[n - 1] as int - '0' as int
        } else {
            hex(v, n)[n - 1] as int - 'a' as int + 10
        },
    decreases n,
{
    if n > 0 {
        law_hex_spells_the_number(v / 16, (n - 1) as nat);
        assert(hex(v, n).drop_last() =~= hex(v / 16, (n - 1) as nat));
        assert forall|i: int| 0 <= i < n implies {
            let c = #[trigger] hex(v, n)[i] as int;
            '0' as int <= c <= '9' as int || 'a' as int <= c <= 'f' as int
        } by {
            if i < n - 1 {
                assert(hex(v, n)[i] == hex(v / 16, (n - 1) as nat)[i]);
            }
        }
    }
}

/// A zero in front changes no number.
pub proof fn lemma_leading_zero(d: Seq<char>)
    ensures
        spelled(seq!['0'] + d) == spelled(d),
    decreases d.len(),
{
    reveal(Seq::fold_left);
    if d.len() == 0 {
        assert(seq!['0'] + d =~= Seq::<char>::empty().push('0'));
        lemma_spelled_push(Seq::empty(), '0');
    } else {
        lemma_leading_zero(d.drop_last());
        lemma_spelled_push(seq!['0'] + d.drop_last(), d.last());
        lemma_spelled_push(d.drop_last(), d.last());
        assert((seq!['0'] + d.drop_last()).push(d.last()) =~= seq!['0'] + d);
        assert(d.drop_last().push(d.last()) =~= d);
    }
}

} // verus!
