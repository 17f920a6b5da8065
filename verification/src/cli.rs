//! The command line: the `DURATION` argument's grammar and the `--break` flag.
use vstd::prelude::*;
use vstd::string::StringExecFns;

use crate::time::{Duration, NANOS_PER_SEC};

verus! {

// ---------------------------------------------------------------------------
// Characters
// ---------------------------------------------------------------------------

/// Whether `c` has the Unicode `White_Space` property (what `char::is_whitespace` tests).
pub open spec fn is_unicode_whitespace(c: char) -> bool {
    let u = c as u32;
    ||| (0x09 <= u && u <= 0x0D)
    ||| u == 0x20
    ||| u == 0x85
    ||| u == 0xA0
    ||| u == 0x1680
    ||| (0x2000 <= u && u <= 0x200A)
    ||| u == 0x2028
    ||| u == 0x2029
    ||| u == 0x202F
    ||| u == 0x205F
    ||| u == 0x3000
}

/// Whether `c` is one of the ASCII digits `0`..`9`.
pub open spec fn is_ascii_digit(c: char) -> bool {
    '0' <= c && c <= '9'
}

/// Whether `c` is an ASCII character.
pub open spec fn is_ascii_char(c: char) -> bool {
    (c as u32) < 128
}

/// `c` with the ASCII letters `A`..`Z` mapped to `a`..`z`.
pub open spec fn ascii_lower(c: char) -> char {
    if 'A' <= c && c <= 'Z' {
        ((c as u32) + 32) as char
    } else {
        c
    }
}

/// `s` without its leading whitespace.
pub open spec fn trim_start(s: Seq<char>) -> Seq<char>
    decreases s.len(),
{
    if s.len() > 0 && is_unicode_whitespace(s[0]) {
        trim_start(s.drop_first())
    } else {
        s
    }
}

/// `s` without its trailing whitespace.
pub open spec fn trim_end(s: Seq<char>) -> Seq<char>
    decreases s.len(),
{
    if s.len() > 0 && is_unicode_whitespace(s.last()) {
        trim_end(s.drop_last())
    } else {
        s
    }
}

/// `s` without whitespace at either end, as `str::trim` gives it.
pub open spec fn trim(s: Seq<char>) -> Seq<char> {
    trim_end(trim_start(s))
}

/// `s` with its ASCII letters in lower case, as `str::to_ascii_lowercase` gives it.
pub open spec fn to_ascii_lowercase(s: Seq<char>) -> Seq<char> {
    s.map_values(|c: char| ascii_lower(c))
}

/// Whether `c` is whitespace.
pub fn char_is_whitespace(c: char) -> (b: bool)
    ensures
        b == is_unicode_whitespace(c),
{
    let u = c as u32;
    (0x09 <= u && u <= 0x0D) || u == 0x20 || u == 0x85 || u == 0xA0 || u == 0x1680 || (0x2000
        <= u && u <= 0x200A) || u == 0x2028 || u == 0x2029 || u == 0x202F || u == 0x205F || u
        == 0x3000
}

/// The characters of `s`, in order.
pub fn chars_of(s: &str) -> (v: Vec<char>)
    ensures
        v@ == s@,
{
    let mut v: Vec<char> = Vec::new();
    for c in it: s.chars()
        invariant
            v@ == it.seq().take(it.index() as int),
            it.seq() == s@,
    {
        v.push(c);
    }
    v
}

proof fn lemma_trim_start_skip(s: Seq<char>, i: int)
    requires
        0 <= i <= s.len(),
        forall|j: int| 0 <= j < i ==> is_unicode_whitespace(#[trigger] s[j]),
    ensures
        trim_start(s) == trim_start(s.skip(i)),
    decreases i,
{
    if i > 0 {
        assert(s.skip(1) == s.drop_first());
        lemma_trim_start_skip(s.drop_first(), i - 1);
        assert(s.drop_first().skip(i - 1) == s.skip(i));
    } else {
        assert(s.skip(0) == s);
    }
}

proof fn lemma_trim_end_take(s: Seq<char>, k: int)
    requires
        0 <= k <= s.len(),
        forall|j: int| k <= j < s.len() ==> is_unicode_whitespace(#[trigger] s[j]),
    ensures
        trim_end(s) == trim_end(s.take(k)),
    decreases s.len() - k,
{
    if k < s.len() {
        assert(s.take(s.len() - 1) == s.drop_last());
        lemma_trim_end_take(s.drop_last(), k);
        assert(s.drop_last().take(k) == s.take(k));
    } else {
        assert(s.take(k) == s);
    }
}

/// The characters of `s` without whitespace at either end and with ASCII letters
/// in lower case.
pub fn trimmed_lowercase(s: &[char]) -> (v: Vec<char>)
    ensures
        v@ == to_ascii_lowercase(trim(s@)),
{
    let n = s.len();
    let mut start: usize = 0;
    while start < n && char_is_whitespace(s[start])
        invariant
            start <= n,
            n == s@.len(),
            forall|j: int| 0 <= j < start ==> is_unicode_whitespace(#[trigger] s@[j]),
        decreases n - start,
    {
        start = start + 1;
    }
    proof {
        lemma_trim_start_skip(s@, start as int);
    }
    let ghost rest = s@.skip(start as int);
    assert(trim_start(rest) == rest);
    let mut end: usize = n;
    while end > start && char_is_whitespace(s[end - 1])
        invariant
            start <= end <= n,
            n == s@.len(),
            rest == s@.skip(start as int),
            forall|j: int| end <= j < n ==> is_unicode_whitespace(#[trigger] s@[j]),
        decreases end - start,
    {
        end = end - 1;
    }
    proof {
        lemma_trim_end_take(rest, end - start);
        let kept = rest.take(end - start);
        if kept.len() > 0 {
            assert(kept.last() == s@[end - 1]);
        }
        assert(trim_end(kept) == kept);
    }
    let mut v: Vec<char> = Vec::new();
    let mut i: usize = start;
    while i < end
        invariant
            start <= i <= end <= n,
            n == s@.len(),
            v@ == to_ascii_lowercase(s@.subrange(start as int, i as int)),
        decreases end - i,
    {
        let c = s[i];
        let lower = if 'A' <= c && c <= 'Z' {
            ((c as u8) + 32) as char
        } else {
            c
        };
        v.push(lower);
        proof {
            assert(s@.subrange(start as int, i + 1) == s@.subrange(start as int, i as int).push(
                c,
            ));
        }
        i = i + 1;
    }
    assert(s@.skip(start as int).take(end - start) == s@.subrange(start as int, end as int));
    v
}

// ---------------------------------------------------------------------------
// Whole numbers
// ---------------------------------------------------------------------------

/// The ASCII digit of `d`.
pub open spec fn digit_char(d: nat) -> char {
    ((d + 48) as u32) as char
}

/// The decimal digits of `n`, without leading zeros ("0" for zero).
pub open spec fn decimal(n: nat) -> Seq<char>
    decreases n,
{
    if n < 10 {
        seq![digit_char(n)]
    } else {
        decimal(n / 10) + seq![digit_char(n % 10)]
    }
}


/// The value of the ASCII digit `c`.
pub open spec fn digit_value(c: char) -> nat {
    ((c as u32) - ('0' as u32)) as nat
}

/// Whether every character of `s` is an ASCII digit.
pub open spec fn all_ascii_digits(s: Seq<char>) -> bool {
    forall|i: int| 0 <= i < s.len() ==> is_ascii_digit(#[trigger] s[i])
}

/// The decimal value of the digits `s`.
pub open spec fn digits_value(s: Seq<char>) -> nat
    decreases s.len(),
{
    if s.len() == 0 {
        0
    } else {
        digits_value(s.drop_last()) * 10 + digit_value(s.last())
    }
}

/// What `str::parse::<u64>` gives for `s`: an optional `+` sign followed by at
/// least one ASCII digit, whose value fits in a `u64`.
pub open spec fn spec_parse_u64(s: Seq<char>) -> Option<nat> {
    let digits = if s.len() > 0 && s[0] == '+' {
        s.drop_first()
    } else {
        s
    };
    if digits.len() > 0 && all_ascii_digits(digits) && digits_value(digits) <= u64::MAX {
        Some(digits_value(digits))
    } else {
        None
    }
}

proof fn lemma_digits_value_grows(s: Seq<char>, i: int)
    requires
        0 <= i <= s.len(),
    ensures
        digits_value(s.take(i)) <= digits_value(s),
    decreases s.len() - i,
{
    if i < s.len() {
        assert(s.take(s.len() - 1) == s.drop_last());
        lemma_digits_value_grows(s.drop_last(), i);
        assert(s.drop_last().take(i) == s.take(i));
    } else {
        assert(s.take(i) == s);
    }
}

/// The value of the decimal digits `s`, or `None` where `s` is empty, holds
/// another character, or names a value beyond `u64::MAX`.
fn parse_digits(s: &[char]) -> (r: Option<u64>)
    ensures
        r matches Some(v) ==> s@.len() > 0 && all_ascii_digits(s@) && v == digits_value(s@),
        r is None ==> !(s@.len() > 0 && all_ascii_digits(s@) && digits_value(s@) <= u64::MAX),
{
    let n = s.len();
    if n == 0 {
        return None;
    }
    let mut acc: u64 = 0;
    let mut i: usize = 0;
    while i < n
        invariant
            i <= n,
            n == s@.len(),
            all_ascii_digits(s@.take(i as int)),
            acc == digits_value(s@.take(i as int)),
        decreases n - i,
    {
        let c = s[i];
        if !('0' <= c && c <= '9') {
            return None;
        }
        let d = (c as u32 - '0' as u32) as u64;
        proof {
            assert(s@.take(i + 1).drop_last() == s@.take(i as int));
            assert(s@.take(i + 1).last() == c);
        }
        if acc > (u64::MAX - d) / 10 {
            proof {
                assert(acc * 10 + d > u64::MAX) by (nonlinear_arith)
                    requires
                        acc > (u64::MAX - d) / 10,
                        d <= 9,
                ;
                lemma_digits_value_grows(s@, i + 1);
            }
            return None;
        }
        assert(acc * 10 + d <= u64::MAX) by (nonlinear_arith)
            requires
                acc <= (u64::MAX - d) / 10,
                d <= 9,
        ;
        acc = acc * 10 + d;
        i = i + 1;
    }
    assert(s@.take(n as int) == s@);
    Some(acc)
}

/// What `str::parse::<u64>` gives for the characters `s`.
pub fn parse_u64(s: &[char]) -> (r: Option<u64>)
    ensures
        r matches Some(v) ==> spec_parse_u64(s@) == Some(v as nat),
        r is None ==> spec_parse_u64(s@) is None,
{
    if s.len() > 0 && s[0] == '+' {
        let (_, digits) = s.split_at(1);
        assert(digits@ == s@.drop_first());
        parse_digits(digits)
    } else {
        parse_digits(s)
    }
}

/// A string holding the characters of `text`.
fn owned(text: &str) -> (r: String)
    ensures
        r@ == text@,
{
    text.to_owned()
}

/// The message `"{label}{tail}"`.
fn labelled(label: &str, tail: &str) -> (r: String)
    ensures
        r@ == label@ + tail@,
{
    let mut r = label.to_owned();
    r.append(tail);
    r
}

/// What `parse_positive_number` gives for `s`: its value where it is a whole
/// number of at least 1.
pub open spec fn spec_parse_positive_number(s: Seq<char>) -> Result<nat, Seq<char>> {
    match spec_parse_u64(s) {
        None => Err("must be a whole number"@),
        Some(n) => if n == 0 {
            Err("must be at least 1"@)
        } else {
            Ok(n)
        },
    }
}

/// What `parse_nonnegative_number` gives for `s`, with `label` naming the part.
pub open spec fn spec_parse_nonnegative_number(s: Seq<char>, label: Seq<char>) -> Result<
    nat,
    Seq<char>,
> {
    if s.len() == 0 {
        Err(label + " must not be empty"@)
    } else {
        match spec_parse_u64(s) {
            None => Err(label + " must be a whole number"@),
            Some(n) => Ok(n),
        }
    }
}

/// Whether an executable result `r` is the one that the spec result `spec` describes.
pub open spec fn same_result(r: Result<u64, String>, spec: Result<nat, Seq<char>>) -> bool {
    match (r, spec) {
        (Ok(v), Ok(n)) => v as nat == n,
        (Err(e), Err(m)) => e@ == m,
        _ => false,
    }
}

/// Parses a whole number of at least 1.
pub fn parse_positive_number(value: &[char]) -> (r: Result<u64, String>)
    ensures
        same_result(r, spec_parse_positive_number(value@)),
{
    match parse_u64(value) {
        None => Err(owned("must be a whole number")),
        Some(parsed) => if parsed == 0 {
            Err(owned("must be at least 1"))
        } else {
            Ok(parsed)
        },
    }
}

/// Parses a whole number, naming the part `label` in its error.
pub fn parse_nonnegative_number(value: &[char], label: &str) -> (r: Result<u64, String>)
    ensures
        same_result(r, spec_parse_nonnegative_number(value@, label@)),
{
    if value.len() == 0 {
        return Err(labelled(label, " must not be empty"));
    }
    match parse_u64(value) {
        None => Err(labelled(label, " must be a whole number")),
        Some(n) => Ok(n),
    }
}

// ---------------------------------------------------------------------------
// Durations with units: `15m`, `90s`, `1h30m`, `1m30s`
// ---------------------------------------------------------------------------

/// The message for a malformed duration with units.
pub open spec fn units_hint() -> Seq<char> {
    "use durations like 15m, 90s, 1h30m, or 1m30s"@
}

/// The number of ASCII digits at the start of `s`.
pub open spec fn leading_digits(s: Seq<char>) -> nat
    decreases s.len(),
{
    if s.len() > 0 && is_ascii_digit(s[0]) {
        1 + leading_digits(s.drop_first())
    } else {
        0
    }
}

/// The digits at the start of `s` are no more than its characters.
pub proof fn lemma_leading_digits_within(s: Seq<char>)
    ensures
        leading_digits(s) <= s.len(),
    decreases s.len(),
{
    if s.len() > 0 && is_ascii_digit(s[0]) {
        lemma_leading_digits_within(s.drop_first());
    }
}

/// Where reading a duration with units ends.
pub enum UnitScan {
    /// The hours, minutes and seconds that were given.
    Parts(Option<nat>, Option<nat>, Option<nat>),
    /// The duration is refused, with this message.
    Fails(Seq<char>),
    /// A number is followed by a character outside ASCII; cutting one byte
    /// after the number there would split that character.
    SplitsChar,
}

/// Reads `s` as a run of `<number><unit>` pairs, where the units come in the
/// order `h`, `m`, `s`, each at most once; `h`, `m` and `sec` hold what was read before `s`.
pub open spec fn scan_units(s: Seq<char>, h: Option<nat>, m: Option<nat>, sec: Option<nat>) -> UnitScan
    decreases s.len(),
{
    if s.len() == 0 {
        UnitScan::Parts(h, m, sec)
    } else {
        let k = leading_digits(s);
        proof {
            lemma_leading_digits_within(s);
        }
        if k == 0 || k == s.len() {
            UnitScan::Fails(units_hint())
        } else if !is_ascii_char(s[k as int]) {
            UnitScan::SplitsChar
        } else {
            match spec_parse_nonnegative_number(s.take(k as int), "duration"@) {
                Err(e) => UnitScan::Fails(e),
                Ok(n) => {
                    let unit = s[k as int];
                    let rest = s.skip(k + 1int);
                    if unit == 'h' && h is None && m is None && sec is None {
                        scan_units(rest, Some(n), m, sec)
                    } else if unit == 'm' && m is None && sec is None {
                        scan_units(rest, h, Some(n), sec)
                    } else if unit == 's' && sec is None {
                        scan_units(rest, h, m, Some(n))
                    } else {
                        UnitScan::Fails(units_hint())
                    }
                },
            }
        }
    }
}

/// The value held in `o`, or zero.
pub open spec fn or_zero(o: Option<nat>) -> nat {
    match o {
        Some(n) => n,
        None => 0,
    }
}

/// Whether reading the duration with units `s` would split a character.
pub open spec fn unit_duration_splits_char(s: Seq<char>) -> bool {
    scan_units(s, None, None, None) is SplitsChar
}

/// What `parse_unit_duration` gives for `s`: the total number of seconds. Where a
/// number is followed by a character outside ASCII (an input `parse_unit_duration`
/// does not take), it gives the message for malformed units.
pub open spec fn spec_parse_unit_duration(s: Seq<char>) -> Result<nat, Seq<char>> {
    match scan_units(s, None, None, None) {
        UnitScan::Parts(h, m, sec) => {
            let total = or_zero(h) * 3600 + or_zero(m) * 60 + or_zero(sec);
            if total > u64::MAX {
                Err("duration is too large"@)
            } else {
                Ok(total)
            }
        },
        UnitScan::Fails(e) => Err(e),
        UnitScan::SplitsChar => Err(units_hint()),
    }
}

proof fn lemma_leading_digits(s: Seq<char>, k: int)
    requires
        0 <= k <= s.len(),
        forall|j: int| 0 <= j < k ==> is_ascii_digit(#[trigger] s[j]),
        k == s.len() || !is_ascii_digit(s[k]),
    ensures
        leading_digits(s) == k,
    decreases k,
{
    if k > 0 {
        lemma_leading_digits(s.drop_first(), k - 1);
    }
}

/// The number of ASCII digits at the start of `s`.
fn count_leading_digits(s: &[char]) -> (k: usize)
    ensures
        k == leading_digits(s@),
        k <= s@.len(),
{
    let n = s.len();
    let mut k: usize = 0;
    while k < n && '0' <= s[k] && s[k] <= '9'
        invariant
            k <= n,
            n == s@.len(),
            forall|j: int| 0 <= j < k ==> is_ascii_digit(#[trigger] s@[j]),
        decreases n - k,
    {
        k = k + 1;
    }
    proof {
        lemma_leading_digits(s@, k as int);
    }
    k
}

/// `a * b`, or `None` where it exceeds `u64::MAX`.
fn mul_checked(a: u64, b: u64) -> (r: Option<u64>)
    ensures
        r matches Some(v) ==> v == a * b,
        r is None <==> a * b > u64::MAX,
{
    a.checked_mul(b)
}

/// Where reading a duration with units ends, as machine values.
pub enum UnitReading {
    /// The hours, minutes and seconds that were given.
    Parts(Option<u64>, Option<u64>, Option<u64>),
    /// The duration is refused, with this message.
    Fails(String),
    /// A number is followed by a character outside ASCII.
    SplitsChar,
}

/// Whether the reading `r` is the one that `scan` describes.
pub open spec fn same_reading(r: UnitReading, scan: UnitScan) -> bool {
    match (r, scan) {
        (UnitReading::Parts(h, m, s), UnitScan::Parts(h2, m2, s2)) => opt_nat(h) == h2 && opt_nat(m)
            == m2 && opt_nat(s) == s2,
        (UnitReading::Fails(e), UnitScan::Fails(m)) => e@ == m,
        (UnitReading::SplitsChar, UnitScan::SplitsChar) => true,
        _ => false,
    }
}

/// Reads `value` as a run of `<number><unit>` pairs.
fn read_units(value: &[char]) -> (r: UnitReading)
    ensures
        same_reading(r, scan_units(value@, None, None, None)),
{
    let mut remaining: &[char] = value;
    let mut hours: Option<u64> = None;
    let mut minutes: Option<u64> = None;
    let mut seconds: Option<u64> = None;

    while remaining.len() > 0
        invariant
            scan_units(remaining@, opt_nat(hours), opt_nat(minutes), opt_nat(seconds)) == scan_units(
                value@,
                None,
                None,
                None,
            ),
        decreases remaining@.len(),
    {
        let digit_count = count_leading_digits(remaining);

        if digit_count == 0 || digit_count == remaining.len() {
            return UnitReading::Fails(owned("use durations like 15m, 90s, 1h30m, or 1m30s"));
        }

        let (number, rest) = remaining.split_at(digit_count);
        let (unit, rest) = rest.split_at(1);
        proof {
            assert(number@ == remaining@.take(digit_count as int));
            assert(rest@ == remaining@.skip(digit_count + 1));
            assert(unit@[0] == remaining@[digit_count as int]);
        }
        let u = unit[0];
        if (u as u32) >= 128 {
            return UnitReading::SplitsChar;
        }
        let number = match parse_nonnegative_number(number, "duration") {
            Ok(n) => n,
            Err(e) => {
                return UnitReading::Fails(e);
            },
        };

        if u == 'h' && hours.is_none() && minutes.is_none() && seconds.is_none() {
            hours = Some(number);
        } else if u == 'm' && minutes.is_none() && seconds.is_none() {
            minutes = Some(number);
        } else if u == 's' && seconds.is_none() {
            seconds = Some(number);
        } else {
            return UnitReading::Fails(owned("use durations like 15m, 90s, 1h30m, or 1m30s"));
        }

        remaining = rest;
    }
    UnitReading::Parts(hours, minutes, seconds)
}

/// Whether reading `value` as a duration with units would split a character.
fn unit_form_splits_char(value: &[char]) -> (b: bool)
    ensures
        b == unit_duration_splits_char(value@),
{
    match read_units(value) {
        UnitReading::SplitsChar => true,
        _ => false,
    }
}

/// Parses a duration written with units, in seconds.
pub fn parse_unit_duration(value: &[char]) -> (r: Result<u64, String>)
    requires
        !unit_duration_splits_char(value@),
    ensures
        same_result(r, spec_parse_unit_duration(value@)),
{
    let (hours, minutes, seconds) = match read_units(value) {
        UnitReading::Parts(h, m, s) => (h, m, s),
        UnitReading::Fails(e) => {
            return Err(e);
        },
        UnitReading::SplitsChar => {
            return Err(owned("use durations like 15m, 90s, 1h30m, or 1m30s"));
        },
    };
    let h = match hours {
        Some(n) => n,
        None => 0,
    };
    let m = match minutes {
        Some(n) => n,
        None => 0,
    };
    let s = match seconds {
        Some(n) => n,
        None => 0,
    };
    let too_large = owned("duration is too large");
    let hs = match mul_checked(h, 60 * 60) {
        Some(v) => v,
        None => {
            return Err(too_large);
        },
    };
    let ms = match mul_checked(m, 60) {
        Some(v) => v,
        None => {
            return Err(too_large);
        },
    };
    let total = match hs.checked_add(ms) {
        Some(v) => v,
        None => {
            return Err(too_large);
        },
    };
    match total.checked_add(s) {
        Some(v) => Ok(v),
        None => Err(too_large),
    }
}

/// `o` as a mathematical number.
pub open spec fn opt_nat(o: Option<u64>) -> Option<nat> {
    match o {
        Some(n) => Some(n as nat),
        None => None,
    }
}

// ---------------------------------------------------------------------------
// The DURATION argument
// ---------------------------------------------------------------------------

/// The position of the first `:` in `s`.
pub open spec fn colon_index(s: Seq<char>) -> Option<nat>
    decreases s.len(),
{
    if s.len() == 0 {
        None
    } else if s[0] == ':' {
        Some(0)
    } else {
        match colon_index(s.drop_first()) {
            Some(i) => Some(i + 1),
            None => None,
        }
    }
}

/// Whether `v` ends with one of the units `h`, `m`, `s`.
pub open spec fn ends_with_unit(v: Seq<char>) -> bool {
    v.len() > 0 && (v.last() == 'h' || v.last() == 'm' || v.last() == 's')
}

/// The argument as it is read: trimmed, with ASCII letters in lower case.
pub open spec fn normalize(s: Seq<char>) -> Seq<char> {
    to_ascii_lowercase(trim(s))
}

/// The number of seconds that the normalized argument `v` names, before the
/// check that it is at least one second.
pub open spec fn spec_duration_seconds(v: Seq<char>) -> Result<nat, Seq<char>> {
    if v.len() == 0 {
        Err("must not be empty"@)
    } else {
        match colon_index(v) {
            Some(i) => {
                let minutes = v.take(i as int);
                let seconds = v.skip(i + 1int);
                if colon_index(seconds) is Some {
                    Err("use MM:SS format"@)
                } else {
                    match spec_parse_nonnegative_number(minutes, "minutes"@) {
                        Err(e) => Err(e),
                        Ok(mi) => match spec_parse_nonnegative_number(seconds, "seconds"@) {
                            Err(e) => Err(e),
                            Ok(se) => if se >= 60 {
                                Err("seconds must be less than 60 in MM:SS format"@)
                            } else if mi * 60 + se > u64::MAX {
                                Err("duration is too large"@)
                            } else {
                                Ok(mi * 60 + se)
                            },
                        },
                    }
                }
            },
            None => if ends_with_unit(v) {
                spec_parse_unit_duration(v)
            } else {
                match spec_parse_positive_number(v) {
                    Err(e) => Err(e),
                    Ok(n) => if n * 60 > u64::MAX {
                        Err("duration is too large"@)
                    } else {
                        Ok(n * 60)
                    },
                }
            },
        }
    }
}

/// What `parse_duration` gives for the argument `s`: its length in seconds,
/// which must be at least one.
pub open spec fn spec_parse_duration(s: Seq<char>) -> Result<nat, Seq<char>> {
    match spec_duration_seconds(normalize(s)) {
        Err(e) => Err(e),
        Ok(t) => if t == 0 {
            Err("must be at least 1"@)
        } else {
            Ok(t)
        },
    }
}

/// Whether reading the argument `s` as a duration with units would split a
/// character: a number in it is followed by a character outside ASCII.
pub open spec fn duration_splits_char(s: Seq<char>) -> bool {
    let v = normalize(s);
    &&& v.len() > 0
    &&& colon_index(v) is None
    &&& ends_with_unit(v)
    &&& unit_duration_splits_char(v)
}

/// Whether an executable result `r` is the duration that `spec` gives in seconds.
pub open spec fn same_duration(r: Result<Duration, String>, spec: Result<nat, Seq<char>>) -> bool {
    match (r, spec) {
        (Ok(d), Ok(n)) => d@ == n * (NANOS_PER_SEC as nat),
        (Err(e), Err(m)) => e@ == m,
        _ => false,
    }
}

proof fn lemma_colon_index(s: Seq<char>, i: int)
    requires
        0 <= i <= s.len(),
        forall|j: int| 0 <= j < i ==> #[trigger] s[j] != ':',
    ensures
        i < s.len() && s[i] == ':' ==> colon_index(s) == Some(i as nat),
        i == s.len() ==> colon_index(s) is None,
    decreases i,
{
    if i > 0 {
        lemma_colon_index(s.drop_first(), i - 1);
    }
}

/// The position of the first `:` in `v`.
fn find_colon(v: &[char]) -> (r: Option<usize>)
    ensures
        r matches Some(i) ==> colon_index(v@) == Some(i as nat) && i < v@.len(),
        r is None ==> colon_index(v@) is None,
{
    let n = v.len();
    let mut i: usize = 0;
    while i < n
        invariant
            i <= n,
            n == v@.len(),
            forall|j: int| 0 <= j < i ==> #[trigger] v@[j] != ':',
        decreases n - i,
    {
        if v[i] == ':' {
            proof {
                lemma_colon_index(v@, i as int);
            }
            return Some(i);
        }
        i = i + 1;
    }
    proof {
        lemma_colon_index(v@, i as int);
    }
    None
}

/// The number of seconds that the normalized argument `value` names.
fn duration_seconds(value: &[char]) -> (r: Result<u64, String>)
    requires
        !(value@.len() > 0 && colon_index(value@) is None && ends_with_unit(value@)
            && unit_duration_splits_char(value@)),
    ensures
        same_result(r, spec_duration_seconds(value@)),
{
    let n = value.len();
    if n == 0 {
        return Err(owned("must not be empty"));
    }
    let too_large = owned("duration is too large");
    match find_colon(value) {
        Some(i) => {
            let (minutes, rest) = value.split_at(i);
            let (_, seconds) = rest.split_at(1);
            assert(seconds@ == value@.skip(i + 1int));
            if find_colon(seconds).is_some() {
                return Err(owned("use MM:SS format"));
            }
            let minutes = match parse_nonnegative_number(minutes, "minutes") {
                Ok(v) => v,
                Err(e) => {
                    return Err(e);
                },
            };
            let seconds = match parse_nonnegative_number(seconds, "seconds") {
                Ok(v) => v,
                Err(e) => {
                    return Err(e);
                },
            };
            if seconds >= 60 {
                return Err(owned("seconds must be less than 60 in MM:SS format"));
            }
            match mul_checked(minutes, 60) {
                Some(m) => match m.checked_add(seconds) {
                    Some(t) => Ok(t),
                    None => Err(too_large),
                },
                None => Err(too_large),
            }
        },
        None => {
            let last = value[n - 1];
            if last == 'h' || last == 'm' || last == 's' {
                parse_unit_duration(value)
            } else {
                match parse_positive_number(value) {
                    Err(e) => Err(e),
                    Ok(p) => match mul_checked(p, 60) {
                        Some(t) => Ok(t),
                        None => Err(too_large),
                    },
                }
            }
        },
    }
}

/// Parses the `DURATION` argument: a bare number of minutes, `MM:SS`, or a
/// number with units such as `15m`, `90s`, `1h30m` or `1m30s`.
pub fn parse_duration(value: &str) -> (r: Result<Duration, String>)
    requires
        !duration_splits_char(value@),
    ensures
        same_duration(r, spec_parse_duration(value@)),
{
    let chars = chars_of(value);
    let normalized = trimmed_lowercase(chars.as_slice());
    match duration_seconds(normalized.as_slice()) {
        Err(e) => Err(e),
        Ok(total_seconds) => if total_seconds == 0 {
            Err(owned("must be at least 1"))
        } else {
            Ok(Duration::from_secs(total_seconds))
        },
    }
}

/// Reads the `DURATION` argument for the command line: what `parse_duration`
/// gives, for every argument. An argument on which reading a number with units
/// would split a character (which `parse_duration` does not take) is refused
/// with the message for malformed units, as `spec_parse_duration` states.
pub fn parse_duration_arg(value: &str) -> (r: Result<Duration, String>)
    ensures
        same_duration(r, spec_parse_duration(value@)),
        duration_splits_char(value@) ==> (r matches Err(e) && e@ == units_hint()),
{
    let chars = chars_of(value);
    let normalized = trimmed_lowercase(chars.as_slice());
    let n = normalized.len();
    if n > 0 && find_colon(normalized.as_slice()).is_none() {
        let last = normalized[n - 1];
        if (last == 'h' || last == 'm' || last == 's') && unit_form_splits_char(
            normalized.as_slice(),
        ) {
            return Err(owned("use durations like 15m, 90s, 1h30m, or 1m30s"));
        }
    }
    parse_duration(value)
}

// ---------------------------------------------------------------------------
// What the argument grammar promises
// ---------------------------------------------------------------------------

proof fn lemma_digit_char(d: nat)
    requires
        d < 10,
    ensures
        digit_value(digit_char(d)) == d,
        is_ascii_digit(digit_char(d)),
{
    assert((((d + 48) as u32) as char) as u32 == d + 48);
}

proof fn lemma_decimal(n: nat)
    ensures
        decimal(n).len() >= 1,
        all_ascii_digits(decimal(n)),
        digits_value(decimal(n)) == n,
        decimal(n)[0] != '+',
    decreases n,
{
    if n >= 10 {
        lemma_decimal(n / 10);
        lemma_digit_char(n % 10);
        let d = decimal(n);
        assert(d.drop_last() =~= decimal(n / 10));
        assert(d.last() == digit_char(n % 10));
        assert(forall|i: int| 0 <= i < d.len() - 1 ==> d[i] == decimal(n / 10)[i]);
        assert(digits_value(d) == digits_value(d.drop_last()) * 10 + digit_value(d.last()));
    } else {
        lemma_digit_char(n);
        let d = decimal(n);
        assert(d.drop_last() =~= Seq::<char>::empty());
        assert(digits_value(d) == digits_value(d.drop_last()) * 10 + digit_value(d.last()));
    }
}

proof fn lemma_digits_value_zero_prefix(d: Seq<char>)
    ensures
        digits_value(seq!['0'] + d) == digits_value(d),
    decreases d.len(),
{
    let z = seq!['0'] + d;
    if d.len() == 0 {
        assert(z =~= seq!['0']);
        assert(z.drop_last() =~= Seq::<char>::empty());
        assert(digit_value('0') == 0);
        assert(digits_value(z) == digits_value(z.drop_last()) * 10 + digit_value(z.last()));
    } else {
        lemma_digits_value_zero_prefix(d.drop_last());
        assert(z.drop_last() =~= seq!['0'] + d.drop_last());
        assert(z.last() == d.last());
        assert(digits_value(z) == digits_value(z.drop_last()) * 10 + digit_value(z.last()));
        assert(digits_value(d) == digits_value(d.drop_last()) * 10 + digit_value(d.last()));
    }
}

proof fn lemma_two_digits(n: nat)
    ensures
        two_digits(n).len() >= 1,
        all_ascii_digits(two_digits(n)),
        digits_value(two_digits(n)) == n,
        two_digits(n)[0] != '+',
{
    lemma_decimal(n);
    if n < 10 {
        lemma_digits_value_zero_prefix(decimal(n));
        let t = two_digits(n);
        assert(forall|i: int| 1 <= i < t.len() ==> t[i] == decimal(n)[i - 1]);
    }
}

/// The decimal digits of `n`, with a leading zero below ten (the format `{n:02}`).
pub open spec fn two_digits(n: nat) -> Seq<char> {
    if n < 10 {
        seq!['0'] + decimal(n)
    } else {
        decimal(n)
    }
}

proof fn lemma_no_colon(s: Seq<char>)
    requires
        forall|i: int| 0 <= i < s.len() ==> #[trigger] s[i] != ':',
    ensures
        colon_index(s) is None,
    decreases s.len(),
{
    if s.len() > 0 {
        lemma_no_colon(s.drop_first());
    }
}

proof fn lemma_colon_after_digits(d: Seq<char>, rest: Seq<char>)
    requires
        all_ascii_digits(d),
    ensures
        colon_index(d + seq![':'] + rest) == Some(d.len()),
    decreases d.len(),
{
    if d.len() == 0 {
        assert((d + seq![':'] + rest)[0] == ':');
    } else {
        assert((d + seq![':'] + rest).drop_first() =~= d.drop_first() + seq![':'] + rest);
        assert(is_ascii_digit(d[0]));
        lemma_colon_after_digits(d.drop_first(), rest);
    }
}

proof fn lemma_leading_digits_of(d: Seq<char>, rest: Seq<char>)
    requires
        all_ascii_digits(d),
        rest.len() > 0,
        !is_ascii_digit(rest[0]),
    ensures
        leading_digits(d + rest) == d.len(),
    decreases d.len(),
{
    if d.len() == 0 {
        assert(d + rest =~= rest);
    } else {
        assert((d + rest).drop_first() =~= d.drop_first() + rest);
        assert(is_ascii_digit(d[0]));
        lemma_leading_digits_of(d.drop_first(), rest);
    }
}

/// A string with no whitespace at either end is its own trim.
proof fn lemma_trim_keeps(s: Seq<char>)
    requires
        s.len() > 0 ==> !is_unicode_whitespace(s[0]) && !is_unicode_whitespace(s.last()),
    ensures
        trim(s) == s,
{
}

/// A string without ASCII capitals is its own lower case.
proof fn lemma_lowercase_keeps(s: Seq<char>)
    requires
        forall|i: int| 0 <= i < s.len() ==> !('A' <= #[trigger] s[i] && s[i] <= 'Z'),
    ensures
        to_ascii_lowercase(s) == s,
{
    assert(to_ascii_lowercase(s) =~= s);
}

/// Digits and the characters `h`, `m`, `s` and `:` are read as they are.
proof fn lemma_plain_normalized(s: Seq<char>)
    requires
        forall|i: int|
            0 <= i < s.len() ==> is_ascii_digit(#[trigger] s[i]) || s[i] == 'h' || s[i] == 'm'
                || s[i] == 's' || s[i] == ':',
    ensures
        normalize(s) == s,
{
    if s.len() > 0 {
        assert(s.last() == s[s.len() - 1]);
    }
    lemma_trim_keeps(s);
    lemma_lowercase_keeps(s);
}

/// A bare number is a number of minutes: `N` lasts `N` minutes, for every `N`
/// of at least 1 whose seconds fit in a `u64`.
pub proof fn law_bare_number_is_minutes(n: nat)
    requires
        1 <= n,
        n * 60 <= u64::MAX,
    ensures
        spec_parse_duration(decimal(n)) == Ok::<nat, Seq<char>>(n * 60),
{
    let d = decimal(n);
    lemma_decimal(n);
    lemma_plain_normalized(d);
    lemma_no_colon(d);
    assert(is_ascii_digit(d.last()));
}

/// `Nm` lasts `N` minutes, for every `N` of at least 1 whose seconds fit in a `u64`.
pub proof fn law_minutes_unit(n: nat)
    requires
        1 <= n,
        n * 60 <= u64::MAX,
    ensures
        spec_parse_duration(decimal(n) + seq!['m']) == Ok::<nat, Seq<char>>(n * 60),
{
    let d = decimal(n);
    let v = d + seq!['m'];
    lemma_decimal(n);
    lemma_plain_normalized(v);
    lemma_no_colon(v);
    lemma_leading_digits_of(d, seq!['m']);
    assert(v.take(d.len() as int) =~= d);
    assert(v.skip(d.len() + 1int) =~= Seq::<char>::empty());
    assert(v[d.len() as int] == 'm');
    assert(v.last() == 'm');
    assert(spec_parse_u64(d) == Some(n));
    assert(spec_parse_nonnegative_number(v.take(d.len() as int), "duration"@) == Ok::<nat, Seq<char>>(n));
    assert(scan_units(v.skip(d.len() + 1int), None, Some(n), None) == UnitScan::Parts(None, Some(n), None));
    assert(scan_units(v, None, None, None) == UnitScan::Parts(None, Some(n), None));
}

/// `Ns` lasts `N` seconds, for every `N` of at least 1 that fits in a `u64`.
pub proof fn law_seconds_unit(n: nat)
    requires
        1 <= n <= u64::MAX,
    ensures
        spec_parse_duration(decimal(n) + seq!['s']) == Ok::<nat, Seq<char>>(n),
{
    let d = decimal(n);
    let v = d + seq!['s'];
    lemma_decimal(n);
    lemma_plain_normalized(v);
    lemma_no_colon(v);
    lemma_leading_digits_of(d, seq!['s']);
    assert(v.take(d.len() as int) =~= d);
    assert(v.skip(d.len() + 1int) =~= Seq::<char>::empty());
    assert(v[d.len() as int] == 's');
    assert(v.last() == 's');
    assert(spec_parse_u64(d) == Some(n));
    assert(spec_parse_nonnegative_number(v.take(d.len() as int), "duration"@) == Ok::<nat, Seq<char>>(n));
    assert(scan_units(v.skip(d.len() + 1int), None, None, Some(n)) == UnitScan::Parts(None, None, Some(n)));
    assert(scan_units(v, None, None, None) == UnitScan::Parts(None, None, Some(n)));
}

/// `HhMm` lasts `H` hours and `M` minutes, wherever that is at least one second
/// and fits in a `u64`.
pub proof fn law_hours_and_minutes(h: nat, m: nat)
    requires
        1 <= h * 3600 + m * 60 <= u64::MAX,
    ensures
        spec_parse_duration(decimal(h) + seq!['h'] + decimal(m) + seq!['m']) == Ok::<
            nat,
            Seq<char>,
        >(h * 3600 + m * 60),
{
    let dh = decimal(h);
    let dm = decimal(m);
    let v = dh + seq!['h'] + dm + seq!['m'];
    lemma_decimal(h);
    lemma_decimal(m);
    assert forall|i: int| 0 <= i < v.len() implies is_ascii_digit(#[trigger] v[i]) || v[i] == 'h'
        || v[i] == 'm' || v[i] == 's' || v[i] == ':' by {
        if i < dh.len() {
            assert(v[i] == dh[i]);
        } else if i == dh.len() {
        } else if i < dh.len() + 1 + dm.len() {
            assert(v[i] == dm[i - dh.len() - 1]);
        }
    }
    lemma_plain_normalized(v);
    lemma_no_colon(v);
    assert(v =~= dh + (seq!['h'] + dm + seq!['m']));
    lemma_leading_digits_of(dh, seq!['h'] + dm + seq!['m']);
    assert(v.take(dh.len() as int) =~= dh);
    assert(v[dh.len() as int] == 'h');
    let rest = v.skip(dh.len() + 1int);
    assert(rest =~= dm + seq!['m']);
    lemma_leading_digits_of(dm, seq!['m']);
    assert(rest.take(dm.len() as int) =~= dm);
    assert(rest[dm.len() as int] == 'm');
    assert(rest.skip(dm.len() + 1int) =~= Seq::<char>::empty());
    assert(v.last() == 'm');
    assert(h <= u64::MAX && m <= u64::MAX);
    assert(spec_parse_u64(dh) == Some(h));
    assert(spec_parse_u64(dm) == Some(m));
    assert(spec_parse_nonnegative_number(v.take(dh.len() as int), "duration"@) == Ok::<nat, Seq<char>>(h));
    assert(spec_parse_nonnegative_number(rest.take(dm.len() as int), "duration"@) == Ok::<nat, Seq<char>>(m));
    assert(scan_units(rest.skip(dm.len() + 1int), Some(h), Some(m), None) == UnitScan::Parts(Some(h), Some(m), None));
    assert(scan_units(rest, Some(h), None, None) == UnitScan::Parts(Some(h), Some(m), None));
    assert(scan_units(v, None, None, None) == UnitScan::Parts(Some(h), Some(m), None));
}

/// Reading `<n><u>rest`, with `n` written in decimal and `u` a unit: the number
/// `n` is taken for the unit `u` where the order `h`, `m`, `s` allows it, and
/// reading goes on with `rest`.
proof fn lemma_scan_part(
    n: nat,
    u: char,
    rest: Seq<char>,
    h: Option<nat>,
    m: Option<nat>,
    sec: Option<nat>,
)
    requires
        n <= u64::MAX,
        u == 'h' || u == 'm' || u == 's',
    ensures
        scan_units(decimal(n) + seq![u] + rest, h, m, sec) == (if u == 'h' && h is None && m is None
            && sec is None {
            scan_units(rest, Some(n), m, sec)
        } else if u == 'm' && m is None && sec is None {
            scan_units(rest, h, Some(n), sec)
        } else if u == 's' && sec is None {
            scan_units(rest, h, m, Some(n))
        } else {
            UnitScan::Fails(units_hint())
        }),
{
    let d = decimal(n);
    let v = d + seq![u] + rest;
    lemma_decimal(n);
    assert(v =~= d + (seq![u] + rest));
    lemma_leading_digits_of(d, seq![u] + rest);
    assert(v.take(d.len() as int) =~= d);
    assert(v[d.len() as int] == u);
    assert(v.skip(d.len() + 1int) =~= rest);
    assert(spec_parse_u64(d) == Some(n));
    assert(spec_parse_nonnegative_number(v.take(d.len() as int), "duration"@) == Ok::<nat, Seq<char>>(n));
}

/// The text of a duration with units: each part that is given, as its decimal
/// number followed by its unit, in the order hours, minutes, seconds.
pub open spec fn unit_text(h: Option<nat>, m: Option<nat>, s: Option<nat>) -> Seq<char> {
    unit_part(h, 'h') + unit_part(m, 'm') + unit_part(s, 's')
}

/// `<n><u>` where `o` is `Some(n)`, nothing where it is `None`.
pub open spec fn unit_part(o: Option<nat>, u: char) -> Seq<char> {
    match o {
        Some(n) => decimal(n) + seq![u],
        None => Seq::<char>::empty(),
    }
}

/// The characters of a duration with units are digits and units only.
proof fn lemma_unit_part_plain(o: Option<nat>, u: char)
    requires
        u == 'h' || u == 'm' || u == 's',
    ensures
        forall|i: int|
            0 <= i < unit_part(o, u).len() ==> is_ascii_digit(#[trigger] unit_part(o, u)[i]) || unit_part(
                o,
                u,
            )[i] == u,
        o is Some ==> unit_part(o, u).len() > 0 && unit_part(o, u).last() == u,
{
    if let Some(n) = o {
        lemma_decimal(n);
        let d = decimal(n);
        assert forall|i: int| 0 <= i < unit_part(o, u).len() implies is_ascii_digit(
            #[trigger] unit_part(o, u)[i],
        ) || unit_part(o, u)[i] == u by {
            if i < d.len() {
                assert(unit_part(o, u)[i] == d[i]);
            }
        }
    }
}

/// A duration with units lasts its hours, minutes and seconds added up: every
/// form `XhYmZs`, with any of the three parts left out but in that order, reads
/// as `X * 3600 + Y * 60 + Z` seconds, wherever that is at least one second and
/// fits in a `u64`.
pub proof fn law_units_add_up(h: Option<nat>, m: Option<nat>, s: Option<nat>)
    requires
        1 <= or_zero(h) * 3600 + or_zero(m) * 60 + or_zero(s) <= u64::MAX,
    ensures
        spec_parse_duration(unit_text(h, m, s)) == Ok::<nat, Seq<char>>(
            or_zero(h) * 3600 + or_zero(m) * 60 + or_zero(s),
        ),
{
    let ph = unit_part(h, 'h');
    let pm = unit_part(m, 'm');
    let ps = unit_part(s, 's');
    let v = unit_text(h, m, s);
    lemma_unit_part_plain(h, 'h');
    lemma_unit_part_plain(m, 'm');
    lemma_unit_part_plain(s, 's');
    // Only digits and units: the text is its own normal form and has no colon.
    assert forall|i: int| 0 <= i < v.len() implies is_ascii_digit(#[trigger] v[i]) || v[i] == 'h'
        || v[i] == 'm' || v[i] == 's' by {
        if i < ph.len() {
            assert(v[i] == ph[i]);
        } else if i < ph.len() + pm.len() {
            assert(v[i] == pm[i - ph.len()]);
        } else {
            assert(v[i] == ps[i - ph.len() - pm.len()]);
        }
    }
    lemma_plain_normalized(v);
    lemma_no_colon(v);
    // It ends with the unit of its last part.
    if s is Some {
        assert(v.last() == ps.last());
    } else if m is Some {
        assert(v =~= ph + pm);
        assert(v.last() == pm.last());
    } else {
        assert(v =~= ph);
    }
    assert(ends_with_unit(v));
    // Reading it part by part.
    let tail_s = ps;
    let tail_m = pm + ps;
    match s {
        Some(n) => {
            assert(n <= u64::MAX);
            assert(ps =~= decimal(n) + seq!['s'] + Seq::<char>::empty());
            lemma_scan_part(n, 's', Seq::<char>::empty(), h, m, None);
        },
        None => {},
    }
    assert(scan_units(tail_s, h, m, None) == UnitScan::Parts(h, m, s));
    match m {
        Some(n) => {
            assert(n * 60 <= u64::MAX);
            assert(tail_m =~= decimal(n) + seq!['m'] + tail_s);
            lemma_scan_part(n, 'm', tail_s, h, None, None);
        },
        None => {
            assert(tail_m =~= tail_s);
        },
    }
    assert(scan_units(tail_m, h, None, None) == UnitScan::Parts(h, m, s));
    match h {
        Some(n) => {
            assert(n * 3600 <= u64::MAX);
            assert(v =~= decimal(n) + seq!['h'] + tail_m);
            lemma_scan_part(n, 'h', tail_m, None, None, None);
        },
        None => {
            assert(v =~= tail_m);
        },
    }
    assert(scan_units(v, None, None, None) == UnitScan::Parts(h, m, s));
}

/// Units must come in the order hours, minutes, seconds, each at most once:
/// a later unit followed by an earlier or the same one is refused with the
/// message on the forms that are accepted.
pub proof fn law_units_out_of_order_refused(a: nat, ua: char, b: nat, ub: char)
    requires
        a <= u64::MAX,
        b <= u64::MAX,
        ua == 'h' || ua == 'm' || ua == 's',
        ub == 'h' || ub == 'm' || ub == 's',
        ua == 's' || (ua == 'm' && ub != 's') || (ua == 'h' && ub == 'h'),
    ensures
        spec_parse_duration(decimal(a) + seq![ua] + decimal(b) + seq![ub]) == Err::<nat, Seq<char>>(
            units_hint(),
        ),
{
    let pa = decimal(a) + seq![ua];
    let pb = decimal(b) + seq![ub];
    let v = decimal(a) + seq![ua] + decimal(b) + seq![ub];
    assert(v =~= pa + pb);
    lemma_unit_part_plain(Some(a), ua);
    lemma_unit_part_plain(Some(b), ub);
    assert(unit_part(Some(a), ua) == pa);
    assert(unit_part(Some(b), ub) == pb);
    assert forall|i: int| 0 <= i < v.len() implies is_ascii_digit(#[trigger] v[i]) || v[i] == 'h'
        || v[i] == 'm' || v[i] == 's' by {
        if i < pa.len() {
            assert(v[i] == pa[i]);
        } else {
            assert(v[i] == pb[i - pa.len()]);
        }
    }
    lemma_plain_normalized(v);
    lemma_no_colon(v);
    assert(v.last() == pb.last());
    assert(ends_with_unit(v));
    assert(v =~= decimal(a) + seq![ua] + pb);
    lemma_scan_part(a, ua, pb, None, None, None);
    assert(pb =~= decimal(b) + seq![ub] + Seq::<char>::empty());
    let h1: Option<nat> = if ua == 'h' { Some(a) } else { None };
    let m1: Option<nat> = if ua == 'm' { Some(a) } else { None };
    let s1: Option<nat> = if ua == 's' { Some(a) } else { None };
    lemma_scan_part(b, ub, Seq::<char>::empty(), h1, m1, s1);
}

/// The text `dm:ds`, where `dm` holds the digits of `m` and `ds` those of `s`
/// (below 60), names `m` minutes and `s` seconds.
proof fn lemma_clock_text(dm: Seq<char>, ds: Seq<char>, m: nat, s: nat)
    requires
        dm.len() >= 1,
        all_ascii_digits(dm),
        digits_value(dm) == m,
        dm[0] != '+',
        ds.len() >= 1,
        all_ascii_digits(ds),
        digits_value(ds) == s,
        ds[0] != '+',
        s < 60,
        m * 60 + s <= u64::MAX,
    ensures
        spec_duration_seconds(normalize(dm + seq![':'] + ds)) == Ok::<nat, Seq<char>>(m * 60 + s),
{
    let v = dm + seq![':'] + ds;
    assert forall|i: int| 0 <= i < v.len() implies is_ascii_digit(#[trigger] v[i]) || v[i] == 'h'
        || v[i] == 'm' || v[i] == 's' || v[i] == ':' by {
        if i < dm.len() {
            assert(v[i] == dm[i]);
        } else if i > dm.len() {
            assert(v[i] == ds[i - dm.len() - 1]);
        }
    }
    lemma_plain_normalized(v);
    lemma_colon_after_digits(dm, ds);
    assert(v.take(dm.len() as int) =~= dm);
    assert(v.skip(dm.len() + 1int) =~= ds);
    assert forall|i: int| 0 <= i < ds.len() implies #[trigger] ds[i] != ':' by {
        assert(is_ascii_digit(ds[i]));
    }
    lemma_no_colon(ds);
}

/// `M:SS` lasts `M` minutes and `SS` seconds, for seconds below 60 (written with
/// two digits or one), wherever that is at least one second and fits in a `u64`.
pub proof fn law_clock_format(m: nat, s: nat)
    requires
        s < 60,
        1 <= m * 60 + s <= u64::MAX,
    ensures
        spec_parse_duration(decimal(m) + seq![':'] + two_digits(s)) == Ok::<nat, Seq<char>>(
            m * 60 + s,
        ),
{
    lemma_decimal(m);
    lemma_two_digits(s);
    lemma_clock_text(decimal(m), two_digits(s), m, s);
}

/// `MM:SS` with both parts written with at least two digits (a leading zero
/// below ten) lasts `MM` minutes and `SS` seconds, for seconds below 60 and a
/// total that fits in a `u64`; `00:00` is refused as shorter than one second.
pub proof fn law_two_digit_clock_format(m: nat, s: nat)
    requires
        s < 60,
        m * 60 + s <= u64::MAX,
    ensures
        spec_parse_duration(two_digits(m) + seq![':'] + two_digits(s)) == (if m * 60 + s >= 1 {
            Ok::<nat, Seq<char>>(m * 60 + s)
        } else {
            Err("must be at least 1"@)
        }),
{
    lemma_two_digits(m);
    lemma_two_digits(s);
    lemma_clock_text(two_digits(m), two_digits(s), m, s);
}

proof fn lemma_trim_start_first(s: Seq<char>)
    ensures
        trim_start(s).len() > 0 ==> !is_unicode_whitespace(trim_start(s)[0]),
        exists|k: int| 0 <= k <= s.len() && trim_start(s) == s.skip(k),
    decreases s.len(),
{
    if s.len() > 0 && is_unicode_whitespace(s[0]) {
        lemma_trim_start_first(s.drop_first());
        let k = choose|k: int| 0 <= k <= s.drop_first().len() && trim_start(s.drop_first()) == s.drop_first().skip(k);
        assert(s.drop_first().skip(k) =~= s.skip(k + 1));
    } else {
        assert(s.skip(0) =~= s);
    }
}

proof fn lemma_trim_end_last(s: Seq<char>)
    ensures
        trim_end(s).len() > 0 ==> !is_unicode_whitespace(trim_end(s).last()),
        exists|k: int| 0 <= k <= s.len() && trim_end(s) == s.take(k),
    decreases s.len(),
{
    if s.len() > 0 && is_unicode_whitespace(s.last()) {
        lemma_trim_end_last(s.drop_last());
        let k = choose|k: int| 0 <= k <= s.drop_last().len() && trim_end(s.drop_last()) == s.drop_last().take(k);
        assert(s.drop_last().take(k) =~= s.take(k));
    } else {
        assert(s.take(s.len() as int) =~= s);
    }
}

/// Lower-casing never turns a character into whitespace or out of it.
proof fn lemma_lower_whitespace(c: char)
    ensures
        is_unicode_whitespace(ascii_lower(c)) == is_unicode_whitespace(c),
        !('A' <= ascii_lower(c) && ascii_lower(c) <= 'Z'),
{
}

/// The argument is read without regard to whitespace around it or to the case
/// of its letters: reading it again after trimming and lower-casing gives the same.
pub proof fn law_case_and_spaces_do_not_matter(s: Seq<char>)
    ensures
        normalize(normalize(s)) == normalize(s),
        spec_parse_duration(normalize(s)) == spec_parse_duration(s),
{
    let t = trim(s);
    let u = to_ascii_lowercase(t);
    lemma_trim_start_first(s);
    lemma_trim_end_last(trim_start(s));
    let k = choose|k: int|
        0 <= k <= trim_start(s).len() && trim_end(trim_start(s)) == trim_start(s).take(k);
    if t.len() > 0 {
        assert(t[0] == trim_start(s)[0]);
        lemma_lower_whitespace(t[0]);
        lemma_lower_whitespace(t.last());
        assert(u[0] == ascii_lower(t[0]));
        assert(u.last() == ascii_lower(t.last()));
    }
    lemma_trim_keeps(u);
    assert forall|i: int| 0 <= i < u.len() implies !('A' <= #[trigger] u[i] && u[i] <= 'Z') by {
        lemma_lower_whitespace(t[i]);
    }
    lemma_lowercase_keeps(u);
}

/// A duration that is read is never shorter than one second.
pub proof fn law_durations_are_positive(s: Seq<char>)
    ensures
        spec_parse_duration(s) matches Ok(t) ==> t >= 1,
{
}

// ---------------------------------------------------------------------------
// The command line
// ---------------------------------------------------------------------------

/// The text of each command-line argument.
pub open spec fn argv_view(args: Seq<&str>) -> Seq<Seq<char>> {
    args.map_values(|a: &str| a@)
}

/// A duration as a number of nanoseconds.
pub open spec fn opt_duration_view(d: Option<Duration>) -> Option<nat> {
    match d {
        Some(v) => Some(v@),
        None => None,
    }
}

/// What clap's parser gives for the command-line arguments `args` (the first
/// being the program's name), with the `DURATION` positional argument read by
/// `parse_duration_arg` and the `-b`/`--break` flag: the duration and whether
/// the flag was given, or `None` where clap returns an error (malformed or
/// unexpected arguments, a refused `DURATION`, or a request for help or the version).
pub uninterp spec fn clap_outcome(args: Seq<Seq<char>>) -> Option<(Option<nat>, bool)>;

/// Runs `clap::Command::try_get_matches_from` on `args` for the command
/// `timepour [DURATION] [-b|--break]`, where clap hands the text of `DURATION`
/// to `parse_duration_arg`, then reads the two arguments from the matches.
/// The contract claims that the result is clap's outcome for `args`, and that a
/// duration clap gives back is what `parse_duration_arg` gave for one of the
/// arguments after the program's name (clap stores the value parser's `Ok`
/// value as it is). What clap refuses, and the text of its errors, is not stated.
#[verifier::external_body]
fn clap_try_parse(args: &[&str]) -> (r: Result<(Option<Duration>, bool), CliError>)
    ensures
        r is Ok <==> clap_outcome(argv_view(args@)) is Some,
        r matches Ok((d, b)) ==> clap_outcome(argv_view(args@)) == Some((opt_duration_view(d), b)),
        r matches Ok((Some(d), _)) ==> exists|i: int|
            1 <= i < args@.len() && (#[trigger] spec_parse_duration(args@[i]@) matches Ok(secs) && d@
                == secs * (NANOS_PER_SEC as nat)),
{
    let cmd = clap::Command::new("timepour").version("0.1.2").about(
        "A terminal focus timer with a deterministic tetromino stack",
    ).arg(
        clap::Arg::new("duration").value_name("DURATION").help(
            "Session length: 25, 25m, 90s, 1:30, 1h30m, or 1m30s (default: 25m focus, 5m break)",
        ).value_parser(|value: &str| parse_duration_arg(value)),
    ).arg(
        clap::Arg::new("break_mode").short('b').long("break").help(
            "Start a break session",
        ).action(clap::ArgAction::SetTrue),
    );
    match cmd.try_get_matches_from(args.iter().copied()) {
        Ok(m) => Ok((m.get_one::<Duration>("duration").copied(), m.get_flag("break_mode"))),
        Err(error) => Err(CliError { error }),
    }
}

/// The command line of a session.
#[derive(Debug)]
pub struct Cli {
    /// The length of the session; the session kind's default where it is `None`.
    pub duration: Option<Duration>,
    /// Whether the session is a break.
    pub break_mode: bool,
}

/// A command line that was refused, or a request for help or the version:
/// the `clap::Error` that clap returned, held as it is in a private field.
/// The holder is opaque: its contents are read only through `to_string` and
/// `exit_code`, which hand them to clap.
#[verifier::external_body]
#[derive(Debug)]
pub struct CliError {
    error: clap::Error,
}

impl CliError {
    /// The text that `clap::Error`'s `Display` writes for the error (the
    /// message, without colours). Nothing is stated of it.
    #[verifier::external_body]
    pub fn to_string(&self) -> String {
        self.error.to_string()
    }

    /// What `clap::Error::exit_code` gives: 0 for a request for help or the
    /// version (printed to standard output), 2 for a refused command line
    /// (printed to standard error).
    #[verifier::external_body]
    pub fn exit_code(&self) -> (code: i32)
        ensures
            code == 0 || code == 2,
    {
        self.error.exit_code()
    }
}

impl Cli {
    /// Parses the command-line arguments `args`, the first of which is the program's name.
    pub fn try_parse_from(args: &[&str]) -> (r: Result<Cli, CliError>)
        ensures
            r is Ok <==> clap_outcome(argv_view(args@)) is Some,
            r matches Ok(cli) ==> clap_outcome(argv_view(args@)) == Some(
                (opt_duration_view(cli.duration), cli.break_mode),
            ),
            r matches Ok(cli) ==> (cli.duration matches Some(d) ==> exists|i: int|
                1 <= i < args@.len() && (#[trigger] spec_parse_duration(args@[i]@) matches Ok(secs)
                    && d@ == secs * (NANOS_PER_SEC as nat))),
    {
        match clap_try_parse(args) {
            Ok((duration, break_mode)) => Ok(Cli { duration, break_mode }),
            Err(error) => Err(error),
        }
    }
}

} // verus!
