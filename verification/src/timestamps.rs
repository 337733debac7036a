//! Timestamps and their canonical textual form.
//!
//! A timestamp is six plain integers; its canonical text is
//! `Y-M-D H:M:S` with each component written in decimal without
//! zero-padding. Parsing accepts a 3-4 digit year and 1-2 digit
//! components, and performs no calendar validation beyond what the
//! integer widths force.

use chrono::Datelike;
use chrono::Timelike;
use vstd::prelude::*;

verus! {

/// A wall-clock timestamp, truncated to whole seconds.
///
/// No calendar validation is performed at construction: callers may
/// build out-of-calendar values such as month 13. Ranges are only
/// what the integer widths force.
#[derive(Clone, Copy, Debug, PartialEq, Eq, Structural)]
pub struct TimeStamp {
    /// The year, 0 to 65535.
    pub year: u16,
    /// The month, nominally 1 to 12.
    pub month: u8,
    /// The day of the month, nominally 1 to 31.
    pub day: u8,
    /// The hour, nominally 0 to 23.
    pub hour: u8,
    /// The minute, nominally 0 to 59.
    pub minute: u8,
    /// The second, nominally 0 to 59.
    pub second: u8,
}

/// Whether `c` is an ASCII decimal digit.
pub open spec fn char_is_digit(c: char) -> bool {
    48 <= c as u32 && c as u32 <= 57
}

/// The numeric value of a digit character.
pub open spec fn digit_value(c: char) -> nat {
    (c as u32 - 48) as nat
}

/// The digit character for a value below ten.
pub open spec fn digit_char(d: nat) -> char {
    if d == 0 {
        '0'
    } else if d == 1 {
        '1'
    } else if d == 2 {
        '2'
    } else if d == 3 {
        '3'
    } else if d == 4 {
        '4'
    } else if d == 5 {
        '5'
    } else if d == 6 {
        '6'
    } else if d == 7 {
        '7'
    } else if d == 8 {
        '8'
    } else {
        '9'
    }
}

/// The decimal digit characters of `n`, most significant first,
/// without leading zeros (`0` is written as one digit).
pub open spec fn decimal_chars(n: nat) -> Seq<char>
    decreases n,
{
    if n < 10 {
        seq![digit_char(n)]
    } else {
        decimal_chars(n / 10).push(digit_char(n % 10))
    }
}

/// The numeric value of a sequence of digit characters, read in base ten.
pub open spec fn digits_value(s: Seq<char>) -> nat
    decreases s.len(),
{
    if s.len() == 0 {
        0
    } else {
        digits_value(s.drop_last()) * 10 + digit_value(s.last())
    }
}

/// Ten to the power `n`.
pub open spec fn ten_pow(n: nat) -> nat
    decreases n,
{
    if n == 0 {
        1
    } else {
        10 * ten_pow((n - 1) as nat)
    }
}

/// The length of the maximal run of digit characters of `s` starting at `i`.
pub open spec fn digit_run_len(s: Seq<char>, i: int) -> int
    decreases s.len() - i,
{
    if i < 0 || i >= s.len() || !char_is_digit(s[i]) {
        0
    } else {
        1 + digit_run_len(s, i + 1)
    }
}

/// The canonical text of a timestamp: the six components in decimal,
/// without zero-padding, separated by `-`, `-`, space, `:`, `:`.
pub open spec fn timestamp_chars(t: TimeStamp) -> Seq<char> {
    decimal_chars(t.year as nat) + seq!['-'] + decimal_chars(t.month as nat) + seq!['-']
        + decimal_chars(t.day as nat) + seq![' '] + decimal_chars(t.hour as nat) + seq![':']
        + decimal_chars(t.minute as nat) + seq![':'] + decimal_chars(t.second as nat)
}

/// The timestamp denoted by `s`, if the whole of `s` matches the
/// pattern: 3-4 digit year, then `-`, 1-2 digit month, `-`, 1-2 digit
/// day, space, 1-2 digit hour, `:`, 1-2 digit minute, `:`, 1-2 digit
/// second. Values are read as written; no calendar validation.
pub open spec fn timestamp_of_chars(s: Seq<char>) -> Option<TimeStamp> {
    let yl = digit_run_len(s, 0);
    let mo_start = yl + 1;
    let ml = digit_run_len(s, mo_start);
    let d_start = mo_start + ml + 1;
    let dl = digit_run_len(s, d_start);
    let h_start = d_start + dl + 1;
    let hl = digit_run_len(s, h_start);
    let mi_start = h_start + hl + 1;
    let il = digit_run_len(s, mi_start);
    let s_start = mi_start + il + 1;
    let sl = digit_run_len(s, s_start);
    if 3 <= yl <= 4 && yl < s.len() && s[yl] == '-' && 1 <= ml <= 2 && mo_start + ml < s.len()
        && s[mo_start + ml] == '-' && 1 <= dl <= 2 && d_start + dl < s.len() && s[d_start + dl]
        == ' ' && 1 <= hl <= 2 && h_start + hl < s.len() && s[h_start + hl] == ':' && 1 <= il <= 2
        && mi_start + il < s.len() && s[mi_start + il] == ':' && 1 <= sl <= 2 && s_start + sl
        == s.len() {
        Some(
            TimeStamp {
                year: digits_value(s.subrange(0, yl)) as u16,
                month: digits_value(s.subrange(mo_start, mo_start + ml)) as u8,
                day: digits_value(s.subrange(d_start, d_start + dl)) as u8,
                hour: digits_value(s.subrange(h_start, h_start + hl)) as u8,
                minute: digits_value(s.subrange(mi_start, mi_start + il)) as u8,
                second: digits_value(s.subrange(s_start, s_start + sl)) as u8,
            },
        )
    } else {
        None
    }
}

/// A run of digits of `s` that fills `[i, j)` and stops at `j` (the end of
/// `s`, or a non-digit) is the maximal run starting at `i`.
pub proof fn lemma_run_len_exact(s: Seq<char>, i: int, j: int)
    requires
        0 <= i <= j <= s.len(),
        forall|k: int| i <= k < j ==> char_is_digit(s[k]),
        j == s.len() || !char_is_digit(s[j]),
    ensures
        digit_run_len(s, i) == j - i,
    decreases j - i,
{
    if i < j {
        lemma_run_len_exact(s, i + 1, j);
    }
}

/// Every character of a decimal rendering is a digit.
pub proof fn lemma_decimal_chars_digits(n: nat)
    ensures
        forall|k: int| 0 <= k < decimal_chars(n).len() ==> char_is_digit(decimal_chars(n)[k]),
    decreases n,
{
    if n < 10 {
        assert forall|k: int| 0 <= k < decimal_chars(n).len() implies char_is_digit(
            decimal_chars(n)[k],
        ) by {
            assert(decimal_chars(n)[k] == digit_char(n));
            assert(char_is_digit(digit_char(n)));
        }
    } else {
        lemma_decimal_chars_digits(n / 10);
        let p = decimal_chars(n / 10);
        assert forall|k: int| 0 <= k < decimal_chars(n).len() implies char_is_digit(
            decimal_chars(n)[k],
        ) by {
            if k < p.len() {
                assert(decimal_chars(n)[k] == p[k]);
            } else {
                assert(decimal_chars(n)[k] == digit_char(n % 10));
                assert(char_is_digit(digit_char(n % 10)));
            }
        }
    }
}

/// Reading back the decimal rendering of `n` gives `n`.
pub proof fn lemma_decimal_chars_value(n: nat)
    ensures
        digits_value(decimal_chars(n)) == n,
    decreases n,
{
    if n < 10 {
        let s = decimal_chars(n);
        assert(s.drop_last() =~= Seq::<char>::empty());
        assert(digits_value(Seq::<char>::empty()) == 0);
        assert(s.last() == digit_char(n));
        assert(digit_value(digit_char(n)) == n);
    } else {
        lemma_decimal_chars_value(n / 10);
        let s = decimal_chars(n);
        assert(s.drop_last() =~= decimal_chars(n / 10));
        assert(digit_value(digit_char(n % 10)) == n % 10);
    }
}

/// The width of the decimal rendering of `n`, for `n` below ten thousand.
pub proof fn lemma_decimal_chars_len(n: nat)
    ensures
        n < 10 ==> decimal_chars(n).len() == 1,
        10 <= n < 100 ==> decimal_chars(n).len() == 2,
        100 <= n < 1000 ==> decimal_chars(n).len() == 3,
        1000 <= n < 10000 ==> decimal_chars(n).len() == 4,
    decreases n,
{
    if n >= 10 {
        lemma_decimal_chars_len(n / 10);
    }
}

/// The round-trip law: a timestamp whose components lie in their
/// nominal ranges, and whose year has three or four digits, parses
/// back from its canonical text to exactly itself.
pub proof fn lemma_parse_round_trip(t: TimeStamp)
    requires
        100 <= t.year <= 9999,
        1 <= t.month <= 12,
        1 <= t.day <= 31,
        t.hour <= 23,
        t.minute <= 59,
        t.second <= 59,
    ensures
        timestamp_of_chars(timestamp_chars(t)) == Some(t),
{
    let y = decimal_chars(t.year as nat);
    let mo = decimal_chars(t.month as nat);
    let d = decimal_chars(t.day as nat);
    let h = decimal_chars(t.hour as nat);
    let mi = decimal_chars(t.minute as nat);
    let se = decimal_chars(t.second as nat);
    let s = timestamp_chars(t);
    lemma_decimal_chars_digits(t.year as nat);
    lemma_decimal_chars_digits(t.month as nat);
    lemma_decimal_chars_digits(t.day as nat);
    lemma_decimal_chars_digits(t.hour as nat);
    lemma_decimal_chars_digits(t.minute as nat);
    lemma_decimal_chars_digits(t.second as nat);
    lemma_decimal_chars_len(t.year as nat);
    lemma_decimal_chars_len(t.month as nat);
    lemma_decimal_chars_len(t.day as nat);
    lemma_decimal_chars_len(t.hour as nat);
    lemma_decimal_chars_len(t.minute as nat);
    lemma_decimal_chars_len(t.second as nat);
    let yl = y.len() as int;
    let mo_start = yl + 1;
    let d_start = mo_start + mo.len() + 1;
    let h_start = d_start + d.len() + 1;
    let mi_start = h_start + h.len() + 1;
    let s_start = mi_start + mi.len() + 1;
    assert(s.len() == s_start + se.len());
    assert(!char_is_digit('-'));
    assert(!char_is_digit(' '));
    assert(!char_is_digit(':'));
    assert(forall|k: int| 0 <= k < yl ==> s[k] == y[k]);
    assert(s[yl] == '-');
    lemma_run_len_exact(s, 0, yl);
    assert(forall|k: int| 0 <= k < mo.len() ==> s[mo_start + k] == mo[k]);
    assert(s[mo_start + mo.len()] == '-');
    lemma_run_len_exact(s, mo_start, mo_start + mo.len());
    assert(forall|k: int| 0 <= k < d.len() ==> s[d_start + k] == d[k]);
    assert(s[d_start + d.len()] == ' ');
    lemma_run_len_exact(s, d_start, d_start + d.len());
    assert(forall|k: int| 0 <= k < h.len() ==> s[h_start + k] == h[k]);
    assert(s[h_start + h.len()] == ':');
    lemma_run_len_exact(s, h_start, h_start + h.len());
    assert(forall|k: int| 0 <= k < mi.len() ==> s[mi_start + k] == mi[k]);
    assert(s[mi_start + mi.len()] == ':');
    lemma_run_len_exact(s, mi_start, mi_start + mi.len());
    assert(forall|k: int| 0 <= k < se.len() ==> s[s_start + k] == se[k]);
    lemma_run_len_exact(s, s_start, s_start + se.len());
    assert(s.subrange(0, yl) =~= y);
    assert(s.subrange(mo_start, mo_start + mo.len()) =~= mo);
    assert(s.subrange(d_start, d_start + d.len()) =~= d);
    assert(s.subrange(h_start, h_start + h.len()) =~= h);
    assert(s.subrange(mi_start, mi_start + mi.len()) =~= mi);
    assert(s.subrange(s_start, s_start + se.len()) =~= se);
    lemma_decimal_chars_value(t.year as nat);
    lemma_decimal_chars_value(t.month as nat);
    lemma_decimal_chars_value(t.day as nat);
    lemma_decimal_chars_value(t.hour as nat);
    lemma_decimal_chars_value(t.minute as nat);
    lemma_decimal_chars_value(t.second as nat);
}

/// Whether `c` is an ASCII decimal digit, executably.
fn is_digit_char(c: char) -> (r: bool)
    ensures
        r == char_is_digit(c),
{
    let v = c as u32;
    48 <= v && v <= 57
}

/// The end of the maximal digit run of `s` starting at `start`.
fn digit_run_end(s: &str, start: usize) -> (j: usize)
    requires
        start <= s@.len(),
    ensures
        start <= j <= s@.len(),
        j - start == digit_run_len(s@, start as int),
        forall|k: int| start <= k < j ==> char_is_digit(s@[k]),
{
    let n = s.unicode_len();
    let mut j = start;
    while j < n && is_digit_char(s.get_char(j))
        invariant
            start <= j <= n,
            n == s@.len(),
            forall|k: int| start <= k < j ==> char_is_digit(s@[k]),
        decreases n - j,
    {
        j = j + 1;
    }
    proof {
        lemma_run_len_exact(s@, start as int, j as int);
    }
    j
}

/// Reads the value of the digits of `s` in `[i, j)`, in base ten.
fn digits_to_value(s: &str, i: usize, j: usize) -> (v: u16)
    requires
        i <= j <= s@.len(),
        j - i <= 4,
        forall|k: int| i <= k < j ==> char_is_digit(s@[k]),
    ensures
        v == digits_value(s@.subrange(i as int, j as int)),
        v < ten_pow((j - i) as nat),
{
    proof {
        assert(ten_pow(0) == 1);
        assert(ten_pow(1) == 10);
        assert(ten_pow(2) == 100);
        assert(ten_pow(3) == 1000);
        assert(ten_pow(4) == 10000);
        assert(s@.subrange(i as int, i as int) =~= Seq::<char>::empty());
    }
    let mut v: u16 = 0;
    let mut k = i;
    while k < j
        invariant
            i <= k <= j,
            j <= s@.len(),
            j - i <= 4,
            forall|k2: int| i <= k2 < j ==> char_is_digit(s@[k2]),
            v == digits_value(s@.subrange(i as int, k as int)),
            v < ten_pow((k - i) as nat),
            ten_pow(1) == 10 && ten_pow(2) == 100 && ten_pow(3) == 1000 && ten_pow(4) == 10000,
        decreases j - k,
    {
        let c = s.get_char(k);
        assert(char_is_digit(s@[k as int]));
        let d = (c as u32 - 48) as u16;
        proof {
            let pre = s@.subrange(i as int, k as int);
            let post = s@.subrange(i as int, k + 1int);
            assert(post.drop_last() =~= pre);
            assert(post.last() == s@[k as int]);
            assert(ten_pow(((k + 1) - i) as nat) == 10 * ten_pow((k - i) as nat));
        }
        v = v * 10 + d;
        k = k + 1;
    }
    v
}

/// A one-character string for the digit `d`.
fn digit_str(d: u8) -> (r: &'static str)
    requires
        d < 10,
    ensures
        r@ =~= seq![digit_char(d as nat)],
{
    proof {
        reveal_strlit("0");
        reveal_strlit("1");
        reveal_strlit("2");
        reveal_strlit("3");
        reveal_strlit("4");
        reveal_strlit("5");
        reveal_strlit("6");
        reveal_strlit("7");
        reveal_strlit("8");
        reveal_strlit("9");
    }
    if d == 0 {
        "0"
    } else if d == 1 {
        "1"
    } else if d == 2 {
        "2"
    } else if d == 3 {
        "3"
    } else if d == 4 {
        "4"
    } else if d == 5 {
        "5"
    } else if d == 6 {
        "6"
    } else if d == 7 {
        "7"
    } else if d == 8 {
        "8"
    } else {
        "9"
    }
}

/// Appends the decimal digits of `n` to `s`, most significant first.
fn push_decimal(s: &mut String, n: u16)
    ensures
        final(s)@ == old(s)@ + decimal_chars(n as nat),
    decreases n,
{
    if n >= 10 {
        push_decimal(s, n / 10);
    }
    s.append(digit_str((n % 10) as u8));
    proof {
        assert(old(s)@ + decimal_chars(n as nat) =~= s@);
    }
}

impl TimeStamp {
    /// Captures the current local wall-clock time, truncated to whole
    /// seconds. The year is reduced modulo 65536 to fit its field.
    ///
    /// Relies on `chrono::Local::now` and chrono's `Datelike` /
    /// `Timelike` accessors: `month()` returns 1-12, `day()` 1-31,
    /// `hour()` 0-23, `minute()` 0-59 and `second()` 0-59.
    #[verifier::external_body]
    pub fn new() -> (r: TimeStamp)
        ensures
            1 <= r.month <= 12,
            1 <= r.day <= 31,
            r.hour <= 23,
            r.minute <= 59,
            r.second <= 59,
    {
        let dt = chrono::Local::now();
        TimeStamp {
            year: dt.year() as u16,
            month: dt.month() as u8,
            day: dt.day() as u8,
            hour: dt.hour() as u8,
            minute: dt.minute() as u8,
            second: dt.second() as u8,
        }
    }

    /// Parses a timestamp from its textual form.
    ///
    /// Returns `None` exactly when the text does not match the
    /// pattern: 3-4 digit year, `-`, 1-2 digit month, `-`, 1-2 digit
    /// day, space, 1-2 digit hour, `:`, 1-2 digit minute, `:`, 1-2
    /// digit second, with nothing before or after. A value that
    /// matches the pattern parses even when it is no calendar date.
    pub fn from_string(timestamp: &str) -> (r: Option<TimeStamp>)
        ensures
            r == timestamp_of_chars(timestamp@),
    {
        let n = timestamp.unicode_len();
        let y_end = digit_run_end(timestamp, 0);
        if !(3 <= y_end && y_end <= 4) {
            return None;
        }
        if !(y_end < n) {
            return None;
        }
        if timestamp.get_char(y_end) != '-' {
            return None;
        }
        let mo_start = y_end + 1;
        let mo_end = digit_run_end(timestamp, mo_start);
        if !(1 <= mo_end - mo_start && mo_end - mo_start <= 2) {
            return None;
        }
        if !(mo_end < n) {
            return None;
        }
        if timestamp.get_char(mo_end) != '-' {
            return None;
        }
        let d_start = mo_end + 1;
        let d_end = digit_run_end(timestamp, d_start);
        if !(1 <= d_end - d_start && d_end - d_start <= 2) {
            return None;
        }
        if !(d_end < n) {
            return None;
        }
        if timestamp.get_char(d_end) != ' ' {
            return None;
        }
        let h_start = d_end + 1;
        let h_end = digit_run_end(timestamp, h_start);
        if !(1 <= h_end - h_start && h_end - h_start <= 2) {
            return None;
        }
        if !(h_end < n) {
            return None;
        }
        if timestamp.get_char(h_end) != ':' {
            return None;
        }
        let mi_start = h_end + 1;
        let mi_end = digit_run_end(timestamp, mi_start);
        if !(1 <= mi_end - mi_start && mi_end - mi_start <= 2) {
            return None;
        }
        if !(mi_end < n) {
            return None;
        }
        if timestamp.get_char(mi_end) != ':' {
            return None;
        }
        let s_start = mi_end + 1;
        let s_end = digit_run_end(timestamp, s_start);
        if !(1 <= s_end - s_start && s_end - s_start <= 2) {
            return None;
        }
        if !(s_end == n) {
            return None;
        }
        let year = digits_to_value(timestamp, 0, y_end);
        let month = digits_to_value(timestamp, mo_start, mo_end);
        let day = digits_to_value(timestamp, d_start, d_end);
        let hour = digits_to_value(timestamp, h_start, h_end);
        let minute = digits_to_value(timestamp, mi_start, mi_end);
        let second = digits_to_value(timestamp, s_start, s_end);
        proof {
            assert(ten_pow(0) == 1);
            assert(ten_pow(1) == 10);
            assert(ten_pow(2) == 100);
            assert(ten_pow(3) == 1000);
            assert(ten_pow(4) == 10000);
        }
        Some(
            TimeStamp {
                year,
                month: month as u8,
                day: day as u8,
                hour: hour as u8,
                minute: minute as u8,
                second: second as u8,
            },
        )
    }

    /// Renders the timestamp in its canonical textual form.
    pub fn to_text(&self) -> (r: String)
        ensures
            r@ == timestamp_chars(*self),
    {
        proof {
            reveal_strlit("-");
            reveal_strlit(" ");
            reveal_strlit(":");
        }
        let mut s = String::new();
        push_decimal(&mut s, self.year);
        s.append("-");
        push_decimal(&mut s, self.month as u16);
        s.append("-");
        push_decimal(&mut s, self.day as u16);
        s.append(" ");
        push_decimal(&mut s, self.hour as u16);
        s.append(":");
        push_decimal(&mut s, self.minute as u16);
        s.append(":");
        push_decimal(&mut s, self.second as u16);
        proof {
            assert(s@ =~= timestamp_chars(*self));
        }
        s
    }
}

} // verus!
