//! Calendar dates and UTC date-times, and their RFC 3339 text.
//!
//! Validity of a date or a time, and the RFC 3339 rendering, are computed
//! by the `chrono` crate; the contracts below state what that crate does.

use vstd::prelude::*;

verus! {

/// The first year that `chrono` can represent.
pub open spec fn min_year() -> int {
    -262143
}

/// The last year that `chrono` can represent.
pub open spec fn max_year() -> int {
    262142
}

/// Leap years of the proleptic Gregorian calendar.
pub open spec fn is_leap_year(y: int) -> bool {
    y % 4 == 0 && (y % 100 != 0 || y % 400 == 0)
}

/// The number of days of month `m` (1 to 12) of year `y`.
pub open spec fn days_in_month(y: int, m: int) -> int {
    if m == 2 {
        if is_leap_year(y) { 29 } else { 28 }
    } else if m == 4 || m == 6 || m == 9 || m == 11 {
        30
    } else {
        31
    }
}

/// A calendar date that exists and lies in the range `chrono` represents.
pub open spec fn valid_ymd(y: int, m: int, d: int) -> bool {
    &&& min_year() <= y <= max_year()
    &&& 1 <= m <= 12
    &&& 1 <= d <= days_in_month(y, m)
}

/// A time of day; a nanosecond count of a second or more marks a leap
/// second, which may only follow second 59.
pub open spec fn valid_hms_nano(h: int, mi: int, s: int, n: int) -> bool {
    &&& 0 <= h < 24
    &&& 0 <= mi < 60
    &&& 0 <= s < 60
    &&& 0 <= n < 2_000_000_000
    &&& (n >= 1_000_000_000 ==> s == 59)
}

/// The character of a decimal digit.
pub open spec fn digit_char(d: int) -> char {
    (d + 48) as char
}

/// The decimal digits of `n`, without leading zeros ("0" for zero).
pub open spec fn decimal(n: nat) -> Seq<char>
    decreases n,
{
    if n < 10 {
        seq![digit_char(n as int)]
    } else {
        decimal(n / 10).push(digit_char((n % 10) as int))
    }
}

/// The decimal digits of `n`, padded on the left with zeros to `width`.
pub open spec fn zero_padded(n: nat, width: nat) -> Seq<char> {
    let d = decimal(n);
    if d.len() >= width {
        d
    } else {
        Seq::new((width - d.len()) as nat, |i: int| '0') + d
    }
}

/// The year as RFC 3339 writes it: four digits for years 0 to 9999,
/// otherwise an explicit sign before at least four digits.
pub open spec fn year_text(y: int) -> Seq<char> {
    if 0 <= y <= 9999 {
        zero_padded(y as nat, 4)
    } else if y > 9999 {
        seq!['+'] + zero_padded(y as nat, 4)
    } else {
        seq!['-'] + zero_padded((-y) as nat, 4)
    }
}

/// The fraction of a second, with the fewest of 0, 3, 6 or 9 digits that
/// show it exactly.
pub open spec fn fraction_text(n: int) -> Seq<char> {
    if n == 0 {
        Seq::empty()
    } else if n % 1_000_000 == 0 {
        seq!['.'] + zero_padded((n / 1_000_000) as nat, 3)
    } else if n % 1_000 == 0 {
        seq!['.'] + zero_padded((n / 1_000) as nat, 6)
    } else {
        seq!['.'] + zero_padded(n as nat, 9)
    }
}

/// The RFC 3339 text of a UTC date-time, with offset `+00:00`.
pub open spec fn rfc3339_text(y: int, mo: int, d: int, h: int, mi: int, s: int, n: int) -> Seq<char> {
    let leap = n >= 1_000_000_000;
    let sec = if leap { s + 1 } else { s };
    let nano = if leap { n - 1_000_000_000 } else { n };
    year_text(y) + seq!['-'] + zero_padded(mo as nat, 2) + seq!['-'] + zero_padded(d as nat, 2)
        + seq!['T'] + zero_padded(h as nat, 2) + seq![':'] + zero_padded(mi as nat, 2) + seq![':']
        + zero_padded(sec as nat, 2) + fraction_text(nano) + seq!['+', '0', '0', ':', '0', '0']
}

/// Every character of `s` is a decimal digit.
pub open spec fn all_digits(s: Seq<char>) -> bool {
    forall|i: int| 0 <= i < s.len() ==> '0' <= #[trigger] s[i] <= '9'
}

/// The characters RFC 3339 text is made of.
pub open spec fn is_rfc3339_char(c: char) -> bool {
    ('0' <= c <= '9') || c == '-' || c == '+' || c == 'T' || c == ':' || c == '.'
}

pub proof fn lemma_decimal_digits(n: nat)
    ensures
        all_digits(decimal(n)),
        decimal(n).len() >= 1,
    decreases n,
{
    if n >= 10 {
        lemma_decimal_digits(n / 10);
    }
}

pub proof fn lemma_zero_padded_digits(n: nat, width: nat)
    ensures
        all_digits(zero_padded(n, width)),
        zero_padded(n, width).len() >= width,
        zero_padded(n, width).len() >= 1,
{
    lemma_decimal_digits(n);
    let d = decimal(n);
    if d.len() < width {
        let z = Seq::new((width - d.len()) as nat, |i: int| '0');
        assert forall|i: int| 0 <= i < (z + d).len() implies '0' <= #[trigger] (z + d)[i] <= '9' by {
            if i >= z.len() {
                assert((z + d)[i] == d[i - z.len()]);
            }
        }
    }
}

/// RFC 3339 text holds only digits and the characters `-+T:.`; in
/// particular it never holds `!`, the separator of key fields.
pub proof fn lemma_rfc3339_chars(y: int, mo: int, d: int, h: int, mi: int, s: int, n: int)
    ensures
        forall|i: int|
            0 <= i < rfc3339_text(y, mo, d, h, mi, s, n).len() ==> is_rfc3339_char(
                #[trigger] rfc3339_text(y, mo, d, h, mi, s, n)[i],
            ),
        !rfc3339_text(y, mo, d, h, mi, s, n).contains('!'),
{
    let leap = n >= 1_000_000_000;
    let sec = if leap { s + 1 } else { s };
    let nano = if leap { n - 1_000_000_000 } else { n };
    lemma_year_text_chars(y);
    lemma_fraction_text_chars(nano);
    lemma_zero_padded_digits(mo as nat, 2);
    lemma_zero_padded_digits(d as nat, 2);
    lemma_zero_padded_digits(h as nat, 2);
    lemma_zero_padded_digits(mi as nat, 2);
    lemma_zero_padded_digits(sec as nat, 2);
    let parts = seq![
        year_text(y),
        seq!['-'],
        zero_padded(mo as nat, 2),
        seq!['-'],
        zero_padded(d as nat, 2),
        seq!['T'],
        zero_padded(h as nat, 2),
        seq![':'],
        zero_padded(mi as nat, 2),
        seq![':'],
        zero_padded(sec as nat, 2),
        fraction_text(nano),
        seq!['+', '0', '0', ':', '0', '0'],
    ];
    let t = rfc3339_text(y, mo, d, h, mi, s, n);
    assert(chars_ok(t)) by {
        let p = parts;
        let t2 = p[0] + p[1] + p[2] + p[3] + p[4] + p[5] + p[6] + p[7] + p[8] + p[9] + p[10] + p[11] + p[12];
        assert(t == t2);
        lemma_chars_ok_concat(p[0], p[1]);
        lemma_chars_ok_concat(p[0] + p[1], p[2]);
        lemma_chars_ok_concat(p[0] + p[1] + p[2], p[3]);
        lemma_chars_ok_concat(p[0] + p[1] + p[2] + p[3], p[4]);
        lemma_chars_ok_concat(p[0] + p[1] + p[2] + p[3] + p[4], p[5]);
        lemma_chars_ok_concat(p[0] + p[1] + p[2] + p[3] + p[4] + p[5], p[6]);
        lemma_chars_ok_concat(p[0] + p[1] + p[2] + p[3] + p[4] + p[5] + p[6], p[7]);
        lemma_chars_ok_concat(p[0] + p[1] + p[2] + p[3] + p[4] + p[5] + p[6] + p[7], p[8]);
        lemma_chars_ok_concat(p[0] + p[1] + p[2] + p[3] + p[4] + p[5] + p[6] + p[7] + p[8], p[9]);
        lemma_chars_ok_concat(p[0] + p[1] + p[2] + p[3] + p[4] + p[5] + p[6] + p[7] + p[8] + p[9], p[10]);
        lemma_chars_ok_concat(p[0] + p[1] + p[2] + p[3] + p[4] + p[5] + p[6] + p[7] + p[8] + p[9] + p[10], p[11]);
        lemma_chars_ok_concat(p[0] + p[1] + p[2] + p[3] + p[4] + p[5] + p[6] + p[7] + p[8] + p[9] + p[10] + p[11], p[12]);
    }
    assert(!t.contains('!')) by {
        if t.contains('!') {
            let i = choose|i: int| 0 <= i < t.len() && t[i] == '!';
            assert(is_rfc3339_char(t[i]));
        }
    }
}

/// Every character of `s` may occur in RFC 3339 text.
pub open spec fn chars_ok(s: Seq<char>) -> bool {
    forall|i: int| 0 <= i < s.len() ==> is_rfc3339_char(#[trigger] s[i])
}

proof fn lemma_chars_ok_concat(a: Seq<char>, b: Seq<char>)
    requires
        chars_ok(a),
        chars_ok(b),
    ensures
        chars_ok(a + b),
{
    assert forall|i: int| 0 <= i < (a + b).len() implies is_rfc3339_char(#[trigger] (a + b)[i]) by {
        if i < a.len() {
            assert((a + b)[i] == a[i]);
        } else {
            assert((a + b)[i] == b[i - a.len()]);
        }
    }
}

proof fn lemma_year_text_chars(y: int)
    ensures
        chars_ok(year_text(y)),
{
    lemma_zero_padded_digits(y as nat, 4);
    lemma_zero_padded_digits((-y) as nat, 4);
    if y > 9999 {
        lemma_chars_ok_concat(seq!['+'], zero_padded(y as nat, 4));
    } else if y < 0 {
        lemma_chars_ok_concat(seq!['-'], zero_padded((-y) as nat, 4));
    }
}

proof fn lemma_fraction_text_chars(n: int)
    ensures
        chars_ok(fraction_text(n)),
{
    lemma_zero_padded_digits((n / 1_000_000) as nat, 3);
    lemma_zero_padded_digits((n / 1_000) as nat, 6);
    lemma_zero_padded_digits(n as nat, 9);
    lemma_chars_ok_concat(seq!['.'], zero_padded((n / 1_000_000) as nat, 3));
    lemma_chars_ok_concat(seq!['.'], zero_padded((n / 1_000) as nat, 6));
    lemma_chars_ok_concat(seq!['.'], zero_padded(n as nat, 9));
}

/// Whether `chrono::NaiveDate::from_ymd_opt` accepts the date: it does so
/// exactly for the dates of the proleptic Gregorian calendar in its year range.
#[verifier::external_body]
fn chrono_date_exists(year: i32, month: u32, day: u32) -> (r: bool)
    ensures
        r == valid_ymd(year as int, month as int, day as int),
{
    chrono::NaiveDate::from_ymd_opt(year, month, day).is_some()
}

/// Whether `chrono::NaiveTime::from_hms_nano_opt` accepts the time of day.
#[verifier::external_body]
fn chrono_time_exists(hour: u32, minute: u32, second: u32, nano: u32) -> (r: bool)
    ensures
        r == valid_hms_nano(hour as int, minute as int, second as int, nano as int),
{
    chrono::NaiveTime::from_hms_nano_opt(hour, minute, second, nano).is_some()
}

/// `chrono::DateTime::<Utc>::to_rfc3339` of the given UTC date-time: the
/// contract states the text that chrono's RFC 3339 writer produces for
/// offset zero (`SecondsFormat::AutoSi`, no `Z`).
#[verifier::external_body]
fn chrono_rfc3339(year: i32, month: u32, day: u32, hour: u32, minute: u32, second: u32, nano: u32) -> (r: String)
    requires
        valid_ymd(year as int, month as int, day as int),
        valid_hms_nano(hour as int, minute as int, second as int, nano as int),
    ensures
        r@ == rfc3339_text(year as int, month as int, day as int, hour as int, minute as int, second as int, nano as int),
{
    let date = chrono::NaiveDate::from_ymd_opt(year, month, day).unwrap();
    let naive = date.and_hms_nano_opt(hour, minute, second, nano).unwrap();
    chrono::DateTime::<chrono::Utc>::from_naive_utc_and_offset(naive, chrono::Utc).to_rfc3339()
}

/// The mathematical content of a calendar date.
pub struct DateSpec {
    pub year: int,
    pub month: int,
    pub day: int,
}

/// The mathematical content of a UTC date-time.
pub struct DateTimeSpec {
    pub year: int,
    pub month: int,
    pub day: int,
    pub hour: int,
    pub minute: int,
    pub second: int,
    pub nano: int,
}

impl DateSpec {
    pub open spec fn valid(self) -> bool {
        valid_ymd(self.year, self.month, self.day)
    }
}

impl DateTimeSpec {
    pub open spec fn valid(self) -> bool {
        valid_ymd(self.year, self.month, self.day) && valid_hms_nano(
            self.hour,
            self.minute,
            self.second,
            self.nano,
        )
    }

    pub open spec fn rfc3339(self) -> Seq<char> {
        rfc3339_text(self.year, self.month, self.day, self.hour, self.minute, self.second, self.nano)
    }
}

/// A calendar date in UTC (a date of the proleptic Gregorian calendar).
#[derive(Debug, Clone, Copy)]
pub struct UtcDate {
    year: i32,
    month: u32,
    day: u32,
}

impl View for UtcDate {
    type V = DateSpec;

    closed spec fn view(&self) -> DateSpec {
        DateSpec { year: self.year as int, month: self.month as int, day: self.day as int }
    }
}

impl UtcDate {
    #[verifier::type_invariant]
    closed spec fn inv(self) -> bool {
        valid_ymd(self.year as int, self.month as int, self.day as int)
    }

    /// The year; every date holds a valid calendar date.
    pub fn year(&self) -> (r: i32)
        ensures
            r == self@.year,
            self@.valid(),
    {
        proof {
            use_type_invariant(self);
        }
        self.year
    }

    /// The month, 1 to 12; every date holds a valid calendar date.
    pub fn month(&self) -> (r: u32)
        ensures
            r == self@.month,
            self@.valid(),
    {
        proof {
            use_type_invariant(self);
        }
        self.month
    }

    /// The day of the month; every date holds a valid calendar date.
    pub fn day(&self) -> (r: u32)
        ensures
            r == self@.day,
            self@.valid(),
    {
        proof {
            use_type_invariant(self);
        }
        self.day
    }

    /// The date `year-month-day`, which must exist.
    pub fn ymd(year: i32, month: u32, day: u32) -> (r: UtcDate)
        requires
            valid_ymd(year as int, month as int, day as int),
        ensures
            r@ == (DateSpec { year: year as int, month: month as int, day: day as int }),
    {
        UtcDate { year, month, day }
    }

    /// The date `year-month-day`, or `None` where no such date exists.
    pub fn ymd_opt(year: i32, month: u32, day: u32) -> (r: Option<UtcDate>)
        ensures
            r is Some <==> valid_ymd(year as int, month as int, day as int),
            r matches Some(d) ==> d@ == (DateSpec { year: year as int, month: month as int, day: day as int }),
    {
        if chrono_date_exists(year, month, day) {
            Some(UtcDate { year, month, day })
        } else {
            None
        }
    }

    /// The date-time at `hour:minute:second` on this date, which must be a
    /// time of day.
    pub fn and_hms(&self, hour: u32, minute: u32, second: u32) -> (r: UtcDateTime)
        requires
            valid_hms_nano(hour as int, minute as int, second as int, 0),
        ensures
            r@ == (DateTimeSpec {
                year: self@.year,
                month: self@.month,
                day: self@.day,
                hour: hour as int,
                minute: minute as int,
                second: second as int,
                nano: 0,
            }),
    {
        proof {
            use_type_invariant(self);
        }
        UtcDateTime { date: *self, hour, minute, second, nano: 0 }
    }
}

/// A date-time in UTC, with nanoseconds (a leap second is held as a
/// nanosecond count from one second up to two).
#[derive(Debug, Clone, Copy)]
pub struct UtcDateTime {
    date: UtcDate,
    hour: u32,
    minute: u32,
    second: u32,
    nano: u32,
}

impl View for UtcDateTime {
    type V = DateTimeSpec;

    closed spec fn view(&self) -> DateTimeSpec {
        DateTimeSpec {
            year: self.date.year as int,
            month: self.date.month as int,
            day: self.date.day as int,
            hour: self.hour as int,
            minute: self.minute as int,
            second: self.second as int,
            nano: self.nano as int,
        }
    }
}

impl UtcDateTime {
    #[verifier::type_invariant]
    closed spec fn inv(self) -> bool {
        valid_hms_nano(self.hour as int, self.minute as int, self.second as int, self.nano as int)
    }

    /// The date of this date-time; every date-time holds a valid date and a
    /// valid time of day.
    pub fn date(&self) -> (r: UtcDate)
        ensures
            r@ == (DateSpec { year: self@.year, month: self@.month, day: self@.day }),
            self@.valid(),
    {
        proof {
            use_type_invariant(self);
            use_type_invariant(&self.date);
        }
        self.date
    }

    /// The hour, minute, second and nanosecond of this date-time; every
    /// date-time holds a valid date and a valid time of day.
    pub fn time_of_day(&self) -> (r: (u32, u32, u32, u32))
        ensures
            r.0 == self@.hour,
            r.1 == self@.minute,
            r.2 == self@.second,
            r.3 == self@.nano,
            self@.valid(),
    {
        proof {
            use_type_invariant(self);
            use_type_invariant(&self.date);
        }
        (self.hour, self.minute, self.second, self.nano)
    }

    /// The date-time with the given parts, or `None` where the date does not
    /// exist or the parts are no time of day.
    pub fn from_parts_opt(
        year: i32,
        month: u32,
        day: u32,
        hour: u32,
        minute: u32,
        second: u32,
        nano: u32,
    ) -> (r: Option<UtcDateTime>)
        ensures
            r is Some <==> (valid_ymd(year as int, month as int, day as int) && valid_hms_nano(
                hour as int,
                minute as int,
                second as int,
                nano as int,
            )),
            r matches Some(t) ==> t@ == (DateTimeSpec {
                year: year as int,
                month: month as int,
                day: day as int,
                hour: hour as int,
                minute: minute as int,
                second: second as int,
                nano: nano as int,
            }),
    {
        match UtcDate::ymd_opt(year, month, day) {
            Some(date) => {
                if chrono_time_exists(hour, minute, second, nano) {
                    Some(UtcDateTime { date, hour, minute, second, nano })
                } else {
                    None
                }
            },
            None => None,
        }
    }

    /// The RFC 3339 text of this date-time, as `chrono` writes it.
    pub fn to_rfc3339(&self) -> (r: String)
        ensures
            r@ == self@.rfc3339(),
    {
        proof {
            use_type_invariant(self);
            use_type_invariant(&self.date);
        }
        chrono_rfc3339(
            self.date.year,
            self.date.month,
            self.date.day,
            self.hour,
            self.minute,
            self.second,
            self.nano,
        )
    }
}

} // verus!
