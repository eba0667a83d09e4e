//! Wall-clock time of day and signed minute durations.

use vstd::prelude::*;

verus! {

/// Errors raised when building or reading a time of day.
#[derive(Debug, Clone, Copy, PartialEq, Eq, Structural)]
pub enum TimeError {
    /// Hours or minutes outside `0..24` / `0..60`.
    InvalidTimeStamp,
    /// Text that is not of the shape `HH:MM`.
    MalformedTimestamp,
}

/// A time of day with minute resolution.
#[derive(Debug, Clone, Copy, PartialEq, Eq, Structural, PartialOrd, Ord, Hash)]
pub struct TimeStamp {
    pub hours: u32,
    pub minutes: u32,
}

/// A signed number of minutes.
#[derive(Debug, Clone, Copy, PartialEq, Eq, Structural, Hash)]
pub struct TimeDuration {
    pub minutes: i64,
}

/// The character of a decimal digit.
pub open spec fn digit_char(d: int) -> char {
    seq!['0', '1', '2', '3', '4', '5', '6', '7', '8', '9'][d]
}

pub open spec fn is_digit(c: char) -> bool {
    '0' <= c && c <= '9'
}

pub open spec fn digit_value(c: char) -> int {
    c as int - '0' as int
}

/// Decimal digits of `n`, without leading zeros.
pub open spec fn decimal_text(n: nat) -> Seq<char>
    decreases n,
{
    if n < 10 {
        seq![digit_char(n as int)]
    } else {
        decimal_text(n / 10).push(digit_char((n % 10) as int))
    }
}

/// Decimal digits of `n`, padded with a zero to at least two digits.
pub open spec fn padded_text(n: nat) -> Seq<char> {
    if n < 10 {
        seq!['0', digit_char(n as int)]
    } else {
        decimal_text(n)
    }
}

/// Whether `s` has the shape `DD:DD` with decimal digits `D`.
pub open spec fn timestamp_shape(s: Seq<char>) -> bool {
    &&& s.len() == 5
    &&& is_digit(s[0])
    &&& is_digit(s[1])
    &&& s[2] == ':'
    &&& is_digit(s[3])
    &&& is_digit(s[4])
}

/// What `TimeStamp::from_string` reads from `s`.
pub open spec fn parse_timestamp(s: Seq<char>) -> Result<TimeStamp, TimeError> {
    if !timestamp_shape(s) {
        Err(TimeError::MalformedTimestamp)
    } else {
        let h = digit_value(s[0]) * 10 + digit_value(s[1]);
        let m = digit_value(s[3]) * 10 + digit_value(s[4]);
        if h < 24 && m < 60 {
            Ok(TimeStamp { hours: h as u32, minutes: m as u32 })
        } else {
            Err(TimeError::InvalidTimeStamp)
        }
    }
}

impl TimeStamp {
    /// Hours and minutes are within a day.
    pub open spec fn wf(self) -> bool {
        self.hours < 24 && self.minutes < 60
    }

    /// Minutes since midnight.
    pub open spec fn minute_of_day(self) -> int {
        self.hours * 60 + self.minutes
    }

    /// The `HH:MM` text of a time of day.
    pub open spec fn text(self) -> Seq<char> {
        padded_text(self.hours as nat) + seq![':'] + padded_text(self.minutes as nat)
    }

    pub fn new(hours: u32, minutes: u32) -> (r: Result<TimeStamp, TimeError>)
        ensures
            hours < 24 && minutes < 60 ==> r == Ok::<TimeStamp, TimeError>(
                TimeStamp { hours, minutes },
            ),
            !(hours < 24 && minutes < 60) ==> r == Err::<TimeStamp, TimeError>(
                TimeError::InvalidTimeStamp,
            ),
    {
        if hours < 24 && minutes < 60 {
            Ok(TimeStamp { hours, minutes })
        } else {
            Err(TimeError::InvalidTimeStamp)
        }
    }

    /// Reads a zero-padded `HH:MM` time of day.
    pub fn from_string(s: &str) -> (r: Result<TimeStamp, TimeError>)
        ensures
            r == parse_timestamp(s@),
    {
        let len = s.unicode_len();
        if len != 5 {
            return Err(TimeError::MalformedTimestamp);
        }
        let c0 = s.get_char(0);
        let c1 = s.get_char(1);
        let c2 = s.get_char(2);
        let c3 = s.get_char(3);
        let c4 = s.get_char(4);
        if !(is_digit_char(c0) && is_digit_char(c1) && c2 == ':' && is_digit_char(c3)
            && is_digit_char(c4)) {
            return Err(TimeError::MalformedTimestamp);
        }
        let hours = digit_of(c0) * 10 + digit_of(c1);
        let minutes = digit_of(c3) * 10 + digit_of(c4);
        TimeStamp::new(hours, minutes)
    }

    /// Formats as zero-padded `HH:MM`.
    pub fn to_string(&self) -> (r: String)
        ensures
            r@ == self.text(),
    {
        let mut r = String::new();
        push_padded(&mut r, self.hours as u64);
        r.append(":");
        proof {
            reveal_strlit(":");
        }
        push_padded(&mut r, self.minutes as u64);
        r
    }

    /// `self - earlier`, counted within one day; negative where `earlier`
    /// is later in the day.
    pub fn minutes_since(&self, earlier: TimeStamp) -> (r: TimeDuration)
        ensures
            r.minutes == self.minute_of_day() - earlier.minute_of_day(),
    {
        let a = self.hours as i64 * 60 + self.minutes as i64;
        let b = earlier.hours as i64 * 60 + earlier.minutes as i64;
        TimeDuration { minutes: a - b }
    }

    /// The time of day `later` after this one, wrapping past midnight.
    pub fn advanced_by(&self, later: TimeDuration) -> (r: TimeStamp)
        requires
            self.wf(),
            later.minutes >= 0,
        ensures
            r.wf(),
            r.minute_of_day() == (self.minute_of_day() + later.minutes) % 1440,
    {
        let start = (self.hours as i64) * 60 + (self.minutes as i64);
        let m = (start + later.minutes % 1440) % 1440;
        assert(m == (start + later.minutes) % 1440) by {
            assert(0 <= start < 1440);
        }
        TimeStamp { hours: (m / 60) as u32, minutes: (m % 60) as u32 }
    }

    /// Strictly earlier in the day.
    pub fn is_before(&self, other: &TimeStamp) -> (r: bool)
        ensures
            r == (self.minute_of_day() < other.minute_of_day()),
    {
        (self.hours as u64) * 60 + (self.minutes as u64) < (other.hours as u64) * 60
            + (other.minutes as u64)
    }
}

fn is_digit_char(c: char) -> (r: bool)
    ensures
        r == is_digit(c),
{
    '0' <= c && c <= '9'
}

fn digit_of(c: char) -> (r: u32)
    requires
        is_digit(c),
    ensures
        r == digit_value(c),
        r < 10,
{
    (c as u32) - ('0' as u32)
}

/// The text of one decimal digit.
fn digit_str(d: u64) -> (r: &'static str)
    requires
        d < 10,
    ensures
        r@ == seq![digit_char(d as int)],
{
    let r = if d == 0 {
        "0"
    } else if d == 1 {
        "1"
    } else if d == 2 {
        "2"
    } else if d == 3 {
        "3"
    } else if d == 4 {
        "4"
    } else if d == 5 {
        "5"
    } else if d == 6 {
        "6"
    } else if d == 7 {
        "7"
    } else if d == 8 {
        "8"
    } else {
        "9"
    };
    proof {
        reveal_strlit("0");
        reveal_strlit("1");
        reveal_strlit("2");
        reveal_strlit("3");
        reveal_strlit("4");
        reveal_strlit("5");
        reveal_strlit("6");
        reveal_strlit("7");
        reveal_strlit("8");
        reveal_strlit("9");
    }
    r
}

/// Appends the decimal digits of `n`.
pub fn push_decimal(out: &mut String, n: u64)
    ensures
        final(out)@ == old(out)@ + decimal_text(n as nat),
    decreases n,
{
    if n >= 10 {
        push_decimal(out, n / 10);
    }
    out.append(digit_str(n % 10));
}

/// Appends the decimal digits of `n`, padded to at least two.
pub fn push_padded(out: &mut String, n: u64)
    ensures
        final(out)@ == old(out)@ + padded_text(n as nat),
{
    if n < 10 {
        out.append("0");
        proof {
            reveal_strlit("0");
        }
    }
    push_decimal(out, n);
}

/// Magnitude of a minute count.
pub open spec fn abs_int(m: int) -> nat {
    if m < 0 { (-m) as nat } else { m as nat }
}

impl TimeDuration {
    /// `[-]HH:MM`: a sign for negative durations, then hours and minutes.
    pub open spec fn text(self) -> Seq<char> {
        let a = abs_int(self.minutes as int);
        (if self.minutes < 0 { seq!['-'] } else { Seq::<char>::empty() }) + padded_text(a / 60)
            + seq![':'] + padded_text(a % 60)
    }

    /// Hundredths of an hour in the magnitude, rounded to the nearest.
    pub open spec fn hundredths_of_hour(self) -> nat {
        (abs_int(self.minutes as int) * 5 + 1) / 3
    }

    /// `[-]H.HHh`: the magnitude in hours with two decimals.
    pub open spec fn hours_text(self) -> Seq<char> {
        let h = self.hundredths_of_hour();
        (if self.minutes < 0 { seq!['-'] } else { Seq::<char>::empty() }) + decimal_text(h / 100)
            + seq!['.'] + padded_text(h % 100) + seq!['h']
    }

    pub fn zero() -> (r: TimeDuration)
        ensures
            r.minutes == 0,
    {
        TimeDuration { minutes: 0 }
    }

    pub fn from_minutes(minutes: i64) -> (r: TimeDuration)
        ensures
            r.minutes == minutes,
    {
        TimeDuration { minutes }
    }

    pub fn add(self, other: TimeDuration) -> (r: TimeDuration)
        requires
            i64::MIN <= self.minutes + other.minutes <= i64::MAX,
        ensures
            r.minutes == self.minutes + other.minutes,
    {
        TimeDuration { minutes: self.minutes + other.minutes }
    }

    pub fn subtract(self, other: TimeDuration) -> (r: TimeDuration)
        requires
            i64::MIN <= self.minutes - other.minutes <= i64::MAX,
        ensures
            r.minutes == self.minutes - other.minutes,
    {
        TimeDuration { minutes: self.minutes - other.minutes }
    }

    fn magnitude(&self) -> (r: u64)
        ensures
            r == abs_int(self.minutes as int),
            r <= 0x8000_0000_0000_0000u64,
    {
        if self.minutes < 0 {
            ((-(self.minutes + 1)) as u64) + 1
        } else {
            self.minutes as u64
        }
    }

    /// Formats as `[-]HH:MM`.
    pub fn to_string(&self) -> (r: String)
        ensures
            r@ == self.text(),
    {
        let mut r = String::new();
        if self.minutes < 0 {
            r.append("-");
            proof {
                reveal_strlit("-");
            }
        }
        let a = self.magnitude();
        push_padded(&mut r, a / 60);
        r.append(":");
        proof {
            reveal_strlit(":");
        }
        push_padded(&mut r, a % 60);
        r
    }

    /// Formats as `[-]HH:MM ([-]H.HHh)`.
    pub fn to_string_with_hours(&self) -> (r: String)
        ensures
            r@ == self.text() + seq![' ', '('] + self.hours_text() + seq![')'],
    {
        let mut r = self.to_string();
        r.append(" (");
        if self.minutes < 0 {
            r.append("-");
        }
        let a = self.magnitude();
        let h = (a / 3) * 5 + ((a % 3) * 5 + 1) / 3;
        assert(h == (a * 5 + 1) / 3);
        push_decimal(&mut r, h / 100);
        r.append(".");
        push_padded(&mut r, h % 100);
        r.append("h)");
        proof {
            reveal_strlit(" (");
            reveal_strlit("-");
            reveal_strlit(".");
            reveal_strlit("h)");
            assert(r@ =~= self.text() + seq![' ', '('] + self.hours_text() + seq![')']);
        }
        r
    }
}

pub(crate) proof fn lemma_padded_two_digits(n: nat)
    requires
        n < 100,
    ensures
        padded_text(n) == seq![digit_char((n / 10) as int), digit_char((n % 10) as int)],
{
    if n >= 10 {
        assert(decimal_text(n / 10) == seq![digit_char((n / 10) as int)]);
        assert(decimal_text(n) =~= seq![digit_char((n / 10) as int), digit_char((n % 10) as int)]);
    }
}

pub(crate) proof fn lemma_digit_char(d: int)
    requires
        0 <= d < 10,
    ensures
        is_digit(digit_char(d)),
        digit_value(digit_char(d)) == d,
{
}

/// Reading back the text of a time of day gives the same time of day.
pub proof fn lemma_timestamp_text_round_trip(t: TimeStamp)
    requires
        t.wf(),
    ensures
        parse_timestamp(t.text()) == Ok::<TimeStamp, TimeError>(t),
{
    lemma_padded_two_digits(t.hours as nat);
    lemma_padded_two_digits(t.minutes as nat);
    lemma_digit_char((t.hours / 10) as int);
    lemma_digit_char((t.hours % 10) as int);
    lemma_digit_char((t.minutes / 10) as int);
    lemma_digit_char((t.minutes % 10) as int);
    let s = t.text();
    assert(s =~= seq![
        digit_char((t.hours / 10) as int),
        digit_char((t.hours % 10) as int),
        ':',
        digit_char((t.minutes / 10) as int),
        digit_char((t.minutes % 10) as int),
    ]);
}

/// Text that reads as a time of day is that time's own text.
pub proof fn lemma_timestamp_parse_exact(s: Seq<char>)
    requires
        parse_timestamp(s) is Ok,
    ensures
        parse_timestamp(s)->Ok_0.wf(),
        parse_timestamp(s)->Ok_0.text() == s,
{
    let t = parse_timestamp(s)->Ok_0;
    lemma_padded_two_digits(t.hours as nat);
    lemma_padded_two_digits(t.minutes as nat);
    assert forall|c: char| is_digit(c) implies digit_char(digit_value(c)) == c by {
        assert(0 <= digit_value(c) < 10);
    }
    assert(t.text() =~= s);
}

} // verus!
