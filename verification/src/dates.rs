//! Calendar dates and date-times read with chrono, and their text forms.
use vstd::prelude::*;

use crate::text::push_char;

verus! {

/// A calendar date.
pub struct CalendarDate {
    pub year: i32,
    pub month: u32,
    pub day: u32,
}

/// A date and a time of day; `nanosecond` reaches past one second only in a leap second.
pub struct DateTimeParts {
    pub year: i32,
    pub month: u32,
    pub day: u32,
    pub hour: u32,
    pub minute: u32,
    pub second: u32,
    pub nanosecond: u32,
}

/// The date (year, month, day) that `chrono::NaiveDate::parse_from_str` reads
/// from `text` with the format `fmt`, or `None` where it refuses them.
pub uninterp spec fn chrono_date(text: Seq<char>, fmt: Seq<char>) -> Option<(int, int, int)>;

/// The date and time (year, month, day, hour, minute, second, nanosecond) that
/// `chrono::NaiveDateTime::parse_from_str` reads from `text` with the format
/// `fmt`, or `None` where it refuses them.
pub uninterp spec fn chrono_datetime(text: Seq<char>, fmt: Seq<char>) -> Option<
    (int, int, int, int, int, int, int),
>;

/// `chrono::NaiveDate::parse_from_str`, the date taken apart with `Datelike`
/// and the error turned into its message. Claimed: it succeeds exactly where
/// `chrono_date` is defined, with that date, whose month is 1 to 12 and whose
/// day is 1 to 31 (as chrono documents `month` and `day`).
#[verifier::external_body]
fn chrono_parse_date(text: &str, fmt: &str) -> (r: Result<CalendarDate, String>)
    ensures
        match chrono_date(text@, fmt@) {
            Some((y, m, d)) => r matches Ok(c) && c.year == y && c.month == m && c.day == d,
            None => r is Err,
        },
        r matches Ok(c) ==> 1 <= c.month <= 12 && 1 <= c.day <= 31,
{
    match chrono::NaiveDate::parse_from_str(text, fmt) {
        Ok(d) => Ok(
            CalendarDate {
                year: chrono::Datelike::year(&d),
                month: chrono::Datelike::month(&d),
                day: chrono::Datelike::day(&d),
            },
        ),
        Err(e) => Err(e.to_string()),
    }
}

/// `chrono::NaiveDateTime::parse_from_str`, the result taken apart with
/// `Datelike` and `Timelike`. Claimed: it succeeds exactly where
/// `chrono_datetime` is defined, with those parts, in the ranges that chrono
/// documents for them (month 1 to 12, day 1 to 31, hour below 24, minute and
/// second below 60, nanosecond below two seconds).
#[verifier::external_body]
fn chrono_parse_datetime(text: &str, fmt: &str) -> (r: Option<DateTimeParts>)
    ensures
        match chrono_datetime(text@, fmt@) {
            Some((y, mo, d, h, mi, s, n)) => r matches Some(p) && p.year == y && p.month == mo
                && p.day == d && p.hour == h && p.minute == mi && p.second == s && p.nanosecond
                == n,
            None => r is None,
        },
        r matches Some(p) ==> 1 <= p.month <= 12 && 1 <= p.day <= 31 && p.hour < 24 && p.minute
            < 60 && p.second < 60 && p.nanosecond < 2_000_000_000,
{
    chrono::NaiveDateTime::parse_from_str(text, fmt).ok().map(
        |t| DateTimeParts {
            year: chrono::Datelike::year(&t),
            month: chrono::Datelike::month(&t),
            day: chrono::Datelike::day(&t),
            hour: chrono::Timelike::hour(&t),
            minute: chrono::Timelike::minute(&t),
            second: chrono::Timelike::second(&t),
            nanosecond: chrono::Timelike::nanosecond(&t),
        },
    )
}

/// `true` for a date in the ranges that chrono gives.
pub open spec fn date_in_range(d: CalendarDate) -> bool {
    1 <= d.month <= 12 && 1 <= d.day <= 31
}

/// `true` for a date-time in the ranges that chrono gives.
pub open spec fn datetime_in_range(p: DateTimeParts) -> bool {
    &&& 1 <= p.month <= 12
    &&& 1 <= p.day <= 31
    &&& p.hour < 24
    &&& p.minute < 60
    &&& p.second < 60
    &&& p.nanosecond < 2_000_000_000
}

/// The date that `text` holds in the format `fmt`, or chrono's error message.
pub fn parse_date(text: &str, fmt: &str) -> (r: Result<CalendarDate, String>)
    ensures
        match chrono_date(text@, fmt@) {
            Some((y, m, d)) => r matches Ok(c) && c.year == y && c.month == m && c.day == d,
            None => r is Err,
        },
        r matches Ok(c) ==> date_in_range(c),
{
    chrono_parse_date(text, fmt)
}

/// The date and time that `text` holds in the format `fmt`, or `None`.
pub fn parse_datetime(text: &str, fmt: &str) -> (r: Option<DateTimeParts>)
    ensures
        match chrono_datetime(text@, fmt@) {
            Some((y, mo, d, h, mi, s, n)) => r matches Some(p) && p.year == y && p.month == mo
                && p.day == d && p.hour == h && p.minute == mi && p.second == s && p.nanosecond
                == n,
            None => r is None,
        },
        r matches Some(p) ==> datetime_in_range(p),
{
    chrono_parse_datetime(text, fmt)
}

// ---------------------------------------------------------------------------
// Decimal text
/// The decimal digit for `d` in 0..=9.
pub open spec fn digit_char(d: int) -> char {
    if d == 0 {
        '0'
    } else if d == 1 {
        '1'
    } else if d == 2 {
        '2'
    } else if d == 3 {
        '3'
    } else if d == 4 {
        '4'
    } else if d == 5 {
        '5'
    } else if d == 6 {
        '6'
    } else if d == 7 {
        '7'
    } else if d == 8 {
        '8'
    } else {
        '9'
    }
}

/// The decimal digits of `n`, without leading zeros ("0" for zero).
pub open spec fn digits(n: nat) -> Seq<char>
    decreases n,
{
    if n < 10 {
        seq![digit_char(n as int)]
    } else {
        digits(n / 10).push(digit_char((n % 10) as int))
    }
}

/// The decimal digits of `n`, with '0's in front up to `width` characters.
pub open spec fn zero_padded(n: nat, width: nat) -> Seq<char> {
    let d = digits(n);
    if d.len() >= width {
        d
    } else {
        Seq::new((width - d.len()) as nat, |i: int| '0') + d
    }
}

/// The year as chrono writes it for `%Y` and in `Display`: four digits for
/// 0 to 9999, otherwise a sign and at least four digits.
pub open spec fn year_text(y: int) -> Seq<char> {
    if 0 <= y <= 9999 {
        zero_padded(y as nat, 4)
    } else if y < 0 {
        seq!['-'] + zero_padded((-y) as nat, 4)
    } else {
        seq!['+'] + zero_padded(y as nat, 4)
    }
}

/// A date as chrono displays it: `YYYY-MM-DD`.
pub open spec fn date_text(y: int, m: nat, d: nat) -> Seq<char> {
    year_text(y) + seq!['-'] + zero_padded(m, 2) + seq!['-'] + zero_padded(d, 2)
}

/// A date as chrono formats it with `%Y%m%d`.
pub open spec fn compact_date_text(y: int, m: nat, d: nat) -> Seq<char> {
    year_text(y) + zero_padded(m, 2) + zero_padded(d, 2)
}

/// The fraction of a second as chrono displays it: nothing for zero, else a
/// '.' and three, six or nine digits, the fewest that hold it exactly.
pub open spec fn fraction_text(nano: nat) -> Seq<char> {
    if nano == 0 {
        Seq::empty()
    } else if nano % 1_000_000 == 0 {
        seq!['.'] + zero_padded(nano / 1_000_000, 3)
    } else if nano % 1_000 == 0 {
        seq!['.'] + zero_padded(nano / 1_000, 6)
    } else {
        seq!['.'] + zero_padded(nano, 9)
    }
}

/// A time of day as chrono displays it: `HH:MM:SS` and the fraction; a leap
/// second (nanosecond of one second or more) shows as second 60.
pub open spec fn time_text(h: nat, mi: nat, s: nat, nano: nat) -> Seq<char> {
    let (sec, frac) = if nano >= 1_000_000_000 {
        (s + 1, (nano - 1_000_000_000) as nat)
    } else {
        (s, nano)
    };
    zero_padded(h, 2) + seq![':'] + zero_padded(mi, 2) + seq![':'] + zero_padded(sec, 2)
        + fraction_text(frac)
}

/// A date-time given by its parts as chrono displays it: the date, a space and the time.
pub open spec fn parts_text(y: int, mo: nat, d: nat, h: nat, mi: nat, s: nat, n: nat) -> Seq<char> {
    date_text(y, mo, d) + seq![' '] + time_text(h, mi, s, n)
}

/// A date-time as chrono displays it: the date, a space and the time.
pub open spec fn datetime_text(p: DateTimeParts) -> Seq<char> {
    parts_text(
        p.year as int,
        p.month as nat,
        p.day as nat,
        p.hour as nat,
        p.minute as nat,
        p.second as nat,
        p.nanosecond as nat,
    )
}

fn digit(d: u64) -> (c: char)
    requires
        d < 10,
    ensures
        c == digit_char(d as int),
{
    if d == 0 {
        '0'
    } else if d == 1 {
        '1'
    } else if d == 2 {
        '2'
    } else if d == 3 {
        '3'
    } else if d == 4 {
        '4'
    } else if d == 5 {
        '5'
    } else if d == 6 {
        '6'
    } else if d == 7 {
        '7'
    } else if d == 8 {
        '8'
    } else {
        '9'
    }
}

fn push_digits(out: &mut String, n: u64)
    ensures
        final(out)@ == old(out)@ + digits(n as nat),
    decreases n,
{
    if n < 10 {
        push_char(out, digit(n));
    } else {
        push_digits(out, n / 10);
        push_char(out, digit(n % 10));
        assert(digits(n as nat) == digits((n / 10) as nat).push(digit_char((n % 10) as int)));
    }
}

fn digit_count(n: u64) -> (r: usize)
    ensures
        r == digits(n as nat).len(),
        r <= 20,
    decreases n,
{
    proof {
        lemma_u64_digits(n);
    }
    if n < 10 {
        1
    } else {
        let k = digit_count(n / 10);
        k + 1
    }
}

/// Ten to the power `k`.
pub open spec fn pow10(k: nat) -> nat
    decreases k,
{
    if k == 0 {
        1
    } else {
        10 * pow10((k - 1) as nat)
    }
}

proof fn lemma_digits_below_pow10(n: nat, k: nat)
    requires
        k >= 1,
        n < pow10(k),
    ensures
        digits(n).len() <= k,
    decreases k,
{
    if n >= 10 {
        assert(k >= 2) by {
            if k == 1 {
                assert(pow10(1) == 10 * pow10(0));
            }
        }
        let k1 = (k - 1) as nat;
        assert(pow10(k) == 10 * pow10(k1));
        assert(n / 10 < pow10(k1)) by (nonlinear_arith)
            requires
                n < 10 * pow10(k1),
        ;
        lemma_digits_below_pow10(n / 10, k1);
    }
}

proof fn lemma_u64_digits(n: u64)
    ensures
        digits(n as nat).len() <= 20,
{
    reveal_with_fuel(pow10, 21);
    assert(pow10(20) == 100000000000000000000nat);
    lemma_digits_below_pow10(n as nat, 20);
}

fn push_zero_padded(out: &mut String, n: u64, width: usize)
    requires
        width <= 20,
    ensures
        final(out)@ == old(out)@ + zero_padded(n as nat, width as nat),
{
    let k = digit_count(n);
    if k < width {
        let mut i: usize = 0;
        while i < width - k
            invariant
                k < width <= 20,
                i <= width - k,
                out@ == old(out)@ + Seq::new(i as nat, |j: int| '0'),
            decreases width - k - i,
        {
            push_char(out, '0');
            assert(Seq::new((i + 1) as nat, |j: int| '0') =~= Seq::new(i as nat, |j: int| '0').push(
                '0',
            ));
            i = i + 1;
        }
    }
    let ghost before = out@;
    push_digits(out, n);
    assert(out@ =~= old(out)@ + zero_padded(n as nat, width as nat));
}

fn push_year(out: &mut String, y: i32)
    ensures
        final(out)@ == old(out)@ + year_text(y as int),
{
    if 0 <= y && y <= 9999 {
        push_zero_padded(out, y as u64, 4);
    } else if y < 0 {
        push_char(out, '-');
        let n: u64 = (0 - (y as i64)) as u64;
        push_zero_padded(out, n, 4);
        assert(out@ =~= old(out)@ + year_text(y as int));
    } else {
        push_char(out, '+');
        push_zero_padded(out, y as u64, 4);
        assert(out@ =~= old(out)@ + year_text(y as int));
    }
}

impl CalendarDate {
    /// The date as chrono displays it: `YYYY-MM-DD`.
    pub fn to_text(&self) -> (r: String)
        ensures
            r@ == date_text(self.year as int, self.month as nat, self.day as nat),
    {
        let mut out = String::new();
        push_date(&mut out, self.year, self.month, self.day);
        assert(out@ =~= date_text(self.year as int, self.month as nat, self.day as nat));
        out
    }

    /// The date as chrono formats it with `%Y%m%d`.
    pub fn compact_text(&self) -> (r: String)
        ensures
            r@ == compact_date_text(self.year as int, self.month as nat, self.day as nat),
    {
        let mut out = String::new();
        push_year(&mut out, self.year);
        push_zero_padded(&mut out, self.month as u64, 2);
        push_zero_padded(&mut out, self.day as u64, 2);
        assert(out@ =~= compact_date_text(self.year as int, self.month as nat, self.day as nat));
        out
    }

    /// The year as chrono formats it with `%Y`.
    pub fn year_text(&self) -> (r: String)
        ensures
            r@ == year_text(self.year as int),
    {
        let mut out = String::new();
        push_year(&mut out, self.year);
        assert(out@ =~= year_text(self.year as int));
        out
    }

    /// The month as chrono formats it with `%m`.
    pub fn month_text(&self) -> (r: String)
        ensures
            r@ == zero_padded(self.month as nat, 2),
    {
        let mut out = String::new();
        push_zero_padded(&mut out, self.month as u64, 2);
        assert(out@ =~= zero_padded(self.month as nat, 2));
        out
    }

    /// The day as chrono formats it with `%d`.
    pub fn day_text(&self) -> (r: String)
        ensures
            r@ == zero_padded(self.day as nat, 2),
    {
        let mut out = String::new();
        push_zero_padded(&mut out, self.day as u64, 2);
        assert(out@ =~= zero_padded(self.day as nat, 2));
        out
    }
}

fn push_fraction(out: &mut String, nano: u32)
    ensures
        final(out)@ == old(out)@ + fraction_text(nano as nat),
{
    if nano == 0 {
        assert(old(out)@ + fraction_text(nano as nat) =~= old(out)@);
    } else if nano % 1_000_000 == 0 {
        push_char(out, '.');
        push_zero_padded(out, (nano / 1_000_000) as u64, 3);
        assert(out@ =~= old(out)@ + fraction_text(nano as nat));
    } else if nano % 1_000 == 0 {
        push_char(out, '.');
        push_zero_padded(out, (nano / 1_000) as u64, 6);
        assert(out@ =~= old(out)@ + fraction_text(nano as nat));
    } else {
        push_char(out, '.');
        push_zero_padded(out, nano as u64, 9);
        assert(out@ =~= old(out)@ + fraction_text(nano as nat));
    }
}

fn push_date(out: &mut String, y: i32, m: u32, d: u32)
    ensures
        final(out)@ == old(out)@ + date_text(y as int, m as nat, d as nat),
{
    push_year(out, y);
    push_char(out, '-');
    push_zero_padded(out, m as u64, 2);
    push_char(out, '-');
    push_zero_padded(out, d as u64, 2);
    assert(out@ =~= old(out)@ + date_text(y as int, m as nat, d as nat));
}

fn push_time(out: &mut String, h: u32, mi: u32, s: u32, nano: u32)
    ensures
        final(out)@ == old(out)@ + time_text(h as nat, mi as nat, s as nat, nano as nat),
{
    push_zero_padded(out, h as u64, 2);
    push_char(out, ':');
    push_zero_padded(out, mi as u64, 2);
    push_char(out, ':');
    let (sec, frac): (u64, u32) = if nano >= 1_000_000_000 {
        (s as u64 + 1, nano - 1_000_000_000)
    } else {
        (s as u64, nano)
    };
    push_zero_padded(out, sec, 2);
    push_fraction(out, frac);
    assert(out@ =~= old(out)@ + time_text(h as nat, mi as nat, s as nat, nano as nat));
}

impl DateTimeParts {
    /// The date-time as chrono displays it (`to_string` of a `NaiveDateTime`).
    pub fn to_text(&self) -> (r: String)
        ensures
            r@ == datetime_text(*self),
    {
        let mut out = String::new();
        push_date(&mut out, self.year, self.month, self.day);
        push_char(&mut out, ' ');
        push_time(&mut out, self.hour, self.minute, self.second, self.nanosecond);
        assert(out@ =~= datetime_text(*self));
        out
    }
}

// ---------------------------------------------------------------------------
// What decimal text stands for
/// Whether `c` is one of the decimal digits '0' to '9'.
pub open spec fn is_digit(c: char) -> bool {
    48 <= c as int <= 57
}

/// The value of the decimal digit `c`.
pub open spec fn digit_value(c: char) -> nat {
    if is_digit(c) {
        (c as int - 48) as nat
    } else {
        0
    }
}

/// The number that the decimal text `s` stands for, read left to right.
pub open spec fn decimal_value(s: Seq<char>) -> nat
    decreases s.len(),
{
    if s.len() == 0 {
        0
    } else {
        decimal_value(s.drop_last()) * 10 + digit_value(s.last())
    }
}

/// Whether every character of `s` is a decimal digit.
pub open spec fn all_digits(s: Seq<char>) -> bool {
    forall|i: int| 0 <= i < s.len() ==> #[trigger] is_digit(s[i])
}

proof fn lemma_digit_char(d: int)
    requires
        0 <= d < 10,
    ensures
        is_digit(digit_char(d)),
        digit_value(digit_char(d)) == d,
        d != 0 ==> digit_char(d) != '0',
{
}

/// The digits of a number are decimal digits that stand for it, without a
/// leading zero; there are `k` of them exactly where `10^(k-1) <= n < 10^k`
/// (one, for zero).
pub proof fn law_digits(n: nat)
    ensures
        digits(n).len() >= 1,
        all_digits(digits(n)),
        decimal_value(digits(n)) == n,
        digits(n).len() >= 2 ==> digits(n)[0] != '0',
        n < pow10(digits(n).len()),
        digits(n).len() >= 2 ==> pow10((digits(n).len() - 1) as nat) <= n,
    decreases n,
{
    if n < 10 {
        lemma_digit_char(n as int);
        assert(digits(n).drop_last() =~= Seq::<char>::empty());
        assert(decimal_value(Seq::<char>::empty()) == 0);
        assert(digits(n).last() == digit_char(n as int));
        reveal_with_fuel(pow10, 2);
    } else {
        let q = n / 10;
        let r = n % 10;
        law_digits(q);
        lemma_digit_char(r as int);
        let d = digits(n);
        let dq = digits(q);
        assert(d == dq.push(digit_char(r as int)));
        assert(d.drop_last() =~= dq);
        assert(d.last() == digit_char(r as int));
        assert(n == q * 10 + r);
        assert(decimal_value(d) == decimal_value(dq) * 10 + digit_value(d.last()));
        assert forall|i: int| 0 <= i < d.len() implies #[trigger] is_digit(d[i]) by {
            if i < dq.len() {
                assert(d[i] == dq[i]);
            }
        }
        assert(d[0] == dq[0]);
        if dq.len() == 1 {
            assert(pow10(1) == 10 * pow10(0));
            assert(q < 10);
            assert(dq == seq![digit_char(q as int)]);
            lemma_digit_char(q as int);
        }
        let k = dq.len();
        assert(pow10(k + 1) == 10 * pow10(k));
        if k >= 2 {
            assert(pow10(k) == 10 * pow10((k - 1) as nat));
        } else {
            assert(pow10(1) == 10 * pow10(0));
        }
    }
}

proof fn lemma_zeros_value(k: nat)
    ensures
        decimal_value(Seq::new(k, |i: int| '0')) == 0,
    decreases k,
{
    if k > 0 {
        assert(Seq::new(k, |i: int| '0').drop_last() =~= Seq::new((k - 1) as nat, |i: int| '0'));
        lemma_zeros_value((k - 1) as nat);
    }
}

proof fn lemma_value_after_zeros(k: nat, d: Seq<char>)
    ensures
        decimal_value(Seq::new(k, |i: int| '0') + d) == decimal_value(d),
    decreases d.len(),
{
    let z = Seq::new(k, |i: int| '0');
    if d.len() == 0 {
        assert(z + d =~= z);
        lemma_zeros_value(k);
    } else {
        assert((z + d).drop_last() =~= z + d.drop_last());
        assert((z + d).last() == d.last());
        lemma_value_after_zeros(k, d.drop_last());
    }
}

/// Zero padding to a width gives decimal digits that stand for the number:
/// as many as the width, or as the number's digits where there are more.
/// A number below `10^width` takes exactly `width` characters.
pub proof fn law_zero_padded(n: nat, width: nat)
    ensures
        zero_padded(n, width).len() == if digits(n).len() >= width {
            digits(n).len()
        } else {
            width
        },
        all_digits(zero_padded(n, width)),
        decimal_value(zero_padded(n, width)) == n,
        width >= 1 && n < pow10(width) ==> zero_padded(n, width).len() == width,
{
    law_digits(n);
    let d = digits(n);
    if d.len() < width {
        let z = Seq::new((width - d.len()) as nat, |i: int| '0');
        lemma_value_after_zeros((width - d.len()) as nat, d);
        assert forall|i: int| 0 <= i < (z + d).len() implies #[trigger] is_digit((z + d)[i]) by {
            if i >= z.len() {
                assert((z + d)[i] == d[i - z.len()]);
            }
        }
    }
    if width >= 1 && n < pow10(width) {
        lemma_digits_below_pow10(n, width);
    }
}

} // verus!
