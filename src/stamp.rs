//! Wall-clock timestamps with a UTC offset, and their fixed text form
//! `YYYY-MM-DD HH:MM:SS +HHMM`.

use vstd::arithmetic::div_mod::{lemma_mod_breakdown, lemma_small_mod};
use vstd::prelude::*;

verus! {

/// A local date and time of day, with the offset from UTC in minutes.
#[derive(Clone, Copy, Debug, PartialEq, Eq, Structural)]
pub struct Stamp {
    pub year: i32,
    pub month: u8,
    pub day: u8,
    pub hour: u8,
    pub minute: u8,
    pub second: u8,
    /// Minutes east of UTC.
    pub offset: i16,
}

pub open spec fn is_leap(y: int) -> bool {
    (y % 4 == 0 && y % 100 != 0) || y % 400 == 0
}

pub open spec fn days_in_month(y: int, m: int) -> int {
    if m == 2 {
        if is_leap(y) { 29 } else { 28 }
    } else if m == 4 || m == 6 || m == 9 || m == 11 {
        30
    } else {
        31
    }
}

impl Stamp {
    /// A real calendar date in years 0 to 9999, a valid time of day, and an
    /// offset that `+HHMM` can write.
    pub open spec fn wf(self) -> bool {
        &&& 0 <= self.year <= 9999
        &&& 1 <= self.month <= 12
        &&& 1 <= self.day <= days_in_month(self.year as int, self.month as int)
        &&& self.hour < 24
        &&& self.minute < 60
        &&& self.second < 60
        &&& -1439 <= self.offset <= 1439
    }
}

/// Number of days in a month of a year.
pub fn month_length(year: i32, month: u8) -> (r: u8)
    requires
        0 <= year,
        1 <= month <= 12,
    ensures
        r == days_in_month(year as int, month as int),
{
    let y: u32 = year as u32;
    if month == 2 {
        if (y % 4 == 0 && y % 100 != 0) || y % 400 == 0 {
            29
        } else {
            28
        }
    } else if month == 4 || month == 6 || month == 9 || month == 11 {
        30
    } else {
        31
    }
}

impl Stamp {
    /// Whether the fields form a valid stamp.
    pub fn is_valid(&self) -> (r: bool)
        ensures
            r == self.wf(),
    {
        if self.year < 0 || self.year > 9999 || self.month < 1 || self.month > 12 {
            return false;
        }
        let len = month_length(self.year, self.month);
        1 <= self.day && self.day <= len && self.hour < 24 && self.minute < 60 && self.second
            < 60 && -1439 <= self.offset && self.offset <= 1439
    }
}

// ---------------------------------------------------------------- digits

pub open spec fn digit_char(d: int) -> char {
    if d == 0 {
        '0'
    } else if d == 1 {
        '1'
    } else if d == 2 {
        '2'
    } else if d == 3 {
        '3'
    } else if d == 4 {
        '4'
    } else if d == 5 {
        '5'
    } else if d == 6 {
        '6'
    } else if d == 7 {
        '7'
    } else if d == 8 {
        '8'
    } else {
        '9'
    }
}

pub open spec fn is_digit(c: char) -> bool {
    48 <= c as int <= 57
}

pub open spec fn digit_value(c: char) -> int {
    c as int - 48
}

pub open spec fn all_digits(t: Seq<char>) -> bool {
    forall|i: int| 0 <= i < t.len() ==> is_digit(#[trigger] t[i])
}

/// The number that a run of decimal digits writes.
pub open spec fn digits_value(t: Seq<char>) -> int
    decreases t.len(),
{
    if t.len() == 0 {
        0
    } else {
        digits_value(t.drop_last()) * 10 + digit_value(t.last())
    }
}

pub open spec fn pow10(n: nat) -> nat
    decreases n,
{
    if n == 0 {
        1
    } else {
        10 * pow10((n - 1) as nat)
    }
}

/// The last `n` decimal digits of `v`, zero-padded to width `n`.
pub open spec fn padded(v: nat, n: nat) -> Seq<char>
    decreases n,
{
    if n == 0 {
        seq![]
    } else {
        padded(v / 10, (n - 1) as nat).push(digit_char((v % 10) as int))
    }
}

/// The decimal digits of `v`, without leading zeros.
pub open spec fn decimal(v: nat) -> Seq<char>
    decreases v,
{
    if v < 10 {
        seq![digit_char(v as int)]
    } else {
        decimal(v / 10).push(digit_char((v % 10) as int))
    }
}

pub proof fn lemma_digit_char(d: int)
    requires
        0 <= d < 10,
    ensures
        is_digit(digit_char(d)),
        digit_value(digit_char(d)) == d,
{
}

pub proof fn lemma_padded(v: nat, n: nat)
    ensures
        padded(v, n).len() == n,
        all_digits(padded(v, n)),
        digits_value(padded(v, n)) == v % pow10(n),
    decreases n,
{
    if n > 0 {
        let m = (n - 1) as nat;
        lemma_padded(v / 10, m);
        lemma_digit_char((v % 10) as int);
        let p = padded(v, n);
        assert(p.drop_last() =~= padded(v / 10, m));
        assert(pow10(m) > 0) by {
            lemma_pow10_pos(m);
        }
        lemma_mod_breakdown(v as int, 10, pow10(m) as int);
        assert(all_digits(p)) by {
            assert forall|i: int| 0 <= i < p.len() implies is_digit(#[trigger] p[i]) by {
                if i < m {
                    assert(p[i] == padded(v / 10, m)[i]);
                }
            }
        }
    }
}

proof fn lemma_pow10_mono(k: nat)
    requires
        k < 4,
    ensures
        pow10(k + 1) <= 10000,
{
    reveal_with_fuel(pow10, 5);
}

pub proof fn lemma_pow10_pos(n: nat)
    ensures
        pow10(n) > 0,
    decreases n,
{
    if n > 0 {
        lemma_pow10_pos((n - 1) as nat);
    }
}

// ---------------------------------------------------------------- text form

pub open spec fn sign_char(offset: int) -> char {
    if offset < 0 {
        '-'
    } else {
        '+'
    }
}

pub open spec fn abs(v: int) -> nat {
    if v < 0 {
        (-v) as nat
    } else {
        v as nat
    }
}

/// `YYYY-MM-DD HH:MM:SS +HHMM`.
pub open spec fn stamp_text(s: Stamp) -> Seq<char> {
    padded(s.year as nat, 4) + seq!['-'] + padded(s.month as nat, 2) + seq!['-'] + padded(
        s.day as nat,
        2,
    ) + seq![' '] + padded(s.hour as nat, 2) + seq![':'] + padded(s.minute as nat, 2) + seq![':']
        + padded(s.second as nat, 2) + seq![' ', sign_char(s.offset as int)] + padded(
        abs(s.offset as int) / 60,
        2,
    ) + padded(abs(s.offset as int) % 60, 2)
}

/// The number written by the `n` characters of `t` from `i`.
pub open spec fn field(t: Seq<char>, i: int, n: int) -> int {
    digits_value(t.subrange(i, i + n))
}

pub open spec fn digits_at(t: Seq<char>, i: int, n: int) -> bool {
    all_digits(t.subrange(i, i + n))
}

pub open spec fn text_shape(t: Seq<char>) -> bool {
    &&& t.len() == 25
    &&& t[4] == '-' && t[7] == '-' && t[10] == ' ' && t[13] == ':' && t[16] == ':' && t[19]
        == ' '
    &&& (t[20] == '+' || t[20] == '-')
    &&& digits_at(t, 0, 4) && digits_at(t, 5, 2) && digits_at(t, 8, 2)
    &&& digits_at(t, 11, 2) && digits_at(t, 14, 2) && digits_at(t, 17, 2)
    &&& digits_at(t, 21, 2) && digits_at(t, 23, 2)
    &&& field(t, 21, 2) < 24 && field(t, 23, 2) < 60
}

/// The stamp that a text of the right shape writes, before any range check.
pub open spec fn text_fields(t: Seq<char>) -> Stamp {
    let off = field(t, 21, 2) * 60 + field(t, 23, 2);
    Stamp {
        year: field(t, 0, 4) as i32,
        month: field(t, 5, 2) as u8,
        day: field(t, 8, 2) as u8,
        hour: field(t, 11, 2) as u8,
        minute: field(t, 14, 2) as u8,
        second: field(t, 17, 2) as u8,
        offset: (if t[20] == '-' { -off } else { off }) as i16,
    }
}

/// What a text reads as: the stamp, where the text has the fixed form and
/// names a valid date and time.
#[verifier::opaque]
pub open spec fn parse_stamp(t: Seq<char>) -> Option<Stamp> {
    if text_shape(t) && text_fields(t).wf() {
        Some(text_fields(t))
    } else {
        None
    }
}

proof fn lemma_field_of_padded(t: Seq<char>, i: int, v: nat, n: nat)
    requires
        0 <= i,
        i + n <= t.len(),
        t.subrange(i, i + n) == padded(v, n),
        v < pow10(n),
    ensures
        digits_at(t, i, n as int),
        field(t, i, n as int) == v,
{
    lemma_padded(v, n);
    lemma_pow10_pos(n);
    lemma_small_mod(v, pow10(n));
}

/// A valid stamp's text reads back as that stamp.
pub proof fn lemma_stamp_text_parses(s: Stamp)
    requires
        s.wf(),
    ensures
        parse_stamp(stamp_text(s)) == Some(s),
{
    reveal(parse_stamp);
    let t = stamp_text(s);
    let a = abs(s.offset as int);
    lemma_padded(s.year as nat, 4);
    lemma_padded(s.month as nat, 2);
    lemma_padded(s.day as nat, 2);
    lemma_padded(s.hour as nat, 2);
    lemma_padded(s.minute as nat, 2);
    lemma_padded(s.second as nat, 2);
    lemma_padded(a / 60, 2);
    lemma_padded(a % 60, 2);
    reveal_with_fuel(pow10, 5);
    assert(pow10(2) == 100 && pow10(4) == 10000);
    assert(t.len() == 25);
    assert(t.subrange(0, 4) =~= padded(s.year as nat, 4));
    assert(t.subrange(5, 7) =~= padded(s.month as nat, 2));
    assert(t.subrange(8, 10) =~= padded(s.day as nat, 2));
    assert(t.subrange(11, 13) =~= padded(s.hour as nat, 2));
    assert(t.subrange(14, 16) =~= padded(s.minute as nat, 2));
    assert(t.subrange(17, 19) =~= padded(s.second as nat, 2));
    assert(t.subrange(21, 23) =~= padded(a / 60, 2));
    assert(t.subrange(23, 25) =~= padded(a % 60, 2));
    lemma_field_of_padded(t, 0, s.year as nat, 4);
    lemma_field_of_padded(t, 5, s.month as nat, 2);
    lemma_field_of_padded(t, 8, s.day as nat, 2);
    lemma_field_of_padded(t, 11, s.hour as nat, 2);
    lemma_field_of_padded(t, 14, s.minute as nat, 2);
    lemma_field_of_padded(t, 17, s.second as nat, 2);
    lemma_field_of_padded(t, 21, a / 60, 2);
    lemma_field_of_padded(t, 23, a % 60, 2);
    assert(t[4] == '-' && t[7] == '-' && t[10] == ' ' && t[13] == ':' && t[16] == ':' && t[19]
        == ' ' && t[20] == sign_char(s.offset as int));
    assert(text_fields(t) == s);
}

// ---------------------------------------------------------------- writing

/// Appends one decimal digit.
pub fn push_digit(out: &mut String, d: u32)
    requires
        d < 10,
    ensures
        final(out)@ == old(out)@.push(digit_char(d as int)),
{
    let c: &str = if d == 0 {
        proof { reveal_strlit("0"); }
        "0"
    } else if d == 1 {
        proof { reveal_strlit("1"); }
        "1"
    } else if d == 2 {
        proof { reveal_strlit("2"); }
        "2"
    } else if d == 3 {
        proof { reveal_strlit("3"); }
        "3"
    } else if d == 4 {
        proof { reveal_strlit("4"); }
        "4"
    } else if d == 5 {
        proof { reveal_strlit("5"); }
        "5"
    } else if d == 6 {
        proof { reveal_strlit("6"); }
        "6"
    } else if d == 7 {
        proof { reveal_strlit("7"); }
        "7"
    } else if d == 8 {
        proof { reveal_strlit("8"); }
        "8"
    } else {
        proof { reveal_strlit("9"); }
        "9"
    };
    out.append(c);
    assert(final(out)@ =~= old(out)@.push(digit_char(d as int)));
}

/// Appends the last `n` digits of `v`, zero-padded.
pub fn push_padded(out: &mut String, v: u32, n: usize)
    ensures
        final(out)@ == old(out)@ + padded(v as nat, n as nat),
    decreases n,
{
    if n > 0 {
        push_padded(out, v / 10, n - 1);
        push_digit(out, v % 10);
    }
    assert(final(out)@ =~= old(out)@ + padded(v as nat, n as nat));
}

/// Appends the decimal digits of `v`.
pub fn push_decimal(out: &mut String, v: u128)
    ensures
        final(out)@ == old(out)@ + decimal(v as nat),
    decreases v,
{
    if v >= 10 {
        push_decimal(out, v / 10);
        push_digit(out, (v % 10) as u32);
    } else {
        push_digit(out, v as u32);
    }
    assert(final(out)@ =~= old(out)@ + decimal(v as nat));
}

/// Appends a string literal's text.
pub fn push_str(out: &mut String, t: &str)
    ensures
        final(out)@ == old(out)@ + t@,
{
    out.append(t);
}

/// Writes a stamp as `YYYY-MM-DD HH:MM:SS +HHMM`.
pub fn stamp_to_text(s: &Stamp) -> (r: String)
    requires
        s.wf(),
    ensures
        r@ == stamp_text(*s),
{
    proof {
        reveal_strlit("");
        reveal_strlit("-");
        reveal_strlit(" ");
        reveal_strlit(":");
        reveal_strlit(" +");
        reveal_strlit(" -");
    }
    let mut out = String::from_str("");
    push_padded(&mut out, s.year as u32, 4);
    push_str(&mut out, "-");
    push_padded(&mut out, s.month as u32, 2);
    push_str(&mut out, "-");
    push_padded(&mut out, s.day as u32, 2);
    push_str(&mut out, " ");
    push_padded(&mut out, s.hour as u32, 2);
    push_str(&mut out, ":");
    push_padded(&mut out, s.minute as u32, 2);
    push_str(&mut out, ":");
    push_padded(&mut out, s.second as u32, 2);
    let a: u32 = if s.offset < 0 {
        push_str(&mut out, " -");
        (-(s.offset as i32)) as u32
    } else {
        push_str(&mut out, " +");
        s.offset as u32
    };
    push_padded(&mut out, a / 60, 2);
    push_padded(&mut out, a % 60, 2);
    assert(out@ =~= stamp_text(*s));
    out
}

// ---------------------------------------------------------------- reading

/// Reads the `n` characters of `t` from `i` as a decimal number, where all
/// of them are digits.
fn read_digits(t: &str, i: usize, n: usize) -> (r: Option<u32>)
    requires
        i + n <= t@.len(),
        i + n <= 25,
        n <= 4,
    ensures
        r is Some <==> digits_at(t@, i as int, n as int),
        r matches Some(v) ==> v == field(t@, i as int, n as int),
{
    let mut v: u32 = 0;
    let mut k: usize = 0;
    while k < n
        invariant
            k <= n,
            i + n <= t@.len(),
            i + n <= 25,
            n <= 4,
            digits_at(t@, i as int, k as int),
            v == field(t@, i as int, k as int),
            v < pow10(k as nat),
        decreases n - k,
    {
        let c = t.get_char(i + k);
        if !('0' <= c && c <= '9') {
            assert(!all_digits(t@.subrange(i as int, i + n))) by {
                assert(t@.subrange(i as int, i + n)[k as int] == c);
            }
            return None;
        }
        let sub = Ghost(t@.subrange(i as int, i + k + 1));
        assert(sub@.drop_last() =~= t@.subrange(i as int, i + k));
        assert(sub@.last() == c);
        assert(all_digits(sub@)) by {
            assert forall|j: int| 0 <= j < sub@.len() implies is_digit(#[trigger] sub@[j]) by {
                if j < k {
                    assert(sub@[j] == t@.subrange(i as int, i + k)[j]);
                }
            }
        }
        assert(v * 10 + 9 < pow10((k + 1) as nat)) by (nonlinear_arith)
            requires
                v < pow10(k as nat),
                pow10((k + 1) as nat) == 10 * pow10(k as nat),
        ;
        proof {
            reveal_with_fuel(pow10, 5);
            lemma_pow10_mono(k as nat);
        }
        v = v * 10 + (c as u32 - 48);
        k = k + 1;
    }
    Some(v)
}

/// Reads a stamp written as `YYYY-MM-DD HH:MM:SS +HHMM`; `None` where the
/// text has another form or names no valid date and time.
pub fn parse_stamp_text(t: &str) -> (r: Option<Stamp>)
    ensures
        r == parse_stamp(t@),
{
    reveal(parse_stamp);
    if t.unicode_len() != 25 {
        return None;
    }
    if t.get_char(4) != '-' || t.get_char(7) != '-' || t.get_char(10) != ' ' || t.get_char(13)
        != ':' || t.get_char(16) != ':' || t.get_char(19) != ' ' {
        return None;
    }
    let sign = t.get_char(20);
    if sign != '+' && sign != '-' {
        return None;
    }
    let year = match read_digits(t, 0, 4) { Some(v) => v, None => return None };
    let month = match read_digits(t, 5, 2) { Some(v) => v, None => return None };
    let day = match read_digits(t, 8, 2) { Some(v) => v, None => return None };
    let hour = match read_digits(t, 11, 2) { Some(v) => v, None => return None };
    let minute = match read_digits(t, 14, 2) { Some(v) => v, None => return None };
    let second = match read_digits(t, 17, 2) { Some(v) => v, None => return None };
    let oh = match read_digits(t, 21, 2) { Some(v) => v, None => return None };
    let om = match read_digits(t, 23, 2) { Some(v) => v, None => return None };
    proof {
        reveal_with_fuel(pow10, 5);
    }
    if oh >= 24 || om >= 60 {
        return None;
    }
    let off: i16 = (oh * 60 + om) as i16;
    let s = Stamp {
        year: year as i32,
        month: month as u8,
        day: day as u8,
        hour: hour as u8,
        minute: minute as u8,
        second: second as u8,
        offset: if sign == '-' { -off } else { off },
    };
    assert(s == text_fields(t@));
    if s.is_valid() {
        Some(s)
    } else {
        None
    }
}

// ---------------------------------------------------------------- the clock

/// Seconds since the Unix epoch of the instant that a valid stamp denotes.
pub uninterp spec fn unix_of(
    year: int,
    month: int,
    day: int,
    hour: int,
    minute: int,
    second: int,
    offset: int,
) -> int;

impl Stamp {
    pub open spec fn unix(self) -> int {
        unix_of(
            self.year as int,
            self.month as int,
            self.day as int,
            self.hour as int,
            self.minute as int,
            self.second as int,
            self.offset as int,
        )
    }
}

/// Relies on time's `PrimitiveDateTime::assume_offset` and
/// `OffsetDateTime::unix_timestamp`: the instant, in whole seconds since the Unix
/// epoch, that a valid date, time of day and offset denote. `try_from_ymd`
/// and `try_from_hms` accept every valid stamp.
#[verifier::external_body]
pub fn unix_seconds(s: &Stamp) -> (r: i64)
    requires
        s.wf(),
    ensures
        r == unix_of(
            s.year as int,
            s.month as int,
            s.day as int,
            s.hour as int,
            s.minute as int,
            s.second as int,
            s.offset as int,
        ),
{
    let date = time::Date::try_from_ymd(s.year, s.month, s.day).unwrap();
    let clock = time::Time::try_from_hms(s.hour, s.minute, s.second).unwrap();
    let offset = time::UtcOffset::minutes(s.offset);
    time::PrimitiveDateTime::new(date, clock).assume_offset(offset).unix_timestamp()
}

/// Relies on time's `OffsetDateTime::now_local`: the current date and time
/// with the system's UTC offset (UTC where that cannot be found). Nothing is
/// promised of the fields: callers check them.
#[verifier::external_body]
#[allow(deprecated)]
fn clock_fields() -> (r: Stamp) {
    let t = time::OffsetDateTime::now_local();
    Stamp {
        year: t.year(),
        month: t.month(),
        day: t.day(),
        hour: t.hour(),
        minute: t.minute(),
        second: t.second(),
        offset: t.offset().as_minutes(),
    }
}

/// The local time now; `None` where the clock gives a time that a stamp
/// cannot hold.
pub fn now_local() -> (r: Option<Stamp>)
    ensures
        r matches Some(s) ==> s.wf(),
{
    let s = clock_fields();
    if s.is_valid() {
        Some(s)
    } else {
        None
    }
}

} // verus!
