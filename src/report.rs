//! Month filters, per-day totals and the text of reports.

use crate::session::Session;
use crate::stamp::{
    abs, decimal, padded, push_decimal, push_padded, push_str, unix_seconds, Stamp,
};
use vstd::prelude::*;

verus! {

/// A calendar date.
#[derive(Clone, Copy, Debug, PartialEq, Eq, Structural)]
pub struct Day {
    pub year: i32,
    pub month: u8,
    pub day: u8,
}

pub open spec fn day_of(s: Stamp) -> Day {
    Day { year: s.year, month: s.month, day: s.day }
}

/// The most sessions a report takes: a vector of sessions, each larger than
/// 40 bytes, never holds more.
pub const MAX_SESSIONS: u64 = 0x3FFF_FFFF_FFFF_FFFF;

// ---------------------------------------------------------------- months

/// Months since January of year 0.
pub open spec fn month_number(year: int, month: int) -> int {
    year * 12 + (month - 1)
}

/// The year of the month `delta` months before the given one.
pub open spec fn back_year(year: int, month: int, delta: int) -> int {
    (month_number(year, month) - delta) / 12
}

/// The month (1 to 12) that lies `delta` months before the given one.
pub open spec fn back_month(year: int, month: int, delta: int) -> int {
    (month_number(year, month) - delta) % 12 + 1
}

/// The year and month that lie `delta` months before `year`/`month`.
pub fn months_back(year: i32, month: u8, delta: u8) -> (r: (i32, u8))
    requires
        0 <= year <= 9999,
        1 <= month <= 12,
    ensures
        r.0 == back_year(year as int, month as int, delta as int),
        r.1 == back_month(year as int, month as int, delta as int),
        1 <= r.1 <= 12,
{
    // Shifted by 25 years so that the division works on a non-negative number.
    let shifted: u32 = (year as u32 + 25) * 12 + (month as u32 - 1) - delta as u32;
    ((shifted / 12) as i32 - 25, (shifted % 12) as u8 + 1)
}

/// Thirteen months before January of year `y` is December of year `y - 2`.
pub proof fn lemma_thirteen_months_back(y: int)
    ensures
        back_year(y, 1, 13) == y - 2,
        back_month(y, 1, 13) == 12,
{
}

/// The sessions that start in the given month, in store order.
pub open spec fn in_month(v: Seq<Session>, year: int, month: int) -> Seq<Session>
    decreases v.len(),
{
    if v.len() == 0 {
        seq![]
    } else {
        let rest = in_month(v.drop_last(), year, month);
        if v.last().start.year == year && v.last().start.month == month {
            rest.push(v.last())
        } else {
            rest
        }
    }
}

/// The sessions that start in the month `delta` months before the month of
/// `now` (0: the month of `now`).
pub fn get_month_data(data: &Vec<Session>, delta: u8, now: &Stamp) -> (r: Vec<Session>)
    requires
        now.wf(),
    ensures
        r@ == in_month(
            data@,
            back_year(now.year as int, now.month as int, delta as int),
            back_month(now.year as int, now.month as int, delta as int),
        ),
{
    let (year, month) = months_back(now.year, now.month, delta);
    let mut out: Vec<Session> = Vec::new();
    let mut i: usize = 0;
    while i < data.len()
        invariant
            i <= data@.len(),
            out@ == in_month(data@.subrange(0, i as int), year as int, month as int),
        decreases data@.len() - i,
    {
        assert(data@.subrange(0, i + 1).drop_last() =~= data@.subrange(0, i as int));
        if data[i].start.year == year && data[i].start.month == month {
            out.push(data[i].copy());
        }
        i = i + 1;
    }
    assert(data@.subrange(0, data@.len() as int) =~= data@);
    out
}

// ---------------------------------------------------------------- durations

/// Seconds from a session's start to its end, or to `now` while it is open.
pub open spec fn duration(s: Session, now: Stamp) -> int {
    match s.end {
        Some(e) => e.unix() - s.start.unix(),
        None => now.unix() - s.start.unix(),
    }
}

/// Stamps that the clock arithmetic accepts.
pub open spec fn stamps_valid(s: Session, now: Stamp) -> bool {
    &&& s.start.wf()
    &&& s.end matches Some(e) ==> e.wf()
    &&& now.wf()
}

pub const DURATION_BOUND: i128 = 0x1_0000_0000_0000_0000;

/// The length of a session in seconds.
pub fn session_seconds(s: &Session, now: &Stamp) -> (r: i128)
    requires
        stamps_valid(*s, *now),
    ensures
        r == duration(*s, *now),
        -DURATION_BOUND < r < DURATION_BOUND,
{
    let b = unix_seconds(&s.start);
    let e = match s.end {
        Some(e) => unix_seconds(&e),
        None => unix_seconds(now),
    };
    e as i128 - b as i128
}

/// Every session's stamps are accepted by the clock arithmetic.
pub open spec fn all_valid(v: Seq<Session>, now: Stamp) -> bool {
    forall|i: int| 0 <= i < v.len() ==> stamps_valid(#[trigger] v[i], now)
}

/// Every session lasts less than the bound, in either direction.
pub open spec fn durations_bounded(v: Seq<Session>, now: Stamp) -> bool {
    forall|i: int|
        0 <= i < v.len() ==> -DURATION_BOUND < #[trigger] duration(v[i], now) < DURATION_BOUND
}

// ---------------------------------------------------------------- per day

/// The distinct start dates, in order of first appearance.
pub open spec fn days_of(v: Seq<Session>) -> Seq<Day>
    decreases v.len(),
{
    if v.len() == 0 {
        seq![]
    } else {
        let rest = days_of(v.drop_last());
        if rest.contains(day_of(v.last().start)) {
            rest
        } else {
            rest.push(day_of(v.last().start))
        }
    }
}

/// The summed duration of the sessions that start on day `d`.
pub open spec fn day_total(v: Seq<Session>, d: Day, now: Stamp) -> int
    decreases v.len(),
{
    if v.len() == 0 {
        0
    } else {
        day_total(v.drop_last(), d, now) + if day_of(v.last().start) == d {
            duration(v.last(), now)
        } else {
            0
        }
    }
}

/// The summed duration of all sessions.
pub open spec fn total(v: Seq<Session>, now: Stamp) -> int
    decreases v.len(),
{
    if v.len() == 0 {
        0
    } else {
        total(v.drop_last(), now) + duration(v.last(), now)
    }
}

proof fn lemma_days_distinct(v: Seq<Session>)
    ensures
        days_of(v).no_duplicates(),
        forall|d: Day| #[trigger] days_of(v).contains(d) <==> exists|i: int|
            0 <= i < v.len() && day_of(v[i].start) == d,
    decreases v.len(),
{
    if v.len() > 0 {
        let p = v.drop_last();
        let x = day_of(v.last().start);
        lemma_days_distinct(p);
        assert forall|d: Day| #[trigger] days_of(v).contains(d) implies exists|i: int|
            0 <= i < v.len() && day_of(v[i].start) == d by {
            if d == x {
                assert(day_of(v[v.len() - 1].start) == d);
            } else {
                if !days_of(p).contains(x) {
                    let k = choose|k: int| 0 <= k < days_of(v).len() && days_of(v)[k] == d;
                    assert(days_of(v) == days_of(p).push(x));
                    assert(k < days_of(p).len());
                    assert(days_of(p)[k] == d);
                }
                assert(days_of(p).contains(d));
                let i = choose|i: int| 0 <= i < p.len() && day_of(p[i].start) == d;
                assert(v[i] == p[i]);
            }
        }
        assert forall|d: Day| (exists|i: int| 0 <= i < v.len() && day_of(v[i].start) == d)
            implies #[trigger] days_of(v).contains(d) by {
            let i = choose|i: int| 0 <= i < v.len() && day_of(v[i].start) == d;
            if i < v.len() - 1 {
                assert(p[i] == v[i]);
                assert(days_of(p).contains(d));
                let k = choose|k: int| 0 <= k < days_of(p).len() && days_of(p)[k] == d;
                if !days_of(p).contains(x) {
                    assert(days_of(v)[k] == d);
                }
            } else {
                if days_of(p).contains(x) {
                } else {
                    assert(days_of(v)[days_of(v).len() - 1] == d);
                }
            }
        }
    }
}

/// Index of the first pair for day `d`, or the length where there is none.
fn find_day(out: &Vec<(Day, i128)>, d: Day) -> (r: usize)
    ensures
        r <= out@.len(),
        r < out@.len() ==> out@[r as int].0 == d,
        forall|k: int| 0 <= k < r ==> (#[trigger] out@[k]).0 != d,
{
    let mut j: usize = 0;
    while j < out.len()
        invariant
            j <= out@.len(),
            forall|k: int| 0 <= k < j ==> (#[trigger] out@[k]).0 != d,
        decreases out@.len() - j,
    {
        if out[j].0 == d {
            return j;
        }
        j = j + 1;
    }
    j
}

proof fn lemma_total_bound(v: Seq<Session>, now: Stamp, d: Day)
    requires
        durations_bounded(v, now),
    ensures
        -v.len() * DURATION_BOUND <= day_total(v, d, now) <= v.len() * DURATION_BOUND,
        -v.len() * DURATION_BOUND <= total(v, now) <= v.len() * DURATION_BOUND,
    decreases v.len(),
{
    if v.len() > 0 {
        let p = v.drop_last();
        assert(durations_bounded(p, now)) by {
            assert forall|i: int| 0 <= i < p.len() implies -DURATION_BOUND < #[trigger] duration(
                p[i],
                now,
            ) < DURATION_BOUND by {
                assert(p[i] == v[i]);
            }
        }
        lemma_total_bound(p, now, d);
        assert(-DURATION_BOUND < duration(v[v.len() - 1], now) < DURATION_BOUND);
        assert(-v.len() * DURATION_BOUND == -p.len() * DURATION_BOUND - DURATION_BOUND)
            by (nonlinear_arith)
            requires
                v.len() == p.len() + 1,
        ;
    }
}

/// One (date, summed duration in seconds) pair per distinct start date, in
/// order of first appearance.
pub fn compress(data: &Vec<Session>, now: &Stamp) -> (r: Vec<(Day, i128)>)
    requires
        all_valid(data@, *now),
        data@.len() <= MAX_SESSIONS,
    ensures
        durations_bounded(data@, *now),
        r@.len() == days_of(data@).len(),
        forall|j: int|
            0 <= j < r@.len() ==> (#[trigger] r@[j]).0 == days_of(data@)[j] && r@[j].1
                == day_total(data@, r@[j].0, *now),
{
    let mut out: Vec<(Day, i128)> = Vec::new();
    let mut i: usize = 0;
    while i < data.len()
        invariant
            i <= data@.len(),
            data@.len() <= MAX_SESSIONS,
            all_valid(data@, *now),
            durations_bounded(data@.subrange(0, i as int), *now),
            out@.len() == days_of(data@.subrange(0, i as int)).len(),
            forall|j: int|
                0 <= j < out@.len() ==> (#[trigger] out@[j]).0 == days_of(
                    data@.subrange(0, i as int),
                )[j] && out@[j].1 == day_total(data@.subrange(0, i as int), out@[j].0, *now),
        decreases data@.len() - i,
    {
        let ghost prefix = data@.subrange(0, i as int);
        let ghost next = data@.subrange(0, i + 1);
        assert(next.drop_last() =~= prefix);
        assert(next.last() == data@[i as int]);
        let s = &data[i];
        assert(stamps_valid(data@[i as int], *now));
        let dur = session_seconds(s, now);
        let d = Day { year: s.start.year, month: s.start.month, day: s.start.day };
        proof {
            assert(durations_bounded(next, *now)) by {
                assert forall|k: int| 0 <= k < next.len() implies -DURATION_BOUND
                    < #[trigger] duration(next[k], *now) < DURATION_BOUND by {
                    if k < i {
                        assert(next[k] == prefix[k]);
                    }
                }
            }
            lemma_days_distinct(prefix);
            lemma_total_bound(next, *now, d);
            assert(i + 1 <= MAX_SESSIONS);
            assert((i + 1) * DURATION_BOUND < 0x7fff_ffff_ffff_ffff_ffff_ffff_ffff_ffff)
                by (nonlinear_arith)
                requires
                    i + 1 <= MAX_SESSIONS,
            ;
        }
        let j = find_day(&out, d);
        if j < out.len() {
            let (day, sum) = out[j];
            proof {
                assert(day_total(next, day, *now) == sum + dur);
            }
            out.set(j, (day, sum + dur));
            proof {
                assert(days_of(prefix).contains(d)) by {
                    assert(days_of(prefix)[j as int] == d);
                }
                assert(days_of(next) == days_of(prefix));
                assert forall|k: int| 0 <= k < out@.len() implies (#[trigger] out@[k]).0
                    == days_of(next)[k] && out@[k].1 == day_total(next, out@[k].0, *now) by {
                    if k != j {
                        assert(days_of(prefix).no_duplicates());
                    }
                }
            }
        } else {
            proof {
                assert(!days_of(prefix).contains(d)) by {
                    if days_of(prefix).contains(d) {
                        let k = choose|k: int| 0 <= k < days_of(prefix).len() && days_of(prefix)[k] == d;
                        assert(out@[k].0 == d);
                    }
                }
                assert(days_of(next) == days_of(prefix).push(d));
                assert(day_total(prefix, d, *now) == 0) by {
                    lemma_day_total_absent(prefix, d, *now);
                }
            }
            out.push((d, dur));
            proof {
                assert forall|k: int| 0 <= k < out@.len() implies (#[trigger] out@[k]).0
                    == days_of(next)[k] && out@[k].1 == day_total(next, out@[k].0, *now) by {
                    if k < out@.len() - 1 {
                        assert(out@[k].0 != d);
                    }
                }
            }
        }
        i = i + 1;
    }
    assert(data@.subrange(0, data@.len() as int) =~= data@);
    out
}

proof fn lemma_day_total_absent(v: Seq<Session>, d: Day, now: Stamp)
    requires
        !days_of(v).contains(d),
    ensures
        day_total(v, d, now) == 0,
    decreases v.len(),
{
    if v.len() > 0 {
        lemma_days_distinct(v);
        lemma_days_distinct(v.drop_last());
        assert(day_of(v.last().start) != d) by {
            assert(day_of(v[v.len() - 1].start) == day_of(v.last().start));
        }
        assert(!days_of(v.drop_last()).contains(d)) by {
            if days_of(v.drop_last()).contains(d) {
                let i = choose|i: int| 0 <= i < v.drop_last().len() && day_of(v.drop_last()[i].start) == d;
                assert(v[i] == v.drop_last()[i]);
            }
        }
        lemma_day_total_absent(v.drop_last(), d, now);
    }
}

/// Sessions that all start on one date aggregate to that single date, whose
/// summed duration is the sum of every session's duration.
pub proof fn lemma_one_day(v: Seq<Session>, now: Stamp)
    requires
        v.len() > 0,
        forall|i: int| 0 <= i < v.len() ==> day_of((#[trigger] v[i]).start) == day_of(v[0].start),
    ensures
        days_of(v) == seq![day_of(v[0].start)],
        day_total(v, day_of(v[0].start), now) == total(v, now),
    decreases v.len(),
{
    let p = v.drop_last();
    let x = day_of(v[0].start);
    assert(day_of(v.last().start) == x) by {
        assert(v.last() == v[v.len() - 1]);
    }
    if v.len() == 1 {
        assert(p.len() == 0);
        assert(days_of(p) =~= seq![]);
        assert(days_of(v) =~= seq![x]);
        assert(day_total(p, x, now) == 0 && total(p, now) == 0);
    } else {
        assert(p[0] == v[0]);
        assert forall|i: int| 0 <= i < p.len() implies day_of((#[trigger] p[i]).start) == day_of(
            p[0].start,
        ) by {
            assert(p[i] == v[i]);
        }
        lemma_one_day(p, now);
        assert(days_of(p).contains(x)) by {
            assert(days_of(p)[0] == x);
        }
    }
}

/// The sessions of one month keep the validity of the whole.
proof fn lemma_in_month(v: Seq<Session>, year: int, month: int, now: Stamp)
    requires
        all_valid(v, now),
    ensures
        all_valid(in_month(v, year, month), now),
        in_month(v, year, month).len() <= v.len(),
    decreases v.len(),
{
    if v.len() > 0 {
        let p = v.drop_last();
        assert forall|i: int| 0 <= i < p.len() implies stamps_valid(#[trigger] p[i], now) by {
            assert(p[i] == v[i]);
        }
        lemma_in_month(p, year, month, now);
        assert(stamps_valid(v[v.len() - 1], now));
    }
}

/// The summed duration of all sessions, in seconds.
pub fn total_seconds(data: &Vec<Session>, now: &Stamp) -> (r: i128)
    requires
        all_valid(data@, *now),
        data@.len() <= MAX_SESSIONS,
    ensures
        r == total(data@, *now),
        -data@.len() * DURATION_BOUND <= r <= data@.len() * DURATION_BOUND,
{
    let mut sum: i128 = 0;
    let mut i: usize = 0;
    while i < data.len()
        invariant
            i <= data@.len(),
            data@.len() <= MAX_SESSIONS,
            all_valid(data@, *now),
            durations_bounded(data@.subrange(0, i as int), *now),
            sum == total(data@.subrange(0, i as int), *now),
        decreases data@.len() - i,
    {
        let ghost prefix = data@.subrange(0, i as int);
        let ghost next = data@.subrange(0, i + 1);
        assert(next.drop_last() =~= prefix);
        assert(next.last() == data@[i as int]);
        assert(stamps_valid(data@[i as int], *now));
        let dur = session_seconds(&data[i], now);
        proof {
            assert(durations_bounded(next, *now)) by {
                assert forall|k: int| 0 <= k < next.len() implies -DURATION_BOUND
                    < #[trigger] duration(next[k], *now) < DURATION_BOUND by {
                    if k < i {
                        assert(next[k] == prefix[k]);
                    }
                }
            }
            lemma_total_bound(next, *now, Day { year: 0, month: 1, day: 1 });
            assert((i + 1) * DURATION_BOUND < 0x7fff_ffff_ffff_ffff_ffff_ffff_ffff_ffff)
                by (nonlinear_arith)
                requires
                    i + 1 <= MAX_SESSIONS,
            ;
        }
        sum = sum + dur;
        i = i + 1;
    }
    assert(data@.subrange(0, data@.len() as int) =~= data@);
    proof {
        lemma_total_bound(data@, *now, Day { year: 0, month: 1, day: 1 });
    }
    sum
}

// ---------------------------------------------------------------- text

/// One part of a duration as `{:02}` writes a signed whole number: the
/// magnitude, zero-padded to two digits, with a minus sign where the
/// duration is negative and the part is not zero.
pub open spec fn part_text(neg: bool, v: nat) -> Seq<char> {
    if neg && v > 0 {
        seq!['-'] + decimal(v)
    } else if v < 10 {
        padded(v, 2)
    } else {
        decimal(v)
    }
}

/// Whole hours and the remaining minutes: `HH:MM`.
pub open spec fn hm_text(d: int) -> Seq<char> {
    part_text(d < 0, abs(d) / 3600) + seq![':'] + part_text(d < 0, (abs(d) / 60) % 60)
}

/// Whole hours, the remaining minutes and seconds: `HH:MM:SS`.
pub open spec fn hms_text(d: int) -> Seq<char> {
    hm_text(d) + seq![':'] + part_text(d < 0, abs(d) % 60)
}

/// `YYYY-MM-DD`.
pub open spec fn date_text(d: Day) -> Seq<char> {
    padded(d.year as nat, 4) + seq!['-'] + padded(d.month as nat, 2) + seq!['-'] + padded(
        d.day as nat,
        2,
    )
}

/// `HH:MM`.
pub open spec fn clock_text(s: Stamp) -> Seq<char> {
    padded(s.hour as nat, 2) + seq![':'] + padded(s.minute as nat, 2)
}

fn push_part(out: &mut String, neg: bool, v: u128)
    ensures
        final(out)@ == old(out)@ + part_text(neg, v as nat),
{
    proof {
        reveal_strlit("-");
    }
    if neg && v > 0 {
        push_str(out, "-");
        push_decimal(out, v);
    } else if v < 10 {
        push_padded(out, v as u32, 2);
    } else {
        push_decimal(out, v);
    }
    assert(final(out)@ =~= old(out)@ + part_text(neg, v as nat));
}

/// Appends a duration as `HH:MM`, or as `HH:MM:SS` with `seconds`.
pub fn push_duration(out: &mut String, d: i128, seconds: bool)
    requires
        d > i128::MIN,
    ensures
        final(out)@ == old(out)@ + if seconds {
            hms_text(d as int)
        } else {
            hm_text(d as int)
        },
{
    proof {
        reveal_strlit(":");
    }
    let neg = d < 0;
    let a: u128 = if neg { (-d) as u128 } else { d as u128 };
    push_part(out, neg, a / 3600);
    push_str(out, ":");
    push_part(out, neg, (a / 60) % 60);
    if seconds {
        push_str(out, ":");
        push_part(out, neg, a % 60);
    }
    assert(final(out)@ =~= old(out)@ + if seconds {
        hms_text(d as int)
    } else {
        hm_text(d as int)
    });
}

fn push_date(out: &mut String, d: Day)
    requires
        d.year >= 0,
    ensures
        final(out)@ == old(out)@ + date_text(d),
{
    proof {
        reveal_strlit("-");
    }
    push_padded(out, d.year as u32, 4);
    push_str(out, "-");
    push_padded(out, d.month as u32, 2);
    push_str(out, "-");
    push_padded(out, d.day as u32, 2);
    assert(final(out)@ =~= old(out)@ + date_text(d));
}

fn push_clock(out: &mut String, s: &Stamp)
    ensures
        final(out)@ == old(out)@ + clock_text(*s),
{
    proof {
        reveal_strlit(":");
    }
    push_padded(out, s.hour as u32, 2);
    push_str(out, ":");
    push_padded(out, s.minute as u32, 2);
    assert(final(out)@ =~= old(out)@ + clock_text(*s));
}

// ---------------------------------------------------------------- reports

/// Which sessions a report covers.
#[derive(Clone, Copy, Debug, PartialEq, Eq, Structural)]
pub enum Info {
    /// The month `delta` months before the current one.
    Month { delta: u8 },
    /// Every session.
    All,
}

/// The sessions that a report with the given scope covers; no scope means
/// the current month.
pub open spec fn selected(v: Seq<Session>, info: Option<Info>, now: Stamp) -> Seq<Session> {
    match info {
        Some(Info::All) => v,
        Some(Info::Month { delta }) => in_month(
            v,
            back_year(now.year as int, now.month as int, delta as int),
            back_month(now.year as int, now.month as int, delta as int),
        ),
        None => in_month(
            v,
            back_year(now.year as int, now.month as int, 0),
            back_month(now.year as int, now.month as int, 0),
        ),
    }
}

/// `date, HH:MM, HH:MM, HH:MM, objective`: start date and time, end time
/// (empty while open), duration and objective.
pub open spec fn session_line(s: Session, now: Stamp) -> Seq<char> {
    date_text(day_of(s.start)) + seq![',', ' '] + clock_text(s.start) + seq![',', ' '] + match s.end {
        Some(e) => clock_text(e) + seq![','],
        None => seq![','],
    } + seq![' '] + hm_text(duration(s, now)) + seq![',', ' '] + s.objective@
}

/// `YYYY-MM-DD: HH:MM`.
pub open spec fn day_line(d: Day, t: int) -> Seq<char> {
    date_text(d) + seq![':', ' '] + hm_text(t)
}

/// `Total: HH:MM`.
pub open spec fn total_line(t: int) -> Seq<char> {
    seq!['T', 'o', 't', 'a', 'l', ':', ' '] + hm_text(t)
}

/// The lines of a report: a header, one line per session (uncompressed) or
/// per start date (compressed), and the total.
pub open spec fn report_lines(v: Seq<Session>, info: Option<Info>, uncompressed: bool, now: Stamp) -> Seq<Seq<char>> {
    let sel = selected(v, info, now);
    if uncompressed {
        seq!["Date, Start, End, Duration, Objective"@] + sel.map_values(
            |s: Session| session_line(s, now),
        ) + seq![total_line(total(sel, now))]
    } else {
        seq!["Date, Duration"@] + days_of(sel).map_values(
            |d: Day| day_line(d, day_total(sel, d, now)),
        ) + seq![total_line(total(sel, now))]
    }
}

fn session_text(s: &Session, now: &Stamp) -> (r: String)
    requires
        stamps_valid(*s, *now),
    ensures
        r@ == session_line(*s, *now),
{
    proof {
        reveal_strlit("");
        reveal_strlit(", ");
        reveal_strlit(",");
        reveal_strlit(" ");
    }
    let mut out = String::from_str("");
    push_date(&mut out, Day { year: s.start.year, month: s.start.month, day: s.start.day });
    push_str(&mut out, ", ");
    push_clock(&mut out, &s.start);
    push_str(&mut out, ", ");
    match s.end {
        Some(e) => {
            push_clock(&mut out, &e);
            push_str(&mut out, ",");
        },
        None => {
            push_str(&mut out, ",");
        },
    }
    push_str(&mut out, " ");
    let d = session_seconds(s, now);
    push_duration(&mut out, d, false);
    push_str(&mut out, ", ");
    push_str(&mut out, s.objective.as_str());
    assert(out@ =~= session_line(*s, *now));
    out
}

fn day_text(d: Day, t: i128) -> (r: String)
    requires
        d.year >= 0,
        t > i128::MIN,
    ensures
        r@ == day_line(d, t as int),
{
    proof {
        reveal_strlit("");
        reveal_strlit(": ");
    }
    let mut out = String::from_str("");
    push_date(&mut out, d);
    push_str(&mut out, ": ");
    push_duration(&mut out, t, false);
    assert(out@ =~= day_line(d, t as int));
    out
}

fn total_text(t: i128) -> (r: String)
    requires
        t > i128::MIN,
    ensures
        r@ == total_line(t as int),
{
    proof {
        reveal_strlit("Total: ");
    }
    let mut out = String::from_str("Total: ");
    push_duration(&mut out, t, false);
    assert(out@ =~= total_line(t as int));
    out
}

/// The sessions that a scope covers, as of `now`.
pub fn select(data: &Vec<Session>, info: &Option<Info>, now: &Stamp) -> (r: Vec<Session>)
    requires
        now.wf(),
    ensures
        r@ == selected(data@, *info, *now),
{
    match info {
        Some(Info::All) => {
            let mut out: Vec<Session> = Vec::new();
            let mut i: usize = 0;
            while i < data.len()
                invariant
                    i <= data@.len(),
                    out@ == data@.subrange(0, i as int),
                decreases data@.len() - i,
            {
                out.push(data[i].copy());
                i = i + 1;
                assert(out@ =~= data@.subrange(0, i as int));
            }
            assert(out@ =~= data@);
            out
        },
        Some(Info::Month { delta }) => get_month_data(data, *delta, now),
        None => get_month_data(data, 0, now),
    }
}

/// The lines of a report on the sessions that `scope` selects (the current
/// month where it is `None`), with durations of open sessions taken up to
/// `now`.
pub fn info(data: &Vec<Session>, scope: &Option<Info>, uncompressed: bool, now: &Stamp) -> (r: Vec<String>)
    requires
        now.wf(),
        all_valid(data@, *now),
        data@.len() <= MAX_SESSIONS,
    ensures
        r@.map_values(|l: String| l@) == report_lines(data@, *scope, uncompressed, *now),
{
    let sel = select(data, scope, now);
    let ghost d = (now.year as int, now.month as int);
    proof {
        match *scope {
            Some(Info::Month { delta }) => lemma_in_month(data@, back_year(d.0, d.1, delta as int), back_month(d.0, d.1, delta as int), *now),
            None => lemma_in_month(data@, back_year(d.0, d.1, 0), back_month(d.0, d.1, 0), *now),
            _ => {},
        }
    }
    let t = total_seconds(&sel, now);
    proof {
        assert(sel@.len() * DURATION_BOUND < 0x7fff_ffff_ffff_ffff_ffff_ffff_ffff_ffff)
            by (nonlinear_arith)
            requires
                sel@.len() <= MAX_SESSIONS,
        ;
    }
    let ghost want = report_lines(data@, *scope, uncompressed, *now);
    let mut lines: Vec<String> = Vec::new();
    if uncompressed {
        lines.push(String::from_str("Date, Start, End, Duration, Objective"));
        let mut i: usize = 0;
        while i < sel.len()
            invariant
                i <= sel@.len(),
                all_valid(sel@, *now),
                lines@.len() == i + 1,
                forall|k: int| 0 <= k < lines@.len() ==> (#[trigger] lines@[k])@ == want[k],
                want == seq!["Date, Start, End, Duration, Objective"@] + sel@.map_values(
                    |s: Session| session_line(s, *now),
                ) + seq![total_line(total(sel@, *now))],
            decreases sel@.len() - i,
        {
            assert(stamps_valid(sel@[i as int], *now));
            let l = session_text(&sel[i], now);
            lines.push(l);
            i = i + 1;
        }
    } else {
        let days = compress(&sel, now);
        lines.push(String::from_str("Date, Duration"));
        let mut i: usize = 0;
        while i < days.len()
            invariant
                i <= days@.len(),
                all_valid(sel@, *now),
                sel@.len() <= MAX_SESSIONS,
                durations_bounded(sel@, *now),
                days@.len() == days_of(sel@).len(),
                forall|j: int|
                    0 <= j < days@.len() ==> (#[trigger] days@[j]).0 == days_of(sel@)[j]
                        && days@[j].1 == day_total(sel@, days@[j].0, *now),
                lines@.len() == i + 1,
                forall|k: int| 0 <= k < lines@.len() ==> (#[trigger] lines@[k])@ == want[k],
                want == seq!["Date, Duration"@] + days_of(sel@).map_values(
                    |d: Day| day_line(d, day_total(sel@, d, *now)),
                ) + seq![total_line(total(sel@, *now))],
            decreases days@.len() - i,
        {
            let (day, sum) = days[i];
            proof {
                lemma_day_facts(sel@, day, *now);
                lemma_total_bound(sel@, *now, day);
                assert(sel@.len() * DURATION_BOUND < 0x7fff_ffff_ffff_ffff_ffff_ffff_ffff_ffff)
                    by (nonlinear_arith)
                    requires
                        sel@.len() <= MAX_SESSIONS,
                ;
            }
            let l = day_text(day, sum);
            lines.push(l);
            i = i + 1;
        }
    }
    lines.push(total_text(t));
    assert(lines@.map_values(|l: String| l@) =~= want);
    lines
}

/// A date that some session starts on has a valid year.
proof fn lemma_day_facts(v: Seq<Session>, d: Day, now: Stamp)
    requires
        all_valid(v, now),
        days_of(v).contains(d),
    ensures
        d.year >= 0,
{
    lemma_days_distinct(v);
    let i = choose|i: int| 0 <= i < v.len() && day_of(v[i].start) == d;
    assert(stamps_valid(v[i], now));
}

} // verus!
