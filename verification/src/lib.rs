//! A library to parse crontab expressions and compute the next firing
//! instant of a schedule in an IANA time zone.
//!
//! An expression holds five time fields (minutes, hours, day-of-month,
//! month, day-of-week) followed by a time-zone name. [`parse_crontab`]
//! turns the text into a [`Crontab`]; [`Crontab::find_next`] walks
//! wall-clock time in the schedule's zone and returns the next instant
//! that satisfies every field.

use vstd::prelude::*;
use vstd::string::StringExecFns;

pub mod calendar;
pub mod parser;

pub use parser::normalize_crontab;
pub use parser::parse_crontab;

use calendar::ZonedTime;
use calendar::days_in_month;
use calendar::spec_days_in_month;
use calendar::advance_minute;
use calendar::advance_hour;
use calendar::advance_days;
use calendar::add_four_years;
use calendar::timestamp_now_ms;
use calendar::zoned_display;

verus! {

/// The error type of the library: a human-readable message.
#[derive(Debug)]
pub struct Error {
    message: String,
}

impl Error {
    pub closed spec fn view(&self) -> Seq<char> {
        self.message@
    }

    pub fn new(message: String) -> (r: Error)
        ensures
            r@ == message@,
    {
        Error { message }
    }

    /// The formatted message carried by this error.
    pub fn message(&self) -> (r: &String)
        ensures
            r@ == self@,
    {
        &self.message
    }
}

impl Clone for Error {
    fn clone(&self) -> (r: Self)
        ensures
            r@ == self@,
    {
        Error { message: self.message.clone() }
    }
}

/// Whether `p` stands at the front of `s`.
pub open spec fn has_prefix(s: Seq<char>, p: Seq<char>) -> bool {
    p.len() <= s.len() && s.subrange(0, p.len() as int) == p
}

/// Whether `x` occurs in `v`.
fn vec_contains(v: &Vec<u8>, x: u8) -> (r: bool)
    ensures
        r == v@.contains(x),
{
    let mut i: usize = 0;
    while i < v.len()
        invariant
            0 <= i <= v@.len(),
            forall|k: int| 0 <= k < i ==> v@[k] != x,
        decreases v@.len() - i,
    {
        if v[i] == x {
            return true;
        }
        i = i + 1;
    }
    false
}

fn clone_vec_u8(v: &Vec<u8>) -> (r: Vec<u8>)
    ensures
        r@ == v@,
{
    let mut r: Vec<u8> = Vec::new();
    let mut i: usize = 0;
    while i < v.len()
        invariant
            0 <= i <= v@.len(),
            r@ == v@.subrange(0, i as int),
        decreases v@.len() - i,
    {
        r.push(v[i]);
        proof {
            assert(r@ =~= v@.subrange(0, i + 1 as int));
        }
        i = i + 1;
    }
    proof {
        assert(r@ =~= v@);
    }
    r
}

fn clone_vec_pairs(v: &Vec<(u8, u8)>) -> (r: Vec<(u8, u8)>)
    ensures
        r@ == v@,
{
    let mut r: Vec<(u8, u8)> = Vec::new();
    let mut i: usize = 0;
    while i < v.len()
        invariant
            0 <= i <= v@.len(),
            r@ == v@.subrange(0, i as int),
        decreases v@.len() - i,
    {
        r.push(v[i]);
        proof {
            assert(r@ =~= v@.subrange(0, i + 1 as int));
        }
        i = i + 1;
    }
    proof {
        assert(r@ =~= v@);
    }
    r
}

/// A strictly sorted sequence of `u8` whose members lie in `[lo, hi]`.
pub open spec fn sorted_in_range(s: Seq<u8>, lo: u8, hi: u8) -> bool {
    &&& forall|i: int, j: int| 0 <= i < j < s.len() ==> s[i] < s[j]
    &&& forall|i: int| 0 <= i < s.len() ==> lo <= #[trigger] s[i] <= hi
}

/// A set of admissible values for a minutes, hours, or months field,
/// kept as a strictly sorted vector.
#[derive(Debug)]
pub struct PossibleLiterals {
    pub values: Vec<u8>,
}

impl View for PossibleLiterals {
    type V = Seq<u8>;

    open spec fn view(&self) -> Seq<u8> {
        self.values@
    }
}

impl PossibleLiterals {
    /// Strictly sorted, hence duplicate-free; non-empty; within `[lo, hi]`.
    pub open spec fn wf(&self, lo: u8, hi: u8) -> bool {
        &&& sorted_in_range(self@, lo, hi)
        &&& self@.len() > 0
    }

    /// Whether `value` belongs to the set.
    pub fn matches(&self, value: u8) -> (r: bool)
        ensures
            r == self@.contains(value),
    {
        vec_contains(&self.values, value)
    }
}

impl Clone for PossibleLiterals {
    fn clone(&self) -> (r: Self)
        ensures
            r@ == self@,
    {
        PossibleLiterals { values: clone_vec_u8(&self.values) }
    }
}

/// The mathematical content of a day-of-month field.
pub ghost struct DaysOfMonthView {
    pub literals: Seq<u8>,
    pub last_day_of_month: bool,
    pub nearest_weekdays: Seq<u8>,
    pub start_with_asterisk: bool,
}

impl DaysOfMonthView {
    pub open spec fn wf(self) -> bool {
        &&& sorted_in_range(self.literals, 1, 31)
        &&& sorted_in_range(self.nearest_weekdays, 1, 31)
        &&& self.literals.len() > 0 || self.last_day_of_month || self.nearest_weekdays.len() > 0
    }

    /// Whether the field admits the day of the candidate datetime: a
    /// literal day, the last day of the month under `L`, or the nearest
    /// weekday to a day named by a `<d>W` term.
    pub open spec fn matches(self, z: ZonedTime) -> bool {
        ||| self.literals.contains(z.day)
        ||| (self.last_day_of_month && z.day as int == spec_days_in_month(
            z.year as int,
            z.month as int,
        ))
        ||| exists|k: int|
            0 <= k < self.nearest_weekdays.len() && spec_nearest_weekday_matches(
                self.nearest_weekdays[k] as int,
                z,
            )
    }
}

/// The day-of-month field: literal days, the `L` marker for the last day
/// of the month, and the days named by `<d>W` nearest-weekday terms.
#[derive(Debug)]
pub struct ParsedDaysOfMonth {
    pub literals: Vec<u8>,
    pub last_day_of_month: bool,
    pub nearest_weekdays: Vec<u8>,
    /// Whether the field was literally `*`, kept for the classic
    /// day-of-month versus day-of-week disambiguation rule.
    pub start_with_asterisk: bool,
}

impl View for ParsedDaysOfMonth {
    type V = DaysOfMonthView;

    open spec fn view(&self) -> DaysOfMonthView {
        DaysOfMonthView {
            literals: self.literals@,
            last_day_of_month: self.last_day_of_month,
            nearest_weekdays: self.nearest_weekdays@,
            start_with_asterisk: self.start_with_asterisk,
        }
    }
}

/// Whether the candidate day is the "nearest weekday" to day `d` of its
/// month: the weekday Monday through Friday closest to `d`, never crossing
/// a month boundary. Saturday targets roll back to Friday and Sunday
/// targets roll forward to Monday, except at the edges of the month where
/// the roll reverses direction.
pub open spec fn spec_nearest_weekday_matches(d: int, z: ZonedTime) -> bool {
    let dim = spec_days_in_month(z.year as int, z.month as int);
    if z.weekday == 6 || z.weekday == 7 {
        false
    } else if z.weekday == 2 || z.weekday == 3 || z.weekday == 4 {
        z.day as int == d
    } else if z.weekday == 1 {
        z.day as int == d || z.day as int - 1 == d || (z.day == 3 && d == 1)
    } else {
        z.day as int == d || (z.day as int + 1 == d && d <= dim) || (z.day as int + 2 == d && d
            == dim)
    }
}

impl ParsedDaysOfMonth {
    pub fn matches(&self, z: &ZonedTime) -> (r: bool)
        requires
            z.wf(),
        ensures
            r == self@.matches(*z),
    {
        if vec_contains(&self.literals, z.day) {
            return true;
        }
        let dim = days_in_month(z.year, z.month);
        if self.last_day_of_month && z.day == dim {
            return true;
        }
        let mut k: usize = 0;
        while k < self.nearest_weekdays.len()
            invariant
                z.wf(),
                0 <= k <= self.nearest_weekdays@.len(),
                dim == spec_days_in_month(z.year as int, z.month as int),
                forall|j: int|
                    0 <= j < k ==> !spec_nearest_weekday_matches(
                        self.nearest_weekdays@[j] as int,
                        *z,
                    ),
            decreases self.nearest_weekdays@.len() - k,
        {
            let d = self.nearest_weekdays[k];
            if nearest_weekday_matches(d, z, dim) {
                proof {
                    assert(spec_nearest_weekday_matches(self@.nearest_weekdays[k as int] as int, *z));
                }
                return true;
            }
            k = k + 1;
        }
        false
    }
}

/// The executable form of [`spec_nearest_weekday_matches`]; `dim` is the
/// number of days of the candidate's month.
fn nearest_weekday_matches(d: u8, z: &ZonedTime, dim: u8) -> (r: bool)
    requires
        z.wf(),
        dim == spec_days_in_month(z.year as int, z.month as int),
    ensures
        r == spec_nearest_weekday_matches(d as int, *z),
{
    if z.weekday == 6 || z.weekday == 7 {
        false
    } else if z.weekday == 2 || z.weekday == 3 || z.weekday == 4 {
        z.day == d
    } else if z.weekday == 1 {
        z.day == d || z.day - 1 == d || (z.day == 3 && d == 1)
    } else {
        z.day == d || (z.day + 1 == d && d <= dim) || (z.day + 2 == d && d == dim)
    }
}

impl Clone for ParsedDaysOfMonth {
    fn clone(&self) -> (r: Self)
        ensures
            r@ == self@,
    {
        let r = ParsedDaysOfMonth {
            literals: clone_vec_u8(&self.literals),
            last_day_of_month: self.last_day_of_month,
            nearest_weekdays: clone_vec_u8(&self.nearest_weekdays),
            start_with_asterisk: self.start_with_asterisk,
        };
        r
    }
}

/// The mathematical content of a day-of-week field.
pub ghost struct DaysOfWeekView {
    pub literals: Seq<u8>,
    pub last_days_of_week: Seq<u8>,
    pub nth_days_of_week: Seq<(u8, u8)>,
    pub start_with_asterisk: bool,
}

impl DaysOfWeekView {
    pub open spec fn wf(self) -> bool {
        &&& sorted_in_range(self.literals, 1, 7)
        &&& sorted_in_range(self.last_days_of_week, 1, 7)
        &&& forall|k: int|
            0 <= k < self.nth_days_of_week.len() ==> {
                &&& 1 <= (#[trigger] self.nth_days_of_week[k]).0 <= 5
                &&& 1 <= self.nth_days_of_week[k].1 <= 7
            }
        &&& self.literals.len() > 0 || self.last_days_of_week.len() > 0
            || self.nth_days_of_week.len() > 0
    }

    /// Whether the field admits the weekday of the candidate datetime:
    /// a literal weekday, the last occurrence of a named weekday in the
    /// month, or the n-th occurrence of a named weekday in the month.
    ///
    /// The last-occurrence test keeps the observed comparison of month
    /// numbers — a week later must land in a greater month — so it never
    /// holds in December, whose following month is January.
    pub open spec fn matches(self, z: ZonedTime) -> bool {
        ||| self.literals.contains(z.weekday)
        ||| (self.last_days_of_week.contains(z.weekday) && z.day as int + 7 > spec_days_in_month(
            z.year as int,
            z.month as int,
        ) && z.month != 12)
        ||| exists|k: int|
            0 <= k < self.nth_days_of_week.len() && (#[trigger] self.nth_days_of_week[k]).1
                == z.weekday && (z.day as int - 1) / 7 + 1 == self.nth_days_of_week[k].0 as int
    }
}

/// The day-of-week field: literal weekdays (Monday=1 through Sunday=7),
/// the weekdays named by `<w>L` last-occurrence terms, and the
/// `(n, weekday)` pairs named by `<w>#<n>` terms.
#[derive(Debug)]
pub struct ParsedDaysOfWeek {
    pub literals: Vec<u8>,
    pub last_days_of_week: Vec<u8>,
    pub nth_days_of_week: Vec<(u8, u8)>,
    /// Whether the field was literally `*`, kept for the classic
    /// day-of-month versus day-of-week disambiguation rule.
    pub start_with_asterisk: bool,
}

impl View for ParsedDaysOfWeek {
    type V = DaysOfWeekView;

    open spec fn view(&self) -> DaysOfWeekView {
        DaysOfWeekView {
            literals: self.literals@,
            last_days_of_week: self.last_days_of_week@,
            nth_days_of_week: self.nth_days_of_week@,
            start_with_asterisk: self.start_with_asterisk,
        }
    }
}

impl ParsedDaysOfWeek {
    pub fn matches(&self, z: &ZonedTime) -> (r: bool)
        requires
            z.wf(),
        ensures
            r == self@.matches(*z),
    {
        if vec_contains(&self.literals, z.weekday) {
            return true;
        }
        let dim = days_in_month(z.year, z.month);
        if z.month != 12 && z.day + 7 > dim && vec_contains(&self.last_days_of_week, z.weekday) {
            return true;
        }
        let nth_rank = (z.day - 1) / 7 + 1;
        let mut k: usize = 0;
        while k < self.nth_days_of_week.len()
            invariant
                z.wf(),
                0 <= k <= self.nth_days_of_week@.len(),
                nth_rank as int == (z.day as int - 1) / 7 + 1,
                forall|j: int|
                    0 <= j < k ==> !((#[trigger] self.nth_days_of_week@[j]).1 == z.weekday && (
                    z.day as int - 1) / 7 + 1 == self.nth_days_of_week@[j].0 as int),
            decreases self.nth_days_of_week@.len() - k,
        {
            let (n, w) = self.nth_days_of_week[k];
            if w == z.weekday && n == nth_rank {
                proof {
                    assert((self@.nth_days_of_week[k as int]).1 == z.weekday && (z.day as int
                        - 1) / 7 + 1 == self@.nth_days_of_week[k as int].0 as int);
                }
                return true;
            }
            k = k + 1;
        }
        false
    }
}

impl Clone for ParsedDaysOfWeek {
    fn clone(&self) -> (r: Self)
        ensures
            r@ == self@,
    {
        let r = ParsedDaysOfWeek {
            literals: clone_vec_u8(&self.literals),
            last_days_of_week: clone_vec_u8(&self.last_days_of_week),
            nth_days_of_week: clone_vec_pairs(&self.nth_days_of_week),
            start_with_asterisk: self.start_with_asterisk,
        };
        r
    }
}

/// The mathematical content of a whole schedule.
pub ghost struct CrontabView {
    pub minutes: Seq<u8>,
    pub hours: Seq<u8>,
    pub months: Seq<u8>,
    pub days_of_month: DaysOfMonthView,
    pub days_of_week: DaysOfWeekView,
    pub timezone: Seq<char>,
}

impl CrontabView {
    /// Every field value lies in its domain and no field is empty.
    pub open spec fn wf(self) -> bool {
        &&& sorted_in_range(self.minutes, 0, 59)
        &&& self.minutes.len() > 0
        &&& sorted_in_range(self.hours, 0, 23)
        &&& self.hours.len() > 0
        &&& sorted_in_range(self.months, 1, 12)
        &&& self.months.len() > 0
        &&& self.days_of_month.wf()
        &&& self.days_of_week.wf()
    }

    /// Whether the candidate datetime satisfies every field of the
    /// schedule, day-of-month and day-of-week both included.
    pub open spec fn matches(self, z: ZonedTime) -> bool {
        &&& self.minutes.contains(z.minute)
        &&& self.hours.contains(z.hour)
        &&& self.months.contains(z.month)
        &&& self.days_of_month.matches(z)
        &&& self.days_of_week.matches(z)
    }
}

/// The validated, immutable product of parsing a crontab expression:
/// the five field values and the resolved time-zone name.
#[derive(Debug)]
pub struct Crontab {
    pub minutes: PossibleLiterals,
    pub hours: PossibleLiterals,
    pub months: PossibleLiterals,
    pub days_of_month: ParsedDaysOfMonth,
    pub days_of_week: ParsedDaysOfWeek,
    pub timezone: String,
}

impl View for Crontab {
    type V = CrontabView;

    open spec fn view(&self) -> CrontabView {
        CrontabView {
            minutes: self.minutes@,
            hours: self.hours@,
            months: self.months@,
            days_of_month: self.days_of_month@,
            days_of_week: self.days_of_week@,
            timezone: self.timezone@,
        }
    }
}

impl Clone for Crontab {
    fn clone(&self) -> (r: Self)
        ensures
            r@ == self@,
    {
        Crontab {
            minutes: self.minutes.clone(),
            hours: self.hours.clone(),
            months: self.months.clone(),
            days_of_month: self.days_of_month.clone(),
            days_of_week: self.days_of_week.clone(),
            timezone: self.timezone.clone(),
        }
    }
}

impl core::str::FromStr for Crontab {
    type Err = Error;

    fn from_str(s: &str) -> Result<Crontab, Error> {
        parser::parse_crontab(s)
    }
}

impl<'a> TryFrom<&'a str> for Crontab {
    type Error = crate::Error;

    fn try_from(input: &'a str) -> Result<Crontab, crate::Error> {
        parser::parse_crontab(input)
    }
}

impl<'a> vstd::std_specs::convert::TryFromSpecImpl<&'a str> for Crontab {
    open spec fn obeys_try_from_spec() -> bool {
        false
    }

    open spec fn try_from_spec(v: &'a str) -> Result<Crontab, crate::Error> {
        arbitrary()
    }
}

/// The error surfaced when a zone transition steps a truncated candidate
/// backward instead of forward: the calendar facility refused to advance.
fn advance_stalled_error(ms: i64, zone: &str) -> (r: Error)
    ensures
        has_prefix(r@, "failed to advance timestamp "@),
{
    let ghost prefix = "failed to advance timestamp "@;
    let mut m = String::from_str("failed to advance timestamp ");
    m.append(zoned_display(ms, zone).as_str());
    proof {
        assert(m@.subrange(0, prefix.len() as int) =~= prefix);
    }
    Error::new(m)
}

/// Advance by one minute, truncated to the minute, refusing a step that
/// does not move forward: the calendar bridge cannot promise progress
/// across every zone transition, so it is tested here.
fn advance_minute_checked(ms: i64, zone: &str) -> (r: Result<ZonedTime, Error>)
    ensures
        r is Ok ==> r->Ok_0.wf() && r->Ok_0.ms > ms && r->Ok_0.ms as int % 1000 == 0,
        r is Err ==> has_prefix(r->Err_0@, "failed to advance timestamp "@),
{
    match advance_minute(ms, zone) {
        Ok(z) => {
            if z.ms > ms {
                Ok(z)
            } else {
                Err(advance_stalled_error(ms, zone))
            }
        },
        Err(e) => Err(e),
    }
}

/// Advance by one hour, truncated to the hour, refusing a step that does
/// not move forward.
fn advance_hour_checked(ms: i64, zone: &str) -> (r: Result<ZonedTime, Error>)
    ensures
        r is Ok ==> r->Ok_0.wf() && r->Ok_0.ms > ms && r->Ok_0.ms as int % 1000 == 0,
        r is Err ==> has_prefix(r->Err_0@, "failed to advance timestamp "@),
{
    match advance_hour(ms, zone) {
        Ok(z) => {
            if z.ms > ms {
                Ok(z)
            } else {
                Err(advance_stalled_error(ms, zone))
            }
        },
        Err(e) => Err(e),
    }
}

/// Advance by whole days, truncated to the day, refusing a step that does
/// not move forward.
fn advance_days_checked(ms: i64, zone: &str, days: u8) -> (r: Result<ZonedTime, Error>)
    requires
        1 <= days <= 31,
    ensures
        r is Ok ==> r->Ok_0.wf() && r->Ok_0.ms > ms && r->Ok_0.ms as int % 1000 == 0,
        r is Err ==> has_prefix(r->Err_0@, "failed to advance timestamp "@),
{
    match advance_days(ms, zone, days) {
        Ok(z) => {
            if z.ms > ms {
                Ok(z)
            } else {
                Err(advance_stalled_error(ms, zone))
            }
        },
        Err(e) => Err(e),
    }
}

/// Some well-formed, minute-aligned snapshot at exactly this instant
/// satisfies every field of the schedule: the instant is a firing.
pub open spec fn is_firing(c: CrontabView, ms: i64) -> bool {
    exists|z: ZonedTime|
        z.wf() && z.ms == ms && z.second == 0 && z.ms as int % 1000 == 0 && c.matches(z)
}

/// The messages a failed search can carry: exhaustion of the four-year
/// bound, or the message of the calendar operation that refused.
pub open spec fn solver_error_message(m: Seq<char>) -> bool {
    ||| has_prefix(m, "failed to find next timestamp in four years; end with "@)
    ||| has_prefix(m, "failed to advance timestamp "@)
    ||| has_prefix(m, "failed to compute search bound from "@)
}

/// How many more candidate instants the bounded search may still visit.
pub open spec fn search_fuel(bound: int, ms: int) -> int {
    if ms > bound {
        0
    } else {
        bound - ms + 1
    }
}

impl Crontab {
    /// Compute the next firing instant strictly after `timestamp_ms`
    /// (milliseconds since the Unix epoch), by field-at-a-time advancement
    /// in the schedule's zone. The result satisfies every field of the
    /// schedule and is aligned to a whole minute; the search gives up with
    /// an error after four years. An error carries either the exhaustion
    /// message or the message of the calendar operation that failed.
    pub fn find_next(&self, timestamp_ms: i64) -> (r: Result<ZonedTime, Error>)
        ensures
            r is Ok ==> {
                &&& r->Ok_0.wf()
                &&& r->Ok_0.ms > timestamp_ms
                &&& r->Ok_0.second == 0
                &&& r->Ok_0.ms as int % 1000 == 0
                &&& self@.matches(r->Ok_0)
            },
            r is Err ==> {
                ||| has_prefix(r->Err_0@, "failed to find next timestamp in four years; end with "@)
                ||| has_prefix(r->Err_0@, "failed to advance timestamp "@)
                ||| has_prefix(r->Err_0@, "failed to compute search bound from "@)
            },
    {
        let bound = match add_four_years(timestamp_ms, self.timezone.as_str()) {
            Ok(b) => b,
            Err(e) => {
                return Err(e);
            },
        };
        // at least should be the next minute
        let mut next = match advance_minute_checked(timestamp_ms, self.timezone.as_str()) {
            Ok(z) => z,
            Err(e) => {
                return Err(e);
            },
        };
        loop
            invariant
                next.wf(),
                next.ms > timestamp_ms,
                next.ms as int % 1000 == 0,
            decreases search_fuel(bound as int, next.ms as int),
        {
            if next.ms > bound {
                let ghost prefix = "failed to find next timestamp in four years; end with "@;
                let mut message = String::from_str(
                    "failed to find next timestamp in four years; end with ",
                );
                message.append(zoned_display(next.ms, self.timezone.as_str()).as_str());
                proof {
                    assert(message@.subrange(0, prefix.len() as int) =~= prefix);
                }
                return Err(Error::new(message));
            }
            // A zone transition can leave a truncated candidate off the
            // minute boundary; such a candidate is never returned.
            if next.second != 0 {
                next = match advance_minute_checked(next.ms, self.timezone.as_str()) {
                    Ok(z) => z,
                    Err(e) => {
                        return Err(e);
                    },
                };
                continue;
            }
            if !self.months.matches(next.month) {
                let rest_days = days_in_month(next.year, next.month) - next.day + 1;
                next = match advance_days_checked(next.ms, self.timezone.as_str(), rest_days) {
                    Ok(z) => z,
                    Err(e) => {
                        return Err(e);
                    },
                };
                continue;
            }
            if !self.days_of_month.matches(&next) {
                next = match advance_days_checked(next.ms, self.timezone.as_str(), 1) {
                    Ok(z) => z,
                    Err(e) => {
                        return Err(e);
                    },
                };
                continue;
            }
            if !self.hours.matches(next.hour) {
                next = match advance_hour_checked(next.ms, self.timezone.as_str()) {
                    Ok(z) => z,
                    Err(e) => {
                        return Err(e);
                    },
                };
                continue;
            }
            if !self.minutes.matches(next.minute) {
                next = match advance_minute_checked(next.ms, self.timezone.as_str()) {
                    Ok(z) => z,
                    Err(e) => {
                        return Err(e);
                    },
                };
                continue;
            }
            if !self.days_of_week.matches(&next) {
                next = match advance_days_checked(next.ms, self.timezone.as_str(), 1) {
                    Ok(z) => z,
                    Err(e) => {
                        return Err(e);
                    },
                };
                continue;
            }
            return Ok(next);
        }
    }

    /// Wrap this schedule and a starting instant into a stateful driver.
    pub fn drive(&self, timestamp_ms: i64) -> (r: Driver)
        ensures
            r.crontab@ == self@,
            r.timestamp_ms == timestamp_ms,
    {
        Driver { crontab: self.clone(), timestamp_ms }
    }
}

/// Options for starting a driver: the start instant (defaulting to the
/// current instant) and an optional end instant.
#[derive(Debug)]
pub struct DriverOption {
    pub start_ms: i64,
    pub end_ms: Option<i64>,
}

impl Default for DriverOption {
    fn default() -> (r: DriverOption)
        ensures
            r.end_ms is None,
    {
        DriverOption { start_ms: timestamp_now_ms(), end_ms: None }
    }
}

/// A stateful cursor over the firing instants of a [`Crontab`]: each call
/// of [`Driver::next_zoned`] or [`Driver::next_timestamp`] advances the
/// cursor to the instant it returns, so successive calls yield a strictly
/// increasing sequence.
#[derive(Debug)]
pub struct Driver {
    pub crontab: Crontab,
    pub timestamp_ms: i64,
}

impl Driver {
    /// Advance to the next firing and return it with its local components.
    pub fn next_zoned(&mut self) -> (r: Result<ZonedTime, Error>)
        ensures
            final(self).crontab == old(self).crontab,
            r is Ok ==> {
                &&& r->Ok_0.wf()
                &&& r->Ok_0.ms > old(self).timestamp_ms
                &&& r->Ok_0.second == 0
                &&& r->Ok_0.ms as int % 1000 == 0
                &&& old(self).crontab@.matches(r->Ok_0)
                &&& final(self).timestamp_ms == r->Ok_0.ms
            },
            r is Err ==> final(self).timestamp_ms == old(self).timestamp_ms
                && solver_error_message(r->Err_0@),
    {
        match self.crontab.find_next(self.timestamp_ms) {
            Ok(z) => {
                self.timestamp_ms = z.ms;
                Ok(z)
            },
            Err(e) => Err(e),
        }
    }

    /// Advance to the next firing and return its instant in milliseconds.
    pub fn next_timestamp(&mut self) -> (r: Result<i64, Error>)
        ensures
            final(self).crontab == old(self).crontab,
            r is Ok ==> {
                &&& r->Ok_0 > old(self).timestamp_ms
                &&& final(self).timestamp_ms == r->Ok_0
                &&& is_firing(old(self).crontab@, r->Ok_0)
            },
            r is Err ==> final(self).timestamp_ms == old(self).timestamp_ms
                && solver_error_message(r->Err_0@),
    {
        match self.next_zoned() {
            Ok(z) => {
                proof {
                    assert(z.wf() && z.second == 0 && z.ms as int % 1000 == 0
                        && old(self).crontab@.matches(z));
                }
                Ok(z.ms)
            },
            Err(e) => Err(e),
        }
    }

    /// Compute the next firing without moving the cursor.
    pub fn find_next_zoned(&self) -> (r: Result<ZonedTime, Error>)
        ensures
            r is Ok ==> {
                &&& r->Ok_0.wf()
                &&& r->Ok_0.ms > self.timestamp_ms
                &&& r->Ok_0.second == 0
                &&& r->Ok_0.ms as int % 1000 == 0
                &&& self.crontab@.matches(r->Ok_0)
            },
            r is Err ==> solver_error_message(r->Err_0@),
    {
        self.crontab.find_next(self.timestamp_ms)
    }

    /// Compute the next firing instant without moving the cursor.
    pub fn find_next_timestamp(&self) -> (r: Result<i64, Error>)
        ensures
            r is Ok ==> r->Ok_0 > self.timestamp_ms && is_firing(self.crontab@, r->Ok_0),
            r is Err ==> solver_error_message(r->Err_0@),
    {
        match self.crontab.find_next(self.timestamp_ms) {
            Ok(z) => {
                proof {
                    assert(z.wf() && z.second == 0 && z.ms as int % 1000 == 0
                        && self.crontab@.matches(z));
                }
                Ok(z.ms)
            },
            Err(e) => Err(e),
        }
    }
}

} // verus!
