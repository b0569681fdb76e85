//! Modified Julian Dates and the proleptic Gregorian calendar.
use vstd::prelude::*;
use std::time::{Duration, SystemTime, SystemTimeError};

verus! {

/// A date in the proleptic Gregorian calendar: year, month, day.
#[derive(Copy, Clone, Debug, PartialEq, Eq, Structural, PartialOrd, Ord)]
pub struct Gregorian(pub i32, pub i32, pub i32);

/// A Modified Julian Date: a signed count of days where 1858-11-17 is day zero.
#[derive(Copy, Clone, Debug, PartialEq, Eq, Structural, PartialOrd, Ord)]
pub struct MJD(pub i32);

/// Days before the first of March of year `y + 1`, counted from an origin
/// shared with `mjd_of`.
pub open spec fn spec_days_in_years(y: int) -> int {
    (y * 1461) / 4 - y / 100 + y / 400
}

/// The day number of a calendar date; the year starts in March so that the
/// leap day comes last.
pub open spec fn mjd_of(y: int, m: int, d: int) -> int {
    if m > 2 {
        spec_days_in_years(y) + ((m + 1) * 153) / 5 + d - 679004
    } else {
        spec_days_in_years(y - 1) + ((m + 13) * 153) / 5 + d - 679004
    }
}

impl Gregorian {
    pub open spec fn spec_mjd(self) -> int {
        mjd_of(self.0 as int, self.1 as int, self.2 as int)
    }

    /// The date's year.
    pub fn year(self) -> (r: i32)
        ensures
            r == self.0,
    {
        self.0
    }

    /// The date's month.
    pub fn month(self) -> (r: i32)
        ensures
            r == self.1,
    {
        self.1
    }

    /// The day of the month.
    pub fn day(self) -> (r: i32)
        ensures
            r == self.2,
    {
        self.2
    }

    /// Convert the date to an [`MJD`].
    pub fn mjd(self) -> (r: MJD)
        requires
            i32::MIN <= self.spec_mjd() <= i32::MAX,
        ensures
            r.0 == self.spec_mjd(),
    {
        let y = self.0 as i64;
        let m = self.1 as i64;
        let d = self.2 as i64;
        let (y, m) = if m > 2 {
            (y, m + 1)
        } else {
            (y - 1, m + 13)
        };
        let days = days_in_years_wide(y) + (m * 153).checked_div_euclid(5).unwrap() + d - 679004;
        MJD(days as i32)
    }
}

fn days_in_years_wide(y: i64) -> (r: i64)
    requires
        -0x1_0000_0000 <= y <= 0x1_0000_0000,
    ensures
        r == spec_days_in_years(y as int),
{
    (y * 1461).checked_div_euclid(4).unwrap() - y.checked_div_euclid(100).unwrap()
        + y.checked_div_euclid(400).unwrap()
}

/// The number of days from the calendar's origin to the end of February of
/// year `y + 1`.
pub fn days_in_years(y: i32) -> (r: i64)
    ensures
        r == spec_days_in_years(y as int),
{
    days_in_years_wide(y as i64)
}

/// The MJD of 1970-01-01, where Unix time starts.
pub const UNIX_EPOCH_MJD: i32 = 40587;

/// Seconds in a day of Unix time.
pub const SECS_PER_DAY: u64 = 86400;

/// The calendar date of day number `n`, computed with years that start in
/// March so that the leap day comes last.
pub open spec fn gregorian_of(n: int) -> Gregorian {
    let d0 = n + 678881;
    let y0 = (d0 * 400) / 146097 + 1;
    let y = if spec_days_in_years(y0) > d0 { y0 - 1 } else { y0 };
    let d1 = d0 - (spec_days_in_years(y) - 31);
    let m = (d1 * 17) / 520;
    let d = d1 - (m * 520) / 17;
    if m > 10 {
        Gregorian((y + 1) as i32, (m - 10) as i32, d as i32)
    } else {
        Gregorian(y as i32, (m + 2) as i32, d as i32)
    }
}

impl From<MJD> for Gregorian {
    fn from(mjd: MJD) -> (r: Gregorian) {
        proof {
            lemma_year_bounds(mjd.0 as int);
        }
        let d0 = mjd.0 as i64 + 678881;
        let y0 = (d0 * 400).checked_div_euclid(146097).unwrap() + 1;
        let y = if days_in_years_wide(y0) > d0 {
            y0 - 1
        } else {
            y0
        };
        let d1 = d0 - (days_in_years_wide(y) - 31);
        let m = (d1 * 17).checked_div_euclid(520).unwrap();
        let d = d1 - (m * 520).checked_div_euclid(17).unwrap();
        if m > 10 {
            Gregorian((y + 1) as i32, (m - 10) as i32, d as i32)
        } else {
            Gregorian(y as i32, (m + 2) as i32, d as i32)
        }
    }
}

impl vstd::std_specs::convert::FromSpecImpl<MJD> for Gregorian {
    open spec fn obeys_from_spec() -> bool {
        true
    }

    open spec fn from_spec(v: MJD) -> Gregorian {
        gregorian_of(v.0 as int)
    }
}

impl From<i32> for MJD {
    fn from(n: i32) -> (r: MJD) {
        MJD(n)
    }
}

impl vstd::std_specs::convert::FromSpecImpl<i32> for MJD {
    open spec fn obeys_from_spec() -> bool {
        true
    }

    open spec fn from_spec(v: i32) -> MJD {
        MJD(v)
    }
}

/// Bounds on the intermediate values of `gregorian_of` for any `i32` day.
proof fn lemma_year_bounds(n: int)
    requires
        i32::MIN <= n <= i32::MAX,
    ensures
        -0x1_0000_0000 <= (n + 678881) * 400 / 146097 + 1 <= 0x1_0000_0000,
{
    let d0 = n + 678881;
    assert(-0x1_0000_0000 <= d0 * 400 / 146097 + 1 <= 0x1_0000_0000) by (nonlinear_arith)
        requires
            -0x1_0000_0000 <= d0 <= 0x1_0000_0000,
    ;
}

impl MJD {
    /// The day of a Unix time given in seconds since 1970-01-01, if it
    /// fits an `i32` day number.
    pub fn from_unix_time(secs: u64) -> (r: Option<MJD>)
        ensures
            r == (if secs / SECS_PER_DAY + UNIX_EPOCH_MJD <= i32::MAX {
                Some(MJD((secs / SECS_PER_DAY + UNIX_EPOCH_MJD) as i32))
            } else {
                None::<MJD>
            }),
    {
        let days = secs / SECS_PER_DAY;
        if days <= (i32::MAX - UNIX_EPOCH_MJD) as u64 {
            Some(MJD(days as i32 + UNIX_EPOCH_MJD))
        } else {
            None
        }
    }

    /// Today's date, from the system clock; none if the clock reads
    /// before 1970 or too far ahead for an `i32` day number.
    pub fn today() -> (r: Option<MJD>)
        ensures
            r matches Some(m) ==> m.0 >= UNIX_EPOCH_MJD,
    {
        match SystemTime::now().duration_since(unix_epoch()) {
            Ok(d) => MJD::from_unix_time(d.as_secs()),
            Err(_) => None,
        }
    }
}

#[verifier::external_type_specification]
#[verifier::external_body]
pub struct ExSystemTime(SystemTime);

/// Relies on std's `SystemTime::UNIX_EPOCH`, 1970-01-01 00:00:00 UTC; no
/// property of it is used.
#[verifier::external_body]
fn unix_epoch() -> SystemTime {
    SystemTime::UNIX_EPOCH
}

#[verifier::external_type_specification]
#[verifier::external_body]
pub struct ExSystemTimeError(SystemTimeError);

/// Relies on std's `SystemTime::now`: the time now; nothing is known of it.
pub assume_specification[ SystemTime::now ]() -> SystemTime;

/// Relies on std's `SystemTime::duration_since`: the time elapsed since
/// `earlier`, or an error if `earlier` is later; nothing more is known.
pub assume_specification[ SystemTime::duration_since ](
    this: &SystemTime,
    earlier: SystemTime,
) -> Result<Duration, SystemTimeError>;

/// Relies on std's `Duration::as_secs`: the whole seconds of a duration.
pub assume_specification[ Duration::as_secs ](d: &Duration) -> u64;

proof fn lemma_floor(x: int, d: int)
    requires
        d > 0,
    ensures
        d * (x / d) <= x < d * (x / d) + d,
{
    vstd::arithmetic::div_mod::lemma_fundamental_div_mod(x, d);
    vstd::arithmetic::div_mod::lemma_mod_bound(x, d);
}

/// `spec_days_in_years` grows by 365.2425 days a year, up to rounding.
proof fn lemma_days_in_years_bounds(y: int)
    ensures
        146097 * y - 800 < 400 * spec_days_in_years(y) < 146097 * y + 400,
{
    lemma_floor(y * 1461, 4);
    lemma_floor(y, 100);
    lemma_floor(y, 400);
}

proof fn lemma_days_in_years_step(y: int)
    ensures
        365 <= spec_days_in_years(y + 1) - spec_days_in_years(y) <= 367,
{
    lemma_floor(y * 1461, 4);
    lemma_floor((y + 1) * 1461, 4);
    lemma_floor(y, 100);
    lemma_floor(y + 1, 100);
    lemma_floor(y, 400);
    lemma_floor(y + 1, 400);
}

/// Days from the first of March to the first of month `m + 2`, counted
/// two ways, for the months of a March-based year.
proof fn lemma_month_offsets(m: int)
    requires
        1 <= m <= 12,
    ensures
        ((m + 3) * 153) / 5 - (m * 520) / 17 == 92,
        (m * 520) % 17 != 0,
{
    if m == 1 {
    } else if m == 2 {
    } else if m == 3 {
    } else if m == 4 {
    } else if m == 5 {
    } else if m == 6 {
    } else if m == 7 {
    } else if m == 8 {
    } else if m == 9 {
    } else if m == 10 {
    } else if m == 11 {
    } else {
    }
}

/// Converting a day number to a calendar date and back gives the same
/// day number, and the date has a month from 1 to 12 and a day from 1 to 31.
pub proof fn calendar_inverse(n: int)
    requires
        i32::MIN <= n <= i32::MAX,
    ensures
        gregorian_of(n).spec_mjd() == n,
        1 <= gregorian_of(n).1 <= 12,
        1 <= gregorian_of(n).2 <= 31,
{
    let d0 = n + 678881;
    let y0 = (d0 * 400) / 146097 + 1;
    lemma_floor(d0 * 400, 146097);
    lemma_days_in_years_bounds(y0 - 1);
    lemma_days_in_years_bounds(y0 + 1);
    let y = if spec_days_in_years(y0) > d0 { y0 - 1 } else { y0 };
    assert(spec_days_in_years(y) <= d0 < spec_days_in_years(y + 1));
    lemma_days_in_years_step(y);
    let d1 = d0 - (spec_days_in_years(y) - 31);
    assert(31 <= d1 < 31 + 367);
    let m = (d1 * 17) / 520;
    lemma_floor(d1 * 17, 520);
    assert(1 <= m <= 12);
    let k = (m * 520) / 17;
    lemma_floor(m * 520, 17);
    lemma_month_offsets(m);
    let d = d1 - k;
    assert(17 * k <= 520 * m <= 17 * d1 < 520 * m + 520);
    assert(17 * k != 520 * m) by {
        vstd::arithmetic::div_mod::lemma_fundamental_div_mod(m * 520, 17);
    }
    assert(1 <= d <= 31);
    assert(-0x4000_0000 < y < 0x4000_0000) by (nonlinear_arith)
        requires
            146097 * (y0 - 1) <= d0 * 400 < 146097 * (y0 - 1) + 146097,
            -0x1_0000_0000 <= d0 <= 0x1_0000_0000,
            y == y0 || y == y0 - 1,
    ;
    let g = gregorian_of(n);
    if m > 10 {
        assert(g == Gregorian((y + 1) as i32, (m - 10) as i32, d as i32));
        assert(g.spec_mjd() == spec_days_in_years(y) + ((m - 10 + 13) * 153) / 5 + d - 679004);
    } else {
        assert(g == Gregorian(y as i32, (m + 2) as i32, d as i32));
        assert(g.spec_mjd() == spec_days_in_years(y) + ((m + 2 + 1) * 153) / 5 + d - 679004);
    }
}

} // verus!

