//! Denial records, health and the calendar.
use crate::domain::policy;
use crate::domain::policy::Mode;
use crate::domain::target;
use crate::domain::target::{LocalTarget, LoopbackAuthority, PublicTarget};
use crate::octets;
use crate::octets::{append, append_text, copy, render_decimal};
use vstd::prelude::*;

verus! {

/// The destination of a denied request, as it is logged.
#[derive(Debug, Clone, PartialEq, Eq)]
pub struct DenialDestination {
    value: Vec<u8>,
}

impl View for DenialDestination {
    type V = Seq<u8>;

    closed spec fn view(&self) -> Seq<u8> {
        self.value@
    }
}

impl DenialDestination {
    /// A public destination is logged by its host alone.
    pub fn public(target: &PublicTarget) -> (r: DenialDestination)
        ensures
            r@ == target::host_text(target@.host),
    {
        DenialDestination { value: target.host().text() }
    }

    /// A local destination is logged by its canonical authority.
    pub fn local(target: &LocalTarget) -> (r: DenialDestination)
        ensures
            r@ == target::loopback_text(target@.authority),
    {
        DenialDestination { value: target.canonical_authority().text() }
    }

    pub fn authority(authority: &LoopbackAuthority) -> (r: DenialDestination)
        ensures
            r@ == target::loopback_text(authority@),
    {
        DenialDestination { value: authority.text() }
    }
}

/// What became of a denial record.
#[derive(Debug, Clone, Copy, PartialEq, Eq, Structural)]
pub enum AuditResult {
    Recorded,
    Disabled,
    AppendFailed,
}

/// Whether the last append to the denial log failed. The failure stays until an append succeeds.
#[derive(Debug, Clone, Copy, PartialEq, Eq, Structural)]
pub struct AuditState {
    pub append_failed: bool,
}

impl AuditState {
    pub fn new() -> (r: AuditState)
        ensures
            !r.append_failed,
    {
        AuditState { append_failed: false }
    }

    /// Takes note of an attempt: `None` where no log is configured, else whether it succeeded.
    pub fn record(&mut self, appended: Option<bool>) -> (r: AuditResult)
        ensures
            match appended {
                None => r == AuditResult::Disabled && *final(self) == *old(self),
                Some(true) => r == AuditResult::Recorded && !final(self).append_failed,
                Some(false) => r == AuditResult::AppendFailed && final(self).append_failed,
            },
    {
        match appended {
            None => AuditResult::Disabled,
            Some(true) => {
                self.append_failed = false;
                AuditResult::Recorded
            },
            Some(false) => {
                self.append_failed = true;
                AuditResult::AppendFailed
            },
        }
    }
}

#[derive(Debug, Clone, Copy, PartialEq, Eq, Structural)]
pub enum Health {
    Healthy,
    Unhealthy,
}

/// Healthy means: not shutting down, every policy file valid, the denial log open for appending,
/// and no append failed since the last that succeeded.
pub fn health(
    shutdown_requested: bool,
    public_policy_valid: bool,
    local_policy_valid: Option<bool>,
    log_opens: bool,
    append_failed: bool,
) -> (r: Health)
    ensures
        r == (if !shutdown_requested && public_policy_valid && local_policy_valid != Some(false)
            && log_opens && !append_failed {
            Health::Healthy
        } else {
            Health::Unhealthy
        }),
{
    if shutdown_requested || !public_policy_valid {
        return Health::Unhealthy;
    }
    if let Some(valid) = local_policy_valid {
        if !valid {
            return Health::Unhealthy;
        }
    }
    if !log_opens || append_failed {
        return Health::Unhealthy;
    }
    Health::Healthy
}

/// One line of the denial log.
pub fn render_denial(timestamp: &str, destination: &DenialDestination) -> (r: Vec<u8>)
    ensures
        r@ == octets::octets(timestamp@) + octets::octets("\t"@) + destination@ + octets::octets(
            "\n"@,
        ),
{
    let mut out: Vec<u8> = copy(timestamp.as_bytes());
    append_text(&mut out, "\t");
    append(&mut out, destination.value.as_slice());
    append_text(&mut out, "\n");
    out
}

/// The diagnostic for a denial.
pub fn render_denial_diagnostic(destination: &DenialDestination, mode: Mode) -> (r: Vec<u8>)
    ensures
        r@ == octets::octets("vhrn-proxy: denial target="@) + destination@ + octets::octets(
            " mode="@,
        ) + octets::octets(policy::mode_text(mode)),
{
    let mut out: Vec<u8> = copy("vhrn-proxy: denial target=".as_bytes());
    append(&mut out, destination.value.as_slice());
    append_text(&mut out, " mode=");
    append_text(&mut out, mode.as_str());
    out
}

/// A leap year of the Gregorian calendar.
pub open spec fn is_leap(year: int) -> bool {
    (year % 4 == 0 && year % 100 != 0) || year % 400 == 0
}

/// The days of a month.
pub open spec fn days_in_month(year: int, month: int) -> int {
    if month == 2 {
        if is_leap(year) {
            29
        } else {
            28
        }
    } else if month == 4 || month == 6 || month == 9 || month == 11 {
        30
    } else {
        31
    }
}

/// The days of a year before a month.
pub open spec fn days_before_month(year: int, month: int) -> int
    decreases month,
{
    if month <= 1 {
        0
    } else {
        days_before_month(year, month - 1) + days_in_month(year, month - 1)
    }
}

/// The days from 1 January 1970 to 1 January of a year: 365 a year and one more for each leap year
/// in between.
pub open spec fn days_before_year(year: int) -> int {
    365 * (year - 1970) + ((year - 1) / 4 - (year - 1) / 100 + (year - 1) / 400) - 477
}

/// The days from 1 January 1970 to a date.
pub open spec fn day_number(year: int, month: int, day: int) -> int {
    days_before_year(year) + days_before_month(year, month) + day - 1
}

/// A date of the calendar.
pub open spec fn is_date(year: int, month: int, day: int) -> bool {
    1 <= month <= 12 && 1 <= day <= days_in_month(year, month)
}

proof fn lemma_month_starts(year: int)
    ensures
        days_before_month(year, 1) == 0,
        days_before_month(year, 2) == 31,
        days_before_month(year, 3) == 31 + days_in_month(year, 2),
        days_before_month(year, 4) == 62 + days_in_month(year, 2),
        days_before_month(year, 5) == 92 + days_in_month(year, 2),
        days_before_month(year, 6) == 123 + days_in_month(year, 2),
        days_before_month(year, 7) == 153 + days_in_month(year, 2),
        days_before_month(year, 8) == 184 + days_in_month(year, 2),
        days_before_month(year, 9) == 215 + days_in_month(year, 2),
        days_before_month(year, 10) == 245 + days_in_month(year, 2),
        days_before_month(year, 11) == 276 + days_in_month(year, 2),
        days_before_month(year, 12) == 306 + days_in_month(year, 2),
{
    reveal_with_fuel(days_before_month, 13);
}

/// The year of an era of 400 years that a day of the era falls in, counting years from 1 March.
proof fn lemma_year_of_era(doe: int)
    requires
        0 <= doe < 146097,
    ensures
        ({
            let yoe = (doe - doe / 1460 + doe / 36524 - doe / 146096) / 365;
            let doy = doe - (365 * yoe + yoe / 4 - yoe / 100);
            &&& 0 <= yoe < 400
            &&& 0 <= doy <= 365
            &&& doy == 365 ==> (yoe + 1) % 4 == 0 && ((yoe + 1) % 100 != 0 || yoe + 1 == 400)
        }),
{
    let c = doe / 36524;
    let q = doe / 1460;
    let z = doe / 146096;
    assert(0 <= c <= 4);
    assert(0 <= z <= 1);
    let yoe = (doe - q + c - z) / 365;
    assert(0 <= yoe <= 399);
    let a = yoe / 4;
    let h = yoe / 100;
    assert(0 <= h <= 3);
}

/// How many leap years there are from year 1 to a year.
pub open spec fn leap_years(year: int) -> int {
    year / 4 - year / 100 + year / 400
}

/// A leap year is counted in its own year.
proof fn lemma_leap_years(year: int)
    ensures
        leap_years(year) == leap_years(year - 1) + if is_leap(year) {
            1int
        } else {
            0
        },
{
    assert(year / 4 == (year - 1) / 4 + if year % 4 == 0 {
        1int
    } else {
        0
    });
    assert(year / 100 == (year - 1) / 100 + if year % 100 == 0 {
        1int
    } else {
        0
    });
    assert(year / 400 == (year - 1) / 400 + if year % 400 == 0 {
        1int
    } else {
        0
    });
}

/// Years of an era as calendar years.
proof fn lemma_era(era: int, yoe: int)
    requires
        0 <= yoe < 400,
    ensures
        leap_years(yoe + era * 400) == yoe / 4 - yoe / 100 + era * 97,
        is_leap(yoe + era * 400 + 1) == ((yoe + 1) % 4 == 0 && ((yoe + 1) % 100 != 0 || yoe + 1
            == 400)),
{
    let base = yoe + era * 400;
    assert(base / 4 == yoe / 4 + era * 100);
    assert(base / 100 == yoe / 100 + era * 4);
    assert(base / 400 == era);
    assert((base + 1) % 4 == (yoe + 1) % 4);
    assert((base + 1) % 100 == (yoe + 1) % 100);
    assert((base + 1) % 400 == (yoe + 1) % 400);
}

/// The month and day of a day of the year, counting months and days from 1 March.
proof fn lemma_month_of_year(doy: int, mp: int, day: int)
    requires
        0 <= doy <= 365,
        mp == (5 * doy + 2) / 153,
        day == doy - (153 * mp + 2) / 5 + 1,
    ensures
        0 <= mp <= 11,
        day >= 1,
        mp == 0 ==> doy == day - 1 && day <= 31,
        mp == 1 ==> doy == day + 30 && day <= 30,
        mp == 2 ==> doy == day + 60 && day <= 31,
        mp == 3 ==> doy == day + 91 && day <= 30,
        mp == 4 ==> doy == day + 121 && day <= 31,
        mp == 5 ==> doy == day + 152 && day <= 31,
        mp == 6 ==> doy == day + 183 && day <= 30,
        mp == 7 ==> doy == day + 213 && day <= 31,
        mp == 8 ==> doy == day + 244 && day <= 30,
        mp == 9 ==> doy == day + 274 && day <= 31,
        mp == 10 ==> doy == day + 305 && day <= 31,
        mp == 11 ==> doy == day + 336 && day <= 29 && (day == 29 ==> doy == 365),
{
}

/// The date that an era, a year of the era, a month counted from March and a day make.
proof fn lemma_civil_date(
    days: int,
    era: int,
    yoe: int,
    doy: int,
    mp: int,
    day: int,
    month: int,
    year: int,
)
    requires
        0 <= yoe < 400,
        0 <= doy <= 365,
        doy == 365 ==> (yoe + 1) % 4 == 0 && ((yoe + 1) % 100 != 0 || yoe + 1 == 400),
        days + 719468 == era * 146097 + 365 * yoe + yoe / 4 - yoe / 100 + doy,
        mp == (5 * doy + 2) / 153,
        day == doy - (153 * mp + 2) / 5 + 1,
        month == if mp < 10 {
            mp + 3
        } else {
            mp - 9
        },
        year == yoe + era * 400 + if month <= 2 {
            1int
        } else {
            0
        },
    ensures
        is_date(year, month, day),
        day_number(year, month, day) == days,
{
    let base = yoe + era * 400;
    lemma_month_of_year(doy, mp, day);
    lemma_era(era, yoe);
    lemma_month_starts(year);
    lemma_leap_years(base);
    assert(days + 719468 == 365 * base + leap_years(base) + doy);
    if mp >= 10 {
        assert(year == base + 1);
        assert(days_before_year(year) == 365 * (base + 1 - 1970) + leap_years(base) - 477);
    } else {
        assert(year == base);
        assert(days_before_year(year) == 365 * (base - 1970) + leap_years(base - 1) - 477);
    }
}

/// The date and time of day, in UTC, of a number of seconds since 1 January 1970: year, month, day,
/// hour, minute and second.
pub fn civil_time(seconds: u64) -> (r: (i64, i64, i64, u64, u64, u64))
    ensures
        is_date(r.0 as int, r.1 as int, r.2 as int),
        day_number(r.0 as int, r.1 as int, r.2 as int) == seconds as int / 86400,
        r.0 >= 1970,
        r.3 < 24 && r.4 < 60 && r.5 < 60,
        r.3 * 3600 + r.4 * 60 + r.5 == seconds % 86400,
{
    let days: i64 = (seconds / 86400) as i64;
    let time: u64 = seconds % 86400;
    let z: i64 = days + 719468;
    let era: i64 = z / 146097;
    let doe: i64 = z - era * 146097;
    proof {
        lemma_year_of_era(doe as int);
    }
    let yoe: i64 = (doe - doe / 1460 + doe / 36524 - doe / 146096) / 365;
    let doy: i64 = doe - (365 * yoe + yoe / 4 - yoe / 100);
    let mp: i64 = (5 * doy + 2) / 153;
    let day: i64 = doy - (153 * mp + 2) / 5 + 1;
    let month: i64 = if mp < 10 {
        mp + 3
    } else {
        mp - 9
    };
    let year: i64 = yoe + era * 400 + if month <= 2 {
        1
    } else {
        0
    };
    proof {
        lemma_civil_date(
            days as int,
            era as int,
            yoe as int,
            doy as int,
            mp as int,
            day as int,
            month as int,
            year as int,
        );
        lemma_not_before_1970(year as int, month as int, day as int);
    }
    (year, month, day, time / 3600, time / 60 % 60, time % 60)
}

proof fn lemma_not_before_1970(year: int, month: int, day: int)
    requires
        is_date(year, month, day),
        day_number(year, month, day) >= 0,
    ensures
        year >= 1970,
{
    lemma_month_starts(year);
}

/// No two dates have the same day number, so that the number fixes the date.
pub proof fn day_number_is_injective(
    year: int,
    month: int,
    day: int,
    other_year: int,
    other_month: int,
    other_day: int,
)
    requires
        is_date(year, month, day),
        is_date(other_year, other_month, other_day),
        day_number(year, month, day) == day_number(other_year, other_month, other_day),
    ensures
        year == other_year && month == other_month && day == other_day,
{
    lemma_month_starts(year);
    lemma_month_starts(other_year);
    lemma_year_starts(year, other_year);
    lemma_year_starts(other_year, year);
}

proof fn lemma_year_starts(year: int, later: int)
    ensures
        year < later ==> days_before_year(later) >= days_before_year(year) + 365 + if is_leap(
            year,
        ) {
            1int
        } else {
            0
        },
{
    lemma_leap_years(year);
}

/// A number in decimal, with zeros in front up to a width.
pub open spec fn padded(n: nat, width: nat) -> Seq<u8> {
    let digits = octets::digits_of(n);
    if digits.len() < width {
        Seq::new((width - digits.len()) as nat, |i: int| '0' as u8) + digits
    } else {
        digits
    }
}

fn pad(n: u64, width: usize) -> (r: Vec<u8>)
    ensures
        r@ == padded(n as nat, width as nat),
{
    let digits = render_decimal(n);
    if digits.len() >= width {
        return digits;
    }
    let gap: usize = width - digits.len();
    let mut out: Vec<u8> = Vec::new();
    while out.len() < gap
        invariant
            out@.len() <= gap,
            out@ == Seq::new(out@.len(), |i: int| '0' as u8),
        decreases gap - out@.len(),
    {
        out.push('0' as u8);
        assert(out@ =~= Seq::new(out@.len(), |i: int| '0' as u8));
    }
    append(&mut out, digits.as_slice());
    out
}

/// A date and time as RFC 3339 writes it, in UTC and whole seconds.
pub open spec fn rfc3339_text(
    year: nat,
    month: nat,
    day: nat,
    hour: nat,
    minute: nat,
    second: nat,
) -> Seq<u8> {
    padded(year, 4) + octets::octets("-"@) + padded(month, 2) + octets::octets("-"@) + padded(day, 2)
        + octets::octets("T"@) + padded(hour, 2) + octets::octets(":"@) + padded(minute, 2)
        + octets::octets(":"@) + padded(second, 2) + octets::octets("Z"@)
}

/// The date and the time of day are those of a number of seconds since 1 January 1970.
pub open spec fn is_time(
    seconds: nat,
    year: nat,
    month: nat,
    day: nat,
    hour: nat,
    minute: nat,
    second: nat,
) -> bool {
    &&& is_date(year as int, month as int, day as int)
    &&& day_number(year as int, month as int, day as int) == seconds / 86400
    &&& hour < 24 && minute < 60 && second < 60
    &&& hour * 3600 + minute * 60 + second == seconds % 86400
}

/// A number of seconds since 1 January 1970 as an RFC 3339 time stamp.
pub fn rfc3339(seconds: u64) -> (r: Vec<u8>)
    ensures
        exists|year: nat, month: nat, day: nat, hour: nat, minute: nat, second: nat|
            #[trigger] is_time(seconds as nat, year, month, day, hour, minute, second) && r@
                == rfc3339_text(year, month, day, hour, minute, second),
{
    let (year, month, day, hour, minute, second) = civil_time(seconds);
    let mut out: Vec<u8> = pad(year as u64, 4);
    append_text(&mut out, "-");
    append(&mut out, pad(month as u64, 2).as_slice());
    append_text(&mut out, "-");
    append(&mut out, pad(day as u64, 2).as_slice());
    append_text(&mut out, "T");
    append(&mut out, pad(hour, 2).as_slice());
    append_text(&mut out, ":");
    append(&mut out, pad(minute, 2).as_slice());
    append_text(&mut out, ":");
    append(&mut out, pad(second, 2).as_slice());
    append_text(&mut out, "Z");
    proof {
        let text = rfc3339_text(
            year as nat,
            month as nat,
            day as nat,
            hour as nat,
            minute as nat,
            second as nat,
        );
        assert(out@ =~= text);
        assert(is_time(
            seconds as nat,
            year as nat,
            month as nat,
            day as nat,
            hour as nat,
            minute as nat,
            second as nat,
        ));
    }
    out
}

} // verus!
