//! The dates of denial records.
use crate::diagnostics;
use crate::octets;
use vstd::prelude::*;

verus! {

/// The lengths of the months. February has 29 days in the years that four divides, but not in those
/// that a hundred divides and four hundred does not.
pub proof fn months_have_their_lengths(year: int)
    ensures
        ({
            let leap = year % 4 == 0 && (year % 100 != 0 || year % 400 == 0);
            &&& diagnostics::days_in_month(year, 1) == 31
            &&& diagnostics::days_in_month(year, 2) == (if leap {
                29int
            } else {
                28int
            })
            &&& diagnostics::days_in_month(year, 3) == 31
            &&& diagnostics::days_in_month(year, 4) == 30
            &&& diagnostics::days_in_month(year, 5) == 31
            &&& diagnostics::days_in_month(year, 6) == 30
            &&& diagnostics::days_in_month(year, 7) == 31
            &&& diagnostics::days_in_month(year, 8) == 31
            &&& diagnostics::days_in_month(year, 9) == 30
            &&& diagnostics::days_in_month(year, 10) == 31
            &&& diagnostics::days_in_month(year, 11) == 30
            &&& diagnostics::days_in_month(year, 12) == 31
        }),
{
}

/// Days are counted from 1 January 1970, and each day has the next number after the day before it:
/// within a month, from month to month, and from year to year.
pub proof fn the_next_day_has_the_next_number(year: int, month: int, day: int)
    requires
        year >= 1,
        diagnostics::is_date(year, month, day),
    ensures
        diagnostics::day_number(1970, 1, 1) == 0,
        day < diagnostics::days_in_month(year, month) ==> diagnostics::day_number(
            year,
            month,
            day + 1,
        ) == diagnostics::day_number(year, month, day) + 1,
        day == diagnostics::days_in_month(year, month) && month < 12 ==> diagnostics::day_number(
            year,
            month + 1,
            1,
        ) == diagnostics::day_number(year, month, day) + 1,
        day == diagnostics::days_in_month(year, month) && month == 12 ==> diagnostics::day_number(
            year + 1,
            1,
            1,
        ) == diagnostics::day_number(year, month, day) + 1,
{
    reveal_with_fuel(diagnostics::days_before_month, 13);
    if month == 12 && day == 31 {
        lemma_year(year);
    }
}

proof fn lemma_year(year: int)
    requires
        year >= 1,
    ensures
        diagnostics::days_before_year(year + 1) == diagnostics::days_before_year(year) + (if diagnostics::is_leap(
            year,
        ) {
            366int
        } else {
            365int
        }),
{
    lemma_step(year, 4);
    lemma_step(year, 100);
    lemma_step(year, 400);
    if year % 400 == 0 {
        lemma_multiple(year, 100, 4);
    }
    if year % 100 == 0 {
        lemma_multiple(year, 4, 25);
    }
}

/// A quotient grows by one exactly where the divisor divides.
proof fn lemma_step(y: int, k: int)
    requires
        y >= 1,
        k > 1,
    ensures
        y / k == (y - 1) / k + (if y % k == 0 {
            1int
        } else {
            0int
        }),
{
    let q = (y - 1) / k;
    let r = (y - 1) % k;
    vstd::arithmetic::div_mod::lemma_fundamental_div_mod(y - 1, k);
    if r == k - 1 {
        assert(y == k * (q + 1) + 0) by (nonlinear_arith)
            requires
                y - 1 == k * q + r,
                r == k - 1,
        ;
        vstd::arithmetic::div_mod::lemma_fundamental_div_mod_converse(y, k, q + 1, 0);
    } else {
        vstd::arithmetic::div_mod::lemma_fundamental_div_mod_converse(y, k, q, r + 1);
    }
}

proof fn lemma_multiple(y: int, a: int, b: int)
    requires
        a > 0,
        b > 0,
        y % (a * b) == 0,
    ensures
        y % a == 0,
{
    vstd::arithmetic::mul::lemma_mul_strictly_positive(a, b);
    vstd::arithmetic::div_mod::lemma_fundamental_div_mod(y, a * b);
    let q = y / (a * b);
    assert(y == a * (b * q) + 0) by (nonlinear_arith)
        requires
            y == (a * b) * q + 0,
    ;
    vstd::arithmetic::div_mod::lemma_fundamental_div_mod_converse(y, a, b * q, 0);
}

/// A date is a day of one of the twelve months, and each such day is one. Every day from 1 January
/// 1970 on has its date.
pub proof fn every_day_has_its_date(year: int, month: int, day: int, n: nat)
    ensures
        diagnostics::is_date(year, month, day) <==> 1 <= month <= 12 && 1 <= day
            <= diagnostics::days_in_month(year, month),
        exists|y: int, m: int, d: int|
            y >= 1970 && diagnostics::is_date(y, m, d) && #[trigger] diagnostics::day_number(y, m, d)
                == n,
    decreases n,
{
    months_have_their_lengths(1970);
    if n == 0 {
        the_next_day_has_the_next_number(1970, 1, 1);
        assert(diagnostics::is_date(1970, 1, 1) && diagnostics::day_number(1970, 1, 1) == 0);
    } else {
        every_day_has_its_date(year, month, day, (n - 1) as nat);
        let (y, m, d) = choose|y: int, m: int, d: int|
            y >= 1970 && diagnostics::is_date(y, m, d) && #[trigger] diagnostics::day_number(y, m, d)
                == n - 1;
        the_next_day_has_the_next_number(y, m, d);
        months_have_their_lengths(y);
        months_have_their_lengths(y + 1);
        if d < diagnostics::days_in_month(y, m) {
            assert(diagnostics::is_date(y, m, d + 1));
            assert(diagnostics::day_number(y, m, d + 1) == n);
        } else if m < 12 {
            assert(diagnostics::is_date(y, m + 1, 1));
            assert(diagnostics::day_number(y, m + 1, 1) == n);
        } else {
            assert(diagnostics::is_date(y + 1, 1, 1));
            assert(diagnostics::day_number(y + 1, 1, 1) == n);
        }
    }
}

/// A date and time is written with four digits for the year and two for everything else, each part
/// in its place.
pub proof fn a_time_is_written_in_fixed_places(
    year: nat,
    month: nat,
    day: nat,
    hour: nat,
    minute: nat,
    second: nat,
)
    requires
        1000 <= year <= 9999,
        month < 100,
        day < 100,
        hour < 100,
        minute < 100,
        second < 100,
    ensures
        ({
            let t = diagnostics::rfc3339_text(year, month, day, hour, minute, second);
            &&& t.len() == 20
            &&& octets::decimal(t.subrange(0, 4)) == year
            &&& t[4] == '-' as u8
            &&& octets::decimal(t.subrange(5, 7)) == month
            &&& t[7] == '-' as u8
            &&& octets::decimal(t.subrange(8, 10)) == day
            &&& t[10] == 'T' as u8
            &&& octets::decimal(t.subrange(11, 13)) == hour
            &&& t[13] == ':' as u8
            &&& octets::decimal(t.subrange(14, 16)) == minute
            &&& t[16] == ':' as u8
            &&& octets::decimal(t.subrange(17, 19)) == second
            &&& t[19] == 'Z' as u8
        }),
{
    reveal_strlit("-");
    reveal_strlit("T");
    reveal_strlit(":");
    reveal_strlit("Z");
    vstd::utf8::is_ascii_chars_encode_utf8("-"@);
    vstd::utf8::is_ascii_chars_encode_utf8("T"@);
    vstd::utf8::is_ascii_chars_encode_utf8(":"@);
    vstd::utf8::is_ascii_chars_encode_utf8("Z"@);
    lemma_four(year);
    lemma_two(month);
    lemma_two(day);
    lemma_two(hour);
    lemma_two(minute);
    lemma_two(second);
    let t = diagnostics::rfc3339_text(year, month, day, hour, minute, second);
    assert(t.subrange(0, 4) =~= diagnostics::padded(year, 4));
    assert(t.subrange(5, 7) =~= diagnostics::padded(month, 2));
    assert(t.subrange(8, 10) =~= diagnostics::padded(day, 2));
    assert(t.subrange(11, 13) =~= diagnostics::padded(hour, 2));
    assert(t.subrange(14, 16) =~= diagnostics::padded(minute, 2));
    assert(t.subrange(17, 19) =~= diagnostics::padded(second, 2));
}

proof fn lemma_two(n: nat)
    requires
        n < 100,
    ensures
        diagnostics::padded(n, 2).len() == 2,
        octets::decimal(diagnostics::padded(n, 2)) == n,
{
    octets::lemma_digits_of(n);
    reveal_with_fuel(octets::digits_of, 3);
    let d = octets::digits_of(n);
    let p = diagnostics::padded(n, 2);
    if n < 10 {
        assert(d.len() == 1);
        assert(p.drop_last() =~= seq![48u8]);
        assert(p.drop_last().drop_last() =~= Seq::empty());
        reveal_with_fuel(octets::decimal, 3);
        assert(p.last() == d[0]);
    } else {
        assert(d.len() == 2);
    }
}

proof fn lemma_four(n: nat)
    requires
        1000 <= n <= 9999,
    ensures
        diagnostics::padded(n, 4).len() == 4,
        octets::decimal(diagnostics::padded(n, 4)) == n,
{
    octets::lemma_digits_of(n);
    reveal_with_fuel(octets::digits_of, 5);
}

} // verus!
