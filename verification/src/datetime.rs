use vstd::prelude::*;

use crate::text::{
    decimal, digit_char, lemma_decimal_len, lemma_field_widths, padded_decimal, push_char,
    push_padded,
};

verus! {

/// Gregorian leap year.
pub open spec fn is_leap(y: int) -> bool {
    (y % 4 == 0 && y % 100 != 0) || y % 400 == 0
}

/// Days in year `y`.
pub open spec fn year_len(y: int) -> int {
    if is_leap(y) {
        366
    } else {
        365
    }
}

/// Days in month `m` (1 to 12) of year `y`.
pub open spec fn month_len(y: int, m: int) -> int {
    if m == 2 {
        if is_leap(y) {
            29
        } else {
            28
        }
    } else if m == 4 || m == 6 || m == 9 || m == 11 {
        30
    } else {
        31
    }
}

/// Days from 1970-01-01 to the first of January of year `y` (from 1970 on).
pub open spec fn days_before_year(y: int) -> int
    decreases y - 1970,
{
    if y <= 1970 {
        0
    } else {
        days_before_year(y - 1) + year_len(y - 1)
    }
}

/// Days from the first of January of year `y` to the first of month `m`.
pub open spec fn days_before_month(y: int, m: int) -> int
    decreases m,
{
    if m <= 1 {
        0
    } else {
        days_before_month(y, m - 1) + month_len(y, m - 1)
    }
}

/// A day of the Gregorian calendar, from 1970 on.
pub open spec fn valid_date(y: int, m: int, d: int) -> bool {
    &&& y >= 1970
    &&& 1 <= m <= 12
    &&& 1 <= d <= month_len(y, m)
}

/// Days from 1970-01-01 to `y-m-d`.
pub open spec fn day_number(y: int, m: int, d: int) -> int {
    days_before_year(y) + days_before_month(y, m) + d - 1
}

/// Leap years from year 1 to year `p`.
spec fn leaps_through(p: int) -> int {
    p / 4 - p / 100 + p / 400
}

proof fn lemma_leaps_step(y: int)
    requires
        y >= 1,
    ensures
        leaps_through(y) == leaps_through(y - 1) + if is_leap(y) {
            1int
        } else {
            0int
        },
{
}

proof fn lemma_days_before_year(y: int)
    requires
        y >= 1970,
    ensures
        days_before_year(y) == 365 * (y - 1970) + leaps_through(y - 1) - leaps_through(1969),
    decreases y - 1970,
{
    if y > 1970 {
        lemma_days_before_year(y - 1);
        lemma_leaps_step(y - 1);
    }
}

/// Days from the start of a 400-year era (a first of March) to the start of
/// its year `yoe`.
spec fn era_year_start(yoe: int) -> int {
    365 * yoe + yoe / 4 - yoe / 100
}

/// The year of an era that holds its day `doe`.
spec fn era_year_of(doe: int) -> int {
    (doe - doe / 1460 + doe / 36524 - doe / 146096) / 365
}

proof fn lemma_era_year(doe: int)
    requires
        0 <= doe < 146097,
    ensures
        0 <= era_year_of(doe) <= 399,
        era_year_start(era_year_of(doe)) <= doe,
        doe - era_year_start(era_year_of(doe)) < 365 + if is_leap(era_year_of(doe) + 1) {
            1int
        } else {
            0int
        },
{
    if doe < 36524 {
        lemma_era_year_in_century(doe, 0);
    } else if doe < 73048 {
        lemma_era_year_in_century(doe, 1);
    } else if doe < 109572 {
        lemma_era_year_in_century(doe, 2);
    } else if doe < 146096 {
        lemma_era_year_in_century(doe, 3);
    }
}

#[verifier::rlimit(40)]
proof fn lemma_era_year_in_century(doe: int, c: int)
    requires
        0 <= c <= 3,
        36524 * c <= doe < 36524 * c + 36524,
    ensures
        0 <= era_year_of(doe) <= 399,
        era_year_start(era_year_of(doe)) <= doe,
        doe - era_year_start(era_year_of(doe)) < 365 + if is_leap(era_year_of(doe) + 1) {
            1int
        } else {
            0int
        },
{
    let r = doe - 36524 * c;
    let g = r / 1461;
    let q = r - 1461 * g;
    assert(0 <= g <= 24);
    assert(doe / 36524 == c);
    assert(doe / 146096 == 0);
    if q < 1460 - 24 * c - g {
        assert(doe / 1460 == 25 * c + g);
    } else {
        assert(doe / 1460 == 25 * c + g + 1);
    }
}

/// Days from the first of March to the first of the month `mp` months later.
spec fn march_month_start(mp: int) -> int {
    (153 * mp + 2) / 5
}

proof fn lemma_march_month(doy: int)
    requires
        0 <= doy <= 365,
    ensures
        0 <= (5 * doy + 2) / 153 <= 11,
        march_month_start((5 * doy + 2) / 153) <= doy < march_month_start((5 * doy + 2) / 153 + 1),
{
}

/// Days from the first of January to the first of month `m` in a common year.
spec fn common_month_start(m: int) -> int {
    if m <= 1 {
        0
    } else if m == 2 {
        31
    } else if m == 3 {
        59
    } else if m == 4 {
        90
    } else if m == 5 {
        120
    } else if m == 6 {
        151
    } else if m == 7 {
        181
    } else if m == 8 {
        212
    } else if m == 9 {
        243
    } else if m == 10 {
        273
    } else if m == 11 {
        304
    } else {
        334
    }
}

proof fn lemma_days_before_month(y: int, m: int)
    requires
        1 <= m <= 12,
    ensures
        days_before_month(y, m) == common_month_start(m) + if m > 2 && is_leap(y) {
            1int
        } else {
            0int
        },
{
    reveal_with_fuel(days_before_month, 13);
}

/// The date of day `days` by the era method: the days are counted from
/// 0000-03-01 in eras of 400 years (146097 days), each year starting on the
/// first of March, so that the leap day ends the year.
spec fn civil_parts(days: int) -> (int, int, int) {
    let z = days + 719468;
    let era = z / 146097;
    let doe = z - era * 146097;
    let yoe = era_year_of(doe);
    let doy = doe - era_year_start(yoe);
    let mp = (5 * doy + 2) / 153;
    let d = doy - march_month_start(mp) + 1;
    let m = if mp < 10 {
        mp + 3
    } else {
        mp - 9
    };
    let y = yoe + era * 400 + if m <= 2 {
        1int
    } else {
        0int
    };
    (y, m, d)
}

proof fn lemma_era_shift(era: int, yoe: int)
    requires
        era >= 0,
        0 <= yoe <= 399,
    ensures
        leaps_through(400 * era + yoe) == 97 * era + yoe / 4 - yoe / 100,
        is_leap(400 * era + yoe + 1) == is_leap(yoe + 1),
        is_leap(400 * era + yoe) == is_leap(yoe),
{
    let yy = 400 * era + yoe;
    assert(yy / 4 == era * 100 + yoe / 4);
    assert(yy / 100 == era * 4 + yoe / 100);
    assert(yy / 400 == era);
    assert((yy + 1) % 4 == (yoe + 1) % 4);
    assert((yy + 1) % 100 == (yoe + 1) % 100);
    assert((yy + 1) % 400 == (yoe + 1) % 400);
    assert(yy % 4 == yoe % 4);
    assert(yy % 100 == yoe % 100);
    assert(yy % 400 == yoe % 400);
}

/// The month `mp` months after March, and where it starts counted from
/// the first of January of its own year.
proof fn lemma_march_months(mp: int, y: int)
    requires
        0 <= mp <= 11,
    ensures
        mp < 10 ==> march_month_start(mp) == common_month_start(mp + 3) - 59,
        mp >= 10 ==> march_month_start(mp) == common_month_start(mp - 9) + 306,
        mp < 10 ==> march_month_start(mp + 1) - march_month_start(mp) == month_len(y, mp + 3),
        mp == 10 ==> march_month_start(mp + 1) - march_month_start(mp) == month_len(y, 1),
{
}

#[verifier::rlimit(40)]
proof fn lemma_civil_parts(days: int)
    requires
        days >= 0,
    ensures
        valid_date(civil_parts(days).0, civil_parts(days).1, civil_parts(days).2),
        day_number(civil_parts(days).0, civil_parts(days).1, civil_parts(days).2) == days,
{
    let z = days + 719468;
    let era = z / 146097;
    let doe = z - era * 146097;
    assert(0 <= doe < 146097);
    lemma_era_year(doe);
    let yoe = era_year_of(doe);
    let doy = doe - era_year_start(yoe);
    lemma_march_month(doy);
    let mp = (5 * doy + 2) / 153;
    let d = doy - march_month_start(mp) + 1;
    let m = if mp < 10 {
        mp + 3
    } else {
        mp - 9
    };
    let yy = yoe + era * 400;
    let y = yy + if m <= 2 {
        1int
    } else {
        0int
    };
    assert(civil_parts(days) == (y, m, d));
    lemma_era_shift(era, yoe);
    lemma_march_months(mp, y);
    assert(era >= 4);
    assert(y >= 1970);
    lemma_days_before_year(y);
    lemma_days_before_month(y, m);
    assert(valid_date(y, m, d));
    assert(day_number(y, m, d) == days);
}

proof fn lemma_years_increase(y1: int, y2: int)
    requires
        1970 <= y1 < y2,
    ensures
        days_before_year(y1) + year_len(y1) <= days_before_year(y2),
    decreases y2 - y1,
{
    if y2 > y1 + 1 {
        lemma_years_increase(y1, y2 - 1);
    }
}

proof fn lemma_date_in_year(y: int, m: int, d: int)
    requires
        valid_date(y, m, d),
    ensures
        days_before_year(y) <= day_number(y, m, d) < days_before_year(y) + year_len(y),
{
    lemma_days_before_month(y, m);
}

proof fn lemma_months_increase(y: int, m1: int, m2: int)
    requires
        1 <= m1 < m2 <= 12,
    ensures
        days_before_month(y, m1) + month_len(y, m1) <= days_before_month(y, m2),
{
    lemma_days_before_month(y, m1);
    lemma_days_before_month(y, m2);
}

/// Two dates of the calendar that fall on the same day are the same date.
pub proof fn lemma_date_unique(y1: int, m1: int, d1: int, y2: int, m2: int, d2: int)
    requires
        valid_date(y1, m1, d1),
        valid_date(y2, m2, d2),
        day_number(y1, m1, d1) == day_number(y2, m2, d2),
    ensures
        y1 == y2,
        m1 == m2,
        d1 == d2,
{
    lemma_date_in_year(y1, m1, d1);
    lemma_date_in_year(y2, m2, d2);
    if y1 < y2 {
        lemma_years_increase(y1, y2);
    } else if y2 < y1 {
        lemma_years_increase(y2, y1);
    }
    assert(y1 == y2);
    if m1 < m2 {
        lemma_months_increase(y1, m1, m2);
    } else if m2 < m1 {
        lemma_months_increase(y1, m2, m1);
    }
}

/// The date of the day `days` after 1970-01-01.
pub open spec fn date_of_day(days: int) -> (int, int, int) {
    choose|t: (int, int, int)| valid_date(t.0, t.1, t.2) && day_number(t.0, t.1, t.2) == days
}

/// Every day from 1970-01-01 on has a date, and `date_of_day` gives it.
pub proof fn lemma_date_of_day(days: int)
    requires
        days >= 0,
    ensures
        valid_date(date_of_day(days).0, date_of_day(days).1, date_of_day(days).2),
        day_number(date_of_day(days).0, date_of_day(days).1, date_of_day(days).2) == days,
{
    lemma_civil_is_date_of_day(days);
}

proof fn lemma_civil_is_date_of_day(days: int)
    requires
        days >= 0,
    ensures
        valid_date(date_of_day(days).0, date_of_day(days).1, date_of_day(days).2),
        day_number(date_of_day(days).0, date_of_day(days).1, date_of_day(days).2) == days,
        date_of_day(days) == civil_parts(days),
{
    lemma_civil_parts(days);
    let c = civil_parts(days);
    assert(valid_date(c.0, c.1, c.2) && day_number(c.0, c.1, c.2) == days);
    let t = date_of_day(days);
    lemma_date_unique(t.0, t.1, t.2, c.0, c.1, c.2);
}

/// The date (year, month, day) of the day `days` after 1970-01-01.
pub fn civil_from_days(days: u64) -> (r: (u64, u64, u64))
    requires
        days <= u64::MAX / 86400,
    ensures
        valid_date(r.0 as int, r.1 as int, r.2 as int),
        day_number(r.0 as int, r.1 as int, r.2 as int) == days,
        (r.0 as int, r.1 as int, r.2 as int) == date_of_day(days as int),
{
    proof {
        lemma_civil_is_date_of_day(days as int);
        lemma_era_year(((days + 719468) % 146097) as int);
    }
    let z = days + 719468;
    let era = z / 146097;
    let doe = z - era * 146097;
    let yoe = (doe - doe / 1460 + doe / 36524 - doe / 146096) / 365;
    let y = yoe + era * 400;
    let doy = doe - (365 * yoe + yoe / 4 - yoe / 100);
    proof {
        lemma_march_month(doy as int);
    }
    let mp = (5 * doy + 2) / 153;
    let d = doy - (153 * mp + 2) / 5 + 1;
    let mo = if mp < 10 {
        mp + 3
    } else {
        mp - 9
    };
    let y = if mo <= 2 {
        y + 1
    } else {
        y
    };
    (y, mo, d)
}

/// `secs` seconds after 1970-01-01 00:00:00 UTC as `YYYY-MM-DD_HH-MM-SS`,
/// each field zero-padded (the year to at least four digits).
pub open spec fn datetime_text(secs: nat) -> Seq<char> {
    let date = date_of_day((secs / 86400) as int);
    fields_text(date.0 as nat, date.1 as nat, date.2 as nat, (secs / 3600) % 24, (secs / 60) % 60, secs % 60)
}

/// The fields of a date and time, zero-padded and joined as
/// `YYYY-MM-DD_HH-MM-SS`.
pub open spec fn fields_text(y: nat, mo: nat, d: nat, h: nat, mi: nat, s: nat) -> Seq<char> {
    padded_decimal(y, 4) + seq!['-'] + padded_decimal(mo, 2) + seq!['-'] + padded_decimal(d, 2)
        + seq!['_'] + padded_decimal(h, 2) + seq!['-'] + padded_decimal(mi, 2) + seq!['-']
        + padded_decimal(s, 2)
}

/// Up to the year 9999 the text has 19 characters, with `-` between the
/// date fields, `_` between date and time, and `-` between the time fields.
pub proof fn lemma_datetime_shape(secs: nat)
    requires
        date_of_day((secs / 86400) as int).0 <= 9999,
    ensures
        datetime_text(secs).len() == 19,
        datetime_text(secs)[4] == '-',
        datetime_text(secs)[7] == '-',
        datetime_text(secs)[10] == '_',
        datetime_text(secs)[13] == '-',
        datetime_text(secs)[16] == '-',
{
    let days = (secs / 86400) as int;
    lemma_date_of_day(days);
    let date = date_of_day(days);
    lemma_field_widths(date.0 as nat);
    lemma_field_widths(date.1 as nat);
    lemma_field_widths(date.2 as nat);
    lemma_field_widths((secs / 3600) % 24);
    lemma_field_widths((secs / 60) % 60);
    lemma_field_widths(secs % 60);
}

/// `secs` seconds after 1970-01-01 00:00:00 UTC as `YYYY-MM-DD_HH-MM-SS`.
pub fn format_datetime(secs: u64) -> (r: String)
    ensures
        r@ == datetime_text(secs as nat),
{
    let s = secs % 60;
    let m = (secs / 60) % 60;
    let h = (secs / 3600) % 24;
    let days = secs / 86400;
    let (y, mo, d) = civil_from_days(days);
    let mut out = String::new();
    push_padded(&mut out, y, 4);
    push_char(&mut out, '-');
    push_padded(&mut out, mo, 2);
    push_char(&mut out, '-');
    push_padded(&mut out, d, 2);
    push_char(&mut out, '_');
    push_padded(&mut out, h, 2);
    push_char(&mut out, '-');
    push_padded(&mut out, m, 2);
    push_char(&mut out, '-');
    push_padded(&mut out, s, 2);
    assert(out@ =~= datetime_text(secs as nat));
    out
}

/// `a` and `b` agree before place `i`, and there `a` has the smaller character.
pub open spec fn first_difference(a: Seq<char>, b: Seq<char>, i: int) -> bool {
    &&& 0 <= i < a.len()
    &&& i < b.len()
    &&& a.take(i) == b.take(i)
    &&& a[i] < b[i]
}

/// `a` comes before `b` in dictionary order of characters.
pub open spec fn text_before(a: Seq<char>, b: Seq<char>) -> bool {
    exists|i: int| #[trigger] first_difference(a, b, i)
}

/// The first instant of the year 10000, in seconds after 1970-01-01.
pub open spec fn year_10000_secs() -> nat {
    253402300800
}

proof fn lemma_before_in_context(p: Seq<char>, x: Seq<char>, y: Seq<char>, q: Seq<char>, r: Seq<char>)
    requires
        x.len() == y.len(),
        text_before(x, y),
    ensures
        text_before(p + x + q, p + y + r),
{
    let j = choose|j: int| #[trigger] first_difference(x, y, j);
    let a = p + x + q;
    let b = p + y + r;
    let i = p.len() + j;
    assert forall|k: int| 0 <= k < i implies a[k] == b[k] by {
        if k >= p.len() {
            assert(x.take(j)[k - p.len()] == y.take(j)[k - p.len()]);
        }
    }
    assert(a.take(i) =~= b.take(i));
    assert(a[i] == x[j] && b[i] == y[j]);
    assert(first_difference(a, b, i));
}

proof fn lemma_digit_order(a: nat, b: nat)
    requires
        a < b < 10,
    ensures
        digit_char(a) < digit_char(b),
{
}

proof fn lemma_two_digits(n: nat)
    requires
        n < 100,
    ensures
        padded_decimal(n, 2) == seq![digit_char(n / 10), digit_char(n % 10)],
{
    lemma_decimal_len(n);
    if n >= 10 {
        lemma_decimal_len(n / 10);
        assert(decimal(n / 10) == seq![digit_char(n / 10)]);
        assert(padded_decimal(n, 2) =~= seq![digit_char(n / 10), digit_char(n % 10)]);
    } else {
        assert(digit_char(0) == '0');
        assert(padded_decimal(n, 2) =~= seq![digit_char(n / 10), digit_char(n % 10)]);
    }
}

proof fn lemma_four_digits(n: nat)
    requires
        1000 <= n <= 9999,
    ensures
        padded_decimal(n, 4) == seq![
            digit_char(n / 1000),
            digit_char((n / 100) % 10),
            digit_char((n / 10) % 10),
            digit_char(n % 10),
        ],
{
    let a = n / 10;
    let b = a / 10;
    let c = b / 10;
    assert(c == n / 1000 && b == n / 100);
    lemma_decimal_len(n);
    lemma_decimal_len(a);
    lemma_decimal_len(b);
    lemma_decimal_len(c);
    assert(decimal(c) == seq![digit_char(c)]);
    assert(decimal(b) =~= seq![digit_char(c), digit_char(b % 10)]);
    assert(decimal(a) =~= seq![digit_char(c), digit_char(b % 10), digit_char(a % 10)]);
    assert(decimal(n) =~= seq![
        digit_char(c),
        digit_char(b % 10),
        digit_char(a % 10),
        digit_char(n % 10),
    ]);
}

proof fn lemma_two_digit_order(n1: nat, n2: nat)
    requires
        n1 < n2 < 100,
    ensures
        text_before(padded_decimal(n1, 2), padded_decimal(n2, 2)),
{
    lemma_two_digits(n1);
    lemma_two_digits(n2);
    let a = padded_decimal(n1, 2);
    let b = padded_decimal(n2, 2);
    if n1 / 10 < n2 / 10 {
        lemma_digit_order(n1 / 10, n2 / 10);
        assert(a.take(0) =~= b.take(0));
        assert(first_difference(a, b, 0));
    } else {
        lemma_digit_order(n1 % 10, n2 % 10);
        assert(a.take(1) =~= b.take(1));
        assert(first_difference(a, b, 1));
    }
}

proof fn lemma_four_digit_order(n1: nat, n2: nat)
    requires
        1000 <= n1 < n2 <= 9999,
    ensures
        text_before(padded_decimal(n1, 4), padded_decimal(n2, 4)),
{
    lemma_four_digits(n1);
    lemma_four_digits(n2);
    lemma_digit_split(n1);
    lemma_digit_split(n2);
    lemma_four_digit_pick(
        padded_decimal(n1, 4),
        padded_decimal(n2, 4),
        n1 / 1000,
        (n1 / 100) % 10,
        (n1 / 10) % 10,
        n1 % 10,
        n2 / 1000,
        (n2 / 100) % 10,
        (n2 / 10) % 10,
        n2 % 10,
    );
}

proof fn lemma_digit_split(n: nat)
    requires
        n <= 9999,
    ensures
        n == 1000 * (n / 1000) + 100 * ((n / 100) % 10) + 10 * ((n / 10) % 10) + n % 10,
        n / 1000 < 10,
{
    let a = n / 10;
    let b = a / 10;
    let c = b / 10;
    assert(n == 10 * a + n % 10);
    assert(a == 10 * b + a % 10);
    assert(b == 10 * c + b % 10);
    assert(b == n / 100);
    assert(c == n / 1000);
}

proof fn lemma_four_digit_pick(
    a: Seq<char>,
    b: Seq<char>,
    a0: nat,
    a1: nat,
    a2: nat,
    a3: nat,
    b0: nat,
    b1: nat,
    b2: nat,
    b3: nat,
)
    requires
        a == seq![digit_char(a0), digit_char(a1), digit_char(a2), digit_char(a3)],
        b == seq![digit_char(b0), digit_char(b1), digit_char(b2), digit_char(b3)],
        a0 < 10 && a1 < 10 && a2 < 10 && a3 < 10,
        b0 < 10 && b1 < 10 && b2 < 10 && b3 < 10,
        1000 * a0 + 100 * a1 + 10 * a2 + a3 < 1000 * b0 + 100 * b1 + 10 * b2 + b3,
    ensures
        text_before(a, b),
{
    if a0 != b0 {
        lemma_digit_order(a0, b0);
        assert(a.take(0) =~= b.take(0));
        assert(first_difference(a, b, 0));
    } else if a1 != b1 {
        lemma_digit_order(a1, b1);
        assert(a.take(1) =~= b.take(1));
        assert(first_difference(a, b, 1));
    } else if a2 != b2 {
        lemma_digit_order(a2, b2);
        assert(a.take(2) =~= b.take(2));
        assert(first_difference(a, b, 2));
    } else {
        lemma_digit_order(a3, b3);
        assert(a.take(3) =~= b.take(3));
        assert(first_difference(a, b, 3));
    }
}

/// Of two dates, the one with the smaller day number comes first in
/// (year, month, day) order.
proof fn lemma_date_order(y1: int, m1: int, d1: int, y2: int, m2: int, d2: int)
    requires
        valid_date(y1, m1, d1),
        valid_date(y2, m2, d2),
        day_number(y1, m1, d1) < day_number(y2, m2, d2),
    ensures
        y1 < y2 || (y1 == y2 && (m1 < m2 || (m1 == m2 && d1 < d2))),
{
    lemma_date_in_year(y1, m1, d1);
    lemma_date_in_year(y2, m2, d2);
    if y2 < y1 {
        lemma_years_increase(y2, y1);
    }
    if y1 == y2 && m2 < m1 {
        lemma_months_increase(y1, m2, m1);
    }
}

/// Dates before the year 10000.
proof fn lemma_year_below_10000(days: int)
    requires
        0 <= days < 2932897,
    ensures
        date_of_day(days).0 <= 9999,
{
    lemma_date_of_day(days);
    let t = date_of_day(days);
    lemma_date_in_year(t.0, t.1, t.2);
    lemma_days_before_year(10000);
    if t.0 > 10000 {
        lemma_years_increase(10000, t.0);
    }
}

#[verifier::rlimit(40)]
proof fn lemma_fields_order(k1: (nat, nat, nat, nat, nat, nat), k2: (nat, nat, nat, nat, nat, nat))
    requires
        1000 <= k1.0 <= 9999,
        1000 <= k2.0 <= 9999,
        k1.1 < 100 && k1.2 < 100 && k1.3 < 100 && k1.4 < 100 && k1.5 < 100,
        k2.1 < 100 && k2.2 < 100 && k2.3 < 100 && k2.4 < 100 && k2.5 < 100,
        k1.0 < k2.0 || (k1.0 == k2.0 && (k1.1 < k2.1 || (k1.1 == k2.1 && (k1.2 < k2.2 || (k1.2
            == k2.2 && (k1.3 < k2.3 || (k1.3 == k2.3 && (k1.4 < k2.4 || (k1.4 == k2.4 && k1.5
            < k2.5))))))))),
    ensures
        text_before(
            fields_text(k1.0, k1.1, k1.2, k1.3, k1.4, k1.5),
            fields_text(k2.0, k2.1, k2.2, k2.3, k2.4, k2.5),
        ),
{
    let (y1, mo1, d1, h1, mi1, s1) = k1;
    let (y2, mo2, d2, h2, mi2, s2) = k2;
    let a = fields_text(y1, mo1, d1, h1, mi1, s1);
    let b = fields_text(y2, mo2, d2, h2, mi2, s2);
    lemma_field_widths(y1);
    lemma_field_widths(y2);
    lemma_field_widths(mo1);
    lemma_field_widths(mo2);
    lemma_field_widths(d1);
    lemma_field_widths(d2);
    lemma_field_widths(h1);
    lemma_field_widths(h2);
    lemma_field_widths(mi1);
    lemma_field_widths(mi2);
    lemma_field_widths(s1);
    lemma_field_widths(s2);
    let e = Seq::<char>::empty();
    if y1 < y2 {
        lemma_four_digit_order(y1, y2);
        let q1 = a.skip(4);
        let q2 = b.skip(4);
        assert(a =~= e + padded_decimal(y1, 4) + q1);
        assert(b =~= e + padded_decimal(y2, 4) + q2);
        lemma_before_in_context(e, padded_decimal(y1, 4), padded_decimal(y2, 4), q1, q2);
    } else if mo1 < mo2 {
        lemma_two_digit_order(mo1, mo2);
        let p = a.take(5);
        assert(p =~= b.take(5));
        assert(a =~= p + padded_decimal(mo1, 2) + a.skip(7));
        assert(b =~= p + padded_decimal(mo2, 2) + b.skip(7));
        lemma_before_in_context(p, padded_decimal(mo1, 2), padded_decimal(mo2, 2), a.skip(7), b.skip(7));
    } else if d1 < d2 {
        lemma_two_digit_order(d1, d2);
        let p = a.take(8);
        assert(p =~= b.take(8));
        assert(a =~= p + padded_decimal(d1, 2) + a.skip(10));
        assert(b =~= p + padded_decimal(d2, 2) + b.skip(10));
        lemma_before_in_context(p, padded_decimal(d1, 2), padded_decimal(d2, 2), a.skip(10), b.skip(10));
    } else if h1 < h2 {
        lemma_two_digit_order(h1, h2);
        let p = a.take(11);
        assert(p =~= b.take(11));
        assert(a =~= p + padded_decimal(h1, 2) + a.skip(13));
        assert(b =~= p + padded_decimal(h2, 2) + b.skip(13));
        lemma_before_in_context(p, padded_decimal(h1, 2), padded_decimal(h2, 2), a.skip(13), b.skip(13));
    } else if mi1 < mi2 {
        lemma_two_digit_order(mi1, mi2);
        let p = a.take(14);
        assert(p =~= b.take(14));
        assert(a =~= p + padded_decimal(mi1, 2) + a.skip(16));
        assert(b =~= p + padded_decimal(mi2, 2) + b.skip(16));
        lemma_before_in_context(p, padded_decimal(mi1, 2), padded_decimal(mi2, 2), a.skip(16), b.skip(16));
    } else {
        lemma_two_digit_order(s1, s2);
        let p = a.take(17);
        assert(p =~= b.take(17));
        assert(a =~= p + padded_decimal(s1, 2) + a.skip(19));
        assert(b =~= p + padded_decimal(s2, 2) + b.skip(19));
        lemma_before_in_context(p, padded_decimal(s1, 2), padded_decimal(s2, 2), a.skip(19), b.skip(19));
    }
}

/// An instant before the year 10000 has a four-digit year, so its text has
/// the 19-character shape of `lemma_datetime_shape`.
pub proof fn lemma_before_year_10000(secs: nat)
    requires
        secs < year_10000_secs(),
    ensures
        date_of_day((secs / 86400) as int).0 <= 9999,
        datetime_text(secs).len() == 19,
        datetime_text(secs)[4] == '-',
        datetime_text(secs)[7] == '-',
        datetime_text(secs)[10] == '_',
        datetime_text(secs)[13] == '-',
        datetime_text(secs)[16] == '-',
{
    lemma_year_below_10000((secs / 86400) as int);
    lemma_datetime_shape(secs);
}

/// Within one day, a later second has a later time of day.
proof fn lemma_time_order(secs1: nat, secs2: nat)
    requires
        secs1 < secs2,
        secs1 / 86400 == secs2 / 86400,
    ensures
        (secs1 / 3600) % 24 < (secs2 / 3600) % 24 || ((secs1 / 3600) % 24 == (secs2 / 3600) % 24
            && ((secs1 / 60) % 60 < (secs2 / 60) % 60 || ((secs1 / 60) % 60 == (secs2 / 60) % 60
            && secs1 % 60 < secs2 % 60))),
{
    let d = secs1 / 86400;
    let r1 = secs1 - 86400 * d;
    let r2 = secs2 - 86400 * d;
    assert(0 <= r1 < r2 < 86400);
    assert((secs1 / 3600) % 24 == r1 / 3600);
    assert((secs2 / 3600) % 24 == r2 / 3600);
    assert((secs1 / 60) % 60 == (r1 % 3600) / 60);
    assert((secs2 / 60) % 60 == (r2 % 3600) / 60);
    assert(secs1 % 60 == r1 % 60);
    assert(secs2 % 60 == r2 % 60);
}

/// Before the year 10000, a later instant has a text that comes later in
/// dictionary order, so two different instants never share a text (nor a
/// log file name).
pub proof fn lemma_datetime_text_increases(secs1: nat, secs2: nat)
    requires
        secs1 < secs2 < year_10000_secs(),
    ensures
        text_before(datetime_text(secs1), datetime_text(secs2)),
        datetime_text(secs1) != datetime_text(secs2),
{
    let days1 = (secs1 / 86400) as int;
    let days2 = (secs2 / 86400) as int;
    assert(days1 <= days2 < 2932897);
    lemma_date_of_day(days1);
    lemma_date_of_day(days2);
    lemma_year_below_10000(days1);
    lemma_year_below_10000(days2);
    let t1 = date_of_day(days1);
    let t2 = date_of_day(days2);
    if days1 < days2 {
        lemma_date_order(t1.0, t1.1, t1.2, t2.0, t2.1, t2.2);
    } else {
        lemma_time_order(secs1, secs2);
    }
    let k1 = (t1.0 as nat, t1.1 as nat, t1.2 as nat, (secs1 / 3600) % 24, (secs1 / 60) % 60, secs1 % 60);
    let k2 = (t2.0 as nat, t2.1 as nat, t2.2 as nat, (secs2 / 3600) % 24, (secs2 / 60) % 60, secs2 % 60);
    lemma_fields_order(k1, k2);
    let i = choose|i: int| #[trigger] first_difference(datetime_text(secs1), datetime_text(secs2), i);
    assert(datetime_text(secs1)[i] != datetime_text(secs2)[i]);
}

#[verifier::external_type_specification]
#[verifier::external_body]
pub struct ExSystemTime(std::time::SystemTime);

#[verifier::external_type_specification]
#[verifier::external_body]
pub struct ExSystemTimeError(std::time::SystemTimeError);

/// The system clock now (`SystemTime::now`). Nothing is stated of the
/// result: it is the time.
#[verifier::external_body]
fn system_now() -> std::time::SystemTime {
    std::time::SystemTime::now()
}

/// The time from 1970-01-01 00:00:00 UTC to `t`
/// (`SystemTime::duration_since(UNIX_EPOCH)`), an error when `t` is before
/// it. Nothing is stated of the result: the types are opaque here.
#[verifier::external_body]
fn since_unix_epoch(t: &std::time::SystemTime) -> Result<
    std::time::Duration,
    std::time::SystemTimeError,
> {
    t.duration_since(std::time::UNIX_EPOCH)
}

/// The whole seconds of `d` (`Duration::as_secs`). Nothing is stated of the
/// result: `Duration` is opaque here.
#[verifier::external_body]
fn whole_secs(d: &std::time::Duration) -> u64 {
    d.as_secs()
}

/// Seconds since 1970-01-01 00:00:00 UTC by the system clock; `None` when
/// the clock stands before that instant.
fn unix_time_secs() -> Option<u64> {
    let now = system_now();
    match since_unix_epoch(&now) {
        Ok(d) => Some(whole_secs(&d)),
        Err(_) => None,
    }
}

/// The seconds that a clock reading stands for: a clock before the epoch
/// reads as the epoch itself.
pub open spec fn reading_secs(reading: Option<u64>) -> nat {
    match reading {
        Some(secs) => secs as nat,
        None => 0,
    }
}

/// The text of a clock reading (`None`: a clock before the epoch, shown as
/// `1970-01-01_00-00-00`).
pub fn format_clock_reading(reading: Option<u64>) -> (r: String)
    ensures
        r@ == datetime_text(reading_secs(reading)),
{
    let secs = match reading {
        Some(secs) => secs,
        None => 0,
    };
    format_datetime(secs)
}

/// The current UTC date and time as `YYYY-MM-DD_HH-MM-SS`.
pub fn current_datetime() -> (r: String)
    ensures
        exists|secs: u64| r@ == datetime_text(secs as nat),
{
    let reading = unix_time_secs();
    let r = format_clock_reading(reading);
    proof {
        let secs: u64 = match reading {
            Some(s) => s,
            None => 0,
        };
        assert(r@ == datetime_text(secs as nat));
    }
    r
}

} // verus!
