//! The Gregorian calendar: days since the start of 1970 as dates.

use vstd::prelude::*;

verus! {

/// Whether a year has a leap day.
pub open spec fn leap(y: int) -> bool {
    (y % 4 == 0 && y % 100 != 0) || y % 400 == 0
}

/// How many days a month has.
pub open spec fn length(y: int, m: int) -> int {
    if m == 2 {
        if leap(y) {
            29
        } else {
            28
        }
    } else if m == 1 || m == 3 || m == 5 || m == 7 || m == 8 || m == 10 || m == 12 {
        31
    } else {
        30
    }
}

/// How many leap years come before a year, counted from the year 1.
pub open spec fn leaps_before(y: int) -> int {
    (y - 1) / 4 - (y - 1) / 100 + (y - 1) / 400
}

/// How many days come before a month in its year.
pub open spec fn days_before(y: int, m: int) -> int
    decreases m,
{
    if m <= 1 {
        0
    } else {
        days_before(y, m - 1) + length(y, m - 1)
    }
}

/// The day of a date, counted from the first of January 1970.
pub open spec fn day_of(y: int, m: int, d: int) -> int {
    365 * (y - 1970) + leaps_before(y) - leaps_before(1970) + days_before(y, m) + d - 1
}

/// Whether there is such a date.
pub open spec fn is_date(y: int, m: int, d: int) -> bool {
    1 <= m <= 12 && 1 <= d <= length(y, m)
}

/// The days of the calendar follow each other: the count begins with the year 1970, a month is as
/// many days after the one before it as that one has, and a year begins when the one before it is
/// over.
pub proof fn law_the_calendar_is_without_gaps(y: int, m: int)
    requires
        1 <= m <= 11,
    ensures
        day_of(1970, 1, 1) == 0,
        day_of(y, m + 1, 1) == day_of(y, m, length(y, m)) + 1,
        day_of(y + 1, 1, 1) == day_of(y, 12, 31) + 1,
        leap(y) ==> day_of(y + 1, 1, 1) == day_of(y, 1, 1) + 366,
        !leap(y) ==> day_of(y + 1, 1, 1) == day_of(y, 1, 1) + 365,
{
    reveal_with_fuel(days_before, 13);
    lemma_leaps(y);
}

/// One more leap year comes before the year behind a leap year.
proof fn lemma_leaps(y: int)
    ensures
        leaps_before(y + 1) == leaps_before(y) + (if leap(y) {
            1int
        } else {
            0int
        }),
{
}

/// A day has one date.
pub proof fn law_a_day_has_one_date(y: int, m: int, d: int, y2: int, m2: int, d2: int)
    requires
        is_date(y, m, d),
        is_date(y2, m2, d2),
        day_of(y, m, d) == day_of(y2, m2, d2),
    ensures
        y == y2,
        m == m2,
        d == d2,
{
    lemma_in_year(y, m, d);
    lemma_in_year(y2, m2, d2);
    if y < y2 {
        lemma_years_in_order(y, y2);
    } else if y2 < y {
        lemma_years_in_order(y2, y);
    }
    reveal_with_fuel(days_before, 13);
}

/// A date is within its year.
proof fn lemma_in_year(y: int, m: int, d: int)
    requires
        is_date(y, m, d),
    ensures
        day_of(y, 1, 1) <= day_of(y, m, d) < day_of(y + 1, 1, 1),
{
    reveal_with_fuel(days_before, 13);
    lemma_leaps(y);
}

/// A later year begins later.
proof fn lemma_years_in_order(y: int, y2: int)
    requires
        y < y2,
    ensures
        day_of(y + 1, 1, 1) <= day_of(y2, 1, 1),
    decreases y2 - y,
{
    if y + 1 < y2 {
        lemma_years_in_order(y, y2 - 1);
        lemma_leaps(y2 - 1);
    }
}

/// The year of an era of four hundred years that a day of the era is in, where years begin in
/// March.
proof fn lemma_year_of_era(doe: int, yoe: int)
    requires
        0 <= doe <= 146096,
        yoe == (doe - doe / 1460 + doe / 36524 - doe / 146096) / 365,
    ensures
        0 <= yoe <= 399,
        365 * yoe + yoe / 4 - yoe / 100 <= doe,
        yoe < 399 ==> doe < 365 * (yoe + 1) + (yoe + 1) / 4 - (yoe + 1) / 100,
{
}

/// The first of March of a year.
proof fn lemma_first_of_march(era: int, yoe: int)
    requires
        0 <= yoe <= 399,
    ensures
        day_of(400 * era + yoe, 3, 1) == 146097 * era + 365 * yoe + yoe / 4 - yoe / 100 - 719468,
{
    let y = 400 * era + yoe;
    reveal_with_fuel(days_before, 4);
    assert(leaps_before(y) + (if leap(y) {
        1int
    } else {
        0int
    }) == y / 4 - y / 100 + y / 400);
    assert(y / 4 == 100 * era + yoe / 4);
    assert(y / 100 == 4 * era + yoe / 100);
    assert(y / 400 == era);
}

/// The date of a day of a year that begins in March.
proof fn lemma_date_in_year(y: int, doy: int, mp: int, d: int, m: int)
    requires
        0 <= doy < day_of(y + 1, 3, 1) - day_of(y, 3, 1),
        mp == (5 * doy + 2) / 153,
        d == doy - (153 * mp + 2) / 5 + 1,
        m == (if mp < 10 {
            mp + 3
        } else {
            mp - 9
        }),
    ensures
        0 <= mp <= 11,
        1 <= d <= 31,
        is_date(
            if m <= 2 {
                y + 1
            } else {
                y
            },
            m,
            d,
        ),
        day_of(
            if m <= 2 {
                y + 1
            } else {
                y
            },
            m,
            d,
        ) == day_of(y, 3, 1) + doy,
{
    reveal_with_fuel(days_before, 13);
    lemma_leaps(y);
    lemma_leaps(y + 1);
}

/// How the day of an era gives the date.
proof fn lemma_date_in_era(era: int, doe: int, yoe: int, doy: int, mp: int, d: int, m: int)
    requires
        0 <= doe <= 146096,
        yoe == (doe - doe / 1460 + doe / 36524 - doe / 146096) / 365,
        doy == doe - (365 * yoe + yoe / 4 - yoe / 100),
        mp == (5 * doy + 2) / 153,
        d == doy - (153 * mp + 2) / 5 + 1,
        m == (if mp < 10 {
            mp + 3
        } else {
            mp - 9
        }),
    ensures
        0 <= yoe <= 399,
        0 <= doy <= 365,
        0 <= mp <= 11,
        1 <= d <= 31,
        ({
            let y = if m <= 2 {
                400 * era + yoe + 1
            } else {
                400 * era + yoe
            };
            is_date(y, m, d) && day_of(y, m, d) == 146097 * era + doe - 719468
        }),
{
    lemma_year_of_era(doe, yoe);
    lemma_first_of_march(era, yoe);
    if yoe < 399 {
        lemma_first_of_march(era, yoe + 1);
    } else {
        lemma_first_of_march(era + 1, 0);
    }
    lemma_date_in_year(400 * era + yoe, doy, mp, d, m);
}

/// The era of four hundred years that a day is in, and the day of the era.
fn era_of(z: i64) -> (r: (i64, u64))
    requires
        z >= i64::MIN + 719468,
    ensures
        z == 146097 * r.0 + r.1,
        r.1 < 146097,
        -70_000_000_000_000 < r.0 < 70_000_000_000_000,
{
    if z >= 0 {
        let n: u64 = z as u64;
        ((n / 146097) as i64, n % 146097)
    } else {
        let n: u64 = (-(z + 1)) as u64;
        (-1 - (n / 146097) as i64, 146096 - n % 146097)
    }
}

/// The year of its era that a day of the era is in, where years begin in March, and the day of
/// that year.
fn year_of_era(doe: u64) -> (r: (u64, u64))
    requires
        doe <= 146096,
    ensures
        r.0 == (doe - doe / 1460 + doe / 36524 - doe / 146096) / 365,
        r.1 == doe - (365 * r.0 + r.0 / 4 - r.0 / 100),
        r.0 <= 399,
        r.1 <= 146096,
{
    let yoe: u64 = (doe - doe / 1460 + doe / 36524 - doe / 146096) / 365;
    proof {
        lemma_year_of_era(doe as int, yoe as int);
    }
    (yoe, doe - (365 * yoe + yoe / 4 - yoe / 100))
}

/// The date of a day of an era.
fn date_in_era(era: i64, doe: u64) -> (r: (i64, u32, u32))
    requires
        doe <= 146096,
        -70_000_000_000_000 < era < 70_000_000_000_000,
    ensures
        is_date(r.0 as int, r.1 as int, r.2 as int),
        day_of(r.0 as int, r.1 as int, r.2 as int) == 146097 * era + doe - 719468,
{
    let (yoe, doy) = year_of_era(doe);
    let mp: u64 = (5 * doy + 2) / 153;
    let ghost day = doy - (153 * mp + 2) / 5 + 1;
    let ghost month: int = if mp < 10 {
        mp + 3
    } else {
        mp - 9
    };
    proof {
        lemma_date_in_era(
            era as int,
            doe as int,
            yoe as int,
            doy as int,
            mp as int,
            day,
            month,
        );
    }
    let d: u32 = (doy - (153 * mp + 2) / 5 + 1) as u32;
    let m: u32 = (if mp < 10 {
        mp + 3
    } else {
        mp - 9
    }) as u32;
    let year: i64 = yoe as i64 + era * 400;
    if m <= 2 {
        (year + 1, m, d)
    } else {
        (year, m, d)
    }
}

/// Whether a date is that of a day in the year `y`. A year that an `i32` cannot hold is truncated.
pub open spec fn is_date_of(z: int, date: (i32, u32, u32), y: int) -> bool {
    &&& is_date(y, date.1 as int, date.2 as int)
    &&& day_of(y, date.1 as int, date.2 as int) == z
    &&& date.0 == y as i32
}

/// The date of a day: the year, the month and the day of the month. A year that an `i32` cannot
/// hold comes out truncated.
pub fn civil_from_days(z: i64) -> (r: (i32, u32, u32))
    requires
        z <= i64::MAX - 719468,
    ensures
        exists|y: int| #[trigger] is_date_of(z as int, r, y),
{
    let (era, doe) = era_of(z + 719468);
    let (y, m, d) = date_in_era(era, doe);
    let date: (i32, u32, u32) = (y as i32, m, d);
    assert(is_date_of(z as int, date, y as int));
    date
}

/// The date of a moment, given the seconds since the start of 1970.
pub fn today(secs: u64) -> (r: (i32, u32, u32))
    ensures
        exists|y: int| #[trigger] is_date_of((secs / 86_400) as int, r, y),
{
    civil_from_days((secs / 86_400) as i64)
}

/// The year of every day from 1970 on that is less than seven hundred thousand million days off
/// comes out as it is.
pub proof fn law_the_year_of_a_day_fits(z: int, date: (i32, u32, u32), y: int)
    requires
        0 <= z < 700_000_000_000,
        is_date_of(z, date, y),
    ensures
        1970 <= y < 2_000_000_000,
        date.0 == y,
{
    lemma_in_year(y, date.1 as int, date.2 as int);
    if y < 1970 {
        lemma_years_in_order(y, 1970);
        law_the_calendar_is_without_gaps(1970, 1);
    }
}

/// Whether a year has a leap day.
pub fn is_leap_year(y: i32) -> (r: bool)
    ensures
        r == leap(y as int),
{
    let wide: i64 = y as i64 + 2_147_483_648 + 352;
    let shifted: u64 = wide as u64;
    (shifted % 4 == 0 && shifted % 100 != 0) || shifted % 400 == 0
}

/// How many days a month has.
pub fn days_in_month(y: i32, m: u32) -> (r: u32)
    ensures
        r == length(y as int, m as int),
{
    match m {
        1 | 3 | 5 | 7 | 8 | 10 | 12 => 31,
        4 | 6 | 9 | 11 => 30,
        2 => if is_leap_year(y) {
            29
        } else {
            28
        },
        _ => 30,
    }
}

/// The month that is `k` months before another.
pub open spec fn back(y: int, m: int, k: int) -> (int, int)
    decreases k,
{
    if k <= 0 {
        (y, m)
    } else {
        let (y1, m1) = back(y, m, k - 1);
        if m1 == 1 {
            (y1 - 1, 12)
        } else {
            (y1, m1 - 1)
        }
    }
}

/// How many months the window holds, the current one among them.
pub const MONTHS: usize = 12;

proof fn lemma_back_bounds(y: int, m: int, k: int)
    requires
        1 <= m,
        0 <= k <= 12,
    ensures
        1 <= back(y, m, k).1,
        back(y, m, k).1 <= m || back(y, m, k).1 <= 12,
        y - 1 <= back(y, m, k).0 <= y,
        back(y, m, k).0 < y ==> m <= 12 && back(y, m, k).1 == m - k + 12,
        back(y, m, k).0 == y ==> back(y, m, k).1 == m - k,
    decreases k,
{
    if k > 0 {
        lemma_back_bounds(y, m, k - 1);
    }
}

/// The months that end with this one, the oldest first.
pub fn month_window(year: i32, month: u32) -> (r: Vec<(i32, u32)>)
    requires
        month >= 1,
        month > 12 || year > i32::MIN,
    ensures
        r@.len() == MONTHS,
        forall|i: int|
            0 <= i < MONTHS ==> {
                let (y, m) = #[trigger] r@[i];
                (y as int, m as int) == back(year as int, month as int, MONTHS - 1 - i)
            },
{
    let mut months: Vec<(i32, u32)> = Vec::new();
    let mut y: i32 = year;
    let mut m: u32 = month;
    let mut k: usize = 0;
    while k < MONTHS
        invariant
            k <= MONTHS,
            month >= 1,
            month > 12 || year > i32::MIN,
            (y as int, m as int) == back(year as int, month as int, k as int),
            months@.len() == k,
            forall|i: int|
                0 <= i < k ==> {
                    let (a, b) = #[trigger] months@[i];
                    (a as int, b as int) == back(year as int, month as int, i)
                },
        decreases MONTHS - k,
    {
        proof {
            lemma_back_bounds(year as int, month as int, k as int);
            lemma_back_bounds(year as int, month as int, k + 1);
        }
        months.push((y, m));
        if m == 1 {
            m = 12;
            y = y - 1;
        } else {
            m = m - 1;
        }
        k += 1;
    }
    let mut out: Vec<(i32, u32)> = Vec::new();
    let mut i: usize = 0;
    while i < MONTHS
        invariant
            i <= MONTHS,
            months@.len() == MONTHS,
            forall|j: int|
                0 <= j < MONTHS ==> {
                    let (a, b) = #[trigger] months@[j];
                    (a as int, b as int) == back(year as int, month as int, j)
                },
            out@.len() == i,
            forall|j: int| 0 <= j < i ==> #[trigger] out@[j] == months@[MONTHS - 1 - j],
        decreases MONTHS - i,
    {
        out.push(months[MONTHS - 1 - i]);
        i += 1;
    }
    assert forall|j: int| 0 <= j < MONTHS implies {
        let (a, b) = #[trigger] out@[j];
        (a as int, b as int) == back(year as int, month as int, MONTHS - 1 - j)
    } by {
        assert(out@[j] == months@[MONTHS - 1 - j]);
    }
    out
}

/// Each month of the window comes before the next, without a gap, and the window ends with the
/// month it was asked for.
pub proof fn law_the_window_is_without_gaps(y: int, m: int, k: int)
    requires
        1 <= m <= 12,
        0 <= k < MONTHS,
    ensures
        back(y, m, 0) == (y, m),
        ({
            let (y1, m1) = back(y, m, k);
            let (y0, m0) = back(y, m, k + 1);
            &&& 1 <= m1 <= 12
            &&& day_of(y1, m1, 1) == day_of(y0, m0, length(y0, m0)) + 1
        }),
{
    lemma_back_bounds(y, m, k);
    let (y1, m1) = back(y, m, k);
    if m1 == 1 {
        law_the_calendar_is_without_gaps(y1 - 1, 1);
    } else {
        law_the_calendar_is_without_gaps(y1, m1 - 1);
    }
}

/// The names of the months.
pub open spec fn name_of(m: int) -> Seq<char> {
    if m == 1 {
        "Jan"@
    } else if m == 2 {
        "Feb"@
    } else if m == 3 {
        "Mar"@
    } else if m == 4 {
        "Apr"@
    } else if m == 5 {
        "May"@
    } else if m == 6 {
        "Jun"@
    } else if m == 7 {
        "Jul"@
    } else if m == 8 {
        "Aug"@
    } else if m == 9 {
        "Sep"@
    } else if m == 10 {
        "Oct"@
    } else if m == 11 {
        "Nov"@
    } else {
        "Dec"@
    }
}

/// The name of a month.
pub fn month_name(m: u32) -> (r: &'static str)
    requires
        1 <= m <= 12,
    ensures
        r@ == name_of(m as int),
{
    match m {
        1 => "Jan",
        2 => "Feb",
        3 => "Mar",
        4 => "Apr",
        5 => "May",
        6 => "Jun",
        7 => "Jul",
        8 => "Aug",
        9 => "Sep",
        10 => "Oct",
        11 => "Nov",
        _ => "Dec",
    }
}

/// Every fourth year is a leap year, but of the full centuries only every fourth; February has a day
/// more in it, and the other months are as long as ever. After four hundred years everything
/// repeats.
pub proof fn law_the_calendar_repeats(y: int, m: int, d: int)
    requires
        1 <= m <= 12,
    ensures
        y % 4 != 0 ==> length(y, 2) == 28,
        y % 4 == 0 && y % 100 != 0 ==> length(y, 2) == 29,
        y % 100 == 0 && y % 400 != 0 ==> length(y, 2) == 28,
        y % 400 == 0 ==> length(y, 2) == 29,
        length(y, 2) == 29 <==> leap(y),
        m == 4 || m == 6 || m == 9 || m == 11 ==> length(y, m) == 30,
        m != 2 && m != 4 && m != 6 && m != 9 && m != 11 ==> length(y, m) == 31,
        day_of(y + 400, m, d) == day_of(y, m, d) + 146097,
        day_of(y, m, d + 1) == day_of(y, m, d) + 1,
{
    lemma_same_year(y, m);
}

/// The years of a cycle are as long as those of the next.
proof fn lemma_same_year(y: int, m: int)
    ensures
        days_before(y + 400, m) == days_before(y, m),
    decreases m,
{
    if m > 1 {
        lemma_same_year(y, m - 1);
    }
}

/// So many months back is so many months less, with twelve of them in a year.
pub proof fn law_a_month_back_is_a_month_less(y: int, m: int, k: int)
    requires
        1 <= m <= 12,
        0 <= k,
    ensures
        1 <= back(y, m, k).1 <= 12,
        12 * back(y, m, k).0 + back(y, m, k).1 == 12 * y + m - k,
    decreases k,
{
    if k > 0 {
        law_a_month_back_is_a_month_less(y, m, k - 1);
    }
}

/// A month is called by the first three letters of its name.
pub proof fn law_a_month_has_its_name(m: int)
    requires
        1 <= m <= 12,
    ensures
        ({
            let names = seq![
                "January"@,
                "February"@,
                "March"@,
                "April"@,
                "May"@,
                "June"@,
                "July"@,
                "August"@,
                "September"@,
                "October"@,
                "November"@,
                "December"@,
            ];
            name_of(m) == names[m - 1].take(3)
        }),
{
    reveal_strlit("January");
    reveal_strlit("February");
    reveal_strlit("March");
    reveal_strlit("April");
    reveal_strlit("May");
    reveal_strlit("June");
    reveal_strlit("July");
    reveal_strlit("August");
    reveal_strlit("September");
    reveal_strlit("October");
    reveal_strlit("November");
    reveal_strlit("December");
    reveal_strlit("Jan");
    reveal_strlit("Feb");
    reveal_strlit("Mar");
    reveal_strlit("Apr");
    reveal_strlit("Jun");
    reveal_strlit("Jul");
    reveal_strlit("Aug");
    reveal_strlit("Sep");
    reveal_strlit("Oct");
    reveal_strlit("Nov");
    reveal_strlit("Dec");
    if m == 1 {
        assert(name_of(m) =~= "January"@.take(3));
    } else if m == 2 {
        assert(name_of(m) =~= "February"@.take(3));
    } else if m == 3 {
        assert(name_of(m) =~= "March"@.take(3));
    } else if m == 4 {
        assert(name_of(m) =~= "April"@.take(3));
    } else if m == 5 {
        assert(name_of(m) =~= "May"@.take(3));
    } else if m == 6 {
        assert(name_of(m) =~= "June"@.take(3));
    } else if m == 7 {
        assert(name_of(m) =~= "July"@.take(3));
    } else if m == 8 {
        assert(name_of(m) =~= "August"@.take(3));
    } else if m == 9 {
        assert(name_of(m) =~= "September"@.take(3));
    } else if m == 10 {
        assert(name_of(m) =~= "October"@.take(3));
    } else if m == 11 {
        assert(name_of(m) =~= "November"@.take(3));
    } else {
        assert(name_of(m) =~= "December"@.take(3));
    }
}

} // verus!
