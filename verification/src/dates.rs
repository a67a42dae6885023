//! Calendar dates of race cards, checked and written out by `chrono`.

use vstd::prelude::*;

use crate::text::{decimal, is_digit_char, lemma_decimal_digits, lemma_decimal_injective, lemma_decimal_two};

verus! {

/// Earliest year that a `chrono` calendar date can hold.
pub open spec fn min_year() -> int {
    -262143
}

/// Latest year that a `chrono` calendar date can hold.
pub open spec fn max_year() -> int {
    262142
}

/// Leap years of the proleptic Gregorian calendar.
pub open spec fn is_leap_year(y: int) -> bool {
    y % 4 == 0 && (y % 100 != 0 || y % 400 == 0)
}

/// Number of days in month `m` of year `y`.
pub open spec fn days_in_month(y: int, m: int) -> int {
    if m == 2 {
        if is_leap_year(y) {
            29
        } else {
            28
        }
    } else if m == 4 || m == 6 || m == 9 || m == 11 {
        30
    } else {
        31
    }
}

/// Whether year `y`, month `m` and day `d` name a day that `chrono` can hold.
pub open spec fn valid_date(y: int, m: int, d: int) -> bool {
    &&& min_year() <= y <= max_year()
    &&& 1 <= m <= 12
    &&& 1 <= d <= days_in_month(y, m)
}

/// The text of a year: four digits inside 0 through 9999, otherwise a sign
/// followed by at least four digits.
pub open spec fn year_text(y: int) -> Seq<char> {
    if 0 <= y <= 9999 {
        decimal(y as nat, 4)
    } else if y < 0 {
        seq!['-'] + decimal((-y) as nat, 4)
    } else {
        seq!['+'] + decimal(y as nat, 4)
    }
}

/// The ISO 8601 text of a date, `YYYY-MM-DD`.
pub open spec fn date_text(v: (int, int, int)) -> Seq<char> {
    year_text(v.0) + seq!['-'] + decimal(v.1 as nat, 2) + seq!['-'] + decimal(v.2 as nat, 2)
}

/// Calls `chrono::NaiveDate::from_ymd_opt` and reports whether it gave a date.
/// By its documentation it gives one exactly when the month and day are valid,
/// the day exists in that month, and the year is within the range that the
/// source fixes (`MIN_YEAR` through `MAX_YEAR`).
#[verifier::external_body]
fn chrono_date_exists(year: i32, month: u32, day: u32) -> (b: bool)
    ensures
        b == valid_date(year as int, month as int, day as int),
{
    chrono::NaiveDate::from_ymd_opt(year, month, day).is_some()
}

/// Writes the date through `chrono`'s `Display` for `NaiveDate` (`%Y-%m-%d`):
/// the year as four digits inside 0 through 9999 and with an explicit sign and
/// at least four digits outside, then two-digit month and day.
#[verifier::external_body]
fn chrono_date_text(year: i32, month: u32, day: u32) -> (r: String)
    requires
        valid_date(year as int, month as int, day as int),
    ensures
        r@ == date_text((year as int, month as int, day as int)),
{
    chrono::NaiveDate::from_ymd_opt(year, month, day).unwrap().to_string()
}

/// A calendar date of a race card.
#[derive(Clone, Copy, Debug, PartialEq, Eq, Structural, Hash)]
pub struct RaceDate {
    year: i32,
    month: u32,
    day: u32,
}

impl View for RaceDate {
    type V = (int, int, int);

    closed spec fn view(&self) -> (int, int, int) {
        (self.year as int, self.month as int, self.day as int)
    }
}

impl RaceDate {
    #[verifier::type_invariant]
    spec fn is_valid(self) -> bool {
        valid_date(self.year as int, self.month as int, self.day as int)
    }

    /// The date with the given year, month and day, when that day exists.
    pub fn from_ymd(year: i32, month: u32, day: u32) -> (r: Option<RaceDate>)
        ensures
            r is Some <==> valid_date(year as int, month as int, day as int),
            r matches Some(d) ==> d@ == (year as int, month as int, day as int),
    {
        if chrono_date_exists(year, month, day) {
            Some(RaceDate { year, month, day })
        } else {
            None
        }
    }

    /// The year.
    pub fn year(&self) -> (r: i32)
        ensures
            r as int == self@.0,
    {
        self.year
    }

    /// The month, from 1 through 12.
    pub fn month(&self) -> (r: u32)
        ensures
            r as int == self@.1,
    {
        self.month
    }

    /// The day of the month, from 1.
    pub fn day(&self) -> (r: u32)
        ensures
            r as int == self@.2,
    {
        self.day
    }

    /// The ISO 8601 text of the date, as `chrono` writes it.
    pub fn to_string(&self) -> (r: String)
        ensures
            r@ == date_text(self@),
            valid_date(self@.0, self@.1, self@.2),
    {
        proof {
            use_type_invariant(self);
        }
        chrono_date_text(self.year, self.month, self.day)
    }

    /// Dates with the same year, month and day are the same date.
    pub proof fn lemma_view_injective(a: RaceDate, b: RaceDate)
        requires
            a@ == b@,
        ensures
            a == b,
    {
    }
}

/// No date text holds a `|`, and each of its characters is a digit, a sign or
/// a dash.
pub proof fn lemma_date_text_chars(v: (int, int, int))
    requires
        valid_date(v.0, v.1, v.2),
    ensures
        forall|i: int| 0 <= i < date_text(v).len() ==> {
            let c = #[trigger] date_text(v)[i];
            is_digit_char(c) || c == '-' || c == '+'
        },
{
    lemma_decimal_digits(v.1 as nat, 2);
    lemma_decimal_digits(v.2 as nat, 2);
    if 0 <= v.0 <= 9999 {
        lemma_decimal_digits(v.0 as nat, 4);
    } else if v.0 < 0 {
        lemma_decimal_digits((-v.0) as nat, 4);
    } else {
        lemma_decimal_digits(v.0 as nat, 4);
    }
    let t = date_text(v);
    let y = year_text(v.0);
    assert forall|i: int| 0 <= i < t.len() implies {
        let c = #[trigger] t[i];
        is_digit_char(c) || c == '-' || c == '+'
    } by {
        if i < y.len() {
            assert(t[i] == y[i]);
            if !(0 <= v.0 <= 9999) && i > 0 {
                if v.0 < 0 {
                    assert(y[i] == decimal((-v.0) as nat, 4)[i - 1]);
                } else {
                    assert(y[i] == decimal(v.0 as nat, 4)[i - 1]);
                }
            }
        } else if i < y.len() + 1 {
        } else if i < y.len() + 3 {
            lemma_decimal_two(v.1 as nat);
            assert(t[i] == decimal(v.1 as nat, 2)[i - y.len() - 1]);
        } else if i < y.len() + 4 {
            lemma_decimal_two(v.1 as nat);
        } else {
            lemma_decimal_two(v.1 as nat);
            lemma_decimal_two(v.2 as nat);
            assert(t[i] == decimal(v.2 as nat, 2)[i - y.len() - 4]);
        }
    }
}

proof fn lemma_year_text_injective(a: int, b: int)
    requires
        year_text(a) == year_text(b),
    ensures
        a == b,
{
    let ya = year_text(a);
    if 0 <= a <= 9999 {
        lemma_decimal_digits(a as nat, 4);
        assert(is_digit_char(ya[0]));
        if 0 <= b <= 9999 {
            lemma_decimal_injective(a as nat, b as nat, 4);
        }
    } else {
        assert(ya[0] == '-' || ya[0] == '+');
        if 0 <= b <= 9999 {
            lemma_decimal_digits(b as nat, 4);
            assert(is_digit_char(year_text(b)[0]));
        } else {
            let na: nat = if a < 0 { (-a) as nat } else { a as nat };
            let nb: nat = if b < 0 { (-b) as nat } else { b as nat };
            assert(decimal(na, 4) =~= ya.drop_first());
            assert(decimal(nb, 4) =~= year_text(b).drop_first());
            lemma_decimal_injective(na, nb, 4);
        }
    }
}

/// Distinct valid dates have distinct texts.
pub proof fn lemma_date_text_injective(a: (int, int, int), b: (int, int, int))
    requires
        valid_date(a.0, a.1, a.2),
        valid_date(b.0, b.1, b.2),
        date_text(a) == date_text(b),
    ensures
        a == b,
{
    lemma_decimal_two(a.1 as nat);
    lemma_decimal_two(a.2 as nat);
    lemma_decimal_two(b.1 as nat);
    lemma_decimal_two(b.2 as nat);
    let ta = date_text(a);
    let tb = date_text(b);
    let ya = year_text(a.0);
    let yb = year_text(b.0);
    assert(ta.len() == ya.len() + 6);
    assert(tb.len() == yb.len() + 6);
    assert(ya.len() == yb.len());
    assert(ya =~= ta.subrange(0, ya.len() as int));
    assert(yb =~= tb.subrange(0, yb.len() as int));
    lemma_year_text_injective(a.0, b.0);
    let n = ya.len() as int;
    assert(decimal(a.1 as nat, 2) =~= ta.subrange(n + 1, n + 3));
    assert(decimal(b.1 as nat, 2) =~= tb.subrange(n + 1, n + 3));
    lemma_decimal_injective(a.1 as nat, b.1 as nat, 2);
    assert(decimal(a.2 as nat, 2) =~= ta.subrange(n + 4, n + 6));
    assert(decimal(b.2 as nat, 2) =~= tb.subrange(n + 4, n + 6));
    lemma_decimal_injective(a.2 as nat, b.2 as nat, 2);
}

} // verus!
