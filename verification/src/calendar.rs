//! Calendar data: months, weekdays and days of month, their fixed board
//! coordinates, and validation of a full date.

use vstd::prelude::*;

use crate::piece::Coordinates;
use vstd::string::StrSliceExecFns;
use vstd::string::StringExecFns;

verus! {

/// A date whose day of month does not exist in its month.
#[derive(Debug)]
pub enum DayError {
    InvalidDay,
}

/// A specific day: month, day of month, and weekday.
pub struct Day {
    pub month: Month,
    pub day: MonthDay,
    pub weekday: Weekday,
}

impl Day {
    /// Creates a new day, rejecting a day of month beyond the month's length.
    pub fn new(month: Month, day: MonthDay, weekday: Weekday) -> (r: Result<Day, DayError>)
        ensures
            (r is Ok) <==> day.value() <= month.spec_day_count(),
            (match r {
                Ok(d) => d.month == month && d.day == day && d.weekday == weekday,
                Err(e) => e is InvalidDay,
            }),
    {
        let valid = day.get() <= month.day_count();
        if valid {
            Ok(Day { month, day, weekday })
        } else {
            Err(DayError::InvalidDay)
        }
    }

    /// The day as lived: built from the machine clock's current local date.
    pub fn today() -> (r: Day)
        ensures
            r.day.value() <= r.month.spec_day_count(),
    {
        let (month, day, weekday) = current_local_date();
        let m = Month::from_number(month);
        let d = match MonthDay::new(day) {
            Some(d) => d,
            None => unreached(),
        };
        let w = Weekday::from_number(weekday);
        match Day::new(m, d, w) {
            Ok(r) => r,
            Err(_) => unreached(),
        }
    }
}

/// The number of days of the month numbered `m`, counting 1 to 12 and
/// giving February its leap-year maximum.
pub open spec fn days_in_month(m: int) -> int {
    if m == 2 {
        29
    } else if m == 4 || m == 6 || m == 9 || m == 11 {
        30
    } else {
        31
    }
}

/// Relies on `chrono::Local::now` and `chrono::Datelike`: the month is
/// returned as 1 to 12, the day of month as 1 up to the month's length, and
/// the weekday as 1 (Monday) to 7 (Sunday); a real calendar date never
/// exceeds 29 in February.
#[verifier::external_body]
fn current_local_date() -> (r: (u8, u8, u8))
    ensures
        1 <= r.0 <= 12,
        1 <= r.1,
        r.1 as int <= days_in_month(r.0 as int),
        1 <= r.2 <= 7,
{
    let now = chrono::Local::now().date_naive();
    (
        chrono::Datelike::month(&now) as u8,
        chrono::Datelike::day(&now) as u8,
        chrono::Datelike::weekday(&now).number_from_monday() as u8,
    )
}

/// The months of the year.
#[derive(Debug, Clone, Copy, PartialEq, Eq, Structural)]
pub enum Month {
    January,
    February,
    March,
    April,
    May,
    June,
    July,
    August,
    September,
    October,
    November,
    December,
}

impl Month {
    /// The month's number, 1 to 12.
    pub open spec fn number(self) -> int {
        match self {
            Month::January => 1,
            Month::February => 2,
            Month::March => 3,
            Month::April => 4,
            Month::May => 5,
            Month::June => 6,
            Month::July => 7,
            Month::August => 8,
            Month::September => 9,
            Month::October => 10,
            Month::November => 11,
            Month::December => 12,
        }
    }

    /// The month named by a number 1 to 12.
    pub fn from_number(n: u8) -> (r: Month)
        requires
            1 <= n <= 12,
        ensures
            r.number() == n,
    {
        match n {
            1 => Month::January,
            2 => Month::February,
            3 => Month::March,
            4 => Month::April,
            5 => Month::May,
            6 => Month::June,
            7 => Month::July,
            8 => Month::August,
            9 => Month::September,
            10 => Month::October,
            11 => Month::November,
            _ => Month::December,
        }
    }

    /// The board cell that stands for this month.
    pub open spec fn spec_coordinates(self) -> (int, int) {
        match self {
            Month::January => (0, 0),
            Month::February => (1, 0),
            Month::March => (2, 0),
            Month::April => (3, 0),
            Month::May => (0, 1),
            Month::June => (0, 2),
            Month::July => (0, 3),
            Month::August => (0, 4),
            Month::September => (0, 5),
            Month::October => (1, 5),
            Month::November => (2, 5),
            Month::December => (3, 5),
        }
    }

    /// Maps the month to its fixed cell on the calendar board.
    pub fn to_coordinates(&self) -> (r: Coordinates)
        ensures
            (r.0 as int, r.1 as int) == self.spec_coordinates(),
    {
        match self {
            Month::January => (0, 0),
            Month::February => (1, 0),
            Month::March => (2, 0),
            Month::April => (3, 0),
            Month::May => (0, 1),
            Month::June => (0, 2),
            Month::July => (0, 3),
            Month::August => (0, 4),
            Month::September => (0, 5),
            Month::October => (1, 5),
            Month::November => (2, 5),
            Month::December => (3, 5),
        }
    }

    /// The number of days the month can hold on the calendar board;
    /// February counts its leap-year maximum.
    pub open spec fn spec_day_count(self) -> int {
        days_in_month(self.number())
    }

    /// The number of days of this month, counting February as 29.
    pub fn day_count(&self) -> (r: u8)
        ensures
            r as int == self.spec_day_count(),
    {
        match self {
            Month::January
            | Month::March
            | Month::May
            | Month::July
            | Month::August
            | Month::October
            | Month::December => 31,
            Month::April | Month::June | Month::September | Month::November => 30,
            Month::February => 29,
        }
    }

    /// All twelve months, January first.
    pub fn all() -> (r: Vec<Month>)
        ensures
            r@.len() == 12,
            forall|i: int| 0 <= i < 12 ==> (#[trigger] r@[i]).number() == i + 1,
    {
        let mut v: Vec<Month> = Vec::new();
        v.push(Month::January);
        v.push(Month::February);
        v.push(Month::March);
        v.push(Month::April);
        v.push(Month::May);
        v.push(Month::June);
        v.push(Month::July);
        v.push(Month::August);
        v.push(Month::September);
        v.push(Month::October);
        v.push(Month::November);
        v.push(Month::December);
        v
    }

    /// The month's English name.
    pub fn name(&self) -> (r: String)
        ensures
            r@ == self.spec_name(),
    {
        match self {
            Month::January => String::from_str("January"),
            Month::February => String::from_str("February"),
            Month::March => String::from_str("March"),
            Month::April => String::from_str("April"),
            Month::May => String::from_str("May"),
            Month::June => String::from_str("June"),
            Month::July => String::from_str("July"),
            Month::August => String::from_str("August"),
            Month::September => String::from_str("September"),
            Month::October => String::from_str("October"),
            Month::November => String::from_str("November"),
            Month::December => String::from_str("December"),
        }
    }

    /// The month's English name.
    pub open spec fn spec_name(self) -> Seq<char> {
        match self {
            Month::January => "January"@,
            Month::February => "February"@,
            Month::March => "March"@,
            Month::April => "April"@,
            Month::May => "May"@,
            Month::June => "June"@,
            Month::July => "July"@,
            Month::August => "August"@,
            Month::September => "September"@,
            Month::October => "October"@,
            Month::November => "November"@,
            Month::December => "December"@,
        }
    }

    /// The month with the given English name, if any.
    pub fn from_name(s: &str) -> (r: Option<Month>)
        ensures
            (match r {
                Some(mo) => mo.spec_name() == s@,
                None => forall|mo: Month| (#[trigger] mo.spec_name()) != s@,
            }),
    {
        let months = Month::all();
        let mut i: usize = 0;
        while i < 12
            invariant
                i <= 12,
                months@.len() == 12,
                forall|k: int| 0 <= k < 12 ==> (#[trigger] months@[k]).number() == k + 1,
                forall|k: int| 0 <= k < i ==> (#[trigger] months@[k]).spec_name() != s@,
            decreases 12 - i,
        {
            let mo = months[i];
            let nm = mo.name();
            if str_eq(nm.as_str(), s) {
                return Some(mo);
            }
            i = i + 1;
        }
        proof {
            assert forall|mo: Month| (#[trigger] mo.spec_name()) != s@ by {
                assert(months@[mo.number() - 1].number() == mo.number());
                assert(months@[mo.number() - 1] == mo);
            }
        }
        None
    }
}

/// The days of the week.
#[derive(Debug, Clone, Copy, PartialEq, Eq, Structural)]
pub enum Weekday {
    Monday,
    Tuesday,
    Wednesday,
    Thursday,
    Friday,
    Saturday,
    Sunday,
}

impl Weekday {
    /// The weekday's number, 1 (Monday) to 7 (Sunday).
    pub open spec fn number(self) -> int {
        match self {
            Weekday::Monday => 1,
            Weekday::Tuesday => 2,
            Weekday::Wednesday => 3,
            Weekday::Thursday => 4,
            Weekday::Friday => 5,
            Weekday::Saturday => 6,
            Weekday::Sunday => 7,
        }
    }

    /// The weekday named by a number 1 (Monday) to 7 (Sunday).
    pub fn from_number(n: u8) -> (r: Weekday)
        requires
            1 <= n <= 7,
        ensures
            r.number() == n,
    {
        match n {
            1 => Weekday::Monday,
            2 => Weekday::Tuesday,
            3 => Weekday::Wednesday,
            4 => Weekday::Thursday,
            5 => Weekday::Friday,
            6 => Weekday::Saturday,
            _ => Weekday::Sunday,
        }
    }

    /// The board cell that stands for this weekday.
    pub open spec fn spec_coordinates(self) -> (int, int) {
        match self {
            Weekday::Monday => (7, 0),
            Weekday::Tuesday => (8, 0),
            Weekday::Wednesday => (7, 1),
            Weekday::Thursday => (7, 2),
            Weekday::Friday => (7, 3),
            Weekday::Saturday => (8, 3),
            Weekday::Sunday => (8, 4),
        }
    }

    /// Maps the weekday to its fixed cell on the calendar board.
    pub fn to_coordinates(&self) -> (r: Coordinates)
        ensures
            (r.0 as int, r.1 as int) == self.spec_coordinates(),
    {
        match self {
            Weekday::Monday => (7, 0),
            Weekday::Tuesday => (8, 0),
            Weekday::Wednesday => (7, 1),
            Weekday::Thursday => (7, 2),
            Weekday::Friday => (7, 3),
            Weekday::Saturday => (8, 3),
            Weekday::Sunday => (8, 4),
        }
    }

    /// All seven weekdays, Monday first.
    pub fn all() -> (r: Vec<Weekday>)
        ensures
            r@.len() == 7,
            forall|i: int| 0 <= i < 7 ==> (#[trigger] r@[i]).number() == i + 1,
    {
        let mut v: Vec<Weekday> = Vec::new();
        v.push(Weekday::Monday);
        v.push(Weekday::Tuesday);
        v.push(Weekday::Wednesday);
        v.push(Weekday::Thursday);
        v.push(Weekday::Friday);
        v.push(Weekday::Saturday);
        v.push(Weekday::Sunday);
        v
    }

    /// The weekday's English name.
    pub open spec fn spec_name(self) -> Seq<char> {
        match self {
            Weekday::Monday => "Monday"@,
            Weekday::Tuesday => "Tuesday"@,
            Weekday::Wednesday => "Wednesday"@,
            Weekday::Thursday => "Thursday"@,
            Weekday::Friday => "Friday"@,
            Weekday::Saturday => "Saturday"@,
            Weekday::Sunday => "Sunday"@,
        }
    }

    /// The weekday's English name.
    pub fn name(&self) -> (r: String)
        ensures
            r@ == self.spec_name(),
    {
        match self {
            Weekday::Monday => String::from_str("Monday"),
            Weekday::Tuesday => String::from_str("Tuesday"),
            Weekday::Wednesday => String::from_str("Wednesday"),
            Weekday::Thursday => String::from_str("Thursday"),
            Weekday::Friday => String::from_str("Friday"),
            Weekday::Saturday => String::from_str("Saturday"),
            Weekday::Sunday => String::from_str("Sunday"),
        }
    }

    /// The weekday with the given English name, if any.
    pub fn from_name(s: &str) -> (r: Option<Weekday>)
        ensures
            (match r {
                Some(w) => w.spec_name() == s@,
                None => forall|w: Weekday| (#[trigger] w.spec_name()) != s@,
            }),
    {
        let days = Weekday::all();
        let mut i: usize = 0;
        while i < 7
            invariant
                i <= 7,
                days@.len() == 7,
                forall|k: int| 0 <= k < 7 ==> (#[trigger] days@[k]).number() == k + 1,
                forall|k: int| 0 <= k < i ==> (#[trigger] days@[k]).spec_name() != s@,
            decreases 7 - i,
        {
            let w = days[i];
            let nm = w.name();
            if str_eq(nm.as_str(), s) {
                return Some(w);
            }
            i = i + 1;
        }
        proof {
            assert forall|w: Weekday| (#[trigger] w.spec_name()) != s@ by {
                assert(days@[w.number() - 1].number() == w.number());
                assert(days@[w.number() - 1] == w);
            }
        }
        None
    }
}

/// A parse of a weekday name that matched no weekday.
#[derive(Debug)]
pub enum WeekdayParseError {
    UnknownName,
}

impl core::str::FromStr for Weekday {
    type Err = WeekdayParseError;

    fn from_str(s: &str) -> Result<Weekday, WeekdayParseError> {
        match Weekday::from_name(s) {
            Some(w) => Ok(w),
            None => Err(WeekdayParseError::UnknownName),
        }
    }
}

/// A parse of a month name that matched no month.
#[derive(Debug)]
pub enum MonthParseError {
    UnknownName,
}

impl core::str::FromStr for Month {
    type Err = MonthParseError;

    fn from_str(s: &str) -> Result<Month, MonthParseError> {
        match Month::from_name(s) {
            Some(m) => Ok(m),
            None => Err(MonthParseError::UnknownName),
        }
    }
}

/// A day of month, 1 to 31.
#[derive(Debug, PartialEq, Eq, Structural, Clone, Copy)]
pub struct MonthDay(pub u8);

impl MonthDay {
    /// The day's number.
    pub open spec fn value(self) -> int {
        self.0 as int
    }

    /// The type's invariant: a day of month is between 1 and 31.
    pub open spec fn wf(self) -> bool {
        1 <= self.0 <= 31
    }

    /// Creates a day of month; numbers outside 1 to 31 are rejected.
    pub fn new(day: u8) -> (r: Option<MonthDay>)
        ensures
            (r is Some) <==> 1 <= day <= 31,
            (match r {
                Some(d) => d.value() == day && d.wf(),
                None => true,
            }),
    {
        if day > 0 && day <= 31 {
            Some(MonthDay(day))
        } else {
            None
        }
    }

    /// The day's number, 1 to 31.
    pub fn get(&self) -> (r: u8)
        ensures
            r as int == self.value(),
    {
        self.0
    }

    /// The board cell that stands for this day of month.
    pub open spec fn spec_coordinates(self) -> (int, int) {
        monthday_cell(self.value())
    }

    /// Maps the day of month to its fixed cell on the calendar board.
    /// Days 14 and 31 sit apart from the otherwise row-major layout.
    pub fn to_coordinates(&self) -> (r: Coordinates)
        requires
            self.wf(),
        ensures
            (r.0 as int, r.1 as int) == self.spec_coordinates(),
    {
        match self.0 {
            1 => (4, 0),
            2 => (5, 0),
            3 => (6, 0),
            4 => (1, 1),
            5 => (2, 1),
            6 => (3, 1),
            7 => (4, 1),
            8 => (5, 1),
            9 => (6, 1),
            10 => (1, 2),
            11 => (2, 2),
            12 => (3, 2),
            13 => (4, 2),
            14 => (7, 5),
            15 => (6, 2),
            16 => (1, 3),
            17 => (2, 3),
            18 => (3, 3),
            19 => (4, 3),
            20 => (5, 3),
            21 => (6, 3),
            22 => (1, 4),
            23 => (2, 4),
            24 => (3, 4),
            25 => (4, 4),
            26 => (5, 4),
            27 => (6, 4),
            28 => (4, 5),
            29 => (5, 5),
            30 => (6, 5),
            _ => (5, 2),
        }
    }

    /// Parses a day of month the way an unsigned byte is read: an optional
    /// leading plus sign, then decimal digits. A string that is not such a
    /// numeral, or whose value no byte can hold, is an invalid format; a
    /// readable value outside 1 to 31 is out of range.
    pub fn parse(s: &str) -> (r: Result<MonthDay, MonthDayError>)
        ensures
            (match r {
                Ok(d) => is_u8_numeral(s@) && u8_numeral_value(s@) == d.value() && 1 <= d.value()
                    <= 31 && d.wf(),
                Err(MonthDayError::InvalidFormat) => !is_u8_numeral(s@) || u8_numeral_value(s@)
                    > 255,
                Err(MonthDayError::OutOfRange) => is_u8_numeral(s@) && u8_numeral_value(s@) <= 255
                    && !(1 <= u8_numeral_value(s@) <= 31),
            }),
    {
        match parse_u8_numeral(s) {
            Some(n) => {
                if 1 <= n && n <= 31 {
                    Ok(MonthDay(n))
                } else {
                    Err(MonthDayError::OutOfRange)
                }
            },
            None => Err(MonthDayError::InvalidFormat),
        }
    }
}

/// A failed parse of a day of month: not a digit string, or out of range.
#[derive(Debug)]
pub enum MonthDayError {
    InvalidFormat,
    OutOfRange,
}

impl core::str::FromStr for MonthDay {
    type Err = MonthDayError;

    fn from_str(s: &str) -> Result<MonthDay, MonthDayError> {
        MonthDay::parse(s)
    }
}

/// The fixed cell of the day of month numbered `d`.
pub open spec fn monthday_cell(d: int) -> (int, int) {
    if d == 1 {
        (4, 0)
    } else if d == 2 {
        (5, 0)
    } else if d == 3 {
        (6, 0)
    } else if d == 4 {
        (1, 1)
    } else if d == 5 {
        (2, 1)
    } else if d == 6 {
        (3, 1)
    } else if d == 7 {
        (4, 1)
    } else if d == 8 {
        (5, 1)
    } else if d == 9 {
        (6, 1)
    } else if d == 10 {
        (1, 2)
    } else if d == 11 {
        (2, 2)
    } else if d == 12 {
        (3, 2)
    } else if d == 13 {
        (4, 2)
    } else if d == 14 {
        (7, 5)
    } else if d == 15 {
        (6, 2)
    } else if d == 16 {
        (1, 3)
    } else if d == 17 {
        (2, 3)
    } else if d == 18 {
        (3, 3)
    } else if d == 19 {
        (4, 3)
    } else if d == 20 {
        (5, 3)
    } else if d == 21 {
        (6, 3)
    } else if d == 22 {
        (1, 4)
    } else if d == 23 {
        (2, 4)
    } else if d == 24 {
        (3, 4)
    } else if d == 25 {
        (4, 4)
    } else if d == 26 {
        (5, 4)
    } else if d == 27 {
        (6, 4)
    } else if d == 28 {
        (4, 5)
    } else if d == 29 {
        (5, 5)
    } else if d == 30 {
        (6, 5)
    } else {
        (5, 2)
    }
}

/// The numeric value of a digit character; meaningful for '0' to '9'.
pub open spec fn digit_value(c: char) -> int {
    c as int - 48
}

/// True for '0' to '9'.
pub open spec fn is_digit(c: char) -> bool {
    48 <= c as int <= 57
}

/// A nonempty string of decimal digits.
pub open spec fn is_digit_string(s: Seq<char>) -> bool {
    s.len() >= 1 && forall|i: int| 0 <= i < s.len() ==> is_digit(#[trigger] s[i])
}

/// The number a digit string denotes, most significant digit first.
pub open spec fn digits_value(s: Seq<char>) -> int
    decreases s.len(),
{
    if s.len() == 0 {
        0
    } else {
        digits_value(s.drop_last()) * 10 + digit_value(s.last())
    }
}

/// The digit part of an unsigned-byte numeral: everything after an optional
/// leading plus sign.
pub open spec fn u8_numeral_digits(s: Seq<char>) -> Seq<char> {
    if s.len() > 0 && s[0] == '+' {
        s.drop_first()
    } else {
        s
    }
}

/// True when the string reads as an unsigned decimal numeral: an optional
/// leading plus sign, then one or more digits.
pub open spec fn is_u8_numeral(s: Seq<char>) -> bool {
    is_digit_string(u8_numeral_digits(s))
}

/// The value an unsigned-byte numeral denotes.
pub open spec fn u8_numeral_value(s: Seq<char>) -> int {
    digits_value(u8_numeral_digits(s))
}

/// Reads an unsigned byte from a decimal numeral: an optional leading plus
/// sign, then digits of any length, as long as the value fits a byte.
/// Returns nothing for any other string, or on a value above 255.
fn parse_u8_numeral(s: &str) -> (r: Option<u8>)
    ensures
        (match r {
            Some(n) => is_u8_numeral(s@) && n as int == u8_numeral_value(s@),
            None => !is_u8_numeral(s@) || u8_numeral_value(s@) > 255,
        }),
{
    let len = s.unicode_len();
    let mut start: usize = 0;
    if len > 0 {
        if s.get_char(0) == '+' {
            start = 1;
        }
    }
    let ghost digits = u8_numeral_digits(s@);
    proof {
        assert(digits =~= s@.subrange(start as int, len as int));
    }
    if start >= len {
        return None;
    }
    let mut val: u32 = 0;
    let mut over = false;
    let mut i: usize = start;
    while i < len
        invariant
            len == s@.len(),
            start <= i <= len,
            start < len,
            digits == u8_numeral_digits(s@),
            digits =~= s@.subrange(start as int, len as int),
            forall|k: int| start <= k < i ==> is_digit(#[trigger] s@[k]),
            !over ==> val as int == digits_value(s@.subrange(start as int, i as int)) && val
                <= 255,
            over ==> digits_value(s@.subrange(start as int, i as int)) > 255,
        decreases len - i,
    {
        let c = s.get_char(i);
        let code = c as u32;
        if code < 48 || code > 57 {
            proof {
                assert(digits[i - start] == s@[i as int]);
                assert(!is_digit(digits[i - start]));
            }
            return None;
        }
        proof {
            assert(s@.subrange(start as int, i + 1).drop_last() =~= s@.subrange(
                start as int,
                i as int,
            ));
            assert(s@.subrange(start as int, i + 1).last() == s@[i as int]);
            assert(0 <= digit_value(s@[i as int]) <= 9);
        }
        if !over {
            val = val * 10 + (code - 48);
            if val > 255 {
                over = true;
            }
        }
        i = i + 1;
    }
    proof {
        assert(s@.subrange(start as int, len as int) =~= digits);
        assert(digits.len() >= 1);
        assert forall|k: int| 0 <= k < digits.len() implies is_digit(#[trigger] digits[k]) by {
            assert(digits[k] == s@[k + start]);
        }
        assert(is_u8_numeral(s@));
    }
    if over {
        None
    } else {
        Some(val as u8)
    }
}

/// A digit string's value is nonnegative.
proof fn lemma_digits_value_nonneg(s: Seq<char>)
    requires
        forall|i: int| 0 <= i < s.len() ==> is_digit(#[trigger] s[i]),
    ensures
        digits_value(s) >= 0,
    decreases s.len(),
{
    if s.len() > 0 {
        lemma_digits_value_nonneg(s.drop_last());
    }
}

/// Compares two strings character by character.
fn str_eq(a: &str, b: &str) -> (r: bool)
    ensures
        r <==> a@ == b@,
{
    let la = a.unicode_len();
    let lb = b.unicode_len();
    if la != lb {
        return false;
    }
    let mut i: usize = 0;
    while i < la
        invariant
            la == a@.len(),
            lb == b@.len(),
            la == lb,
            i <= la,
            forall|k: int| 0 <= k < i ==> a@[k] == b@[k],
        decreases la - i,
    {
        if a.get_char(i) != b.get_char(i) {
            return false;
        }
        i = i + 1;
    }
    proof {
        assert(a@ =~= b@);
    }
    true
}

} // verus!

