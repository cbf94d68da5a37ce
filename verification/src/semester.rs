//! The days of a semester: where it begins and ends, which of its days and
//! weeks are free, and how its weeks are counted.

use crate::calendar::{
    lemma_next_day, lemma_number_bounds, lemma_plus, lemma_same_remainder_apart,
    lemma_weekday_range, Date, FIRST_YEAR, LAST_DAY_NUMBER, LAST_YEAR,
};
use vstd::prelude::*;

verus! {

/// The days of one semester. Days are named by month and day of the month.
#[derive(Debug)]
pub struct SemesterConfig {
    /// The day before the first day of the semester.
    pub start: (u32, u32),
    /// The day on which the semester is over; it holds no class itself.
    pub end: (u32, u32),
    /// The year in which `start` lies.
    pub year: i32,
    /// Days without classes.
    pub vacation_days: Vec<(u32, u32)>,
    /// Mondays of weeks without classes. Such a week is not counted among
    /// the weeks of the semester.
    pub vacation_weeks: Vec<(u32, u32)>,
}

impl SemesterConfig {
    /// The day from which the semester is counted.
    pub open spec fn start_date(self) -> Date {
        Date { year: self.year, month: self.start.0, day: self.start.1 }
    }

    /// Whether the end names a day that comes earlier in a year than the
    /// start does.
    pub open spec fn ends_next_year(self) -> bool {
        self.end.0 < self.start.0 || (self.end.0 == self.start.0 && self.end.1 < self.start.1)
    }

    /// The day on which the semester is over: the first day on or after the
    /// start that the end names.
    pub open spec fn end_date(self) -> Date {
        Date {
            year: if self.ends_next_year() {
                (self.year + 1) as i32
            } else {
                self.year
            },
            month: self.end.0,
            day: self.end.1,
        }
    }

    /// Whether the start and the end are days of the calendar, in the years
    /// that four digits write.
    pub open spec fn wf(self) -> bool {
        self.start_date().wf() && self.end_date().wf()
    }

    /// The number of days from the start to the end.
    pub open spec fn total_days(self) -> int {
        self.end_date().number() - self.start_date().number()
    }

    /// The day that lies `n` days after the start.
    pub open spec fn date_at(self, n: int) -> Date {
        self.start_date().plus(n)
    }

    /// Whether the day `n` days after the start is a Monday that is named as
    /// the beginning of a vacation week.
    pub open spec fn vacation_monday(self, n: int) -> bool {
        self.date_at(n).weekday() == 0 && self.vacation_weeks@.contains(
            (self.date_at(n).month, self.date_at(n).day),
        )
    }

    /// Whether the day `n` days after the start lies in a vacation week: it is
    /// the Monday of one, or a later day of its week.
    pub open spec fn in_vacation_week(self, n: int) -> bool
        decreases n,
    {
        if n <= 0 {
            false
        } else if self.date_at(n).weekday() == 0 {
            self.vacation_monday(n)
        } else {
            self.in_vacation_week(n - 1)
        }
    }

    /// Whether the day `n` days after the start is named as a vacation day.
    pub open spec fn vacation_day(self, n: int) -> bool {
        self.vacation_days@.contains((self.date_at(n).month, self.date_at(n).day))
    }

    /// The number of the academic week in which the day `n` days after the
    /// start lies: the number of Mondays after the start, up to that day, that
    /// begin no vacation week. It is 0 before the first such Monday.
    pub open spec fn week_at(self, n: int) -> int
        decreases n,
    {
        if n <= 0 {
            0
        } else if self.date_at(n).weekday() == 0 && !self.vacation_monday(n) {
            self.week_at(n - 1) + 1
        } else {
            self.week_at(n - 1)
        }
    }

    /// Whether classes meet on the day `n` days after the start: on no
    /// vacation day, and in no vacation week.
    pub open spec fn teaching_day(self, n: int) -> bool {
        !self.in_vacation_week(n) && !self.vacation_day(n)
    }

    /// The day from which the semester is counted.
    pub fn first_date(&self) -> (date: Date)
        ensures
            date == self.start_date(),
    {
        Date { year: self.year, month: self.start.0, day: self.start.1 }
    }

    /// The day on which the semester is over.
    pub fn last_date(&self) -> (date: Date)
        requires
            self.year < i32::MAX,
        ensures
            date == self.end_date(),
    {
        let next_year = self.end.0 < self.start.0 || (self.end.0 == self.start.0 && self.end.1
            < self.start.1);
        Date {
            year: if next_year {
                self.year + 1
            } else {
                self.year
            },
            month: self.end.0,
            day: self.end.1,
        }
    }

    /// Tests whether the start and the end are days of the calendar, in the
    /// years that four digits write.
    pub fn is_valid(&self) -> (b: bool)
        ensures
            b == self.wf(),
    {
        if self.year < FIRST_YEAR || self.year > LAST_YEAR {
            return false;
        }
        self.first_date().is_valid() && self.last_date().is_valid()
    }
}

/// A semester is at most as long as the calendar of four-digit years.
pub proof fn lemma_semester_length(config: SemesterConfig)
    requires
        config.wf(),
    ensures
        -LAST_DAY_NUMBER <= config.total_days() <= LAST_DAY_NUMBER,
{
    lemma_number_bounds(config.start_date());
    lemma_number_bounds(config.end_date());
}

/// The days after the start of a semester are days of the calendar, numbered
/// on from the start, and each falls on the day of the week after that of the
/// day before it.
pub proof fn lemma_day_of_semester(config: SemesterConfig, n: int)
    requires
        config.wf(),
        0 <= n,
        config.year + n < i32::MAX,
    ensures
        config.date_at(n).in_calendar(),
        config.date_at(n).number() == config.start_date().number() + n,
        0 <= config.date_at(n).weekday() < 7,
        n >= 1 ==> config.date_at(n).weekday() == if config.date_at(n - 1).weekday() == 6 {
            0
        } else {
            config.date_at(n - 1).weekday() + 1
        },
{
    lemma_plus(config.start_date(), n);
    lemma_weekday_range(config.date_at(n));
    if n >= 1 {
        lemma_plus(config.start_date(), n - 1);
        lemma_next_day(config.date_at(n - 1));
    }
}

/// The number of the week never falls from a day to a later day, and rises
/// by at most one a day.
pub proof fn lemma_weeks_in_order(config: SemesterConfig, first: int, second: int)
    requires
        first <= second,
    ensures
        config.week_at(first) <= config.week_at(second),
        config.week_at(second) <= config.week_at(first) + (second - first),
        0 <= config.week_at(first),
    decreases second - first, first,
{
    if first < second {
        lemma_weeks_in_order(config, first, second - 1);
    } else if first > 0 {
        lemma_weeks_in_order(config, first - 1, first - 1);
    }
}

/// Whether a day lies in a vacation week is decided by the Monday of its
/// week: the day does if that Monday lies after the start of the semester and
/// begins a vacation week. A Monday that begins none begins a new academic
/// week.
pub proof fn lemma_monday_decides(config: SemesterConfig, n: int)
    requires
        config.wf(),
        1 <= n,
        config.year + n < i32::MAX,
    ensures
        ({
            let monday = n - config.date_at(n).weekday();
            &&& n - 6 <= monday <= n
            &&& monday >= 1 ==> config.date_at(monday).weekday() == 0
            &&& config.in_vacation_week(n) == (monday >= 1 && config.vacation_monday(monday))
            &&& monday >= 1 && !config.vacation_monday(monday) ==> config.week_at(monday)
                == config.week_at(monday - 1) + 1
            &&& monday >= 1 ==> config.week_at(n) == config.week_at(monday)
            &&& monday < 1 ==> config.week_at(n) == 0
        }),
    decreases n,
{
    lemma_day_of_semester(config, n);
    let today = config.date_at(n).weekday();
    let yesterday = config.date_at(n - 1).weekday();
    if today != 0 {
        assert(today == yesterday + 1);
        assert(config.in_vacation_week(n) == config.in_vacation_week(n - 1));
        assert(config.week_at(n) == config.week_at(n - 1));
        if n > 1 {
            lemma_monday_decides(config, n - 1);
            assert(n - today == (n - 1) - yesterday);
        } else {
            assert(!config.in_vacation_week(0));
            assert(config.week_at(0) == 0);
        }
    } else {
        assert(n - today == n);
    }
}

/// The days of a vacation week, from its Monday on, lie in a vacation week,
/// hold no classes, and leave the number of the week as it was before the
/// Monday.
pub proof fn lemma_vacation_week(config: SemesterConfig, n: int, k: int)
    requires
        config.wf(),
        1 <= n < config.total_days(),
        config.vacation_monday(n),
        0 <= k < 7,
    ensures
        config.date_at(n + k).weekday() == k,
        config.in_vacation_week(n + k),
        !config.teaching_day(n + k),
        config.week_at(n + k) == config.week_at(n - 1),
    decreases k,
{
    lemma_semester_length(config);
    lemma_day_of_semester(config, n + k);
    if k > 0 {
        lemma_vacation_week(config, n, k - 1);
        assert(config.date_at(n + k).weekday() == k);
        assert(config.in_vacation_week(n + k) == config.in_vacation_week(n + k - 1));
        assert(config.week_at(n + k) == config.week_at(n + k - 1));
    }
}

/// Two semesters that begin on the same day and name the same Mondays as
/// vacation weeks count their weeks alike.
pub proof fn lemma_same_weeks(config: SemesterConfig, other: SemesterConfig, n: int)
    requires
        config.start_date() == other.start_date(),
        forall|j: int| 1 <= j <= n ==> config.vacation_monday(j) == other.vacation_monday(j),
    ensures
        config.week_at(n) == other.week_at(n),
    decreases n,
{
    if n > 0 {
        lemma_same_weeks(config, other, n - 1);
    }
}

/// A vacation week takes one from the number of every week after it: from
/// its Monday on, the weeks are numbered one lower than in a semester that is
/// the same but for that week.
pub proof fn lemma_vacation_week_uncounted(
    config: SemesterConfig,
    other: SemesterConfig,
    n: int,
    later: int,
)
    requires
        config.start_date() == other.start_date(),
        1 <= n <= later,
        config.vacation_monday(n),
        !other.vacation_monday(n),
        forall|j: int|
            1 <= j <= later && j != n ==> config.vacation_monday(j) == other.vacation_monday(j),
    ensures
        other.week_at(later) == config.week_at(later) + 1,
    decreases later - n,
{
    if later == n {
        lemma_same_weeks(config, other, n - 1);
    } else {
        lemma_vacation_week_uncounted(config, other, n, later - 1);
    }
}

/// Two days of a semester that fall on the same day of the week, and on both
/// of which classes meet, lie in academic weeks of different numbers.
pub proof fn lemma_same_weekday_other_week(config: SemesterConfig, first: int, second: int)
    requires
        config.wf(),
        1 <= first,
        1 <= second,
        first != second,
        config.year + first < i32::MAX,
        config.year + second < i32::MAX,
        config.date_at(first).weekday() == config.date_at(second).weekday(),
        config.teaching_day(first),
        config.teaching_day(second),
    ensures
        config.week_at(first) != config.week_at(second),
{
    if first > second {
        lemma_later_week(config, second, first);
    } else {
        lemma_later_week(config, first, second);
    }
}

/// Of two days that fall on the same day of the week, the later lies in a
/// later academic week, if classes meet on it.
proof fn lemma_later_week(config: SemesterConfig, first: int, second: int)
    requires
        config.wf(),
        1 <= first < second,
        config.year + second < i32::MAX,
        config.date_at(first).weekday() == config.date_at(second).weekday(),
        config.teaching_day(second),
    ensures
        config.week_at(first) < config.week_at(second),
{
    lemma_day_of_semester(config, first);
    lemma_day_of_semester(config, second);
    lemma_monday_decides(config, second);
    let monday = second - config.date_at(second).weekday();
    lemma_same_remainder_apart(
        config.date_at(first).number() - 1,
        config.date_at(second).number() - 1,
        7,
    );
    assert(second - first >= 7);
    assert(monday > first);
    lemma_weeks_in_order(config, first, monday - 1);
    lemma_weeks_in_order(config, monday, second);
}

} // verus!
