//! The meetings of a semester: which class meets on which day, and what
//! holds of the meetings whatever the classes and the semester are.

use crate::calendar::{
    lemma_number_in_year, lemma_years_in_order, Date, LocalTime, LAST_YEAR,
};
use crate::ical::EventModel;
use crate::parser::ClassModel;
use crate::semester::{
    lemma_day_of_semester, lemma_same_weekday_other_week, lemma_semester_length,
    lemma_vacation_week, SemesterConfig,
};
use vstd::prelude::*;

verus! {

/// The time at which `class` begins on the day `date`.
pub open spec fn start_of(class: ClassModel, date: Date) -> LocalTime {
    LocalTime {
        date,
        hour: class.start.hour as u32,
        minute: if class.start.half {
            30
        } else {
            0
        },
        second: 0,
    }
}

/// The length of `class` in minutes.
pub open spec fn minutes_of(class: ClassModel) -> int {
    class.len as int * 30
}

/// The meeting of `class` on the day `date`.
pub open spec fn event_of(class: ClassModel, date: Date) -> EventModel {
    EventModel {
        summary: class.title,
        start: start_of(class, date),
        end: start_of(class, date).later(minutes_of(class)),
        location: class.location,
        description: "by "@ + class.lecturer,
    }
}

/// Whether a meeting of `class` on the day `date` ends in the years that four
/// digits write.
pub open spec fn event_fits(class: ClassModel, date: Date) -> bool {
    start_of(class, date).later_in_calendar(minutes_of(class))
}

/// Whether `class` meets on a day that falls on `weekday`, counted from
/// Monday as 0, in the academic week `week`.
pub open spec fn meets_on(class: ClassModel, week: int, weekday: int) -> bool {
    class.meets_in(week) && class.day == weekday
}

/// The meetings on the day `date` of the academic week `week`, in the order
/// of the classes.
pub open spec fn events_of_day(classes: Seq<ClassModel>, date: Date, week: int) -> Seq<EventModel>
    decreases classes.len(),
{
    if classes.len() == 0 {
        Seq::empty()
    } else if meets_on(classes.last(), week, date.weekday()) {
        events_of_day(classes.drop_last(), date, week).push(event_of(classes.last(), date))
    } else {
        events_of_day(classes.drop_last(), date, week)
    }
}

/// The meetings on the day `n` days after the start of the semester.
pub open spec fn day_events(classes: Seq<ClassModel>, config: SemesterConfig, n: int) -> Seq<
    EventModel,
> {
    if config.teaching_day(n) {
        events_of_day(classes, config.date_at(n), config.week_at(n))
    } else {
        Seq::empty()
    }
}

/// The meetings on the first `n` days after the start of the semester, day
/// by day.
pub open spec fn events_until(classes: Seq<ClassModel>, config: SemesterConfig, n: int) -> Seq<
    EventModel,
>
    decreases n,
{
    if n <= 0 {
        Seq::empty()
    } else {
        events_until(classes, config, n - 1) + day_events(classes, config, n)
    }
}

/// The meetings of a semester: those on the days after its start and before
/// its end.
pub open spec fn semester_events(classes: Seq<ClassModel>, config: SemesterConfig) -> Seq<
    EventModel,
> {
    events_until(classes, config, config.total_days() - 1)
}

/// Whether the class with index `k` meets on the day `n` days after the start
/// of the semester, and that day lies before the end of the semester.
pub open spec fn meets_at(
    classes: Seq<ClassModel>,
    config: SemesterConfig,
    n: int,
    k: int,
) -> bool {
    &&& 1 <= n < config.total_days()
    &&& 0 <= k < classes.len()
    &&& config.teaching_day(n)
    &&& meets_on(classes[k], config.week_at(n), config.date_at(n).weekday())
}

/// Whether the meetings on the first `upto` days of the semester all end in
/// the years that four digits write.
pub open spec fn fits_until(classes: Seq<ClassModel>, config: SemesterConfig, upto: int) -> bool {
    forall|n: int, k: int|
        n <= upto && #[trigger] meets_at(classes, config, n, k) ==> event_fits(
            classes[k],
            config.date_at(n),
        )
}

/// Whether every meeting of the semester ends in the years that four digits
/// write, so that a calendar file can hold it.
pub open spec fn semester_fits(classes: Seq<ClassModel>, config: SemesterConfig) -> bool {
    fits_until(classes, config, config.total_days() - 1)
}

/// A calendar file can hold the classes in a semester that ends before the
/// last of the four-digit years begins, if none of them is longer than a year
/// of 365 days: that much room is left.
pub proof fn lemma_semester_fits(classes: Seq<ClassModel>, config: SemesterConfig)
    requires
        config.wf(),
        config.end_date().year < LAST_YEAR,
        forall|k: int|
            0 <= k < classes.len() ==> (#[trigger] classes[k]).start.hour <= 23 && classes[k].len
                <= 365 * 48,
    ensures
        semester_fits(classes, config),
{
    lemma_semester_length(config);
    lemma_number_in_year(config.end_date());
    lemma_years_in_order(config.end_date().year + 1, LAST_YEAR as int);
    let last = config.total_days() - 1;
    assert forall|n: int, k: int|
        n <= last && #[trigger] meets_at(classes, config, n, k) implies event_fits(
        classes[k],
        config.date_at(n),
    ) by {
        lemma_day_of_semester(config, n);
        let class = classes[k];
        let start = start_of(class, config.date_at(n));
        assert(start.date.number() < config.end_date().number());
        assert(config.end_date().number() <= 3651694);
        assert(start.hour * 60 + start.minute + minutes_of(class) < 366 * 1440);
    }
}

/// Every meeting of a day begins on that day.
proof fn lemma_events_of_day(classes: Seq<ClassModel>, date: Date, week: int)
    ensures
        forall|k: int|
            0 <= k < events_of_day(classes, date, week).len() ==> (#[trigger] events_of_day(
                classes,
                date,
                week,
            )[k]).start.date == date,
    decreases classes.len(),
{
    if classes.len() > 0 {
        lemma_events_of_day(classes.drop_last(), date, week);
        let before = events_of_day(classes.drop_last(), date, week);
        let all = events_of_day(classes, date, week);
        assert forall|k: int| 0 <= k < all.len() implies (#[trigger] all[k]).start.date
            == date by {
            if k < before.len() {
                assert(all[k] == before[k]);
            }
        }
    }
}

/// Whether the event begins on one of the first `n` days after the start of
/// the semester, and on one on which classes meet.
pub open spec fn on_teaching_day(config: SemesterConfig, event: EventModel, n: int) -> bool {
    exists|day: int|
        1 <= day <= n && #[trigger] config.teaching_day(day) && event.start.date
            == config.date_at(day)
}

/// Every meeting on the first `n` days of a semester begins on one of those
/// days, and on one on which classes meet.
pub proof fn lemma_events_on_teaching_days(
    classes: Seq<ClassModel>,
    config: SemesterConfig,
    n: int,
)
    ensures
        forall|k: int|
            0 <= k < events_until(classes, config, n).len() ==> on_teaching_day(
                config,
                #[trigger] events_until(classes, config, n)[k],
                n,
            ),
    decreases n,
{
    if n > 0 {
        let before = events_until(classes, config, n - 1);
        let today = day_events(classes, config, n);
        let all = events_until(classes, config, n);
        lemma_events_on_teaching_days(classes, config, n - 1);
        lemma_events_of_day(classes, config.date_at(n), config.week_at(n));
        assert forall|k: int| 0 <= k < all.len() implies on_teaching_day(
            config,
            #[trigger] all[k],
            n,
        ) by {
            if k < before.len() {
                assert(all[k] == before[k]);
                assert(on_teaching_day(config, before[k], n - 1));
                let day = choose|day: int|
                    1 <= day <= n - 1 && #[trigger] config.teaching_day(day)
                        && before[k].start.date == config.date_at(day);
                assert(1 <= day <= n && config.teaching_day(day));
            } else {
                assert(all[k] == today[k - before.len()]);
                assert(today.len() > 0);
                assert(config.teaching_day(n));
                assert(today[k - before.len()].start.date == config.date_at(n));
            }
        }
    }
}

/// The meetings of a semester stand in the order of their days: none begins
/// on an earlier day than one that stands before it.
pub proof fn lemma_events_in_order(classes: Seq<ClassModel>, config: SemesterConfig)
    requires
        config.wf(),
    ensures
        forall|i: int, j: int|
            0 <= i <= j < semester_events(classes, config).len() ==> (#[trigger] semester_events(
                classes,
                config,
            )[i]).start.date.number() <= (#[trigger] semester_events(
                classes,
                config,
            )[j]).start.date.number(),
{
    lemma_semester_length(config);
    lemma_events_in_order_until(classes, config, config.total_days() - 1);
}

/// The meetings on the first `n` days of a semester stand in the order of
/// their days, and none begins after the last of those days.
proof fn lemma_events_in_order_until(classes: Seq<ClassModel>, config: SemesterConfig, n: int)
    requires
        config.wf(),
        config.year + n < i32::MAX,
    ensures
        forall|i: int, j: int|
            0 <= i <= j < events_until(classes, config, n).len() ==> (#[trigger] events_until(
                classes,
                config,
                n,
            )[i]).start.date.number() <= (#[trigger] events_until(
                classes,
                config,
                n,
            )[j]).start.date.number(),
        forall|i: int|
            0 <= i < events_until(classes, config, n).len() ==> (#[trigger] events_until(
                classes,
                config,
                n,
            )[i]).start.date.number() <= config.start_date().number() + n,
    decreases n,
{
    if n > 0 {
        let before = events_until(classes, config, n - 1);
        let today = day_events(classes, config, n);
        let all = events_until(classes, config, n);
        let last = config.start_date().number() + n;
        lemma_events_in_order_until(classes, config, n - 1);
        lemma_events_of_day(classes, config.date_at(n), config.week_at(n));
        lemma_day_of_semester(config, n);
        assert forall|i: int| 0 <= i < all.len() implies (#[trigger] all[i]).start.date.number()
            <= last by {
            if i < before.len() {
                assert(all[i] == before[i]);
            } else {
                assert(all[i] == today[i - before.len()]);
            }
        }
        assert forall|i: int, j: int| 0 <= i <= j < all.len() implies (
        #[trigger] all[i]).start.date.number() <= (#[trigger] all[j]).start.date.number() by {
            if j < before.len() {
                assert(all[i] == before[i]);
                assert(all[j] == before[j]);
            } else {
                assert(all[j] == today[j - before.len()]);
                assert(all[j].start.date.number() == last);
            }
        }
    }
}

/// A day that is named as a vacation day holds no meeting, whatever the
/// classes are; and no meeting of the semester begins on a day of the month
/// that is named as a vacation day.
pub proof fn lemma_vacation_day_is_free(classes: Seq<ClassModel>, config: SemesterConfig)
    ensures
        forall|n: int|
            config.vacation_day(n) ==> #[trigger] day_events(classes, config, n).len() == 0,
        forall|k: int|
            0 <= k < semester_events(classes, config).len() ==> !config.vacation_days@.contains(
                (
                    (#[trigger] semester_events(classes, config)[k]).start.date.month,
                    semester_events(classes, config)[k].start.date.day,
                ),
            ),
{
    let events = semester_events(classes, config);
    lemma_events_on_teaching_days(classes, config, config.total_days() - 1);
    assert forall|k: int| 0 <= k < events.len() implies !config.vacation_days@.contains(
        ((#[trigger] events[k]).start.date.month, events[k].start.date.day),
    ) by {
        assert(on_teaching_day(config, events[k], config.total_days() - 1));
    }
}

/// The seven days from a Monday that begins a vacation week on hold no
/// meeting, and the number of the week is on each of them what it was on the
/// day before that Monday.
pub proof fn lemma_vacation_week_is_free(
    classes: Seq<ClassModel>,
    config: SemesterConfig,
    n: int,
    k: int,
)
    requires
        config.wf(),
        1 <= n < config.total_days(),
        config.vacation_monday(n),
        0 <= k < 7,
    ensures
        day_events(classes, config, n + k).len() == 0,
        config.week_at(n + k) == config.week_at(n - 1),
{
    lemma_vacation_week(config, n, k);
}

/// The meetings of one class on the first days of a semester, where the class
/// meets in one week only and the semester has a day `n` of that week that
/// falls on the weekday of the class and on which classes meet: none before
/// that day, and one from that day on.
proof fn lemma_single_meeting_until(
    class: ClassModel,
    config: SemesterConfig,
    week: int,
    n: int,
    upto: int,
)
    requires
        config.wf(),
        class.wf(),
        1 <= week <= class.weeks.len(),
        forall|i: int| 0 <= i < class.weeks.len() ==> (class.weeks[i] <==> i == week - 1),
        1 <= n,
        config.year + n < i32::MAX,
        config.year + upto < i32::MAX,
        config.week_at(n) == week,
        config.date_at(n).weekday() == class.day,
        config.teaching_day(n),
    ensures
        events_until(seq![class], config, upto) == if upto < n {
            Seq::<EventModel>::empty()
        } else {
            seq![event_of(class, config.date_at(n))]
        },
    decreases upto,
{
    if upto > 0 {
        lemma_single_meeting_until(class, config, week, n, upto - 1);
        let classes = seq![class];
        let date = config.date_at(upto);
        let today = day_events(classes, config, upto);
        assert(classes.drop_last() == Seq::<ClassModel>::empty());
        assert(classes.last() == class);
        assert(events_of_day(classes.drop_last(), date, config.week_at(upto)) == Seq::<
            EventModel,
        >::empty());
        if upto == n {
            assert(class.meets_in(week));
            assert(today == seq![event_of(class, date)]);
        } else {
            if config.teaching_day(upto) && date.weekday() == class.day {
                lemma_same_weekday_other_week(config, n, upto);
            }
            assert(!(config.teaching_day(upto) && meets_on(
                class,
                config.week_at(upto),
                date.weekday(),
            )));
            assert(today == Seq::<EventModel>::empty());
        }
    }
}

/// A class that meets in one week only has one meeting in a semester: on the
/// day of that week that falls on the weekday of the class, where the
/// semester has such a day and classes meet on it.
pub proof fn lemma_single_meeting(class: ClassModel, config: SemesterConfig, week: int, n: int)
    requires
        config.wf(),
        class.wf(),
        1 <= week <= class.weeks.len(),
        forall|i: int| 0 <= i < class.weeks.len() ==> (class.weeks[i] <==> i == week - 1),
        1 <= n < config.total_days(),
        config.week_at(n) == week,
        config.date_at(n).weekday() == class.day,
        config.teaching_day(n),
    ensures
        semester_events(seq![class], config) == seq![event_of(class, config.date_at(n))],
{
    lemma_semester_length(config);
    lemma_single_meeting_until(class, config, week, n, config.total_days() - 1);
}

} // verus!
