//! The events of a calendar and the text of a calendar file, and the way from
//! the classes of a timetable to the events of a semester.

use crate::calendar::{
    day_count, format_stamp, lemma_later, lemma_number_bounds, lemma_plus,
    lemma_year_of_earlier, next_date, stamp_text, time_after, weekday_of, Date, LocalTime,
    LAST_DAY_NUMBER,
};
use crate::parser::{all_wf, classes_of, Class};
use crate::schedule::{
    event_fits, event_of, events_of_day, events_until, fits_until, meets_at, semester_events,
    semester_fits,
};
use crate::semester::SemesterConfig;
use crate::text::{
    append_chars, append_str, from_chars, is_space, leading_spaces, lemma_split_text,
    lemma_trim_text, lemma_trim_unspaced, pieces_of, split_chars, split_text, to_chars,
    trim_chars, trim_text,
};
use crate::weeks::WEEK_COUNT;
use vstd::prelude::*;

verus! {

/// `s` with a backslash before each comma.
pub open spec fn escape_text(s: Seq<char>) -> Seq<char>
    decreases s.len(),
{
    if s.len() == 0 {
        Seq::empty()
    } else if s.last() == ',' {
        escape_text(s.drop_last()).push('\\').push(',')
    } else {
        escape_text(s.drop_last()).push(s.last())
    }
}

/// Puts a backslash before each comma of `s`, and changes nothing else.
pub fn escape(s: &str) -> (escaped: String)
    ensures
        escaped@ == escape_text(s@),
{
    let chars = to_chars(s);
    let mut out: Vec<char> = Vec::new();
    let mut i: usize = 0;
    while i < chars.len()
        invariant
            i <= chars.len(),
            out@ == escape_text(chars@.take(i as int)),
        decreases chars.len() - i,
    {
        proof {
            assert(chars@.take(i + 1).drop_last() == chars@.take(i as int));
        }
        if chars[i] == ',' {
            out.push('\\');
        }
        out.push(chars[i]);
        i += 1;
    }
    proof {
        assert(chars@.take(chars.len() as int) == chars@);
    }
    from_chars(&out)
}

/// `s` with each backslash that stands before a comma taken out.
pub open spec fn unescape_text(s: Seq<char>) -> Seq<char>
    decreases s.len(),
{
    if s.len() == 0 {
        Seq::empty()
    } else if s.len() >= 2 && s.last() == ',' && s[s.len() - 2] == '\\' {
        unescape_text(s.drop_last().drop_last()).push(',')
    } else {
        unescape_text(s.drop_last()).push(s.last())
    }
}

/// The number of commas in `s`.
pub open spec fn comma_count(s: Seq<char>) -> nat
    decreases s.len(),
{
    if s.len() == 0 {
        0
    } else if s.last() == ',' {
        comma_count(s.drop_last()) + 1
    } else {
        comma_count(s.drop_last())
    }
}

/// Escaping works piece by piece: a text made of two pieces is escaped by
/// escaping each piece.
pub proof fn lemma_escape_concat(first: Seq<char>, second: Seq<char>)
    ensures
        escape_text(first + second) == escape_text(first) + escape_text(second),
    decreases second.len(),
{
    if second.len() == 0 {
        assert(first + second == first);
    } else {
        lemma_escape_concat(first, second.drop_last());
        assert((first + second).drop_last() == first + second.drop_last());
    }
}

/// Escaping changes commas only: a text without a comma stays as it is, and a
/// comma becomes a backslash and a comma.
pub proof fn lemma_escape_plain(s: Seq<char>)
    ensures
        comma_count(s) == 0 ==> escape_text(s) == s,
        escape_text(seq![',']) == seq!['\\', ','],
        escape_text(s).len() == s.len() + comma_count(s),
    decreases s.len(),
{
    if s.len() > 0 {
        lemma_escape_plain(s.drop_last());
        if comma_count(s) == 0 {
            assert(s.drop_last().push(s.last()) == s);
        }
    }
    assert(seq![','].drop_last() == Seq::<char>::empty());
    assert(escape_text(Seq::<char>::empty()) == Seq::<char>::empty());
    assert(escape_text(seq![',']) == seq!['\\', ',']);
}

/// In an escaped text every comma stands behind a backslash, and taking
/// those backslashes out gives the text back.
pub proof fn lemma_escape_commas(s: Seq<char>)
    ensures
        forall|i: int|
            0 <= i < escape_text(s).len() && #[trigger] escape_text(s)[i] == ',' ==> i > 0
                && escape_text(s)[i - 1] == '\\',
        unescape_text(escape_text(s)) == s,
    decreases s.len(),
{
    if s.len() > 0 {
        let before = escape_text(s.drop_last());
        lemma_escape_commas(s.drop_last());
        if s.last() == ',' {
            let all = before.push('\\').push(',');
            assert(all.drop_last().drop_last() == before);
        } else {
            let all = before.push(s.last());
            assert(all.drop_last() == before);
        }
        assert(s.drop_last().push(s.last()) == s);
    }
}

/// A line as it stands in a tidy text: nothing for a line of white space
/// only, else the line without the white space at its ends, and a line break.
pub open spec fn tidy_line(line: Seq<char>) -> Seq<char> {
    if trim_text(line).len() == 0 {
        Seq::empty()
    } else {
        trim_text(line).push('\n')
    }
}

/// The given lines, each made tidy, one after the other.
pub open spec fn tidy_lines(lines: Seq<Seq<char>>) -> Seq<char>
    decreases lines.len(),
{
    if lines.len() == 0 {
        Seq::empty()
    } else {
        tidy_lines(lines.drop_last()) + tidy_line(lines.last())
    }
}

/// `s` with every line trimmed and ended by a line break, and without the
/// lines that hold nothing but white space.
pub open spec fn tidy_text(s: Seq<char>) -> Seq<char> {
    tidy_lines(split_text(s, '\n'))
}

/// The lines that stay in a tidy text: those that hold more than white space,
/// each without the white space at its ends.
pub open spec fn kept_lines(lines: Seq<Seq<char>>) -> Seq<Seq<char>>
    decreases lines.len(),
{
    if lines.len() == 0 {
        Seq::empty()
    } else if trim_text(lines.last()).len() == 0 {
        kept_lines(lines.drop_last())
    } else {
        kept_lines(lines.drop_last()).push(trim_text(lines.last()))
    }
}

/// The text of the given lines, each ended by a line break.
pub open spec fn lines_text(lines: Seq<Seq<char>>) -> Seq<char>
    decreases lines.len(),
{
    if lines.len() == 0 {
        Seq::empty()
    } else {
        lines_text(lines.drop_last()) + lines.last().push('\n')
    }
}

/// Whether a line is tidy: it holds something, neither begins nor ends with
/// white space, and holds no line break.
pub open spec fn is_tidy_line(line: Seq<char>) -> bool {
    &&& line.len() > 0
    &&& !is_space(line[0])
    &&& !is_space(line.last())
    &&& forall|i: int| 0 <= i < line.len() ==> #[trigger] line[i] != '\n'
}

/// Whether every line of the list is tidy.
pub open spec fn all_tidy(lines: Seq<Seq<char>>) -> bool {
    forall|k: int| 0 <= k < lines.len() ==> is_tidy_line(#[trigger] lines[k])
}

/// The tidy form of some lines is the text of the lines that stay.
proof fn lemma_tidy_lines(lines: Seq<Seq<char>>)
    ensures
        tidy_lines(lines) == lines_text(kept_lines(lines)),
    decreases lines.len(),
{
    if lines.len() > 0 {
        lemma_tidy_lines(lines.drop_last());
        let kept = kept_lines(lines.drop_last());
        let line = trim_text(lines.last());
        if line.len() == 0 {
            assert(tidy_lines(lines.drop_last()) + Seq::<char>::empty() == tidy_lines(
                lines.drop_last(),
            ));
        } else {
            assert(kept.push(line).drop_last() == kept);
        }
    }
}

/// Of lines without a line break, the lines that stay are tidy.
proof fn lemma_kept_lines_tidy(lines: Seq<Seq<char>>)
    requires
        forall|k: int, i: int|
            0 <= k < lines.len() && 0 <= i < lines[k].len() ==> #[trigger] lines[k][i] != '\n',
    ensures
        all_tidy(kept_lines(lines)),
    decreases lines.len(),
{
    if lines.len() > 0 {
        let before = lines.drop_last();
        assert forall|k: int, i: int|
            0 <= k < before.len() && 0 <= i < before[k].len() implies #[trigger] before[k][i]
            != '\n' by {
            assert(before[k] == lines[k]);
        }
        lemma_kept_lines_tidy(before);
        let raw = lines.last();
        let line = trim_text(raw);
        if line.len() > 0 {
            lemma_trim_text(raw);
            assert forall|i: int| 0 <= i < line.len() implies #[trigger] line[i] != '\n' by {
                assert(line[i] == raw[i + leading_spaces(raw)]);
                assert(raw == lines[lines.len() - 1]);
            }
            assert(is_tidy_line(line));
            let kept = kept_lines(lines);
            assert forall|k: int| 0 <= k < kept.len() implies is_tidy_line(#[trigger] kept[k]) by {
                if k < kept.len() - 1 {
                    assert(kept[k] == kept_lines(before)[k]);
                }
            }
        }
    }
}

/// A text with a piece without separator added falls into the pieces of the
/// text, the last of them with the added piece behind it.
proof fn lemma_split_append(text: Seq<char>, piece: Seq<char>, sep: char)
    requires
        forall|i: int| 0 <= i < piece.len() ==> piece[i] != sep,
    ensures
        split_text(text, sep).len() >= 1,
        split_text(text + piece, sep) == split_text(text, sep).update(
            split_text(text, sep).len() - 1,
            split_text(text, sep).last() + piece,
        ),
    decreases piece.len(),
{
    lemma_split_text(text, sep);
    let pieces = split_text(text, sep);
    if piece.len() == 0 {
        assert(text + piece == text);
        assert(pieces.last() + piece == pieces.last());
        assert(pieces.update(pieces.len() - 1, pieces.last()) == pieces);
    } else {
        lemma_split_append(text, piece.drop_last(), sep);
        assert((text + piece).drop_last() == text + piece.drop_last());
        assert((pieces.last() + piece.drop_last()).push(piece.last()) == pieces.last() + piece);
        let shorter = pieces.update(pieces.len() - 1, pieces.last() + piece.drop_last());
        assert(shorter.update(shorter.len() - 1, shorter.last().push(piece.last()))
            == pieces.update(pieces.len() - 1, pieces.last() + piece));
    }
}

/// The text of lines without a line break falls into those lines again, and
/// an empty piece behind the last line break.
proof fn lemma_split_lines_text(lines: Seq<Seq<char>>)
    requires
        all_tidy(lines),
    ensures
        split_text(lines_text(lines), '\n') == lines.push(Seq::<char>::empty()),
    decreases lines.len(),
{
    if lines.len() == 0 {
        assert(lines.push(Seq::<char>::empty()) == seq![Seq::<char>::empty()]);
    } else {
        let before = lines.drop_last();
        let line = lines.last();
        assert(is_tidy_line(lines[lines.len() - 1]));
        assert forall|k: int| 0 <= k < before.len() implies is_tidy_line(#[trigger] before[k]) by {
            assert(before[k] == lines[k]);
        }
        lemma_split_lines_text(before);
        lemma_split_append(lines_text(before), line, '\n');
        let text = lines_text(before) + line;
        let pieces = split_text(text, '\n');
        assert(Seq::<char>::empty() + line == line);
        assert(pieces == before.push(line));
        assert(before.push(line) == lines);
        assert(lines_text(lines) == text.push('\n'));
        assert(text.push('\n').drop_last() == text);
    }
}

/// Tidy lines, with an empty line behind them, all stay as they are, but for
/// the empty line.
proof fn lemma_tidy_lines_stay(lines: Seq<Seq<char>>)
    requires
        all_tidy(lines),
    ensures
        kept_lines(lines) == lines,
        kept_lines(lines.push(Seq::<char>::empty())) == lines,
    decreases lines.len(),
{
    let longer = lines.push(Seq::<char>::empty());
    assert(longer.drop_last() == lines);
    assert(trim_text(Seq::<char>::empty()).len() == 0);
    if lines.len() > 0 {
        let before = lines.drop_last();
        assert(is_tidy_line(lines[lines.len() - 1]));
        assert forall|k: int| 0 <= k < before.len() implies is_tidy_line(#[trigger] before[k]) by {
            assert(before[k] == lines[k]);
        }
        lemma_tidy_lines_stay(before);
        lemma_trim_unspaced(lines.last());
        assert(before.push(lines.last()) == lines);
    }
}

/// A tidy text is made of the lines that stay, each ended by a line break;
/// and each of those lines holds something, and neither begins nor ends with
/// white space.
pub proof fn lemma_tidy_text(s: Seq<char>)
    ensures
        tidy_text(s) == lines_text(kept_lines(split_text(s, '\n'))),
        all_tidy(kept_lines(split_text(s, '\n'))),
        split_text(tidy_text(s), '\n') == kept_lines(split_text(s, '\n')).push(
            Seq::<char>::empty(),
        ),
{
    let lines = split_text(s, '\n');
    lemma_tidy_lines(lines);
    lemma_split_text(s, '\n');
    lemma_kept_lines_tidy(lines);
    lemma_split_lines_text(kept_lines(lines));
}

/// Tidying is stable: a tidy text stays as it is when it is made tidy again.
pub proof fn lemma_tidy_twice(s: Seq<char>)
    ensures
        tidy_text(tidy_text(s)) == tidy_text(s),
{
    let kept = kept_lines(split_text(s, '\n'));
    lemma_tidy_text(s);
    lemma_tidy_lines(kept.push(Seq::<char>::empty()));
    lemma_tidy_lines_stay(kept);
}

/// Trims every line of `s`, drops the lines that are then empty, and ends
/// each line that is left with a line break.
pub fn trim_all_lines(s: String) -> (tidy: String)
    ensures
        tidy@ == tidy_text(s@),
{
    let chars = to_chars(s.as_str());
    let tidy = tidy_chars(&chars);
    from_chars(&tidy)
}

/// The tidy form of a text, on characters.
fn tidy_chars(chars: &Vec<char>) -> (tidy: Vec<char>)
    ensures
        tidy@ == tidy_text(chars@),
{
    let lines = split_chars(chars, '\n');
    let mut out: Vec<char> = Vec::new();
    let mut i: usize = 0;
    while i < lines.len()
        invariant
            i <= lines.len(),
            out@ == tidy_lines(pieces_of(lines@).take(i as int)),
        decreases lines.len() - i,
    {
        proof {
            assert(pieces_of(lines@).take(i + 1).drop_last() == pieces_of(lines@).take(i as int));
            assert(pieces_of(lines@).take(i + 1).last() == lines@[i as int]@);
        }
        let line = trim_chars(&lines[i]);
        if line.len() > 0 {
            append_chars(&mut out, &line);
            out.push('\n');
        }
        i += 1;
    }
    proof {
        assert(pieces_of(lines@).take(lines.len() as int) == pieces_of(lines@));
    }
    out
}

/// What can be written into a calendar file.
pub trait ICalElement {
    /// Whether the element holds what a calendar file can take.
    spec fn well_formed(&self) -> bool;

    /// The text of the element in a calendar file.
    spec fn serialized(&self) -> Seq<char>;

    /// Writes the element as the text of a calendar file.
    fn serialize(&self) -> (text: String)
        requires
            self.well_formed(),
        ensures
            text@ == self.serialized(),
    ;
}

/// One meeting of a class: what an `ICalEvent` holds, as plain mathematical
/// values.
pub struct EventModel {
    pub summary: Seq<char>,
    pub start: LocalTime,
    pub end: LocalTime,
    pub location: Seq<char>,
    pub description: Seq<char>,
}

impl EventModel {
    /// Whether both times of the event exist.
    pub open spec fn wf(self) -> bool {
        self.start.wf() && self.end.wf()
    }
}

/// The text of an event in a calendar file: its fields line by line, the
/// free text with its commas escaped, between the lines that open and close
/// an event.
pub open spec fn event_text(event: EventModel) -> Seq<char> {
    "BEGIN:VEVENT\nSUMMARY:"@ + escape_text(event.summary) + "\nDTSTART;TZID=Asia/Shanghai:"@
        + stamp_text(event.start) + "\nDTEND;TZID=Asia/Shanghai:"@ + stamp_text(event.end)
        + "\nLOCATION:"@ + escape_text(event.location) + "\nDESCRIPTION:"@ + escape_text(
        event.description,
    ) + "\nEND:VEVENT\n"@
}

/// The texts of the given events, one after the other.
pub open spec fn events_text(events: Seq<EventModel>) -> Seq<char>
    decreases events.len(),
{
    if events.len() == 0 {
        Seq::empty()
    } else {
        events_text(events.drop_last()) + event_text(events.last())
    }
}

/// The text of a calendar file with the given events: the opening lines, the
/// events in order and the closing line, all of it tidy.
pub open spec fn calendar_text(events: Seq<EventModel>) -> Seq<char> {
    tidy_text(
        "BEGIN:VCALENDAR\nVERSION:2.0\nCALSCALE:GREGORIAN\n"@ + events_text(events)
            + "END:VCALENDAR\n"@,
    )
}

/// One meeting of a class, with its place in time.
#[derive(Debug)]
pub struct ICalEvent {
    summary: String,
    start: LocalTime,
    end: LocalTime,
    location: String,
    description: String,
}

impl View for ICalEvent {
    type V = EventModel;

    closed spec fn view(&self) -> EventModel {
        EventModel {
            summary: self.summary@,
            start: self.start,
            end: self.end,
            location: self.location@,
            description: self.description@,
        }
    }
}

impl ICalEvent {
    /// An event with the given fields.
    pub fn new(
        summary: String,
        start: LocalTime,
        end: LocalTime,
        location: String,
        description: String,
    ) -> (event: ICalEvent)
        ensures
            event@ == (EventModel {
                summary: summary@,
                start,
                end,
                location: location@,
                description: description@,
            }),
    {
        ICalEvent { summary, start, end, location, description }
    }

    /// The time at which the event begins.
    pub fn start(&self) -> (time: LocalTime)
        ensures
            time == self@.start,
    {
        self.start
    }

    /// The time at which the event ends.
    pub fn end(&self) -> (time: LocalTime)
        ensures
            time == self@.end,
    {
        self.end
    }

    /// Appends the text of the event to `out`.
    fn write_to(&self, out: &mut Vec<char>)
        requires
            self@.wf(),
        ensures
            final(out)@ == old(out)@ + event_text(self@),
    {
        let summary = escape(self.summary.as_str());
        let start = format_utc8_str(&self.start);
        let end = format_utc8_str(&self.end);
        let location = escape(self.location.as_str());
        let description = escape(self.description.as_str());
        let mut text = to_chars("BEGIN:VEVENT\nSUMMARY:");
        append_str(&mut text, summary.as_str());
        append_str(&mut text, "\nDTSTART;TZID=Asia/Shanghai:");
        append_str(&mut text, start.as_str());
        append_str(&mut text, "\nDTEND;TZID=Asia/Shanghai:");
        append_str(&mut text, end.as_str());
        append_str(&mut text, "\nLOCATION:");
        append_str(&mut text, location.as_str());
        append_str(&mut text, "\nDESCRIPTION:");
        append_str(&mut text, description.as_str());
        append_str(&mut text, "\nEND:VEVENT\n");
        append_chars(out, &text);
    }
}

impl ICalElement for ICalEvent {
    open spec fn well_formed(&self) -> bool {
        self@.wf()
    }

    open spec fn serialized(&self) -> Seq<char> {
        event_text(self@)
    }

    fn serialize(&self) -> (text: String) {
        let mut out: Vec<char> = Vec::new();
        self.write_to(&mut out);
        from_chars(&out)
    }
}

/// Seconds that the clock of the calendar runs ahead of UTC: eight hours.
pub fn offset_utc8() -> (seconds: i32)
    ensures
        seconds == 8 * 3600,
{
    28800
}

/// The time as a calendar file writes it, on the clock eight hours ahead of
/// UTC.
pub fn format_utc8_str(time: &LocalTime) -> (text: String)
    requires
        time.wf(),
    ensures
        text@ == stamp_text(*time),
{
    format_stamp(time)
}

/// The events of one calendar file, in the order in which they were added.
#[derive(Debug)]
pub struct ICalBuilder {
    elements: Vec<ICalEvent>,
}

/// The models of a list of events.
pub open spec fn events_of(events: Seq<ICalEvent>) -> Seq<EventModel> {
    events.map_values(|e: ICalEvent| e@)
}

/// Whether every event of the list has times that exist.
pub open spec fn all_events_wf(events: Seq<EventModel>) -> bool {
    forall|i: int| 0 <= i < events.len() ==> (#[trigger] events[i]).wf()
}

impl View for ICalBuilder {
    type V = Seq<EventModel>;

    closed spec fn view(&self) -> Seq<EventModel> {
        events_of(self.elements@)
    }
}

impl ICalBuilder {
    /// A calendar without events.
    pub fn new() -> (builder: ICalBuilder)
        ensures
            builder@ == Seq::<EventModel>::empty(),
    {
        ICalBuilder { elements: Vec::new() }
    }

    /// Adds an event after those that the calendar holds.
    pub fn add(&mut self, elem: ICalEvent)
        ensures
            final(self)@ == old(self)@.push(elem@),
    {
        self.elements.push(elem);
        proof {
            assert(events_of(self.elements@) == events_of(old(self).elements@).push(elem@));
        }
    }

    /// The number of events.
    pub fn len(&self) -> (n: usize)
        ensures
            n == self@.len(),
    {
        self.elements.len()
    }

    /// The events, in order.
    pub fn events(&self) -> (events: &Vec<ICalEvent>)
        ensures
            events_of(events@) == self@,
    {
        &self.elements
    }
}

impl ICalElement for ICalBuilder {
    open spec fn well_formed(&self) -> bool {
        all_events_wf(self@)
    }

    open spec fn serialized(&self) -> Seq<char> {
        calendar_text(self@)
    }

    fn serialize(&self) -> (text: String) {
        let ghost events = self@;
        let mut body: Vec<char> = Vec::new();
        let mut i: usize = 0;
        while i < self.elements.len()
            invariant
                i <= self.elements.len(),
                events == events_of(self.elements@),
                all_events_wf(events),
                body@ == events_text(events.take(i as int)),
            decreases self.elements.len() - i,
        {
            proof {
                assert(events[i as int].wf());
                assert(events.take(i + 1).drop_last() == events.take(i as int));
            }
            self.elements[i].write_to(&mut body);
            i += 1;
        }
        proof {
            assert(events.take(self.elements.len() as int) == events);
        }
        let mut out = to_chars("BEGIN:VCALENDAR\nVERSION:2.0\nCALSCALE:GREGORIAN\n");
        append_chars(&mut out, &body);
        append_str(&mut out, "END:VCALENDAR\n");
        let tidy = tidy_chars(&out);
        from_chars(&tidy)
    }
}

/// Whether the list names the given day.
fn names_day(days: &Vec<(u32, u32)>, month: u32, day: u32) -> (found: bool)
    ensures
        found == days@.contains((month, day)),
{
    let mut i: usize = 0;
    while i < days.len()
        invariant
            i <= days.len(),
            forall|k: int| 0 <= k < i ==> days@[k] != (month, day),
        decreases days.len() - i,
    {
        if days[i].0 == month && days[i].1 == day {
            return true;
        }
        i += 1;
    }
    false
}

/// The meeting of a class on a day, as an event; `None` where the meeting
/// ends after the years that four digits write.
fn make_event(class: &Class, date: Date) -> (event: Option<ICalEvent>)
    requires
        class.wf(),
        date.wf(),
    ensures
        match event {
            Some(e) => event_fits(class@, date) && e@ == event_of(class@, date) && e@.wf(),
            None => !event_fits(class@, date),
        },
{
    let min: u32 = if class.start.half {
        30
    } else {
        0
    };
    let start = LocalTime { date, hour: class.start.hour as u32, minute: min, second: 0 };
    proof {
        lemma_number_bounds(date);
    }
    if class.len / 48 > LAST_DAY_NUMBER as usize {
        return None;
    }
    let minutes: u64 = class.len as u64 * 30;
    if !start.reaches(minutes) {
        return None;
    }
    let end = time_after(start, minutes);
    proof {
        lemma_later(start, minutes as int);
    }
    let mut description: Vec<char> = Vec::new();
    append_str(&mut description, "by ");
    append_str(&mut description, class.lecturer.as_str());
    Some(
        ICalEvent::new(
            class.title.clone(),
            start,
            end,
            class.location.clone(),
            from_chars(&description),
        ),
    )
}

/// Lays the classes of a timetable over the days of a semester, if a calendar
/// file can hold every meeting. Each class meets on its weekday in each of
/// its weeks, but on no vacation day and in no vacation week. The events come
/// day by day, and within a day in the order of the classes. The result is
/// `None` where a meeting ends after the years that four digits write.
pub fn try_classes_to_ical(classes: &[Class], config: &SemesterConfig) -> (builder: Option<
    ICalBuilder,
>)
    requires
        config.wf(),
        all_wf(classes_of(classes@)),
    ensures
        match builder {
            Some(b) => semester_fits(classes_of(classes@), *config) && b@ == semester_events(
                classes_of(classes@),
                *config,
            ) && b.well_formed(),
            None => !semester_fits(classes_of(classes@), *config),
        },
{
    let mut builder = ICalBuilder::new();
    let start = config.first_date();
    let end = config.last_date();
    proof {
        lemma_number_bounds(start);
        lemma_number_bounds(end);
    }
    let total: i32 = day_count(end) - day_count(start);
    let ghost models = classes_of(classes@);
    let mut current_date = start;
    let mut current_week: usize = 0;
    let mut in_vacation = false;
    let mut n: i32 = 0;
    while n < total - 1
        invariant
            config.wf(),
            all_wf(models),
            models == classes_of(classes@),
            start == config.start_date(),
            end == config.end_date(),
            total == config.total_days(),
            -LAST_DAY_NUMBER <= total <= LAST_DAY_NUMBER,
            0 <= n,
            n < total || n == 0,
            current_date == config.date_at(n as int),
            current_date.wf(),
            current_week == config.week_at(n as int),
            current_week <= n,
            in_vacation == config.in_vacation_week(n as int),
            builder@ == events_until(models, *config, n as int),
            all_events_wf(builder@),
            fits_until(models, *config, n as int),
        decreases total - n,
    {
        proof {
            lemma_plus(start, n as int);
            lemma_plus(start, n + 1);
            lemma_year_of_earlier(config.date_at(n + 1), end);
        }
        current_date = next_date(current_date);
        n += 1;
        let day = weekday_of(current_date);
        if day == 0 {
            in_vacation = names_day(&config.vacation_weeks, current_date.month, current_date.day);
            if !in_vacation {
                current_week += 1;
            }
        }
        let ghost before = builder@;
        if !in_vacation && !names_day(
            &config.vacation_days,
            current_date.month,
            current_date.day,
        ) {
            let mut k: usize = 0;
            while k < classes.len()
                invariant
                    k <= classes.len(),
                    all_wf(models),
                    models == classes_of(classes@),
                    1 <= n < config.total_days(),
                    config.teaching_day(n as int),
                    current_date == config.date_at(n as int),
                    current_week == config.week_at(n as int),
                    current_date.wf(),
                    day == current_date.weekday(),
                    builder@ == before + events_of_day(
                        models.take(k as int),
                        current_date,
                        current_week as int,
                    ),
                    all_events_wf(builder@),
                    fits_until(models, *config, n - 1),
                    forall|j: int|
                        0 <= j < k && #[trigger] meets_at(models, *config, n as int, j)
                            ==> event_fits(models[j], current_date),
                decreases classes.len() - k,
            {
                let class = &classes[k];
                proof {
                    assert(models.take(k + 1).drop_last() == models.take(k as int));
                    assert(models.take(k + 1).last() == class@);
                    assert(models[k as int].wf());
                }
                if 1 <= current_week && current_week <= WEEK_COUNT && class.weeks[current_week - 1]
                    && class.day == day as usize {
                    match make_event(class, current_date) {
                        Some(event) => {
                            builder.add(event);
                        },
                        None => {
                            proof {
                                assert(meets_at(models, *config, n as int, k as int));
                            }
                            return None;
                        },
                    }
                }
                k += 1;
            }
            proof {
                assert(models.take(classes.len() as int) == models);
            }
        }
        proof {
            assert forall|m: int, j: int|
                m <= n && #[trigger] meets_at(models, *config, m, j) implies event_fits(
                models[j],
                config.date_at(m),
            ) by {
                if m < n {
                    assert(m <= n - 1);
                }
            }
        }
    }
    Some(builder)
}

/// Lays the classes of a timetable over the days of a semester. Each class
/// meets on its weekday in each of its weeks, but on no vacation day and in
/// no vacation week. The events come day by day, and within a day in the
/// order of the classes.
pub fn classes_to_ical(classes: &[Class], config: &SemesterConfig) -> (builder: ICalBuilder)
    requires
        config.wf(),
        all_wf(classes_of(classes@)),
        semester_fits(classes_of(classes@), *config),
    ensures
        builder@ == semester_events(classes_of(classes@), *config),
        builder.well_formed(),
{
    try_classes_to_ical(classes, config).unwrap()
}

} // verus!
