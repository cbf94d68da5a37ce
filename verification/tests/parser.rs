use timetable_ical::error::ParseError;
use timetable_ical::parser::{
    first_error, label_skips_row, parse, parse_class_content, parse_rows, parse_rowspan,
    parse_time_label, Class, ClassTime,
};
use timetable_ical::spans::{advance_spans, resolve_column, RowSpanCell};
use timetable_ical::table::{TableCell, TableRow, TableSource};
use timetable_ical::weeks::{parse_week_token, parse_weeks};

fn chars(s: &str) -> Vec<char> {
    s.chars().collect()
}

fn empty_cell() -> TableCell {
    TableCell { class_bearing: false, rowspan: None, lines: Vec::new() }
}

fn class_cell(span: &str, title: &str, weeks: &str) -> TableCell {
    TableCell {
        class_bearing: true,
        rowspan: Some(span.to_string()),
        lines: vec![
            title.to_string(),
            "Dr. Who".to_string(),
            "Room 101".to_string(),
            weeks.to_string(),
        ],
    }
}

fn row(label: &str, cells: Vec<TableCell>) -> TableRow {
    TableRow { time_label: Some(label.to_string()), cells }
}

fn weeks_with(set: &[usize]) -> [bool; 14] {
    let mut weeks = [false; 14];
    for w in set.iter() {
        weeks[*w - 1] = true;
    }
    weeks
}

fn days_of(classes: &Vec<Class>) -> Vec<(String, usize)> {
    classes.iter().map(|c| (c.title.clone(), c.day)).collect()
}

#[test]
fn week_range_sets_every_week_of_the_range() {
    let weeks = parse_weeks(&chars("3-5"), 0, 0).unwrap();
    assert_eq!(weeks, weeks_with(&[3, 4, 5]));
    assert_eq!(weeks.iter().filter(|w| **w).count(), 5 - 3 + 1);
    let weeks = parse_weeks(&chars("1-14"), 0, 0).unwrap();
    assert_eq!(weeks, [true; 14]);
    let weeks = parse_weeks(&chars("7-7"), 0, 0).unwrap();
    assert_eq!(weeks, weeks_with(&[7]));
}

#[test]
fn every_week_range_has_its_own_bits() {
    for a in 1..=14usize {
        for b in a..=14usize {
            let weeks = parse_weeks(&chars(&format!("{}-{}", a, b)), 0, 0).unwrap();
            for i in 0..14usize {
                assert_eq!(weeks[i], a - 1 <= i && i <= b - 1, "{}-{} at {}", a, b, i);
            }
            assert_eq!(weeks.iter().filter(|w| **w).count(), b - a + 1);
        }
    }
}

#[test]
fn malformed_week_ranges_are_range_errors() {
    for bad in ["5-3", "0-2", "x-2", "2-x", "0", "x", "", "15", "3-15", "1 - 3", "-", "3-"].iter() {
        assert_eq!(
            parse_weeks(&chars(bad), 4, 2),
            Err(ParseError::Range { row: 4, column: 2 }),
            "weeks {:?}",
            bad
        );
    }
}

#[test]
fn week_token_with_two_hyphens_is_a_content_error() {
    assert_eq!(
        parse_week_token(&chars("1-2-3"), 1, 3),
        Err(ParseError::ContentFormat { row: 1, column: 3 })
    );
    assert_eq!(
        parse_weeks(&chars("1, 2-3-4"), 1, 3),
        Err(ParseError::ContentFormat { row: 1, column: 3 })
    );
}

#[test]
fn week_tokens_are_trimmed_and_joined() {
    assert_eq!(parse_week_token(&chars(" 4 "), 0, 0), Ok((4, 4)));
    assert_eq!(parse_week_token(&chars("2-9"), 0, 0), Ok((2, 9)));
    let weeks = parse_weeks(&chars(" 1-3, 5 ,9-10,14 "), 0, 0).unwrap();
    assert_eq!(weeks, weeks_with(&[1, 2, 3, 5, 9, 10, 14]));
    let weeks = parse_weeks(&chars("2-4,3-6"), 0, 0).unwrap();
    assert_eq!(weeks, weeks_with(&[2, 3, 4, 5, 6]));
}

#[test]
fn first_bad_week_token_decides_the_error() {
    assert_eq!(
        parse_weeks(&chars("1-2-3, x"), 0, 1),
        Err(ParseError::ContentFormat { row: 0, column: 1 })
    );
    assert_eq!(
        parse_weeks(&chars("x, 1-2-3"), 0, 1),
        Err(ParseError::Range { row: 0, column: 1 })
    );
}

#[test]
fn time_labels() {
    assert_eq!(parse_time_label("09:00", 0), Ok(ClassTime { hour: 9, half: false }));
    assert_eq!(parse_time_label(" 13:30 ", 0), Ok(ClassTime { hour: 13, half: true }));
    assert_eq!(parse_time_label("0:30", 0), Ok(ClassTime { hour: 0, half: true }));
    assert_eq!(parse_time_label("23:15", 0), Ok(ClassTime { hour: 23, half: false }));
    assert_eq!(parse_time_label("9:+30", 0), Ok(ClassTime { hour: 9, half: false }));
    assert_eq!(parse_time_label("9:030", 0), Ok(ClassTime { hour: 9, half: false }));
    for bad in
        ["9", "9:30:00", "x:30", ":30", "24:00", "", "  ", "9 :30", "9:xx", "9:", "9: 30"].iter()
    {
        assert_eq!(
            parse_time_label(bad, 7),
            Err(ParseError::TimeFormat { row: 7 }),
            "label {:?}",
            bad
        );
    }
}

#[test]
fn class_content_is_read_from_four_lines() {
    let cell = TableCell {
        class_bearing: true,
        rowspan: Some("4".to_string()),
        lines: vec![
            "\n  MTH101, Calculus \n".to_string(),
            " Dr. Ada\nLovelace ".to_string(),
            "SA\n102".to_string(),
            " Week: 1-3, 5 ".to_string(),
        ],
    };
    let class =
        parse_class_content(2, 3, ClassTime { hour: 10, half: true }, 4, &cell).unwrap();
    assert_eq!(class.title, "MTH101, Calculus");
    assert_eq!(class.lecturer, "Dr. AdaLovelace");
    assert_eq!(class.location, "SA102");
    assert_eq!(class.day, 3);
    assert_eq!(class.weeks, weeks_with(&[1, 2, 3, 5]));
    assert_eq!(class.start, ClassTime { hour: 10, half: true });
    assert_eq!(class.len, 4);
}

#[test]
fn class_content_needs_four_lines_and_the_week_prefix() {
    let time = ClassTime { hour: 9, half: false };
    let mut cell = class_cell("2", "Math", "Week: 1");
    cell.lines.pop();
    assert_eq!(
        parse_class_content(1, 2, time, 2, &cell).err(),
        Some(ParseError::ContentFormat { row: 1, column: 2 })
    );
    let mut cell = class_cell("2", "Math", "Week: 1");
    cell.lines.push("more".to_string());
    assert_eq!(
        parse_class_content(1, 2, time, 2, &cell).err(),
        Some(ParseError::ContentFormat { row: 1, column: 2 })
    );
    let cell = class_cell("2", "Math", "Weeks 1");
    assert_eq!(
        parse_class_content(1, 2, time, 2, &cell).err(),
        Some(ParseError::ContentFormat { row: 1, column: 2 })
    );
    let cell = class_cell("2", "Math", "week: 1");
    assert_eq!(
        parse_class_content(1, 2, time, 2, &cell).err(),
        Some(ParseError::ContentFormat { row: 1, column: 2 })
    );
    let cell = class_cell("2", "  \n ", "Week: 1");
    assert_eq!(
        parse_class_content(1, 2, time, 2, &cell).err(),
        Some(ParseError::ContentFormat { row: 1, column: 2 })
    );
    let cell = class_cell("2", "Math", "Week: 1, Week: 2");
    assert_eq!(
        parse_class_content(1, 2, time, 2, &cell).err(),
        Some(ParseError::Range { row: 1, column: 2 })
    );
    let cell = class_cell("2", "Math", "Week:");
    assert_eq!(
        parse_class_content(1, 2, time, 2, &cell).err(),
        Some(ParseError::Range { row: 1, column: 2 })
    );
}

#[test]
fn column_is_index_plus_open_cells_left_of_it() {
    let span = |c: usize| RowSpanCell { cell_index: c, remaining_rows: 2 };
    assert_eq!(resolve_column(&vec![], 0), Some(0));
    assert_eq!(resolve_column(&vec![], 4), Some(4));
    assert_eq!(resolve_column(&vec![], 5), None);
    assert_eq!(resolve_column(&vec![span(0)], 0), Some(1));
    assert_eq!(resolve_column(&vec![span(0)], 1), Some(2));
    assert_eq!(resolve_column(&vec![span(1)], 0), Some(0));
    assert_eq!(resolve_column(&vec![span(1)], 1), Some(2));
    assert_eq!(resolve_column(&vec![span(1), span(2)], 1), Some(3));
    assert_eq!(resolve_column(&vec![span(2), span(1)], 1), Some(3));
    assert_eq!(resolve_column(&vec![span(1), span(0)], 0), Some(2));
    assert_eq!(resolve_column(&vec![span(0), span(1), span(2), span(3)], 0), Some(4));
    assert_eq!(resolve_column(&vec![span(0), span(1), span(2), span(3), span(4)], 0), None);
    assert_eq!(resolve_column(&vec![span(4)], 4), None);
    assert_eq!(resolve_column(&vec![span(3)], 3), Some(4));
}

#[test]
fn column_counts_the_open_cells_up_to_itself() {
    let actives: Vec<Vec<usize>> = vec![
        vec![],
        vec![0],
        vec![1],
        vec![0, 2],
        vec![2, 0],
        vec![1, 2],
        vec![0, 1, 3],
        vec![3, 1, 0],
    ];
    for active in actives.iter() {
        let spans: Vec<RowSpanCell> =
            active.iter().map(|c| RowSpanCell { cell_index: *c, remaining_rows: 1 }).collect();
        let mut free: Vec<usize> = Vec::new();
        for c in 0..5usize {
            if !active.contains(&c) {
                free.push(c);
            }
        }
        for nominal in 0..5usize {
            let column = resolve_column(&spans, nominal);
            assert_eq!(column, free.get(nominal).copied(), "{:?} at {}", active, nominal);
            if let Some(c) = column {
                let left = active.iter().filter(|a| **a <= c).count();
                assert_eq!(c, nominal + left);
            }
        }
    }
}

#[test]
fn open_cells_lose_a_row_with_every_row() {
    let span = |c: usize, rows: usize| RowSpanCell { cell_index: c, remaining_rows: rows };
    let mut active = vec![span(0, 3), span(2, 1), span(4, 2)];
    advance_spans(&mut active, &vec![span(1, 2), span(3, 1)]);
    assert_eq!(active, vec![span(0, 2), span(4, 1), span(1, 1)]);
    advance_spans(&mut active, &vec![]);
    assert_eq!(active, vec![span(0, 1)]);
    advance_spans(&mut active, &vec![span(2, 5)]);
    assert_eq!(active, vec![span(2, 4)]);
}

#[test]
fn spans_shift_the_cells_of_later_rows() {
    let rows = vec![
        row(
            "09:00",
            vec![
                class_cell("4", "A", "Week: 1"),
                empty_cell(),
                class_cell("2", "B", "Week: 1"),
                empty_cell(),
                empty_cell(),
            ],
        ),
        row(
            "09:30",
            vec![class_cell("2", "C", "Week: 1"), class_cell("1", "D", "Week: 1"), empty_cell()],
        ),
        row("10:00", vec![empty_cell(), empty_cell(), class_cell("1", "E", "Week: 1")]),
        row(
            "10:30",
            vec![
                class_cell("1", "F", "Week: 1"),
                empty_cell(),
                empty_cell(),
                class_cell("1", "G", "Week: 1"),
            ],
        ),
        row("11:00", vec![class_cell("1", "H", "Week: 1")]),
    ];
    let classes = parse_rows(&rows).unwrap();
    assert_eq!(
        days_of(&classes),
        vec![
            ("A".to_string(), 0),
            ("B".to_string(), 2),
            ("C".to_string(), 1),
            ("D".to_string(), 3),
            ("E".to_string(), 4),
            ("F".to_string(), 1),
            ("G".to_string(), 4),
            ("H".to_string(), 0),
        ]
    );
    assert_eq!(classes[0].start, ClassTime { hour: 9, half: false });
    assert_eq!(classes[0].len, 4);
    assert_eq!(classes[2].start, ClassTime { hour: 9, half: true });
    assert_eq!(classes[4].start, ClassTime { hour: 10, half: false });
    assert_eq!(classes[7].start, ClassTime { hour: 11, half: false });
}

#[test]
fn open_cells_found_out_of_order_are_all_counted() {
    let rows = vec![
        row("09:00", vec![empty_cell(), class_cell("3", "A", "Week: 1")]),
        row("09:30", vec![class_cell("2", "B", "Week: 1")]),
        row("10:00", vec![class_cell("1", "C", "Week: 1")]),
    ];
    let classes = parse_rows(&rows).unwrap();
    assert_eq!(
        days_of(&classes),
        vec![("A".to_string(), 1), ("B".to_string(), 0), ("C".to_string(), 2)]
    );
}

#[test]
fn rows_without_a_time_label_are_passed_over() {
    let rows = vec![
        TableRow { time_label: None, cells: vec![class_cell("0", "X", "nothing")] },
        row("", vec![class_cell("0", "Y", "nothing")]),
        row("09:00", vec![class_cell("2", "A", "Week: 1")]),
        TableRow { time_label: None, cells: vec![] },
        row("09:30", vec![class_cell("1", "B", "Week: 2")]),
    ];
    let classes = parse_rows(&rows).unwrap();
    assert_eq!(days_of(&classes), vec![("A".to_string(), 0), ("B".to_string(), 1)]);
    assert_eq!(parse_rows(&Vec::new()).unwrap().len(), 0);
}

#[test]
fn grid_errors_name_their_place() {
    let rows = vec![row("09:00", vec![]), row("nine", vec![])];
    assert_eq!(parse_rows(&rows).err(), Some(ParseError::TimeFormat { row: 1 }));
    let rows = vec![row("   ", vec![])];
    assert_eq!(parse_rows(&rows).err(), Some(ParseError::TimeFormat { row: 0 }));

    let rows = vec![row("09:00", vec![empty_cell(), class_cell("0", "A", "Week: 1")])];
    assert_eq!(parse_rows(&rows).err(), Some(ParseError::RowSpan { row: 0, column: 1 }));
    let rows = vec![row("09:00", vec![class_cell("two", "A", "Week: 1")])];
    assert_eq!(parse_rows(&rows).err(), Some(ParseError::RowSpan { row: 0, column: 0 }));
    let rows = vec![row("09:00", vec![class_cell("", "A", "Week: 1")])];
    assert_eq!(parse_rows(&rows).err(), Some(ParseError::RowSpan { row: 0, column: 0 }));
    let rows = vec![row("09:00", vec![class_cell("-1", "A", "Week: 1")])];
    assert_eq!(parse_rows(&rows).err(), Some(ParseError::RowSpan { row: 0, column: 0 }));

    let rows = vec![
        row("09:00", vec![class_cell("2", "A", "Week: 1")]),
        row("09:30", vec![empty_cell(), class_cell("2", "B", "Week: 9-8")]),
    ];
    assert_eq!(parse_rows(&rows).err(), Some(ParseError::Range { row: 1, column: 2 }));
    let rows = vec![row("09:00", vec![class_cell("2", "A", "1-2")])];
    assert_eq!(parse_rows(&rows).err(), Some(ParseError::ContentFormat { row: 0, column: 0 }));

    let rows = vec![row(
        "09:00",
        vec![
            empty_cell(),
            empty_cell(),
            empty_cell(),
            empty_cell(),
            empty_cell(),
            class_cell("2", "A", "Week: 1"),
        ],
    )];
    assert_eq!(parse_rows(&rows).err(), Some(ParseError::Structure { row: 0, cell: 5 }));
}

#[test]
fn a_cell_may_cover_any_number_of_rows() {
    for span in ["1", "48", "49", "1000", "+7", "4294967295"].iter() {
        let rows = vec![
            row("09:00", vec![class_cell(span, "A", "Week: 1")]),
            row("09:30", vec![class_cell("1", "B", "Week: 1")]),
        ];
        let classes = parse_rows(&rows).unwrap();
        assert_eq!(classes[0].len, span.parse::<usize>().unwrap());
        assert!(classes[0].is_valid());
        assert_eq!(classes[1].day, if classes[0].len > 1 { 1 } else { 0 });
    }
}

#[test]
fn rows_are_passed_over_by_their_label() {
    assert!(label_skips_row(&None));
    assert!(label_skips_row(&Some("".to_string())));
    assert!(!label_skips_row(&Some(" ".to_string())));
    assert!(!label_skips_row(&Some("09:00".to_string())));
    assert_eq!(parse_rowspan(&None), 1);
    assert_eq!(parse_rowspan(&Some("3".to_string())), 3);
    assert_eq!(parse_rowspan(&Some("0".to_string())), 0);
    assert_eq!(parse_rowspan(&Some("three".to_string())), 0);
    assert_eq!(parse_rowspan(&Some(" 3".to_string())), 0);
}

#[test]
fn an_error_in_what_was_read_comes_before_a_failure_of_the_page() {
    let failure = "Invalid row 2".to_string();
    let good = vec![row("09:00", vec![class_cell("2", "A", "Week: 1")])];
    assert_eq!(first_error(&good, failure.clone()), "Invalid row 2");
    assert_eq!(first_error(&Vec::new(), failure.clone()), "Invalid row 2");
    let bad = vec![
        row("09:00", vec![class_cell("2", "A", "Week: 1")]),
        row("half past", vec![]),
    ];
    assert_eq!(first_error(&bad, failure.clone()), "Invalid time at row 1");
    let bad = vec![row("09:00", vec![empty_cell(), class_cell("2", "A", "Week: 0")])];
    assert_eq!(first_error(&bad, failure), "Invalid week string at 0:1");
}

#[test]
fn a_cell_without_row_span_covers_one_row() {
    let mut cell = class_cell("2", "A", "Week: 1");
    cell.rowspan = None;
    let rows = vec![
        row("09:00", vec![cell]),
        row("09:30", vec![class_cell("1", "B", "Week: 1")]),
    ];
    let classes = parse_rows(&rows).unwrap();
    assert_eq!(classes[0].len, 1);
    assert_eq!(days_of(&classes), vec![("A".to_string(), 0), ("B".to_string(), 0)]);
}

#[test]
fn the_first_error_wins_and_no_class_is_returned() {
    let rows = vec![
        row("09:00", vec![class_cell("2", "A", "Week: 1"), class_cell("0", "B", "Week: x")]),
        row("bad", vec![]),
    ];
    assert_eq!(parse_rows(&rows).err(), Some(ParseError::RowSpan { row: 0, column: 1 }));
    let rows = vec![
        row("09:00", vec![class_cell("2", "A", "Week: x"), class_cell("0", "B", "Week: 1")]),
    ];
    assert_eq!(parse_rows(&rows).err(), Some(ParseError::Range { row: 0, column: 0 }));
}

#[test]
fn page_without_timetable_is_an_error() {
    let source = TableSource { rows: None };
    assert_eq!(parse(&source).err(), Some(ParseError::MissingTable));
    let source = TableSource { rows: Some(Vec::new()) };
    assert_eq!(parse(&source).unwrap().len(), 0);
    let source =
        TableSource { rows: Some(vec![row("09:00", vec![class_cell("2", "A", "Week: 1")])]) };
    assert_eq!(parse(&source).unwrap().len(), 1);
}

#[test]
fn parsed_classes_are_valid() {
    let rows = vec![
        row("23:30", vec![class_cell("48", "A", "Week: 14")]),
        row(
            "00:00",
            vec![empty_cell(), empty_cell(), empty_cell(), class_cell("1", "B", "Week: 1")],
        ),
    ];
    let classes = parse_rows(&rows).unwrap();
    assert_eq!(classes.len(), 2);
    for class in classes.iter() {
        assert!(class.is_valid());
    }
    assert_eq!(classes[1].day, 4);
}

fn sample(day: usize, hour: usize, len: usize) -> Class {
    Class {
        title: "A".to_string(),
        lecturer: "B".to_string(),
        location: "C".to_string(),
        day,
        weeks: [false; 14],
        start: ClassTime { hour, half: true },
        len,
    }
}

#[test]
fn validity_of_classes() {
    assert!(sample(4, 23, 48).is_valid());
    assert!(sample(0, 0, 1).is_valid());
    assert!(sample(4, 23, 49).is_valid());
    assert!(sample(4, 23, usize::MAX).is_valid());
    assert!(!sample(5, 23, 48).is_valid());
    assert!(!sample(4, 24, 48).is_valid());
    assert!(!sample(4, 23, 0).is_valid());
}

#[test]
fn messages_of_errors() {
    assert_eq!(ParseError::MissingTable.message(), "failed to find the timetable");
    assert_eq!(ParseError::Structure { row: 3, cell: 12 }.message(), "Invalid column 3:12");
    assert_eq!(ParseError::TimeFormat { row: 10 }.message(), "Invalid time at row 10");
    assert_eq!(ParseError::RowSpan { row: 0, column: 4 }.message(), "Invalid class at 0:4");
    assert_eq!(
        ParseError::ContentFormat { row: 21, column: 0 }.message(),
        "Information corrupted at 21:0"
    );
    assert_eq!(ParseError::Range { row: 5, column: 2 }.message(), "Invalid week string at 5:2");
}
