use timetable_ical::text::{
    append_chars, append_str, from_chars, is_digit_char, is_space_char, parse_number,
    push_decimal, remove_char, same_chars, skip_chars, split_chars, starts_with_chars, to_chars,
    trim_chars,
};

fn chars(s: &str) -> Vec<char> {
    s.chars().collect()
}

fn text(v: &Vec<char>) -> String {
    v.iter().collect()
}

#[test]
fn chars_round_trip() {
    let v = to_chars("a,b 课程");
    assert_eq!(v, vec!['a', ',', 'b', ' ', '课', '程']);
    assert_eq!(from_chars(&v), "a,b 课程");
    assert_eq!(from_chars(&Vec::new()), "");
    assert_eq!(to_chars(""), Vec::<char>::new());
}

#[test]
fn from_chars_keeps_every_character() {
    let s = from_chars(&vec!['x', 'y', 'z']);
    assert_eq!(s.len(), 3);
    assert_eq!(s, "xyz");
}

#[test]
fn appending_keeps_what_was_there() {
    let mut v = chars("ab");
    append_chars(&mut v, &chars("cd"));
    assert_eq!(text(&v), "abcd");
    append_str(&mut v, "ef");
    assert_eq!(text(&v), "abcdef");
    append_str(&mut v, "");
    assert_eq!(text(&v), "abcdef");
}

#[test]
fn white_space_is_what_std_calls_white_space() {
    let mut code: u32 = 0;
    while code <= 0x3100 {
        if let Some(c) = char::from_u32(code) {
            assert_eq!(is_space_char(c), c.is_whitespace(), "code point {:x}", code);
        }
        code += 1;
    }
    assert!(!is_space_char('\u{FEFF}'));
    assert!(!is_space_char('\u{200B}'));
}

#[test]
fn digits_are_the_ten_ascii_digits() {
    for c in "0123456789".chars() {
        assert!(is_digit_char(c));
    }
    for c in "/:aA +-٣".chars() {
        assert!(!is_digit_char(c));
    }
}

#[test]
fn trim_agrees_with_std() {
    let samples = [
        "",
        " ",
        "   ",
        "a",
        " a",
        "a ",
        "  a b  ",
        "\t\r\n x \u{3000}",
        "\u{A0}Week: 1\u{2003}",
        "no space",
        " , ",
        "\u{200B} x",
    ];
    for s in samples.iter() {
        assert_eq!(text(&trim_chars(&chars(s))), s.trim(), "sample {:?}", s);
    }
}

#[test]
fn trim_keeps_inner_space() {
    assert_eq!(text(&trim_chars(&chars("  12 - 13  "))), "12 - 13");
}

#[test]
fn remove_char_drops_every_occurrence() {
    assert_eq!(text(&remove_char(&chars("\na\n\nb\n"), '\n')), "ab");
    assert_eq!(text(&remove_char(&chars("abc"), '\n')), "abc");
    assert_eq!(text(&remove_char(&chars(""), '\n')), "");
    assert_eq!(text(&remove_char(&chars("a\nb"), '\n')), "a\nb".replace("\n", ""));
}

#[test]
fn split_agrees_with_std() {
    let samples = ["", ",", "a", "a,b", ",a,", "a,,b", "1-3, 5 ,7-9", ",,,"];
    for s in samples.iter() {
        let ours: Vec<String> = split_chars(&chars(s), ',').iter().map(|p| text(p)).collect();
        let theirs: Vec<String> = s.split(",").map(|p| p.to_string()).collect();
        assert_eq!(ours, theirs, "sample {:?}", s);
    }
}

#[test]
fn split_on_an_absent_separator_gives_one_piece() {
    let parts = split_chars(&chars("09:30"), '-');
    assert_eq!(parts.len(), 1);
    assert_eq!(text(&parts[0]), "09:30");
    let parts = split_chars(&chars("09:30"), ':');
    assert_eq!(parts.len(), 2);
    assert_eq!(text(&parts[0]), "09");
    assert_eq!(text(&parts[1]), "30");
}

#[test]
fn same_chars_compares_content() {
    assert!(same_chars(&chars("30"), &chars("30")));
    assert!(!same_chars(&chars("30"), &chars("31")));
    assert!(!same_chars(&chars("30"), &chars("3")));
    assert!(!same_chars(&chars(""), &chars("3")));
    assert!(same_chars(&chars(""), &chars("")));
}

#[test]
fn starts_with_agrees_with_std() {
    let cases = [
        ("Week: 1", "Week:"),
        ("Week:", "Week:"),
        ("Week", "Week:"),
        ("week: 1", "Week:"),
        (" Week: 1", "Week:"),
        ("", "Week:"),
        ("abc", ""),
    ];
    for (s, p) in cases.iter() {
        assert_eq!(starts_with_chars(&chars(s), &chars(p)), s.starts_with(p), "{:?} {:?}", s, p);
    }
}

#[test]
fn skip_chars_drops_the_beginning() {
    assert_eq!(text(&skip_chars(&chars("Week: 1-3"), 5)), " 1-3");
    assert_eq!(text(&skip_chars(&chars("Week:"), 5)), "");
    assert_eq!(text(&skip_chars(&chars("abc"), 0)), "abc");
}

#[test]
fn parse_number_agrees_with_std() {
    let samples = [
        "0",
        "7",
        "14",
        "007",
        "+5",
        "+",
        "",
        "-5",
        "++5",
        "5+",
        " 5",
        "5 ",
        "x",
        "1x",
        "x-2",
        "٣",
        "4294967295",
        "4294967296",
        "18446744073709551615",
        "18446744073709551616",
        "99999999999999999999999999",
        "+00000000000000000000000001",
    ];
    for s in samples.iter() {
        assert_eq!(parse_number(&chars(s)), s.parse::<usize>().ok(), "sample {:?}", s);
    }
}

#[test]
fn parse_number_reads_exact_values() {
    assert_eq!(parse_number(&chars("12")), Some(12));
    assert_eq!(parse_number(&chars("+12")), Some(12));
    assert_eq!(parse_number(&chars("0")), Some(0));
    assert_eq!(parse_number(&chars("")), None);
    assert_eq!(parse_number(&chars("1 2")), None);
}

#[test]
fn push_decimal_agrees_with_std() {
    let samples: [usize; 9] = [0, 1, 9, 10, 11, 99, 100, 12345, usize::MAX];
    for n in samples.iter() {
        let mut out = chars("row ");
        push_decimal(&mut out, *n);
        assert_eq!(text(&out), format!("row {}", n));
    }
}
