use bulletlog::{
    add_entry, add_note, add_task, complete_task, get_date, get_date_from_header,
    get_logfile_path, list_notes, list_tasks, parse_date, split_lines, Date, LogError,
    UnsupportedError,
};

fn day(y: u32, m: u32, d: u32) -> Date {
    Date::new(y, m, d).unwrap()
}

fn text(v: &[u8]) -> String {
    String::from_utf8(v.to_vec()).unwrap()
}

fn rows(v: Vec<Vec<u8>>) -> Vec<String> {
    v.into_iter().map(|r| String::from_utf8(r).unwrap()).collect()
}

#[test]
fn note_added_to_empty_log_is_listed_alone() {
    let c = add_note(b"", "buy milk", day(2024, 6, 1)).unwrap();
    assert_eq!(text(&c), "## 2024-06-01\n\n* buy milk\n\n");
    assert_eq!(rows(list_notes(&c)), vec!["* buy milk\n"]);
}

#[test]
fn task_added_to_empty_log() {
    let c = add_task(b"", "call bob", day(2024, 6, 1)).unwrap();
    assert_eq!(text(&c), "## 2024-06-01\n\n- call bob\n\n");
    assert_eq!(rows(list_tasks(&c)), vec!["0: call bob\n"]);
    assert!(list_notes(&c).is_empty());
}

#[test]
fn same_day_entries_newest_first() {
    let c = add_note(b"", "A", day(2024, 6, 1)).unwrap();
    let c = add_note(&c, "B", day(2024, 6, 1)).unwrap();
    assert_eq!(text(&c), "## 2024-06-01\n\n* B\n* A\n\n");
    assert_eq!(rows(list_notes(&c)), vec!["* B\n", "* A\n"]);
}

#[test]
fn later_date_opens_section_on_top() {
    let c = add_note(b"", "old", day(2024, 6, 1)).unwrap();
    let c = add_task(&c, "new", day(2024, 6, 2)).unwrap();
    assert_eq!(
        text(&c),
        "## 2024-06-02\n\n- new\n\n## 2024-06-01\n\n* old\n\n"
    );
}

#[test]
fn headers_stay_newest_first() {
    let mut c: Vec<u8> = Vec::new();
    let days = [
        day(2023, 12, 31),
        day(2024, 1, 1),
        day(2024, 1, 1),
        day(2024, 2, 29),
        day(2025, 1, 1),
    ];
    for (i, d) in days.iter().enumerate() {
        c = add_note(&c, &format!("n{}", i), *d).unwrap();
    }
    let headers: Vec<String> = rows(split_lines(&c))
        .into_iter()
        .filter(|l| l.starts_with("## "))
        .collect();
    assert_eq!(
        headers,
        vec![
            "## 2025-01-01\n",
            "## 2024-02-29\n",
            "## 2024-01-01\n",
            "## 2023-12-31\n"
        ]
    );
}

#[test]
fn earlier_date_is_refused_and_log_kept() {
    let c = b"## 2024-06-02\n\n* x\n\n".to_vec();
    let before = c.clone();
    let r = add_note(&c, "late", day(2024, 6, 1));
    assert_eq!(r, Err(LogError::OutOfOrderDate(UnsupportedError)));
    assert_eq!(c, before);
}

#[test]
fn first_line_not_a_header_is_malformed() {
    let r = add_task(b"hello\n", "t", day(2024, 6, 1));
    assert_eq!(r, Err(LogError::MalformedHeader));
    let r = add_task(b"## 2024-6-1\n", "t", day(2024, 6, 1));
    assert_eq!(r, Err(LogError::MalformedHeader));
}

#[test]
fn same_day_without_blank_line_or_terminator() {
    let c = add_entry(b"## 2024-06-01", b'*', b"a", day(2024, 6, 1)).unwrap();
    assert_eq!(text(&c), "## 2024-06-01\n* a\n");
    let c = add_entry(b"## 2024-06-01\n- t\n", b'*', b"a", day(2024, 6, 1)).unwrap();
    assert_eq!(text(&c), "## 2024-06-01\n* a\n- t\n");
}

#[test]
fn complete_marks_the_numbered_task() {
    let c = b"## 2024-06-01\n\n- A\n- B\n- C\n\n".to_vec();
    let done = complete_task(&c, 1);
    assert_eq!(text(&done), "## 2024-06-01\n\n- A\nx B\n- C\n\n");
    assert_eq!(rows(list_tasks(&done)), vec!["0: A\n", "1: C\n"]);
}

#[test]
fn complete_without_space_after_marker() {
    let c = b"## 2024-06-01\n\n-A\n-B\n-C\n".to_vec();
    let done = complete_task(&c, 1);
    assert_eq!(text(&done), "## 2024-06-01\n\n-A\nxB\n-C\n");
    assert_eq!(rows(list_tasks(&done)), vec!["0: A\n", "1: C\n"]);
}

#[test]
fn complete_missing_task_changes_nothing() {
    let c = b"## 2024-06-01\n\n- A\nx B\n* n\n".to_vec();
    assert_eq!(complete_task(&c, 1), c);
    assert_eq!(complete_task(&c, u64::MAX), c);
}

#[test]
fn listing_twice_is_identical() {
    let c = b"## 2024-06-02\n\n* a\n- b\n\n## 2024-06-01\n\n- c\n* d\n".to_vec();
    assert_eq!(list_notes(&c), list_notes(&c));
    assert_eq!(list_tasks(&c), list_tasks(&c));
    assert_eq!(rows(list_notes(&c)), vec!["* a\n", "* d\n"]);
    assert_eq!(rows(list_tasks(&c)), vec!["0: b\n", "1: c\n"]);
}

#[test]
fn task_numbers_past_nine() {
    let mut c: Vec<u8> = Vec::new();
    for i in 0..12 {
        c = add_task(&c, &format!("t{}", i), day(2024, 6, 1)).unwrap();
    }
    let r = rows(list_tasks(&c));
    assert_eq!(r.len(), 12);
    assert_eq!(r[0], "0: t11\n");
    assert_eq!(r[10], "10: t1\n");
    assert_eq!(r[11], "11: t0\n");
}

#[test]
fn split_lines_keeps_terminators() {
    assert_eq!(rows(split_lines(b"a\n\nb")), vec!["a\n", "\n", "b"]);
    assert!(split_lines(b"").is_empty());
    assert_eq!(rows(split_lines(b"x\r\n")), vec!["x\r\n"]);
}

#[test]
fn header_dates() {
    assert_eq!(get_date_from_header("## 2024-06-01"), Ok(day(2024, 6, 1)));
    assert_eq!(get_date_from_header("## 2024-06-01\r\n"), Ok(day(2024, 6, 1)));
    assert_eq!(
        get_date_from_header("## 2024-06-01 x"),
        Err(LogError::MalformedHeader)
    );
    assert_eq!(
        get_date_from_header("## 2024-13-01"),
        Err(LogError::MalformedHeader)
    );
    assert_eq!(
        get_date_from_header("# 2024-06-01"),
        Err(LogError::MalformedHeader)
    );
}

#[test]
fn calendar_days() {
    assert!(Date::new(2024, 2, 29).is_some());
    assert!(Date::new(2000, 2, 29).is_some());
    assert!(Date::new(2023, 2, 29).is_none());
    assert!(Date::new(1900, 2, 29).is_none());
    assert!(Date::new(2024, 4, 31).is_none());
    assert!(Date::new(2024, 0, 1).is_none());
    assert!(Date::new(10000, 1, 1).is_none());
    assert_eq!(parse_date("2024-02-30"), Err(LogError::InvalidDate));
}

#[test]
fn date_resolution_order() {
    let today = day(2024, 6, 3);
    assert_eq!(
        get_date(Some("2024-06-01"), Some("2024-06-02"), today),
        Ok(day(2024, 6, 1))
    );
    assert_eq!(get_date(None, Some("2024-06-02"), today), Ok(day(2024, 6, 2)));
    assert_eq!(get_date(None, None, today), Ok(today));
    assert_eq!(get_date(Some("2024-6-1"), None, today), Err(LogError::InvalidDate));
    assert_eq!(get_date(None, Some("x"), today), Err(LogError::InvalidDate));
}

#[test]
fn date_order() {
    assert!(day(2024, 6, 1).before(&day(2024, 6, 2)));
    assert!(day(2023, 12, 31).before(&day(2024, 1, 1)));
    assert!(!day(2024, 6, 2).before(&day(2024, 6, 2)));
    assert!(!day(2024, 7, 1).before(&day(2024, 6, 30)));
}

#[test]
fn logfile_path_default() {
    assert_eq!(get_logfile_path(None), ".BULLETLOG");
    assert_eq!(get_logfile_path(Some("log.md".to_string())), "log.md");
}

#[test]
fn unsupported_message() {
    assert_eq!(UnsupportedError.message(), "Unsupported");
}
