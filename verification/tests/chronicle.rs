use chronicler::{
    extract_between_dashes, format_date, format_time, is_chronicler_markdown_filename,
    parse_header, plan_chronicle_append, plan_chronicle_append_now, CalendarDate, ClockReading,
};

fn reading() -> ClockReading {
    ClockReading {
        today: CalendarDate { year: 2026, month: 3, day: 4 },
        yesterday: CalendarDate { year: 2026, month: 3, day: 3 },
        hour: 9,
        minute: 5,
    }
}

#[test]
fn dates_and_times_are_zero_padded() {
    assert_eq!(format_date(CalendarDate { year: 2026, month: 3, day: 4 }), "2026-03-04");
    assert_eq!(format_date(CalendarDate { year: 7, month: 12, day: 31 }), "0007-12-31");
    assert_eq!(format_date(CalendarDate { year: 10000, month: 1, day: 1 }), "+10000-01-01");
    assert_eq!(format_date(CalendarDate { year: -5, month: 1, day: 1 }), "-0005-01-01");
    assert_eq!(format_date(CalendarDate { year: -12345, month: 1, day: 1 }), "-12345-01-01");
    assert_eq!(format_time(0, 7), "00:07");
    assert_eq!(format_time(23, 59), "23:59");
}

#[test]
fn dates_format_as_chrono_shows_them() {
    for (y, m, d) in [(2026, 3, 4), (1, 1, 1), (9999, 12, 31), (10000, 6, 7), (-1, 2, 3)] {
        let shown = chrono::NaiveDate::from_ymd_opt(y, m, d).unwrap().to_string();
        assert_eq!(format_date(CalendarDate { year: y, month: m, day: d }), shown);
    }
}

#[test]
fn append_plan_names_todays_file_and_links_yesterday() {
    let plan = plan_chronicle_append(&reading(), "Test entry");
    assert_eq!(plan.file_name, "chronicle-2026-03-04.md");
    assert_eq!(
        plan.preamble,
        "---\nprev: \"[[chronicle-2026-03-03]]\"\njournal: \"[[2026-03-04]]\"\n---\n\n## Chronicles\n\n"
    );
    assert_eq!(plan.entry_line, "- 09:05: Test entry\n");
}

#[test]
fn new_chronicle_file_reads_back_its_header_after_entries() {
    let plan = plan_chronicle_append(&reading(), "First entry");
    let second = plan_chronicle_append(&reading(), "Second --- entry");
    let contents = format!("{}{}{}", plan.preamble, plan.entry_line, second.entry_line);
    let header = extract_between_dashes(&contents).and_then(parse_header).unwrap();
    assert_eq!(header.prev, "[[chronicle-2026-03-03]]");
    assert_eq!(header.journal, Some(String::from("[[2026-03-04]]")));
    assert!(contents.contains("## Chronicles"));
    assert!(contents.lines().any(|l| l.starts_with("- ") && l.contains("First entry")));
}

#[test]
fn appending_now_uses_the_local_date() {
    let (clock, plan) = plan_chronicle_append_now("Now");
    let today = chrono::Local::now().date_naive();
    let yesterday = (chrono::Local::now() - chrono::Duration::days(1)).date_naive();
    assert_eq!(plan.file_name, format!("chronicle-{today}.md"));
    assert!(is_chronicler_markdown_filename(&plan.file_name));
    assert!(plan.preamble.contains(&format!("[[chronicle-{yesterday}]]")));
    assert!(clock.hour < 24 && clock.minute < 60);
    assert!(plan.entry_line.starts_with("- ") && plan.entry_line.ends_with(": Now\n"));
}

#[test]
fn appended_entries_keep_a_single_header() {
    let first = plan_chronicle_append(&reading(), "First entry");
    let second = plan_chronicle_append(&reading(), "Second entry");
    let contents = format!("{}{}{}", first.preamble, first.entry_line, second.entry_line);
    assert_eq!(contents.matches("---").count(), 2);
    assert!(contents.contains("First entry") && contents.contains("Second entry"));
}
