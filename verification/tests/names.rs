use chronicler::{
    chronicler_date_from_path, is_chronicler_markdown_filename, is_journal_markdown_filename,
    journal_date_from_path, DateNameError,
};

#[test]
fn chronicler_markdown_filename_matches_expected_pattern() {
    assert!(is_chronicler_markdown_filename("chronicle-2026-01-31.md"));
}

#[test]
fn chronicler_markdown_filename_rejects_non_matching_names() {
    let non_matches = [
        "notes.md",
        "chronicle-2026-1-31.md",
        "chronicle-2026-01-31.MD",
        "2026-01-31.md",
        "2026-01-31.txt",
        "chronicle-20260131.md",
        "chronicle-2026-01-31.md.bak",
    ];

    for file_name in non_matches {
        assert!(
            !is_chronicler_markdown_filename(file_name),
            "{file_name} should not match chronicle-YYYY-MM-DD.md"
        );
    }
}

#[test]
fn journal_markdown_filename_matches_expected_pattern() {
    assert!(is_journal_markdown_filename("2026-01-31.md"));
}

#[test]
fn journal_markdown_filename_rejects_non_matching_names() {
    let non_matches = [
        "notes.md",
        "2026-1-31.md",
        "2026-01-31.MD",
        "2026-01-31.txt",
        "20260131.md",
        "2026-01-31.md.bak",
        "chronicle-2026-01-31.md",
    ];

    for file_name in non_matches {
        assert!(
            !is_journal_markdown_filename(file_name),
            "{file_name} should not match YYYY-MM-DD.md"
        );
    }
}

#[test]
fn dated_names_reject_non_digits_and_wrong_dashes() {
    assert!(!is_chronicler_markdown_filename("chronicle-2026-0a-31.md"));
    assert!(!is_chronicler_markdown_filename("chronicle-2026/01/31.md"));
    assert!(!is_journal_markdown_filename("2026-01-3١.md"));
    assert!(!is_journal_markdown_filename(".md"));
    assert!(!is_chronicler_markdown_filename("chronicle-.md"));
    assert!(is_journal_markdown_filename("0000-99-99.md"));
}

#[test]
fn chronicler_date_is_between_prefix_and_extension() {
    assert_eq!(
        chronicler_date_from_path("chronicle-2026-02-01.md"),
        Ok(String::from("2026-02-01"))
    );
    assert_eq!(chronicler_date_from_path("chronicle-.md"), Ok(String::new()));
    assert_eq!(
        chronicler_date_from_path("2026-02-01.md"),
        Err(DateNameError::DoesNotMatch)
    );
    assert_eq!(
        chronicler_date_from_path("chronicle-2026-02-01.txt"),
        Err(DateNameError::DoesNotMatch)
    );
}

#[test]
fn journal_date_is_before_extension() {
    assert_eq!(
        journal_date_from_path("2026-02-01.md"),
        Ok(String::from("2026-02-01"))
    );
    assert_eq!(journal_date_from_path("notes.md"), Ok(String::from("notes")));
    assert_eq!(
        journal_date_from_path("2026-02-01.MD"),
        Err(DateNameError::DoesNotMatch)
    );
}
