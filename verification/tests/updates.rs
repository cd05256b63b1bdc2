use chronicler::{
    chronicle_contents_with_header, extract_between_dashes, journal_contents_with_header,
    journal_has_valid_header, last_dated_files, parse_header, plan_header_updates, DateNameError,
    FileKind, UpdateError,
};

fn names(list: &[&str]) -> Vec<String> {
    list.iter().map(|s| s.to_string()).collect()
}

fn header_of(text: &str) -> (String, Option<String>) {
    let h = extract_between_dashes(text).and_then(parse_header).expect("readable header");
    (h.prev, h.journal)
}

#[test]
fn chronicle_plan_covers_only_chronicle_files() {
    let listing = names(&["2026-01-02.md", "chronicle-2026-01-01.md", "notes.md"]);
    let plan = plan_header_updates(FileKind::Chronicle, &listing).unwrap();
    assert_eq!(plan.len(), 1);
    assert_eq!(plan[0].index, 1);
    assert_eq!(plan[0].prev, "");
}

#[test]
fn chronicle_plan_fails_without_chronicle_files() {
    let listing = names(&["notes.md", "2026-01-01.md"]);
    assert_eq!(
        plan_header_updates(FileKind::Chronicle, &listing).unwrap_err(),
        UpdateError::NoDatedFiles
    );
}

#[test]
fn chronicle_plan_links_previous_dated_file_across_gaps() {
    let listing = names(&[
        "chronicle-2026-02-01.md",
        "chronicle-2026-02-09.md",
        "notes.md",
        "chronicle-2026-03-01.md",
    ]);
    let plan = plan_header_updates(FileKind::Chronicle, &listing).unwrap();
    let prevs: Vec<&str> = plan.iter().map(|u| u.prev.as_str()).collect();
    let indices: Vec<usize> = plan.iter().map(|u| u.index).collect();
    assert_eq!(
        prevs,
        vec!["", "[[chronicle-2026-02-01]]", "[[chronicle-2026-02-09]]"]
    );
    assert_eq!(indices, vec![0, 1, 3]);
}

#[test]
fn journal_plan_covers_only_journal_files_with_wiki_links() {
    let listing = names(&[
        "2026-02-01.md",
        "chronicle-2026-01-02.md",
        "2026-02-02.md",
        "notes.md",
    ]);
    let plan = plan_header_updates(FileKind::Journal, &listing).unwrap();
    assert_eq!(plan.len(), 2);
    assert_eq!((plan[0].index, plan[0].prev.as_str()), (0, ""));
    assert_eq!((plan[1].index, plan[1].prev.as_str()), (2, "[[2026-02-01]]"));
    assert_eq!(
        plan_header_updates(FileKind::Journal, &names(&["notes.md", "chronicle-2026-01-01.md"]))
            .unwrap_err(),
        UpdateError::NoDatedFiles
    );
}

#[test]
fn chronicle_header_is_prepended_to_a_file_without_one() {
    let update =
        chronicle_contents_with_header("Entry body\n", "chronicle-2026-02-02.md", "[[chronicle-2026-02-01]]")
            .unwrap();
    assert!(!update.replaced);
    assert_eq!(
        update.contents,
        "---\nprev: \"[[chronicle-2026-02-01]]\"\njournal: \"[[2026-02-02]]\"\n---\nEntry body\n"
    );
    assert_eq!(
        header_of(&update.contents),
        (
            String::from("[[chronicle-2026-02-01]]"),
            Some(String::from("[[2026-02-02]]"))
        )
    );
}

#[test]
fn chronicle_header_replaces_an_existing_one() {
    let old = "---\nprev: \"stale\"\n---\n## Chronicles\n- 09:00: x\n";
    let update = chronicle_contents_with_header(old, "chronicle-2026-02-01.md", "").unwrap();
    assert!(update.replaced);
    assert_eq!(
        update.contents,
        "---\nprev: \"\"\njournal: \"[[2026-02-01]]\"\n---\n## Chronicles\n- 09:00: x\n"
    );
    let again =
        chronicle_contents_with_header(&update.contents, "chronicle-2026-02-01.md", "").unwrap();
    assert_eq!(again.contents, update.contents);
}

#[test]
fn chronicle_header_is_replaced_only_when_the_file_opens_with_one() {
    let update =
        chronicle_contents_with_header("x---a---tail", "chronicle-2026-02-01.md", "p").unwrap();
    assert!(!update.replaced);
    assert!(update.contents.ends_with("---\nx---a---tail"));

    let update =
        chronicle_contents_with_header("---a---tail", "chronicle-2026-02-01.md", "p").unwrap();
    assert!(update.replaced);
    assert!(update.contents.ends_with("---\ntail"));

    let update =
        chronicle_contents_with_header("---\nno closing", "chronicle-2026-02-01.md", "p").unwrap();
    assert!(!update.replaced);
    assert!(update.contents.ends_with("---\n---\nno closing"));
}

#[test]
fn chronicle_body_with_markdown_rules_is_kept_in_full() {
    let body = "Intro\n---\nmiddle\n---\nend\n";
    let update = chronicle_contents_with_header(body, "chronicle-2026-03-01.md", "").unwrap();
    assert!(!update.replaced);
    assert_eq!(
        update.contents,
        format!("---\nprev: \"\"\njournal: \"[[2026-03-01]]\"\n---\n{body}")
    );
    let again =
        chronicle_contents_with_header(&update.contents, "chronicle-2026-03-01.md", "").unwrap();
    assert!(again.replaced);
    assert_eq!(again.contents, update.contents);
}

#[test]
fn chronicle_header_needs_a_chronicle_name() {
    assert_eq!(
        chronicle_contents_with_header("body", "notes.md", "").unwrap_err(),
        DateNameError::DoesNotMatch
    );
}

#[test]
fn journal_header_is_added_without_journal_field() {
    let updated = journal_contents_with_header("Entry body\n", "[[2026-02-01]]").unwrap();
    assert_eq!(updated, "---\nprev: \"[[2026-02-01]]\"\n---\nEntry body\n");
    assert_eq!(
        header_of(&updated),
        (String::from("[[2026-02-01]]"), None)
    );
    assert!(!updated.contains("journal:"));
    assert!(journal_contents_with_header(&updated, "[[2026-02-01]]").is_none());
}

#[test]
fn journal_with_invalid_header_gets_a_new_one() {
    let text = "---\nnot a header\n---\nbody\n";
    assert!(!journal_has_valid_header(text));
    let updated = journal_contents_with_header(text, "").unwrap();
    assert_eq!(updated, format!("---\nprev: \"\"\n---\n{text}"));
    assert!(journal_has_valid_header("---\nprev: x\n---"));
}

#[test]
fn last_dated_files_takes_the_tail() {
    let listing = names(&[
        "chronicle-2026-02-01.md",
        "notes.md",
        "chronicle-2026-02-02.md",
        "chronicle-2026-02-03.md",
    ]);
    assert_eq!(last_dated_files(FileKind::Chronicle, &listing, 2), vec![2, 3]);
    assert_eq!(last_dated_files(FileKind::Chronicle, &listing, 7), vec![0, 2, 3]);
    assert_eq!(last_dated_files(FileKind::Chronicle, &listing, 0), Vec::<usize>::new());
    assert_eq!(last_dated_files(FileKind::Journal, &listing, 3), Vec::<usize>::new());
}
