use chronicler::select_markdown_files;

fn select(entries: &[(&str, bool)]) -> Vec<String> {
    let names: Vec<Vec<u8>> = entries.iter().map(|(n, _)| n.as_bytes().to_vec()).collect();
    let files: Vec<bool> = entries.iter().map(|(_, f)| *f).collect();
    select_markdown_files(&names, &files)
        .into_iter()
        .map(|i| entries[i].0.to_string())
        .collect()
}

#[test]
fn markdown_files_come_sorted() {
    let got = select(&[
        ("2026-01-05.md", true),
        ("2026-01-01.md", true),
        ("2026-01-03.md", true),
        ("2026-01-02.md", true),
        ("2026-01-04.md", true),
    ]);
    assert_eq!(
        got,
        vec!["2026-01-01.md", "2026-01-02.md", "2026-01-03.md", "2026-01-04.md", "2026-01-05.md"]
    );
}

#[test]
fn only_files_with_lowercase_md_extension_are_kept() {
    let got = select(&[
        ("2026-03-01.md", true),
        ("2026-03-02.txt", true),
        ("README", true),
        ("2026-03-03.MD", true),
        ("nested", false),
        ("dir.md", false),
        (".md", true),
        ("a.md", true),
    ]);
    assert_eq!(got, vec!["2026-03-01.md", "a.md"]);
}

#[test]
fn names_sort_by_bytes() {
    let got = select(&[("b.md", true), ("B.md", true), ("ab.md", true), ("a.md", true), ("é.md", true)]);
    assert_eq!(got, vec!["B.md", "a.md", "ab.md", "b.md", "é.md"]);
}
