use changement::bump::VersionBump;
use changement::ledger::{entry_file_name, ChangelogEntry, EntryError};

#[test]
fn change_record_is_written_in_front_matter_form() {
    let entry = ChangelogEntry {
        frontmatter: vec![("test-package".to_string(), VersionBump::Minor)],
        body: "This is a test change".to_string(),
    };
    assert_eq!(
        entry.to_string(),
        "---\n\"test-package\": minor\n---\n\nThis is a test change"
    );
}

#[test]
fn change_record_reads_back() {
    let entry = ChangelogEntry {
        frontmatter: vec![
            ("@scope/a".to_string(), VersionBump::Major),
            ("b".to_string(), VersionBump::Patch),
        ],
        body: "Two packages change.".to_string(),
    };
    let read = ChangelogEntry::from_string(&entry.to_string()).unwrap();
    assert_eq!(read.frontmatter, entry.frontmatter);
    assert_eq!(read.body, "Two packages change.");
}

#[test]
fn change_record_accepts_bare_names_and_blank_lines() {
    let text = "\n  ---\ntest-package: minor\n\n  other :  patch  \n---\n\n  This is a test change\n\n";
    let entry = ChangelogEntry::from_string(text).unwrap();
    assert_eq!(
        entry.frontmatter,
        vec![
            ("test-package".to_string(), VersionBump::Minor),
            ("other".to_string(), VersionBump::Patch)
        ]
    );
    assert_eq!(entry.body, "This is a test change");
}

#[test]
fn change_record_without_body() {
    let entry = ChangelogEntry::from_string("---\n\"a\": major\n---").unwrap();
    assert_eq!(entry.frontmatter, vec![("a".to_string(), VersionBump::Major)]);
    assert_eq!(entry.body, "");
}

#[test]
fn change_record_errors() {
    assert_eq!(
        ChangelogEntry::from_string("").unwrap_err(),
        EntryError::MissingHeader
    );
    assert_eq!(
        ChangelogEntry::from_string("a: major\n---\n").unwrap_err(),
        EntryError::MissingHeader
    );
    assert_eq!(
        ChangelogEntry::from_string("---\na: major\n").unwrap_err(),
        EntryError::Unterminated
    );
    assert_eq!(
        ChangelogEntry::from_string("---\nno colon here\n---\n").unwrap_err(),
        EntryError::InvalidLine { offset: 4 }
    );
    assert_eq!(
        ChangelogEntry::from_string("---\n  : major\n---\n").unwrap_err(),
        EntryError::InvalidLine { offset: 4 }
    );
    assert_eq!(
        ChangelogEntry::from_string("---\na: minor\nb: huge\n---\n").unwrap_err(),
        EntryError::InvalidSeverity { offset: 13 }
    );
}

#[test]
fn change_record_file_name() {
    assert_eq!(
        entry_file_name("2024-05-01", "brave-otter"),
        "2024-05-01-brave-otter.md"
    );
}

#[test]
fn quoted_names_may_hold_colons() {
    let entry = ChangelogEntry {
        frontmatter: vec![
            ("a:b".to_string(), VersionBump::Minor),
            ("@scope/c".to_string(), VersionBump::Patch),
        ],
        body: "Names with colons.".to_string(),
    };
    let read = ChangelogEntry::from_string(&entry.to_string()).unwrap();
    assert_eq!(read.frontmatter, entry.frontmatter);
    assert_eq!(read.body, entry.body);
}

#[test]
fn single_quoted_names_lose_their_quotes() {
    let entry = ChangelogEntry::from_string("---\n'pkg': patch\n  \"x:y\"  : major\n---\nbody").unwrap();
    assert_eq!(
        entry.frontmatter,
        vec![
            ("pkg".to_string(), VersionBump::Patch),
            ("x:y".to_string(), VersionBump::Major)
        ]
    );
}

#[test]
fn unclosed_quote_is_refused() {
    assert_eq!(
        ChangelogEntry::from_string("---\n\"abc: major\n---\n").unwrap_err(),
        EntryError::InvalidLine { offset: 4 }
    );
    assert_eq!(
        ChangelogEntry::from_string("---\n\"abc\" major\n---\n").unwrap_err(),
        EntryError::InvalidLine { offset: 4 }
    );
}

#[test]
fn any_name_reads_back() {
    for name in ["a\"b", "back\\slash", "two\nlines", "", "  spaced  ", "x: y", "'q'"] {
        let entry = ChangelogEntry {
            frontmatter: vec![(name.to_string(), VersionBump::Patch)],
            body: "Body.".to_string(),
        };
        let text = entry.to_string();
        let read = ChangelogEntry::from_string(&text).unwrap();
        assert_eq!(read.frontmatter, entry.frontmatter, "{text}");
        assert_eq!(read.body, "Body.");
    }
}

#[test]
fn escapes_are_written_and_checked() {
    let entry = ChangelogEntry {
        frontmatter: vec![("a\"b\\c\nd".to_string(), VersionBump::Major)],
        body: String::new(),
    };
    assert_eq!(entry.to_string(), "---\n\"a\\\"b\\\\c\\nd\": major\n---\n\n");
    assert_eq!(
        ChangelogEntry::from_string("---\n\"a\\tb\": major\n---\n").unwrap_err(),
        EntryError::InvalidLine { offset: 4 }
    );
}
