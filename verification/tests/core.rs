use folio::{checkboxes, rename_title, summarize, Note, valid_date, valid_folder, valid_id, valid_time, validate_note, MAX_MARKDOWN_BYTES};

#[test]
fn rejects_paths_and_oversized_utf8() {
    for id in ["", "../secret", "a/b", "a\\b", "%2e%2e", ".", "a.md"] {
        assert!(!valid_id(id));
    }
    assert!(validate_note("note-123", &"한".repeat(MAX_MARKDOWN_BYTES / 3 + 1)).is_err());
    assert!(validate_note("note-123", &"x".repeat(MAX_MARKDOWN_BYTES)).is_ok());
}

#[test]
fn renaming_preserves_body_and_line_endings() {
    assert_eq!(
        rename_title("A paragraph\nKeep me", "Title"),
        "# Title\n\nA paragraph\nKeep me"
    );
    assert_eq!(
        rename_title("\r\n# Old\r\nBody\r\n", "New"),
        "\r\n# New\r\nBody\r\n"
    );
}

#[test]
fn validates_dates_paths_and_fences() {
    assert!(valid_date("2024-02-29"));
    assert!(!valid_date("2025-02-29"));
    assert!(!valid_date("2026-13-01"));
    assert!(!valid_folder("a/../b"));
    assert!(valid_folder("Projects/새 계획"));
    assert!(!valid_time("한ab"));
    assert_eq!(
        checkboxes("```md\n- [ ] example\n```\n- [x] real"),
        vec![(3, "real".into(), true)]
    );
}

#[test]
fn second_rename_replaces_the_first() {
    for md in ["A paragraph\nKeep me", "\r\n# Old\r\nBody\r\n", "", "\n\n", "# Solo"] {
        let once = rename_title(md, "Second");
        let twice = rename_title(&rename_title(md, "First"), "Second");
        assert_eq!(twice, once);
    }
    assert_eq!(
        rename_title(&rename_title("Body", "First"), "Second"),
        "# Second\n\nBody"
    );
}

#[test]
fn renamed_note_reads_back_its_title() {
    for md in ["A paragraph\nKeep me", "\r\n# Old\r\nBody\r\n", "", "  \n# Solo", "#Tag line"] {
        let note = Note {
            id: "n1".into(),
            markdown: rename_title(md, "Weekly plan"),
            folder: String::new(),
            revision: String::new(),
        };
        assert_eq!(summarize(&note, 1).title, "Weekly plan");
    }
}
