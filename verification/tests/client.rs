use folio::client::{
    ancestors_open, apply_listing, entries, expand_ancestors, merge_note_tasks, merge_tree_note,
    new_note, preserve_pending_tasks, preserve_renamed_draft, remove_tree_note, renamed_path, route_path,
    tasks_for_page, toggle_folder, Entry, FolderListing,
};
use folio::{Note, NoteSummary, Task};

fn s(v: &str) -> String {
    v.to_string()
}

#[test]
fn stale_list_preserves_multiple_pending_checks_but_accepts_other_updates() {
    let task = |id: &str, completed| Task {
        id: id.into(),
        completed,
        ..Task::default()
    };
    let current = vec![task("a", true), task("b", false), task("c", false)];
    let mut incoming = vec![task("a", false), task("b", true), task("c", true)];
    preserve_pending_tasks(&mut incoming, &current, &[s("a"), s("b")]);
    assert!(incoming[0].completed);
    assert!(!incoming[1].completed);
    assert!(incoming[2].completed);
}

#[test]
fn settled_tasks_accept_server_state_without_adding_items_from_another_view() {
    let current = vec![Task {
        id: "a".into(),
        completed: true,
        ..Task::default()
    }];
    let mut incoming = vec![Task {
        id: "a".into(),
        ..Task::default()
    }];
    preserve_pending_tasks(&mut incoming, &current, &[]);
    assert!(!incoming[0].completed);
    let mut empty = vec![];
    preserve_pending_tasks(&mut empty, &current, &[s("a")]);
    assert!(empty.is_empty());
}

#[test]
fn resumed_rename_preserves_draft_content_and_conflict_revision() {
    let draft = Note {
        id: "draft-note".into(),
        markdown: "# 초안\n\nUnsaved text\n- [ ] Keep me".into(),
        folder: "Projects/원본/Notes".into(),
        revision: "original-base-revision".into(),
    };
    let renamed = preserve_renamed_draft(draft.clone(), "Projects/원본", "Projects/New");
    assert_eq!(renamed.folder, "Projects/New/Notes");
    assert_eq!(renamed.markdown, draft.markdown);
    assert_eq!(renamed.id, draft.id);
    assert_eq!(renamed.revision, draft.revision);
    assert_eq!(
        renamed_path("Projects/원본2/Notes", "Projects/원본", "Projects/New"),
        "Projects/원본2/Notes"
    );
}

#[test]
fn collapsed_tree_hides_descendants_and_files() {
    let folders = vec![s("A"), s("A/B"), s("A/B/C"), s("AB")];
    let files = vec![(
        s("A/B"),
        FolderListing {
            items: vec![NoteSummary {
                id: "n".into(),
                folder: "A/B".into(),
                ..Default::default()
            }],
            ..Default::default()
        },
    )];
    assert_eq!(entries(&folders, &[], &files).len(), 2);
    assert!(!ancestors_open("A/B/C", &[s("A/B")]));
    let open = vec![s("A"), s("A/B")];
    let rows = entries(&folders, &open, &files);
    assert!(rows.iter().any(|r| matches!(r, Entry::File(n, 2) if n.id == "n")));
    assert!(rows.iter().any(|r| matches!(r, Entry::Folder(p, 2) if p == "A/B/C")));
}

#[test]
fn tree_rows_follow_folders_in_order_with_footers() {
    let folders = vec![s("A"), s("A/B"), s("C")];
    let open = vec![s("A")];
    let rows = entries(&folders, &open, &[]);
    let shape: Vec<String> = rows
        .iter()
        .map(|r| match r {
            Entry::Folder(p, d) => format!("folder {p} {d}"),
            Entry::File(n, d) => format!("file {} {d}", n.id),
            Entry::Footer(p, d) => format!("footer {p} {d}"),
        })
        .collect();
    assert_eq!(
        shape,
        vec!["folder A 0", "folder A/B 1", "footer A 1", "folder C 0"]
    );
}

#[test]
fn renaming_back_restores_paths_inside_the_folder() {
    let moved = renamed_path("Projects/Old/Leaf", "Projects/Old", "Projects/New");
    assert_eq!(moved, "Projects/New/Leaf");
    assert_eq!(renamed_path(&moved, "Projects/New", "Projects/Old"), "Projects/Old/Leaf");
    assert_eq!(renamed_path("Projects/Old", "Projects/Old", "X"), "X");
    assert_eq!(renamed_path("Projects/Older", "Projects/Old", "X"), "Projects/Older");
}

#[test]
fn ancestors_open_needs_every_parent() {
    assert!(ancestors_open("Top", &[]));
    assert!(ancestors_open("A/B/C", &[s("A"), s("A/B")]));
    assert!(!ancestors_open("A/B/C", &[s("A")]));
}

#[test]
fn expanding_and_toggling_keep_a_sorted_set() {
    let mut expanded = vec![s("Z")];
    expand_ancestors(&mut expanded, "A/B/C");
    assert_eq!(expanded, vec![s("A"), s("A/B"), s("A/B/C"), s("Z")]);
    assert!(ancestors_open("A/B/C/D", &expanded));
    toggle_folder(&mut expanded, s("A/B"));
    assert_eq!(expanded, vec![s("A"), s("A/B/C"), s("Z")]);
    toggle_folder(&mut expanded, s("A/B"));
    assert_eq!(expanded, vec![s("A"), s("A/B"), s("A/B/C"), s("Z")]);
}

#[test]
fn merged_note_heads_its_folder_and_leaves_others() {
    let note = NoteSummary {
        id: "n1".into(),
        folder: "Work/Plans".into(),
        updated_at: 5,
        ..Default::default()
    };
    let mut folders = vec![s("Personal"), s("Work")];
    let other = NoteSummary {
        id: "n2".into(),
        folder: "Work/Plans".into(),
        ..Default::default()
    };
    let stale = NoteSummary {
        id: "n1".into(),
        folder: "Personal".into(),
        ..Default::default()
    };
    let mut files = vec![
        (
            s("Personal"),
            FolderListing {
                items: vec![stale],
                next: Some(9),
                ..Default::default()
            },
        ),
        (
            s("Work/Plans"),
            FolderListing {
                items: vec![other],
                ..Default::default()
            },
        ),
    ];
    merge_tree_note(&mut folders, &mut files, &note);
    assert_eq!(folders, vec![s("Personal"), s("Work"), s("Work/Plans")]);
    assert!(files[0].1.items.is_empty());
    assert_eq!(files[0].1.next, Some(0));
    let ids: Vec<&str> = files[1].1.items.iter().map(|n| n.id.as_str()).collect();
    assert_eq!(ids, vec!["n1", "n2"]);
    assert_eq!(files[1].1.next, None);
    remove_tree_note(&mut files, "n2");
    assert_eq!(files[1].1.items.len(), 1);
}

#[test]
fn note_tasks_are_replaced_and_others_kept() {
    let task = |id: &str, note: Option<&str>| Task {
        id: id.into(),
        source_note_id: note.map(String::from),
        ..Task::default()
    };
    let mut items = vec![task("a", Some("n")), task("b", None), task("c", Some("m"))];
    merge_note_tasks(&mut items, "n", vec![task("d", Some("n"))]);
    let ids: Vec<&str> = items.iter().map(|t| t.id.as_str()).collect();
    assert_eq!(ids, vec!["b", "c", "d"]);
}

#[test]
fn later_pages_replace_notes_with_the_same_id() {
    let n = |id: &str, t: u64| NoteSummary {
        id: id.into(),
        updated_at: t,
        ..Default::default()
    };
    let mut listing = FolderListing {
        items: vec![n("a", 1), n("b", 1)],
        loading: true,
        ..Default::default()
    };
    apply_listing(&mut listing, Ok((vec![n("a", 2), n("c", 1)], Some(4))), true);
    let ids: Vec<&str> = listing.items.iter().map(|x| x.id.as_str()).collect();
    assert_eq!(ids, vec!["b", "a", "c"]);
    assert_eq!(listing.items[1].updated_at, 2);
    assert_eq!(listing.next, Some(4));
    assert!(!listing.loading);
    apply_listing(&mut listing, Err(s("offline")), false);
    assert_eq!(listing.error, "offline");
    assert_eq!(listing.items.len(), 3);
    apply_listing(&mut listing, Ok((vec![n("z", 1)], None)), false);
    assert_eq!(listing.items.len(), 1);
    assert_eq!(listing.next, None);
}

#[test]
fn routes_and_task_queries_follow_the_page() {
    assert_eq!(route_path("Home", Some("x")), "/");
    assert_eq!(route_path("Notes", Some("abc")), "/notes?note=abc");
    assert_eq!(route_path("Planner", None), "/planner");
    assert_eq!(
        tasks_for_page("Todo", "Upcoming", "2026-09-15", &[]),
        "group=upcoming&today=2026-09-15"
    );
    assert_eq!(
        tasks_for_page("Planner", "", "", &[s("2026-09-14"), s("2026-09-20")]),
        "from=2026-09-14&to=2026-09-20"
    );
    assert_eq!(
        tasks_for_page("Home", "", "2026-09-15", &[]),
        "group=today&today=2026-09-15"
    );
}

#[test]
fn new_notes_are_empty_with_their_own_id() {
    let a = new_note(s("Projects"));
    let b = new_note(s("Projects"));
    assert_eq!(a.folder, "Projects");
    assert!(a.markdown.is_empty() && a.revision.is_empty());
    assert_eq!(a.id.len(), 36);
    assert_eq!(&a.id[14..15], "4");
    assert_ne!(a.id, b.id);
}
