use folio::crypto::{b64_decode, b64_encode, digest, equal, hmac_matches, hmac_tag, uid};
use folio::folders::{
    check_folder_write, check_new_folder, check_note_folder, delete_blocked, delete_markers,
    folder_change, folder_paths, has_stuck_files, moved_path, notes_under, pending_rename_gate,
    rename_batch, rename_finished, rename_start, rename_target, within, FolderChange,
};
use folio::gateway::{
    auth_method, bearer_token, check_content_type, cookie_value, expected_origin,
    refresh_cookie_prefix, secret_long_enough,
};
use folio::indexing::{check_checkbox_count, index_note_tasks, index_tasks, index_tasks_drawn};
use folio::listing::{browse_page, entry_folder};
use folio::paths::{filename, id_path, path_id, valid_note_id};
use folio::recovery::{
    backup_file, batch_cursor, check_backup, check_goal_record, check_identity_record,
    check_task_record, migrate_plan, offline_outcome, prune_plan, record_file, restore_kind,
    Migrate, Prune, Restore,
};
use folio::routes::{is_auth_route, route, Route};
use folio::note::next_offset;
use folio::storage::{object_key, page_entries, version_matches, walk_entry, Entry};
use folio::timing::Timings;
use folio::vault::{
    canonical_folder, canonical_target, check_lock, check_move_copy, check_move_journal,
    check_move_source, check_save_revision, folder_markers, identity, legacy_file,
    move_cleanup, move_target_plan, note_markdown, note_revision, operation, resolve_collision,
    vault_folders,
};
use folio::auth::AuthMethod;
use folio::{checkboxes, NoteSummary, Task};

fn s(v: &str) -> String {
    v.to_string()
}

const ABC: &str = "ba7816bf8f01cfea414140de5dae2223b00361a396177a9cb410ff61f20015ad";

#[test]
fn digests_name_records_and_revisions() {
    assert_eq!(digest("abc"), ABC);
    assert_eq!(identity("abc"), format!(".folio/notes/{ABC}.json"));
    assert_eq!(operation("abc"), format!(".folio/moves/{ABC}.json"));
    assert_eq!(
        note_revision("# A", "Personal"),
        "e28b3c30ef2c3592e29651cd61bad7f18329f59e4fc3d00a9a88f82d2c51af04"
    );
    let id = uid();
    assert_eq!(id.len(), 36);
    assert_ne!(id, uid());
    for (i, c) in id.chars().enumerate() {
        if [8, 13, 18, 23].contains(&i) {
            assert_eq!(c, '-');
        } else {
            assert!(c.is_ascii_hexdigit() && !c.is_ascii_uppercase());
        }
    }
    assert_eq!(id.as_bytes()[14], b'4');
    assert!(b"89ab".contains(&id.as_bytes()[19]));
}

#[test]
fn encodings_and_macs_round_trip() {
    let text = b64_encode(b"hello?>");
    assert_eq!(text, "aGVsbG8_Pg");
    assert_eq!(b64_decode(&text), Some(b"hello?>".to_vec()));
    assert_eq!(b64_decode("***"), None);
    assert_eq!(b64_encode(&[0xfb, 0xff]), "-_8");
    assert_eq!(b64_encode(&[]), "");
    let tag = hmac_tag(b"key", b"message");
    assert_eq!(tag.len(), 32);
    assert_ne!(tag, b"message".to_vec());
    assert!(hmac_matches(b"key", b"message", &tag));
    assert!(!hmac_matches(b"other", b"message", &tag));
    assert!(equal("same", "same"));
    assert!(!equal("same", "Same"));
}

#[test]
fn path_handles_name_their_paths() {
    for path in ["Projects/Folio/설계.md", "a.md", "Notes/Plan (v2).md"] {
        let id = path_id(path);
        assert!(id.starts_with("p-"));
        assert!(valid_note_id(&id));
        assert_eq!(id_path(&id), Some(path.to_string()));
    }
    assert_eq!(path_id("a.md"), "p-612e6d64");
    assert_eq!(id_path("p-2e2e2f782e6d64"), None);
    assert_eq!(id_path("p-zz"), None);
    let upper = "p-612E6D64";
    let p = id_path(upper).unwrap();
    assert_eq!(p, "a.md");
    assert_eq!(path_id(&p), upper.to_ascii_lowercase());
    assert_eq!(id_path("p-612e6d6"), None);
    assert_eq!(id_path("612e6d64"), None);
    assert_eq!(id_path("p-612e6d+4"), None);
    assert_eq!(id_path("p-+a2e6d64"), None);
}

#[test]
fn file_names_are_single_note_segments() {
    for title in ["Plan", "  ../secret\\x  ", "...", "CON", "a:b*c?", "", &"긴".repeat(100), "Weekly. review."] {
        let f = filename(title);
        assert!(f.ends_with(".md"));
        assert!(!f.contains('/'));
        assert!(f.len() <= 143);
        assert!(valid_note_id(&path_id(&f)));
        assert_eq!(filename(f.strip_suffix(".md").unwrap()), f);
    }
    assert_eq!(filename("CON"), "Untitled note.md");
    assert_eq!(filename("Weekly. review."), "Weekly. review.md");
}

#[test]
fn folder_paths_and_inclusion() {
    assert_eq!(folder_paths("A/B/C"), vec![s("A"), s("A/B"), s("A/B/C")]);
    assert_eq!(folder_paths("/a"), vec![s(""), s("a")]);
    assert!(within("A/B", "A"));
    assert!(within("A", "A"));
    assert!(!within("AB", "A"));
    assert_eq!(moved_path("Projects/Old", "Projects/New", "Projects/Old/Leaf"), "Projects/New/Leaf");
}

#[test]
fn unfinished_renames_block_related_folders_only() {
    let job = Some((s("Projects/Old"), s("Projects/New")));
    let e = check_folder_write("Projects/Old/Sub", &job).unwrap_err();
    assert_eq!(e.status, 409);
    assert!(check_folder_write("Projects", &job).is_err());
    assert!(check_folder_write("Projects/New", &job).is_err());
    assert!(check_folder_write("Personal", &job).is_ok());
    assert!(check_folder_write("Projects/Old/Sub", &None).is_ok());
}

#[test]
fn rename_targets_stay_beside_the_source() {
    assert_eq!(rename_target("Projects/Old", "New").unwrap(), "Projects/New");
    assert_eq!(rename_target("Top", "Other").unwrap(), "Other");
    let e = rename_target("Projects/Old", "a/b").unwrap_err();
    assert_eq!((e.status, e.message.as_str()), (400, "Enter one valid folder name, without slashes."));
    assert_eq!(rename_target("Projects/Old", "../bad").unwrap_err().status, 400);
    let long = "x".repeat(150);
    let source = format!("{long}/{long}");
    let e = rename_target(&source, &"y".repeat(150)).unwrap_err();
    assert_eq!(e.message, "The resulting folder path is too long.");
}

#[test]
fn pending_renames_resume_or_refuse() {
    let job = Some((s("A"), s("B")));
    assert_eq!(pending_rename_gate(&job, "A", "B").unwrap(), true);
    assert_eq!(pending_rename_gate(&None, "A", "B").unwrap(), false);
    assert_eq!(pending_rename_gate(&job, "A", "C").unwrap_err().status, 409);
}

#[test]
fn rename_start_checks_in_order() {
    let none: Vec<String> = vec![];
    assert_eq!(rename_start("A", "B", false, false, &none, &none, &none).unwrap_err().status, 404);
    assert_eq!(rename_start("A", "A", true, false, &none, &none, &none).unwrap(), true);
    assert_eq!(rename_start("A", "B", true, true, &none, &none, &none).unwrap_err().status, 409);
    let deep = vec![format!("A/{}", "x".repeat(239))];
    let e = rename_start("A", "BB", true, false, &deep, &none, &none).unwrap_err();
    assert_eq!(e.message, "A descendant folder path would exceed 240 bytes.");
    let e = rename_start("A", "Taken", true, false, &none, &[s("taken")], &none).unwrap_err();
    assert_eq!(e.message, "A folder with this name already exists, including its letter case.");
    let e = rename_start("A", "B", true, false, &none, &none, &[s("A/picture.png")]).unwrap_err();
    assert_eq!(e.status, 409);
    assert!(has_stuck_files("A", &[s("A/picture.png")]));
    assert!(!has_stuck_files("A", &[s("A/n.md"), s("A/Sub/.folio-folder"), s("B/x.png")]));
    assert_eq!(
        rename_start("A", "B", true, false, &[s("A"), s("A/C")], &[s("A")], &[s("A/n.md")]).unwrap(),
        false
    );
}

#[test]
fn deleting_needs_an_empty_folder_and_removes_deepest_markers_first() {
    let entries = vec![
        s("P/.folio-folder"),
        s("P/A/.folio-folder"),
        s("P/A/B/.folio-folder"),
        s("P/C/.folio-folder"),
        s("Q/.folio-folder"),
    ];
    assert!(!delete_blocked("P", &entries));
    assert!(delete_blocked("P", &[s("P/n.md")]));
    assert_eq!(
        delete_markers("P", &entries),
        vec![
            s("P/A/B/.folio-folder"),
            s("P/A/.folio-folder"),
            s("P/C/.folio-folder"),
            s("P/.folio-folder")
        ]
    );
}

#[test]
fn folder_requests_are_classified_and_duplicates_refused() {
    assert!(matches!(folder_change("PUT", "A").unwrap(), FolderChange::Rename));
    assert!(matches!(folder_change("POST", "A").unwrap(), FolderChange::Create));
    assert!(matches!(folder_change("DELETE", "A").unwrap(), FolderChange::Delete));
    assert_eq!(folder_change("POST", "../A").unwrap_err().status, 400);
    assert_eq!(check_new_folder("Work", &[s("work")], false).unwrap_err().status, 409);
    assert!(check_new_folder("Work", &[s("Home")], true).is_err());
    assert!(check_new_folder("Work", &[s("Home")], false).is_ok());
    assert!(check_note_folder("B/x", "B/x", "A").is_ok());
    assert!(check_note_folder("A/x", "B/x", "A").is_ok());
    assert_eq!(check_note_folder("C", "B/x", "A").unwrap_err().status, 409);
    assert_eq!(notes_under("A", &[s("A/x.md"), s("A/.hidden.md"), s("B/y.md"), s("A/B/z.md")]), vec![s("A/x.md"), s("A/B/z.md")]);
    let stored = [s("A/1.md"), s("B/2.md"), s("A/C/3.md"), s("A/4.md")];
    assert_eq!(rename_batch("A", &stored), vec![s("A/1.md"), s("A/C/3.md")]);
    assert_eq!(rename_batch("B", &stored), vec![s("B/2.md")]);
    assert!(rename_batch("D", &stored).is_empty());
}

#[test]
fn stored_notes_give_their_folder_and_text() {
    let legacy = "<!-- folio-folder:\"Projects/Legacy\" -->\n# Old title\n";
    assert!(legacy_file("legacy", "legacy.md"));
    assert!(!legacy_file("legacy", "Projects/legacy.md"));
    assert_eq!(canonical_folder("legacy", "legacy.md", legacy, None), "Projects/Legacy");
    assert_eq!(canonical_folder("old", "old.md", "# T", Some(s("Work"))), "Work");
    assert_eq!(canonical_folder("old", "old.md", "# T", None), "Personal");
    assert_eq!(canonical_folder("x", "A/B/x.md", legacy, None), "A/B");
    assert_eq!(note_markdown("legacy", "legacy.md", legacy), "# Old title\n");
    assert_eq!(note_markdown("x", "A/x.md", legacy), legacy);
}

#[test]
fn saves_need_the_current_revision() {
    let current = Some((s("# A"), s("Personal"), s("rev1")));
    assert!(check_save_revision("# B", "Personal", &Some(s("rev1")), &current).is_ok());
    assert!(check_save_revision("# A", "Personal", &None, &current).is_ok());
    let e = check_save_revision("# B", "Personal", &Some(s("old")), &current).unwrap_err();
    assert_eq!(e.status, 409);
    assert!(check_save_revision("# B", "P", &None, &None).is_ok());
    assert!(check_save_revision("# B", "P", &Some(s("")), &None).is_ok());
    assert_eq!(check_save_revision("# B", "P", &Some(s("x")), &None).unwrap_err().status, 409);
    assert!(check_lock(&Some(s("me")), "me").is_ok());
    assert_eq!(check_lock(&Some(s("you")), "me").unwrap_err().status, 409);
    assert!(check_lock(&None, "me").is_err());
}

#[test]
fn moves_are_checked_at_each_step() {
    assert!(check_move_journal("", "A/x.md").is_ok());
    assert_eq!(check_move_journal("bad", "A/x.md").unwrap_err().status, 503);
    assert!(check_move_journal("A/y.md", "../x.md").is_err());
    assert!(check_move_source(&Some(s("abc")), ABC).is_ok());
    assert_eq!(check_move_source(&Some(s("abd")), ABC).unwrap_err().status, 409);
    assert!(check_move_source(&None, ABC).is_ok());
    assert_eq!(move_target_plan("a.md", true, &Some(s("body")), "body").unwrap(), false);
    assert_eq!(move_target_plan("a.md", true, &Some(s("other")), "body").unwrap_err().status, 409);
    assert_eq!(move_target_plan("a.md", false, &None, "body").unwrap_err().status, 409);
    assert_eq!(move_target_plan("", false, &None, "body").unwrap(), true);
    assert!(check_move_copy(&Some(s("body")), "body").is_ok());
    assert_eq!(check_move_copy(&None, "body").unwrap_err().status, 503);
    assert_eq!(move_cleanup("a.md", "b.md", &Some(s("abc")), ABC).unwrap(), true);
    assert_eq!(move_cleanup("a.md", "b.md", &Some(s("x")), ABC).unwrap_err().status, 409);
    assert_eq!(move_cleanup("a.md", "a.md", &Some(s("abc")), ABC).unwrap(), false);
    assert_eq!(move_cleanup("", "b.md", &Some(s("abc")), ABC).unwrap(), false);
}

#[test]
fn canonical_targets_and_collisions() {
    assert_eq!(canonical_target("Personal", "Plan", &None).unwrap(), "Personal/Plan.md");
    assert_eq!(canonical_target("", "Plan", &None).unwrap(), "Plan.md");
    assert_eq!(
        canonical_target("Work", "Plan", &Some((s("Old/kept.md"), s("Plan")))).unwrap(),
        "Work/kept.md"
    );
    assert_eq!(
        canonical_target("Work", "New", &Some((s("Old/kept.md"), s("Plan")))).unwrap(),
        "Work/New.md"
    );
    assert_eq!(canonical_target("../x", "Plan", &None).unwrap_err().status, 400);
    let entries = vec![s("Personal/Same.md")];
    assert_eq!(resolve_collision("Personal/Other.md", &entries, false, "n1").unwrap(), "Personal/Other.md");
    let e = resolve_collision("Personal/same.md", &entries, false, "n1").unwrap_err();
    assert_eq!(e.status, 409);
    assert_eq!(
        resolve_collision("Personal/Same.md", &entries, true, "n1").unwrap(),
        "Personal/Same (676b8bb84ce7).md"
    );
    let both = vec![s("Personal/Same.md"), s("Personal/Same (676b8bb84ce7).md")];
    assert_eq!(resolve_collision("Personal/Same.md", &both, true, "n1").unwrap_err().status, 409);
    assert_eq!(
        folder_markers("A/B"),
        vec![s("A/.folio-folder"), s("A/B/.folio-folder")]
    );
    assert!(folder_markers("").is_empty());
}

#[test]
fn vault_folders_are_sorted_visible_and_valid() {
    let entries = vec![
        s("Work/Plans/a.md"),
        s(".folio/notes/x.json"),
        s("Empty/Nested/.folio-folder"),
        s("Personal/b.md"),
        s("top.md"),
        s("Work/.secret/c.md"),
    ];
    assert_eq!(
        vault_folders(&entries, &[s("Legacy"), s("../bad")]),
        vec![s("Empty"), s("Empty/Nested"), s("Legacy"), s("Personal"), s("Work"), s("Work/Plans")]
    );
}

#[test]
fn rebuild_and_migration_walk_their_phases() {
    assert!(matches!(restore_kind("A/n.md"), Restore::Note));
    assert!(matches!(restore_kind(".folio/notes/x.json"), Restore::Identity));
    assert!(matches!(restore_kind(".folio/tasks/t.json"), Restore::Task));
    assert!(matches!(restore_kind(".folio/goals/g.json"), Restore::Goal));
    assert!(matches!(restore_kind("A/.folio-folder"), Restore::Folder));
    assert!(matches!(restore_kind("A/x.png"), Restore::Skip));
    assert!(check_identity_record("n1", "A/n.md").is_ok());
    assert_eq!(check_identity_record("../x", "A/n.md").unwrap_err().status, 503);
    assert!(check_task_record("t1", false).is_ok());
    assert!(check_task_record("t1", true).is_err());
    assert!(check_goal_record("bad id").is_err());
    assert!(matches!(prune_plan("notes").unwrap(), Some((Prune::Notes, ref n)) if n == "tasks"));
    assert!(matches!(prune_plan("goals").unwrap(), Some((Prune::Goals, ref n)) if n == "done"));
    assert!(prune_plan("done").unwrap().is_none());
    assert_eq!(prune_plan("other").unwrap_err().message, "Invalid rebuild phase");
    assert!(matches!(migrate_plan("folders").unwrap(), Some((Migrate::Folders, ref n)) if n == "done"));
    assert_eq!(migrate_plan("notes").unwrap_err().status, 400);
    assert_eq!(batch_cursor("tasks", "goals", 2, "t9"), (s("tasks"), s("t9")));
    assert_eq!(batch_cursor("tasks", "goals", 1, "t9"), (s("goals"), s("")));
    assert_eq!(record_file("tasks", "t1"), ".folio/tasks/t1.json");
    assert_eq!(backup_file("legacy"), ".folio/legacy/legacy.md");
    assert!(check_backup(&Some(s("x")), "x").is_ok());
    assert_eq!(check_backup(&Some(s("y")), "x").unwrap_err().status, 409);
    assert_eq!(check_backup(&None, "x").unwrap_err().status, 503);
    assert!(offline_outcome(0).is_ok());
    let e = offline_outcome(12).unwrap_err();
    assert_eq!(e.status, 503);
    assert_eq!(
        e.message,
        "Rebuild completed with 12 skipped records. Inspect storage records or use Settings for details."
    );
}

#[test]
fn api_routes_dispatch_by_method_and_path() {
    assert!(is_auth_route("/api/auth/login"));
    assert!(!is_auth_route("/api/notes"));
    assert!(matches!(route("GET", "/api/workspace").unwrap().0, Route::Workspace));
    assert!(matches!(route("DELETE", "/api/folders").unwrap().0, Route::ChangeFolder));
    let (r, id) = route("PUT", "/api/notes/n1").unwrap();
    assert!(matches!(r, Route::SaveNote));
    assert_eq!(id, "n1");
    assert_eq!(route("GET", "/api/notes/../x").unwrap_err().status, 400);
    assert_eq!(route("POST", "/api/notes/n1").unwrap_err().status, 405);
    assert!(matches!(route("DELETE", "/api/tasks/t1").unwrap().0, Route::DeleteTask));
    assert_eq!(route("GET", "/api/goals/g1").unwrap_err().status, 405);
    assert_eq!(route("GET", "/api/unknown").unwrap_err().status, 404);
    assert_eq!(route("GET", "/api/tasks/bad id").unwrap_err().message, "Invalid task ID");
}

#[test]
fn timings_report_each_operation_once_in_name_order() {
    let mut t = Timings::new();
    assert_eq!(t.server_timing(), "");
    t.record("r2_read", 5);
    t.record("d1_query", 2);
    t.record("r2_read", 7);
    let span = t.start("d1_batch", 100);
    t.finish(span, 90);
    assert_eq!(
        t.server_timing(),
        "d1_batch;dur=0;desc=\"1 calls\", d1_query;dur=2;desc=\"1 calls\", r2_read;dur=12;desc=\"2 calls\""
    );
    assert_eq!(t.clone().server_timing(), t.server_timing());
}

#[test]
fn reindexing_keeps_task_identity_across_reorders() {
    let md = "# Tasks\n- [ ] Alpha\n- [ ] Beta";
    let first = index_tasks(vec![], &checkboxes(md), "identity", 10);
    assert_eq!(first.len(), 2);
    assert_eq!(first[0].title, "Alpha");
    assert_eq!(first[0].source_line, Some(1));
    assert_eq!(first[0].created_at, 10);
    let again = index_tasks(first.clone(), &checkboxes(md), "identity", 20);
    assert_eq!(again[0].id, first[0].id);
    assert_eq!(again[1].id, first[1].id);
    assert_eq!(again[0].created_at, 10);
    assert_eq!(again[0].updated_at, 20);
    let reordered = "# Tasks\n- [ ] Inserted\n- [ ] Beta\n- [x] Alpha @due(2026-09-15)";
    let moved = index_tasks(first.clone(), &checkboxes(reordered), "identity", 30);
    assert_eq!(moved.len(), 3);
    assert_eq!(moved[0].title, "Inserted");
    assert!(moved[0].id != first[0].id && moved[0].id != first[1].id);
    assert_eq!(moved[1].id, first[1].id);
    assert_eq!(moved[2].id, first[0].id);
    assert!(moved[2].completed);
    assert_eq!(moved[2].due_date.as_deref(), Some("2026-09-15"));
    let renamed = index_tasks(
        vec![Task { id: s("keep"), title: s("Old"), source_line: Some(1), ..Task::default() }],
        &checkboxes("# T\n- [ ] New"),
        "n",
        5,
    );
    assert_eq!(renamed[0].id, "keep");
    let draws = vec![s("d0"), s("d1"), s("d2")];
    let drawn = index_tasks_drawn(first.clone(), &checkboxes(reordered), "identity", 30, &draws);
    assert_eq!(drawn[0].id, "d0");
    assert_eq!(drawn[1].id, first[1].id);
    assert_eq!(drawn[2].id, first[0].id);
    let two_new = index_tasks_drawn(vec![], &checkboxes("- [ ] A\n- [ ] B"), "n", 1, &draws);
    assert_eq!((two_new[0].id.as_str(), two_new[1].id.as_str()), ("d0", "d1"));
    assert_eq!(check_checkbox_count(2001).unwrap_err().status, 400);
    assert!(check_checkbox_count(2000).is_ok());
}

#[test]
fn browsing_filters_sorts_and_pages() {
    let n = |id: &str, folder: &str, t: u64| NoteSummary {
        id: id.into(),
        folder: folder.into(),
        updated_at: t,
        ..Default::default()
    };
    let items = vec![
        n("b", "Work", 5),
        n("a", "Work/Sub", 5),
        n("c", "Personal", 9),
        n("d", "Archive", 10),
    ];
    let (page, next) = browse_page(&items, "", false, false, 0);
    let ids: Vec<&str> = page.iter().map(|x| x.id.as_str()).collect();
    assert_eq!(ids, vec!["c", "a", "b"]);
    assert_eq!(next, None);
    let (page, _) = browse_page(&items, "Work", true, false, 0);
    assert_eq!(page.len(), 1);
    let (page, _) = browse_page(&items, "Work", false, false, 0);
    assert_eq!(page.len(), 2);
    let (page, _) = browse_page(&items, "", false, true, 0);
    assert_eq!(page[0].id, "d");
    let many: Vec<NoteSummary> = (0..60).map(|i| n(&format!("n{i:02}"), "P", 1)).collect();
    let (page, next) = browse_page(&many, "", false, false, 0);
    assert_eq!((page.len(), next), (50, Some(50)));
    let (page, next) = browse_page(&many, "", false, false, 50);
    assert_eq!((page.len(), next), (10, None));
    assert_eq!(page[0].id, "n50");
    assert!(browse_page(&many, "", false, false, 70).0.is_empty());
    assert_eq!(entry_folder("legacy.md", Some(s("Projects/Legacy"))), "Projects/Legacy");
    assert_eq!(entry_folder("A/b.md", Some(s("X"))), "A");
    assert_eq!(entry_folder("legacy.md", None), "");
}

#[test]
fn gateway_reads_headers() {
    assert!(check_content_type("GET", "").is_ok());
    assert!(check_content_type("POST", "application/json; charset=utf-8").is_ok());
    assert_eq!(check_content_type("POST", "text/plain").unwrap_err().status, 415);
    assert_eq!(cookie_value("a=1; folio_refresh=tok; b=2", "folio_refresh="), "tok");
    assert_eq!(cookie_value("a=1", "folio_refresh="), "");
    assert_eq!(refresh_cookie_prefix(true), "__Host-folio_refresh=");
    assert_eq!(bearer_token("Bearer abc"), "abc");
    assert_eq!(bearer_token("Basic abc"), "");
    assert!(matches!(auth_method("password").unwrap(), AuthMethod::Password));
    assert!(matches!(auth_method("cloudflare_access").unwrap(), AuthMethod::CloudflareAccess));
    assert_eq!(auth_method("none").unwrap_err().status, 503);
    assert!(secret_long_enough(&"k".repeat(64)));
    assert!(!secret_long_enough(&"k".repeat(63)));
    let configured = "http://127.0.0.1:8788";
    assert_eq!(expected_origin(configured, &None, "127.0.0.1:8788"), configured);
    assert_eq!(expected_origin(configured, &None, "localhost:8788"), "http://localhost:8788");
    assert_eq!(
        expected_origin(configured, &Some(s("http://localhost:8080")), "x"),
        "http://localhost:8080"
    );
    assert_eq!(expected_origin(configured, &Some(s("https://evil.example")), "x"), configured);
}

#[test]
fn listings_page_distinct_sorted_paths() {
    let e = |p: &str, t: u64| Entry { path: p.into(), updated_at: t };
    let all = vec![e("b.md", 2), e("a.md", 1), e("c.md", 3), e("a.md", 9)];
    let first = page_entries(all.clone(), None, 2);
    let paths: Vec<&str> = first.entries.iter().map(|x| x.path.as_str()).collect();
    assert_eq!(paths, vec!["a.md", "b.md"]);
    assert_eq!(first.entries[0].updated_at, 1);
    assert_eq!(first.cursor, Some(s("b.md")));
    let second = page_entries(all.clone(), Some("b.md"), 2);
    assert_eq!(second.entries.len(), 1);
    assert_eq!(second.cursor, None);
    assert_eq!(page_entries(all, None, 0).entries.len(), 1);
    assert!(version_matches(&Some(s("v1")), Some("v1")));
    assert!(!version_matches(&Some(s("v1")), None));
    assert!(version_matches(&None, None));
    assert_eq!(object_key("A/b.md").unwrap(), "notes/A/b.md");
    assert_eq!(object_key("../b.md").unwrap_err(), "Invalid vault path");
}

#[test]
fn following_cursors_reads_every_path_once() {
    let e = |p: &str, t: u64| Entry { path: s(p), updated_at: t };
    let all = vec![e("d.md", 4), e("a.md", 1), e("c.md", 3), e("b.md", 2), e("a.md", 9), e("e.md", 5)];
    let mut seen = Vec::new();
    let mut cursor: Option<String> = None;
    loop {
        let page = page_entries(all.clone(), cursor.as_deref(), 2);
        seen.extend(page.entries.into_iter().map(|x| x.path));
        match page.cursor {
            Some(c) => cursor = Some(c),
            None => break,
        }
    }
    assert_eq!(seen, vec![s("a.md"), s("b.md"), s("c.md"), s("d.md"), s("e.md")]);
}

#[test]
fn pages_indexing_and_rename_end() {
    assert_eq!(next_offset(0, 51, 50), Some(50));
    assert_eq!(next_offset(50, 10, 50), None);
    assert_eq!(next_offset(100, 50, 50), None);
    assert_eq!(next_offset(200, 201, 200), Some(400));
    let md = "- [ ] One\n- [x] Two";
    assert!(index_note_tasks(vec![], md, true, "n", 1).unwrap().is_empty());
    let tasks = index_note_tasks(vec![], md, false, "n", 1).unwrap();
    assert_eq!(tasks.len(), 2);
    assert!(tasks[1].completed);
    let many = "- [ ] x\n".repeat(2001);
    assert_eq!(index_note_tasks(vec![], &many, false, "n", 1).unwrap_err().status, 400);
    assert!(index_note_tasks(vec![], &many, true, "n", 1).unwrap().is_empty());
    let stored = [s("A/x.md"), s("B/y.md"), s("A/.folio-folder")];
    assert!(!rename_finished("A", false, &stored));
    assert!(rename_finished("C", false, &stored));
    assert!(!rename_finished("C", true, &stored));
}

#[test]
fn directory_walk_lists_files_and_folder_markers() {
    let file = walk_entry("Plan.md", "A/Plan.md", false, false, true, 7).unwrap();
    assert_eq!((file.path.as_str(), file.updated_at), ("A/Plan.md", 7));
    let dir = walk_entry("B", "A/B", false, true, false, 9).unwrap();
    assert_eq!((dir.path.as_str(), dir.updated_at), ("A/B/.folio-folder", 0));
    assert!(walk_entry("link.md", "link.md", true, false, true, 1).is_none());
    assert!(walk_entry(".folio-tmp-123", "A/.folio-tmp-123", false, false, true, 1).is_none());
    assert!(walk_entry("pipe", "pipe", false, false, false, 1).is_none());
}
