use folio::auth::{
    attempts_gate, authorize, cookie, credentials, external_identity, login_decision,
    new_refresh_token, refresh_cookie, refresh_token_of, refresh_gate, setup_gate, AuthMethod, VerifiedIdentity,
};
use folio::note::{content, note_search, offset_from};
use folio::planning::{
    apply_goal_edit, apply_task_edit, rewrite_task_line, task_query, task_text,
    workspace_task_pairs, FieldEdit, GoalEdit, TaskEdit,
};
use folio::service::{admit_request, is_health, parse_query, query_get, Request};
use folio::tokens::{access_claims, check_claims, sign, verify, Claims};
use folio::{checkboxes, summarize, Goal, Note, Task};

const SECRET: &str = "test-key-only-not-for-production!test-key-only-not-for-production!";

fn s(v: &str) -> String {
    v.to_string()
}

#[test]
fn signed_tokens_verify_and_tampering_is_refused() {
    let payload = br#"{"sub":"local-owner","exp":2}"#;
    let token = sign(SECRET, payload).unwrap();
    assert_eq!(token.matches('.').count(), 2);
    assert_eq!(verify(SECRET, &token).unwrap(), payload.to_vec());
    let other = format!("{SECRET}x");
    assert_eq!(verify(&other, &token).unwrap_err().status, 401);
    let mut forged = token.clone();
    forged.push('A');
    assert_eq!(verify(SECRET, &forged).unwrap_err().status, 401);
    assert_eq!(verify(SECRET, "no-dots").unwrap_err().status, 401);
    assert_eq!(sign("short", payload).unwrap_err().status, 503);
}

#[test]
fn access_claims_last_three_hundred_seconds() {
    let c = access_claims(1_800_000_000_000, "owner", "owner@folio.dev", "password", "csrf");
    assert_eq!((c.iat, c.exp), (1_800_000_000, 1_800_000_300));
    assert!(check_claims(c.clone(), 1_800_000_299, "password").is_ok());
    assert_eq!(check_claims(c.clone(), 1_800_000_300, "password").unwrap_err().status, 401);
    assert!(check_claims(c.clone(), 1_800_000_000, "cloudflare_access").is_err());
    let forged = Claims { exp: c.exp + 1, ..c };
    assert!(check_claims(forged, 1_800_000_001, "password").is_err());
}

#[test]
fn passwords_hash_with_argon2id_and_legacy_hashes_upgrade() {
    let hash = folio::password::hash("A long local password!").unwrap();
    assert!(hash.starts_with("$argon2id$v=19$m=19456,t=2,p=1$"));
    assert_eq!(folio::password::verify("A long local password!", "", &hash), Some(false));
    assert_eq!(folio::password::verify("wrong", "", &hash), None);
    let legacy = "8d6a8daca72d761c43a93c48ab5402e781a164388e39fdd9da39d98aa984ced7";
    assert_eq!(folio::password::verify("A long local password!", "old-salt", legacy), Some(true));
    assert_eq!(folio::password::verify("wrong", "old-salt", legacy), None);
    assert_eq!(folio::password::verify("x", "old-salt", "not hex"), None);
}

#[test]
fn sign_in_gates() {
    assert_eq!(credentials("  owner ", "pw").unwrap(), "owner");
    assert_eq!(credentials("   ", "pw").unwrap_err().status, 400);
    assert_eq!(setup_gate(true, "local", &None, "", "a long test password").unwrap_err().status, 409);
    assert_eq!(setup_gate(false, "cloudflare", &None, "", "a long test password").unwrap_err().status, 503);
    let secret = Some(s("a-long-initial-setup-token-for-tests"));
    assert_eq!(setup_gate(false, "cloudflare", &secret, "wrong", "a long test password").unwrap_err().status, 403);
    assert!(setup_gate(false, "cloudflare", &secret, "a-long-initial-setup-token-for-tests", "a long test password").is_ok());
    assert_eq!(setup_gate(false, "local", &None, "", "short").unwrap_err().status, 400);
    assert_eq!(setup_gate(false, "local", &None, "", "한국어비").unwrap_err().status, 400);
    assert!(setup_gate(false, "local", &None, "", "비밀번호비밀번호비밀번호").is_ok());
    assert!(attempts_gate(Some(10)).is_ok());
    assert_eq!(attempts_gate(Some(11)).unwrap_err().status, 429);
    assert!(attempts_gate(None).is_err());
    assert_eq!(login_decision(&Some(s("owner")), "owner", Some(true)).unwrap(), true);
    assert_eq!(login_decision(&Some(s("owner")), "other", Some(false)).unwrap_err().status, 401);
    assert_eq!(login_decision(&None, "owner", Some(false)).unwrap_err().status, 401);
    assert_eq!(login_decision(&Some(s("owner")), "owner", None).unwrap_err().status, 401);
}

#[test]
fn cookies_and_refresh_requests() {
    assert_eq!(
        cookie("tok", false, 604800),
        "folio_refresh=tok; Path=/; HttpOnly; SameSite=Strict; Max-Age=604800"
    );
    assert!(cookie("tok", true, 1).starts_with("__Host-folio_refresh=tok;"));
    assert!(cookie("tok", true, 1).ends_with("Max-Age=1; Secure"));
    assert_eq!(
        refresh_cookie("t", false, 1_000_000, 400_000),
        "folio_refresh=t; Path=/; HttpOnly; SameSite=Strict; Max-Age=600"
    );
    assert!(refresh_cookie("t", false, 1, 400_000).ends_with("Max-Age=0"));
    let token = new_refresh_token();
    assert_eq!(token.len(), 72);
    assert_eq!(&token[8..9], "-");
    assert_eq!(&token[44..45], "-");
    assert_eq!(&token[50..51], "4");
    assert_ne!(token[..36], token[36..]);
    assert_eq!(refresh_token_of("ab", "cd"), "abcd");
    let mut req = Request {
        origin: Some(s("https://folio.test")),
        expected_origin: s("https://folio.test"),
        session: token,
        ..Request::default()
    };
    assert!(refresh_gate(&req).is_ok());
    req.session = s("short");
    assert_eq!(refresh_gate(&req).unwrap_err().status, 401);
    req.origin = None;
    assert_eq!(refresh_gate(&req).unwrap_err().status, 403);
}

#[test]
fn requests_are_authorized_by_identity_and_csrf() {
    let claims = access_claims(1_000, "sub", "user", "cloudflare_access", "csrf");
    let id = VerifiedIdentity { subject: s("sub"), username: s("user"), expires_at: 10 };
    assert!(external_identity(&Some(id.clone()), 5).is_ok());
    assert_eq!(external_identity(&Some(id.clone()), 10).unwrap_err().status, 401);
    let mut req = Request { method: s("PUT"), csrf: s("csrf"), identity: Some(id), ..Request::default() };
    assert!(authorize(AuthMethod::CloudflareAccess, 5, &req, claims.clone()).is_ok());
    req.csrf = s("forged");
    assert_eq!(authorize(AuthMethod::CloudflareAccess, 5, &req, claims.clone()).unwrap_err().status, 403);
    req.method = s("GET");
    assert!(authorize(AuthMethod::CloudflareAccess, 5, &req, claims.clone()).is_ok());
    req.identity = Some(VerifiedIdentity { subject: s("other"), username: s("u"), expires_at: 10 });
    assert_eq!(authorize(AuthMethod::CloudflareAccess, 5, &req, claims.clone()).unwrap_err().status, 401);
    assert!(authorize(AuthMethod::Password, 5, &req, claims).is_ok());
    assert_eq!(AuthMethod::CloudflareAccess.name(), "cloudflare_access");
}

#[test]
fn requests_are_admitted_before_they_are_read() {
    let mut req = Request { method: s("GET"), path: s("/api/health"), ..Request::default() };
    assert!(is_health(&req));
    assert!(admit_request(&req).is_ok());
    req.method = s("PATCH");
    assert_eq!(admit_request(&req).unwrap_err().status, 405);
    req.method = s("PUT");
    req.origin = Some(s("https://evil.example"));
    req.expected_origin = s("https://folio.example");
    assert_eq!(admit_request(&req).unwrap_err().status, 403);
    req.body = vec![0; folio::MAX_REQUEST_BYTES + 1];
    assert_eq!(admit_request(&req).unwrap_err().status, 413);
    let pairs = parse_query("q=caf%C3%A9&offset=3&q=last");
    assert_eq!(query_get(&pairs, "q"), Some(s("last")));
    assert_eq!(query_get(&pairs, "none"), None);
    assert_eq!(offset_from(&pairs, 100_000), 3);
}

#[test]
fn notes_are_summarized_and_searched() {
    let note = Note {
        id: s("n1"),
        markdown: s("\n# Plan  \nFirst line\nsecond"),
        folder: s("Archive/Old"),
        revision: s("r"),
    };
    let summary = summarize(&note, 7);
    assert_eq!(summary.title, "Plan");
    assert_eq!(summary.preview, "# Plan   First line second");
    assert!(summary.archived);
    assert_eq!(summary.updated_at, 7);
    let (body, folder) = content("<!-- folio-folder:\"Projects/Legacy\" -->\n# Old title\n\nKeep exactly.\n");
    assert_eq!(body, "# Old title\n\nKeep exactly.\n");
    assert_eq!(folder, Some(s("Projects/Legacy")));
    assert_eq!(content("plain").1, None);
    let search = note_search(&parse_query("q=Needle&folder=Work&exact=true")).unwrap().unwrap();
    assert_eq!(search.search, "needle");
    assert!(search.exact);
    assert!(note_search(&parse_query("folder=Work")).unwrap().is_none());
    let long = format!("q={}", "a".repeat(201));
    assert_eq!(note_search(&parse_query(&long)).unwrap_err().status, 400);
}

#[test]
fn task_edits_and_queries() {
    assert_eq!(
        task_text("Write 한국어 @due(2026-09-15) @time(09:30)"),
        (s("Write 한국어"), Some(s("2026-09-15")), Some(s("09:30")))
    );
    assert_eq!(task_text("Bad @due(2026-13-01)"), (s("Bad @due(2026-13-01)"), None, None));
    let task = Task {
        id: s("t"),
        title: s("Write 한국어"),
        completed: true,
        due_date: Some(s("2026-09-15")),
        ..Task::default()
    };
    let md = "# Plan\n\n- [ ] Write 한국어 @due(2026-09-15)\n";
    let out = rewrite_task_line(md, 2, "Write 한국어", &task).unwrap();
    assert_eq!(out, "# Plan\n\n- [x] Write 한국어 @due(2026-09-15)\n");
    assert_eq!(rewrite_task_line(md, 2, "Other", &task).unwrap_err().status, 409);
    let edited = apply_task_edit(
        task.clone(),
        TaskEdit { title: Some(s("  New ")), completed: Some(false), due_date: FieldEdit::Clear, due_time: FieldEdit::Keep },
        99,
    )
    .unwrap();
    assert_eq!(edited.title, "New");
    assert_eq!(edited.due_date, None);
    assert_eq!(edited.updated_at, 99);
    let bad = TaskEdit { title: None, completed: None, due_date: FieldEdit::Replace(s("2026-02-30")), due_time: FieldEdit::Keep };
    assert_eq!(apply_task_edit(task, bad, 1).unwrap_err().status, 400);
    let goal = Goal { id: s("g"), title: s("Goal"), status: s("active"), ..Goal::default() };
    let g = apply_goal_edit(goal.clone(), GoalEdit { title: None, description: None, status: Some(s("completed")), position: Some(3) }, 5).unwrap();
    assert_eq!((g.status.as_str(), g.position, g.updated_at), ("completed", 3, 5));
    assert!(apply_goal_edit(goal, GoalEdit { title: None, description: None, status: Some(s("lost")), position: None }, 5).is_err());
    assert!(task_query(&parse_query("from=2026-09-14&to=2026-09-20")).is_ok());
    assert_eq!(task_query(&parse_query("from=2026-13-01")).unwrap_err().status, 400);
    assert_eq!(workspace_task_pairs(&Some(s("2026-09-15"))).unwrap().len(), 2);
    assert_eq!(workspace_task_pairs(&Some(s("bad"))).unwrap_err().status, 400);
    assert!(workspace_task_pairs(&None).unwrap().is_empty());
}

#[test]
fn written_task_changes_only_its_checkbox() {
    let md = "* [ ] Call\r\n```\n- [ ] code\n```\n  - [X] Write\n- [ ] Last";
    let before = checkboxes(md);
    assert_eq!(before.len(), 3);
    let task = Task {
        id: s("t"),
        title: s("Write more"),
        completed: false,
        due_time: Some(s("08:15")),
        ..Task::default()
    };
    let out = rewrite_task_line(md, 4, "Write", &task).unwrap();
    assert_eq!(out, "* [ ] Call\r\n```\n- [ ] code\n```\n  - [ ] Write more @time(08:15)\n- [ ] Last");
    let after = checkboxes(&out);
    assert_eq!(after[0], before[0]);
    assert_eq!(after[1], (4, s("Write more @time(08:15)"), false));
    assert_eq!(after[2], before[2]);
    let done = Task { completed: true, ..task };
    let out = rewrite_task_line(md, 0, "Call", &done).unwrap();
    assert_eq!(checkboxes(&out)[0], (0, s("Write more @time(08:15)"), true));
    assert_eq!(checkboxes(&out)[1..], before[1..]);
}

#[test]
fn task_text_reads_back_what_a_task_edit_writes() {
    let (t, d, h) = ("Call Mina", "2026-09-15", "09:30");
    assert_eq!(task_text(&format!("{t} @due({d}) @time({h})")), (s(t), Some(s(d)), Some(s(h))));
    assert_eq!(task_text(&format!("{t} @due({d})")), (s(t), Some(s(d)), None));
    assert_eq!(task_text(&format!("{t} @time({h})")), (s(t), None, Some(s(h))));
    assert_eq!(task_text(t), (s(t), None, None));
    assert_eq!(task_text("Call @due(2025-02-29)"), (s("Call @due(2025-02-29)"), None, None));
}
