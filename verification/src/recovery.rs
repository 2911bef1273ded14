//! Rebuilding the index from the vault and migrating a pre-path vault, in small resumable
//! batches: which records a batch restores, and which batch comes next.
use crate::failure::{fail, Failure};
use crate::order::str_eq;
use crate::paths::{id_ok, note_id_ok, note_path_ok};
use crate::text::{chars_of, ends_with_lit, push_decimal, push_str, starts_with_lit};
use vstd::prelude::*;

verus! {

/// What a stored file restores during a rebuild.
#[derive(Clone, Copy, Debug, PartialEq, Eq, Structural)]
pub enum Restore {
    /// A note file: indexed again.
    Note,
    /// An identity record: the note it points to is indexed again.
    Identity,
    /// A standalone task record.
    Task,
    /// A goal record.
    Goal,
    /// A folder marker: its folder is listed again.
    Folder,
    /// Anything else.
    Skip,
}

/// What a stored file at `path` restores: notes first, then the records under `.folio/`,
/// then folder markers.
pub open spec fn restore_of(path: Seq<char>) -> Restore {
    if note_path_ok(path) {
        Restore::Note
    } else if ".folio/notes/"@.is_prefix_of(path) && ".json"@.is_suffix_of(path) {
        Restore::Identity
    } else if ".folio/tasks/"@.is_prefix_of(path) && ".json"@.is_suffix_of(path) {
        Restore::Task
    } else if ".folio/goals/"@.is_prefix_of(path) && ".json"@.is_suffix_of(path) {
        Restore::Goal
    } else if "/.folio-folder"@.is_suffix_of(path) {
        Restore::Folder
    } else {
        Restore::Skip
    }
}

/// What a stored file at `path` restores during a rebuild.
pub fn restore_kind(path: &str) -> (r: Restore)
    ensures
        r == restore_of(path@),
{
    let v = chars_of(path);
    if crate::paths::note_path_chars(v.as_slice()) {
        Restore::Note
    } else if starts_with_lit(v.as_slice(), ".folio/notes/") && ends_with_lit(v.as_slice(), ".json") {
        Restore::Identity
    } else if starts_with_lit(v.as_slice(), ".folio/tasks/") && ends_with_lit(v.as_slice(), ".json") {
        Restore::Task
    } else if starts_with_lit(v.as_slice(), ".folio/goals/") && ends_with_lit(v.as_slice(), ".json") {
        Restore::Goal
    } else if ends_with_lit(v.as_slice(), "/.folio-folder") {
        Restore::Folder
    } else {
        Restore::Skip
    }
}

/// Refuses an identity record whose note ID or path is malformed.
pub fn check_identity_record(id: &str, path: &str) -> (r: Result<(), Failure>)
    ensures
        r is Err <==> (!note_id_ok(id@) || !note_path_ok(path@)),
        r matches Err(e) ==> e.status == 503 && e.message@ == "Invalid note identity"@,
{
    if !crate::paths::valid_note_id(id) || !crate::paths::note_path(path) {
        return Err(fail(503, "Invalid note identity"));
    }
    Ok(())
}

/// Refuses a standalone task record with a malformed ID or a source note.
pub fn check_task_record(id: &str, has_source: bool) -> (r: Result<(), Failure>)
    ensures
        r is Err <==> (!id_ok(id@) || has_source),
        r matches Err(e) ==> e.status == 503 && e.message@ == "Invalid standalone task record"@,
{
    if !crate::paths::valid_id(id) || has_source {
        return Err(fail(503, "Invalid standalone task record"));
    }
    Ok(())
}

/// Refuses a goal record with a malformed ID.
pub fn check_goal_record(id: &str) -> (r: Result<(), Failure>)
    ensures
        r is Err <==> !id_ok(id@),
        r matches Err(e) ==> e.status == 503 && e.message@ == "Invalid goal record"@,
{
    if !crate::paths::valid_id(id) {
        return Err(fail(503, "Invalid goal record"));
    }
    Ok(())
}

/// The index tables a rebuild prunes, in turn, after the vault has been read.
#[derive(Clone, Copy, Debug, PartialEq, Eq, Structural)]
pub enum Prune {
    Notes,
    Tasks,
    Goals,
}

/// The table a prune phase names, and the phase after it; `Ok(None)` for `done`.
pub open spec fn prune_phase(phase: Seq<char>) -> Result<Option<(Prune, Seq<char>)>, (u16, Seq<char>)> {
    if phase == "notes"@ {
        Ok(Some((Prune::Notes, "tasks"@)))
    } else if phase == "tasks"@ {
        Ok(Some((Prune::Tasks, "goals"@)))
    } else if phase == "goals"@ {
        Ok(Some((Prune::Goals, "done"@)))
    } else if phase == "done"@ {
        Ok(None)
    } else {
        Err((400, "Invalid rebuild phase"@))
    }
}

/// The table a prune phase names and the phase after it, `None` once done; any other name
/// is refused.
pub fn prune_plan(phase: &str) -> (r: Result<Option<(Prune, String)>, Failure>)
    ensures
        match prune_phase(phase@) {
            Ok(None) => r matches Ok(None),
            Ok(Some((t, next))) => r matches Ok(Some((t2, n2))) && t2 == t && n2@ == next,
            Err((status, message)) => r matches Err(e) && e.status == status && e.message@ == message,
        },
{
    proof {
        reveal_strlit("notes");
        reveal_strlit("tasks");
        reveal_strlit("goals");
        reveal_strlit("done");
    }
    if str_eq(phase, "notes") {
        Ok(Some((Prune::Notes, "tasks".to_string())))
    } else if str_eq(phase, "tasks") {
        Ok(Some((Prune::Tasks, "goals".to_string())))
    } else if str_eq(phase, "goals") {
        Ok(Some((Prune::Goals, "done".to_string())))
    } else if str_eq(phase, "done") {
        Ok(None)
    } else {
        Err(fail(400, "Invalid rebuild phase"))
    }
}

/// The batches a migration walks through after the notes, and what each copies.
#[derive(Clone, Copy, Debug, PartialEq, Eq, Structural)]
pub enum Migrate {
    Tasks,
    Goals,
    Folders,
}

/// The batch a migration phase names, and the phase after it; `Ok(None)` for `done`.
pub open spec fn migrate_phase(phase: Seq<char>) -> Result<Option<(Migrate, Seq<char>)>, (u16, Seq<char>)> {
    if phase == "tasks"@ {
        Ok(Some((Migrate::Tasks, "goals"@)))
    } else if phase == "goals"@ {
        Ok(Some((Migrate::Goals, "folders"@)))
    } else if phase == "folders"@ {
        Ok(Some((Migrate::Folders, "done"@)))
    } else if phase == "done"@ {
        Ok(None)
    } else {
        Err((400, "Invalid migration phase"@))
    }
}

/// The batch a migration phase after the notes names and the phase after it, `None` once
/// done; any other name is refused.
pub fn migrate_plan(phase: &str) -> (r: Result<Option<(Migrate, String)>, Failure>)
    ensures
        match migrate_phase(phase@) {
            Ok(None) => r matches Ok(None),
            Ok(Some((t, next))) => r matches Ok(Some((t2, n2))) && t2 == t && n2@ == next,
            Err((status, message)) => r matches Err(e) && e.status == status && e.message@ == message,
        },
{
    proof {
        reveal_strlit("tasks");
        reveal_strlit("goals");
        reveal_strlit("folders");
        reveal_strlit("done");
    }
    if str_eq(phase, "tasks") {
        Ok(Some((Migrate::Tasks, "goals".to_string())))
    } else if str_eq(phase, "goals") {
        Ok(Some((Migrate::Goals, "folders".to_string())))
    } else if str_eq(phase, "folders") {
        Ok(Some((Migrate::Folders, "done".to_string())))
    } else if str_eq(phase, "done") {
        Ok(None)
    } else {
        Err(fail(400, "Invalid migration phase"))
    }
}

/// How many rows one batch handles.
pub const BATCH: usize = 2;

/// Where the next batch starts: a full batch stays in its phase after the last ID it handled;
/// a short one moves on to the next phase from the start.
pub open spec fn next_batch(phase: Seq<char>, next: Seq<char>, handled: nat, last_id: Seq<char>) -> (Seq<char>, Seq<char>) {
    if handled == BATCH {
        (phase, last_id)
    } else {
        (next, Seq::empty())
    }
}

/// Where the next batch starts (see `next_batch`).
pub fn batch_cursor(phase: &str, next: &str, handled: usize, last_id: &str) -> (r: (String, String))
    ensures
        (r.0@, r.1@) == next_batch(phase@, next@, handled as nat, last_id@),
{
    if handled == BATCH {
        (phase.to_string(), last_id.to_string())
    } else {
        (next.to_string(), String::new())
    }
}

/// The file a standalone record of `phase` (`tasks` or `goals`) with this ID is kept in.
pub open spec fn record_path(phase: Seq<char>, id: Seq<char>) -> Seq<char> {
    ".folio/"@ + phase + "/"@ + id + ".json"@
}

/// The file a standalone record of `phase` with this ID is kept in.
pub fn record_file(phase: &str, id: &str) -> (r: String)
    ensures
        r@ == record_path(phase@, id@),
{
    let mut r = ".folio/".to_string();
    push_str(&mut r, phase);
    push_str(&mut r, "/");
    push_str(&mut r, id);
    push_str(&mut r, ".json");
    r
}

/// The copy a migration keeps of a pre-path note before moving it.
pub open spec fn backup_path(id: Seq<char>) -> Seq<char> {
    ".folio/legacy/"@ + id + ".md"@
}

/// The copy a migration keeps of a pre-path note before moving it.
pub fn backup_file(id: &str) -> (r: String)
    ensures
        r@ == backup_path(id@),
{
    let mut r = ".folio/legacy/".to_string();
    push_str(&mut r, id);
    push_str(&mut r, ".md");
    r
}

/// Refuses a migration whose backup copy, read back, is missing or differs from the original.
pub fn check_backup(backup: &Option<String>, original: &str) -> (r: Result<(), Failure>)
    ensures
        backup is None ==> (r matches Err(e) && e.status == 503 && e.message@ == "Migration backup missing"@),
        backup matches Some(b) && b@ != original@ ==> (r matches Err(e) && e.status == 409
            && e.message@ == "Legacy backup differs. Original preserved."@),
        backup matches Some(b) && b@ == original@ ==> r is Ok,
{
    match backup {
        None => Err(fail(503, "Migration backup missing")),
        Some(b) => {
            if str_eq(b.as_str(), original) {
                Ok(())
            } else {
                Err(fail(409, "Legacy backup differs. Original preserved."))
            }
        },
    }
}

/// The failure of an offline rebuild or migration that skipped records, with their number.
pub open spec fn skipped_message(count: nat) -> Seq<char> {
    "Rebuild completed with "@ + crate::text::decimal(count) + " skipped records. Inspect storage records or use Settings for details."@
}

/// How an offline rebuild or migration ends: failed when records were skipped.
pub fn offline_outcome(skipped: u64) -> (r: Result<(), Failure>)
    ensures
        skipped == 0 ==> r is Ok,
        skipped > 0 ==> (r matches Err(e) && e.status == 503 && e.message@ == skipped_message(skipped as nat)),
{
    if skipped == 0 {
        return Ok(());
    }
    let mut m = "Rebuild completed with ".to_string();
    push_decimal(&mut m, skipped);
    push_str(&mut m, " skipped records. Inspect storage records or use Settings for details.");
    Err(fail(503, m.as_str()))
}

} // verus!
