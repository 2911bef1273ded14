//! Which handler an authorized API request goes to.
use crate::failure::{fail, Failure};
use crate::paths::{id_ok, note_id_ok};
use crate::text::{chars_of, eq_lit, slice_copy, starts_with_lit, string_of};
use vstd::prelude::*;

verus! {

/// The handlers of the authorized API.
#[derive(Clone, Copy, Debug, PartialEq, Eq, Structural)]
pub enum Route {
    Workspace,
    ListNotes,
    ListFolders,
    Rebuild,
    Migrate,
    PendingRename,
    ChangeFolder,
    ListTasks,
    CreateTask,
    ListGoals,
    CreateGoal,
    ReadNote,
    SaveNote,
    DeleteNote,
    SaveTask,
    DeleteTask,
    SaveGoal,
}

/// Requests under `/api/auth/` are answered before authorization.
pub open spec fn auth_route(path: Seq<char>) -> bool {
    "/api/auth/"@.is_prefix_of(path)
}

/// Whether a request goes to the authentication handlers.
pub fn is_auth_route(path: &str) -> (r: bool)
    ensures
        r == auth_route(path@),
{
    starts_with_lit(chars_of(path).as_slice(), "/api/auth/")
}

/// The handler of a request and the ID its path names (empty for collections), or why none
/// takes it: a malformed ID (400), a method the item does not take (405), or an unknown
/// path (404).
pub open spec fn route_spec(method: Seq<char>, path: Seq<char>) -> Result<(Route, Seq<char>), (u16, Seq<char>)> {
    let none = Seq::<char>::empty();
    if method == "GET"@ && path == "/api/workspace"@ {
        Ok((Route::Workspace, none))
    } else if method == "GET"@ && path == "/api/notes"@ {
        Ok((Route::ListNotes, none))
    } else if method == "GET"@ && path == "/api/folders"@ {
        Ok((Route::ListFolders, none))
    } else if method == "POST"@ && path == "/api/storage/rebuild"@ {
        Ok((Route::Rebuild, none))
    } else if method == "POST"@ && path == "/api/storage/migrate"@ {
        Ok((Route::Migrate, none))
    } else if method == "GET"@ && path == "/api/folders/rename"@ {
        Ok((Route::PendingRename, none))
    } else if (method == "POST"@ || method == "PUT"@ || method == "DELETE"@) && path == "/api/folders"@ {
        Ok((Route::ChangeFolder, none))
    } else if method == "GET"@ && path == "/api/tasks"@ {
        Ok((Route::ListTasks, none))
    } else if method == "POST"@ && path == "/api/tasks"@ {
        Ok((Route::CreateTask, none))
    } else if method == "GET"@ && path == "/api/goals"@ {
        Ok((Route::ListGoals, none))
    } else if method == "POST"@ && path == "/api/goals"@ {
        Ok((Route::CreateGoal, none))
    } else if "/api/notes/"@.is_prefix_of(path) {
        let id = path.skip(11);
        if !note_id_ok(id) {
            Err((400, "Invalid note ID"@))
        } else if method == "GET"@ {
            Ok((Route::ReadNote, id))
        } else if method == "PUT"@ {
            Ok((Route::SaveNote, id))
        } else if method == "DELETE"@ {
            Ok((Route::DeleteNote, id))
        } else {
            Err((405, "Method not allowed"@))
        }
    } else if "/api/tasks/"@.is_prefix_of(path) {
        let id = path.skip(11);
        if !id_ok(id) {
            Err((400, "Invalid task ID"@))
        } else if method == "PUT"@ {
            Ok((Route::SaveTask, id))
        } else if method == "DELETE"@ {
            Ok((Route::DeleteTask, id))
        } else {
            Err((405, "Method not allowed"@))
        }
    } else if "/api/goals/"@.is_prefix_of(path) {
        let id = path.skip(11);
        if !id_ok(id) {
            Err((400, "Invalid goal ID"@))
        } else if method != "PUT"@ {
            Err((405, "Method not allowed"@))
        } else {
            Ok((Route::SaveGoal, id))
        }
    } else {
        Err((404, "API route not found"@))
    }
}

fn is(v: &[char], lit: &str) -> (r: bool)
    ensures
        r == (v@ == lit@),
{
    eq_lit(v, lit)
}

/// The handler of an authorized request (see `route_spec`).
pub fn route(method: &str, path: &str) -> (r: Result<(Route, String), Failure>)
    ensures
        match route_spec(method@, path@) {
            Ok((k, id)) => r matches Ok((k2, id2)) && k2 == k && id2@ == id,
            Err((status, message)) => r matches Err(e) && e.status == status && e.message@ == message,
        },
{
    let m = chars_of(method);
    let p = chars_of(path);
    let get = is(m.as_slice(), "GET");
    let post = is(m.as_slice(), "POST");
    let put = is(m.as_slice(), "PUT");
    let delete = is(m.as_slice(), "DELETE");
    proof {
        reveal_strlit("");
    }
    let found = if get && is(p.as_slice(), "/api/workspace") {
        Some(Route::Workspace)
    } else if get && is(p.as_slice(), "/api/notes") {
        Some(Route::ListNotes)
    } else if get && is(p.as_slice(), "/api/folders") {
        Some(Route::ListFolders)
    } else if post && is(p.as_slice(), "/api/storage/rebuild") {
        Some(Route::Rebuild)
    } else if post && is(p.as_slice(), "/api/storage/migrate") {
        Some(Route::Migrate)
    } else if get && is(p.as_slice(), "/api/folders/rename") {
        Some(Route::PendingRename)
    } else if (post || put || delete) && is(p.as_slice(), "/api/folders") {
        Some(Route::ChangeFolder)
    } else if get && is(p.as_slice(), "/api/tasks") {
        Some(Route::ListTasks)
    } else if post && is(p.as_slice(), "/api/tasks") {
        Some(Route::CreateTask)
    } else if get && is(p.as_slice(), "/api/goals") {
        Some(Route::ListGoals)
    } else if post && is(p.as_slice(), "/api/goals") {
        Some(Route::CreateGoal)
    } else {
        None
    };
    if let Some(k) = found {
        return Ok((k, String::new()));
    }
    proof {
        reveal_strlit("/api/notes/");
        reveal_strlit("/api/tasks/");
        reveal_strlit("/api/goals/");
    }
    if starts_with_lit(p.as_slice(), "/api/notes/") {
        let idv = slice_copy(p.as_slice(), 11, p.len());
        assert(idv@ =~= path@.skip(11));
        let id = string_of(idv.as_slice());
        if !crate::paths::valid_note_id(id.as_str()) {
            return Err(fail(400, "Invalid note ID"));
        }
        if get {
            Ok((Route::ReadNote, id))
        } else if put {
            Ok((Route::SaveNote, id))
        } else if delete {
            Ok((Route::DeleteNote, id))
        } else {
            Err(fail(405, "Method not allowed"))
        }
    } else if starts_with_lit(p.as_slice(), "/api/tasks/") {
        let idv = slice_copy(p.as_slice(), 11, p.len());
        assert(idv@ =~= path@.skip(11));
        let id = string_of(idv.as_slice());
        if !crate::paths::valid_id(id.as_str()) {
            return Err(fail(400, "Invalid task ID"));
        }
        if put {
            Ok((Route::SaveTask, id))
        } else if delete {
            Ok((Route::DeleteTask, id))
        } else {
            Err(fail(405, "Method not allowed"))
        }
    } else if starts_with_lit(p.as_slice(), "/api/goals/") {
        let idv = slice_copy(p.as_slice(), 11, p.len());
        assert(idv@ =~= path@.skip(11));
        let id = string_of(idv.as_slice());
        if !crate::paths::valid_id(id.as_str()) {
            return Err(fail(400, "Invalid goal ID"));
        }
        if !put {
            return Err(fail(405, "Method not allowed"));
        }
        Ok((Route::SaveGoal, id))
    } else {
        Err(fail(404, "API route not found"))
    }
}

} // verus!
