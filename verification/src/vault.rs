//! Canonical note paths in the vault: identity and move records, the path a save writes
//! to, the checks of a resumable move, and the folders the vault shows.
use crate::crypto::{digest, sha256_hex};
use crate::failure::{fail, Failure};
use crate::folders::{folder_prefixes, folder_paths};
use crate::order::{insert_unique, str_eq, strictly_sorted, strs};
use crate::paths::{filename_stem, id_path_of, note_path_ok, parent_of};
use crate::planner::folder_ok;
use crate::text::{chars_of, lowercase, push_all, push_str, slice_copy, string_of, to_lowercase};
use vstd::prelude::*;

verus! {

/// The record that holds the current path of note `id`.
pub open spec fn identity_path(id: Seq<char>) -> Seq<char> {
    ".folio/notes/"@ + sha256_hex(id) + ".json"@
}

/// The journal of an unfinished move of note `id`.
pub open spec fn operation_path(id: Seq<char>) -> Seq<char> {
    ".folio/moves/"@ + sha256_hex(id) + ".json"@
}

/// The record that holds the current path of note `id`.
pub fn identity(id: &str) -> (r: String)
    ensures
        r@ == identity_path(id@),
{
    let mut r = ".folio/notes/".to_string();
    let d = digest(id);
    push_str(&mut r, d.as_str());
    push_str(&mut r, ".json");
    r
}

/// The journal of an unfinished move of note `id`.
pub fn operation(id: &str) -> (r: String)
    ensures
        r@ == operation_path(id@),
{
    let mut r = ".folio/moves/".to_string();
    let d = digest(id);
    push_str(&mut r, d.as_str());
    push_str(&mut r, ".json");
    r
}

/// The revision of a note: the digest of its Markdown, a NUL and its folder.
pub open spec fn revision_of(markdown: Seq<char>, folder: Seq<char>) -> Seq<char> {
    sha256_hex(markdown.push('\0') + folder)
}

/// The revision of a note with this Markdown and folder.
pub fn note_revision(markdown: &str, folder: &str) -> (r: String)
    ensures
        r@ == revision_of(markdown@, folder@),
{
    let mut text = markdown.to_string();
    text.push('\0');
    push_str(&mut text, folder);
    digest(text.as_str())
}

/// A note stored under the pre-path layout, `id.md`, whose ID is no path handle.
pub open spec fn is_legacy(id: Seq<char>, path: Seq<char>) -> bool {
    path == id + ".md"@ && id_path_of(id) is None
}

/// Whether `path` is the pre-path file of note `id`.
pub fn legacy_file(id: &str, path: &str) -> (r: bool)
    ensures
        r == is_legacy(id@, path@),
{
    let mut own = id.to_string();
    push_str(&mut own, ".md");
    str_eq(path, own.as_str()) && crate::paths::id_path(id).is_none()
}

/// The folder a stored note belongs to: the folder of its path; for a pre-path file the
/// folder recorded in it, else the one the index knows, else the default folder.
pub open spec fn folder_of_note(
    id: Seq<char>,
    path: Seq<char>,
    stored: Seq<char>,
    indexed: Option<Seq<char>>,
) -> Seq<char> {
    if !is_legacy(id, path) {
        parent_of(path)
    } else {
        match crate::note::content_of(stored).1 {
            Some(f) => f,
            None => match indexed {
                Some(f) => f,
                None => "Personal"@,
            },
        }
    }
}

/// The folder a stored note belongs to (see `folder_of_note`).
pub fn canonical_folder(id: &str, path: &str, stored: &str, indexed: Option<String>) -> (r: String)
    ensures
        r@ == folder_of_note(id@, path@, stored@, match indexed {
            Some(f) => Some(f@),
            None => None,
        }),
{
    if !legacy_file(id, path) {
        return crate::paths::folder(path);
    }
    match crate::note::content(stored).1 {
        Some(f) => f,
        None => match indexed {
            Some(f) => f,
            None => {
                let r = crate::planner::default_folder();
                r
            },
        },
    }
}

/// The Markdown of a stored note: a pre-path file loses its folder comment.
pub open spec fn markdown_of_note(id: Seq<char>, path: Seq<char>, stored: Seq<char>) -> Seq<char> {
    if is_legacy(id, path) {
        crate::note::content_of(stored).0
    } else {
        stored
    }
}

/// The Markdown of a stored note (see `markdown_of_note`).
pub fn note_markdown<'a>(id: &str, path: &str, stored: &'a str) -> (r: &'a str)
    ensures
        r@ == markdown_of_note(id@, path@, stored@),
{
    if legacy_file(id, path) {
        crate::note::content(stored).0
    } else {
        stored
    }
}

pub open spec fn changed_message() -> Seq<char> {
    "This note changed elsewhere. Your draft is preserved; reopen it or save as a new note."@
}

pub open spec fn deleted_message() -> Seq<char> {
    "This note was deleted elsewhere. Save your draft as a new note."@
}

/// Whether a save may overwrite what is stored. When the note exists (`current`: its
/// Markdown, folder and revision), the save must name that revision or change nothing;
/// when it does not, the save must name no revision.
pub fn check_save_revision(
    markdown: &str,
    folder: &str,
    revision: &Option<String>,
    current: &Option<(String, String, String)>,
) -> (r: Result<(), Failure>)
    ensures
        match current {
            Some(c) => {
                &&& r is Err <==> (!(revision matches Some(v) && v@ == c.2@) && !(c.0@ == markdown@
                    && c.1@ == folder@))
                &&& r matches Err(e) ==> e.status == 409 && e.message@ == changed_message()
            },
            None => {
                &&& r is Err <==> (revision matches Some(v) && v@.len() > 0)
                &&& r matches Err(e) ==> e.status == 409 && e.message@ == deleted_message()
            },
        },
{
    match current {
        Some(c) => {
            let named = match revision {
                Some(v) => str_eq(v.as_str(), c.2.as_str()),
                None => false,
            };
            if !named && !(str_eq(c.0.as_str(), markdown) && str_eq(c.1.as_str(), folder)) {
                return Err(
                    fail(
                        409,
                        "This note changed elsewhere. Your draft is preserved; reopen it or save as a new note.",
                    ),
                );
            }
            Ok(())
        },
        None => {
            let stale = match revision {
                Some(v) => chars_of(v.as_str()).len() > 0,
                None => false,
            };
            if stale {
                return Err(fail(409, "This note was deleted elsewhere. Save your draft as a new note."));
            }
            Ok(())
        },
    }
}

/// Refuses a move journal whose target, or whose non-empty source, is no note path.
pub fn check_move_journal(from: &str, to: &str) -> (r: Result<(), Failure>)
    ensures
        r is Err <==> (!note_path_ok(to@) || (from@.len() > 0 && !note_path_ok(from@))),
        r matches Err(e) ==> e.status == 503 && e.message@ == "Invalid move journal"@,
{
    if !crate::paths::note_path(to) || (chars_of(from).len() > 0 && !crate::paths::note_path(from)) {
        return Err(fail(503, "Invalid move journal"));
    }
    Ok(())
}

pub open spec fn source_changed_message() -> Seq<char> {
    "Source file changed during a move. Both paths have been preserved."@
}

/// Refuses to go on with a move when the source file still exists but no longer has the
/// content the journal recorded (by digest).
pub fn check_move_source(source: &Option<String>, source_digest: &str) -> (r: Result<(), Failure>)
    ensures
        r is Err <==> (source matches Some(m) && sha256_hex(m@) != source_digest@),
        r matches Err(e) ==> e.status == 409 && e.message@ == source_changed_message(),
{
    match source {
        Some(m) => {
            let d = digest(m.as_str());
            if !str_eq(d.as_str(), source_digest) {
                return Err(fail(409, "Source file changed during a move. Both paths have been preserved."));
            }
            Ok(())
        },
        None => Ok(()),
    }
}

pub open spec fn destination_changed_message() -> Seq<char> {
    "Destination changed during a move. Both files have been preserved."@
}

pub open spec fn source_missing_message() -> Seq<char> {
    "Move source is missing. Recovery record preserved."@
}

/// What a move does at its target: `Ok(false)` when the target already holds the body,
/// `Ok(true)` when the body must be written there; refused when the target holds something
/// else, or when neither the target nor the journal's source file exists.
pub fn move_target_plan(from: &str, source_present: bool, target: &Option<String>, body: &str) -> (r:
    Result<bool, Failure>)
    ensures
        match target {
            Some(t) => if t@ == body@ {
                r == Ok::<bool, Failure>(false)
            } else {
                r matches Err(e) && e.status == 409 && e.message@ == destination_changed_message()
            },
            None => if from@.len() > 0 && !source_present {
                r matches Err(e) && e.status == 409 && e.message@ == source_missing_message()
            } else {
                r == Ok::<bool, Failure>(true)
            },
        },
{
    match target {
        Some(t) => {
            if str_eq(t.as_str(), body) {
                Ok(false)
            } else {
                Err(fail(409, "Destination changed during a move. Both files have been preserved."))
            }
        },
        None => {
            if chars_of(from).len() > 0 && !source_present {
                Err(fail(409, "Move source is missing. Recovery record preserved."))
            } else {
                Ok(true)
            }
        },
    }
}

/// Refuses a move whose target, read back, does not hold the body.
pub fn check_move_copy(verified: &Option<String>, body: &str) -> (r: Result<(), Failure>)
    ensures
        r is Err <==> !(verified matches Some(v) && v@ == body@),
        r matches Err(e) ==> e.status == 503 && e.message@ == "Move verification failed"@,
{
    match verified {
        Some(v) => {
            if str_eq(v.as_str(), body) {
                Ok(())
            } else {
                Err(fail(503, "Move verification failed"))
            }
        },
        None => Err(fail(503, "Move verification failed")),
    }
}

/// Whether a finished move deletes its source file (`Ok(true)`): only when there is a
/// source, distinct from the target, that still exists unchanged; a changed one is refused.
pub fn move_cleanup(from: &str, to: &str, current: &Option<String>, source_digest: &str) -> (r: Result<bool, Failure>)
    ensures
        !(from@.len() > 0 && from@ != to@ && current is Some) ==> r == Ok::<bool, Failure>(false),
        match current {
            Some(m) => from@.len() > 0 && from@ != to@ ==> if sha256_hex(m@) == source_digest@ {
                r == Ok::<bool, Failure>(true)
            } else {
                (r matches Err(e) && e.status == 409 && e.message@ == "Source changed; preserved both files."@)
            },
            None => true,
        },
{
    if chars_of(from).len() > 0 && !str_eq(from, to) {
        match current {
            Some(m) => {
                let d = digest(m.as_str());
                if str_eq(d.as_str(), source_digest) {
                    Ok(true)
                } else {
                    Err(fail(409, "Source changed; preserved both files."))
                }
            },
            None => Ok(false),
        }
    } else {
        Ok(false)
    }
}

/// The last `/`-separated part of a path.
pub open spec fn last_part(path: Seq<char>) -> Seq<char> {
    path.skip(crate::text::last_index_of(path, '/') + 1)
}

/// The file name a save writes: a note stored in a folder keeps its file name while its
/// title is unchanged; otherwise the name comes from the title.
pub open spec fn file_name_for(current: Option<(Seq<char>, Seq<char>)>, title: Seq<char>) -> Seq<char> {
    match current {
        Some((path, old_title)) => if path.contains('/') && old_title == title {
            last_part(path)
        } else {
            filename_stem(title) + ".md"@
        },
        None => filename_stem(title) + ".md"@,
    }
}

/// The path a save writes to: the file name in the note's folder.
pub open spec fn target_for(folder: Seq<char>, current: Option<(Seq<char>, Seq<char>)>, title: Seq<char>) -> Seq<char> {
    if folder.len() == 0 {
        file_name_for(current, title)
    } else {
        folder.push('/') + file_name_for(current, title)
    }
}

/// The path a save of a note in `folder` with `title` writes to, given the current path and
/// title of the stored note; refused when that is no note path.
pub fn canonical_target(folder: &str, title: &str, current: &Option<(String, String)>) -> (r: Result<String, Failure>)
    ensures
        ({
            let cur = match current {
                Some(c) => Some((c.0@, c.1@)),
                None => None,
            };
            if note_path_ok(target_for(folder@, cur, title@)) {
                r matches Ok(t) && t@ == target_for(folder@, cur, title@)
            } else {
                r matches Err(e) && e.status == 400 && e.message@ == "Invalid note path"@
            }
        }),
{
    let keep = match current {
        Some(c) => crate::text::contains_char(chars_of(c.0.as_str()).as_slice(), '/') && str_eq(
            c.1.as_str(),
            title,
        ),
        None => false,
    };
    let name = if keep {
        match current {
            Some(c) => {
                let v = chars_of(c.0.as_str());
                let k = match crate::text::last_index_vec(v.as_slice(), '/') {
                    Some(k) => k,
                    None => 0,
                };
                proof {
                    crate::text::lemma_last_index_of_bounds(c.0@, '/');
                }
                let tail = slice_copy(v.as_slice(), k + 1, v.len());
                assert(tail@ =~= last_part(c.0@));
                string_of(tail.as_slice())
            },
            None => crate::paths::filename(title),
        }
    } else {
        crate::paths::filename(title)
    };
    let mut target = if chars_of(folder).len() == 0 {
        String::new()
    } else {
        let mut t = folder.to_string();
        t.push('/');
        t
    };
    push_str(&mut target, name.as_str());
    proof {
        if folder@.len() == 0 {
            assert(target@ =~= name@);
        }
    }
    if !crate::paths::note_path(target.as_str()) {
        return Err(fail(400, "Invalid note path"));
    }
    Ok(target)
}

/// Some stored path equals `path` when both are lowercased.
pub open spec fn occupied(entries: Seq<Seq<char>>, path: Seq<char>) -> bool {
    exists|i: int| 0 <= i < entries.len() && lowercase(#[trigger] entries[i]) == lowercase(path)
}

fn is_occupied(entries: &[String], path: &str) -> (r: bool)
    ensures
        r == occupied(strs(entries@), path@),
{
    let lower = to_lowercase(path);
    let mut i: usize = 0;
    while i < entries.len()
        invariant
            i <= entries.len(),
            lower@ == lowercase(path@),
            forall|k: int| 0 <= k < i ==> lowercase(#[trigger] strs(entries@)[k]) != lowercase(path@),
        decreases entries.len() - i,
    {
        let l = to_lowercase(entries[i].as_str());
        assert(strs(entries@)[i as int] == entries@[i as int]@);
        if str_eq(l.as_str(), lower.as_str()) {
            return true;
        }
        i = i + 1;
    }
    false
}

/// The path a migrated note takes when its own is occupied: the stem, the first 12 hex
/// digits of the digest of its ID in brackets, and `.md`.
pub open spec fn migration_alternative(target: Seq<char>, id: Seq<char>) -> Seq<char> {
    target.take(target.len() - 3) + " ("@ + sha256_hex(id).take(12) + ").md"@
}

pub open spec fn name_taken_message() -> Seq<char> {
    "A file with this name already exists in the folder. Choose another title."@
}

/// Where a note is written when `target` is occupied in the vault (names compared without
/// letter case): a save is refused; a migration takes the alternative name unless that is
/// occupied too.
pub fn resolve_collision(target: &str, entries: &[String], migrating: bool, id: &str) -> (r: Result<String, Failure>)
    requires
        ".md"@.is_suffix_of(target@),
    ensures
        !occupied(strs(entries@), target@) ==> (r matches Ok(t) && t@ == target@),
        occupied(strs(entries@), target@) && !migrating ==> (r matches Err(e) && e.status == 409
            && e.message@ == name_taken_message()),
        occupied(strs(entries@), target@) && migrating ==> if occupied(strs(entries@), migration_alternative(target@, id@)) {
            r matches Err(e) && e.status == 409 && e.message@ == "Migration destination exists. Originals preserved."@
        } else {
            r matches Ok(t) && t@ == migration_alternative(target@, id@)
        },
{
    if !is_occupied(entries, target) {
        return Ok(target.to_string());
    }
    if !migrating {
        return Err(fail(409, "A file with this name already exists in the folder. Choose another title."));
    }
    proof {
        reveal_strlit(".md");
    }
    let t = chars_of(target);
    let stem = slice_copy(t.as_slice(), 0, t.len() - 3);
    let d = chars_of(digest(id).as_str());
    let suffix = slice_copy(d.as_slice(), 0, 12);
    let mut alt = string_of(stem.as_slice());
    push_str(&mut alt, " (");
    push_all(&mut alt, suffix.as_slice());
    push_str(&mut alt, ").md");
    assert(alt@ =~= migration_alternative(target@, id@));
    if is_occupied(entries, alt.as_str()) {
        return Err(fail(409, "Migration destination exists. Originals preserved."));
    }
    Ok(alt)
}

/// A path part that hides a file from the folder list: a dot name other than a folder marker.
pub open spec fn hidden_part(part: Seq<char>) -> bool {
    part.len() > 0 && part[0] == '.' && part != ".folio-folder"@
}

/// A stored file that the folder list ignores: one with a hidden part in its path.
pub open spec fn hidden(path: Seq<char>) -> bool {
    exists|i: int| 0 <= i < crate::text::split(path, '/').len() && hidden_part(#[trigger] crate::text::split(path, '/')[i])
}

/// The folders that the stored file `entry` makes visible: its folder and those above it,
/// when it is not hidden and its folder is valid.
pub open spec fn shows(entry: Seq<char>, f: Seq<char>) -> bool {
    !hidden(entry) && folder_ok(parent_of(entry)) && folder_prefixes(parent_of(entry)).contains(f)
}

/// The folders shown for the vault: those its files make visible, and the valid ones the
/// index still lists (`legacy`, until the vault has moved to path storage).
pub open spec fn shown_folders(entries: Seq<Seq<char>>, legacy: Seq<Seq<char>>, n: int, m: int) -> Set<Seq<char>> {
    Set::new(
        |f: Seq<char>|
            (exists|i: int| 0 <= i < n && #[trigger] shows(entries[i], f)) || (exists|j: int|
                0 <= j < m && folder_ok(#[trigger] legacy[j]) && legacy[j] == f),
    )
}

fn is_hidden(path: &str) -> (r: bool)
    ensures
        r == hidden(path@),
{
    let parts = crate::text::split_vec(chars_of(path).as_slice(), '/');
    let marker = chars_of(".folio-folder");
    let mut i: usize = 0;
    while i < parts.len()
        invariant
            i <= parts.len(),
            crate::text::views(parts@) == crate::text::split(path@, '/'),
            marker@ == ".folio-folder"@,
            forall|k: int| 0 <= k < i ==> !hidden_part(#[trigger] crate::text::split(path@, '/')[k]),
        decreases parts.len() - i,
    {
        assert(crate::text::views(parts@)[i as int] == parts@[i as int]@);
        if parts[i].len() > 0 && parts[i][0] == '.' && !crate::text::eq_chars(parts[i].as_slice(), marker.as_slice()) {
            assert(hidden_part(crate::text::split(path@, '/')[i as int]));
            return true;
        }
        i = i + 1;
    }
    false
}

/// The folders shown for the vault, in `str` order and each once (see `shown_folders`).
pub fn vault_folders(entries: &[String], legacy: &[String]) -> (r: Vec<String>)
    ensures
        strictly_sorted(strs(r@)),
        strs(r@).to_set() == shown_folders(strs(entries@), strs(legacy@), entries@.len() as int, legacy@.len() as int),
{
    let ghost es = strs(entries@);
    let ghost ls = strs(legacy@);
    let mut r: Vec<String> = Vec::new();
    let mut i: usize = 0;
    assert(strs(r@).to_set() =~= shown_folders(es, ls, 0, 0));
    while i < entries.len()
        invariant
            i <= entries.len(),
            es == strs(entries@),
            ls == strs(legacy@),
            strictly_sorted(strs(r@)),
            strs(r@).to_set() == shown_folders(es, ls, i as int, 0),
        decreases entries.len() - i,
    {
        assert(es[i as int] == entries@[i as int]@);
        let f = crate::paths::folder(entries[i].as_str());
        if !is_hidden(entries[i].as_str()) && crate::planner::valid_folder(f.as_str()) {
            let ps = folder_paths(f.as_str());
            let ghost base = strs(r@).to_set();
            let mut k: usize = 0;
            while k < ps.len()
                invariant
                    k <= ps.len(),
                    strictly_sorted(strs(r@)),
                    strs(r@).to_set() == base + strs(ps@).take(k as int).to_set(),
                decreases ps.len() - k,
            {
                let ghost before = strs(r@);
                insert_unique(&mut r, crate::client::copy_string(&ps[k]));
                proof {
                    assert(strs(ps@).take(k + 1) =~= strs(ps@).take(k as int) + seq![ps@[k as int]@]);
                    Seq::lemma_to_set_insert_commutes(strs(ps@).take(k as int), ps@[k as int]@);
                    assert(strs(r@).to_set() =~= base + strs(ps@).take(k + 1).to_set());
                }
                k = k + 1;
            }
            proof {
                assert(strs(ps@).take(ps.len() as int) =~= strs(ps@));
                assert forall|g: Seq<char>| strs(r@).to_set().contains(g) <==> shown_folders(es, ls, i + 1, 0).contains(g) by {
                    if shows(es[i as int], g) {
                        assert(shown_folders(es, ls, i + 1, 0).contains(g));
                    }
                    if shown_folders(es, ls, i + 1, 0).contains(g) {
                        let w = choose|w: int| 0 <= w < i + 1 && #[trigger] shows(es[w], g);
                        if w < i {
                            assert(shown_folders(es, ls, i as int, 0).contains(g));
                        }
                    }
                }
                assert(strs(r@).to_set() =~= shown_folders(es, ls, i + 1, 0));
            }
        } else {
            proof {
                assert forall|g: Seq<char>| shown_folders(es, ls, i as int, 0).contains(g) <==> shown_folders(es, ls, i + 1, 0).contains(g) by {
                    if shown_folders(es, ls, i + 1, 0).contains(g) {
                        let w = choose|w: int| 0 <= w < i + 1 && #[trigger] shows(es[w], g);
                        if w == i {
                            assert(!shows(es[i as int], g));
                        }
                    }
                }
                assert(shown_folders(es, ls, i as int, 0) =~= shown_folders(es, ls, i + 1, 0));
            }
        }
        i = i + 1;
    }
    let n = entries.len();
    let mut j: usize = 0;
    while j < legacy.len()
        invariant
            j <= legacy.len(),
            n == es.len(),
            es == strs(entries@),
            ls == strs(legacy@),
            strictly_sorted(strs(r@)),
            strs(r@).to_set() == shown_folders(es, ls, n as int, j as int),
        decreases legacy.len() - j,
    {
        assert(ls[j as int] == legacy@[j as int]@);
        let ghost before = strs(r@).to_set();
        if crate::planner::valid_folder(legacy[j].as_str()) {
            insert_unique(&mut r, crate::client::copy_string(&legacy[j]));
        }
        proof {
            assert forall|g: Seq<char>| strs(r@).to_set().contains(g) <==> shown_folders(es, ls, n as int, j + 1).contains(g) by {
                if shown_folders(es, ls, n as int, j + 1).contains(g) && !shown_folders(es, ls, n as int, j as int).contains(g) {
                    let w = choose|w: int| 0 <= w < j + 1 && folder_ok(#[trigger] ls[w]) && ls[w] == g;
                    assert(w == j);
                }
                if g == ls[j as int] && folder_ok(ls[j as int]) {
                    assert(shown_folders(es, ls, n as int, j + 1).contains(g));
                }
            }
            assert(strs(r@).to_set() =~= shown_folders(es, ls, n as int, j + 1));
        }
        j = j + 1;
    }
    r
}

pub open spec fn busy_message() -> Seq<char> {
    "A save is already in progress for this note. Keep your draft and retry shortly."@
}

/// After claiming a note's lock, the save goes on only when the lock now names this owner.
pub fn check_lock(holder: &Option<String>, owner: &str) -> (r: Result<(), Failure>)
    ensures
        r is Err <==> !(holder matches Some(h) && h@ == owner@),
        r matches Err(e) ==> e.status == 409 && e.message@ == busy_message(),
{
    match holder {
        Some(h) => {
            if str_eq(h.as_str(), owner) {
                return Ok(());
            }
        },
        None => {},
    }
    Err(fail(409, "A save is already in progress for this note. Keep your draft and retry shortly."))
}

/// The markers that keep a folder and every folder above it in the vault.
pub open spec fn markers_for(folder: Seq<char>) -> Seq<Seq<char>> {
    if folder.len() == 0 {
        Seq::empty()
    } else {
        folder_prefixes(folder).map_values(|p: Seq<char>| p + "/.folio-folder"@)
    }
}

/// The markers that keep a folder and every folder above it in the vault (none for the root).
pub fn folder_markers(folder: &str) -> (r: Vec<String>)
    ensures
        strs(r@) == markers_for(folder@),
{
    let mut r: Vec<String> = Vec::new();
    if chars_of(folder).len() == 0 {
        assert(strs(r@) =~= Seq::<Seq<char>>::empty());
        return r;
    }
    let ps = folder_paths(folder);
    let mut i: usize = 0;
    while i < ps.len()
        invariant
            i <= ps.len(),
            folder@.len() > 0,
            strs(ps@) == folder_prefixes(folder@),
            strs(r@) == folder_prefixes(folder@).take(i as int).map_values(|p: Seq<char>| p + "/.folio-folder"@),
        decreases ps.len() - i,
    {
        let mut m = crate::client::copy_string(&ps[i]);
        push_str(&mut m, "/.folio-folder");
        let ghost before = strs(r@);
        r.push(m);
        assert(strs(ps@)[i as int] == ps@[i as int]@);
        assert(strs(r@) =~= before.push(ps@[i as int]@ + "/.folio-folder"@));
        assert(folder_prefixes(folder@).take(i + 1) =~= folder_prefixes(folder@).take(i as int).push(ps@[i as int]@));
        assert(strs(r@) =~= folder_prefixes(folder@).take(i + 1).map_values(|p: Seq<char>| p + "/.folio-folder"@));
        i = i + 1;
    }
    assert(folder_prefixes(folder@).take(ps@.len() as int) =~= folder_prefixes(folder@));
    r
}

proof fn lemma_last_index_after(s: Seq<char>, t: Seq<char>, c: char)
    requires
        !t.contains(c),
    ensures
        crate::text::last_index_of(s.push(c) + t, c) == s.len(),
    decreases t.len(),
{
    if t.len() == 0 {
        assert(s.push(c) + t =~= s.push(c));
    } else {
        assert((s.push(c) + t).drop_last() =~= s.push(c) + t.drop_last());
        assert((s.push(c) + t).last() == t.last());
        assert(t.last() == t[t.len() - 1]);
        assert(!t.drop_last().contains(c)) by {
            if t.drop_last().contains(c) {
                let k = choose|k: int| 0 <= k < t.drop_last().len() && t.drop_last()[k] == c;
                assert(t[k] == c);
            }
        }
        lemma_last_index_after(s, t.drop_last(), c);
    }
}

proof fn lemma_last_part_has_no_slash(path: Seq<char>)
    ensures
        !last_part(path).contains('/'),
    decreases path.len(),
{
    crate::text::lemma_last_index_of_bounds(path, '/');
    let k = crate::text::last_index_of(path, '/');
    if last_part(path).contains('/') {
        let j = choose|j: int| 0 <= j < last_part(path).len() && last_part(path)[j] == '/';
        lemma_found_after(path, '/', k + 1 + j);
    }
}

proof fn lemma_found_after(s: Seq<char>, c: char, i: int)
    requires
        0 <= i < s.len(),
        s[i] == c,
    ensures
        crate::text::last_index_of(s, c) >= i,
    decreases s.len(),
{
    if i < s.len() - 1 {
        assert(s.drop_last()[i] == s[i]);
        lemma_found_after(s.drop_last(), c, i);
    }
}

proof fn lemma_note_id_has_no_slash(id: Seq<char>)
    requires
        crate::paths::note_id_ok(id),
    ensures
        !id.contains('/'),
{
    if id.contains('/') {
        let j = choose|j: int| 0 <= j < id.len() && id[j] == '/';
        if !crate::paths::id_ok(id) {
            let h = id.skip(2);
            assert(seq!['p', '-'].is_prefix_of(id));
            assert(j >= 2) by {
                assert(id[0] == 'p' && id[1] == '-');
            }
            let k = (j - 2) / 2;
            assert(h.len() % 2 == 0);
            assert(0 <= k < h.len() / 2);
            assert(crate::paths::pair_value(h[2 * k], h[2 * k + 1]) is Some);
            assert(h[j - 2] == '/');
        }
    }
}

/// What a save writes reads back as saved: a note written in a folder at the path a save
/// chooses has the saved Markdown and folder when read, and so the saved revision.
pub proof fn lemma_saved_note_reads_back(
    id: Seq<char>,
    folder: Seq<char>,
    current: Option<(Seq<char>, Seq<char>)>,
    title: Seq<char>,
    markdown: Seq<char>,
    indexed: Option<Seq<char>>,
)
    requires
        crate::paths::note_id_ok(id),
        folder.len() > 0,
        note_path_ok(target_for(folder, current, title)),
    ensures
        markdown_of_note(id, target_for(folder, current, title), markdown) == markdown,
        folder_of_note(id, target_for(folder, current, title), markdown, indexed) == folder,
        revision_of(
            markdown_of_note(id, target_for(folder, current, title), markdown),
            folder_of_note(id, target_for(folder, current, title), markdown, indexed),
        ) == revision_of(markdown, folder),
{
    let name = file_name_for(current, title);
    let target = target_for(folder, current, title);
    assert(!name.contains('/')) by {
        match current {
            Some((path, old_title)) => {
                if path.contains('/') && old_title == title {
                    lemma_last_part_has_no_slash(path);
                } else {
                    lemma_stem_has_no_slash(title);
                }
            },
            None => lemma_stem_has_no_slash(title),
        }
    }
    lemma_last_index_after(folder, name, '/');
    assert(target =~= folder.push('/') + name);
    assert(parent_of(target) =~= folder);
    lemma_note_id_has_no_slash(id);
    assert(target[folder.len() as int] == '/');
    if target == id + ".md"@ {
        reveal_strlit(".md");
        assert((id + ".md"@)[folder.len() as int] == '/');
        if folder.len() < id.len() {
            assert(id[folder.len() as int] == '/');
        }
    }
}

proof fn lemma_stem_has_no_slash(title: Seq<char>)
    ensures
        !(filename_stem(title) + ".md"@).contains('/'),
{
    reveal_strlit(".md");
    reveal_strlit("Untitled note");
    let stem = filename_stem(title);
    let name = stem + ".md"@;
    if name.contains('/') {
        let j = choose|j: int| 0 <= j < name.len() && name[j] == '/';
        if j < stem.len() {
            assert(stem[j] == '/');
        }
    }
}

} // verus!
