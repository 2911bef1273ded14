//! The folder hierarchy: which paths a folder implies, what a rename moves, and when a
//! change to the hierarchy is refused.
use crate::failure::{fail, Failure};
use crate::order::{strs, str_eq};
use crate::paths::{note_path_ok, parent_of};
use crate::planner::{folder_ok, folder_ok_chars};
use crate::text::{
    chars_of, eq_chars, ends_with_chars, push_all, slice_copy, split, split_vec, starts_with_chars,
    string_of, views,
};
use vstd::prelude::*;

verus! {

/// The key of the short shared lease that keeps a hierarchy change and a note save apart.
/// It names an internal SQL row, never a note.
pub const FOLDER_LOCK: &'static str = "_folder_mutation";

/// `cur/part`, or `part` alone while `cur` is empty.
pub open spec fn joined(cur: Seq<char>, part: Seq<char>) -> Seq<char> {
    if cur.len() == 0 {
        part
    } else {
        cur.push('/') + part
    }
}

/// The running joins of `parts`: the first part, then each one joined to the join before.
pub open spec fn accumulate(parts: Seq<Seq<char>>) -> Seq<Seq<char>>
    decreases parts.len(),
{
    if parts.len() == 0 {
        Seq::empty()
    } else {
        let prev = accumulate(parts.drop_last());
        let cur = if prev.len() == 0 {
            Seq::<char>::empty()
        } else {
            prev.last()
        };
        prev.push(joined(cur, parts.last()))
    }
}

pub proof fn lemma_accumulate_len(parts: Seq<Seq<char>>)
    ensures
        accumulate(parts).len() == parts.len(),
    decreases parts.len(),
{
    if parts.len() > 0 {
        lemma_accumulate_len(parts.drop_last());
    }
}

/// The folder and each folder above it, outermost first: the running joins of the
/// `/`-separated parts of `path`.
pub open spec fn folder_prefixes(path: Seq<char>) -> Seq<Seq<char>> {
    accumulate(split(path, '/'))
}

/// The running joins of `parts`, as strings.
pub fn accumulate_parts(parts: &Vec<Vec<char>>) -> (r: Vec<String>)
    ensures
        strs(r@) == accumulate(views(parts@)),
{
    let mut out: Vec<String> = Vec::new();
    let mut current: Vec<char> = Vec::new();
    let mut i: usize = 0;
    while i < parts.len()
        invariant
            i <= parts.len(),
            strs(out@) == accumulate(views(parts@).take(i as int)),
            current@ == (if i == 0 {
                Seq::<char>::empty()
            } else {
                accumulate(views(parts@).take(i as int)).last()
            }),
        decreases parts.len() - i,
    {
        proof {
            lemma_accumulate_len(views(parts@).take(i as int));
            assert(views(parts@).take(i + 1).drop_last() =~= views(parts@).take(i as int));
        }
        if current.len() > 0 {
            current.push('/');
        }
        let mut k: usize = 0;
        let ghost before = current@;
        while k < parts[i].len()
            invariant
                i < parts.len(),
                k <= parts@[i as int].len(),
                current@ == before + parts@[i as int]@.take(k as int),
            decreases parts@[i as int].len() - k,
        {
            assert(parts@[i as int]@.take(k + 1) =~= parts@[i as int]@.take(k as int).push(
                parts@[i as int]@[k as int],
            ));
            current.push(parts[i][k]);
            k = k + 1;
        }
        assert(parts@[i as int]@.take(parts@[i as int]@.len() as int) =~= parts@[i as int]@);
        out.push(string_of(current.as_slice()));
        proof {
            let ps = views(parts@).take(i + 1);
            assert(ps.last() == parts@[i as int]@);
            assert(strs(out@) =~= strs(out@).drop_last().push(current@));
            assert(strs(out@).drop_last() =~= accumulate(views(parts@).take(i as int)));
            lemma_accumulate_len(ps);
        }
        i = i + 1;
    }
    assert(views(parts@).take(parts.len() as int) =~= views(parts@));
    out
}

/// The folder and every folder above it, outermost first.
pub fn folder_paths(path: &str) -> (r: Vec<String>)
    ensures
        strs(r@) == folder_prefixes(path@),
{
    let parts = split_vec(chars_of(path).as_slice(), '/');
    accumulate_parts(&parts)
}

/// `path` is `root` or lies inside it.
pub open spec fn inside(path: Seq<char>, root: Seq<char>) -> bool {
    path == root || root.push('/').is_prefix_of(path)
}

/// Lying inside is reflexive and transitive: the folder hierarchy is a preorder.
pub proof fn lemma_inside_order(a: Seq<char>, b: Seq<char>, c: Seq<char>)
    ensures
        inside(a, a),
        inside(a, b) && inside(b, c) ==> inside(a, c),
{
    if inside(a, b) && inside(b, c) && a != b && b != c {
        assert forall|i: int| 0 <= i < c.len() + 1 implies c.push('/')[i] == a[i] by {
            assert(c.push('/')[i] == b[i]);
            assert(b.push('/')[i] == a[i]);
        }
    }
}

/// Whether `path` is `root` or lies inside it.
pub fn within(path: &str, root: &str) -> (r: bool)
    ensures
        r == inside(path@, root@),
{
    let p = chars_of(path);
    let mut r = chars_of(root);
    if eq_chars(p.as_slice(), r.as_slice()) {
        return true;
    }
    r.push('/');
    starts_with_chars(p.as_slice(), r.as_slice())
}

/// A folder change at `path` touches a rename from `source` to `target` when either path
/// lies inside the other, for either end of the rename.
pub open spec fn touches_rename(path: Seq<char>, source: Seq<char>, target: Seq<char>) -> bool {
    inside(path, source) || inside(source, path) || inside(path, target) || inside(target, path)
}

pub open spec fn unfinished_rename_message() -> Seq<char> {
    "A folder rename is unfinished. Resume it from the Folders section before editing this hierarchy."@
}

/// Refuses a change at `path` while an unfinished rename (`source`, `target`) touches it.
pub fn check_folder_write(path: &str, job: &Option<(String, String)>) -> (r: Result<(), Failure>)
    ensures
        r is Err <==> (job matches Some(j) && touches_rename(path@, j.0@, j.1@)),
        r matches Err(e) ==> e.status == 409 && e.message@ == unfinished_rename_message(),
{
    match job {
        Some(j) => {
            let s = j.0.as_str();
            let t = j.1.as_str();
            if within(path, s) || within(s, path) || within(path, t) || within(t, path) {
                Err(
                    fail(
                        409,
                        "A folder rename is unfinished. Resume it from the Folders section before editing this hierarchy.",
                    ),
                )
            } else {
                Ok(())
            }
        },
        None => Ok(()),
    }
}

/// The folder `source` becomes when renamed to `name`: `name` beside it, under the same parent.
pub open spec fn sibling(source: Seq<char>, name: Seq<char>) -> Seq<char> {
    if crate::text::last_index_of(source, '/') >= 0 {
        parent_of(source).push('/') + name
    } else {
        name
    }
}

pub open spec fn bad_name_message() -> Seq<char> {
    "Enter one valid folder name, without slashes."@
}

pub open spec fn long_target_message() -> Seq<char> {
    "The resulting folder path is too long."@
}

/// The path a folder rename goes to, or why the new name is refused: a name with a `/` or
/// that is no valid folder, or a resulting path that is no valid folder (too long).
pub fn rename_target(source: &str, name: &str) -> (r: Result<String, Failure>)
    ensures
        (name@.contains('/') || !folder_ok(name@)) ==> (r matches Err(e) && e.status == 400
            && e.message@ == bad_name_message()),
        !(name@.contains('/') || !folder_ok(name@)) && !folder_ok(sibling(source@, name@)) ==> (
        r matches Err(e) && e.status == 400 && e.message@ == long_target_message()),
        !(name@.contains('/') || !folder_ok(name@)) && folder_ok(sibling(source@, name@)) ==> (
        r matches Ok(t) && t@ == sibling(source@, name@)),
{
    let n = chars_of(name);
    if crate::text::contains_char(n.as_slice(), '/') || !folder_ok_chars(n.as_slice()) {
        return Err(fail(400, "Enter one valid folder name, without slashes."));
    }
    let parent = crate::paths::folder(source);
    let s = chars_of(source);
    let has_parent = crate::text::contains_char(s.as_slice(), '/');
    proof {
        crate::text::lemma_last_index_of_bounds(source@, '/');
        if has_parent {
            let k = choose|k: int| 0 <= k < source@.len() && source@[k] == '/';
            lemma_last_index_found(source@, '/', k);
        } else {
            lemma_last_index_absent(source@, '/');
        }
    }
    let mut target = if has_parent {
        let mut t = parent;
        t.push('/');
        t
    } else {
        String::new()
    };
    push_all(&mut target, n.as_slice());
    proof {
        if !has_parent {
            assert(target@ =~= name@);
        }
    }
    if !crate::planner::valid_folder(target.as_str()) {
        return Err(fail(400, "The resulting folder path is too long."));
    }
    Ok(target)
}

proof fn lemma_last_index_found(s: Seq<char>, c: char, k: int)
    requires
        0 <= k < s.len(),
        s[k] == c,
    ensures
        crate::text::last_index_of(s, c) >= k,
    decreases s.len(),
{
    if k < s.len() - 1 {
        assert(s.drop_last()[k] == s[k]);
        lemma_last_index_found(s.drop_last(), c, k);
    }
}

proof fn lemma_last_index_absent(s: Seq<char>, c: char)
    requires
        !s.contains(c),
    ensures
        crate::text::last_index_of(s, c) == -1,
    decreases s.len(),
{
    if s.len() > 0 {
        assert(!s.drop_last().contains(c)) by {
            if s.drop_last().contains(c) {
                let k = choose|k: int| 0 <= k < s.drop_last().len() && s.drop_last()[k] == c;
                assert(s[k] == c);
            }
        }
        assert(s.last() != c) by {
            assert(s[s.len() - 1] == s.last());
        }
        lemma_last_index_absent(s.drop_last(), c);
    }
}

pub open spec fn finish_pending_message() -> Seq<char> {
    "Finish the pending folder rename first."@
}

/// Whether a rename from `source` to `target` resumes the pending one (`Ok(true)`), starts a
/// new one (`Ok(false)`), or is refused because another rename is pending.
pub fn pending_rename_gate(job: &Option<(String, String)>, source: &str, target: &str) -> (r:
    Result<bool, Failure>)
    ensures
        job is None ==> r == Ok::<bool, Failure>(false),
        job matches Some(j) && j.0@ == source@ && j.1@ == target@ ==> r == Ok::<bool, Failure>(true),
        job matches Some(j) && !(j.0@ == source@ && j.1@ == target@) ==> (r matches Err(e)
            && e.status == 409 && e.message@ == finish_pending_message()),
{
    match job {
        Some(j) => {
            if str_eq(j.0.as_str(), source) && str_eq(j.1.as_str(), target) {
                Ok(true)
            } else {
                Err(fail(409, "Finish the pending folder rename first."))
            }
        },
        None => Ok(false),
    }
}

/// Where `path`, inside the folder `source`, goes when `source` is renamed to `target`.
pub open spec fn moved(source: Seq<char>, target: Seq<char>, path: Seq<char>) -> Seq<char> {
    target + path.skip(source.len() as int)
}

/// A path moved by a rename lies inside the new folder, and moving it back restores it.
pub proof fn lemma_moved_back(source: Seq<char>, target: Seq<char>, path: Seq<char>)
    requires
        inside(path, source),
    ensures
        inside(moved(source, target, path), target),
        moved(target, source, moved(source, target, path)) == path,
{
    crate::client::lemma_rename_back(path, source, target);
    let m = moved(source, target, path);
    if path == source {
        assert(path.skip(source.len() as int) =~= Seq::<char>::empty());
        assert(m =~= target);
    } else {
        assert(source.push('/')[source.len() as int] == '/');
        assert(path[source.len() as int] == '/');
        assert forall|i: int| 0 <= i < target.len() + 1 implies target.push('/')[i] == m[i] by {
            if i == target.len() {
                assert(m[i] == path.skip(source.len() as int)[0]);
            }
        }
    }
}

/// Where `path`, inside the folder `source`, goes when `source` is renamed to `target`.
pub fn moved_path(source: &str, target: &str, path: &str) -> (r: String)
    requires
        source@.is_prefix_of(path@),
    ensures
        r@ == moved(source@, target@, path@),
{
    let p = chars_of(path);
    let n = chars_of(source).len();
    let rest = slice_copy(p.as_slice(), n, p.len());
    let mut r = string_of(chars_of(target).as_slice());
    push_all(&mut r, rest.as_slice());
    proof {
        assert(rest@ =~= path@.skip(source@.len() as int));
    }
    r
}

/// Whether every folder below `source` still is a valid folder once moved under `target`.
pub fn descendants_fit(source: &str, target: &str, descendants: &[String]) -> (r: bool)
    requires
        forall|i: int| 0 <= i < descendants@.len() ==> source@.is_prefix_of(#[trigger] descendants@[i]@),
    ensures
        r == forall|i: int|
            0 <= i < descendants@.len() ==> folder_ok(moved(source@, target@, #[trigger] descendants@[i]@)),
{
    let mut i: usize = 0;
    while i < descendants.len()
        invariant
            i <= descendants.len(),
            forall|k: int| 0 <= k < descendants@.len() ==> source@.is_prefix_of(#[trigger] descendants@[k]@),
            forall|k: int| 0 <= k < i ==> folder_ok(moved(source@, target@, #[trigger] descendants@[k]@)),
        decreases descendants.len() - i,
    {
        let m = moved_path(source, target, descendants[i].as_str());
        if !crate::planner::valid_folder(m.as_str()) {
            return false;
        }
        i = i + 1;
    }
    true
}

/// Whether one of `folders` equals `path` when both are lowercased.
pub fn same_name_exists(path: &str, folders: &[String]) -> (r: bool)
    ensures
        r == exists|i: int|
            0 <= i < folders@.len() && crate::text::lowercase(#[trigger] folders@[i]@)
                == crate::text::lowercase(path@),
{
    let lower = crate::text::to_lowercase(path);
    let mut i: usize = 0;
    while i < folders.len()
        invariant
            i <= folders.len(),
            lower@ == crate::text::lowercase(path@),
            forall|k: int|
                0 <= k < i ==> crate::text::lowercase(#[trigger] folders@[k]@) != crate::text::lowercase(path@),
        decreases folders.len() - i,
    {
        let l = crate::text::to_lowercase(folders[i].as_str());
        if str_eq(l.as_str(), lower.as_str()) {
            return true;
        }
        i = i + 1;
    }
    false
}

pub open spec fn marker_suffix() -> Seq<char> {
    "/.folio-folder"@
}

/// A stored file below `source` that a rename cannot carry: neither a note nor a folder marker.
pub open spec fn stuck(entry: Seq<char>, source: Seq<char>) -> bool {
    &&& source.push('/').is_prefix_of(entry)
    &&& !note_path_ok(entry)
    &&& !marker_suffix().is_suffix_of(entry)
}

fn is_marker(e: &[char]) -> (r: bool)
    ensures
        r == marker_suffix().is_suffix_of(e@),
{
    let m = chars_of("/.folio-folder");
    ends_with_chars(e, m.as_slice())
}

fn below(e: &[char], root: &str) -> (r: bool)
    ensures
        r == root@.push('/').is_prefix_of(e@),
{
    let mut p = chars_of(root);
    p.push('/');
    starts_with_chars(e, p.as_slice())
}

/// Whether some stored file below `source` cannot be moved by a rename.
pub fn has_stuck_files(source: &str, entries: &[String]) -> (r: bool)
    ensures
        r == exists|i: int| 0 <= i < entries@.len() && stuck(#[trigger] entries@[i]@, source@),
{
    proof {
        reveal_strlit("/.folio-folder");
    }
    let mut i: usize = 0;
    while i < entries.len()
        invariant
            i <= entries.len(),
            forall|k: int| 0 <= k < i ==> !stuck(#[trigger] entries@[k]@, source@),
        decreases entries.len() - i,
    {
        let e = chars_of(entries[i].as_str());
        if below(e.as_slice(), source) && !crate::paths::note_path_chars(e.as_slice())
            && !is_marker(e.as_slice()) {
            return true;
        }
        i = i + 1;
    }
    false
}

/// How a rename that is not pending starts: `Ok(true)` when the folder keeps its path (nothing
/// to do), `Ok(false)` when it may begin, or why it is refused.
pub open spec fn rename_start_result(
    source: Seq<char>,
    target: Seq<char>,
    source_known: bool,
    target_taken: bool,
    descendants: Seq<Seq<char>>,
    folders: Seq<Seq<char>>,
    entries: Seq<Seq<char>>,
) -> Result<bool, (u16, Seq<char>)> {
    if !source_known {
        Err((404, "Folder not found"@))
    } else if target == source {
        Ok(true)
    } else if target_taken {
        Err((409, "A folder with this name already exists."@))
    } else if exists|i: int| 0 <= i < descendants.len() && !folder_ok(moved(source, target, #[trigger] descendants[i])) {
        Err((400, "A descendant folder path would exceed 240 bytes."@))
    } else if exists|i: int|
        0 <= i < folders.len() && crate::text::lowercase(#[trigger] folders[i]) == crate::text::lowercase(target) {
        Err((409, "A folder with this name already exists, including its letter case."@))
    } else if exists|i: int| 0 <= i < entries.len() && stuck(#[trigger] entries[i], source) {
        Err((409, "This folder contains files Folio cannot move. Move those files with your storage tools first."@))
    } else {
        Ok(false)
    }
}

/// The checks before a new rename of `source` to `target` begins: the folder is known, the
/// target is free (also ignoring letter case), every moved descendant stays a valid folder,
/// and nothing below `source` is a file that cannot be moved.
pub fn rename_start(
    source: &str,
    target: &str,
    source_known: bool,
    target_taken: bool,
    descendants: &[String],
    folders: &[String],
    entries: &[String],
) -> (r: Result<bool, Failure>)
    requires
        forall|i: int| 0 <= i < descendants@.len() ==> source@.is_prefix_of(#[trigger] descendants@[i]@),
    ensures
        match rename_start_result(
            source@,
            target@,
            source_known,
            target_taken,
            strs(descendants@),
            strs(folders@),
            strs(entries@),
        ) {
            Ok(b) => r == Ok::<bool, Failure>(b),
            Err((status, message)) => r matches Err(e) && e.status == status && e.message@ == message,
        },
{
    proof {
        reveal_strlit("Folder not found");
        reveal_strlit("A folder with this name already exists.");
        reveal_strlit("A descendant folder path would exceed 240 bytes.");
        reveal_strlit("A folder with this name already exists, including its letter case.");
        reveal_strlit("This folder contains files Folio cannot move. Move those files with your storage tools first.");
        assert(forall|i: int| 0 <= i < descendants@.len() ==> #[trigger] strs(descendants@)[i] == descendants@[i]@);
        assert(forall|i: int| 0 <= i < folders@.len() ==> #[trigger] strs(folders@)[i] == folders@[i]@);
        assert(forall|i: int| 0 <= i < entries@.len() ==> #[trigger] strs(entries@)[i] == entries@[i]@);
    }
    if !source_known {
        return Err(fail(404, "Folder not found"));
    }
    if str_eq(target, source) {
        return Ok(true);
    }
    if target_taken {
        return Err(fail(409, "A folder with this name already exists."));
    }
    if !descendants_fit(source, target, descendants) {
        proof {
            let k = choose|k: int|
                0 <= k < descendants@.len() && !folder_ok(moved(source@, target@, #[trigger] descendants@[k]@));
            assert(!folder_ok(moved(source@, target@, strs(descendants@)[k])));
        }
        return Err(fail(400, "A descendant folder path would exceed 240 bytes."));
    }
    assert(forall|i: int| 0 <= i < descendants@.len() ==> folder_ok(moved(source@, target@, #[trigger] strs(descendants@)[i])));
    if same_name_exists(target, folders) {
        proof {
            let k = choose|k: int|
                0 <= k < folders@.len() && crate::text::lowercase(#[trigger] folders@[k]@)
                    == crate::text::lowercase(target@);
            assert(crate::text::lowercase(strs(folders@)[k]) == crate::text::lowercase(target@));
        }
        return Err(fail(409, "A folder with this name already exists, including its letter case."));
    }
    assert(forall|i: int| 0 <= i < folders@.len() ==> crate::text::lowercase(#[trigger] strs(folders@)[i]) != crate::text::lowercase(target@));
    if has_stuck_files(source, entries) {
        proof {
            let k = choose|k: int| 0 <= k < entries@.len() && stuck(#[trigger] entries@[k]@, source@);
            assert(stuck(strs(entries@)[k], source@));
        }
        return Err(
            fail(
                409,
                "This folder contains files Folio cannot move. Move those files with your storage tools first.",
            ),
        );
    }
    assert(forall|i: int| 0 <= i < entries@.len() ==> !stuck(#[trigger] strs(entries@)[i], source@));
    Ok(false)
}

/// A stored file below `path` that keeps a folder from being deleted: anything but a marker.
pub open spec fn blocks_delete(entry: Seq<char>, path: Seq<char>) -> bool {
    path.push('/').is_prefix_of(entry) && !marker_suffix().is_suffix_of(entry)
}

/// Whether a file other than a folder marker lies below `path`.
pub fn delete_blocked(path: &str, entries: &[String]) -> (r: bool)
    ensures
        r == exists|i: int| 0 <= i < entries@.len() && blocks_delete(#[trigger] entries@[i]@, path@),
{
    let mut i: usize = 0;
    while i < entries.len()
        invariant
            i <= entries.len(),
            forall|k: int| 0 <= k < i ==> !blocks_delete(#[trigger] entries@[k]@, path@),
        decreases entries.len() - i,
    {
        let e = chars_of(entries[i].as_str());
        if below(e.as_slice(), path) && !is_marker(e.as_slice()) {
            return true;
        }
        i = i + 1;
    }
    false
}

/// The folder markers below `path`, in the order they are stored.
pub open spec fn markers_below(entries: Seq<Seq<char>>, path: Seq<char>) -> Seq<Seq<char>>
    decreases entries.len(),
{
    if entries.len() == 0 {
        entries
    } else if path.push('/').is_prefix_of(entries.last()) && marker_suffix().is_suffix_of(
        entries.last(),
    ) {
        markers_below(entries.drop_last(), path).push(entries.last())
    } else {
        markers_below(entries.drop_last(), path)
    }
}

/// The strings of `s` with exactly `n` characters, in order.
pub open spec fn of_len(s: Seq<Seq<char>>, n: nat) -> Seq<Seq<char>>
    decreases s.len(),
{
    if s.len() == 0 {
        s
    } else if s.last().len() == n {
        of_len(s.drop_last(), n).push(s.last())
    } else {
        of_len(s.drop_last(), n)
    }
}

proof fn lemma_of_len_add(a: Seq<Seq<char>>, b: Seq<Seq<char>>, n: nat)
    ensures
        of_len(a + b, n) == of_len(a, n) + of_len(b, n),
    decreases b.len(),
{
    if b.len() == 0 {
        assert(a + b =~= a);
        assert(of_len(a, n) + of_len(b, n) =~= of_len(a, n));
    } else {
        lemma_of_len_add(a, b.drop_last(), n);
        assert((a + b).drop_last() =~= a + b.drop_last());
        assert((a + b).last() == b.last());
        if b.last().len() == n {
            assert(of_len(a, n) + of_len(b.drop_last(), n).push(b.last()) =~= (of_len(a, n)
                + of_len(b.drop_last(), n)).push(b.last()));
        }
    }
}

proof fn lemma_of_len_none(s: Seq<Seq<char>>, n: nat)
    requires
        forall|i: int| 0 <= i < s.len() ==> (#[trigger] s[i]).len() != n,
    ensures
        of_len(s, n) == Seq::<Seq<char>>::empty(),
    decreases s.len(),
{
    if s.len() > 0 {
        assert(s.last() == s[s.len() - 1]);
        assert forall|i: int| 0 <= i < s.drop_last().len() implies (#[trigger] s.drop_last()[i]).len() != n by {
            assert(s.drop_last()[i] == s[i]);
        }
        lemma_of_len_none(s.drop_last(), n);
    }
}

/// Each string is at least as long as the next one.
pub open spec fn longest_first(s: Seq<Seq<char>>) -> bool {
    forall|i: int, j: int| 0 <= i < j < s.len() ==> (#[trigger] s[i]).len() >= (#[trigger] s[j]).len()
}

/// The folder markers below `path`, longest path first; markers of one length keep their
/// stored order (a stable sort by decreasing length). Deleting in this order empties each
/// folder before its parent.
pub fn delete_markers(path: &str, entries: &[String]) -> (r: Vec<String>)
    ensures
        longest_first(strs(r@)),
        strs(r@).to_multiset() == markers_below(strs(entries@), path@).to_multiset(),
        forall|n: nat| #[trigger] of_len(strs(r@), n) == of_len(markers_below(strs(entries@), path@), n),
        forall|k: int| 0 <= k < r@.len() ==> crate::paths::lies_inside(#[trigger] r@[k]@, path@),
{
    let mut r: Vec<String> = Vec::new();
    let mut i: usize = 0;
    proof {
        crate::order::lemma_empty_multiset(strs(r@));
        assert(strs(r@) =~= Seq::<Seq<char>>::empty());
        assert(strs(entries@).take(0) =~= Seq::<Seq<char>>::empty());
    }
    while i < entries.len()
        invariant
            i <= entries.len(),
            longest_first(strs(r@)),
            strs(r@).to_multiset() == markers_below(strs(entries@).take(i as int), path@).to_multiset(),
            forall|n: nat| #[trigger] of_len(strs(r@), n) == of_len(markers_below(strs(entries@).take(i as int), path@), n),
        decreases entries.len() - i,
    {
        let ghost es = strs(entries@).take(i + 1);
        assert(es.drop_last() =~= strs(entries@).take(i as int));
        assert(es.last() == entries@[i as int]@);
        let e = chars_of(entries[i].as_str());
        if below(e.as_slice(), path) && is_marker(e.as_slice()) {
            let len = e.len();
            let ghost old_r = strs(r@);
            let mut pos: usize = 0;
            while pos < r.len() && chars_of(r[pos].as_str()).len() >= len
                invariant
                    pos <= r.len(),
                    old_r == strs(r@),
                    forall|k: int| 0 <= k < pos ==> (#[trigger] old_r[k]).len() >= len,
                decreases r.len() - pos,
            {
                pos = pos + 1;
            }
            let x = copy_entry(&entries[i]);
            let ghost xv = x@;
            r.insert(pos, x);
            proof {
                let t = strs(r@);
                let prev = markers_below(strs(entries@).take(i as int), path@);
                assert(xv == e@);
                assert(markers_below(es, path@) == prev.push(xv));
                prev.to_multiset_ensures();
                assert(prev.push(xv).drop_last() =~= prev);
                assert(t =~= old_r.insert(pos as int, xv));
                crate::order::lemma_insert_multiset(old_r, pos as int, xv);
                assert forall|a: int, b: int| 0 <= a < b < t.len() implies (#[trigger] t[a]).len() >= (#[trigger] t[b]).len() by {
                    if b < pos {
                        assert(t[a] == old_r[a] && t[b] == old_r[b]);
                    } else if b == pos {
                        assert(t[a] == old_r[a]);
                    } else if a == pos {
                        assert(t[b] == old_r[b - 1]);
                        assert(old_r[pos as int].len() < len);
                    } else if a < pos {
                        assert(t[a] == old_r[a] && t[b] == old_r[b - 1]);
                    } else {
                        assert(t[a] == old_r[a - 1] && t[b] == old_r[b - 1]);
                    }
                }
                let pre = old_r.subrange(0, pos as int);
                let post = old_r.subrange(pos as int, old_r.len() as int);
                assert(old_r =~= pre + post);
                assert(t =~= pre.push(xv) + post);
                assert forall|n: nat| #[trigger] of_len(t, n) == of_len(markers_below(es, path@), n) by {
                    lemma_of_len_add(pre, post, n);
                    lemma_of_len_add(pre.push(xv), post, n);
                    assert(pre.push(xv).drop_last() =~= pre);
                    if n == xv.len() {
                        assert forall|k: int| 0 <= k < post.len() implies (#[trigger] post[k]).len() != n by {
                            assert(post[k] == old_r[pos + k]);
                            assert(old_r[pos as int].len() < len);
                            if k > 0 {
                                assert(old_r[pos as int].len() >= old_r[pos + k].len());
                            }
                        }
                        lemma_of_len_none(post, n);
                        assert(of_len(pre, n) + Seq::<Seq<char>>::empty() =~= of_len(pre, n));
                        assert(of_len(pre.push(xv), n) + Seq::<Seq<char>>::empty() =~= of_len(pre.push(xv), n));
                    }
                }
            }
        }
        i = i + 1;
    }
    assert(strs(entries@).take(entries.len() as int) =~= strs(entries@));
    proof {
        lemma_deleted_markers_lie_inside(strs(entries@), path@);
        let mb = markers_below(strs(entries@), path@);
        strs(r@).to_multiset_ensures();
        mb.to_multiset_ensures();
        assert forall|k: int| 0 <= k < r@.len() implies crate::paths::lies_inside(#[trigger] r@[k]@, path@) by {
            assert(strs(r@)[k] == r@[k]@);
            assert(strs(r@).contains(r@[k]@));
            assert(mb.to_multiset().count(r@[k]@) > 0);
            assert(mb.contains(r@[k]@));
        }
    }
    r
}

fn copy_entry(s: &String) -> (r: String)
    ensures
        r == *s,
{
    s.clone()
}

/// The notes stored below `source`, in the order they are stored.
pub open spec fn notes_below(entries: Seq<Seq<char>>, source: Seq<char>) -> Seq<Seq<char>>
    decreases entries.len(),
{
    if entries.len() == 0 {
        entries
    } else if note_path_ok(entries.last()) && source.push('/').is_prefix_of(entries.last()) {
        notes_below(entries.drop_last(), source).push(entries.last())
    } else {
        notes_below(entries.drop_last(), source)
    }
}

/// The notes stored below `source`, in the order they are stored.
pub fn notes_under(source: &str, entries: &[String]) -> (r: Vec<String>)
    ensures
        strs(r@) == notes_below(strs(entries@), source@),
        forall|k: int| 0 <= k < r@.len() ==> crate::paths::lies_inside(#[trigger] r@[k]@, source@),
{
    let mut r: Vec<String> = Vec::new();
    let mut i: usize = 0;
    while i < entries.len()
        invariant
            i <= entries.len(),
            strs(r@) == notes_below(strs(entries@).take(i as int), source@),
        decreases entries.len() - i,
    {
        let ghost es = strs(entries@).take(i + 1);
        assert(es.drop_last() =~= strs(entries@).take(i as int));
        assert(es.last() == entries@[i as int]@);
        let e = chars_of(entries[i].as_str());
        if crate::paths::note_path_chars(e.as_slice()) && below(e.as_slice(), source) {
            r.push(copy_entry(&entries[i]));
            assert(strs(r@) =~= notes_below(strs(entries@).take(i as int), source@).push(entries@[i as int]@));
        }
        i = i + 1;
    }
    assert(strs(entries@).take(entries.len() as int) =~= strs(entries@));
    proof {
        lemma_renamed_notes_lie_inside(strs(entries@), source@);
        assert forall|k: int| 0 <= k < r@.len() implies crate::paths::lies_inside(#[trigger] r@[k]@, source@) by {
            assert(strs(r@)[k] == r@[k]@);
            assert(notes_below(strs(entries@), source@).contains(r@[k]@));
        }
    }
    r
}

/// Notes a rename request moves at most: two bound the canonical reads and writes of one
/// request.
pub const RENAME_BATCH: usize = 2;

/// The first `n` items, or all when there are fewer.
pub open spec fn first_few<A>(s: Seq<A>, n: int) -> Seq<A> {
    if s.len() <= n {
        s
    } else {
        s.take(n)
    }
}

/// The notes the next rename request moves: the first `RENAME_BATCH` stored below `source`.
pub fn rename_batch(source: &str, entries: &[String]) -> (r: Vec<String>)
    ensures
        strs(r@) == first_few(notes_below(strs(entries@), source@), RENAME_BATCH as int),
        r@.len() <= RENAME_BATCH,
        forall|k: int| 0 <= k < r@.len() ==> crate::paths::lies_inside(#[trigger] r@[k]@, source@),
{
    let mut r = notes_under(source, entries);
    let ghost all = r@;
    r.truncate(RENAME_BATCH);
    assert forall|k: int| 0 <= k < r@.len() implies crate::paths::lies_inside(#[trigger] r@[k]@, source@) by {
        assert(r@[k] == all[k]);
    }
    proof {
        if all.len() > RENAME_BATCH {
            assert(strs(r@) =~= strs(all).take(RENAME_BATCH as int));
        } else {
            assert(r@ == all);
        }
    }
    r
}

/// Whether a folder rename has moved everything: no note indexed below `source` remains
/// (`indexed_left`), and no note file stored below it either.
pub fn rename_finished(source: &str, indexed_left: bool, entries: &[String]) -> (r: bool)
    ensures
        r == (!indexed_left && notes_below(strs(entries@), source@).len() == 0),
{
    let left = notes_under(source, entries);
    !indexed_left && left.len() == 0
}

pub open spec fn different_folder_message() -> Seq<char> {
    "A note has a different canonical folder. Resolve it before resuming this rename."@
}

/// A note indexed below `source` may move to `folder` only while its stored folder is that
/// folder already or still lies inside `source`.
pub fn check_note_folder(note_folder: &str, folder: &str, source: &str) -> (r: Result<(), Failure>)
    ensures
        r is Err <==> (note_folder@ != folder@ && !inside(note_folder@, source@)),
        r matches Err(e) ==> e.status == 409 && e.message@ == different_folder_message(),
{
    if !str_eq(note_folder, folder) && !within(note_folder, source) {
        return Err(
            fail(
                409,
                "A note has a different canonical folder. Resolve it before resuming this rename.",
            ),
        );
    }
    Ok(())
}

/// What a request on `/api/folders` asks for.
#[derive(Clone, Copy, Debug, PartialEq, Eq, Structural)]
pub enum FolderChange {
    Create,
    Rename,
    Delete,
}

/// The change a folder request makes: `PUT` renames, `POST` creates, anything else deletes;
/// a path that is no valid folder is refused first.
pub fn folder_change(method: &str, path: &str) -> (r: Result<FolderChange, Failure>)
    ensures
        !folder_ok(path@) ==> (r matches Err(e) && e.status == 400 && e.message@ == "Invalid folder path"@),
        folder_ok(path@) && method@ == "PUT"@ ==> r == Ok::<FolderChange, Failure>(FolderChange::Rename),
        folder_ok(path@) && method@ == "POST"@ ==> r == Ok::<FolderChange, Failure>(FolderChange::Create),
        folder_ok(path@) && method@ != "PUT"@ && method@ != "POST"@ ==> r == Ok::<FolderChange, Failure>(
            FolderChange::Delete,
        ),
{
    if !crate::planner::valid_folder(path) {
        return Err(fail(400, "Invalid folder path"));
    }
    proof {
        reveal_strlit("PUT");
        reveal_strlit("POST");
        assert("PUT"@.len() != "POST"@.len());
    }
    if str_eq(method, "PUT") {
        Ok(FolderChange::Rename)
    } else if str_eq(method, "POST") {
        Ok(FolderChange::Create)
    } else {
        Ok(FolderChange::Delete)
    }
}

pub open spec fn folder_exists_message() -> Seq<char> {
    "A folder with this name already exists."@
}

/// Refuses to create `path` when a vault folder has its name ignoring letter case, or the
/// index knows it already.
pub fn check_new_folder(path: &str, folders: &[String], indexed: bool) -> (r: Result<(), Failure>)
    ensures
        r is Err <==> (indexed || exists|i: int|
            0 <= i < folders@.len() && crate::text::lowercase(#[trigger] folders@[i]@)
                == crate::text::lowercase(path@)),
        r matches Err(e) ==> e.status == 409 && e.message@ == folder_exists_message(),
{
    if same_name_exists(path, folders) || indexed {
        return Err(fail(409, "A folder with this name already exists."));
    }
    Ok(())
}


/// The notes a rename of `source` moves are exactly the stored note files that lie inside
/// `source`: a path that only shares `source` as a character prefix (`Workshop/..` for `Work`)
/// is never among them.
pub proof fn lemma_renamed_notes_lie_inside(entries: Seq<Seq<char>>, source: Seq<char>)
    ensures
        forall|p: Seq<char>|
            #[trigger] notes_below(entries, source).contains(p) <==> (entries.contains(p)
                && note_path_ok(p) && crate::paths::lies_inside(p, source)),
    decreases entries.len(),
{
    if entries.len() > 0 {
        let init = entries.drop_last();
        let last = entries.last();
        lemma_renamed_notes_lie_inside(init, source);
        crate::paths::lemma_slash_prefix_inside(last, source);
        assert forall|p: Seq<char>|
            #[trigger] notes_below(entries, source).contains(p) <==> (entries.contains(p)
                && note_path_ok(p) && crate::paths::lies_inside(p, source)) by {
            let nb = notes_below(init, source);
            if entries.contains(p) {
                let k = choose|k: int| 0 <= k < entries.len() && entries[k] == p;
                if k < init.len() {
                    assert(init[k] == p);
                }
            }
            if init.contains(p) {
                let k = choose|k: int| 0 <= k < init.len() && init[k] == p;
                assert(entries[k] == p);
            }
            if note_path_ok(last) && source.push('/').is_prefix_of(last) {
                if nb.push(last).contains(p) && p != last {
                    let k = choose|k: int| 0 <= k < nb.push(last).len() && nb.push(last)[k] == p;
                    assert(nb[k] == p);
                }
                if nb.contains(p) {
                    let k = choose|k: int| 0 <= k < nb.len() && nb[k] == p;
                    assert(nb.push(last)[k] == p);
                }
                assert(nb.push(last)[nb.len() as int] == last);
            }
        }
    } else {
        assert forall|p: Seq<char>|
            #[trigger] notes_below(entries, source).contains(p) <==> (entries.contains(p)
                && note_path_ok(p) && crate::paths::lies_inside(p, source)) by {}
    }
}

/// The folder markers that deleting folder `path` removes are exactly the stored markers that
/// lie inside `path`: a marker of a folder that only shares `path` as a character prefix
/// (`Workshop/.folio-folder` for `Work`) is kept.
pub proof fn lemma_deleted_markers_lie_inside(entries: Seq<Seq<char>>, path: Seq<char>)
    ensures
        forall|p: Seq<char>|
            #[trigger] markers_below(entries, path).contains(p) <==> (entries.contains(p)
                && crate::paths::lies_inside(p, path) && "/.folio-folder"@.is_suffix_of(p)),
    decreases entries.len(),
{
    if entries.len() > 0 {
        let init = entries.drop_last();
        let last = entries.last();
        lemma_deleted_markers_lie_inside(init, path);
        crate::paths::lemma_slash_prefix_inside(last, path);
        assert forall|p: Seq<char>|
            #[trigger] markers_below(entries, path).contains(p) <==> (entries.contains(p)
                && crate::paths::lies_inside(p, path) && "/.folio-folder"@.is_suffix_of(p)) by {
            let mb = markers_below(init, path);
            if entries.contains(p) {
                let k = choose|k: int| 0 <= k < entries.len() && entries[k] == p;
                if k < init.len() {
                    assert(init[k] == p);
                }
            }
            if init.contains(p) {
                let k = choose|k: int| 0 <= k < init.len() && init[k] == p;
                assert(entries[k] == p);
            }
            if path.push('/').is_prefix_of(last) && marker_suffix().is_suffix_of(last) {
                if mb.push(last).contains(p) && p != last {
                    let k = choose|k: int| 0 <= k < mb.push(last).len() && mb.push(last)[k] == p;
                    assert(mb[k] == p);
                }
                if mb.contains(p) {
                    let k = choose|k: int| 0 <= k < mb.len() && mb[k] == p;
                    assert(mb.push(last)[k] == p);
                }
                assert(mb.push(last)[mb.len() as int] == last);
            }
        }
    } else {
        assert forall|p: Seq<char>|
            #[trigger] markers_below(entries, path).contains(p) <==> (entries.contains(p)
                && crate::paths::lies_inside(p, path) && "/.folio-folder"@.is_suffix_of(p)) by {}
    }
}


/// A stored file keeps a folder from being deleted exactly when it lies inside the folder and
/// is not a folder marker: a file of a folder that only shares the name as a character prefix
/// (`Workshop/b.md` for `Work`) does not.
pub proof fn lemma_delete_blocked_by_inside(entry: Seq<char>, path: Seq<char>)
    ensures
        blocks_delete(entry, path) <==> (crate::paths::lies_inside(entry, path)
            && !"/.folio-folder"@.is_suffix_of(entry)),
{
    crate::paths::lemma_slash_prefix_inside(entry, path);
}

/// A path inside the renamed folder moves inside the new folder and keeps everything after
/// the folder: `source/rest` becomes `target/rest`.
pub proof fn lemma_moved_keeps_rest(source: Seq<char>, target: Seq<char>, path: Seq<char>)
    requires
        crate::paths::lies_inside(path, source),
    ensures
        crate::paths::lies_inside(moved(source, target, path), target),
        moved(source, target, path).skip(target.len() as int) == path.skip(source.len() as int),
        moved(source, target, path).len() == target.len() + path.len() - source.len(),
{
    let m = moved(source, target, path);
    assert(m.subrange(0, target.len() as int) =~= target);
    assert(m[target.len() as int] == path[source.len() as int]);
    assert(m.skip(target.len() as int) =~= path.skip(source.len() as int));
}

/// The folder a rename goes to sits next to the renamed one: under the same parent when there
/// is one (parent, `/`, the new name), else the new name alone at the top.
pub proof fn lemma_target_beside_source(source: Seq<char>, name: Seq<char>)
    requires
        name.len() > 0,
    ensures
        name.is_suffix_of(sibling(source, name)),
        source.contains('/') ==> crate::paths::lies_inside(sibling(source, name), parent_of(source))
            && sibling(source, name).len() == parent_of(source).len() + 1 + name.len(),
        !source.contains('/') ==> sibling(source, name) == name,
{
    let t = sibling(source, name);
    crate::text::lemma_last_index_of_bounds(source, '/');
    if source.contains('/') {
        let k = choose|k: int| 0 <= k < source.len() && source[k] == '/';
        assert(crate::text::last_index_of(source, '/') >= 0);
        let p = parent_of(source);
        assert(t.subrange(0, p.len() as int) =~= p);
        assert(t[p.len() as int] == '/');
        assert(t.subrange(t.len() - name.len(), t.len() as int) =~= name);
    } else {
        if crate::text::last_index_of(source, '/') >= 0 {
            assert(source[crate::text::last_index_of(source, '/')] == '/');
        }
        assert(t.subrange(0, t.len() as int) =~= name);
    }
}

} // verus!
