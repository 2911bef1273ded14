//! What the browser client decides about its local state: pending task edits, drafts
//! caught by a folder rename, the folder tree and its cached listings.
use crate::note::{Note, NoteSummary};
use crate::order::{insert_unique, sort_strings, sorted, str_eq, strictly_sorted, strs};
use crate::folders::{accumulate, accumulate_parts, folder_paths, folder_prefixes};
use crate::paths::parent_of;
use crate::planner::Task;
use crate::crypto::{uid, uuid_v4_text};
use crate::text::{chars_of, push_str, slice_copy, starts_with_chars, string_of, lowercase, to_lowercase};
use vstd::prelude::*;

verus! {

/// A copy of a string that Verus knows is equal to it.
/// A new, empty note in `folder`, with a random version-4 UUID as its ID (which UUID is left
/// open: it is random) and no revision yet.
pub fn new_note(folder: String) -> (r: Note)
    ensures
        uuid_v4_text(r.id@),
        r.markdown@ == Seq::<char>::empty(),
        r.folder == folder,
        r.revision@ == Seq::<char>::empty(),
{
    Note { id: uid(), markdown: String::new(), folder, revision: String::new() }
}

pub fn copy_string(s: &String) -> (r: String)
    ensures
        r == *s,
{
    s.clone()
}

fn copy_opt(s: &Option<String>) -> (r: Option<String>)
    ensures
        r == *s,
{
    match s {
        Some(v) => Some(v.clone()),
        None => None,
    }
}

/// A field-by-field copy of a task.
pub fn copy_task(t: &Task) -> (r: Task)
    ensures
        r == *t,
{
    Task {
        id: t.id.clone(),
        title: t.title.clone(),
        completed: t.completed,
        due_date: copy_opt(&t.due_date),
        due_time: copy_opt(&t.due_time),
        source_note_id: copy_opt(&t.source_note_id),
        source_line: t.source_line,
        created_at: t.created_at,
        updated_at: t.updated_at,
    }
}

/// A field-by-field copy of a note summary.
pub fn copy_summary(n: &NoteSummary) -> (r: NoteSummary)
    ensures
        r == *n,
{
    NoteSummary {
        id: n.id.clone(),
        title: n.title.clone(),
        preview: n.preview.clone(),
        updated_at: n.updated_at,
        folder: n.folder.clone(),
        revision: n.revision.clone(),
        archived: n.archived,
    }
}

/// Whether `v` holds a string equal to `s`.
pub fn contains_str(v: &[String], s: &str) -> (r: bool)
    ensures
        r == strs(v@).contains(s@),
{
    let mut i: usize = 0;
    while i < v.len()
        invariant
            i <= v.len(),
            forall|k: int| 0 <= k < i ==> #[trigger] strs(v@)[k] != s@,
        decreases v.len() - i,
    {
        if str_eq(v[i].as_str(), s) {
            assert(strs(v@)[i as int] == s@);
            return true;
        }
        i = i + 1;
    }
    false
}

/// The first task of `ts` with the ID `id`, if any.
pub open spec fn first_with_id(ts: Seq<Task>, id: Seq<char>) -> int
    decreases ts.len(),
{
    if ts.len() == 0 {
        -1
    } else {
        let k = first_with_id(ts.drop_last(), id);
        if k >= 0 {
            k
        } else if ts.last().id@ == id {
            ts.len() - 1
        } else {
            -1
        }
    }
}

pub proof fn lemma_first_with_id(ts: Seq<Task>, id: Seq<char>)
    ensures
        -1 <= first_with_id(ts, id) < ts.len(),
        first_with_id(ts, id) >= 0 ==> ts[first_with_id(ts, id)].id@ == id,
        forall|k: int|
            0 <= k < ts.len() && (first_with_id(ts, id) < 0 || k < first_with_id(ts, id))
                ==> #[trigger] ts[k].id@ != id,
    decreases ts.len(),
{
    if ts.len() > 0 {
        lemma_first_with_id(ts.drop_last(), id);
        assert forall|k: int|
            0 <= k < ts.len() && (first_with_id(ts, id) < 0 || k < first_with_id(ts, id))
                implies #[trigger] ts[k].id@ != id by {
            if k < ts.len() - 1 {
                assert(ts.drop_last()[k] == ts[k]);
            }
        }
    }
}

/// What a listed task becomes while local edits are pending: a task whose ID is pending
/// keeps the local copy (the first with that ID), when there is one.
pub open spec fn kept_task(item: Task, current: Seq<Task>, pending: Seq<Seq<char>>) -> Task {
    if pending.contains(item.id@) && first_with_id(current, item.id@) >= 0 {
        current[first_with_id(current, item.id@)]
    } else {
        item
    }
}

/// Lets a freshly read task list keep the local state of tasks whose writes are pending.
pub fn preserve_pending_tasks(items: &mut Vec<Task>, current: &[Task], pending: &[String])
    ensures
        final(items)@.len() == old(items)@.len(),
        forall|i: int|
            0 <= i < old(items)@.len() ==> #[trigger] final(items)@[i] == kept_task(
                old(items)@[i],
                current@,
                strs(pending@),
            ),
{
    let ghost start = items@;
    let n = items.len();
    let mut i: usize = 0;
    while i < n
        invariant
            n == start.len(),
            i <= n,
            items@.len() == n,
            forall|k: int| i <= k < n ==> #[trigger] items@[k] == start[k],
            forall|k: int|
                0 <= k < i ==> #[trigger] items@[k] == kept_task(start[k], current@, strs(pending@)),
        decreases n - i,
    {
        let id = copy_string(&items[i].id);
        if contains_str(pending, id.as_str()) {
            let mut j: usize = 0;
            while j < current.len() && !str_eq(current[j].id.as_str(), id.as_str())
                invariant
                    j <= current.len(),
                    forall|k: int| 0 <= k < j ==> #[trigger] current@[k].id@ != id@,
                decreases current.len() - j,
            {
                j = j + 1;
            }
            proof {
                lemma_first_with_id(current@, id@);
                let f = first_with_id(current@, id@);
                if f >= 0 && f < j {
                    assert(current@[f].id@ != id@);
                }
                if j < current.len() && (f < 0 || j < f) {
                    assert(current@[j as int].id@ != id@);
                }
            }
            if j < current.len() {
                let copy = copy_task(&current[j]);
                items.set(i, copy);
            }
        }
        i = i + 1;
    }
}

/// Whether a task was indexed from the note `id`.
pub open spec fn from_note(t: Task, id: Seq<char>) -> bool {
    match t.source_note_id {
        Some(s) => s@ == id,
        None => false,
    }
}

/// The tasks of a list that do not come from the note `id`, in order.
pub open spec fn without_note(ts: Seq<Task>, id: Seq<char>) -> Seq<Task>
    decreases ts.len(),
{
    if ts.len() == 0 {
        ts
    } else if from_note(ts.last(), id) {
        without_note(ts.drop_last(), id)
    } else {
        without_note(ts.drop_last(), id).push(ts.last())
    }
}

/// Replaces the tasks of note `id` in a list by the ones the server indexed from it.
pub fn merge_note_tasks(items: &mut Vec<Task>, id: &str, tasks: Vec<Task>)
    ensures
        final(items)@ == without_note(old(items)@, id@) + tasks@,
{
    let ghost start = items@;
    let mut kept: Vec<Task> = Vec::new();
    let mut i: usize = 0;
    while i < items.len()
        invariant
            items@ == start,
            i <= items.len(),
            kept@ == without_note(start.take(i as int), id@),
        decreases items.len() - i,
    {
        assert(start.take(i + 1).drop_last() =~= start.take(i as int));
        let from = match &items[i].source_note_id {
            Some(s) => str_eq(s.as_str(), id),
            None => false,
        };
        if !from {
            kept.push(copy_task(&items[i]));
        }
        i = i + 1;
    }
    assert(start.take(start.len() as int) =~= start);
    let mut k: usize = 0;
    let ghost base = kept@;
    while k < tasks.len()
        invariant
            k <= tasks.len(),
            kept@ == base + tasks@.take(k as int),
        decreases tasks.len() - k,
    {
        assert(tasks@.take(k + 1) =~= tasks@.take(k as int).push(tasks@[k as int]));
        kept.push(copy_task(&tasks[k]));
        k = k + 1;
    }
    assert(tasks@.take(tasks.len() as int) =~= tasks@);
    *items = kept;
}

/// `path` after the folder `source` was renamed to `target`: paths inside `source` move
/// with it; all others stay.
pub open spec fn renamed(path: Seq<char>, source: Seq<char>, target: Seq<char>) -> Seq<char> {
    if path == source || source.push('/').is_prefix_of(path) {
        target + path.skip(source.len() as int)
    } else {
        path
    }
}

/// Renaming a folder back restores every path that was inside it.
pub proof fn lemma_rename_back(path: Seq<char>, source: Seq<char>, target: Seq<char>)
    requires
        path == source || source.push('/').is_prefix_of(path),
    ensures
        renamed(renamed(path, source, target), target, source) == path,
{
    let moved = target + path.skip(source.len() as int);
    if path == source {
        assert(moved =~= target);
        assert(path.skip(source.len() as int) =~= Seq::<char>::empty());
        assert(moved.skip(target.len() as int) =~= Seq::<char>::empty());
        assert(source + moved.skip(target.len() as int) =~= source);
    } else {
        assert(target.push('/').is_prefix_of(moved)) by {
            assert(source.push('/')[source.len() as int] == '/');
            assert(path[source.len() as int] == '/');
            assert forall|i: int| 0 <= i < target.len() + 1 implies target.push('/')[i] == moved[i] by {
                if i == target.len() {
                    assert(moved[i] == path.skip(source.len() as int)[0]);
                }
            }
        }
        assert(moved.skip(target.len() as int) =~= path.skip(source.len() as int));
        assert(source + path.skip(source.len() as int) =~= path) by {
            assert forall|i: int| 0 <= i < source.len() implies path[i] == source[i] by {
                assert(source.push('/')[i] == path[i]);
            }
        }
    }
}

/// `path` after the folder `source` was renamed to `target`.
pub fn renamed_path(path: &str, source: &str, target: &str) -> (r: String)
    ensures
        r@ == renamed(path@, source@, target@),
{
    let p = chars_of(path);
    let mut s = chars_of(source);
    let same = crate::text::eq_chars(p.as_slice(), s.as_slice());
    let n = s.len();
    s.push('/');
    if same || starts_with_chars(p.as_slice(), s.as_slice()) {
        proof {
            if same {
                assert(path@.skip(source@.len() as int) =~= Seq::<char>::empty());
            }
        }
        let mut r = string_of(chars_of(target).as_slice());
        let rest = slice_copy(p.as_slice(), n, p.len());
        crate::text::push_all(&mut r, rest.as_slice());
        proof {
            assert(rest@ =~= path@.skip(source@.len() as int));
        }
        r
    } else {
        string_of(p.as_slice())
    }
}

/// A draft left open while its folder was renamed follows the folder; its text, ID and
/// base revision stay as they were.
pub fn preserve_renamed_draft(draft: Note, source: &str, target: &str) -> (r: Note)
    ensures
        r.folder@ == renamed(draft.folder@, source@, target@),
        r.id == draft.id,
        r.markdown == draft.markdown,
        r.revision == draft.revision,
{
    let folder = renamed_path(draft.folder.as_str(), source, target);
    Note { folder, ..draft }
}

/// Whether every folder above `path` is expanded in the tree.
pub open spec fn ancestors_expanded(path: Seq<char>, expanded: Seq<Seq<char>>) -> bool {
    forall|i: int| 0 <= i < path.len() && path[i] == '/' ==> expanded.contains(#[trigger] path.take(i))
}

/// Whether every folder above `path` is expanded in the tree.
pub fn ancestors_open(path: &str, expanded: &[String]) -> (r: bool)
    ensures
        r == ancestors_expanded(path@, strs(expanded@)),
{
    let p = chars_of(path);
    let mut i: usize = 0;
    while i < p.len()
        invariant
            i <= p.len(),
            p@ == path@,
            forall|k: int| 0 <= k < i && p@[k] == '/' ==> strs(expanded@).contains(#[trigger] p@.take(k)),
        decreases p.len() - i,
    {
        if p[i] == '/' {
            let prefix = slice_copy(p.as_slice(), 0, i);
            let s = string_of(prefix.as_slice());
            assert(prefix@ =~= p@.take(i as int));
            if !contains_str(expanded, s.as_str()) {
                return false;
            }
        }
        i = i + 1;
    }
    true
}

/// The address bar path of a page: `/` for Home, the note's address for an open note,
/// and `/` and the lowercased page name otherwise.
pub open spec fn route_of(page: Seq<char>, id: Option<Seq<char>>) -> Seq<char> {
    if page == "Home"@ {
        "/"@
    } else {
        match id {
            Some(i) => "/notes?note="@ + i,
            None => "/"@ + lowercase(page),
        }
    }
}

/// The address bar path of a page.
pub fn route_path(page: &str, id: Option<&str>) -> (r: String)
    ensures
        r@ == route_of(page@, match id {
            Some(i) => Some(i@),
            None => None,
        }),
{
    let home = chars_of("Home");
    if crate::text::eq_chars(chars_of(page).as_slice(), home.as_slice()) {
        proof {
            reveal_strlit("Home");
        }
        return "/".to_string();
    }
    match id {
        Some(i) => {
            let mut r = "/notes?note=".to_string();
            push_str(&mut r, i);
            r
        },
        None => {
            let mut r = "/".to_string();
            let lower = to_lowercase(page);
            push_str(&mut r, lower.as_str());
            r
        },
    }
}

/// The cached file list of one folder of the tree.
#[derive(Clone, Debug, Default)]
pub struct FolderListing {
    pub items: Vec<NoteSummary>,
    pub next: Option<u64>,
    pub loading: bool,
    pub error: String,
}

/// A row of the folder tree and its depth: a folder, a note in an expanded folder, or the
/// footer closing an expanded folder.
#[derive(Clone, Debug)]
pub enum Entry {
    Folder(String, usize),
    File(NoteSummary, usize),
    Footer(String, usize),
}

/// What a tree row shows.
pub enum Row {
    Folder(Seq<char>, nat),
    File(NoteSummary, nat),
    Footer(Seq<char>, nat),
}

impl View for Entry {
    type V = Row;

    open spec fn view(&self) -> Row {
        match self {
            Entry::Folder(p, d) => Row::Folder(p@, *d as nat),
            Entry::File(n, d) => Row::File(*n, *d as nat),
            Entry::Footer(p, d) => Row::Footer(p@, *d as nat),
        }
    }
}

pub open spec fn rows_of(v: Seq<Entry>) -> Seq<Row> {
    v.map_values(|e: Entry| e@)
}

/// The notes cached for folder `key`: those of the first listing under that key.
pub open spec fn listed(files: Seq<(String, FolderListing)>, key: Seq<char>) -> Seq<NoteSummary>
    decreases files.len(),
{
    if files.len() == 0 {
        Seq::empty()
    } else if files[0].0@ == key {
        files[0].1.items@
    } else {
        listed(files.drop_first(), key)
    }
}

/// The length of the longest folder path.
pub open spec fn max_len(folders: Seq<Seq<char>>) -> nat
    decreases folders.len(),
{
    if folders.len() == 0 {
        0
    } else if folders.last().len() > max_len(folders.drop_last()) {
        folders.last().len()
    } else {
        max_len(folders.drop_last())
    }
}

pub proof fn lemma_max_len(folders: Seq<Seq<char>>, i: int)
    requires
        0 <= i < folders.len(),
    ensures
        folders[i].len() <= max_len(folders),
    decreases folders.len(),
{
    if i < folders.len() - 1 {
        assert(folders.drop_last()[i] == folders[i]);
        lemma_max_len(folders.drop_last(), i);
    }
}

pub open spec fn file_rows(items: Seq<NoteSummary>, depth: nat) -> Seq<Row> {
    items.map_values(|n: NoteSummary| Row::File(n, depth))
}

/// The rows for the folders `folders[i..]` whose parent is `parent`, each followed, when it
/// is expanded, by its subfolders, its cached notes and a footer, one level deeper.
pub open spec fn tree_rows(
    parent: Seq<char>,
    depth: nat,
    folders: Seq<Seq<char>>,
    expanded: Seq<Seq<char>>,
    files: Seq<(String, FolderListing)>,
    i: nat,
) -> Seq<Row>
    decreases max_len(folders) - parent.len(), folders.len() - i,
{
    if i >= folders.len() {
        Seq::empty()
    } else {
        let p = folders[i as int];
        let rest = tree_rows(parent, depth, folders, expanded, files, i + 1);
        if parent_of(p) == parent {
            proof {
                lemma_max_len(folders, i as int);
            }
            let inner = if expanded.contains(p) && p.len() > parent.len() {
                tree_rows(p, depth + 1, folders, expanded, files, 0) + file_rows(
                    listed(files, p),
                    depth + 1,
                ) + seq![Row::Footer(p, depth + 1)]
            } else {
                Seq::empty()
            };
            seq![Row::Folder(p, depth)] + inner + rest
        } else {
            rest
        }
    }
}

fn listing_of<'a>(files: &'a [(String, FolderListing)], key: &str) -> (r: Option<&'a FolderListing>)
    ensures
        match r {
            Some(l) => l.items@ == listed(files@, key@),
            None => listed(files@, key@) == Seq::<NoteSummary>::empty(),
        },
{
    let mut i: usize = 0;
    assert(files@.skip(0) =~= files@);
    while i < files.len()
        invariant
            i <= files.len(),
            listed(files@, key@) == listed(files@.skip(i as int), key@),
        decreases files.len() - i,
    {
        assert(files@.skip(i as int)[0] == files@[i as int]);
        assert(files@.skip(i as int).drop_first() =~= files@.skip(i + 1));
        if str_eq(files[i].0.as_str(), key) {
            return Some(&files[i].1);
        }
        i = i + 1;
    }
    None
}

fn visit(
    parent: &str,
    depth: usize,
    folders: &[String],
    expanded: &[String],
    files: &[(String, FolderListing)],
    out: &mut Vec<Entry>,
)
    requires
        depth <= parent@.len(),
        !(strs(folders@).contains(Seq::<char>::empty()) && strs(expanded@).contains(Seq::<char>::empty())),
    ensures
        rows_of(final(out)@) == rows_of(old(out)@) + tree_rows(
            parent@,
            depth as nat,
            strs(folders@),
            strs(expanded@),
            files@,
            0,
        ),
    decreases max_len(strs(folders@)) - parent@.len(),
{
    let ghost fs = strs(folders@);
    let ghost ex = strs(expanded@);
    let ghost start = rows_of(out@);
    let mut i: usize = 0;
    while i < folders.len()
        invariant
            i <= folders.len(),
            fs == strs(folders@),
            ex == strs(expanded@),
            depth <= parent@.len(),
            !(fs.contains(Seq::<char>::empty()) && ex.contains(Seq::<char>::empty())),
            rows_of(out@) + tree_rows(parent@, depth as nat, fs, ex, files@, i as nat) == start
                + tree_rows(parent@, depth as nat, fs, ex, files@, 0),
        decreases folders.len() - i,
    {
        let ghost before = rows_of(out@);
        let path = &folders[i];
        let pc = chars_of(path.as_str());
        let up = crate::paths::folder(path.as_str());
        assert(fs[i as int] == path@);
        if str_eq(up.as_str(), parent) {
            out.push(Entry::Folder(copy_string(path), depth));
            assert(rows_of(out@) =~= before.push(Row::Folder(path@, depth as nat)));
            let open = contains_str(expanded, path.as_str());
            proof {
                lemma_max_len(fs, i as int);
            }
            if open && pc.len() > chars_of(parent).len() {
                let ghost b2 = rows_of(out@);
                visit(path.as_str(), depth + 1, folders, expanded, files, out);
                let ghost b3 = rows_of(out@);
                match listing_of(files, path.as_str()) {
                    Some(list) => {
                        let mut k: usize = 0;
                        while k < list.items.len()
                            invariant
                                k <= list.items@.len(),
                                depth < usize::MAX,
                                rows_of(out@) == b3 + file_rows(list.items@.take(k as int), (depth + 1) as nat),
                            decreases list.items@.len() - k,
                        {
                            let ghost bk = rows_of(out@);
                            out.push(Entry::File(copy_summary(&list.items[k]), depth + 1));
                            assert(rows_of(out@) =~= bk.push(Row::File(list.items@[k as int], (depth + 1) as nat)));
                            assert(file_rows(list.items@.take(k + 1), (depth + 1) as nat) =~= file_rows(
                                list.items@.take(k as int),
                                (depth + 1) as nat,
                            ).push(Row::File(list.items@[k as int], (depth + 1) as nat)));
                            assert(rows_of(out@) =~= rows_of(out@).drop_last().push(
                                Row::File(list.items@[k as int], (depth + 1) as nat),
                            ));
                            k = k + 1;
                        }
                        assert(list.items@.take(list.items@.len() as int) =~= list.items@);
                    },
                    None => {
                        assert(rows_of(out@) =~= b3 + file_rows(Seq::<NoteSummary>::empty(), (depth + 1) as nat));
                    },
                }
                let ghost b4 = rows_of(out@);
                out.push(Entry::Footer(copy_string(path), depth + 1));
                assert(rows_of(out@) =~= b4.push(Row::Footer(path@, (depth + 1) as nat)));
                proof {
                    assert(ex.contains(path@));
                    assert(rows_of(out@) + tree_rows(parent@, depth as nat, fs, ex, files@, (i + 1) as nat)
                        =~= before + tree_rows(parent@, depth as nat, fs, ex, files@, i as nat));
                }
            } else {
                proof {
                    if ex.contains(path@) {
                        assert(pc@.len() <= parent@.len());
                        if path@.len() > 0 {
                            crate::text::lemma_last_index_of_bounds(path@, '/');
                        } else {
                            assert(path@ =~= Seq::<char>::empty());
                        }
                    }
                    assert(rows_of(out@) + tree_rows(parent@, depth as nat, fs, ex, files@, (i + 1) as nat)
                        =~= before + tree_rows(parent@, depth as nat, fs, ex, files@, i as nat));
                }
            }
        }
        i = i + 1;
    }
    assert(rows_of(out@) =~= rows_of(out@) + tree_rows(parent@, depth as nat, fs, ex, files@, i as nat));
}

/// The rows of the folder tree: top-level folders, and below each expanded folder its
/// subfolders, cached notes and a footer.
pub fn entries(folders: &[String], expanded: &[String], files: &[(String, FolderListing)]) -> (r: Vec<Entry>)
    requires
        !(strs(folders@).contains(Seq::<char>::empty()) && strs(expanded@).contains(Seq::<char>::empty())),
    ensures
        rows_of(r@) == tree_rows(Seq::<char>::empty(), 0, strs(folders@), strs(expanded@), files@, 0),
{
    let mut out: Vec<Entry> = Vec::new();
    assert(rows_of(out@) =~= Seq::<Row>::empty());
    proof {
        reveal_strlit("");
    }
    visit("", 0, folders, expanded, files, &mut out);
    assert(""@ =~= Seq::<char>::empty());
    assert(rows_of(out@) =~= Seq::<Row>::empty() + tree_rows(""@, 0, strs(folders@), strs(expanded@), files@, 0));
    out
}

/// Expands `path` and every folder above it (`expanded` is kept as a sorted set).
pub fn expand_ancestors(expanded: &mut Vec<String>, path: &str)
    requires
        strictly_sorted(strs(old(expanded)@)),
    ensures
        strictly_sorted(strs(final(expanded)@)),
        strs(final(expanded)@).to_set() == strs(old(expanded)@).to_set() + folder_prefixes(path@).to_set(),
{
    let ps = folder_paths(path);
    let ghost start = strs(expanded@).to_set();
    let mut i: usize = 0;
    while i < ps.len()
        invariant
            i <= ps.len(),
            strictly_sorted(strs(expanded@)),
            strs(expanded@).to_set() == start + strs(ps@).take(i as int).to_set(),
        decreases ps.len() - i,
    {
        let ghost before = strs(expanded@).to_set();
        insert_unique(expanded, copy_string(&ps[i]));
        proof {
            assert(strs(ps@).take(i + 1) =~= strs(ps@).take(i as int).push(ps@[i as int]@));
            assert(strs(ps@).take(i + 1) =~= strs(ps@).take(i as int) + seq![ps@[i as int]@]);
            Seq::lemma_to_set_insert_commutes(strs(ps@).take(i as int), ps@[i as int]@);
            assert(strs(expanded@).to_set() =~= start + strs(ps@).take(i + 1).to_set());
        }
        i = i + 1;
    }
    assert(strs(ps@).take(ps.len() as int) =~= strs(ps@));
}

/// Collapses an expanded folder, or expands a collapsed one.
pub fn toggle_folder(expanded: &mut Vec<String>, path: String)
    requires
        strictly_sorted(strs(old(expanded)@)),
    ensures
        strictly_sorted(strs(final(expanded)@)),
        strs(old(expanded)@).contains(path@) ==> strs(final(expanded)@).to_set() == strs(old(expanded)@).to_set().remove(path@),
        !strs(old(expanded)@).contains(path@) ==> strs(final(expanded)@).to_set() == strs(old(expanded)@).to_set().insert(path@),
{
    let ghost s = strs(expanded@);
    let mut i: usize = 0;
    while i < expanded.len() && !str_eq(expanded[i].as_str(), path.as_str())
        invariant
            i <= expanded.len(),
            s == strs(expanded@),
            forall|k: int| 0 <= k < i ==> #[trigger] s[k] != path@,
        decreases expanded.len() - i,
    {
        i = i + 1;
    }
    if i < expanded.len() {
        assert(s[i as int] == path@);
        assert(s.contains(path@));
        expanded.remove(i);
        proof {
            let t = strs(expanded@);
            assert(t =~= s.remove(i as int));
            assert forall|a: int, b: int| 0 <= a < b < t.len() implies crate::order::lex_lt(#[trigger] t[a], #[trigger] t[b]) by {
                if b < i {
                    assert(t[a] == s[a] && t[b] == s[b]);
                } else if a < i {
                    assert(t[a] == s[a] && t[b] == s[b + 1]);
                } else {
                    assert(t[a] == s[a + 1] && t[b] == s[b + 1]);
                }
            }
            assert forall|y: Seq<char>| t.to_set().contains(y) <==> s.to_set().remove(path@).contains(y) by {
                if t.contains(y) {
                    let k = choose|k: int| 0 <= k < t.len() && t[k] == y;
                    if k < i {
                        assert(s[k] == y);
                        assert(y != path@);
                    } else {
                        assert(s[k + 1] == y);
                        crate::order::lemma_lex_irreflexive(path@);
                        assert(crate::order::lex_lt(s[i as int], s[k + 1]));
                    }
                }
                if s.contains(y) && y != path@ {
                    let k = choose|k: int| 0 <= k < s.len() && s[k] == y;
                    if k < i {
                        assert(t[k] == y);
                    } else {
                        assert(k != i);
                        assert(t[k - 1] == y);
                    }
                }
            }
            assert(t.to_set() =~= s.to_set().remove(path@));
        }
    } else {
        assert(!s.contains(path@));
        insert_unique(expanded, path);
    }
}

/// Toggling a folder twice leaves the expanded set as it was.
pub proof fn lemma_toggle_twice(expanded: Set<Seq<char>>, path: Seq<char>)
    ensures
        ({
            let once = if expanded.contains(path) {
                expanded.remove(path)
            } else {
                expanded.insert(path)
            };
            let twice = if once.contains(path) {
                once.remove(path)
            } else {
                once.insert(path)
            };
            twice == expanded
        }),
{
    if expanded.contains(path) {
        assert(expanded.remove(path).insert(path) =~= expanded);
    } else {
        assert(expanded.insert(path).remove(path) =~= expanded);
    }
}

/// The non-empty strings of `parts`, in order.
pub open spec fn nonempty(parts: Seq<Seq<char>>) -> Seq<Seq<char>>
    decreases parts.len(),
{
    if parts.len() == 0 {
        parts
    } else if parts.last().len() == 0 {
        nonempty(parts.drop_last())
    } else {
        nonempty(parts.drop_last()).push(parts.last())
    }
}

/// `list` with each of `ps` appended unless the list holds it already by then.
pub open spec fn added(list: Seq<Seq<char>>, ps: Seq<Seq<char>>) -> Seq<Seq<char>>
    decreases ps.len(),
{
    if ps.len() == 0 {
        list
    } else {
        let a = added(list, ps.drop_last());
        if a.contains(ps.last()) {
            a
        } else {
            a.push(ps.last())
        }
    }
}

/// The notes of `items` other than the one with ID `id`, in order.
pub open spec fn without_id(items: Seq<NoteSummary>, id: Seq<char>) -> Seq<NoteSummary>
    decreases items.len(),
{
    if items.len() == 0 {
        items
    } else if items.last().id@ == id {
        without_id(items.drop_last(), id)
    } else {
        without_id(items.drop_last(), id).push(items.last())
    }
}

fn drop_id(items: &Vec<NoteSummary>, id: &str) -> (r: Vec<NoteSummary>)
    ensures
        r@ == without_id(items@, id@),
{
    let mut r: Vec<NoteSummary> = Vec::new();
    let mut i: usize = 0;
    while i < items.len()
        invariant
            i <= items.len(),
            r@ == without_id(items@.take(i as int), id@),
        decreases items.len() - i,
    {
        assert(items@.take(i + 1).drop_last() =~= items@.take(i as int));
        if !str_eq(items[i].id.as_str(), id) {
            r.push(copy_summary(&items[i]));
        }
        i = i + 1;
    }
    assert(items@.take(items.len() as int) =~= items@);
    r
}

/// The cached listing of `folder` after `note` was saved: the note leaves every listing and
/// heads the one of its own folder; a listing with more to load counts what it holds.
pub open spec fn listing_after_save(folder: Seq<char>, list: FolderListing, note: NoteSummary, items: Seq<NoteSummary>) -> bool {
    &&& items == (if folder == note.folder@ {
        seq![note]
    } else {
        Seq::<NoteSummary>::empty()
    }) + without_id(list.items@, note.id@)
}

/// Puts a saved note into the folder tree: its folder and those above it join the (sorted)
/// folder list, and each cached listing drops the note and, for its own folder, shows it first.
pub fn merge_tree_note(folders: &mut Vec<String>, files: &mut Vec<(String, FolderListing)>, note: &NoteSummary)
    ensures
        sorted(strs(final(folders)@)),
        strs(final(folders)@).to_multiset() == added(
            strs(old(folders)@),
            accumulate(nonempty(crate::text::split(note.folder@, '/'))),
        ).to_multiset(),
        final(files)@.len() == old(files)@.len(),
        forall|i: int|
            0 <= i < old(files)@.len() ==> {
                let (k, l) = #[trigger] old(files)@[i];
                let (k2, l2) = final(files)@[i];
                &&& k2 == k
                &&& listing_after_save(k@, l, *note, l2.items@)
                &&& l2.next == (if l.next is Some {
                    Some(l2.items@.len() as u64)
                } else {
                    None
                })
                &&& l2.loading == l.loading
                &&& l2.error == l.error
            },
{
    let parts = crate::text::split_vec(chars_of(note.folder.as_str()).as_slice(), '/');
    let mut segs: Vec<Vec<char>> = Vec::new();
    let mut i: usize = 0;
    while i < parts.len()
        invariant
            i <= parts.len(),
            crate::text::views(segs@) == nonempty(crate::text::views(parts@).take(i as int)),
        decreases parts.len() - i,
    {
        assert(crate::text::views(parts@).take(i + 1).drop_last() =~= crate::text::views(parts@).take(i as int));
        if parts[i].len() > 0 {
            segs.push(slice_copy(parts[i].as_slice(), 0, parts[i].len()));
            assert(parts@[i as int]@.subrange(0, parts@[i as int]@.len() as int) =~= parts@[i as int]@);
            assert(crate::text::views(segs@) =~= nonempty(crate::text::views(parts@).take(i as int)).push(parts@[i as int]@));
        }
        i = i + 1;
    }
    assert(crate::text::views(parts@).take(parts.len() as int) =~= crate::text::views(parts@));
    let ps = accumulate_parts(&segs);
    let mut list: Vec<String> = Vec::new();
    let mut j: usize = 0;
    while j < folders.len()
        invariant
            j <= folders.len(),
            strs(list@) == strs(folders@).take(j as int),
        decreases folders.len() - j,
    {
        let ghost bl = strs(list@);
        list.push(copy_string(&folders[j]));
        assert(strs(list@) =~= bl.push(folders@[j as int]@));
        assert(strs(folders@).take(j + 1) =~= strs(folders@).take(j as int).push(folders@[j as int]@));
        j = j + 1;
    }
    assert(strs(folders@).take(folders.len() as int) =~= strs(folders@));
    let mut k: usize = 0;
    while k < ps.len()
        invariant
            k <= ps.len(),
            strs(list@) == added(strs(folders@), strs(ps@).take(k as int)),
        decreases ps.len() - k,
    {
        assert(strs(ps@).take(k + 1).drop_last() =~= strs(ps@).take(k as int));
        if !contains_str(list.as_slice(), ps[k].as_str()) {
            list.push(copy_string(&ps[k]));
            assert(strs(list@) =~= added(strs(folders@), strs(ps@).take(k as int)).push(ps@[k as int]@));
        }
        k = k + 1;
    }
    assert(strs(ps@).take(ps.len() as int) =~= strs(ps@));
    *folders = sort_strings(list);
    let ghost old_files = files@;
    let mut f: usize = 0;
    while f < files.len()
        invariant
            f <= files.len(),
            files@.len() == old_files.len(),
            forall|x: int| f <= x < files@.len() ==> #[trigger] files@[x] == old_files[x],
            forall|x: int|
                0 <= x < f ==> {
                    let (k, l) = #[trigger] old_files[x];
                    let (k2, l2) = files@[x];
                    &&& k2 == k
                    &&& listing_after_save(k@, l, *note, l2.items@)
                    &&& l2.next == (if l.next is Some {
                        Some(l2.items@.len() as u64)
                    } else {
                        None
                    })
                    &&& l2.loading == l.loading
                    &&& l2.error == l.error
                },
        decreases files.len() - f,
    {
        let key = copy_string(&files[f].0);
        let mut items = drop_id(&files[f].1.items, note.id.as_str());
        let own = str_eq(key.as_str(), note.folder.as_str());
        if own {
            items.insert(0, copy_summary(note));
        }
        proof {
            if own {
                assert(items@ =~= seq![*note] + without_id(old_files[f as int].1.items@, note.id@));
            } else {
                assert(items@ =~= Seq::<NoteSummary>::empty() + without_id(old_files[f as int].1.items@, note.id@));
            }
        }
        let next = match files[f].1.next {
            Some(_) => Some(items.len() as u64),
            None => None,
        };
        let listing = FolderListing {
            items,
            next,
            loading: files[f].1.loading,
            error: copy_string(&files[f].1.error),
        };
        files.set(f, (key, listing));
        f = f + 1;
    }
}

/// Takes a deleted note out of every cached listing; a listing with more to load counts
/// what it holds.
pub fn remove_tree_note(files: &mut Vec<(String, FolderListing)>, id: &str)
    ensures
        final(files)@.len() == old(files)@.len(),
        forall|i: int|
            0 <= i < old(files)@.len() ==> {
                let (k, l) = #[trigger] old(files)@[i];
                let (k2, l2) = final(files)@[i];
                &&& k2 == k
                &&& l2.items@ == without_id(l.items@, id@)
                &&& l2.next == (if l.next is Some {
                    Some(l2.items@.len() as u64)
                } else {
                    None
                })
                &&& l2.loading == l.loading
                &&& l2.error == l.error
            },
{
    let ghost old_files = files@;
    let mut f: usize = 0;
    while f < files.len()
        invariant
            f <= files.len(),
            files@.len() == old_files.len(),
            forall|x: int| f <= x < files@.len() ==> #[trigger] files@[x] == old_files[x],
            forall|x: int|
                0 <= x < f ==> {
                    let (k, l) = #[trigger] old_files[x];
                    let (k2, l2) = files@[x];
                    &&& k2 == k
                    &&& l2.items@ == without_id(l.items@, id@)
                    &&& l2.next == (if l.next is Some {
                        Some(l2.items@.len() as u64)
                    } else {
                        None
                    })
                    &&& l2.loading == l.loading
                    &&& l2.error == l.error
                },
        decreases files.len() - f,
    {
        let key = copy_string(&files[f].0);
        let items = drop_id(&files[f].1.items, id);
        let next = match files[f].1.next {
            Some(_) => Some(items.len() as u64),
            None => None,
        };
        let listing = FolderListing {
            items,
            next,
            loading: files[f].1.loading,
            error: copy_string(&files[f].1.error),
        };
        files.set(f, (key, listing));
        f = f + 1;
    }
}

/// A listing with `incoming` loaded after it: each incoming note replaces any note with its
/// ID and goes to the end.
pub open spec fn appended(items: Seq<NoteSummary>, incoming: Seq<NoteSummary>) -> Seq<NoteSummary>
    decreases incoming.len(),
{
    if incoming.len() == 0 {
        items
    } else {
        without_id(appended(items, incoming.drop_last()), incoming.last().id@).push(incoming.last())
    }
}

/// A folder's cached listing once a page of it has loaded: the page (`Ok` with the notes and
/// the next offset) replaces the listing, or with `more` is appended to it; a failure is kept
/// as the listing's error. The listing stops loading either way.
pub fn apply_listing(entry: &mut FolderListing, result: Result<(Vec<NoteSummary>, Option<u64>), String>, more: bool)
    ensures
        !final(entry).loading,
        match result {
            Ok((incoming, next)) => {
                &&& final(entry).items@ == (if more {
                    appended(old(entry).items@, incoming@)
                } else {
                    incoming@
                })
                &&& final(entry).next == next
                &&& final(entry).error == old(entry).error
            },
            Err(e) => {
                &&& final(entry).error == e
                &&& final(entry).items == old(entry).items
                &&& final(entry).next == old(entry).next
            },
        },
{
    entry.loading = false;
    match result {
        Ok((incoming, next)) => {
            if more {
                let mut k: usize = 0;
                let ghost base = entry.items@;
                let ghost err = entry.error;
                while k < incoming.len()
                    invariant
                        k <= incoming@.len(),
                        entry.error == err,
                        entry.items@ == appended(base, incoming@.take(k as int)),
                        !entry.loading,
                    decreases incoming@.len() - k,
                {
                    assert(incoming@.take(k + 1).drop_last() =~= incoming@.take(k as int));
                    let kept = drop_id(&entry.items, incoming[k].id.as_str());
                    entry.items = kept;
                    entry.items.push(copy_summary(&incoming[k]));
                    k = k + 1;
                }
                assert(incoming@.take(incoming@.len() as int) =~= incoming@);
            } else {
                entry.items = incoming;
            }
            entry.next = next;
        },
        Err(e) => {
            entry.error = e;
        },
    }
}

/// The task query a page loads: the chosen group on the to-do page, the shown days on the
/// planner (first to last), and today's tasks elsewhere.
pub open spec fn page_query(page: Seq<char>, group: Seq<char>, today: Seq<char>, dates: Seq<Seq<char>>) -> Seq<char> {
    if page == "Todo"@ {
        "group="@ + lowercase(group) + "&today="@ + today
    } else if page == "Planner"@ {
        "from="@ + dates[0] + "&to="@ + dates.last()
    } else {
        "group=today&today="@ + today
    }
}

/// The task query a page loads (see `page_query`); `dates` are the days the planner shows.
pub fn tasks_for_page(page: &str, group: &str, today: &str, dates: &[String]) -> (r: String)
    requires
        page@ == "Planner"@ ==> dates@.len() > 0,
    ensures
        r@ == page_query(page@, group@, today@, strs(dates@)),
{
    proof {
        reveal_strlit("Todo");
        reveal_strlit("Planner");
        assert("Todo"@.len() != "Planner"@.len());
    }
    if str_eq(page, "Todo") {
        let mut r = "group=".to_string();
        push_str(&mut r, to_lowercase(group).as_str());
        push_str(&mut r, "&today=");
        push_str(&mut r, today);
        r
    } else if str_eq(page, "Planner") {
        let mut r = "from=".to_string();
        push_str(&mut r, dates[0].as_str());
        push_str(&mut r, "&to=");
        push_str(&mut r, dates[dates.len() - 1].as_str());
        assert(strs(dates@)[0] == dates@[0]@);
        assert(strs(dates@).last() == dates@[dates@.len() - 1]@);
        r
    } else {
        let mut r = "group=today&today=".to_string();
        push_str(&mut r, today);
        r
    }
}

} // verus!
