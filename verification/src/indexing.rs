//! Indexing the checkboxes of a note as tasks, keeping the identity of tasks that were
//! indexed from it before.
use crate::crypto::{uid, uuid_v4_text};
use crate::failure::{fail, Failure};
use crate::order::str_eq;
use crate::planner::{checkboxes, checkboxes_of, Task};
use crate::planning::{opt_view, task_text, task_text_of};
use vstd::prelude::*;

verus! {

/// What a task holds, as plain values.
pub struct TaskView {
    pub id: Seq<char>,
    pub title: Seq<char>,
    pub completed: bool,
    pub due_date: Option<Seq<char>>,
    pub due_time: Option<Seq<char>>,
    pub source_note_id: Option<Seq<char>>,
    pub source_line: Option<usize>,
    pub created_at: u64,
    pub updated_at: u64,
}

pub open spec fn task_view(t: Task) -> TaskView {
    TaskView {
        id: t.id@,
        title: t.title@,
        completed: t.completed,
        due_date: opt_view(t.due_date),
        due_time: opt_view(t.due_time),
        source_note_id: opt_view(t.source_note_id),
        source_line: t.source_line,
        created_at: t.created_at,
        updated_at: t.updated_at,
    }
}

pub open spec fn task_views(ts: Seq<Task>) -> Seq<TaskView> {
    ts.map_values(|t: Task| task_view(t))
}

/// The checkboxes of a note as plain values: line, text, checked.
pub open spec fn box_views(parsed: Seq<(usize, String, bool)>) -> Seq<(usize, Seq<char>, bool)> {
    parsed.map_values(|p: (usize, String, bool)| (p.0, p.1@, p.2))
}

/// The task title of each checkbox.
pub open spec fn box_titles(boxes: Seq<(usize, Seq<char>, bool)>) -> Seq<Seq<char>> {
    boxes.map_values(|b: (usize, Seq<char>, bool)| task_text_of(b.1).0)
}

/// The first task titled `title`, or -1.
pub open spec fn first_titled(rem: Seq<TaskView>, title: Seq<char>) -> int
    decreases rem.len(),
{
    if rem.len() == 0 {
        -1
    } else if first_titled(rem.drop_last(), title) >= 0 {
        first_titled(rem.drop_last(), title)
    } else if rem.last().title == title {
        rem.len() - 1
    } else {
        -1
    }
}

/// A task that sat on `line` and whose title no checkbox of the note still has.
pub open spec fn moved_off(t: TaskView, line: usize, titles: Seq<Seq<char>>) -> bool {
    t.source_line == Some(line) && !titles.contains(t.title)
}

/// The first task that sat on `line` with a title no checkbox still has, or -1.
pub open spec fn first_on_line(rem: Seq<TaskView>, line: usize, titles: Seq<Seq<char>>) -> int
    decreases rem.len(),
{
    if rem.len() == 0 {
        -1
    } else if first_on_line(rem.drop_last(), line, titles) >= 0 {
        first_on_line(rem.drop_last(), line, titles)
    } else if moved_off(rem.last(), line, titles) {
        rem.len() - 1
    } else {
        -1
    }
}

/// The earlier task a checkbox keeps: the first one with its title, else the first one on
/// its line whose title is gone from the note; -1 for none.
pub open spec fn match_of(rem: Seq<TaskView>, title: Seq<char>, line: usize, titles: Seq<Seq<char>>) -> int {
    if first_titled(rem, title) >= 0 {
        first_titled(rem, title)
    } else {
        first_on_line(rem, line, titles)
    }
}

/// Indexing the checkboxes `boxes` of note `note` at time `now`, in order: each checkbox with
/// a title becomes a task that keeps the ID and creation time of the earlier task it matches
/// (which is then used up), or gets a fresh ID (`true` in the second sequence; its ID here is
/// left empty) and is created now. Returns the tasks, which of them are fresh, and the
/// earlier tasks left unmatched.
pub open spec fn reconcile(
    old: Seq<TaskView>,
    boxes: Seq<(usize, Seq<char>, bool)>,
    titles: Seq<Seq<char>>,
    note: Seq<char>,
    now: u64,
) -> (Seq<TaskView>, Seq<bool>, Seq<TaskView>)
    decreases boxes.len(),
{
    if boxes.len() == 0 {
        (Seq::empty(), Seq::empty(), old)
    } else {
        let (out, fresh, rem) = reconcile(old, boxes.drop_last(), titles, note, now);
        let (line, text, completed) = boxes.last();
        let (title, due_date, due_time) = task_text_of(text);
        if title.len() == 0 {
            (out, fresh, rem)
        } else {
            let m = match_of(rem, title, line, titles);
            let task = TaskView {
                id: if m >= 0 {
                    rem[m].id
                } else {
                    Seq::empty()
                },
                title,
                completed,
                due_date,
                due_time,
                source_note_id: Some(note),
                source_line: Some(line),
                created_at: if m >= 0 {
                    rem[m].created_at
                } else {
                    now
                },
                updated_at: now,
            };
            if m >= 0 {
                (out.push(task), fresh.push(false), rem.remove(m))
            } else {
                (out.push(task), fresh.push(true), rem)
            }
        }
    }
}

proof fn lemma_reconcile_len(
    old: Seq<TaskView>,
    boxes: Seq<(usize, Seq<char>, bool)>,
    titles: Seq<Seq<char>>,
    note: Seq<char>,
    now: u64,
)
    ensures
        reconcile(old, boxes, titles, note, now).0.len() == reconcile(old, boxes, titles, note, now).1.len(),
        reconcile(old, boxes, titles, note, now).0.len() <= boxes.len(),
    decreases boxes.len(),
{
    if boxes.len() > 0 {
        lemma_reconcile_len(old, boxes.drop_last(), titles, note, now);
    }
}

proof fn lemma_first_titled(rem: Seq<TaskView>, title: Seq<char>)
    ensures
        -1 <= first_titled(rem, title) < rem.len(),
        first_titled(rem, title) >= 0 ==> rem[first_titled(rem, title)].title == title,
        forall|k: int|
            0 <= k < rem.len() && (first_titled(rem, title) < 0 || k < first_titled(rem, title))
                ==> #[trigger] rem[k].title != title,
    decreases rem.len(),
{
    if rem.len() > 0 {
        lemma_first_titled(rem.drop_last(), title);
        assert forall|k: int|
            0 <= k < rem.len() && (first_titled(rem, title) < 0 || k < first_titled(rem, title))
                implies #[trigger] rem[k].title != title by {
            if k < rem.len() - 1 {
                assert(rem.drop_last()[k] == rem[k]);
            }
        }
    }
}

proof fn lemma_first_on_line(rem: Seq<TaskView>, line: usize, titles: Seq<Seq<char>>)
    ensures
        -1 <= first_on_line(rem, line, titles) < rem.len(),
        first_on_line(rem, line, titles) >= 0 ==> moved_off(rem[first_on_line(rem, line, titles)], line, titles),
        forall|k: int|
            0 <= k < rem.len() && (first_on_line(rem, line, titles) < 0 || k < first_on_line(rem, line, titles))
                ==> !moved_off(#[trigger] rem[k], line, titles),
    decreases rem.len(),
{
    if rem.len() > 0 {
        lemma_first_on_line(rem.drop_last(), line, titles);
        assert forall|k: int|
            0 <= k < rem.len() && (first_on_line(rem, line, titles) < 0 || k < first_on_line(rem, line, titles))
                implies !moved_off(#[trigger] rem[k], line, titles) by {
            if k < rem.len() - 1 {
                assert(rem.drop_last()[k] == rem[k]);
            }
        }
    }
}

/// Indexing a note again with unchanged checkboxes keeps every task: each checkbox finds
/// the task it had (by title) and keeps its ID and creation time; none is fresh.
pub proof fn lemma_reindex_keeps_tasks(
    old: Seq<TaskView>,
    boxes: Seq<(usize, Seq<char>, bool)>,
    note: Seq<char>,
    now: u64,
)
    requires
        old.len() == boxes.len(),
        forall|i: int| 0 <= i < boxes.len() ==> (#[trigger] task_text_of(boxes[i].1)).0.len() > 0,
        forall|i: int| 0 <= i < boxes.len() ==> (#[trigger] old[i]).title == task_text_of(boxes[i].1).0,
    ensures
        ({
            let (out, fresh, rem) = reconcile(old, boxes, box_titles(boxes), note, now);
            &&& out.len() == old.len()
            &&& rem.len() == 0
            &&& forall|i: int| 0 <= i < out.len() ==> !fresh[i] && (#[trigger] out[i]).id == old[i].id
                && out[i].created_at == old[i].created_at
        }),
{
    lemma_reindex_prefix(old, boxes, box_titles(boxes), note, now, boxes.len() as int);
    assert(boxes.take(boxes.len() as int) =~= boxes);
    assert(old.skip(old.len() as int) =~= Seq::<TaskView>::empty());
}

/// Indexing a note again after its checkboxes were moved, inserted or reordered keeps each
/// earlier task whose title a checkbox still has: some task of the new index, not fresh, has
/// its ID, creation time and title. (Left out: an earlier task whose title another earlier
/// task shares, where fewer checkboxes than tasks may carry it.)
pub proof fn lemma_reindex_keeps_titled(
    old: Seq<TaskView>,
    boxes: Seq<(usize, Seq<char>, bool)>,
    note: Seq<char>,
    now: u64,
    i: int,
)
    requires
        0 <= i < old.len(),
        old[i].title.len() > 0,
        box_titles(boxes).contains(old[i].title),
        forall|j: int| 0 <= j < old.len() && j != i ==> #[trigger] old[j].title != old[i].title,
    ensures
        ({
            let (out, fresh, _) = reconcile(old, boxes, box_titles(boxes), note, now);
            exists|k: int|
                0 <= k < out.len() && !fresh[k] && (#[trigger] out[k]).id == old[i].id
                    && out[k].created_at == old[i].created_at && out[k].title == old[i].title
        }),
{
    let titles = box_titles(boxes);
    lemma_kept_prefix(old, boxes, titles, note, now, i, boxes.len() as int);
    assert(boxes.take(boxes.len() as int) =~= boxes);
    let q = choose|q: int| 0 <= q < titles.len() && titles[q] == old[i].title;
    assert(task_text_of(boxes[q].1).0 == old[i].title);
}

/// The earlier task `old[i]`, whose title no other earlier task has, stays unmatched until the
/// first checkbox with its title, which keeps it.
proof fn lemma_kept_prefix(
    old: Seq<TaskView>,
    boxes: Seq<(usize, Seq<char>, bool)>,
    titles: Seq<Seq<char>>,
    note: Seq<char>,
    now: u64,
    i: int,
    n: int,
)
    requires
        0 <= i < old.len(),
        old[i].title.len() > 0,
        titles.contains(old[i].title),
        forall|j: int| 0 <= j < old.len() && j != i ==> #[trigger] old[j].title != old[i].title,
        0 <= n <= boxes.len(),
    ensures
        ({
            let (out, fresh, rem) = reconcile(old, boxes.take(n), titles, note, now);
            let t = old[i].title;
            &&& forall|j: int| 0 <= j < rem.len() && (#[trigger] rem[j]).title == t ==> rem[j] == old[i]
            &&& (forall|q: int| 0 <= q < n ==> (#[trigger] task_text_of(boxes[q].1)).0 != t)
                ==> rem.contains(old[i])
            &&& (exists|q: int| 0 <= q < n && (#[trigger] task_text_of(boxes[q].1)).0 == t)
                ==> exists|k: int|
                0 <= k < out.len() && !fresh[k] && (#[trigger] out[k]).id == old[i].id
                    && out[k].created_at == old[i].created_at && out[k].title == t
        }),
    decreases n,
{
    let t = old[i].title;
    if n == 0 {
        assert(boxes.take(0) =~= Seq::<(usize, Seq<char>, bool)>::empty());
        assert(old[i] == old[i]);
    } else {
        lemma_kept_prefix(old, boxes, titles, note, now, i, n - 1);
        let bs = boxes.take(n);
        assert(bs.drop_last() =~= boxes.take(n - 1));
        assert(bs.last() == boxes[n - 1]);
        let (out0, fresh0, rem0) = reconcile(old, boxes.take(n - 1), titles, note, now);
        lemma_reconcile_len(old, boxes.take(n - 1), titles, note, now);
        let (out, fresh, rem) = reconcile(old, bs, titles, note, now);
        let (line, text, completed) = boxes[n - 1];
        let title = task_text_of(text).0;
        let earlier = exists|q: int| 0 <= q < n - 1 && (#[trigger] task_text_of(boxes[q].1)).0 == t;
        if title.len() > 0 {
            let m = match_of(rem0, title, line, titles);
            lemma_first_titled(rem0, title);
            lemma_first_on_line(rem0, line, titles);
            if m >= 0 {
                assert(rem == rem0.remove(m));
                assert(out == out0.push(out[out.len() - 1]));
                assert(fresh == fresh0.push(false));
                assert forall|j: int| 0 <= j < rem.len() && (#[trigger] rem[j]).title == t implies rem[j] == old[i] by {
                    if j < m {
                        assert(rem[j] == rem0[j]);
                    } else {
                        assert(rem[j] == rem0[j + 1]);
                    }
                }
            } else {
                assert(rem == rem0);
            }
            if !earlier {
                let w = choose|w: int| 0 <= w < rem0.len() && rem0[w] == old[i];
                if title == t {
                    assert(rem0[w].title == t);
                    assert(m == first_titled(rem0, title));
                    assert(rem0[m] == old[i]);
                    let k = out0.len() as int;
                    assert(out[k].id == old[i].id);
                    assert(!fresh[k]);
                } else {
                    if m >= 0 {
                        if first_titled(rem0, title) >= 0 {
                            assert(rem0[m].title == title);
                        } else {
                            assert(moved_off(rem0[m], line, titles));
                            assert(!titles.contains(rem0[m].title));
                        }
                        assert(rem0[m] != old[i]);
                        assert(m != w);
                        if w < m {
                            assert(rem[w] == old[i]);
                        } else {
                            assert(rem[w - 1] == old[i]);
                        }
                    }
                    assert forall|q: int| 0 <= q < n implies (#[trigger] task_text_of(boxes[q].1)).0 != t by {
                        if q < n - 1 {
                        }
                    }
                }
            } else {
                let k = choose|k: int|
                    0 <= k < out0.len() && !fresh0[k] && (#[trigger] out0[k]).id == old[i].id
                        && out0[k].created_at == old[i].created_at && out0[k].title == t;
                assert(out[k] == out0[k]);
                assert(fresh[k] == fresh0[k]);
            }
        } else {
            assert(title != t);
            if !earlier {
                assert forall|q: int| 0 <= q < n implies (#[trigger] task_text_of(boxes[q].1)).0 != t by {
                    if q < n - 1 {
                    }
                }
            }
        }
    }
}

proof fn lemma_reindex_prefix(
    old: Seq<TaskView>,
    boxes: Seq<(usize, Seq<char>, bool)>,
    titles: Seq<Seq<char>>,
    note: Seq<char>,
    now: u64,
    n: int,
)
    requires
        0 <= n <= boxes.len(),
        old.len() == boxes.len(),
        forall|i: int| 0 <= i < boxes.len() ==> (#[trigger] task_text_of(boxes[i].1)).0.len() > 0,
        forall|i: int| 0 <= i < boxes.len() ==> (#[trigger] old[i]).title == task_text_of(boxes[i].1).0,
    ensures
        ({
            let (out, fresh, rem) = reconcile(old, boxes.take(n), titles, note, now);
            &&& out.len() == n
            &&& fresh.len() == n
            &&& rem == old.skip(n)
            &&& forall|i: int| 0 <= i < n ==> !fresh[i] && (#[trigger] out[i]).id == old[i].id
                && out[i].created_at == old[i].created_at
        }),
    decreases n,
{
    if n == 0 {
        assert(old.skip(0) =~= old);
    } else {
        lemma_reindex_prefix(old, boxes, titles, note, now, n - 1);
        assert(boxes.take(n).drop_last() =~= boxes.take(n - 1));
        assert(boxes.take(n).last() == boxes[n - 1]);
        let rem = old.skip(n - 1);
        let title = task_text_of(boxes[n - 1].1).0;
        assert(rem[0] == old[n - 1]);
        lemma_first_titled(rem, title);
        assert(first_titled(rem, title) == 0);
        assert(rem.remove(0) =~= old.skip(n));
    }
}

fn copy_opt(s: &Option<String>) -> (r: Option<String>)
    ensures
        r == *s,
{
    match s {
        Some(v) => Some(v.clone()),
        None => None,
    }
}

fn has_title(titles: &Vec<String>, t: &str) -> (r: bool)
    ensures
        r == crate::order::strs(titles@).contains(t@),
{
    crate::client::contains_str(titles.as_slice(), t)
}

/// The task index of a note's checkboxes (see `reconcile`); fresh tasks get random version-4
/// UUIDs, drawn one per checkbox (see `index_tasks_drawn`). Which UUIDs are drawn is left
/// open: they are random.
pub fn index_tasks(old: Vec<Task>, parsed: &Vec<(usize, String, bool)>, note: &str, now: u64) -> (r: Vec<Task>)
    ensures
        ({
            let (out, fresh, _) = reconcile(
                task_views(old@),
                box_views(parsed@),
                box_titles(box_views(parsed@)),
                note@,
                now,
            );
            &&& r@.len() == out.len()
            &&& forall|k: int|
                0 <= k < out.len() ==> if fresh[k] {
                    task_view(#[trigger] r@[k]) == TaskView { id: r@[k].id@, ..out[k] } && uuid_v4_text(r@[k].id@)
                } else {
                    task_view(r@[k]) == out[k]
                }
        }),
{
    let mut draws: Vec<String> = Vec::new();
    let mut j: usize = 0;
    while j < parsed.len()
        invariant
            j <= parsed.len(),
            draws@.len() == j,
            forall|k: int| 0 <= k < j ==> uuid_v4_text(#[trigger] draws@[k]@),
        decreases parsed.len() - j,
    {
        draws.push(uid());
        j = j + 1;
    }
    let r = index_tasks_drawn(old, parsed, note, now, &draws);
    proof {
        let (out, fresh, _) = reconcile(
            task_views(old@),
            box_views(parsed@),
            box_titles(box_views(parsed@)),
            note@,
            now,
        );
        lemma_reconcile_len(
            task_views(old@),
            box_views(parsed@),
            box_titles(box_views(parsed@)),
            note@,
            now,
        );
        assert forall|k: int| 0 <= k < out.len() && fresh[k] implies uuid_v4_text(#[trigger] r@[k].id@) by {
            assert(task_view(r@[k]).id == draws@[k]@);
            assert(uuid_v4_text(draws@[k]@));
        }
    }
    r
}

/// The task index of a note's checkboxes (see `reconcile`), with the IDs drawn for fresh tasks
/// given: the task at place `k` of the index, when fresh, takes the `k`-th draw.
pub fn index_tasks_drawn(
    old: Vec<Task>,
    parsed: &Vec<(usize, String, bool)>,
    note: &str,
    now: u64,
    draws: &Vec<String>,
) -> (r: Vec<Task>)
    requires
        draws@.len() >= parsed@.len(),
    ensures
        ({
            let (out, fresh, _) = reconcile(
                task_views(old@),
                box_views(parsed@),
                box_titles(box_views(parsed@)),
                note@,
                now,
            );
            &&& r@.len() == out.len()
            &&& forall|k: int|
                0 <= k < out.len() ==> if fresh[k] {
                    task_view(#[trigger] r@[k]) == TaskView { id: draws@[k]@, ..out[k] }
                } else {
                    task_view(r@[k]) == out[k]
                }
        }),
{
    let ghost boxes = box_views(parsed@);
    let ghost all_titles = box_titles(boxes);
    let mut titles: Vec<String> = Vec::new();
    let mut j: usize = 0;
    while j < parsed.len()
        invariant
            j <= parsed.len(),
            boxes == box_views(parsed@),
            all_titles == box_titles(boxes),
            crate::order::strs(titles@) == all_titles.take(j as int),
        decreases parsed.len() - j,
    {
        let (t, _, _) = task_text(parsed[j].1.as_str());
        let ghost before = crate::order::strs(titles@);
        titles.push(t);
        assert(crate::order::strs(titles@) =~= before.push(task_text_of(parsed@[j as int].1@).0));
        assert(all_titles.take(j + 1) =~= all_titles.take(j as int).push(all_titles[j as int]));
        j = j + 1;
    }
    assert(all_titles.take(parsed.len() as int) =~= all_titles);
    let mut rem = old;
    let ghost start = task_views(rem@);
    let mut out: Vec<Task> = Vec::new();
    let mut i: usize = 0;
    while i < parsed.len()
        invariant
            i <= parsed.len(),
            draws@.len() >= parsed@.len(),
            boxes == box_views(parsed@),
            all_titles == box_titles(boxes),
            crate::order::strs(titles@) == all_titles,
            ({
                let (o, f, rm) = reconcile(start, boxes.take(i as int), all_titles, note@, now);
                &&& rm == task_views(rem@)
                &&& out@.len() == o.len()
                &&& forall|k: int|
                    0 <= k < o.len() ==> if f[k] {
                        task_view(#[trigger] out@[k]) == TaskView { id: draws@[k]@, ..o[k] }
                    } else {
                        task_view(out@[k]) == o[k]
                    }
            }),
        decreases parsed.len() - i,
    {
        let ghost prev = reconcile(start, boxes.take(i as int), all_titles, note@, now);
        proof {
            lemma_reconcile_len(start, boxes.take(i as int), all_titles, note@, now);
        }
        let ghost prev_out = out@;
        assert(boxes.take(i + 1).drop_last() =~= boxes.take(i as int));
        assert(boxes.take(i + 1).last() == (parsed@[i as int].0, parsed@[i as int].1@, parsed@[i as int].2));
        let line = parsed[i].0;
        let completed = parsed[i].2;
        let (title, due_date, due_time) = task_text(parsed[i].1.as_str());
        if crate::text::chars_of(title.as_str()).len() == 0 {
            assert(title@.len() == 0);
        } else {
            let ghost rv = task_views(rem@);
            proof {
                lemma_first_titled(rv, title@);
                lemma_first_on_line(rv, line, all_titles);
            }
            let mut m: usize = 0;
            while m < rem.len() && !str_eq(rem[m].title.as_str(), title.as_str())
                invariant
                    m <= rem@.len(),
                    rv == task_views(rem@),
                    forall|k: int| 0 <= k < m ==> #[trigger] rv[k].title != title@,
                decreases rem@.len() - m,
            {
                assert(rv[m as int].title == rem@[m as int].title@);
                m = m + 1;
            }
            if m == rem.len() {
                proof {
                    if first_titled(rv, title@) >= 0 {
                        assert(rv[first_titled(rv, title@)].title == title@);
                    }
                }
                m = 0;
                while m < rem.len() && !(rem[m].source_line == Some(line) && !has_title(&titles, rem[m].title.as_str()))
                    invariant
                        m <= rem@.len(),
                        rv == task_views(rem@),
                        crate::order::strs(titles@) == all_titles,
                        forall|k: int| 0 <= k < m ==> !moved_off(#[trigger] rv[k], line, all_titles),
                    decreases rem@.len() - m,
                {
                    assert(rv[m as int].title == rem@[m as int].title@);
                    m = m + 1;
                }
                proof {
                    let f = first_on_line(rv, line, all_titles);
                    if f >= 0 && f < m {
                        assert(!moved_off(rv[f], line, all_titles));
                    }
                    if m < rv.len() {
                        assert(rv[m as int].title == rem@[m as int].title@);
                        assert(moved_off(rv[m as int], line, all_titles));
                        if f < 0 || m < f {
                            assert(!moved_off(rv[m as int], line, all_titles));
                        }
                    }
                }
            } else {
                proof {
                    let f = first_titled(rv, title@);
                    assert(rv[m as int].title == rem@[m as int].title@);
                    if f < 0 || m < f {
                        assert(rv[m as int].title != title@);
                    }
                    if f >= 0 && f < m {
                        assert(rv[f].title != title@);
                    }
                }
            }
            let ghost mi = match_of(rv, title@, line, all_titles);
            assert(mi == (if m < rv.len() { m as int } else { -1 }));
            if m < rem.len() {
                let t = rem.remove(m);
                assert(task_view(t) == rv[m as int]);
                assert(task_views(rem@) =~= rv.remove(m as int));
                let task = Task {
                    id: t.id,
                    title,
                    completed,
                    due_date,
                    due_time,
                    source_note_id: Some(note.to_string()),
                    source_line: Some(line),
                    created_at: t.created_at,
                    updated_at: now,
                };
                let ghost tv = task_view(task);
                out.push(task);
                proof {
                    let next = reconcile(start, boxes.take(i + 1), all_titles, note@, now);
                    assert(next.0 == prev.0.push(tv));
                    assert(next.1 == prev.1.push(false));
                    assert(next.2 == prev.2.remove(m as int));
                    assert(out@ == prev_out.push(task));
                    assert forall|k: int| 0 <= k < next.0.len() implies if next.1[k] {
                        task_view(#[trigger] out@[k]) == TaskView { id: draws@[k]@, ..next.0[k] }
                    } else {
                        task_view(out@[k]) == next.0[k]
                    } by {
                        if k < prev.0.len() {
                            assert(out@[k] == prev_out[k]);
                        }
                    }
                }
            } else {
                proof {
                    lemma_reconcile_len(start, boxes.take(i as int), all_titles, note@, now);
                }
                let task = Task {
                    id: crate::client::copy_string(&draws[out.len()]),
                    title,
                    completed,
                    due_date,
                    due_time,
                    source_note_id: Some(note.to_string()),
                    source_line: Some(line),
                    created_at: now,
                    updated_at: now,
                };
                let ghost tv = task_view(task);
                out.push(task);
                proof {
                    let next = reconcile(start, boxes.take(i + 1), all_titles, note@, now);
                    assert(next.0 == prev.0.push(TaskView { id: Seq::empty(), ..tv }));
                    assert(next.1 == prev.1.push(true));
                    assert(next.2 == prev.2);
                    assert(out@ == prev_out.push(task));
                    assert forall|k: int| 0 <= k < next.0.len() implies if next.1[k] {
                        task_view(#[trigger] out@[k]) == TaskView { id: draws@[k]@, ..next.0[k] }
                    } else {
                        task_view(out@[k]) == next.0[k]
                    } by {
                        if k < prev.0.len() {
                            assert(out@[k] == prev_out[k]);
                        }
                    }
                }
            }
        }
        i = i + 1;
    }
    assert(boxes.take(parsed.len() as int) =~= boxes);
    out
}

/// Refuses a note with more than 2,000 checkboxes.
pub fn check_checkbox_count(count: usize) -> (r: Result<(), Failure>)
    ensures
        r is Err <==> count > 2000,
        r matches Err(e) ==> e.status == 400 && e.message@ == "A note can contain at most 2,000 indexed checkboxes."@,
{
    if count > 2000 {
        return Err(fail(400, "A note can contain at most 2,000 indexed checkboxes."));
    }
    Ok(())
}

/// The tasks a saved note indexes: none for a note in the archive; else its checkboxes, at
/// most 2,000 of them (400 otherwise), reconciled with the earlier tasks (see `index_tasks`).
pub fn index_note_tasks(old: Vec<Task>, markdown: &str, archived: bool, note: &str, now: u64) -> (r:
    Result<Vec<Task>, Failure>)
    ensures
        archived ==> (r matches Ok(v) && v@.len() == 0),
        !archived && checkboxes_of(markdown@).len() > 2000 ==> (r matches Err(e) && e.status == 400
            && e.message@ == "A note can contain at most 2,000 indexed checkboxes."@),
        !archived && checkboxes_of(markdown@).len() <= 2000 ==> (r matches Ok(v) && {
            let (out, fresh, _) = reconcile(
                task_views(old@),
                checkboxes_of(markdown@),
                box_titles(checkboxes_of(markdown@)),
                note@,
                now,
            );
            &&& v@.len() == out.len()
            &&& forall|k: int|
                0 <= k < out.len() ==> if fresh[k] {
                    task_view(#[trigger] v@[k]) == TaskView { id: v@[k].id@, ..out[k] } && uuid_v4_text(v@[k].id@)
                } else {
                    task_view(v@[k]) == out[k]
                }
        }),
{
    if archived {
        return Ok(Vec::new());
    }
    let parsed = checkboxes(markdown);
    assert(box_views(parsed@) =~= parsed.deep_view());
    match check_checkbox_count(parsed.len()) {
        Err(e) => Err(e),
        Ok(()) => Ok(index_tasks(old, &parsed, note, now)),
    }
}

} // verus!
