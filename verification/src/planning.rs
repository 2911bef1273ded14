//! Task and goal rules: due markers in checkbox text, edits, and list queries.
use crate::failure::{fail, Failure};
use crate::planner::{
    checkboxes, checkboxes_of, date_ok, date_ok_chars, time_ok, time_ok_chars, Goal, Task,
};
use crate::text::{
    chars_of, concat, eq_lit, push_all, push_str, slice_copy, split_lines_inclusive,
    split_lines_inclusive_vec, string_of, trim, trim_vec, utf8_len, utf8_len_at_most, views,
    ws_prefix_len,
};
use crate::linebreaks::line_ending;
use crate::note::{offset_from, offset_param};
use crate::service::{lookup, query_get};
use vstd::prelude::*;

verus! {

/// Index of the first occurrence of `pat` in `s` at or after `i`, or -1.
pub open spec fn find_from(s: Seq<char>, pat: Seq<char>, i: int) -> int
    decreases s.len() + 1 - i,
{
    if i < 0 || i + pat.len() > s.len() {
        -1
    } else if pat.is_prefix_of(s.skip(i)) {
        i
    } else {
        find_from(s, pat, i + 1)
    }
}

pub open spec fn find(s: Seq<char>, pat: Seq<char>) -> int {
    find_from(s, pat, 0)
}

pub proof fn lemma_find_from_bounds(s: Seq<char>, pat: Seq<char>, i: int)
    ensures
        find_from(s, pat, i) == -1 || (i <= find_from(s, pat, i) && find_from(s, pat, i) + pat.len()
            <= s.len()),
    decreases s.len() + 1 - i,
{
    if i >= 0 && i + pat.len() <= s.len() && !pat.is_prefix_of(s.skip(i)) {
        lemma_find_from_bounds(s, pat, i + 1);
    }
}

/// `find(s, pat)` computed.
pub fn find_vec(s: &[char], pat: &[char]) -> (r: Option<usize>)
    ensures
        match r {
            Some(k) => k as int == find(s@, pat@) && k + pat.len() <= s.len(),
            None => find(s@, pat@) == -1,
        },
{
    if pat.len() > s.len() {
        return None;
    }
    let mut i: usize = 0;
    while i <= s.len() - pat.len()
        invariant
            pat.len() <= s.len(),
            i <= s.len() - pat.len() + 1,
            find(s@, pat@) == find_from(s@, pat@, i as int),
        decreases s.len() - i,
    {
        let piece = slice_copy(s, i, s.len());
        assert(piece@ == s@.skip(i as int));
        if crate::text::starts_with_chars(piece.as_slice(), pat) {
            return Some(i);
        }
        i = i + 1;
    }
    None
}

/// Removes a valid ` @due(YYYY-MM-DD)` (or ` @time(HH:MM)`) marker: the first occurrence of the
/// marker, up to the first `)` after it, when the text between is a valid date (or time).
pub open spec fn take_marker(title: Seq<char>, marker: Seq<char>, is_date: bool) -> (
    Seq<char>,
    Option<Seq<char>>,
) {
    let start = find(title, marker);
    if start < 0 {
        (title, None)
    } else {
        let after = title.skip(start + marker.len());
        let e = find(after, seq![')']);
        if e < 0 {
            (title, None)
        } else {
            let value = after.take(e);
            if (is_date && date_ok(value)) || (!is_date && time_ok(value)) {
                (title.take(start) + after.skip(e + 1), Some(value))
            } else {
                (title, None)
            }
        }
    }
}

/// A checkbox text's task title, due date and due time.
pub open spec fn task_text_of(text: Seq<char>) -> (Seq<char>, Option<Seq<char>>, Option<Seq<char>>) {
    let (t1, date) = take_marker(text, " @due("@, true);
    let (t2, time) = take_marker(t1, " @time("@, false);
    (trim(t2), date, time)
}

fn take_marker_vec(title: Vec<char>, marker: &str, is_date: bool) -> (r: (Vec<char>, Option<String>))
    ensures
        r.0@ == take_marker(title@, marker@, is_date).0,
        match take_marker(title@, marker@, is_date).1 {
            Some(v) => r.1 matches Some(s) && s@ == v,
            None => r.1 is None,
        },
{
    let m = chars_of(marker);
    let start = match find_vec(title.as_slice(), m.as_slice()) {
        Some(k) => k,
        None => {
            return (title, None);
        },
    };
    let after = slice_copy(title.as_slice(), start + m.len(), title.len());
    assert(after@ == title@.skip(start + marker@.len()));
    let close = [')'];
    assert(close@ == seq![')']);
    let e = match find_vec(after.as_slice(), close.as_slice()) {
        Some(e) => e,
        None => {
            return (title, None);
        },
    };
    let value = slice_copy(after.as_slice(), 0, e);
    let ok = if is_date {
        date_ok_chars(value.as_slice())
    } else {
        time_ok_chars(value.as_slice())
    };
    if ok {
        let mut rest = slice_copy(title.as_slice(), 0, start);
        let tail = slice_copy(after.as_slice(), e + 1, after.len());
        let mut i: usize = 0;
        let ghost head = rest@;
        while i < tail.len()
            invariant
                i <= tail.len(),
                rest@ == head + tail@.take(i as int),
            decreases tail.len() - i,
        {
            rest.push(tail[i]);
            i = i + 1;
            assert(rest@ =~= head + tail@.take(i as int));
        }
        assert(tail@.take(tail.len() as int) =~= tail@);
        (rest, Some(string_of(value.as_slice())))
    } else {
        (title, None)
    }
}

/// The title, due date and due time of a checkbox text (see `task_text_of`).
pub fn task_text(text: &str) -> (r: (String, Option<String>, Option<String>))
    ensures
        r.0@ == task_text_of(text@).0,
        match task_text_of(text@).1 {
            Some(v) => r.1 matches Some(s) && s@ == v,
            None => r.1 is None,
        },
        match task_text_of(text@).2 {
            Some(v) => r.2 matches Some(s) && s@ == v,
            None => r.2 is None,
        },
{
    let t = chars_of(text);
    let (t1, date) = take_marker_vec(t, " @due(", true);
    let (t2, time) = take_marker_vec(t1, " @time(", false);
    let title = trim_vec(t2.as_slice());
    (string_of(title.as_slice()), date, time)
}

pub open spec fn optional_marker(marker: Seq<char>, value: Option<Seq<char>>) -> Seq<char> {
    match value {
        Some(v) => marker + v + seq![')'],
        None => Seq::<char>::empty(),
    }
}

/// A checkbox line rewritten for a task: the old indentation and line ending, the checkbox
/// state, the title and the due markers.
pub open spec fn task_line(
    old: Seq<char>,
    completed: bool,
    title: Seq<char>,
    due: Option<Seq<char>>,
    time: Option<Seq<char>>,
) -> Seq<char> {
    old.take(ws_prefix_len(old) as int) + "- ["@ + (if completed {
        seq!['x']
    } else {
        seq![' ']
    }) + "] "@ + title + optional_marker(" @due("@, due) + optional_marker(" @time("@, time)
        + line_ending(old)
}

pub open spec fn opt_view(o: Option<String>) -> Option<Seq<char>> {
    match o {
        Some(s) => Some(s@),
        None => None,
    }
}

pub open spec fn source_changed_message() -> Seq<char> {
    "Source note changed. Open and save it before editing the task."@
}

/// Whether checkbox `line` of a note still carries the task titled `title`.
pub open spec fn checkbox_present(md: Seq<char>, line: usize, title: Seq<char>) -> bool {
    exists|i: int|
        0 <= i < checkboxes_of(md).len() && (#[trigger] checkboxes_of(md)[i]).0 == line
            && task_text_of(checkboxes_of(md)[i].1).0 == title
}

/// The note body after editing the task of checkbox `line` (see `task_line`).
pub open spec fn rewritten_note(md: Seq<char>, line: usize, task: Task) -> Seq<char> {
    let ls = split_lines_inclusive(md);
    concat(
        ls.update(
            line as int,
            task_line(ls[line as int], task.completed, task.title@, opt_view(task.due_date), opt_view(task.due_time)),
        ),
    )
}

fn push_line_marker(out: &mut String, marker: &str, value: &Option<String>)
    ensures
        final(out)@ == old(out)@ + optional_marker(marker@, opt_view(*value)),
{
    match value {
        Some(v) => {
            push_str(out, marker);
            push_str(out, v.as_str());
            out.push(')');
        },
        None => {},
    }
}

/// Writes an edited source task back into its note: checkbox `line` must still carry
/// `original_title` (else 409), and that line is rewritten (see `rewritten_note`).
pub fn rewrite_task_line(markdown: &str, line: usize, original_title: &str, task: &Task) -> (r:
    Result<String, Failure>)
    ensures
        checkbox_present(markdown@, line, original_title@) ==> (r matches Ok(s) && s@
            == rewritten_note(markdown@, line, *task)),
        !checkbox_present(markdown@, line, original_title@) ==> (r matches Err(f) && f.status
            == 409 && f.message@ == source_changed_message()),
{
    let parsed = checkboxes(markdown);
    let want = chars_of(original_title);
    let mut i: usize = 0;
    let mut found = false;
    while i < parsed.len() && !found
        invariant
            i <= parsed.len(),
            parsed.deep_view() == checkboxes_of(markdown@),
            want@ == original_title@,
            found ==> checkbox_present(markdown@, line, original_title@),
            !found ==> forall|j: int|
                0 <= j < i ==> !((#[trigger] checkboxes_of(markdown@)[j]).0 == line
                    && task_text_of(checkboxes_of(markdown@)[j].1).0 == original_title@),
        decreases parsed.len() - i + (if found { 0int } else { 1int }),
    {
        let (n, text, _) = &parsed[i];
        assert(parsed.deep_view()[i as int] == parsed@[i as int].deep_view());
        if *n == line {
            let (t, _, _) = task_text(text.as_str());
            let tv = chars_of(t.as_str());
            if crate::text::eq_chars(tv.as_slice(), want.as_slice()) {
                found = true;
            }
        }
        if !found {
            i = i + 1;
        }
    }
    if !found {
        return Err(fail(409, "Source note changed. Open and save it before editing the task."));
    }
    let md = chars_of(markdown);
    let ls = split_lines_inclusive_vec(md.as_slice());
    proof {
        lemma_checkbox_line_in_range(markdown@, line);
    }
    let old = &ls[line];
    assert(views(ls@)[line as int] == old@);
    let width = crate::text::ws_prefix_count(old.as_slice());
    let mut text = string_of(slice_copy(old.as_slice(), 0, width).as_slice());
    push_str(&mut text, "- [");
    text.push(
        if task.completed {
            'x'
        } else {
            ' '
        },
    );
    push_str(&mut text, "] ");
    push_str(&mut text, task.title.as_str());
    push_line_marker(&mut text, " @due(", &task.due_date);
    push_line_marker(&mut text, " @time(", &task.due_time);
    let crlf = ['\r', '\n'];
    let lf = ['\n'];
    assert(crlf@ == seq!['\r', '\n']);
    assert(lf@ == seq!['\n']);
    if crate::text::ends_with_chars(old.as_slice(), crlf.as_slice()) {
        text.push('\r');
        text.push('\n');
    } else if crate::text::ends_with_chars(old.as_slice(), lf.as_slice()) {
        text.push('\n');
    }
    let ghost new_line = text@;
    assert(new_line =~= task_line(
        old@,
        task.completed,
        task.title@,
        opt_view(task.due_date),
        opt_view(task.due_time),
    ));
    let mut out = String::new();
    let mut k: usize = 0;
    let ghost updated = views(ls@).update(line as int, new_line);
    while k < ls.len()
        invariant
            k <= ls.len(),
            line < ls.len(),
            updated == views(ls@).update(line as int, new_line),
            text@ == new_line,
            out@ == concat(updated.take(k as int)),
        decreases ls.len() - k,
    {
        assert(updated.take(k + 1).drop_last() =~= updated.take(k as int));
        if k == line {
            push_str(&mut out, text.as_str());
        } else {
            assert(updated[k as int] == ls@[k as int]@);
            push_all(&mut out, ls[k].as_slice());
        }
        k = k + 1;
    }
    assert(updated.take(ls.len() as int) =~= updated);
    Ok(out)
}

/// A checkbox line index is a line of the note in the inclusive split too.
pub proof fn lemma_checkbox_line_in_range(md: Seq<char>, line: usize)
    requires
        exists|i: int|
            0 <= i < checkboxes_of(md).len() && (#[trigger] checkboxes_of(md)[i]).0 == line,
    ensures
        line < split_lines_inclusive(md).len(),
{
    let ls = crate::text::lines(md);
    let i = choose|i: int| 0 <= i < checkboxes_of(md).len() && (#[trigger] checkboxes_of(md)[i]).0 == line;
    lemma_checkboxes_lines(ls, ls.len() as int, i);
}

proof fn lemma_checkboxes_lines(ls: Seq<Seq<char>>, k: int, i: int)
    requires
        0 <= k <= ls.len(),
        0 <= i < crate::planner::checkboxes_upto(ls, k).len(),
    ensures
        (crate::planner::checkboxes_upto(ls, k)[i].0 as int) < k,
    decreases k,
{
    if k > 0 {
        let prev = crate::planner::checkboxes_upto(ls, k - 1);
        if i < prev.len() {
            lemma_checkboxes_lines(ls, k - 1, i);
        }
    }
}

/// A change to one optional field of a task.
#[derive(Debug)]
pub enum FieldEdit {
    Keep,
    Clear,
    Replace(String),
    Invalid,
}

/// The fields of a task edit request.
#[derive(Debug)]
pub struct TaskEdit {
    pub title: Option<String>,
    pub completed: Option<bool>,
    pub due_date: FieldEdit,
    pub due_time: FieldEdit,
}

pub open spec fn title_message() -> Seq<char> {
    "Task title must be 1–500 bytes on one line"@
}

pub open spec fn due_message() -> Seq<char> {
    "Invalid due date/time"@
}

pub open spec fn task_title_ok(t: Seq<char>) -> bool {
    t.len() > 0 && utf8_len(t) <= 500 && !crate::text::seq_contains_char(t, '\n')
        && !crate::text::seq_contains_char(t, '\r')
}

pub open spec fn field_ok(e: FieldEdit, is_date: bool) -> bool {
    match e {
        FieldEdit::Invalid => false,
        FieldEdit::Replace(v) => if is_date {
            date_ok(v@)
        } else {
            time_ok(v@)
        },
        _ => true,
    }
}

pub open spec fn field_value(e: FieldEdit, old: Option<String>) -> Option<Seq<char>> {
    match e {
        FieldEdit::Keep => opt_view(old),
        FieldEdit::Clear => None,
        FieldEdit::Replace(v) => Some(v@),
        FieldEdit::Invalid => None,
    }
}

pub open spec fn edited_title(task: Task, edit: TaskEdit) -> Seq<char> {
    match edit.title {
        Some(t) => trim(t@),
        None => task.title@,
    }
}

fn apply_field(e: FieldEdit, old: Option<String>, is_date: bool) -> (r: Result<Option<String>, ()>)
    ensures
        field_ok(e, is_date) <==> r is Ok,
        r matches Ok(v) ==> opt_view(v) == field_value(e, old),
{
    match e {
        FieldEdit::Keep => Ok(old),
        FieldEdit::Clear => Ok(None),
        FieldEdit::Invalid => Err(()),
        FieldEdit::Replace(v) => {
            let c = chars_of(v.as_str());
            let ok = if is_date {
                date_ok_chars(c.as_slice())
            } else {
                time_ok_chars(c.as_slice())
            };
            if ok {
                Ok(Some(v))
            } else {
                Err(())
            }
        },
    }
}

/// Applies an edit to a task at `now`: the title is trimmed and must be 1 to 500 bytes on one
/// line (400); due date and time must be valid or cleared (400).
pub fn apply_task_edit(task: Task, edit: TaskEdit, now: u64) -> (r: Result<Task, Failure>)
    ensures
        !task_title_ok(edited_title(task, edit)) ==> (r matches Err(f) && f.status == 400
            && f.message@ == title_message()),
        task_title_ok(edited_title(task, edit)) && !(field_ok(edit.due_date, true) && field_ok(
            edit.due_time,
            false,
        )) ==> (r matches Err(f) && f.status == 400 && f.message@ == due_message()),
        task_title_ok(edited_title(task, edit)) && field_ok(edit.due_date, true) && field_ok(
            edit.due_time,
            false,
        ) ==> (r matches Ok(t) && t.id == task.id && t.title@ == edited_title(task, edit)
            && t.completed == (match edit.completed {
            Some(c) => c,
            None => task.completed,
        }) && opt_view(t.due_date) == field_value(edit.due_date, task.due_date) && opt_view(
            t.due_time,
        ) == field_value(edit.due_time, task.due_time) && t.source_note_id == task.source_note_id
            && t.source_line == task.source_line && t.created_at == task.created_at
            && t.updated_at == now),
{
    let ghost edit0 = edit;
    let ghost task0 = task;
    let TaskEdit { title, completed, due_date, due_time } = edit;
    let mut task = task;
    match title {
        Some(t) => {
            let c = chars_of(t.as_str());
            let tr = trim_vec(c.as_slice());
            task.title = string_of(tr.as_slice());
        },
        None => {},
    }
    let tc = chars_of(task.title.as_str());
    if tc.len() == 0 || !utf8_len_at_most(tc.as_slice(), 500) || crate::text::contains_char(
        tc.as_slice(),
        '\n',
    ) || crate::text::contains_char(tc.as_slice(), '\r') {
        return Err(fail(400, "Task title must be 1–500 bytes on one line"));
    }
    match completed {
        Some(c) => {
            task.completed = c;
        },
        None => {},
    }
    let old_date = task.due_date;
    let old_time = task.due_time;
    task.due_date = match apply_field(due_date, old_date, true) {
        Ok(v) => v,
        Err(()) => {
            return Err(fail(400, "Invalid due date/time"));
        },
    };
    task.due_time = match apply_field(due_time, old_time, false) {
        Ok(v) => v,
        Err(()) => {
            return Err(fail(400, "Invalid due date/time"));
        },
    };
    task.updated_at = now;
    Ok(task)
}

/// The fields of a goal edit request.
#[derive(Debug)]
pub struct GoalEdit {
    pub title: Option<String>,
    pub description: Option<String>,
    pub status: Option<String>,
    pub position: Option<i64>,
}

pub open spec fn goal_status_ok(s: Seq<char>) -> bool {
    s == "active"@ || s == "completed"@ || s == "archived"@
}

/// A goal's fields are valid: a 1 to 300 byte title, a description of at most 4000 bytes, and
/// an active, completed or archived status.
pub open spec fn goal_ok(title: Seq<char>, description: Seq<char>, status: Seq<char>) -> bool {
    title.len() > 0 && utf8_len(title) <= 300 && utf8_len(description) <= 4000 && goal_status_ok(
        status,
    )
}

pub open spec fn pick(edit: Option<String>, old: String) -> Seq<char> {
    match edit {
        Some(s) => s@,
        None => old@,
    }
}

/// Applies an edit to a goal at `now` (the title is trimmed), or 400 when the result is invalid.
pub fn apply_goal_edit(goal: Goal, edit: GoalEdit, now: u64) -> (r: Result<Goal, Failure>)
    ensures
        ({
            let title = match edit.title {
                Some(t) => trim(t@),
                None => goal.title@,
            };
            let description = pick(edit.description, goal.description);
            let status = pick(edit.status, goal.status);
            if goal_ok(title, description, status) {
                r matches Ok(g) && g.id == goal.id && g.title@ == title && g.description@
                    == description && g.status@ == status && g.position == (match edit.position {
                    Some(p) => p,
                    None => goal.position,
                }) && g.created_at == goal.created_at && g.updated_at == now
            } else {
                r matches Err(f) && f.status == 400 && f.message@ == "Invalid goal fields"@
            }
        }),
{
    let GoalEdit { title, description, status, position } = edit;
    let mut goal = goal;
    match title {
        Some(t) => {
            let c = chars_of(t.as_str());
            let tr = trim_vec(c.as_slice());
            goal.title = string_of(tr.as_slice());
        },
        None => {},
    }
    match description {
        Some(d) => {
            goal.description = d;
        },
        None => {},
    }
    match status {
        Some(s) => {
            goal.status = s;
        },
        None => {},
    }
    match position {
        Some(p) => {
            goal.position = p;
        },
        None => {},
    }
    let t = chars_of(goal.title.as_str());
    let d = chars_of(goal.description.as_str());
    let s = chars_of(goal.status.as_str());
    if t.len() == 0 || !utf8_len_at_most(t.as_slice(), 300) || !utf8_len_at_most(d.as_slice(), 4000)
        || !(eq_lit(s.as_slice(), "active") || eq_lit(s.as_slice(), "completed") || eq_lit(
        s.as_slice(),
        "archived",
    )) {
        return Err(fail(400, "Invalid goal fields"));
    }
    goal.updated_at = now;
    Ok(goal)
}

/// The SQL condition of a task group (`?4` is the current date), or `None` for an unknown group.
pub open spec fn group_filter(group: Seq<char>) -> Option<Seq<char>> {
    if group == "today"@ {
        Some(" AND due_date<=?4"@)
    } else if group == "upcoming"@ {
        Some(" AND completed=0 AND due_date>?4"@)
    } else if group == "someday"@ {
        Some(" AND completed=0 AND due_date IS NULL AND ?4<>''"@)
    } else if group == "completed"@ {
        Some(" AND completed=1 AND ?4<>''"@)
    } else if group == ""@ {
        Some(""@)
    } else {
        None
    }
}

/// Tasks per page of a task list.
pub const TASK_PAGE: u32 = 200;

/// A task list query: the statement and its parameters.
#[derive(Debug)]
pub struct TaskQuery {
    pub sql: String,
    pub from: String,
    pub to: String,
    pub offset: u32,
    pub today: Option<String>,
}

pub open spec fn param(pairs: Seq<(Seq<char>, Seq<char>)>, key: Seq<char>) -> Seq<char> {
    match lookup(pairs, key) {
        Some(v) => v,
        None => Seq::<char>::empty(),
    }
}

pub open spec fn task_sql(filter: Seq<char>) -> Seq<char> {
    "SELECT * FROM tasks WHERE (?1='' OR due_date>=?1) AND (?2='' OR due_date<=?2) "@ + filter
        + " ORDER BY completed,due_date IS NULL,due_date,due_time,created_at,id LIMIT 201 OFFSET ?3"@
}

fn param_from(pairs: &Vec<(String, String)>, key: &str) -> (r: String)
    ensures
        r@ == param(pairs.deep_view(), key@),
{
    match query_get(pairs, key) {
        Some(v) => v,
        None => String::new(),
    }
}

/// The task list query for `from`, `to`, `offset`, `group` and `today` parameters: 400 for an
/// invalid date bound, for a group without a valid current date, or for an unknown group.
pub fn task_query(pairs: &Vec<(String, String)>) -> (r: Result<TaskQuery, Failure>)
    ensures
        ({
            let q = pairs.deep_view();
            let from = param(q, "from"@);
            let to = param(q, "to"@);
            let group = param(q, "group"@);
            let today = param(q, "today"@);
            if (from.len() > 0 && !date_ok(from)) || (to.len() > 0 && !date_ok(to)) {
                r matches Err(f) && f.status == 400 && f.message@ == "Invalid date"@
            } else if group.len() > 0 && !date_ok(today) {
                r matches Err(f) && f.status == 400 && f.message@
                    == "A valid current date is required"@
            } else if group_filter(group) is None {
                r matches Err(f) && f.status == 400 && f.message@ == "Unknown task group"@
            } else {
                r matches Ok(t) && t.sql@ == task_sql(group_filter(group)->0) && t.from@ == from
                    && t.to@ == to && t.offset == offset_param(q, 0xffff_ffff) && (if group.len()
                    > 0 {
                    t.today matches Some(d) && d@ == today
                } else {
                    t.today is None
                })
            }
        }),
{
    let from = param_from(pairs, "from");
    let to = param_from(pairs, "to");
    let fv = chars_of(from.as_str());
    let tv = chars_of(to.as_str());
    if (fv.len() > 0 && !date_ok_chars(fv.as_slice())) || (tv.len() > 0 && !date_ok_chars(
        tv.as_slice(),
    )) {
        return Err(fail(400, "Invalid date"));
    }
    let offset = offset_from(pairs, 0xffff_ffff) as u32;
    let group = param_from(pairs, "group");
    let today = param_from(pairs, "today");
    let gv = chars_of(group.as_str());
    let dv = chars_of(today.as_str());
    if gv.len() > 0 && !date_ok_chars(dv.as_slice()) {
        return Err(fail(400, "A valid current date is required"));
    }
    let filter = if eq_lit(gv.as_slice(), "today") {
        " AND due_date<=?4"
    } else if eq_lit(gv.as_slice(), "upcoming") {
        " AND completed=0 AND due_date>?4"
    } else if eq_lit(gv.as_slice(), "someday") {
        " AND completed=0 AND due_date IS NULL AND ?4<>''"
    } else if eq_lit(gv.as_slice(), "completed") {
        " AND completed=1 AND ?4<>''"
    } else if eq_lit(gv.as_slice(), "") {
        ""
    } else {
        return Err(fail(400, "Unknown task group"));
    };
    let mut sql = "SELECT * FROM tasks WHERE (?1='' OR due_date>=?1) AND (?2='' OR due_date<=?2) ".to_owned();
    push_str(&mut sql, filter);
    push_str(
        &mut sql,
        " ORDER BY completed,due_date IS NULL,due_date,due_time,created_at,id LIMIT 201 OFFSET ?3",
    );
    let today = if gv.len() > 0 {
        Some(today)
    } else {
        None
    };
    Ok(TaskQuery { sql, from, to, offset, today })
}

/// The task parameters of the workspace view: today's tasks when a current date is given
/// (400 when it is not a valid date), else all tasks.
pub fn workspace_task_pairs(today: &Option<String>) -> (r: Result<Vec<(String, String)>, Failure>)
    ensures
        match today {
            None => r matches Ok(p) && p@.len() == 0,
            Some(d) => if date_ok(d@) {
                r matches Ok(p) && p.deep_view() == seq![("from"@, d@), ("to"@, d@)]
            } else {
                r matches Err(f) && f.status == 400 && f.message@
                    == "A valid current date is required"@
            },
        },
{
    let mut pairs: Vec<(String, String)> = Vec::new();
    match today {
        None => Ok(pairs),
        Some(d) => {
            let dv = chars_of(d.as_str());
            if !date_ok_chars(dv.as_slice()) {
                return Err(fail(400, "A valid current date is required"));
            }
            pairs.push(("from".to_owned(), d.clone()));
            pairs.push(("to".to_owned(), d.clone()));
            assert(pairs.deep_view() =~= seq![("from"@, d@), ("to"@, d@)]);
            Ok(pairs)
        },
    }
}

} // verus!
