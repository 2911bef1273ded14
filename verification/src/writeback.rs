//! What a task edit writes back into its note, as the note's checkboxes then read.
use crate::linebreaks::{
    lemma_lines_len, lemma_lines_of_concat, lemma_lines_shaped, lemma_lines_text,
    lemma_shaped_update, lemma_trim_drop_ws, lemma_ws_prefix, lemma_ws_prefix_after,
    lemma_ws_prefix_extend, line_ending, line_text, no_newline,
};
use crate::planner::{
    checkbox_of, checkboxes_of, checkboxes_upto, date_ok, fence_before, fence_marker, time_ok, Task,
};
use crate::planning::{
    checkbox_present, find, find_from, opt_view, optional_marker, rewritten_note, take_marker,
    task_line, task_text_of,
};
use crate::text::{
    concat, is_white_space, lines, split_lines_inclusive, strip_cr, trim, trim_start, ws_prefix_len,
};
use vstd::prelude::*;

verus! {

/// What a task's checkbox line carries after the box: the title, then the due markers.
pub open spec fn checkbox_text(task: Task) -> Seq<char> {
    task.title@ + optional_marker(" @due("@, opt_view(task.due_date)) + optional_marker(
        " @time("@,
        opt_view(task.due_time),
    )
}

/// Writing a task back into its note changes that one checkbox and leaves the others as they
/// were: the checkbox at the task's line then carries the task's text and completion. (The
/// text stays on one line, and the note is shorter than the largest `usize`.)
pub proof fn lemma_written_task_reads_back(
    md: Seq<char>,
    line: usize,
    original: Seq<char>,
    task: Task,
)
    requires
        md.len() < usize::MAX,
        checkbox_present(md, line, original),
        no_newline(checkbox_text(task)),
    ensures
        exists|i: int|
            0 <= i < checkboxes_of(md).len() && (#[trigger] checkboxes_of(md)[i]).0 == line
                && checkboxes_of(rewritten_note(md, line, task)) == checkboxes_of(md).update(
                i,
                (line, trim(checkbox_text(task)), task.completed),
            ),
{
    let before = checkboxes_of(md);
    let ls = lines(md);
    lemma_lines_len(md);
    let i = choose|i: int|
        0 <= i < before.len() && (#[trigger] before[i]).0 == line && task_text_of(before[i].1).0
            == original;
    lemma_checkbox_entry(ls, ls.len() as int, i);
    let l = line as int;
    let big = split_lines_inclusive(md);
    lemma_lines_text(md);
    lemma_lines_shaped(md);
    let old = big[l];
    assert(ls[l] == line_text(old));
    assert forall|j: int| 0 <= j < old.len() - 1 implies old[j] != '\n' by {
        assert(big[l][j] != '\n');
    }
    let text = checkbox_text(task);
    let newl = task_line(
        old,
        task.completed,
        task.title@,
        opt_view(task.due_date),
        opt_view(task.due_time),
    );
    reveal_strlit("- [");
    reveal_strlit("] ");
    assert(newl =~= written_line(old, task.completed, text));
    lemma_written_line(old, task.completed, text);
    if l < big.len() - 1 {
        assert(big[l].last() == '\n');
    }
    lemma_shaped_update(big, l, newl);
    let big1 = big.update(l, newl);
    lemma_lines_of_concat(big1);
    let md1 = rewritten_note(md, line, task);
    assert(md1 == concat(big1));
    lemma_lines_text(md1);
    let ls1 = lines(md1);
    assert forall|j: int| 0 <= j < ls1.len() implies #[trigger] ls1[j] == ls.update(
        l,
        line_text(newl),
    )[j] by {
        assert(ls1[j] == line_text(big1[j]));
        if j != l {
            assert(big1[j] == big[j]);
        }
    }
    assert(ls1 =~= ls.update(l, line_text(newl)));
    lemma_checkboxes_replaced(ls, l, line_text(newl), ls.len() as int);
    assert(before[i].0 == line);
}

/// A checkbox line as a task edit writes it: the old indentation, the box, the text, and the
/// old line ending.
spec fn written_line(old: Seq<char>, completed: bool, text: Seq<char>) -> Seq<char> {
    old.take(ws_prefix_len(old) as int) + box_of(completed) + text + line_ending(old)
}

/// `- [x] ` or `- [ ] `.
spec fn box_of(completed: bool) -> Seq<char> {
    seq!['-', ' ', '[', if completed { 'x' } else { ' ' }, ']', ' ']
}

/// The indentation of a checkbox line is white space within its text.
proof fn lemma_indent(old: Seq<char>)
    requires
        old.len() > 0,
        forall|j: int| 0 <= j < old.len() - 1 ==> old[j] != '\n',
        checkbox_of(trim_start(line_text(old))) is Some,
    ensures
        ws_prefix_len(old) < old.len(),
        ws_prefix_len(old) == ws_prefix_len(line_text(old)),
        forall|j: int|
            0 <= j < ws_prefix_len(old) ==> old[j] != '\n' && is_white_space(#[trigger] old[j]),
{
    let lt = line_text(old);
    let m = lt.len() as int;
    assert(lt =~= old.take(m));
    assert(trim_start(lt).len() >= 2);
    lemma_ws_prefix(lt);
    lemma_ws_prefix_extend(lt, old.skip(m));
    assert(lt + old.skip(m) =~= old);
    lemma_ws_prefix(old);
}

/// The text of a written line once its line break is off: the text loses a final `'\r'`
/// that would stand before a lone `'\n'`.
spec fn kept_text(old: Seq<char>, text: Seq<char>) -> Seq<char> {
    if line_ending(old) == seq!['\n'] && text.len() > 0 && text.last() == '\r' {
        text.drop_last()
    } else {
        text
    }
}

/// The line a task edit writes is line-shaped, and its checkbox reads back the text and the
/// completion.
proof fn lemma_written_line(old: Seq<char>, completed: bool, text: Seq<char>)
    requires
        old.len() > 0,
        forall|j: int| 0 <= j < old.len() - 1 ==> old[j] != '\n',
        checkbox_of(trim_start(line_text(old))) is Some,
        no_newline(text),
    ensures
        ({
            let w = written_line(old, completed, text);
            &&& w.len() > 0
            &&& forall|j: int| 0 <= j < w.len() - 1 ==> w[j] != '\n'
            &&& old.last() == '\n' ==> w.last() == '\n'
            &&& fence_marker(trim_start(line_text(w))) is None
            &&& checkbox_of(trim_start(line_text(w))) == Some((trim(text), completed))
        }),
{
    lemma_indent(old);
    let p = old.take(ws_prefix_len(old) as int);
    let t2 = kept_text(old, text);
    lemma_written_shape(old, completed, text);
    if t2 != text {
        lemma_trim_drop_ws(text);
    }
    assert forall|j: int| 0 <= j < p.len() implies is_white_space(#[trigger] p[j]) by {
        assert(p[j] == old[j]);
    }
    lemma_box_reads_back(p, completed, t2);
}

/// The written line is line-shaped, and without its line break it is the indentation, the
/// box and the kept text.
proof fn lemma_written_shape(old: Seq<char>, completed: bool, text: Seq<char>)
    requires
        old.len() > 0,
        forall|j: int| 0 <= j < old.len() - 1 ==> old[j] != '\n',
        checkbox_of(trim_start(line_text(old))) is Some,
        no_newline(text),
    ensures
        ({
            let w = written_line(old, completed, text);
            let p = old.take(ws_prefix_len(old) as int);
            &&& w.len() > 0
            &&& forall|j: int| 0 <= j < w.len() - 1 ==> w[j] != '\n'
            &&& old.last() == '\n' ==> w.last() == '\n'
            &&& line_text(w) == p + box_of(completed) + kept_text(old, text)
        }),
{
    lemma_indent(old);
    let p = old.take(ws_prefix_len(old) as int);
    let b = box_of(completed);
    let e = line_ending(old);
    let q = p + b + text;
    let t2 = kept_text(old, text);
    let w = written_line(old, completed, text);
    assert(w =~= q + e);
    assert forall|j: int| 0 <= j < q.len() implies q[j] != '\n' by {
        if j < p.len() {
            assert(q[j] == old[j]);
        } else if j < p.len() + 6 {
            assert(q[j] == b[j - p.len()]);
        } else {
            assert(q[j] == text[j - p.len() - 6]);
        }
    }
    if e == Seq::<char>::empty() {
        assert(w =~= q);
        assert(q[q.len() - 1] != '\n');
    } else if e == seq!['\n'] {
        assert(w =~= q.push('\n'));
        assert(w.drop_last() =~= q);
        if text.len() > 0 && text.last() == '\r' {
            assert(q.last() == '\r');
            assert(q.drop_last() =~= p + b + t2);
        } else if text.len() > 0 {
            assert(q.last() == text.last());
        } else {
            assert(q.last() == ' ');
        }
    } else {
        assert(w =~= q.push('\r').push('\n'));
        assert(w.drop_last() =~= q.push('\r'));
        assert(q.push('\r').drop_last() =~= q);
    }
    assert(line_text(w) =~= p + b + t2);
    if old.last() == '\n' {
        assert(seq!['\n'] =~= old.subrange(old.len() - 1, old.len() as int));
        assert(w.last() == e.last());
    }
    assert forall|j: int| 0 <= j < w.len() - 1 implies w[j] != '\n' by {
        if j < q.len() {
            assert(w[j] == q[j]);
        } else {
            assert(w[j] == e[j - q.len()]);
        }
    }
}

/// Indentation, a box and a text read back as a checkbox of that text and completion.
proof fn lemma_box_reads_back(p: Seq<char>, completed: bool, t2: Seq<char>)
    requires
        forall|j: int| 0 <= j < p.len() ==> is_white_space(#[trigger] p[j]),
    ensures
        ({
            let t = trim_start(p + box_of(completed) + t2);
            &&& fence_marker(t) is None
            &&& checkbox_of(t) == Some((trim(t2), completed))
        }),
{
    let b = box_of(completed);
    assert(!is_white_space('-'));
    assert((b + t2)[0] == '-');
    lemma_ws_prefix_after(p, b + t2);
    assert(p + b + t2 =~= p + (b + t2));
    let t = trim_start(p + b + t2);
    assert(t =~= b + t2);
    assert(t[0] == '-');
    assert(!seq!['`', '`', '`'].is_prefix_of(t)) by {
        if seq!['`', '`', '`'].is_prefix_of(t) {
            assert(t.subrange(0, 3)[0] == t[0]);
        }
    }
    assert(!seq!['~', '~', '~'].is_prefix_of(t)) by {
        if seq!['~', '~', '~'].is_prefix_of(t) {
            assert(t.subrange(0, 3)[0] == t[0]);
        }
    }
    assert(seq!['-', ' '] =~= t.subrange(0, 2));
    let item = t.skip(2);
    assert(item.skip(4) =~= t2);
    if completed {
        assert(item[1] == 'x');
        assert(!seq!['[', ' ', ']', ' '].is_prefix_of(item)) by {
            if seq!['[', ' ', ']', ' '].is_prefix_of(item) {
                assert(item.subrange(0, 4)[1] == item[1]);
            }
        }
        assert(seq!['[', 'x', ']', ' '] =~= item.subrange(0, 4));
    } else {
        assert(seq!['[', ' ', ']', ' '] =~= item.subrange(0, 4));
    }
}

/// Where a checkbox entry comes from: a line outside code fences that holds a checkbox, with
/// the entries of the lines before it in front.
pub proof fn lemma_checkbox_entry(ls: Seq<Seq<char>>, k: int, i: int)
    requires
        0 <= k <= ls.len() <= usize::MAX,
        0 <= i < checkboxes_upto(ls, k).len(),
    ensures
        ({
            let e = checkboxes_upto(ls, k)[i];
            let l = e.0 as int;
            let t = trim_start(ls[l]);
            &&& 0 <= l < k
            &&& i == checkboxes_upto(ls, l).len()
            &&& fence_before(ls, l) is None
            &&& fence_marker(t) is None
            &&& checkbox_of(t) is Some
        }),
    decreases k,
{
    let prev = checkboxes_upto(ls, k - 1);
    if i < prev.len() {
        lemma_checkbox_entry(ls, k - 1, i);
        assert(checkboxes_upto(ls, k)[i] == prev[i]);
    } else {
        assert(checkboxes_upto(ls, k)[i].0 == (k - 1) as usize);
    }
}

/// Replacing a line by another that holds no fence marker leaves every fence as it was.
proof fn lemma_fence_unchanged(ls: Seq<Seq<char>>, l: int, x: Seq<char>, k: int)
    requires
        0 <= l < ls.len(),
        0 <= k <= ls.len(),
        fence_marker(trim_start(ls[l])) is None,
        fence_marker(trim_start(x)) is None,
    ensures
        fence_before(ls.update(l, x), k) == fence_before(ls, k),
    decreases k,
{
    if k > 0 {
        lemma_fence_unchanged(ls, l, x, k - 1);
        if k - 1 != l {
            assert(ls.update(l, x)[k - 1] == ls[k - 1]);
        } else {
            assert(ls.update(l, x)[k - 1] == x);
        }
    }
}

/// The checkboxes before a replaced line stay as they were.
proof fn lemma_checkboxes_before(ls: Seq<Seq<char>>, l: int, x: Seq<char>, k: int)
    requires
        0 <= l < ls.len(),
        0 <= k <= l,
        fence_marker(trim_start(ls[l])) is None,
        fence_marker(trim_start(x)) is None,
    ensures
        checkboxes_upto(ls.update(l, x), k) == checkboxes_upto(ls, k),
    decreases k,
{
    if k > 0 {
        lemma_checkboxes_before(ls, l, x, k - 1);
        lemma_fence_unchanged(ls, l, x, k - 1);
        assert(ls.update(l, x)[k - 1] == ls[k - 1]);
    }
}

/// Replacing one checkbox line by another replaces its entry and leaves the other entries.
proof fn lemma_checkboxes_replaced(ls: Seq<Seq<char>>, l: int, x: Seq<char>, k: int)
    requires
        0 <= l < k <= ls.len() <= usize::MAX,
        fence_before(ls, l) is None,
        fence_marker(trim_start(ls[l])) is None,
        fence_marker(trim_start(x)) is None,
        checkbox_of(trim_start(ls[l])) is Some,
        checkbox_of(trim_start(x)) is Some,
    ensures
        checkboxes_upto(ls, l).len() < checkboxes_upto(ls, k).len(),
        checkboxes_upto(ls.update(l, x), k) == checkboxes_upto(ls, k).update(
            checkboxes_upto(ls, l).len() as int,
            (
                l as usize,
                (checkbox_of(trim_start(x))->0).0,
                (checkbox_of(trim_start(x))->0).1,
            ),
        ),
    decreases k,
{
    let ls1 = ls.update(l, x);
    let i = checkboxes_upto(ls, l).len() as int;
    lemma_fence_unchanged(ls, l, x, k - 1);
    if k == l + 1 {
        lemma_checkboxes_before(ls, l, x, l);
        assert(ls1[l] == x);
        assert(checkboxes_upto(ls1, k) =~= checkboxes_upto(ls, k).update(
            i,
            (
                l as usize,
                (checkbox_of(trim_start(x))->0).0,
                (checkbox_of(trim_start(x))->0).1,
            ),
        ));
    } else {
        lemma_checkboxes_replaced(ls, l, x, k - 1);
        assert(ls1[k - 1] == ls[k - 1]);
        assert(checkboxes_upto(ls1, k) =~= checkboxes_upto(ls, k).update(
            i,
            (
                l as usize,
                (checkbox_of(trim_start(x))->0).0,
                (checkbox_of(trim_start(x))->0).1,
            ),
        ));
    }
}

/// Reading a task's checkbox text back gives the task's title, due date and due time, for a
/// title that is trimmed and holds neither marker, with a valid due date and due time.
pub proof fn lemma_checkbox_text_reads_back(task: Task)
    requires
        trim(task.title@) == task.title@,
        find(task.title@, " @due("@) == -1,
        find(task.title@, " @time("@) == -1,
        opt_view(task.due_date) matches Some(d) ==> date_ok(d),
        opt_view(task.due_time) matches Some(h) ==> time_ok(h),
    ensures
        task_text_of(checkbox_text(task)) == (
            task.title@,
            opt_view(task.due_date),
            opt_view(task.due_time),
        ),
{
    reveal_strlit(" @due(");
    reveal_strlit(" @time(");
    let t = task.title@;
    let md = " @due("@;
    let mt = " @time("@;
    let due = opt_view(task.due_date);
    let time = opt_view(task.due_time);
    let tail = optional_marker(mt, time);
    // The time marker holds no due marker.
    lemma_marker_free(tail, md, time);
    lemma_find_absent(t, tail, md);
    lemma_take_marker(t, tail, md, due, true);
    assert(checkbox_text(task) =~= t + optional_marker(md, due) + tail);
    lemma_take_marker(t, Seq::<char>::empty(), mt, time, false);
    assert(t + Seq::<char>::empty() =~= t);
    assert(take_marker(t + tail, mt, false) == (t, time));
}

/// The time marker (or nothing) holds no ` @due(`.
proof fn lemma_marker_free(tail: Seq<char>, md: Seq<char>, time: Option<Seq<char>>)
    requires
        md == " @due("@,
        tail == optional_marker(" @time("@, time),
        time matches Some(h) ==> time_ok(h),
    ensures
        find(tail, md) == -1,
        tail.len() == 0 || tail[0] == md[0],
{
    reveal_strlit(" @due(");
    reveal_strlit(" @time(");
    if let Some(h) = time {
        assert forall|j: int| 1 <= j < tail.len() implies tail[j] != md[0] by {
            if j < 7 {
                assert(tail[j] == " @time("@[j]);
            } else if j < 12 {
                assert(tail[j] == h[j - 7]);
            }
        }
        if md.is_prefix_of(tail) {
            assert(tail[2] == md[2]);
        }
        lemma_find_none_in(tail, md);
    } else {
        assert(tail.len() == 0);
        lemma_find_from_none(tail, md, 0);
    }
}

/// Taking a marker that follows a title that does not hold it: the marker and its value come
/// out, what follows stays.
proof fn lemma_take_marker(
    t: Seq<char>,
    rest: Seq<char>,
    marker: Seq<char>,
    value: Option<Seq<char>>,
    is_date: bool,
)
    requires
        marker == " @due("@ || marker == " @time("@,
        is_date <==> marker == " @due("@,
        find(t, marker) == -1,
        value is None ==> find(t + rest, marker) == -1,
        value matches Some(v) ==> if is_date {
            date_ok(v)
        } else {
            time_ok(v)
        },
    ensures
        take_marker(t + optional_marker(marker, value) + rest, marker, is_date) == (t + rest, value),
{
    reveal_strlit(" @due(");
    reveal_strlit(" @time(");
    let text = t + optional_marker(marker, value) + rest;
    assert forall|m: int| 1 <= m < marker.len() implies #[trigger] marker[m] != marker[0] by {}
    if let Some(v) = value {
        let close = seq![')'];
        let after_v = close + rest;
        assert(text =~= t + marker + (v + after_v));
        lemma_find_first(t, marker, v + after_v);
        let after = text.skip((t.len() + marker.len()) as int);
        assert(after =~= v + close + rest);
        assert forall|j: int| 1 <= j < v.len() implies v[j] != close[0] by {
            if is_date {
                if j != 4 && j != 7 {
                    assert(crate::text::is_ascii_digit(v[j]));
                }
            } else {
                if j != 2 {
                    assert(crate::text::is_ascii_digit(v[j]));
                }
            }
        }
        if close.is_prefix_of(v) {
            assert(v[0] == close[0]);
            assert(crate::text::is_ascii_digit(v[0]));
        }
        lemma_find_none_in(v, close);
        lemma_find_first(v, close, rest);
        assert(after.take(v.len() as int) =~= v);
        assert(after.skip(v.len() as int + 1) =~= rest);
        assert(text.take(t.len() as int) =~= t);
    } else {
        assert(text =~= t + rest);
    }
}

/// What `find_from` finds: nothing from `i` on, or the first place from `i` on.
proof fn lemma_find_from_facts(s: Seq<char>, pat: Seq<char>, i: int)
    requires
        0 <= i,
    ensures
        find_from(s, pat, i) == -1 ==> forall|j: int|
            i <= j && j + pat.len() <= s.len() ==> !pat.is_prefix_of(#[trigger] s.skip(j)),
        find_from(s, pat, i) >= 0 ==> i <= find_from(s, pat, i) && find_from(s, pat, i) + pat.len()
            <= s.len() && pat.is_prefix_of(s.skip(find_from(s, pat, i))) && forall|j: int|
            i <= j < find_from(s, pat, i) ==> !pat.is_prefix_of(#[trigger] s.skip(j)),
    decreases s.len() + 1 - i,
{
    if i + pat.len() <= s.len() && !pat.is_prefix_of(s.skip(i)) {
        lemma_find_from_facts(s, pat, i + 1);
    }
}

/// `find_from` finds the first place from `i` on.
proof fn lemma_find_from_is(s: Seq<char>, pat: Seq<char>, i: int, k: int)
    requires
        0 <= i <= k,
        k + pat.len() <= s.len(),
        pat.is_prefix_of(s.skip(k)),
        forall|j: int| i <= j < k ==> !pat.is_prefix_of(#[trigger] s.skip(j)),
    ensures
        find_from(s, pat, i) == k,
    decreases k - i,
{
    if i < k {
        lemma_find_from_is(s, pat, i + 1, k);
    }
}

/// `find_from` finds nothing where nothing is.
proof fn lemma_find_from_none(s: Seq<char>, pat: Seq<char>, i: int)
    requires
        0 <= i,
        forall|j: int| i <= j && j + pat.len() <= s.len() ==> !pat.is_prefix_of(#[trigger] s.skip(j)),
    ensures
        find_from(s, pat, i) == -1,
    decreases s.len() + 1 - i,
{
    if i + pat.len() <= s.len() {
        lemma_find_from_none(s, pat, i + 1);
    }
}

/// A pattern is nowhere in `b` when its first character is nowhere after `b`'s first, and `b`
/// does not start with it.
proof fn lemma_find_none_in(b: Seq<char>, pat: Seq<char>)
    requires
        pat.len() > 0,
        forall|j: int| 1 <= j < b.len() ==> #[trigger] b[j] != pat[0],
        b.len() > 0 ==> !pat.is_prefix_of(b),
    ensures
        find(b, pat) == -1,
{
    assert forall|j: int| 0 <= j && j + pat.len() <= b.len() implies !pat.is_prefix_of(#[trigger] b.skip(j)) by {
        if j == 0 {
            assert(b.skip(0) =~= b);
        } else if pat.is_prefix_of(b.skip(j)) {
            assert(b.skip(j)[0] == pat[0]);
        }
    }
    lemma_find_from_none(b, pat, 0);
}

/// A pattern whose first character does not come back in it is found first right after a text
/// that does not hold it.
proof fn lemma_find_first(a: Seq<char>, pat: Seq<char>, rest: Seq<char>)
    requires
        pat.len() > 0,
        find(a, pat) == -1,
        forall|m: int| 1 <= m < pat.len() ==> #[trigger] pat[m] != pat[0],
    ensures
        find(a + pat + rest, pat) == a.len(),
{
    let s = a + pat + rest;
    lemma_find_from_facts(a, pat, 0);
    assert(s.skip(a.len() as int).subrange(0, pat.len() as int) =~= pat);
    assert forall|j: int| 0 <= j < a.len() implies !pat.is_prefix_of(#[trigger] s.skip(j)) by {
        if pat.is_prefix_of(s.skip(j)) {
            if j + pat.len() <= a.len() {
                assert forall|m: int| 0 <= m < pat.len() implies a.skip(j)[m] == pat[m] by {
                    assert(s.skip(j)[m] == pat[m]);
                }
                assert(a.skip(j).subrange(0, pat.len() as int) =~= pat);
                assert(pat.is_prefix_of(a.skip(j)));
            } else {
                let m0 = a.len() - j;
                assert(s.skip(j)[m0] == pat[m0]);
                assert(s[a.len() as int] == pat[0]);
            }
        }
    }
    lemma_find_from_is(s, pat, 0, a.len() as int);
}

/// A pattern whose first character does not come back in it is nowhere in `a + b` when it is
/// in neither and `b` starts with that character (or is empty).
proof fn lemma_find_absent(a: Seq<char>, b: Seq<char>, pat: Seq<char>)
    requires
        pat.len() > 0,
        find(a, pat) == -1,
        find(b, pat) == -1,
        b.len() == 0 || b[0] == pat[0],
        forall|m: int| 1 <= m < pat.len() ==> #[trigger] pat[m] != pat[0],
    ensures
        find(a + b, pat) == -1,
{
    let s = a + b;
    lemma_find_from_facts(a, pat, 0);
    lemma_find_from_facts(b, pat, 0);
    assert forall|j: int| 0 <= j && j + pat.len() <= s.len() implies !pat.is_prefix_of(#[trigger] s.skip(j)) by {
        if pat.is_prefix_of(s.skip(j)) {
            if j >= a.len() {
                let k = j - a.len();
                assert forall|m: int| 0 <= m < pat.len() implies b.skip(k)[m] == pat[m] by {
                    assert(s.skip(j)[m] == pat[m]);
                }
                assert(b.skip(k).subrange(0, pat.len() as int) =~= pat);
                assert(pat.is_prefix_of(b.skip(k)));
            } else if j + pat.len() <= a.len() {
                assert forall|m: int| 0 <= m < pat.len() implies a.skip(j)[m] == pat[m] by {
                    assert(s.skip(j)[m] == pat[m]);
                }
                assert(a.skip(j).subrange(0, pat.len() as int) =~= pat);
                assert(pat.is_prefix_of(a.skip(j)));
            } else {
                let m0 = a.len() - j;
                assert(s.skip(j)[m0] == pat[m0]);
                assert(s[a.len() as int] == b[0]);
            }
        }
    }
    lemma_find_from_none(s, pat, 0);
}

} // verus!
