//! Notes, their summaries, and title edits.
use crate::paths::{note_id_ok, valid_note_id};
use crate::text::{
    chars_of, concat, join, lines, lines_vec, push_all, slice_copy,
    split_lines_inclusive, split_lines_inclusive_vec, string_of, trim, trim_start,
    trim_start_matches, trim_start_matches_vec, trim_start_vec, trim_vec, utf8_len,
    utf8_len_at_most, views,
};
use crate::failure::{fail, Failure};
use crate::linebreaks::{
    lemma_concat_append, lemma_concat_lines, lemma_concat_single, lemma_line_text_blank,
    lemma_lines_of_concat, lemma_lines_shaped, lemma_lines_text, lemma_shaped_update, lemma_ws_suffix,
    line_ending,
    line_shaped, line_text,
};
use crate::text::{char_prefix_len, is_white_space, ws_prefix_len, ws_suffix_len};
use crate::planner::{folder_ok, folder_ok_chars};
use crate::service::{lookup, query_get};
use crate::text::{before_first, first_index_vec, lowercase, parse_unsigned, parse_unsigned_vec, to_lowercase};
use vstd::prelude::*;
use vstd::string::StrSliceExecFns;

verus! {

pub const MAX_MARKDOWN_BYTES: usize = 128 * 1024;

pub const MAX_REQUEST_BYTES: usize = MAX_MARKDOWN_BYTES * 6 + 2048;

pub const LIST_LIMIT: usize = 50;

/// The offset of the next page, for a query that asked for one row more than `limit`: the
/// offset after this page when more than `limit` rows came back, none when this page is the
/// last.
pub fn next_offset(offset: u32, rows: usize, limit: u32) -> (r: Option<u32>)
    requires
        rows > limit ==> offset + limit <= u32::MAX,
    ensures
        r == (if rows > limit {
            Some((offset + limit) as u32)
        } else {
            None
        }),
{
    if rows > limit as usize {
        Some(offset + limit)
    } else {
        None
    }
}

/// A note: its Markdown body, its folder and the revision it was read at.
#[derive(Clone, Debug, Default, PartialEq, Eq)]
pub struct Note {
    pub id: String,
    pub markdown: String,
    pub folder: String,
    pub revision: String,
}

/// What note lists show of a note.
#[derive(Clone, Debug, Default, PartialEq, Eq)]
pub struct NoteSummary {
    pub id: String,
    pub title: String,
    pub preview: String,
    pub updated_at: u64,
    pub folder: String,
    pub revision: String,
    pub archived: bool,
}

/// A save request: the new body and folder, and the revision the edit started from.
#[derive(Clone, Debug, Default)]
pub struct SaveNote {
    pub markdown: String,
    pub folder: String,
    pub revision: Option<String>,
}

/// The body of an error response.
#[derive(Clone, Debug)]
pub struct ApiError {
    pub message: String,
}

/// Why a note cannot be stored.
pub open spec fn note_error(id: Seq<char>, markdown: Seq<char>) -> Option<&'static str> {
    if !note_id_ok(id) {
        Some("Invalid note ID")
    } else if utf8_len(markdown) > MAX_MARKDOWN_BYTES {
        Some("Note exceeds 128 KiB")
    } else {
        None
    }
}

/// Accepts a note ID and body, or says why not: an invalid ID, or a body over 128 KiB.
pub fn validate_note(id: &str, markdown: &str) -> (r: Result<(), &'static str>)
    ensures
        r is Ok <==> note_error(id@, markdown@) is None,
        r matches Err(m) ==> note_error(id@, markdown@) == Some(m),
{
    if !valid_note_id(id) {
        return Err("Invalid note ID");
    }
    let v = chars_of(markdown);
    if !utf8_len_at_most(v.as_slice(), MAX_MARKDOWN_BYTES) {
        return Err("Note exceeds 128 KiB");
    }
    Ok(())
}

/// The first line with a non-blank character.
pub open spec fn first_nonblank(ls: Seq<Seq<char>>) -> Option<Seq<char>>
    decreases ls.len(),
{
    if ls.len() == 0 {
        None
    } else if trim(ls[0]).len() > 0 {
        Some(ls[0])
    } else {
        first_nonblank(ls.drop_first())
    }
}

/// Index of the first line with a non-blank character, or -1.
pub open spec fn first_nonblank_index(ls: Seq<Seq<char>>) -> int
    decreases ls.len(),
{
    if ls.len() == 0 {
        -1
    } else if trim(ls[0]).len() > 0 {
        0
    } else {
        let k = first_nonblank_index(ls.drop_first());
        if k < 0 {
            -1
        } else {
            k + 1
        }
    }
}

pub open spec fn take_chars(s: Seq<char>, n: int) -> Seq<char> {
    if s.len() <= n {
        s
    } else {
        s.take(n)
    }
}

/// The title of a note: its first non-blank line without `#` marks, at most 120 characters.
pub open spec fn title_of(md: Seq<char>) -> Seq<char> {
    let first = match first_nonblank(lines(md)) {
        Some(l) => l,
        None => "Untitled note"@,
    };
    let t = trim(trim_start_matches(trim(first), '#'));
    if t.len() == 0 {
        "Untitled note"@
    } else {
        take_chars(t, 120)
    }
}

/// The preview of a note: the lines after the first, joined by spaces, at most 160 characters.
pub open spec fn preview_of(md: Seq<char>) -> Seq<char> {
    take_chars(join(after_first(lines(md)), seq![' ']), 160)
}

/// All lines but the first (none when there are none).
pub open spec fn after_first(ls: Seq<Seq<char>>) -> Seq<Seq<char>> {
    if ls.len() == 0 {
        ls
    } else {
        ls.skip(1)
    }
}

/// Whether a folder lies in the archive.
pub open spec fn archived_folder(folder: Seq<char>) -> bool {
    folder == "Archive"@ || "Archive/"@.is_prefix_of(folder)
}

pub fn is_archived_folder(folder: &[char]) -> (r: bool)
    ensures
        r == archived_folder(folder@),
{
    crate::text::eq_lit(folder, "Archive") || crate::text::starts_with_lit(folder, "Archive/")
}

fn first_nonblank_line(ls: &Vec<Vec<char>>) -> (r: Option<usize>)
    ensures
        r matches Some(k) ==> k < ls@.len() && first_nonblank(views(ls@)) == Some(ls@[k as int]@),
        r is None ==> first_nonblank(views(ls@)) is None,
        r matches Some(k) ==> first_nonblank_index(views(ls@)) == k,
        r is None ==> first_nonblank_index(views(ls@)) == -1,
{
    let ghost l = views(ls@);
    let mut i: usize = 0;
    assert(l.skip(0) =~= l);
    while i < ls.len()
        invariant
            i <= ls.len(),
            l == views(ls@),
            first_nonblank(l) == first_nonblank(l.skip(i as int)),
            first_nonblank_index(l) == (if first_nonblank_index(l.skip(i as int)) < 0 {
                -1
            } else {
                first_nonblank_index(l.skip(i as int)) + i
            }),
        decreases ls.len() - i,
    {
        assert(l[i as int] == ls@[i as int]@);
        assert(l.skip(i as int)[0] == l[i as int]);
        let t = trim_vec(ls[i].as_slice());
        if t.len() > 0 {
            return Some(i);
        }
        assert(l.skip(i as int).drop_first() =~= l.skip(i + 1));
        i = i + 1;
    }
    None
}

fn take_chars_vec(v: &[char], n: usize) -> (r: Vec<char>)
    ensures
        r@ == take_chars(v@, n as int),
{
    if v.len() <= n {
        let r = slice_copy(v, 0, v.len());
        assert(v@.subrange(0, v@.len() as int) =~= v@);
        r
    } else {
        slice_copy(v, 0, n)
    }
}

fn join_lines_after_first(ls: &Vec<Vec<char>>) -> (r: Vec<char>)
    ensures
        r@ == join(after_first(views(ls@)), seq![' ']),
{
    let ghost l = views(ls@);
    let mut out: Vec<char> = Vec::new();
    if ls.len() <= 1 {
        assert(after_first(l).len() == 0);
        return out;
    }
    let mut i: usize = 1;
    while i < ls.len()
        invariant
            1 <= i <= ls.len(),
            l == views(ls@),
            out@ == join(l.skip(1).take(i - 1), seq![' ']),
        decreases ls.len() - i,
    {
        let ghost before = out@;
        assert(l[i as int] == ls@[i as int]@);
        if i > 1 {
            out.push(' ');
        }
        let piece = &ls[i];
        let mut j: usize = 0;
        let ghost mid = out@;
        while j < piece.len()
            invariant
                j <= piece.len(),
                out@ == mid + piece@.take(j as int),
            decreases piece.len() - j,
        {
            out.push(piece[j]);
            j = j + 1;
            assert(out@ =~= mid + piece@.take(j as int));
        }
        assert(piece@.take(piece.len() as int) =~= piece@);
        let ghost parts = l.skip(1).take(i as int);
        assert(parts.drop_last() =~= l.skip(1).take(i - 1));
        assert(parts.last() == l[i as int]);
        if i > 1 {
            assert(out@ =~= join(parts, seq![' ']));
        } else {
            assert(parts.len() == 1);
            assert(out@ =~= join(parts, seq![' ']));
        }
        i = i + 1;
    }
    assert(l.skip(1).take(ls.len() - 1) =~= after_first(l));
    out
}

/// The list entry of a note, updated at `updated_at`.
pub fn summarize(note: &Note, updated_at: u64) -> (r: NoteSummary)
    ensures
        r.id@ == note.id@,
        r.title@ == title_of(note.markdown@),
        r.preview@ == preview_of(note.markdown@),
        r.updated_at == updated_at,
        r.folder@ == note.folder@,
        r.revision@ == note.revision@,
        r.archived == archived_folder(note.folder@),
{
    let md = chars_of(note.markdown.as_str());
    let ls = lines_vec(md.as_slice());
    let untitled = chars_of("Untitled note");
    let first = match first_nonblank_line(&ls) {
        Some(k) => slice_copy(ls[k].as_slice(), 0, ls[k].len()),
        None => slice_copy(untitled.as_slice(), 0, untitled.len()),
    };
    assert(ls@.len() > 0 ==> ls@[0]@.subrange(0, ls@[0]@.len() as int) =~= ls@[0]@);
    proof {
        if let Some(k) = first_nonblank(views(ls@)) {
            assert(first@ =~= k);
        } else {
            assert(first@ =~= "Untitled note"@);
        }
    }
    let a = trim_vec(first.as_slice());
    let b = trim_start_matches_vec(a.as_slice(), '#');
    let t = trim_vec(b.as_slice());
    let title = if t.len() == 0 {
        string_of(untitled.as_slice())
    } else {
        let c = take_chars_vec(t.as_slice(), 120);
        string_of(c.as_slice())
    };
    let joined = join_lines_after_first(&ls);
    let p = take_chars_vec(joined.as_slice(), 160);
    let folder = chars_of(note.folder.as_str());
    NoteSummary {
        id: note.id.clone(),
        title,
        preview: string_of(p.as_slice()),
        updated_at,
        folder: note.folder.clone(),
        revision: note.revision.clone(),
        archived: is_archived_folder(folder.as_slice()),
    }
}

/// The Markdown with its title replaced: a first non-blank `# ` heading line is rewritten in
/// place (keeping its line ending); otherwise a heading and a blank line are put in front.
pub open spec fn renamed_markdown(md: Seq<char>, title: Seq<char>) -> Seq<char> {
    let ls = split_lines_inclusive(md);
    let k = first_nonblank_index(ls);
    if k >= 0 && seq!['#', ' '].is_prefix_of(trim_start(ls[k])) {
        concat(ls.take(k)) + seq!['#', ' '] + title + line_ending(ls[k]) + concat(ls.skip(k + 1))
    } else {
        seq!['#', ' '] + title + seq!['\n', '\n'] + md
    }
}

/// A title that stays on one line: no `'\n'` in it and no `'\r'` at its end.
pub open spec fn one_line(title: Seq<char>) -> bool {
    &&& forall|j: int| 0 <= j < title.len() ==> title[j] != '\n'
    &&& !(title.len() > 0 && title.last() == '\r')
}

/// Renaming twice leaves the same Markdown as renaming once with the second title: the last
/// rename wins, whatever the Markdown, as long as the first title stays on one line.
pub proof fn lemma_rename_twice(md: Seq<char>, first: Seq<char>, second: Seq<char>)
    requires
        one_line(first),
    ensures
        renamed_markdown(renamed_markdown(md, first), second) == renamed_markdown(md, second),
{
    let ls = split_lines_inclusive(md);
    let k = first_nonblank_index(ls);
    if k >= 0 && seq!['#', ' '].is_prefix_of(trim_start(ls[k])) {
        let e = line_ending(ls[k]);
        let h = seq!['#', ' '] + first + e;
        lemma_renamed_heading_lines(md, first);
        lemma_heading_line(first, e);
        let ls1 = ls.update(k, h);
        assert(ls1[k] == h);
        assert(ls1.take(k) =~= ls.take(k));
        assert(ls1.skip(k + 1) =~= ls.skip(k + 1));
    } else {
        let h = seq!['#', ' '] + first + seq!['\n'];
        let nl = seq!['\n'];
        lemma_renamed_fresh_lines(md, first);
        lemma_heading_line(first, nl);
        let ls1 = seq![h, nl] + ls;
        assert(ls1[0] == h);
        assert(ls1.take(0) =~= Seq::<Seq<char>>::empty());
        assert(ls1.skip(1) =~= seq![nl] + ls);
        lemma_concat_append(seq![nl], ls);
        lemma_concat_single(nl);
        lemma_concat_lines(md);
    }
}

/// A title that reads back unchanged: one line of at most 120 characters, not empty, with
/// no white space at either end and no `#` in front.
pub open spec fn plain_title(title: Seq<char>) -> bool {
    &&& 0 < title.len() <= 120
    &&& one_line(title)
    &&& !is_white_space(title[0])
    &&& !is_white_space(title.last())
    &&& title[0] != '#'
}

/// After a rename to a plain title, that title is the note's title.
pub proof fn lemma_renamed_title(md: Seq<char>, title: Seq<char>)
    requires
        plain_title(title),
    ensures
        title_of(renamed_markdown(md, title)) == title,
{
    let ls = split_lines_inclusive(md);
    let k = first_nonblank_index(ls);
    let md1 = renamed_markdown(md, title);
    if k >= 0 && seq!['#', ' '].is_prefix_of(trim_start(ls[k])) {
        let e = line_ending(ls[k]);
        lemma_renamed_heading_lines(md, title);
        assert(ls.update(k, seq!['#', ' '] + title + e)[k] == seq!['#', ' '] + title + e);
        lemma_title_at(md1, k, title, e);
    } else {
        let h = seq!['#', ' '] + title + seq!['\n'];
        lemma_renamed_fresh_lines(md, title);
        assert((seq![h, seq!['\n']] + ls)[0] == h);
        lemma_title_at(md1, 0, title, seq!['\n']);
    }
}

/// Where the Markdown opens with a `# ` heading, a rename rewrites that one line.
proof fn lemma_renamed_heading_lines(md: Seq<char>, title: Seq<char>)
    requires
        one_line(title),
        ({
            let ls = split_lines_inclusive(md);
            let k = first_nonblank_index(ls);
            k >= 0 && seq!['#', ' '].is_prefix_of(trim_start(ls[k]))
        }),
    ensures
        ({
            let ls = split_lines_inclusive(md);
            let k = first_nonblank_index(ls);
            let h = seq!['#', ' '] + title + line_ending(ls[k]);
            &&& k < ls.len()
            &&& split_lines_inclusive(renamed_markdown(md, title)) == ls.update(k, h)
            &&& first_nonblank_index(ls.update(k, h)) == k
        }),
{
    let ls = split_lines_inclusive(md);
    let k = first_nonblank_index(ls);
    lemma_first_nonblank_facts(ls);
    lemma_lines_shaped(md);
    let md1 = renamed_markdown(md, title);
    let e = line_ending(ls[k]);
    let h = seq!['#', ' '] + title + e;
    lemma_heading_line(title, e);
    let ls1 = ls.update(k, h);
    if k < ls.len() - 1 {
        assert(ls[k].last() == '\n');
        assert(seq!['\n'] =~= ls[k].subrange(ls[k].len() - 1, ls[k].len() as int));
    }
    lemma_shaped_update(ls, k, h);
    lemma_lines_of_concat(ls1);
    let front = ls.take(k);
    let back = ls.skip(k + 1);
    assert(front + seq![h] + back =~= ls1);
    lemma_concat_append(front + seq![h], back);
    lemma_concat_append(front, seq![h]);
    lemma_concat_single(h);
    assert(md1 =~= concat(ls1));
    assert(trim(ls1[k]).len() > 0);
    assert forall|j: int| 0 <= j < k implies trim(#[trigger] ls1[j]).len() == 0 by {
        assert(ls1[j] == ls[j]);
    }
    lemma_first_nonblank_at(ls1, k);
}

/// Where the Markdown has no `# ` heading first, a rename puts a heading and a blank line in
/// front of its lines.
proof fn lemma_renamed_fresh_lines(md: Seq<char>, title: Seq<char>)
    requires
        one_line(title),
        !({
            let ls = split_lines_inclusive(md);
            let k = first_nonblank_index(ls);
            k >= 0 && seq!['#', ' '].is_prefix_of(trim_start(ls[k]))
        }),
    ensures
        ({
            let ls1 = seq![seq!['#', ' '] + title + seq!['\n'], seq!['\n']] + split_lines_inclusive(md);
            &&& split_lines_inclusive(renamed_markdown(md, title)) == ls1
            &&& first_nonblank_index(ls1) == 0
        }),
{
    let ls = split_lines_inclusive(md);
    lemma_lines_shaped(md);
    let md1 = renamed_markdown(md, title);
    let h = seq!['#', ' '] + title + seq!['\n'];
    lemma_heading_line(title, seq!['\n']);
    let nl = seq!['\n'];
    let top = seq![h, nl];
    let ls1 = top + ls;
    assert forall|i: int| 0 <= i < ls1.len() implies #[trigger] ls1[i].len() > 0 by {
        if i >= 2 {
            assert(ls1[i] == ls[i - 2]);
        }
    }
    assert forall|i: int| 0 <= i < ls1.len() - 1 implies #[trigger] ls1[i].last() == '\n' by {
        if i >= 2 {
            assert(ls1[i] == ls[i - 2]);
        }
    }
    assert forall|i: int, j: int| 0 <= i < ls1.len() && 0 <= j < ls1[i].len() - 1 implies #[trigger] ls1[i][j]
        != '\n' by {
        if i >= 2 {
            assert(ls1[i] == ls[i - 2]);
        }
    }
    assert(line_shaped(ls1));
    lemma_lines_of_concat(ls1);
    lemma_concat_lines(md);
    lemma_concat_append(top, ls);
    lemma_concat_append(seq![h], seq![nl]);
    assert(seq![h] + seq![nl] =~= top);
    lemma_concat_single(h);
    lemma_concat_single(nl);
    assert(concat(top) =~= seq!['#', ' '] + title + seq!['\n', '\n']);
    assert(md1 =~= concat(ls1));
    assert(trim(ls1[0]).len() > 0);
    lemma_first_nonblank_at(ls1, 0);
}

/// The title read from Markdown whose first non-blank line is the heading `# title`.
proof fn lemma_title_at(s: Seq<char>, k: int, title: Seq<char>, e: Seq<char>)
    requires
        plain_title(title),
        e == seq!['\r', '\n'] || e == seq!['\n'] || e == Seq::<char>::empty(),
        0 <= k < split_lines_inclusive(s).len(),
        first_nonblank_index(split_lines_inclusive(s)) == k,
        split_lines_inclusive(s)[k] == seq!['#', ' '] + title + e,
    ensures
        title_of(s) == title,
{
    let big = split_lines_inclusive(s);
    let ls = lines(s);
    lemma_lines_text(s);
    lemma_first_nonblank_facts(big);
    let h = seq!['#', ' '] + title + e;
    let x = seq!['#', ' '] + title;
    lemma_heading_line(title, Seq::<char>::empty());
    assert(x + Seq::<char>::empty() =~= x);
    let n = x.len() as int;
    assert(x[n - 1] == title.last());
    if e == Seq::<char>::empty() {
        assert(h =~= x);
    } else if e == seq!['\n'] {
        assert(h.drop_last() =~= x);
    } else {
        assert(h.drop_last() =~= x.push('\r'));
        assert(x.push('\r').drop_last() =~= x);
    }
    assert(line_text(h) == x);
    assert(ls[k] == x);
    assert forall|j: int| 0 <= j < k implies trim(#[trigger] ls[j]).len() == 0 by {
        lemma_line_text_blank(big[j]);
    }
    lemma_first_nonblank_some(ls, k);
    // trim(x) == x
    assert(!is_white_space('#'));
    assert(ws_prefix_len(x) == 0);
    assert(x.skip(0) =~= x);
    assert(ws_suffix_len(x) == 0);
    assert(x.take(n) =~= x);
    assert(trim(x) == x);
    // dropping the '#'
    assert(x.drop_first()[0] == ' ');
    assert(char_prefix_len(x.drop_first(), '#') == 0);
    assert(char_prefix_len(x, '#') == 1);
    let y = trim_start_matches(x, '#');
    assert(y =~= seq![' '] + title);
    assert(y.drop_first() =~= title);
    assert(ws_prefix_len(title) == 0);
    assert(ws_prefix_len(y) == 1);
    assert(trim_start(y) =~= title);
    assert(ws_suffix_len(title) == 0);
    assert(title.take(title.len() as int) =~= title);
    assert(trim(y) == title);
}

/// The first non-blank line is the one at `k` when the lines before it are blank and it is not.
proof fn lemma_first_nonblank_some(ls: Seq<Seq<char>>, k: int)
    requires
        0 <= k < ls.len(),
        trim(ls[k]).len() > 0,
        forall|j: int| 0 <= j < k ==> trim(#[trigger] ls[j]).len() == 0,
    ensures
        first_nonblank(ls) == Some(ls[k]),
    decreases k,
{
    if k > 0 {
        let rest = ls.drop_first();
        assert forall|j: int| 0 <= j < k - 1 implies trim(#[trigger] rest[j]).len() == 0 by {
            assert(rest[j] == ls[j + 1]);
        }
        assert(rest[k - 1] == ls[k]);
        lemma_first_nonblank_some(rest, k - 1);
        assert(trim(ls[0]).len() == 0);
    }
}

/// Facts about the heading line that a rename writes.
proof fn lemma_heading_line(title: Seq<char>, e: Seq<char>)
    requires
        one_line(title),
        e == seq!['\r', '\n'] || e == seq!['\n'] || e == Seq::<char>::empty(),
    ensures
        ({
            let h = seq!['#', ' '] + title + e;
            &&& h.len() > 0
            &&& forall|j: int| 0 <= j < h.len() - 1 ==> h[j] != '\n'
            &&& e.len() > 0 ==> h.last() == '\n'
            &&& line_ending(h) == e
            &&& trim_start(h) == h
            &&& trim(h).len() > 0
            &&& seq!['#', ' '].is_prefix_of(h)
        }),
{
    let h = seq!['#', ' '] + title + e;
    let n = h.len() as int;
    let b = 2 + title.len();
    assert(h[0] == '#');
    assert(h[1] == ' ');
    assert(h[b - 1] != '\r' && h[b - 1] != '\n') by {
        if title.len() > 0 {
            assert(h[b - 1] == title[title.len() - 1]);
        }
    }
    assert forall|j: int| 0 <= j < n - 1 implies h[j] != '\n' by {
        if 2 <= j < b {
            assert(h[j] == title[j - 2]);
        } else if j >= b {
            assert(h[j] == e[j - b]);
        }
    }
    if e == seq!['\r', '\n'] {
        assert(h[n - 2] == '\r');
        assert(h[n - 1] == '\n');
        assert(seq!['\r', '\n'] =~= h.subrange(n - 2, n));
    } else if e == seq!['\n'] {
        assert(h[n - 1] == '\n');
        assert(h[n - 2] == h[b - 1]);
        if seq!['\r', '\n'].is_suffix_of(h) {
            assert(h.subrange(n - 2, n)[0] == h[n - 2]);
        }
        assert(seq!['\n'] =~= h.subrange(n - 1, n));
    } else {
        assert(n == b);
        assert(h[n - 1] == h[b - 1]);
        if seq!['\n'].is_suffix_of(h) {
            assert(h.subrange(n - 1, n)[0] == h[n - 1]);
        }
        if seq!['\r', '\n'].is_suffix_of(h) {
            assert(h.subrange(n - 2, n)[1] == h[n - 1]);
        }
    }
    assert(!is_white_space('#'));
    assert(ws_prefix_len(h) == 0);
    assert(h.skip(0) =~= h);
    lemma_ws_suffix(h);
    if ws_suffix_len(h) == h.len() {
        assert(is_white_space(h[0]));
    }
    assert(seq!['#', ' '] =~= h.subrange(0, 2));
}

/// The first non-blank line is at `k` when the lines before it are blank and it is not.
proof fn lemma_first_nonblank_at(ls: Seq<Seq<char>>, k: int)
    requires
        0 <= k < ls.len(),
        trim(ls[k]).len() > 0,
        forall|j: int| 0 <= j < k ==> trim(#[trigger] ls[j]).len() == 0,
    ensures
        first_nonblank_index(ls) == k,
    decreases k,
{
    if k > 0 {
        let rest = ls.drop_first();
        assert forall|j: int| 0 <= j < k - 1 implies trim(#[trigger] rest[j]).len() == 0 by {
            assert(rest[j] == ls[j + 1]);
        }
        assert(rest[k - 1] == ls[k]);
        lemma_first_nonblank_at(rest, k - 1);
        assert(trim(ls[0]).len() == 0);
    }
}

/// What `first_nonblank_index` finds: a non-blank line with only blank lines before it.
proof fn lemma_first_nonblank_facts(ls: Seq<Seq<char>>)
    ensures
        first_nonblank_index(ls) >= 0 ==> {
            let k = first_nonblank_index(ls);
            &&& k < ls.len()
            &&& trim(ls[k]).len() > 0
            &&& forall|j: int| 0 <= j < k ==> trim(#[trigger] ls[j]).len() == 0
        },
    decreases ls.len(),
{
    if ls.len() > 0 && trim(ls[0]).len() == 0 {
        let rest = ls.drop_first();
        lemma_first_nonblank_facts(rest);
        let k = first_nonblank_index(ls);
        if k >= 0 {
            assert(ls[k] == rest[k - 1]);
            assert forall|j: int| 0 <= j < k implies trim(#[trigger] ls[j]).len() == 0 by {
                if j > 0 {
                    assert(ls[j] == rest[j - 1]);
                }
            }
        }
    }
}

fn concat_range(ls: &Vec<Vec<char>>, from: usize, to: usize, out: &mut Vec<char>)
    requires
        from <= to <= ls@.len(),
    ensures
        final(out)@ == old(out)@ + concat(views(ls@).subrange(from as int, to as int)),
{
    let ghost l = views(ls@);
    let ghost start = out@;
    let mut i = from;
    assert(l.subrange(from as int, from as int).len() == 0);
    while i < to
        invariant
            from <= i <= to <= ls@.len(),
            l == views(ls@),
            out@ == start + concat(l.subrange(from as int, i as int)),
        decreases to - i,
    {
        let piece = &ls[i];
        assert(l[i as int] == piece@);
        let mut j: usize = 0;
        let ghost mid = out@;
        while j < piece.len()
            invariant
                j <= piece.len(),
                out@ == mid + piece@.take(j as int),
            decreases piece.len() - j,
        {
            out.push(piece[j]);
            j = j + 1;
            assert(out@ =~= mid + piece@.take(j as int));
        }
        assert(piece@.take(piece.len() as int) =~= piece@);
        assert(l.subrange(from as int, i + 1).drop_last() =~= l.subrange(from as int, i as int));
        i = i + 1;
        assert(out@ =~= start + concat(l.subrange(from as int, i as int)));
    }
}

/// Replaces the title of a note (see `renamed_markdown`).
pub fn rename_title(markdown: &str, title: &str) -> (r: String)
    ensures
        r@ == renamed_markdown(markdown@, title@),
{
    let md = chars_of(markdown);
    let ls = split_lines_inclusive_vec(md.as_slice());
    let ghost l = views(ls@);
    let tv = chars_of(title);
    match first_nonblank_line(&ls) {
        Some(k) => {
            let n = ls.len();
            assert(k < n);
            let line = &ls[k];
            let after = k + 1;
            assert(l[k as int] == line@);
            let lead = trim_start_vec(line.as_slice());
            let hash = ['#', ' '];
            assert(hash@ == seq!['#', ' ']);
            if crate::text::starts_with_chars(lead.as_slice(), hash.as_slice()) {
                let crlf = ['\r', '\n'];
                let lf = ['\n'];
                assert(crlf@ == seq!['\r', '\n']);
                assert(lf@ == seq!['\n']);
                let mut out: Vec<char> = Vec::new();
                concat_range(&ls, 0, k, &mut out);
                out.push('#');
                out.push(' ');
                push_all_vec(&mut out, tv.as_slice());
                if crate::text::ends_with_chars(line.as_slice(), crlf.as_slice()) {
                    out.push('\r');
                    out.push('\n');
                } else if crate::text::ends_with_chars(line.as_slice(), lf.as_slice()) {
                    out.push('\n');
                }
                concat_range(&ls, after, ls.len(), &mut out);
                assert(l.subrange(0, k as int) =~= l.take(k as int));
                assert(l.subrange(k + 1, l.len() as int) =~= l.skip(k + 1));
                let r = string_of(out.as_slice());
                assert(r@ =~= renamed_markdown(markdown@, title@));
                return r;
            }
        },
        None => {},
    }
    let mut r = String::new();
    r.push('#');
    r.push(' ');
    push_all(&mut r, tv.as_slice());
    r.push('\n');
    r.push('\n');
    push_all(&mut r, md.as_slice());
    assert(r@ =~= renamed_markdown(markdown@, title@));
    r
}

fn push_all_vec(out: &mut Vec<char>, v: &[char])
    ensures
        final(out)@ == old(out)@ + v@,
{
    let mut i: usize = 0;
    while i < v.len()
        invariant
            i <= v.len(),
            out@ == old(out)@ + v@.take(i as int),
        decreases v.len() - i,
    {
        out.push(v[i]);
        i = i + 1;
        assert(out@ =~= old(out)@ + v@.take(i as int));
    }
    assert(v@.take(v.len() as int) =~= v@);
}

/// The string a JSON string literal denotes, if the text is exactly one such literal.
pub uninterp spec fn json_string(text: Seq<char>) -> Option<Seq<char>>;

/// `serde_json::from_str::<String>`.
#[verifier::external_body]
fn parse_json_string(text: &str) -> (r: Option<String>)
    ensures
        match r {
            Some(s) => json_string(text@) == Some(s@),
            None => json_string(text@) is None,
        },
{
    serde_json::from_str::<String>(text).ok()
}

/// The first line of a legacy note may record its folder as `<!-- folio-folder:"..." -->`.
pub open spec fn folder_comment(first: Seq<char>) -> Option<Seq<char>> {
    let prefix = "<!-- folio-folder:"@;
    let suffix = " -->"@;
    if prefix.is_prefix_of(first) && suffix.is_suffix_of(first.skip(prefix.len() as int)) {
        let rest = first.skip(prefix.len() as int);
        match json_string(rest.take(rest.len() - suffix.len())) {
            Some(f) => if folder_ok(f) {
                Some(f)
            } else {
                None
            },
            None => None,
        }
    } else {
        None
    }
}

/// The body and recorded folder of a stored legacy note: without a valid folder comment on the
/// first line, the whole text is the body.
pub open spec fn content_of(stored: Seq<char>) -> (Seq<char>, Option<Seq<char>>) {
    let first = before_first(stored, '\n');
    if first.len() < stored.len() && folder_comment(first) is Some {
        (stored.skip(first.len() + 1int), folder_comment(first))
    } else {
        (stored, None)
    }
}

/// Splits a stored legacy note into its body and recorded folder (see `content_of`).
pub fn content(stored: &str) -> (r: (&str, Option<String>))
    ensures
        r.0@ == content_of(stored@).0,
        match content_of(stored@).1 {
            Some(f) => r.1 matches Some(s) && s@ == f,
            None => r.1 is None,
        },
{
    let v = chars_of(stored);
    let k = match first_index_vec(v.as_slice(), '\n') {
        Some(k) => k,
        None => {
            return (stored, None);
        },
    };
    let first = slice_copy(v.as_slice(), 0, k);
    if !crate::text::starts_with_lit(first.as_slice(), "<!-- folio-folder:") {
        return (stored, None);
    }
    let p = chars_of("<!-- folio-folder:");
    let rest = slice_copy(first.as_slice(), p.len(), first.len());
    if !crate::text::ends_with_lit(rest.as_slice(), " -->") {
        return (stored, None);
    }
    let q = chars_of(" -->");
    let value = slice_copy(rest.as_slice(), 0, rest.len() - q.len());
    let text = string_of(value.as_slice());
    match parse_json_string(text.as_str()) {
        Some(folder) => {
            let f = chars_of(folder.as_str());
            if folder_ok_chars(f.as_slice()) {
                (stored.substring_char(k + 1, v.len()), Some(folder))
            } else {
                (stored, None)
            }
        },
        None => (stored, None),
    }
}

/// A search of the note index.
#[derive(Debug)]
pub struct NoteSearch {
    pub search: String,
    pub folder: String,
    pub offset: u32,
    pub archived: bool,
    pub exact: bool,
}

pub open spec fn flag(pairs: Seq<(Seq<char>, Seq<char>)>, key: Seq<char>) -> bool {
    lookup(pairs, key) == Some("true"@)
}

/// The page offset parameter: a `u32`, 0 when absent or unreadable, at most 100000.
pub open spec fn offset_param(pairs: Seq<(Seq<char>, Seq<char>)>, max: nat) -> nat {
    let n = match lookup(pairs, "offset"@) {
        Some(v) => match parse_unsigned(v, max) {
            Some(n) => n,
            None => 0,
        },
        None => 0,
    };
    if n > 100000 {
        100000
    } else {
        n
    }
}

pub fn offset_from(pairs: &Vec<(String, String)>, max: u64) -> (r: u64)
    ensures
        r == offset_param(pairs.deep_view(), max as nat),
{
    let n = match query_get(pairs, "offset") {
        Some(v) => {
            let c = chars_of(v.as_str());
            match parse_unsigned_vec(c.as_slice(), max) {
                Some(n) => n,
                None => 0,
            }
        },
        None => 0,
    };
    if n > 100000 {
        100000
    } else {
        n
    }
}

pub fn flag_from(pairs: &Vec<(String, String)>, key: &str) -> (r: bool)
    ensures
        r == flag(pairs.deep_view(), key@),
{
    match query_get(pairs, key) {
        Some(v) => {
            let c = chars_of(v.as_str());
            eq_lit_chars(c.as_slice())
        },
        None => false,
    }
}

fn eq_lit_chars(c: &[char]) -> (r: bool)
    ensures
        r == (c@ == "true"@),
{
    crate::text::eq_lit(c, "true")
}

/// A note list request: `None` to browse (no search text), a search over the index, or 400 for
/// search text over 200 bytes (after lower-casing).
pub fn note_search(pairs: &Vec<(String, String)>) -> (r: Result<Option<NoteSearch>, Failure>)
    ensures
        ({
            let q = pairs.deep_view();
            match lookup(q, "q"@) {
                None => r matches Ok(None),
                Some(text) => if text.len() == 0 {
                    r matches Ok(None)
                } else if utf8_len(lowercase(text)) > 200 {
                    r matches Err(f) && f.status == 400 && f.message@ == "Search is too long"@
                } else {
                    let folder = match lookup(q, "folder"@) {
                        Some(f) => f,
                        None => Seq::<char>::empty(),
                    };
                    r matches Ok(Some(s)) && s.search@ == lowercase(text) && s.folder@ == folder
                        && s.offset == offset_param(q, 0xffff_ffff) && s.archived == (
                    archived_folder(folder) || flag(q, "archived"@)) && s.exact == flag(
                        q,
                        "exact"@,
                    )
                }
            }
        }),
{
    let text = match query_get(pairs, "q") {
        Some(t) => t,
        None => {
            return Ok(None);
        },
    };
    if text.as_str().is_empty() {
        return Ok(None);
    }
    let search = to_lowercase(text.as_str());
    let sv = chars_of(search.as_str());
    if !utf8_len_at_most(sv.as_slice(), 200) {
        return Err(fail(400, "Search is too long"));
    }
    let folder = match query_get(pairs, "folder") {
        Some(f) => f,
        None => String::new(),
    };
    let fv = chars_of(folder.as_str());
    let offset = offset_from(pairs, 0xffff_ffff) as u32;
    let archived = is_archived_folder(fv.as_slice()) || flag_from(pairs, "archived");
    let exact = flag_from(pairs, "exact");
    Ok(Some(NoteSearch { search, folder, offset, archived, exact }))
}

} // verus!
