//! Tasks, goals, folder and date validation, and Markdown checkbox extraction.
use crate::paths::segment_ok;
use crate::paths::segment_ok_chars;
use crate::text::{
    chars_of, is_ascii_digit, lines, lines_vec, slice_copy, split, split_vec, string_of, trim,
    trim_start, trim_start_vec, trim_vec, utf8_len, utf8_len_at_most, views,
};
use vstd::prelude::*;

verus! {

/// A task: standalone, or indexed from a Markdown checkbox of a note.
#[derive(Clone, Debug, Default, PartialEq, Eq)]
pub struct Task {
    pub id: String,
    pub title: String,
    pub completed: bool,
    pub due_date: Option<String>,
    pub due_time: Option<String>,
    pub source_note_id: Option<String>,
    pub source_line: Option<usize>,
    pub created_at: u64,
    pub updated_at: u64,
}

/// A goal with its position in the goal list and its status.
#[derive(Clone, Debug, Default, PartialEq, Eq)]
pub struct Goal {
    pub id: String,
    pub title: String,
    pub description: String,
    pub position: i64,
    pub status: String,
    pub created_at: u64,
    pub updated_at: u64,
}

/// The folder new notes go to.
pub fn default_folder() -> (r: String)
    ensures
        r@ == "Personal"@,
{
    "Personal".to_owned()
}

/// A folder path: at most 240 bytes of portable, non-hidden segments.
pub open spec fn folder_ok(p: Seq<char>) -> bool {
    &&& p.len() > 0
    &&& utf8_len(p) <= 240
    &&& forall|i: int|
        0 <= i < split(p, '/').len() ==> segment_ok(#[trigger] split(p, '/')[i]) && !(split(
            p,
            '/',
        )[i].len() > 0 && split(p, '/')[i][0] == '.')
}

pub fn folder_ok_chars(p: &[char]) -> (r: bool)
    ensures
        r == folder_ok(p@),
{
    if p.len() == 0 || !utf8_len_at_most(p, 240) {
        return false;
    }
    let parts = split_vec(p, '/');
    let mut i: usize = 0;
    while i < parts.len()
        invariant
            i <= parts.len(),
            views(parts@) == split(p@, '/'),
            forall|j: int|
                0 <= j < i ==> segment_ok(#[trigger] split(p@, '/')[j]) && !(split(p@, '/')[j].len()
                    > 0 && split(p@, '/')[j][0] == '.'),
        decreases parts.len() - i,
    {
        assert(views(parts@)[i as int] == parts@[i as int]@);
        if !segment_ok_chars(parts[i].as_slice()) || (parts[i].len() > 0 && parts[i][0] == '.') {
            return false;
        }
        i = i + 1;
    }
    true
}

/// Whether `path` is a valid folder path.
pub fn valid_folder(path: &str) -> (r: bool)
    ensures
        r == folder_ok(path@),
{
    let v = chars_of(path);
    folder_ok_chars(v.as_slice())
}

pub open spec fn digit(c: char) -> int {
    c as int - 48
}

pub open spec fn is_leap_year(y: int) -> bool {
    y % 400 == 0 || (y % 4 == 0 && y % 100 != 0)
}

pub open spec fn days_in_month(y: int, m: int) -> int {
    if m == 2 {
        if is_leap_year(y) {
            29
        } else {
            28
        }
    } else if m == 4 || m == 6 || m == 9 || m == 11 {
        30
    } else {
        31
    }
}

/// A calendar date written `YYYY-MM-DD` (year 1 or later).
pub open spec fn date_ok(s: Seq<char>) -> bool {
    &&& s.len() == 10
    &&& s[4] == '-'
    &&& s[7] == '-'
    &&& forall|i: int| 0 <= i < 10 && i != 4 && i != 7 ==> is_ascii_digit(#[trigger] s[i])
    &&& {
        let y = 1000 * digit(s[0]) + 100 * digit(s[1]) + 10 * digit(s[2]) + digit(s[3]);
        let m = 10 * digit(s[5]) + digit(s[6]);
        let d = 10 * digit(s[8]) + digit(s[9]);
        y > 0 && 1 <= m <= 12 && 1 <= d <= days_in_month(y, m)
    }
}

/// A time of day written `HH:MM`.
pub open spec fn time_ok(s: Seq<char>) -> bool {
    &&& s.len() == 5
    &&& s[2] == ':'
    &&& forall|i: int| 0 <= i < 5 && i != 2 ==> is_ascii_digit(#[trigger] s[i])
    &&& 10 * digit(s[0]) + digit(s[1]) < 24
    &&& 10 * digit(s[3]) + digit(s[4]) < 60
}

fn digit_value(c: char) -> (n: u32)
    requires
        is_ascii_digit(c),
    ensures
        n == digit(c),
        n <= 9,
{
    (c as u32) - 48
}

fn all_digits_except(v: &[char], a: usize, b: usize) -> (r: bool)
    ensures
        r == forall|i: int| 0 <= i < v.len() && i != a && i != b ==> is_ascii_digit(#[trigger] v@[i]),
{
    let mut i: usize = 0;
    while i < v.len()
        invariant
            i <= v.len(),
            forall|j: int| 0 <= j < i && j != a && j != b ==> is_ascii_digit(#[trigger] v@[j]),
        decreases v.len() - i,
    {
        if i != a && i != b && !('0' <= v[i] && v[i] <= '9') {
            return false;
        }
        i = i + 1;
    }
    true
}

pub fn date_ok_chars(v: &[char]) -> (r: bool)
    ensures
        r == date_ok(v@),
{
    if v.len() != 10 || v[4] != '-' || v[7] != '-' || !all_digits_except(v, 4, 7) {
        return false;
    }
    let y = 1000 * digit_value(v[0]) + 100 * digit_value(v[1]) + 10 * digit_value(v[2])
        + digit_value(v[3]);
    let m = 10 * digit_value(v[5]) + digit_value(v[6]);
    let d = 10 * digit_value(v[8]) + digit_value(v[9]);
    let leap = y % 400 == 0 || (y % 4 == 0 && y % 100 != 0);
    let days: u32 = if m == 2 {
        if leap {
            29
        } else {
            28
        }
    } else if m == 4 || m == 6 || m == 9 || m == 11 {
        30
    } else {
        31
    };
    y > 0 && m > 0 && m <= 12 && d > 0 && d <= days
}

/// Whether `date` is a valid `YYYY-MM-DD` date.
pub fn valid_date(date: &str) -> (r: bool)
    ensures
        r == date_ok(date@),
{
    let v = chars_of(date);
    date_ok_chars(v.as_slice())
}

pub fn time_ok_chars(v: &[char]) -> (r: bool)
    ensures
        r == time_ok(v@),
{
    if v.len() != 5 || v[2] != ':' || !all_digits_except(v, 2, 2) {
        return false;
    }
    let h = 10 * digit_value(v[0]) + digit_value(v[1]);
    let m = 10 * digit_value(v[3]) + digit_value(v[4]);
    h < 24 && m < 60
}

/// Whether `time` is a valid `HH:MM` time.
pub fn valid_time(time: &str) -> (r: bool)
    ensures
        r == time_ok(time@),
{
    let v = chars_of(time);
    time_ok_chars(v.as_slice())
}

/// The marker of a code-fence line (```` ``` ```` or `~~~` after leading white space).
pub open spec fn fence_marker(t: Seq<char>) -> Option<char> {
    if seq!['`', '`', '`'].is_prefix_of(t) || seq!['~', '~', '~'].is_prefix_of(t) {
        Some(t[0])
    } else {
        None
    }
}

/// A fence line closes the open fence of the same marker, opens one when none is open,
/// and is ignored inside a fence of the other marker.
pub open spec fn next_fence(fence: Option<char>, marker: char) -> Option<char> {
    if fence == Some(marker) {
        None
    } else if fence is None {
        Some(marker)
    } else {
        fence
    }
}

/// The open fence before line `k`.
pub open spec fn fence_before(ls: Seq<Seq<char>>, k: int) -> Option<char>
    decreases k,
{
    if k <= 0 {
        None
    } else {
        let f = fence_before(ls, k - 1);
        match fence_marker(trim_start(ls[k - 1])) {
            Some(m) => next_fence(f, m),
            None => f,
        }
    }
}

/// The text after a list bullet (`- `, `* ` or `+ `).
pub open spec fn bullet_item(t: Seq<char>) -> Option<Seq<char>> {
    if seq!['-', ' '].is_prefix_of(t) || seq!['*', ' '].is_prefix_of(t) || seq!['+', ' '].is_prefix_of(
        t,
    ) {
        Some(t.skip(2))
    } else {
        None
    }
}

/// The task text and completion of a checkbox line (already trimmed at the start).
pub open spec fn checkbox_of(t: Seq<char>) -> Option<(Seq<char>, bool)> {
    match bullet_item(t) {
        None => None,
        Some(item) => if seq!['[', ' ', ']', ' '].is_prefix_of(item) {
            Some((trim(item.skip(4)), false))
        } else if seq!['[', 'x', ']', ' '].is_prefix_of(item) || seq!['[', 'X', ']', ' '].is_prefix_of(
            item,
        ) {
            Some((trim(item.skip(4)), true))
        } else {
            None
        },
    }
}

/// Checkboxes of the first `k` lines, outside code fences: (line index, text, completed).
pub open spec fn checkboxes_upto(ls: Seq<Seq<char>>, k: int) -> Seq<(usize, Seq<char>, bool)>
    decreases k,
{
    if k <= 0 {
        Seq::empty()
    } else {
        let prev = checkboxes_upto(ls, k - 1);
        let t = trim_start(ls[k - 1]);
        if fence_marker(t) is None && fence_before(ls, k - 1) is None && checkbox_of(t) is Some {
            prev.push(((k - 1) as usize, (checkbox_of(t)->0).0, (checkbox_of(t)->0).1))
        } else {
            prev
        }
    }
}

pub open spec fn checkboxes_of(md: Seq<char>) -> Seq<(usize, Seq<char>, bool)> {
    checkboxes_upto(lines(md), lines(md).len() as int)
}

fn prefix3(t: &[char], a: char, b: char, c: char) -> (r: bool)
    ensures
        r == seq![a, b, c].is_prefix_of(t@),
{
    let p = [a, b, c];
    assert(p@ == seq![a, b, c]);
    crate::text::starts_with_chars(t, p.as_slice())
}

fn fence_of(t: &[char]) -> (r: Option<char>)
    ensures
        r == fence_marker(t@),
{
    if prefix3(t, '`', '`', '`') || prefix3(t, '~', '~', '~') {
        Some(t[0])
    } else {
        None
    }
}

fn checkbox_line(t: &[char]) -> (r: Option<(Vec<char>, bool)>)
    ensures
        r is Some == checkbox_of(t@) is Some,
        r matches Some(x) ==> x.0@ == (checkbox_of(t@)->0).0 && x.1 == (checkbox_of(t@)->0).1,
{
    let b1 = ['-', ' '];
    let b2 = ['*', ' '];
    let b3 = ['+', ' '];
    assert(b1@ == seq!['-', ' ']);
    assert(b2@ == seq!['*', ' ']);
    assert(b3@ == seq!['+', ' ']);
    if !(crate::text::starts_with_chars(t, b1.as_slice()) || crate::text::starts_with_chars(
        t,
        b2.as_slice(),
    ) || crate::text::starts_with_chars(t, b3.as_slice())) {
        return None;
    }
    let item = slice_copy(t, 2, t.len());
    assert(item@ == t@.skip(2));
    let open = ['[', ' ', ']', ' '];
    let done1 = ['[', 'x', ']', ' '];
    let done2 = ['[', 'X', ']', ' '];
    assert(open@ == seq!['[', ' ', ']', ' ']);
    assert(done1@ == seq!['[', 'x', ']', ' ']);
    assert(done2@ == seq!['[', 'X', ']', ' ']);
    let completed = if crate::text::starts_with_chars(item.as_slice(), open.as_slice()) {
        false
    } else if crate::text::starts_with_chars(item.as_slice(), done1.as_slice())
        || crate::text::starts_with_chars(item.as_slice(), done2.as_slice()) {
        true
    } else {
        return None;
    };
    let rest = slice_copy(item.as_slice(), 4, item.len());
    assert(rest@ == item@.skip(4));
    Some((trim_vec(rest.as_slice()), completed))
}

/// The Markdown checkboxes (`- [ ] ...`, `- [x] ...`) outside code fences, with their line index.
pub fn checkboxes(markdown: &str) -> (r: Vec<(usize, String, bool)>)
    ensures
        r.deep_view() == checkboxes_of(markdown@),
{
    let v = chars_of(markdown);
    let ls = lines_vec(v.as_slice());
    let ghost l = lines(markdown@);
    let mut fence: Option<char> = None;
    let mut out: Vec<(usize, String, bool)> = Vec::new();
    let mut k: usize = 0;
    while k < ls.len()
        invariant
            k <= ls.len(),
            views(ls@) == l,
            fence == fence_before(l, k as int),
            out.deep_view() == checkboxes_upto(l, k as int),
        decreases ls.len() - k,
    {
        assert(views(ls@)[k as int] == ls@[k as int]@);
        let t = trim_start_vec(ls[k].as_slice());
        let ghost prev = out.deep_view();
        match fence_of(t.as_slice()) {
            Some(m) => {
                if fence == Some(m) {
                    fence = None;
                } else if fence.is_none() {
                    fence = Some(m);
                }
            },
            None => {
                if fence.is_none() {
                    match checkbox_line(t.as_slice()) {
                        Some((text, done)) => {
                            let s = string_of(text.as_slice());
                            out.push((k, s, done));
                            assert(out.deep_view() =~= prev.push(
                                (k, (checkbox_of(t@)->0).0, (checkbox_of(t@)->0).1),
                            ));
                        },
                        None => {},
                    }
                }
            },
        }
        k = k + 1;
    }
    out
}


/// A checkbox line, trimmed at the start, reads the same with any of the three list bullets
/// `-`, `*` and `+`: `[ ] ` gives an open task and `[x] ` or `[X] ` a done one, whose text is
/// the rest of the line, trimmed.
pub proof fn lemma_bullet_checkbox(bullet: char, mark: char, rest: Seq<char>)
    requires
        bullet == '-' || bullet == '*' || bullet == '+',
        mark == ' ' || mark == 'x' || mark == 'X',
    ensures
        checkbox_of(seq![bullet, ' ', '[', mark, ']', ' '] + rest) == Some((trim(rest), mark != ' ')),
        fence_marker(seq![bullet, ' ', '[', mark, ']', ' '] + rest) is None,
{
    let t = seq![bullet, ' ', '[', mark, ']', ' '] + rest;
    assert(seq![bullet, ' '] =~= t.subrange(0, 2));
    let item = t.skip(2);
    assert(item.skip(4) =~= rest);
    assert(seq!['[', mark, ']', ' '] =~= item.subrange(0, 4));
    if mark != ' ' {
        if seq!['[', ' ', ']', ' '].is_prefix_of(item) {
            assert(item.subrange(0, 4)[1] == item[1]);
        }
    }
    if seq!['`', '`', '`'].is_prefix_of(t) {
        assert(t.subrange(0, 3)[0] == t[0]);
    }
    if seq!['~', '~', '~'].is_prefix_of(t) {
        assert(t.subrange(0, 3)[0] == t[0]);
    }
}

/// A line that no earlier line opens a code fence before is outside every code fence.
proof fn lemma_no_fence_before(ls: Seq<Seq<char>>, k: int)
    requires
        0 <= k <= ls.len(),
        forall|j: int|
            0 <= j < k ==> !seq!['`', '`', '`'].is_prefix_of(#[trigger] trim_start(ls[j]))
                && !seq!['~', '~', '~'].is_prefix_of(trim_start(ls[j])),
    ensures
        fence_before(ls, k) is None,
    decreases k,
{
    if k > 0 {
        lemma_no_fence_before(ls, k - 1);
        assert(fence_marker(trim_start(ls[k - 1])) is None);
    }
}

/// The checkboxes of the first `n` lines keep every entry of the first `m`.
proof fn lemma_checkboxes_grow(ls: Seq<Seq<char>>, m: int, n: int)
    requires
        0 <= m <= n <= ls.len(),
    ensures
        forall|e: (usize, Seq<char>, bool)|
            #[trigger] checkboxes_upto(ls, m).contains(e) ==> checkboxes_upto(ls, n).contains(e),
    decreases n - m,
{
    if m < n {
        lemma_checkboxes_grow(ls, m, n - 1);
        assert forall|e: (usize, Seq<char>, bool)|
            #[trigger] checkboxes_upto(ls, m).contains(e) implies checkboxes_upto(ls, n).contains(e) by {
            let prev = checkboxes_upto(ls, n - 1);
            assert(prev.contains(e));
            let j = choose|j: int| 0 <= j < prev.len() && prev[j] == e;
            let t = trim_start(ls[n - 1]);
            if fence_marker(t) is None && fence_before(ls, n - 1) is None && checkbox_of(t) is Some {
                assert(checkboxes_upto(ls, n)[j] == e);
            }
        }
    }
}

/// A line whose trimmed start is a list bullet (`-`, `*` or `+`), a space and a box (`[ ] `,
/// `[x] ` or `[X] `), with no code fence opened on an earlier line, is a checkbox of the note:
/// its line number, its text trimmed, and done when the box is checked.
pub proof fn lemma_checkbox_line_listed(
    md: Seq<char>,
    k: usize,
    bullet: char,
    mark: char,
    rest: Seq<char>,
)
    requires
        k < lines(md).len(),
        bullet == '-' || bullet == '*' || bullet == '+',
        mark == ' ' || mark == 'x' || mark == 'X',
        trim_start(lines(md)[k as int]) == seq![bullet, ' ', '[', mark, ']', ' '] + rest,
        forall|j: int|
            0 <= j < k ==> !seq!['`', '`', '`'].is_prefix_of(#[trigger] trim_start(lines(md)[j]))
                && !seq!['~', '~', '~'].is_prefix_of(trim_start(lines(md)[j])),
    ensures
        checkboxes_of(md).contains((k, trim(rest), mark != ' ')),
{
    let ls = lines(md);
    lemma_bullet_checkbox(bullet, mark, rest);
    lemma_no_fence_before(ls, k as int);
    let here = checkboxes_upto(ls, k + 1);
    assert(here == checkboxes_upto(ls, k as int).push((k, trim(rest), mark != ' ')));
    let e = (k, trim(rest), mark != ' ');
    assert(here[here.len() - 1] == e);
    assert(here.contains(e));
    lemma_checkboxes_grow(ls, k + 1, ls.len() as int);
    assert(checkboxes_upto(ls, ls.len() as int).contains(e));
}


/// `HH:MM` written for an hour `h` and a minute `m`, two decimal digits each.
pub open spec fn clock_text(h: nat, m: nat) -> Seq<char> {
    seq![
        crate::text::digit_char(h / 10),
        crate::text::digit_char(h % 10),
        ':',
        crate::text::digit_char(m / 10),
        crate::text::digit_char(m % 10),
    ]
}

/// The decimal digit written for a value below 10 reads back as that value.
proof fn lemma_digit_char(d: nat)
    requires
        d < 10,
    ensures
        is_ascii_digit(crate::text::digit_char(d)),
        digit(crate::text::digit_char(d)) == d,
{
    assert((48 + d) as u8 == 48 + d);
    assert(((48 + d) as u8) as char as int == 48 + d);
}

/// A decimal digit is the digit written for its value.
proof fn lemma_digit_of_char(c: char)
    requires
        is_ascii_digit(c),
    ensures
        0 <= digit(c) < 10,
        crate::text::digit_char(digit(c) as nat) == c,
{
    let d = digit(c) as nat;
    assert((48 + d) as u8 == 48 + d);
    let x = ((48 + d) as u8) as char;
    assert(x as u32 == c as u32);
    vstd::utf8::char_u32_cast(x, x as u32);
    vstd::utf8::char_u32_cast(c, c as u32);
}

/// A time is valid exactly when it is `HH:MM` for an hour below 24 and a minute below 60:
/// every such time, `00:00` to `23:59`, is accepted, and nothing else.
pub proof fn lemma_valid_times(s: Seq<char>)
    ensures
        time_ok(s) <==> exists|h: nat, m: nat| h < 24 && m < 60 && s == #[trigger] clock_text(h, m),
{
    if time_ok(s) {
        lemma_digit_of_char(s[0]);
        lemma_digit_of_char(s[1]);
        lemma_digit_of_char(s[3]);
        lemma_digit_of_char(s[4]);
        let h = (10 * digit(s[0]) + digit(s[1])) as nat;
        let m = (10 * digit(s[3]) + digit(s[4])) as nat;
        assert(h / 10 == digit(s[0]) && h % 10 == digit(s[1]));
        assert(m / 10 == digit(s[3]) && m % 10 == digit(s[4]));
        assert(s =~= clock_text(h, m));
    }
    if exists|h: nat, m: nat| h < 24 && m < 60 && s == #[trigger] clock_text(h, m) {
        let (h, m) = choose|h: nat, m: nat| h < 24 && m < 60 && s == #[trigger] clock_text(h, m);
        lemma_digit_char(h / 10);
        lemma_digit_char(h % 10);
        lemma_digit_char(m / 10);
        lemma_digit_char(m % 10);
        assert forall|i: int| 0 <= i < 5 && i != 2 implies is_ascii_digit(#[trigger] s[i]) by {}
        assert(10 * (h / 10) + h % 10 == h);
        assert(10 * (m / 10) + m % 10 == m);
    }
}


/// The length of month `m` of year `y` in the Gregorian calendar: 30 days for April, June,
/// September and November, 28 for February (29 in a year divisible by 4 but not by 100, or
/// by 400), 31 for the others.
pub open spec fn gregorian_month_length(y: int, m: int) -> int {
    if m == 4 || m == 6 || m == 9 || m == 11 {
        30
    } else if m != 2 {
        31
    } else if y % 4 == 0 && (y % 100 != 0 || y % 400 == 0) {
        29
    } else {
        28
    }
}

/// `YYYY-MM-DD` written for a year, a month and a day, in four, two and two decimal digits.
pub open spec fn date_text(y: nat, m: nat, d: nat) -> Seq<char> {
    seq![
        crate::text::digit_char(y / 1000),
        crate::text::digit_char((y / 100) % 10),
        crate::text::digit_char((y / 10) % 10),
        crate::text::digit_char(y % 10),
        '-',
        crate::text::digit_char(m / 10),
        crate::text::digit_char(m % 10),
        '-',
        crate::text::digit_char(d / 10),
        crate::text::digit_char(d % 10),
    ]
}

/// A date is valid exactly when it is `YYYY-MM-DD` for a day of the Gregorian calendar in the
/// years 1 to 9999: a month from 1 to 12 and a day from 1 to that month's length.
pub proof fn lemma_valid_dates(s: Seq<char>)
    ensures
        date_ok(s) <==> exists|y: nat, m: nat, d: nat|
            1 <= y <= 9999 && 1 <= m <= 12 && 1 <= d <= gregorian_month_length(y as int, m as int)
                && s == #[trigger] date_text(y, m, d),
{
    if date_ok(s) {
        lemma_digit_of_char(s[0]);
        lemma_digit_of_char(s[1]);
        lemma_digit_of_char(s[2]);
        lemma_digit_of_char(s[3]);
        lemma_digit_of_char(s[5]);
        lemma_digit_of_char(s[6]);
        lemma_digit_of_char(s[8]);
        lemma_digit_of_char(s[9]);
        let (a, b, c, e) = (digit(s[0]), digit(s[1]), digit(s[2]), digit(s[3]));
        let y = (1000 * a + 100 * b + 10 * c + e) as nat;
        let m = (10 * digit(s[5]) + digit(s[6])) as nat;
        let d = (10 * digit(s[8]) + digit(s[9])) as nat;
        assert(y / 1000 == a && (y / 100) % 10 == b && (y / 10) % 10 == c && y % 10 == e)
            by (nonlinear_arith)
            requires
                0 <= a < 10,
                0 <= b < 10,
                0 <= c < 10,
                0 <= e < 10,
                y == 1000 * a + 100 * b + 10 * c + e,
        ;
        assert(m / 10 == digit(s[5]) && m % 10 == digit(s[6]));
        assert(d / 10 == digit(s[8]) && d % 10 == digit(s[9]));
        assert(s =~= date_text(y, m, d));
        assert(gregorian_month_length(y as int, m as int) == days_in_month(y as int, m as int));
    }
    if exists|y: nat, m: nat, d: nat|
        1 <= y <= 9999 && 1 <= m <= 12 && 1 <= d <= gregorian_month_length(y as int, m as int)
            && s == #[trigger] date_text(y, m, d) {
        let (y, m, d) = choose|y: nat, m: nat, d: nat|
            1 <= y <= 9999 && 1 <= m <= 12 && 1 <= d <= gregorian_month_length(y as int, m as int)
                && s == #[trigger] date_text(y, m, d);
        assert(y / 1000 < 10);
        lemma_digit_char(y / 1000);
        lemma_digit_char((y / 100) % 10);
        lemma_digit_char((y / 10) % 10);
        lemma_digit_char(y % 10);
        lemma_digit_char(m / 10);
        lemma_digit_char(m % 10);
        lemma_digit_char(d / 10);
        lemma_digit_char(d % 10);
        assert forall|i: int| 0 <= i < 10 && i != 4 && i != 7 implies is_ascii_digit(#[trigger] s[i]) by {}
        assert(1000 * (y / 1000) + 100 * ((y / 100) % 10) + 10 * ((y / 10) % 10) + y % 10 == y)
            by (nonlinear_arith)
            requires
                y <= 9999,
        ;
        assert(10 * (m / 10) + m % 10 == m);
        assert(10 * (d / 10) + d % 10 == d);
        assert(gregorian_month_length(y as int, m as int) == days_in_month(y as int, m as int));
    }
}


/// Whether a trimmed line starts like a code-fence line.
pub open spec fn fence_like(t: Seq<char>) -> bool {
    seq!['`', '`', '`'].is_prefix_of(t) || seq!['~', '~', '~'].is_prefix_of(t)
}

/// After an opening fence line, the fence stays open over lines that are no fence lines.
proof fn lemma_fence_stays_open(ls: Seq<Seq<char>>, j: int, i: int)
    requires
        0 <= j < i <= ls.len(),
        fence_before(ls, j + 1) is Some,
        forall|q: int| j < q < i ==> !fence_like(#[trigger] trim_start(ls[q])),
    ensures
        fence_before(ls, i) is Some,
    decreases i - j,
{
    if i > j + 1 {
        lemma_fence_stays_open(ls, j, i - 1);
        assert(!fence_like(trim_start(ls[i - 1])));
        assert(fence_marker(trim_start(ls[i - 1])) is None);
    }
}

/// A line inside a code fence is never a checkbox: after the note's first fence line (one
/// starting with ```` ``` ```` or `~~~` once trimmed), no line before the next fence line is
/// listed, whatever it holds. (Of a note shorter than the largest `usize`.)
pub proof fn lemma_fenced_lines_unlisted(md: Seq<char>, j: int, k: int)
    requires
        md.len() < usize::MAX,
        0 <= j < k < lines(md).len(),
        forall|q: int| 0 <= q < j ==> !fence_like(#[trigger] trim_start(lines(md)[q])),
        fence_like(trim_start(lines(md)[j])),
        forall|q: int| j < q < k ==> !fence_like(#[trigger] trim_start(lines(md)[q])),
    ensures
        forall|e: (usize, Seq<char>, bool)| #[trigger] checkboxes_of(md).contains(e) ==> e.0 as int != k,
{
    let ls = lines(md);
    crate::linebreaks::lemma_lines_len(md);
    lemma_no_fence_before(ls, j);
    assert(fence_marker(trim_start(ls[j])) is Some);
    assert(fence_before(ls, j + 1) is Some);
    lemma_fence_stays_open(ls, j, k);
    assert forall|e: (usize, Seq<char>, bool)| #[trigger] checkboxes_of(md).contains(e) implies e.0 as int != k by {
        let all = checkboxes_upto(ls, ls.len() as int);
        let idx = choose|idx: int| 0 <= idx < all.len() && all[idx] == e;
        crate::writeback::lemma_checkbox_entry(ls, ls.len() as int, idx);
    }
}

} // verus!
