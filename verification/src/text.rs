//! Character-level model of the string operations the vault rules are written in.
//!
//! A string is its sequence of Unicode scalar values (`str@`). Byte lengths are the
//! UTF-8 widths of those scalars.
use vstd::prelude::*;

verus! {

/// `String::push` appends one scalar value.
pub assume_specification[ String::push ](s: &mut String, ch: char)
    ensures
        final(s)@ == old(s)@.push(ch),
;

/// Unicode general category Cc, which is what `char::is_control` tests.
pub open spec fn is_control(c: char) -> bool {
    (c as u32) <= 0x1f || (0x7f <= (c as u32) && (c as u32) <= 0x9f)
}

/// The Unicode `White_Space` property, which `char::is_whitespace` and `str::trim` use.
pub open spec fn is_white_space(c: char) -> bool {
    let u = c as u32;
    ||| 0x09 <= u <= 0x0d
    ||| u == 0x20
    ||| u == 0x85
    ||| u == 0xa0
    ||| u == 0x1680
    ||| 0x2000 <= u <= 0x200a
    ||| u == 0x2028
    ||| u == 0x2029
    ||| u == 0x202f
    ||| u == 0x205f
    ||| u == 0x3000
}

pub open spec fn is_ascii_digit(c: char) -> bool {
    '0' <= c <= '9'
}

pub open spec fn is_ascii_alphanumeric(c: char) -> bool {
    ||| '0' <= c <= '9'
    ||| 'a' <= c <= 'z'
    ||| 'A' <= c <= 'Z'
}

pub open spec fn is_ascii_hexdigit(c: char) -> bool {
    ||| '0' <= c <= '9'
    ||| 'a' <= c <= 'f'
    ||| 'A' <= c <= 'F'
}

/// Number of bytes in the UTF-8 encoding of one scalar value.
pub open spec fn char_utf8_len(c: char) -> nat {
    let u = c as u32;
    if u < 0x80 {
        1
    } else if u < 0x800 {
        2
    } else if u < 0x10000 {
        3
    } else {
        4
    }
}

/// Number of bytes in the UTF-8 encoding of a string (what `str::len` returns).
pub open spec fn utf8_len(s: Seq<char>) -> nat
    decreases s.len(),
{
    if s.len() == 0 {
        0
    } else {
        utf8_len(s.drop_last()) + char_utf8_len(s.last())
    }
}

pub proof fn lemma_utf8_len_add(a: Seq<char>, b: Seq<char>)
    ensures
        utf8_len(a + b) == utf8_len(a) + utf8_len(b),
    decreases b.len(),
{
    if b.len() == 0 {
        assert(a + b =~= a);
    } else {
        lemma_utf8_len_add(a, b.drop_last());
        assert((a + b).drop_last() =~= a + b.drop_last());
    }
}

pub proof fn lemma_utf8_len_ge_len(s: Seq<char>)
    ensures
        utf8_len(s) >= s.len(),
    decreases s.len(),
{
    if s.len() > 0 {
        lemma_utf8_len_ge_len(s.drop_last());
    }
}

/// Characters from `'/'`, `'\\'`, `':'`, `'*'`, `'?'`, `'"'`, `'<'`, `'>'`, `'|'`: never allowed in a name.
pub open spec fn is_reserved_char(c: char) -> bool {
    c == '/' || c == '\\' || c == ':' || c == '*' || c == '?' || c == '"' || c == '<' || c
        == '>' || c == '|'
}

/// Number of leading white-space scalars.
pub open spec fn ws_prefix_len(s: Seq<char>) -> nat
    decreases s.len(),
{
    if s.len() > 0 && is_white_space(s[0]) {
        1 + ws_prefix_len(s.drop_first())
    } else {
        0
    }
}

/// Number of trailing white-space scalars.
pub open spec fn ws_suffix_len(s: Seq<char>) -> nat
    decreases s.len(),
{
    if s.len() > 0 && is_white_space(s.last()) {
        1 + ws_suffix_len(s.drop_last())
    } else {
        0
    }
}

pub open spec fn trim_start(s: Seq<char>) -> Seq<char> {
    s.skip(ws_prefix_len(s) as int)
}

pub open spec fn trim_end(s: Seq<char>) -> Seq<char> {
    s.take(s.len() - ws_suffix_len(s))
}

/// `str::trim`.
pub open spec fn trim(s: Seq<char>) -> Seq<char> {
    trim_end(trim_start(s))
}

/// Number of leading copies of `c` (what `trim_start_matches(c)` removes).
pub open spec fn char_prefix_len(s: Seq<char>, c: char) -> nat
    decreases s.len(),
{
    if s.len() > 0 && s[0] == c {
        1 + char_prefix_len(s.drop_first(), c)
    } else {
        0
    }
}

/// Number of trailing copies of `c` (what `trim_end_matches(c)` removes).
pub open spec fn char_suffix_len(s: Seq<char>, c: char) -> nat
    decreases s.len(),
{
    if s.len() > 0 && s.last() == c {
        1 + char_suffix_len(s.drop_last(), c)
    } else {
        0
    }
}

pub open spec fn trim_start_matches(s: Seq<char>, c: char) -> Seq<char> {
    s.skip(char_prefix_len(s, c) as int)
}

pub open spec fn trim_end_matches(s: Seq<char>, c: char) -> Seq<char> {
    s.take(s.len() - char_suffix_len(s, c))
}

/// `str::split(sep)`: the pieces between separators; always at least one piece.
pub open spec fn split(s: Seq<char>, sep: char) -> Seq<Seq<char>>
    decreases s.len(),
{
    if s.len() == 0 {
        seq![Seq::<char>::empty()]
    } else {
        let r = split(s.drop_last(), sep);
        if s.last() == sep {
            r.push(Seq::<char>::empty())
        } else {
            r.update(r.len() - 1, r.last().push(s.last()))
        }
    }
}

pub proof fn lemma_split_nonempty(s: Seq<char>, sep: char)
    ensures
        split(s, sep).len() >= 1,
    decreases s.len(),
{
    if s.len() > 0 {
        lemma_split_nonempty(s.drop_last(), sep);
    }
}

/// The piece before the first `sep` (`split(sep).next()`), or the whole string.
pub open spec fn before_first(s: Seq<char>, sep: char) -> Seq<char>
    decreases s.len(),
{
    if s.len() == 0 {
        s
    } else if s[0] == sep {
        Seq::<char>::empty()
    } else {
        seq![s[0]] + before_first(s.drop_first(), sep)
    }
}

/// Index of the last `c`, or -1.
pub open spec fn last_index_of(s: Seq<char>, c: char) -> int
    decreases s.len(),
{
    if s.len() == 0 {
        -1
    } else if s.last() == c {
        s.len() - 1
    } else {
        last_index_of(s.drop_last(), c)
    }
}

pub proof fn lemma_last_index_of_bounds(s: Seq<char>, c: char)
    ensures
        -1 <= last_index_of(s, c) < s.len(),
        last_index_of(s, c) >= 0 ==> s[last_index_of(s, c)] == c,
        forall|j: int| last_index_of(s, c) < j < s.len() ==> s[j] != c,
    decreases s.len(),
{
    if s.len() > 0 && s.last() != c {
        lemma_last_index_of_bounds(s.drop_last(), c);
        assert forall|j: int| last_index_of(s, c) < j < s.len() implies s[j] != c by {
            if j < s.len() - 1 {
                assert(s[j] == s.drop_last()[j]);
            }
        }
    }
}

/// Drops one trailing `'\r'`.
pub open spec fn strip_cr(s: Seq<char>) -> Seq<char> {
    if s.len() > 0 && s.last() == '\r' {
        s.drop_last()
    } else {
        s
    }
}

/// `str::lines`: split at `'\n'`, a `'\r'` before that `'\n'` removed, no final empty line.
pub open spec fn lines(s: Seq<char>) -> Seq<Seq<char>> {
    let p = split(s, '\n');
    let n = if p.last().len() == 0 {
        p.len() - 1
    } else {
        p.len() as int
    };
    Seq::new(
        n as nat,
        |i: int|
            if i < p.len() - 1 {
                strip_cr(p[i])
            } else {
                p[i]
            },
    )
}

/// `str::split_inclusive('\n')`: the lines with their terminator kept, no final empty piece.
pub open spec fn split_lines_inclusive(s: Seq<char>) -> Seq<Seq<char>> {
    let p = split(s, '\n');
    let n = if p.last().len() == 0 {
        p.len() - 1
    } else {
        p.len() as int
    };
    Seq::new(
        n as nat,
        |i: int|
            if i < p.len() - 1 {
                p[i].push('\n')
            } else {
                p[i]
            },
    )
}

/// Concatenation of a sequence of strings.
pub open spec fn concat(parts: Seq<Seq<char>>) -> Seq<char>
    decreases parts.len(),
{
    if parts.len() == 0 {
        Seq::<char>::empty()
    } else {
        concat(parts.drop_last()) + parts.last()
    }
}

/// Pieces joined with a separator.
pub open spec fn join(parts: Seq<Seq<char>>, sep: Seq<char>) -> Seq<char>
    decreases parts.len(),
{
    if parts.len() == 0 {
        Seq::<char>::empty()
    } else if parts.len() == 1 {
        parts[0]
    } else {
        join(parts.drop_last(), sep) + sep + parts.last()
    }
}

pub open spec fn seq_contains_char(s: Seq<char>, c: char) -> bool {
    exists|i: int| 0 <= i < s.len() && s[i] == c
}

/// Copies a string into a vector of its scalar values.
pub fn chars_of(s: &str) -> (v: Vec<char>)
    ensures
        v@ == s@,
{
    let mut v: Vec<char> = Vec::new();
    for c in it: s.chars()
        invariant
            v@ == it.seq().take(it.index() as int),
    {
        v.push(c);
    }
    v
}

/// Builds a `String` from scalar values.
pub fn string_of(v: &[char]) -> (s: String)
    ensures
        s@ == v@,
{
    let mut s = String::new();
    let mut i: usize = 0;
    while i < v.len()
        invariant
            i <= v.len(),
            s@ == v@.take(i as int),
        decreases v.len() - i,
    {
        s.push(v[i]);
        i = i + 1;
        assert(s@ =~= v@.take(i as int));
    }
    assert(v@.take(v.len() as int) =~= v@);
    s
}

/// Appends scalar values to a `String`.
pub fn push_all(s: &mut String, v: &[char])
    ensures
        final(s)@ == old(s)@ + v@,
{
    let mut i: usize = 0;
    while i < v.len()
        invariant
            i <= v.len(),
            s@ == old(s)@ + v@.take(i as int),
        decreases v.len() - i,
    {
        s.push(v[i]);
        i = i + 1;
        assert(s@ =~= old(s)@ + v@.take(i as int));
    }
    assert(v@.take(v.len() as int) =~= v@);
}

/// Appends a `str` to a `String`.
pub fn push_str(s: &mut String, t: &str)
    ensures
        final(s)@ == old(s)@ + t@,
{
    let v = chars_of(t);
    push_all(s, v.as_slice());
}

/// A copy of `v[from..to]`.
pub fn slice_copy(v: &[char], from: usize, to: usize) -> (r: Vec<char>)
    requires
        from <= to <= v.len(),
    ensures
        r@ == v@.subrange(from as int, to as int),
{
    let mut r: Vec<char> = Vec::new();
    let mut i = from;
    while i < to
        invariant
            from <= i <= to <= v.len(),
            r@ == v@.subrange(from as int, i as int),
        decreases to - i,
    {
        r.push(v[i]);
        i = i + 1;
        assert(r@ =~= v@.subrange(from as int, i as int));
    }
    r
}

pub fn eq_chars(a: &[char], b: &[char]) -> (r: bool)
    ensures
        r == (a@ == b@),
{
    if a.len() != b.len() {
        return false;
    }
    let mut i: usize = 0;
    while i < a.len()
        invariant
            i <= a.len() == b.len(),
            forall|j: int| 0 <= j < i ==> a@[j] == b@[j],
        decreases a.len() - i,
    {
        if a[i] != b[i] {
            return false;
        }
        i = i + 1;
    }
    assert(a@ =~= b@);
    true
}

/// Whether `v` equals the literal `lit`.
pub fn eq_lit(v: &[char], lit: &str) -> (r: bool)
    ensures
        r == (v@ == lit@),
{
    let l = chars_of(lit);
    eq_chars(v, l.as_slice())
}

pub fn starts_with_chars(v: &[char], p: &[char]) -> (r: bool)
    ensures
        r == p@.is_prefix_of(v@),
{
    if p.len() > v.len() {
        return false;
    }
    let mut i: usize = 0;
    while i < p.len()
        invariant
            i <= p.len() <= v.len(),
            forall|j: int| 0 <= j < i ==> p@[j] == v@[j],
        decreases p.len() - i,
    {
        if p[i] != v[i] {
            assert(!(p@ =~= v@.subrange(0, p@.len() as int)));
            return false;
        }
        i = i + 1;
    }
    assert(p@ =~= v@.subrange(0, p@.len() as int));
    true
}

pub fn ends_with_chars(v: &[char], p: &[char]) -> (r: bool)
    ensures
        r == p@.is_suffix_of(v@),
{
    if p.len() > v.len() {
        return false;
    }
    let off = v.len() - p.len();
    let mut i: usize = 0;
    while i < p.len()
        invariant
            i <= p.len() <= v.len(),
            off == v.len() - p.len(),
            forall|j: int| 0 <= j < i ==> p@[j] == v@[off + j],
        decreases p.len() - i,
    {
        if p[i] != v[off + i] {
            assert(!(p@ =~= v@.subrange(off as int, v@.len() as int)));
            return false;
        }
        i = i + 1;
    }
    assert(p@ =~= v@.subrange(off as int, v@.len() as int));
    true
}

pub fn starts_with_lit(v: &[char], lit: &str) -> (r: bool)
    ensures
        r == lit@.is_prefix_of(v@),
{
    let l = chars_of(lit);
    starts_with_chars(v, l.as_slice())
}

pub fn ends_with_lit(v: &[char], lit: &str) -> (r: bool)
    ensures
        r == lit@.is_suffix_of(v@),
{
    let l = chars_of(lit);
    ends_with_chars(v, l.as_slice())
}

pub fn contains_char(v: &[char], c: char) -> (r: bool)
    ensures
        r == seq_contains_char(v@, c),
{
    let mut i: usize = 0;
    while i < v.len()
        invariant
            i <= v.len(),
            forall|j: int| 0 <= j < i ==> v@[j] != c,
        decreases v.len() - i,
    {
        if v[i] == c {
            return true;
        }
        i = i + 1;
    }
    false
}

pub fn char_is_control(c: char) -> (r: bool)
    ensures
        r == is_control(c),
{
    let u = c as u32;
    u <= 0x1f || (0x7f <= u && u <= 0x9f)
}

pub fn char_is_white_space(c: char) -> (r: bool)
    ensures
        r == is_white_space(c),
{
    let u = c as u32;
    (0x09 <= u && u <= 0x0d) || u == 0x20 || u == 0x85 || u == 0xa0 || u == 0x1680 || (0x2000
        <= u && u <= 0x200a) || u == 0x2028 || u == 0x2029 || u == 0x202f || u == 0x205f || u
        == 0x3000
}

pub fn char_is_reserved(c: char) -> (r: bool)
    ensures
        r == is_reserved_char(c),
{
    c == '/' || c == '\\' || c == ':' || c == '*' || c == '?' || c == '"' || c == '<' || c == '>'
        || c == '|'
}

pub fn char_width(c: char) -> (n: usize)
    ensures
        n == char_utf8_len(c),
{
    let u = c as u32;
    if u < 0x80 {
        1
    } else if u < 0x800 {
        2
    } else if u < 0x10000 {
        3
    } else {
        4
    }
}

/// Whether the UTF-8 encoding of `v` fits in `limit` bytes.
pub fn utf8_len_at_most(v: &[char], limit: usize) -> (r: bool)
    ensures
        r == (utf8_len(v@) <= limit),
{
    let mut total: usize = 0;
    let mut i: usize = 0;
    while i < v.len()
        invariant
            i <= v.len(),
            total == utf8_len(v@.take(i as int)),
            total <= limit,
        decreases v.len() - i,
    {
        let w = char_width(v[i]);
        assert(v@.take(i + 1).drop_last() =~= v@.take(i as int));
        if w > limit - total {
            proof {
                lemma_utf8_len_add(v@.take(i + 1), v@.skip(i + 1));
                assert(v@.take(i + 1) + v@.skip(i + 1) =~= v@);
            }
            return false;
        }
        total = total + w;
        i = i + 1;
    }
    assert(v@.take(v.len() as int) =~= v@);
    true
}

/// The bounds `(start, end)` of `trim(v)` within `v`.
pub fn trim_bounds(v: &[char]) -> (r: (usize, usize))
    ensures
        r.0 <= r.1 <= v.len(),
        v@.subrange(r.0 as int, r.1 as int) == trim(v@),
        r.0 == ws_prefix_len(v@),
{
    let mut i: usize = 0;
    assert(v@.skip(0) =~= v@);
    while i < v.len() && char_is_white_space(v[i])
        invariant
            i <= v.len(),
            ws_prefix_len(v@) == i + ws_prefix_len(v@.skip(i as int)),
        decreases v.len() - i,
    {
        assert(v@.skip(i as int).drop_first() =~= v@.skip(i + 1));
        i = i + 1;
    }
    let ghost t = v@.skip(i as int);
    assert(ws_prefix_len(t) == 0);
    let mut j: usize = v.len();
    assert(t.take(j - i) =~= t);
    while j > i && char_is_white_space(v[j - 1])
        invariant
            i <= j <= v.len(),
            t == v@.skip(i as int),
            ws_suffix_len(t) == (v.len() - j) + ws_suffix_len(
                t.take(j - i),
            ),
        decreases j,
    {
        assert(t.take(j - i).drop_last() =~= t.take(j - 1 - i));
        j = j - 1;
    }
    assert(t.take(j - i) =~= v@.subrange(i as int, j as int));
    assert(trim_start(v@) == t);
    (i, j)
}

/// `trim(v)` as a new vector.
pub fn trim_vec(v: &[char]) -> (r: Vec<char>)
    ensures
        r@ == trim(v@),
{
    let (a, b) = trim_bounds(v);
    slice_copy(v, a, b)
}

/// `trim_start(v)` as a new vector.
pub fn trim_start_vec(v: &[char]) -> (r: Vec<char>)
    ensures
        r@ == trim_start(v@),
{
    let i = ws_prefix_count(v);
    slice_copy(v, i, v.len())
}

/// The number of leading white-space scalars.
pub fn ws_prefix_count(v: &[char]) -> (r: usize)
    ensures
        r == ws_prefix_len(v@),
        r <= v.len(),
{
    let mut i: usize = 0;
    assert(v@.skip(0) =~= v@);
    while i < v.len() && char_is_white_space(v[i])
        invariant
            i <= v.len(),
            ws_prefix_len(v@) == i + ws_prefix_len(v@.skip(i as int)),
        decreases v.len() - i,
    {
        assert(v@.skip(i as int).drop_first() =~= v@.skip(i + 1));
        i = i + 1;
    }
    proof {
        if i < v.len() {
            assert(v@.skip(i as int)[0] == v@[i as int]);
        }
    }
    i
}

pub fn trim_start_matches_vec(v: &[char], c: char) -> (r: Vec<char>)
    ensures
        r@ == trim_start_matches(v@, c),
{
    let mut i: usize = 0;
    assert(v@.skip(0) =~= v@);
    while i < v.len() && v[i] == c
        invariant
            i <= v.len(),
            char_prefix_len(v@, c) == i + char_prefix_len(v@.skip(i as int), c),
        decreases v.len() - i,
    {
        assert(v@.skip(i as int).drop_first() =~= v@.skip(i + 1));
        i = i + 1;
    }
    slice_copy(v, i, v.len())
}

pub fn trim_end_matches_vec(v: &[char], c: char) -> (r: Vec<char>)
    ensures
        r@ == trim_end_matches(v@, c),
{
    let mut j: usize = v.len();
    assert(v@.take(v.len() as int) =~= v@);
    while j > 0 && v[j - 1] == c
        invariant
            j <= v.len(),
            char_suffix_len(v@, c) == (v.len() - j) + char_suffix_len(v@.take(j as int), c),
        decreases j,
    {
        assert(v@.take(j as int).drop_last() =~= v@.take(j - 1));
        j = j - 1;
    }
    slice_copy(v, 0, j)
}

/// The contents of a vector of character vectors.
pub open spec fn views(v: Seq<Vec<char>>) -> Seq<Seq<char>> {
    v.map_values(|x: Vec<char>| x@)
}

/// `split(v, sep)` as vectors.
pub fn split_vec(v: &[char], sep: char) -> (r: Vec<Vec<char>>)
    ensures
        views(r@) == split(v@, sep),
{
    let mut parts: Vec<Vec<char>> = Vec::new();
    let mut cur: Vec<char> = Vec::new();
    let mut i: usize = 0;
    assert(views(parts@).push(cur@) =~= split(v@.take(0), sep));
    while i < v.len()
        invariant
            i <= v.len(),
            views(parts@).push(cur@) == split(v@.take(i as int), sep),
        decreases v.len() - i,
    {
        let ghost before = views(parts@).push(cur@);
        assert(v@.take(i + 1).drop_last() =~= v@.take(i as int));
        if v[i] == sep {
            parts.push(cur);
            assert(views(parts@) =~= before);
            cur = Vec::new();
            assert(views(parts@).push(cur@) =~= before.push(Seq::<char>::empty()));
        } else {
            cur.push(v[i]);
            assert(views(parts@) =~= before.drop_last());
            assert(views(parts@).push(cur@) =~= before.update(
                before.len() - 1,
                before.last().push(v@[i as int]),
            ));
        }
        i = i + 1;
    }
    assert(v@.take(v.len() as int) =~= v@);
    let ghost before = views(parts@).push(cur@);
    parts.push(cur);
    assert(views(parts@) =~= before);
    parts
}

/// `lines(v)` as vectors.
pub fn lines_vec(v: &[char]) -> (r: Vec<Vec<char>>)
    ensures
        views(r@) == lines(v@),
{
    let parts = split_vec(v, '\n');
    let ghost p = split(v@, '\n');
    proof {
        lemma_split_nonempty(v@, '\n');
    }
    let n = parts.len();
    let count = if parts[n - 1].len() == 0 {
        n - 1
    } else {
        n
    };
    assert(views(parts@)[n - 1] == parts@[n - 1]@);
    let mut out: Vec<Vec<char>> = Vec::new();
    let mut i: usize = 0;
    while i < count
        invariant
            i <= count <= n,
            n == parts@.len(),
            n >= 1,
            views(parts@) == p,
            count == (if p.last().len() == 0 {
                p.len() - 1
            } else {
                p.len() as int
            }),
            out@.len() == i,
            forall|j: int|
                0 <= j < i ==> #[trigger] out@[j]@ == (if j < p.len() - 1 {
                    strip_cr(p[j])
                } else {
                    p[j]
                }),
        decreases count - i,
    {
        let part = &parts[i];
        assert(p[i as int] == part@);
        let piece = if i + 1 < n && part.len() > 0 && part[part.len() - 1] == '\r' {
            slice_copy(part.as_slice(), 0, part.len() - 1)
        } else {
            slice_copy(part.as_slice(), 0, part.len())
        };
        assert(part@.subrange(0, part@.len() as int) =~= part@);
        out.push(piece);
        i = i + 1;
    }
    assert(views(out@) =~= lines(v@));
    out
}

/// `split_lines_inclusive(v)` as vectors.
pub fn split_lines_inclusive_vec(v: &[char]) -> (r: Vec<Vec<char>>)
    ensures
        views(r@) == split_lines_inclusive(v@),
{
    let parts = split_vec(v, '\n');
    let ghost p = split(v@, '\n');
    proof {
        lemma_split_nonempty(v@, '\n');
    }
    let n = parts.len();
    let count = if parts[n - 1].len() == 0 {
        n - 1
    } else {
        n
    };
    assert(views(parts@)[n - 1] == parts@[n - 1]@);
    let mut out: Vec<Vec<char>> = Vec::new();
    let mut i: usize = 0;
    while i < count
        invariant
            i <= count <= n,
            n == parts@.len(),
            n >= 1,
            views(parts@) == p,
            count == (if p.last().len() == 0 {
                p.len() - 1
            } else {
                p.len() as int
            }),
            out@.len() == i,
            forall|j: int|
                0 <= j < i ==> #[trigger] out@[j]@ == (if j < p.len() - 1 {
                    p[j].push('\n')
                } else {
                    p[j]
                }),
        decreases count - i,
    {
        let part = &parts[i];
        assert(p[i as int] == part@);
        let mut piece = slice_copy(part.as_slice(), 0, part.len());
        assert(part@.subrange(0, part@.len() as int) =~= part@);
        if i + 1 < n {
            piece.push('\n');
        }
        out.push(piece);
        i = i + 1;
    }
    assert(views(out@) =~= split_lines_inclusive(v@));
    out
}

/// Index of the last `c` in `v`.
pub fn last_index_vec(v: &[char], c: char) -> (r: Option<usize>)
    ensures
        match r {
            Some(k) => k == last_index_of(v@, c) && k < v.len(),
            None => last_index_of(v@, c) == -1,
        },
{
    let mut j: usize = v.len();
    assert(v@.take(v.len() as int) =~= v@);
    while j > 0 && v[j - 1] != c
        invariant
            j <= v.len(),
            last_index_of(v@, c) == last_index_of(v@.take(j as int), c),
        decreases j,
    {
        assert(v@.take(j as int).drop_last() =~= v@.take(j - 1));
        j = j - 1;
    }
    if j == 0 {
        None
    } else {
        Some(j - 1)
    }
}

/// Index of the first `c` in `v`: where `before_first` ends, when it ends before `v` does.
pub fn first_index_vec(v: &[char], c: char) -> (r: Option<usize>)
    ensures
        match r {
            Some(k) => k < v.len() && v@[k as int] == c && before_first(v@, c) == v@.take(k as int),
            None => before_first(v@, c) == v@,
        },
{
    let mut i: usize = 0;
    assert(v@.skip(0) =~= v@);
    assert(v@.take(0) =~= Seq::<char>::empty());
    while i < v.len() && v[i] != c
        invariant
            i <= v.len(),
            before_first(v@, c) == v@.take(i as int) + before_first(v@.skip(i as int), c),
        decreases v.len() - i,
    {
        assert(v@.skip(i as int).drop_first() =~= v@.skip(i + 1));
        assert(v@.take(i + 1) =~= v@.take(i as int) + seq![v@[i as int]]);
        i = i + 1;
    }
    if i == v.len() {
        assert(v@.take(i as int) =~= v@);
        assert(v@.take(i as int) + Seq::<char>::empty() =~= v@);
        None
    } else {
        assert(v@.take(i as int) + Seq::<char>::empty() =~= v@.take(i as int));
        Some(i)
    }
}

pub open spec fn digit_char(d: nat) -> char {
    ((48 + d) as u8) as char
}

/// Decimal notation of a number.
pub open spec fn decimal(n: nat) -> Seq<char>
    decreases n,
{
    if n < 10 {
        seq![digit_char(n)]
    } else {
        decimal(n / 10).push(digit_char(n % 10))
    }
}

/// Appends the decimal notation of `n`.
pub fn push_decimal(s: &mut String, n: u64)
    ensures
        final(s)@ == old(s)@ + decimal(n as nat),
    decreases n,
{
    if n >= 10 {
        push_decimal(s, n / 10);
    }
    let d = (n % 10) as u8;
    s.push((48 + d) as char);
    assert(s@ =~= old(s)@ + decimal(n as nat));
}

/// A decimal string of ASCII digits, with an optional leading `+`, at most `max`
/// (what `str::parse` accepts for an unsigned integer type whose largest value is `max`).
pub open spec fn parse_unsigned(s: Seq<char>, max: nat) -> Option<nat> {
    let digits = unsigned_digits(s);
    if digits.len() == 0 || !all_digits(digits) {
        None
    } else if digits_value(digits) > max {
        None
    } else {
        Some(digits_value(digits))
    }
}

/// The digits of an unsigned number: without one leading `+`.
pub open spec fn unsigned_digits(s: Seq<char>) -> Seq<char> {
    if s.len() > 0 && s[0] == '+' {
        s.skip(1)
    } else {
        s
    }
}

pub open spec fn all_digits(s: Seq<char>) -> bool {
    forall|i: int| 0 <= i < s.len() ==> is_ascii_digit(#[trigger] s[i])
}

/// The value of a string of decimal digits.
pub open spec fn digits_value(s: Seq<char>) -> nat
    decreases s.len(),
{
    if s.len() == 0 {
        0
    } else {
        10 * digits_value(s.drop_last()) + ((s.last() as int - 48) as nat)
    }
}

/// `str::parse` for an unsigned integer no larger than `max`.
pub fn parse_unsigned_vec(v: &[char], max: u64) -> (r: Option<u64>)
    ensures
        match parse_unsigned(v@, max as nat) {
            Some(n) => r == Some(n as u64),
            None => r is None,
        },
{
    let start: usize = if v.len() > 0 && v[0] == '+' {
        1
    } else {
        0
    };
    let ghost digits = unsigned_digits(v@);
    assert(digits =~= v@.skip(start as int));
    if start == v.len() {
        return None;
    }
    let mut value: u64 = 0;
    let mut i: usize = start;
    assert(v@.subrange(start as int, start as int) =~= Seq::<char>::empty());
    while i < v.len()
        invariant
            start <= i <= v.len(),
            start < v.len(),
            digits == v@.skip(start as int),
            digits == unsigned_digits(v@),
            value == digits_value(v@.subrange(start as int, i as int)),
            value <= max,
            forall|j: int| start <= j < i ==> is_ascii_digit(#[trigger] v@[j]),
        decreases v.len() - i,
    {
        let c = v[i];
        if !('0' <= c && c <= '9') {
            assert(!is_ascii_digit(digits[i - start]));
            assert(digits.len() > 0);
            return None;
        }
        let d = (c as u32 - 48) as u64;
        assert(v@.subrange(start as int, i + 1).drop_last() =~= v@.subrange(start as int, i as int));
        assert(v@.subrange(start as int, i + 1) =~= digits.take((i + 1 - start) as int));
        if d > max || value > (max - d) / 10 {
            assert(value * 10 + d > max) by (nonlinear_arith)
                requires
                    d > max || value > (max - d) / 10,
                    d <= 9,
            ;
            proof {
                lemma_overflow_means_none(digits, (i + 1 - start) as int, max as nat);
            }
            return None;
        }
        assert(value * 10 + d <= max) by (nonlinear_arith)
            requires
                d <= max,
                value <= (max - d) / 10,
        ;
        value = value * 10 + d;
        i = i + 1;
    }
    assert(v@.subrange(start as int, v.len() as int) =~= digits);
    Some(value)
}

pub proof fn lemma_overflow_means_none(digits: Seq<char>, k: int, max: nat)
    requires
        0 < k <= digits.len(),
        forall|j: int| 0 <= j < k ==> is_ascii_digit(#[trigger] digits[j]),
        digits_value(digits.take(k)) > max,
    ensures
        !all_digits(digits) || digits_value(digits) > max,
{
    if all_digits(digits) {
        lemma_digits_value_prefix(digits, k);
    }
}

/// A prefix of a digit string never has a larger value than the whole string.
pub proof fn lemma_digits_value_prefix(s: Seq<char>, k: int)
    requires
        0 <= k <= s.len(),
        forall|i: int| 0 <= i < s.len() ==> is_ascii_digit(#[trigger] s[i]),
    ensures
        digits_value(s.take(k)) <= digits_value(s),
    decreases s.len(),
{
    if k < s.len() {
        assert(s.drop_last().take(k) =~= s.take(k));
        lemma_digits_value_prefix(s.drop_last(), k);
    } else {
        assert(s.take(k) =~= s);
    }
}

/// Unicode lower-casing of a string (`str::to_lowercase`).
pub uninterp spec fn lowercase(s: Seq<char>) -> Seq<char>;

/// `str::to_lowercase`.
#[verifier::external_body]
pub fn to_lowercase(s: &str) -> (r: String)
    ensures
        r@ == lowercase(s@),
{
    s.to_lowercase()
}

} // verus!
