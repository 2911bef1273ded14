//! Facts about cutting text into lines and gluing the lines back together.
use crate::text::{
    concat, is_white_space, lemma_split_nonempty, lines, split, split_lines_inclusive, strip_cr, trim,
    trim_start, ws_prefix_len, ws_suffix_len,
};
use vstd::prelude::*;

verus! {

/// No piece of a split holds the separator.
pub proof fn lemma_split_pieces_free(s: Seq<char>, sep: char)
    ensures
        forall|i: int, j: int|
            0 <= i < split(s, sep).len() && 0 <= j < split(s, sep)[i].len() ==> split(
                s,
                sep,
            )[i][j] != sep,
    decreases s.len(),
{
    lemma_split_nonempty(s, sep);
    if s.len() > 0 {
        lemma_split_pieces_free(s.drop_last(), sep);
        lemma_split_nonempty(s.drop_last(), sep);
        let r = split(s.drop_last(), sep);
        let p = split(s, sep);
        assert forall|i: int, j: int| 0 <= i < p.len() && 0 <= j < p[i].len() implies p[i][j]
            != sep by {
            if s.last() == sep {
                if i < r.len() {
                    assert(p[i] == r[i]);
                }
            } else {
                if i < r.len() - 1 {
                    assert(p[i] == r[i]);
                } else {
                    assert(p[i] == r[r.len() - 1].push(s.last()));
                    if j < r[r.len() - 1].len() {
                        assert(p[i][j] == r[r.len() - 1][j]);
                    }
                }
            }
        }
    }
}

/// Text without the separator is one piece.
pub proof fn lemma_split_without_sep(s: Seq<char>, sep: char)
    requires
        forall|j: int| 0 <= j < s.len() ==> s[j] != sep,
    ensures
        split(s, sep) == seq![s],
    decreases s.len(),
{
    if s.len() > 0 {
        lemma_split_without_sep(s.drop_last(), sep);
        assert(s.drop_last().push(s.last()) =~= s);
        assert(split(s, sep) =~= seq![s]);
    } else {
        assert(s =~= Seq::<char>::empty());
    }
}

/// Splitting text that follows a separator (or nothing) continues the pieces before it.
pub proof fn lemma_split_after_sep(a: Seq<char>, b: Seq<char>, sep: char)
    requires
        a.len() == 0 || a.last() == sep,
    ensures
        split(a + b, sep) == split(a, sep).drop_last() + split(b, sep),
    decreases b.len(),
{
    lemma_split_nonempty(a, sep);
    if b.len() == 0 {
        assert(a + b =~= a);
        if a.len() > 0 {
            assert(split(a, sep) == split(a.drop_last(), sep).push(Seq::<char>::empty()));
        }
        assert(split(a, sep).drop_last() + split(b, sep) =~= split(a, sep));
    } else {
        let b1 = b.drop_last();
        lemma_split_after_sep(a, b1, sep);
        lemma_split_nonempty(b1, sep);
        assert((a + b).drop_last() =~= a + b1);
        assert((a + b).last() == b.last());
        let x = split(a, sep).drop_last();
        if b.last() == sep {
            assert(split(a + b, sep) =~= x + split(b, sep));
        } else {
            assert(split(a + b, sep) =~= x + split(b, sep));
        }
    }
}

/// The lines of text that follows a line break (or nothing) continue the lines before it.
pub proof fn lemma_lines_after_newline(a: Seq<char>, b: Seq<char>)
    requires
        a.len() == 0 || a.last() == '\n',
    ensures
        split_lines_inclusive(a + b) == split_lines_inclusive(a) + split_lines_inclusive(b),
{
    lemma_split_after_sep(a, b, '\n');
    lemma_split_nonempty(a, '\n');
    lemma_split_nonempty(b, '\n');
    let pa = split(a, '\n');
    let pb = split(b, '\n');
    if a.len() > 0 {
        assert(pa == split(a.drop_last(), '\n').push(Seq::<char>::empty()));
    }
    assert(pa.last().len() == 0);
    let p = split(a + b, '\n');
    let m = pa.len() - 1;
    assert(p.last() == pb.last());
    let la = split_lines_inclusive(a);
    let lb = split_lines_inclusive(b);
    let lab = split_lines_inclusive(a + b);
    assert(la.len() == m);
    assert(lab.len() == la.len() + lb.len());
    assert forall|i: int| 0 <= i < lab.len() implies lab[i] == (la + lb)[i] by {
        if i < m {
            assert(p[i] == pa[i]);
        } else {
            assert(p[i] == pb[i - m]);
        }
    }
    assert(lab =~= la + lb);
}

/// Lines as `split_lines_inclusive` gives them: none empty, `'\n'` only as a last
/// character, and each line but the last ending in `'\n'`.
pub open spec fn line_shaped(ls: Seq<Seq<char>>) -> bool {
    &&& forall|i: int| 0 <= i < ls.len() ==> #[trigger] ls[i].len() > 0
    &&& forall|i: int, j: int|
        0 <= i < ls.len() && 0 <= j < ls[i].len() - 1 ==> #[trigger] ls[i][j] != '\n'
    &&& forall|i: int| 0 <= i < ls.len() - 1 ==> #[trigger] ls[i].last() == '\n'
}

/// A line with `'\n'` at most as its last character is one line.
pub proof fn lemma_lines_of_line(line: Seq<char>)
    requires
        line.len() > 0,
        forall|j: int| 0 <= j < line.len() - 1 ==> line[j] != '\n',
    ensures
        split_lines_inclusive(line) == seq![line],
{
    if line.last() == '\n' {
        let w = line.drop_last();
        lemma_split_without_sep(w, '\n');
        assert(w.push('\n') =~= line);
        assert(split(line, '\n') == split(w, '\n').push(Seq::<char>::empty()));
    } else {
        lemma_split_without_sep(line, '\n');
    }
    assert(split_lines_inclusive(line) =~= seq![line]);
}

/// Gluing two runs of pieces glues their gluings.
pub proof fn lemma_concat_append(x: Seq<Seq<char>>, y: Seq<Seq<char>>)
    ensures
        concat(x + y) == concat(x) + concat(y),
    decreases y.len(),
{
    if y.len() == 0 {
        assert(x + y =~= x);
        assert(concat(x) + concat(y) =~= concat(x));
    } else {
        lemma_concat_append(x, y.drop_last());
        assert((x + y).drop_last() =~= x + y.drop_last());
        assert(concat(x + y) =~= concat(x) + concat(y));
    }
}

/// One piece glued is that piece.
pub proof fn lemma_concat_single(line: Seq<char>)
    ensures
        concat(seq![line]) == line,
{
    assert(seq![line].drop_last() =~= Seq::<Seq<char>>::empty());
    assert(seq![line].last() == line);
    assert(concat(seq![line]) =~= concat(Seq::<Seq<char>>::empty()) + line);
}

/// Line-shaped lines glued together cut back into themselves.
pub proof fn lemma_lines_of_concat(ls: Seq<Seq<char>>)
    requires
        line_shaped(ls),
    ensures
        split_lines_inclusive(concat(ls)) == ls,
    decreases ls.len(),
{
    if ls.len() == 0 {
        assert(split_lines_inclusive(concat(ls)) =~= ls);
    } else {
        let init = ls.drop_last();
        assert forall|i: int| 0 <= i < init.len() - 1 implies #[trigger] init[i].last() == '\n' by {
            assert(init[i] == ls[i]);
        }
        assert forall|i: int, j: int|
            0 <= i < init.len() && 0 <= j < init[i].len() - 1 implies #[trigger] init[i][j]
            != '\n' by {
            assert(init[i] == ls[i]);
        }
        assert(line_shaped(init));
        lemma_lines_of_concat(init);
        let last = ls[ls.len() - 1];
        assert forall|j: int| 0 <= j < last.len() - 1 implies last[j] != '\n' by {
            assert(ls[ls.len() - 1][j] != '\n');
        }
        lemma_lines_of_line(last);
        if init.len() > 0 {
            let prev = init[init.len() - 1];
            assert(prev == ls[ls.len() - 2]);
            assert(prev.len() > 0);
            assert(concat(init) == concat(init.drop_last()) + prev);
            assert(concat(init).last() == prev.last());
        }
        lemma_lines_after_newline(concat(init), last);
        assert(concat(ls) == concat(init) + last);
        assert(init + seq![last] =~= ls);
    }
}

/// The split pieces with their separators put back, as `split_lines_inclusive` does before
/// it drops an empty last piece.
spec fn rejoined(p: Seq<Seq<char>>) -> Seq<Seq<char>> {
    Seq::new(p.len(), |i: int| if i < p.len() - 1 { p[i].push('\n') } else { p[i] })
}

proof fn lemma_rejoined_split(s: Seq<char>)
    ensures
        concat(rejoined(split(s, '\n'))) == s,
    decreases s.len(),
{
    lemma_split_nonempty(s, '\n');
    if s.len() == 0 {
        let g = rejoined(split(s, '\n'));
        assert(split(s, '\n') == seq![Seq::<char>::empty()]);
        assert(g.len() == 1);
        assert(g[0] == Seq::<char>::empty());
        assert(g.drop_last() =~= Seq::<Seq<char>>::empty());
        assert(concat(g) == concat(g.drop_last()) + g[0]);
        assert(concat(g) =~= s);
    } else {
        let s1 = s.drop_last();
        lemma_rejoined_split(s1);
        lemma_split_nonempty(s1, '\n');
        let r = split(s1, '\n');
        let p = split(s, '\n');
        let g = rejoined(r);
        let h = rejoined(p);
        assert(concat(g) == concat(g.drop_last()) + r.last());
        if s.last() == '\n' {
            assert(h.drop_last().drop_last() =~= g.drop_last());
            assert(h.drop_last().last() == r.last().push('\n'));
            assert(h.last() =~= Seq::<char>::empty());
            assert(concat(h.drop_last()) == concat(g.drop_last()) + r.last().push('\n'));
            assert(concat(h) =~= concat(h.drop_last()));
        } else {
            assert(h.drop_last() =~= g.drop_last());
            assert(h.last() == r.last().push(s.last()));
        }
        assert(s1.push(s.last()) =~= s);
        assert(concat(h) =~= s);
    }
}

/// The lines of a text glue back into the text.
pub proof fn lemma_concat_lines(s: Seq<char>)
    ensures
        concat(split_lines_inclusive(s)) == s,
{
    lemma_rejoined_split(s);
    lemma_split_nonempty(s, '\n');
    let p = split(s, '\n');
    let g = rejoined(p);
    if p.last().len() == 0 {
        assert(split_lines_inclusive(s) =~= g.drop_last());
        assert(g.last() =~= Seq::<char>::empty());
        assert(concat(g) =~= concat(g.drop_last()));
    } else {
        assert(split_lines_inclusive(s) =~= g);
    }
}

/// The lines of any text are line-shaped.
pub proof fn lemma_lines_shaped(s: Seq<char>)
    ensures
        line_shaped(split_lines_inclusive(s)),
{
    lemma_split_pieces_free(s, '\n');
    lemma_split_nonempty(s, '\n');
    let p = split(s, '\n');
    let ls = split_lines_inclusive(s);
    assert forall|i: int| 0 <= i < ls.len() implies #[trigger] ls[i].len() > 0 by {
        if i < p.len() - 1 {
            assert(ls[i] == p[i].push('\n'));
        } else {
            assert(ls[i] == p[i]);
        }
    }
    assert forall|i: int, j: int| 0 <= i < ls.len() && 0 <= j < ls[i].len() - 1 implies #[trigger] ls[i][j]
        != '\n' by {
        if i < p.len() - 1 {
            assert(ls[i] == p[i].push('\n'));
            assert(ls[i][j] == p[i][j]);
        } else {
            assert(ls[i] == p[i]);
        }
    }
    assert forall|i: int| 0 <= i < ls.len() - 1 implies #[trigger] ls[i].last() == '\n' by {
        assert(ls[i] == p[i].push('\n'));
    }
}

/// The line break a line ends with: `"\r\n"`, `"\n"`, or none.
pub open spec fn line_ending(line: Seq<char>) -> Seq<char> {
    if seq!['\r', '\n'].is_suffix_of(line) {
        seq!['\r', '\n']
    } else if seq!['\n'].is_suffix_of(line) {
        seq!['\n']
    } else {
        Seq::<char>::empty()
    }
}

/// A line as `str::lines` gives it: without its `'\n'`, and without a `'\r'` before that.
pub open spec fn line_text(l: Seq<char>) -> Seq<char> {
    if l.len() > 0 && l.last() == '\n' {
        strip_cr(l.drop_last())
    } else {
        l
    }
}

/// `str::lines` gives the lines of `split_inclusive('\n')` without their line breaks.
pub proof fn lemma_lines_text(s: Seq<char>)
    ensures
        lines(s).len() == split_lines_inclusive(s).len(),
        forall|i: int|
            0 <= i < lines(s).len() ==> #[trigger] lines(s)[i] == line_text(
                split_lines_inclusive(s)[i],
            ),
{
    lemma_split_pieces_free(s, '\n');
    lemma_split_nonempty(s, '\n');
    let p = split(s, '\n');
    let big = split_lines_inclusive(s);
    let ls = lines(s);
    assert forall|i: int| 0 <= i < ls.len() implies #[trigger] ls[i] == line_text(big[i]) by {
        if i < p.len() - 1 {
            assert(big[i] == p[i].push('\n'));
            assert(big[i].drop_last() =~= p[i]);
        } else {
            assert(big[i] == p[i]);
            assert(p[i].len() > 0);
            assert(p[i][p[i].len() - 1] != '\n');
        }
    }
}

/// A line is blank exactly when its text without the line break is.
pub proof fn lemma_line_text_blank(l: Seq<char>)
    ensures
        trim(line_text(l)).len() == 0 <==> trim(l).len() == 0,
{
    let x = line_text(l);
    lemma_trim_blank(l);
    lemma_trim_blank(x);
    let m = x.len() as int;
    assert(x =~= l.take(m));
    assert forall|j: int| m <= j < l.len() implies is_white_space(#[trigger] l[j]) by {
        if j == l.len() - 1 {
            assert(l[j] == '\n');
        } else {
            assert(l.drop_last()[j] == '\r');
        }
    }
    if trim(x).len() == 0 {
        assert forall|j: int| 0 <= j < l.len() implies is_white_space(#[trigger] l[j]) by {
            if j < m {
                assert(l[j] == x[j]);
            }
        }
    }
    if trim(l).len() == 0 {
        assert forall|j: int| 0 <= j < x.len() implies is_white_space(#[trigger] x[j]) by {
            assert(x[j] == l[j]);
        }
    }
}

/// A string trims to nothing exactly when all of it is white space.
pub proof fn lemma_trim_blank(s: Seq<char>)
    ensures
        trim(s).len() == 0 <==> forall|j: int| 0 <= j < s.len() ==> is_white_space(#[trigger] s[j]),
{
    lemma_ws_prefix(s);
    let u = trim_start(s);
    let w = ws_prefix_len(s) as int;
    lemma_ws_suffix(u);
    if forall|j: int| 0 <= j < s.len() ==> is_white_space(#[trigger] s[j]) {
        if w < s.len() {
            assert(is_white_space(s[w]));
        }
        assert(u.len() == 0);
    }
    if trim(s).len() == 0 {
        assert forall|j: int| 0 <= j < s.len() implies is_white_space(#[trigger] s[j]) by {
            if j >= w {
                assert(s[j] == u[j - w]);
                assert(is_white_space(u[j - w]));
            }
        }
    }
}

/// Leading white space: how far it reaches, and that it stops at a character that is not.
pub proof fn lemma_ws_prefix(s: Seq<char>)
    ensures
        ws_prefix_len(s) <= s.len(),
        forall|j: int| 0 <= j < ws_prefix_len(s) ==> is_white_space(#[trigger] s[j]),
        ws_prefix_len(s) < s.len() ==> !is_white_space(s[ws_prefix_len(s) as int]),
    decreases s.len(),
{
    if s.len() > 0 && is_white_space(s[0]) {
        let r = s.drop_first();
        lemma_ws_prefix(r);
        assert forall|j: int| 0 <= j < ws_prefix_len(s) implies is_white_space(#[trigger] s[j]) by {
            if j > 0 {
                assert(s[j] == r[j - 1]);
            }
        }
        if ws_prefix_len(s) < s.len() {
            assert(s[ws_prefix_len(s) as int] == r[ws_prefix_len(r) as int]);
        }
    }
}

/// Trailing white space: how far it reaches, and that it stops at a character that is not.
pub proof fn lemma_ws_suffix(s: Seq<char>)
    ensures
        ws_suffix_len(s) <= s.len(),
        forall|j: int| s.len() - ws_suffix_len(s) <= j < s.len() ==> is_white_space(#[trigger] s[j]),
        ws_suffix_len(s) < s.len() ==> !is_white_space(s[s.len() - ws_suffix_len(s) - 1]),
    decreases s.len(),
{
    if s.len() > 0 && is_white_space(s.last()) {
        let r = s.drop_last();
        lemma_ws_suffix(r);
        assert forall|j: int| s.len() - ws_suffix_len(s) <= j < s.len() implies is_white_space(#[trigger] s[j]) by {
            if j < s.len() - 1 {
                assert(s[j] == r[j]);
            }
        }
        if ws_suffix_len(s) < s.len() {
            assert(s[s.len() - ws_suffix_len(s) - 1] == r[r.len() - ws_suffix_len(r) - 1]);
        }
    }
}

/// Putting a line-shaped line in place of another keeps the lines line-shaped.
pub proof fn lemma_shaped_update(ls: Seq<Seq<char>>, k: int, h: Seq<char>)
    requires
        line_shaped(ls),
        0 <= k < ls.len(),
        h.len() > 0,
        forall|j: int| 0 <= j < h.len() - 1 ==> h[j] != '\n',
        k < ls.len() - 1 ==> h.last() == '\n',
    ensures
        line_shaped(ls.update(k, h)),
{
    let ls1 = ls.update(k, h);
    assert forall|i: int| 0 <= i < ls1.len() - 1 implies #[trigger] ls1[i].last() == '\n' by {
        if i != k {
            assert(ls1[i] == ls[i]);
        }
    }
    assert forall|i: int, j: int| 0 <= i < ls1.len() && 0 <= j < ls1[i].len() - 1 implies #[trigger] ls1[i][j]
        != '\n' by {
        if i != k {
            assert(ls1[i] == ls[i]);
        }
    }
    assert forall|i: int| 0 <= i < ls1.len() implies #[trigger] ls1[i].len() > 0 by {
        if i != k {
            assert(ls1[i] == ls[i]);
        }
    }
}

/// Text without a line break.
pub open spec fn no_newline(s: Seq<char>) -> bool {
    forall|j: int| 0 <= j < s.len() ==> s[j] != '\n'
}

/// A split has at most one piece more than the text has characters.
pub proof fn lemma_split_len(s: Seq<char>, sep: char)
    ensures
        split(s, sep).len() <= s.len() + 1,
    decreases s.len(),
{
    if s.len() > 0 {
        lemma_split_len(s.drop_last(), sep);
        lemma_split_nonempty(s.drop_last(), sep);
    } else {
        assert(split(s, sep) =~= seq![Seq::<char>::empty()]);
    }
}

/// Text has at most one line more than it has characters.
pub proof fn lemma_lines_len(s: Seq<char>)
    ensures
        lines(s).len() <= s.len() + 1,
{
    lemma_split_len(s, '\n');
    lemma_split_nonempty(s, '\n');
}

/// Leading white space that stops inside `a` stops at the same place in `a + b`.
pub proof fn lemma_ws_prefix_extend(a: Seq<char>, b: Seq<char>)
    requires
        ws_prefix_len(a) < a.len(),
    ensures
        ws_prefix_len(a + b) == ws_prefix_len(a),
    decreases a.len(),
{
    if is_white_space(a[0]) {
        assert((a + b).drop_first() =~= a.drop_first() + b);
        lemma_ws_prefix_extend(a.drop_first(), b);
    } else {
        assert((a + b)[0] == a[0]);
    }
}

/// White space followed by a character that is not: the leading white space is exactly the
/// first part.
pub proof fn lemma_ws_prefix_after(a: Seq<char>, b: Seq<char>)
    requires
        forall|j: int| 0 <= j < a.len() ==> is_white_space(#[trigger] a[j]),
        b.len() > 0,
        !is_white_space(b[0]),
    ensures
        ws_prefix_len(a + b) == a.len(),
    decreases a.len(),
{
    if a.len() > 0 {
        assert((a + b).drop_first() =~= a.drop_first() + b);
        assert(is_white_space(a[0]));
        assert forall|j: int| 0 <= j < a.drop_first().len() implies is_white_space(
            #[trigger] a.drop_first()[j],
        ) by {
            assert(a.drop_first()[j] == a[j + 1]);
        }
        lemma_ws_prefix_after(a.drop_first(), b);
    } else {
        assert(a + b =~= b);
    }
}

/// Trimming ignores one more white-space character at the end.
pub proof fn lemma_trim_drop_ws(s: Seq<char>)
    requires
        s.len() > 0,
        is_white_space(s.last()),
    ensures
        trim(s.drop_last()) == trim(s),
{
    let a = s.drop_last();
    assert(a.push(s.last()) =~= s);
    lemma_trim_blank(a);
    lemma_trim_blank(s);
    lemma_ws_prefix(a);
    if forall|j: int| 0 <= j < a.len() ==> is_white_space(#[trigger] a[j]) {
        assert forall|j: int| 0 <= j < s.len() implies is_white_space(#[trigger] s[j]) by {
            if j < a.len() {
                assert(s[j] == a[j]);
            }
        }
        assert(trim(a) =~= trim(s));
    } else {
        if ws_prefix_len(a) == a.len() {
            assert forall|j: int| 0 <= j < a.len() implies is_white_space(#[trigger] a[j]) by {}
        }
        lemma_ws_prefix_extend(a, seq![s.last()]);
        assert(a + seq![s.last()] =~= s);
        let w = ws_prefix_len(a) as int;
        let u = trim_start(a);
        assert(trim_start(s) =~= u.push(s.last()));
        assert(u.push(s.last()).drop_last() =~= u);
        assert(ws_suffix_len(u.push(s.last())) == 1 + ws_suffix_len(u));
        lemma_ws_suffix(u);
        assert(trim(s) =~= trim(a));
    }
}

} // verus!
