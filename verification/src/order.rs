//! The order of strings (`Ord for str`) and sorted lists of strings.
//!
//! `str` compares by UTF-8 bytes; UTF-8 keeps the order of scalar values, so comparing
//! the scalar sequences character by character gives the same order.
use crate::text::chars_of;
use vstd::multiset::Multiset;
use vstd::prelude::*;

verus! {

/// `a < b` in the order of `str`.
pub open spec fn lex_lt(a: Seq<char>, b: Seq<char>) -> bool
    decreases a.len(),
{
    if b.len() == 0 {
        false
    } else if a.len() == 0 {
        true
    } else if a[0] != b[0] {
        a[0] < b[0]
    } else {
        lex_lt(a.drop_first(), b.drop_first())
    }
}

/// `a <= b` in the order of `str`.
pub open spec fn lex_le(a: Seq<char>, b: Seq<char>) -> bool {
    a == b || lex_lt(a, b)
}

/// The character views of a list of strings.
pub open spec fn strs(v: Seq<String>) -> Seq<Seq<char>> {
    v.map_values(|s: String| s@)
}

/// Each string is at most the next one.
pub open spec fn sorted(s: Seq<Seq<char>>) -> bool {
    forall|i: int, j: int| 0 <= i < j < s.len() ==> lex_le(#[trigger] s[i], #[trigger] s[j])
}

/// Each string is below the next one: sorted, and no string occurs twice.
pub open spec fn strictly_sorted(s: Seq<Seq<char>>) -> bool {
    forall|i: int, j: int| 0 <= i < j < s.len() ==> lex_lt(#[trigger] s[i], #[trigger] s[j])
}

pub proof fn lemma_lex_irreflexive(a: Seq<char>)
    ensures
        !lex_lt(a, a),
    decreases a.len(),
{
    if a.len() > 0 {
        lemma_lex_irreflexive(a.drop_first());
    }
}

pub proof fn lemma_lex_asymmetric(a: Seq<char>, b: Seq<char>)
    ensures
        !(lex_lt(a, b) && lex_lt(b, a)),
    decreases a.len(),
{
    if a.len() > 0 && b.len() > 0 && a[0] == b[0] {
        lemma_lex_asymmetric(a.drop_first(), b.drop_first());
    }
}

pub proof fn lemma_lex_total(a: Seq<char>, b: Seq<char>)
    ensures
        a == b || lex_lt(a, b) || lex_lt(b, a),
    decreases a.len(),
{
    if a.len() == 0 && b.len() == 0 {
        assert(a =~= b);
    } else if a.len() > 0 && b.len() > 0 {
        if a[0] == b[0] {
            lemma_lex_total(a.drop_first(), b.drop_first());
            if a.drop_first() == b.drop_first() {
                assert(a =~= seq![a[0]] + a.drop_first());
                assert(b =~= seq![b[0]] + b.drop_first());
            }
        }
    }
}

pub proof fn lemma_lex_transitive(a: Seq<char>, b: Seq<char>, c: Seq<char>)
    requires
        lex_lt(a, b),
        lex_lt(b, c),
    ensures
        lex_lt(a, c),
    decreases a.len(),
{
    if a.len() > 0 && a[0] == b[0] && b[0] == c[0] {
        lemma_lex_transitive(a.drop_first(), b.drop_first(), c.drop_first());
    }
}

pub proof fn lemma_lex_le_transitive(a: Seq<char>, b: Seq<char>, c: Seq<char>)
    requires
        lex_le(a, b),
        lex_le(b, c),
    ensures
        lex_le(a, c),
{
    if lex_lt(a, b) && lex_lt(b, c) {
        lemma_lex_transitive(a, b, c);
    }
}

/// `lex_lt` after a common prefix of length `i` is decided by what follows it.
proof fn lemma_lex_skip(a: Seq<char>, b: Seq<char>, i: int)
    requires
        0 <= i <= a.len(),
        i <= b.len(),
        a.subrange(0, i) == b.subrange(0, i),
    ensures
        lex_lt(a, b) == lex_lt(a.skip(i), b.skip(i)),
    decreases i,
{
    if i > 0 {
        assert(a[0] == a.subrange(0, i)[0]);
        assert(b[0] == b.subrange(0, i)[0]);
        assert(a.drop_first().subrange(0, i - 1) =~= a.subrange(0, i).drop_first());
        assert(b.drop_first().subrange(0, i - 1) =~= b.subrange(0, i).drop_first());
        lemma_lex_skip(a.drop_first(), b.drop_first(), i - 1);
        assert(a.drop_first().skip(i - 1) =~= a.skip(i));
        assert(b.drop_first().skip(i - 1) =~= b.skip(i));
    } else {
        assert(a.skip(0) =~= a);
        assert(b.skip(0) =~= b);
    }
}

/// Whether `a < b` in the order of `str`.
pub fn chars_lt(a: &[char], b: &[char]) -> (r: bool)
    ensures
        r == lex_lt(a@, b@),
{
    let mut i: usize = 0;
    while i < a.len() && i < b.len() && a[i] == b[i]
        invariant
            i <= a.len(),
            i <= b.len(),
            a@.subrange(0, i as int) == b@.subrange(0, i as int),
        decreases a.len() - i,
    {
        assert(a@.subrange(0, i + 1) =~= a@.subrange(0, i as int).push(a@[i as int]));
        assert(b@.subrange(0, i + 1) =~= b@.subrange(0, i as int).push(b@[i as int]));
        i = i + 1;
    }
    proof {
        lemma_lex_skip(a@, b@, i as int);
    }
    if i == b.len() {
        false
    } else if i == a.len() {
        true
    } else {
        a[i] < b[i]
    }
}

/// Whether `a < b` in the order of `str`.
pub fn str_lt(a: &str, b: &str) -> (r: bool)
    ensures
        r == lex_lt(a@, b@),
{
    let x = chars_of(a);
    let y = chars_of(b);
    chars_lt(x.as_slice(), y.as_slice())
}

/// Whether two strings are equal.
pub fn str_eq(a: &str, b: &str) -> (r: bool)
    ensures
        r == (a@ == b@),
{
    let x = chars_of(a);
    let y = chars_of(b);
    crate::text::eq_chars(x.as_slice(), y.as_slice())
}

pub proof fn lemma_empty_multiset(s: Seq<Seq<char>>)
    requires
        s.len() == 0,
    ensures
        s.to_multiset() == Multiset::<Seq<char>>::empty(),
{
    s.to_multiset_ensures();
    vstd::multiset::lemma_multiset_empty_len(s.to_multiset());
}

pub proof fn lemma_insert_multiset(s: Seq<Seq<char>>, pos: int, x: Seq<char>)
    requires
        0 <= pos <= s.len(),
    ensures
        s.insert(pos, x).to_multiset() == s.to_multiset().insert(x),
{
    let l = s.subrange(0, pos);
    let r = s.subrange(pos, s.len() as int);
    assert(s =~= l + r);
    assert(s.insert(pos, x) =~= l.push(x) + r);
    vstd::seq_lib::lemma_multiset_commutative(l, r);
    vstd::seq_lib::lemma_multiset_commutative(l.push(x), r);
    l.to_multiset_ensures();
    assert(l.push(x).to_multiset() =~= l.to_multiset().insert(x));
    assert(l.push(x).to_multiset().add(r.to_multiset()) =~= l.to_multiset().add(
        r.to_multiset(),
    ).insert(x));
}

/// Puts `x` into a sorted list after the strings at most `x`, keeping it sorted.
pub fn insert_sorted(v: &mut Vec<String>, x: String)
    requires
        sorted(strs(old(v)@)),
    ensures
        sorted(strs(final(v)@)),
        strs(final(v)@).to_multiset() == strs(old(v)@).to_multiset().insert(x@),
        final(v)@.len() == old(v)@.len() + 1,
{
    let ghost s = strs(v@);
    let mut pos: usize = 0;
    while pos < v.len() && !str_lt(x.as_str(), v[pos].as_str())
        invariant
            pos <= v.len(),
            s == strs(v@),
            forall|k: int| 0 <= k < pos ==> lex_le(#[trigger] s[k], x@),
        decreases v.len() - pos,
    {
        proof {
            lemma_lex_total(x@, s[pos as int]);
        }
        pos = pos + 1;
    }
    let ghost xv = x@;
    v.insert(pos, x);
    proof {
        let t = strs(v@);
        assert(t =~= s.insert(pos as int, xv));
        lemma_insert_multiset(s, pos as int, xv);
        assert forall|i: int, j: int| 0 <= i < j < t.len() implies lex_le(
            #[trigger] t[i],
            #[trigger] t[j],
        ) by {
            if j < pos {
                assert(t[i] == s[i] && t[j] == s[j]);
            } else if j == pos {
                assert(t[i] == s[i]);
            } else if i == pos {
                assert(t[j] == s[j - 1]);
                if pos < s.len() {
                    assert(lex_lt(xv, s[pos as int]));
                    if j - 1 > pos {
                        assert(lex_le(s[pos as int], s[j - 1]));
                        lemma_lex_le_transitive(xv, s[pos as int], s[j - 1]);
                    }
                }
            } else if i < pos {
                assert(t[i] == s[i] && t[j] == s[j - 1]);
            } else {
                assert(t[i] == s[i - 1] && t[j] == s[j - 1]);
            }
        }
    }
}

/// The strings in `str` order: `slice::sort` on strings.
pub fn sort_strings(v: Vec<String>) -> (r: Vec<String>)
    ensures
        sorted(strs(r@)),
        strs(r@).to_multiset() == strs(v@).to_multiset(),
{
    let mut r: Vec<String> = Vec::new();
    let mut rest = v;
    let ghost all = strs(rest@);
    proof {
        lemma_empty_multiset(strs(r@));
        assert(Multiset::<Seq<char>>::empty().add(all.to_multiset()) =~= all.to_multiset());
    }
    while rest.len() > 0
        invariant
            sorted(strs(r@)),
            strs(r@).to_multiset().add(strs(rest@).to_multiset()) == all.to_multiset(),
        decreases rest.len(),
    {
        let ghost before = strs(rest@);
        let x = rest.pop().unwrap();
        proof {
            assert(before =~= strs(rest@).push(x@));
            strs(rest@).to_multiset_ensures();
        }
        let ghost rb = strs(r@);
        insert_sorted(&mut r, x);
        proof {
            assert(strs(r@).to_multiset().add(strs(rest@).to_multiset()) =~= rb.to_multiset().add(
                before.to_multiset(),
            ));
        }
    }
    proof {
        assert(strs(rest@) =~= Seq::<Seq<char>>::empty());
        lemma_empty_multiset(strs(rest@));
        assert(strs(r@).to_multiset().add(Multiset::empty()) =~= strs(r@).to_multiset());
    }
    r
}

/// Adds `x` to a strictly sorted list unless it is there already; says whether it was added.
pub fn insert_unique(v: &mut Vec<String>, x: String) -> (added: bool)
    requires
        strictly_sorted(strs(old(v)@)),
    ensures
        strictly_sorted(strs(final(v)@)),
        strs(final(v)@).to_set() == strs(old(v)@).to_set().insert(x@),
        added == !strs(old(v)@).contains(x@),
        added ==> final(v)@.len() == old(v)@.len() + 1,
        !added ==> final(v)@ == old(v)@,
{
    let ghost s = strs(v@);
    let mut pos: usize = 0;
    while pos < v.len() && str_lt(v[pos].as_str(), x.as_str())
        invariant
            pos <= v.len(),
            s == strs(v@),
            strictly_sorted(s),
            forall|k: int| 0 <= k < pos ==> lex_lt(#[trigger] s[k], x@),
        decreases v.len() - pos,
    {
        pos = pos + 1;
    }
    if pos < v.len() && str_eq(v[pos].as_str(), x.as_str()) {
        proof {
            assert(s[pos as int] == v@[pos as int]@);
            assert(s.contains(x@));
            assert(s.to_set().insert(x@) =~= s.to_set());
        }
        return false;
    }
    proof {
        if pos < s.len() {
            lemma_lex_total(s[pos as int], x@);
        }
        assert forall|k: int| 0 <= k < s.len() implies #[trigger] s[k] != x@ by {
            if k < pos {
                lemma_lex_irreflexive(x@);
            } else {
                if k > pos {
                    lemma_lex_transitive(x@, s[pos as int], s[k]);
                }
                lemma_lex_irreflexive(x@);
            }
        }
    }
    let ghost xv = x@;
    v.insert(pos, x);
    proof {
        let t = strs(v@);
        assert(t =~= s.insert(pos as int, xv));
        assert forall|i: int, j: int| 0 <= i < j < t.len() implies lex_lt(
            #[trigger] t[i],
            #[trigger] t[j],
        ) by {
            if j < pos {
                assert(t[i] == s[i] && t[j] == s[j]);
            } else if j == pos {
                assert(t[i] == s[i]);
            } else if i == pos {
                assert(t[j] == s[j - 1]);
                if j - 1 > pos {
                    lemma_lex_transitive(xv, s[pos as int], s[j - 1]);
                }
            } else if i < pos {
                assert(t[i] == s[i] && t[j] == s[j - 1]);
            } else {
                assert(t[i] == s[i - 1] && t[j] == s[j - 1]);
            }
        }
        assert forall|y: Seq<char>| t.to_set().contains(y) <==> s.to_set().insert(xv).contains(y) by {
            if t.contains(y) {
                let k = choose|k: int| 0 <= k < t.len() && t[k] == y;
                if k < pos {
                    assert(s[k] == y);
                } else if k > pos {
                    assert(s[k - 1] == y);
                }
            }
            if s.contains(y) {
                let k = choose|k: int| 0 <= k < s.len() && s[k] == y;
                if k < pos {
                    assert(t[k] == y);
                } else {
                    assert(t[k + 1] == y);
                }
            }
            if y == xv {
                assert(t[pos as int] == y);
            }
        }
        assert(t.to_set() =~= s.to_set().insert(xv));
    }
    true
}

} // verus!
