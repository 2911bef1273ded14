//! Browsing the notes of the vault: which notes a folder view shows, newest first, one page
//! at a time.
use crate::note::{archived_folder, is_archived_folder, NoteSummary, LIST_LIMIT};
use crate::order::{lex_le, lex_lt, str_lt};
use crate::paths::{lemma_slash_prefix_inside, lies_inside};
use crate::text::chars_of;
use vstd::prelude::*;

verus! {

/// Whether a note in folder `actual` shows in a view of `folder`: in it (or, unless `exact`,
/// below it) when a folder is chosen, and outside `Archive` unless archived notes are asked for.
pub open spec fn shown_in(actual: Seq<char>, folder: Seq<char>, exact: bool, archive: bool) -> bool {
    &&& !(folder.len() > 0 && actual != folder && (exact || !folder.push('/').is_prefix_of(actual)))
    &&& !(!archive && archived_folder(actual))
}

/// Whether a view of `folder` lists archived notes: it is `Archive` or inside it, or asks.
pub open spec fn archive_view(folder: Seq<char>, asked: bool) -> bool {
    archived_folder(folder) || asked
}

/// The notes a view shows, in their stored order.
pub open spec fn kept(items: Seq<NoteSummary>, folder: Seq<char>, exact: bool, archive: bool) -> Seq<NoteSummary>
    decreases items.len(),
{
    if items.len() == 0 {
        items
    } else if shown_in(items.last().folder@, folder, exact, archive) {
        kept(items.drop_last(), folder, exact, archive).push(items.last())
    } else {
        kept(items.drop_last(), folder, exact, archive)
    }
}

/// `a` comes no later than `b`: more recently updated first, then by ID.
pub open spec fn no_later(a: NoteSummary, b: NoteSummary) -> bool {
    a.updated_at > b.updated_at || (a.updated_at == b.updated_at && lex_le(a.id@, b.id@))
}

pub open spec fn newest_first(s: Seq<NoteSummary>) -> bool {
    forall|i: int, j: int| 0 <= i < j < s.len() ==> no_later(#[trigger] s[i], #[trigger] s[j])
}

/// A page of `all`: at most `LIST_LIMIT` notes from `offset`.
pub open spec fn page_of(all: Seq<NoteSummary>, offset: nat) -> Seq<NoteSummary> {
    if offset >= all.len() {
        Seq::empty()
    } else if all.len() - offset > LIST_LIMIT {
        all.subrange(offset as int, offset + LIST_LIMIT)
    } else {
        all.skip(offset as int)
    }
}

fn comes_before(a: &NoteSummary, b: &NoteSummary) -> (r: bool)
    ensures
        r == (a.updated_at > b.updated_at || (a.updated_at == b.updated_at && lex_lt(a.id@, b.id@))),
{
    a.updated_at > b.updated_at || (a.updated_at == b.updated_at && str_lt(a.id.as_str(), b.id.as_str()))
}

proof fn lemma_no_later_total(a: NoteSummary, b: NoteSummary)
    ensures
        no_later(a, b) || no_later(b, a),
{
    crate::order::lemma_lex_total(a.id@, b.id@);
}

proof fn lemma_no_later_transitive(a: NoteSummary, b: NoteSummary, c: NoteSummary)
    requires
        no_later(a, b),
        no_later(b, c),
    ensures
        no_later(a, c),
{
    if a.updated_at == b.updated_at && b.updated_at == c.updated_at {
        crate::order::lemma_lex_le_transitive(a.id@, b.id@, c.id@);
    }
}

proof fn lemma_insert_ms(s: Seq<NoteSummary>, pos: int, x: NoteSummary)
    requires
        0 <= pos <= s.len(),
    ensures
        s.insert(pos, x).to_multiset() == s.to_multiset().insert(x),
{
    let l = s.subrange(0, pos);
    let r = s.subrange(pos, s.len() as int);
    assert(s =~= l + r);
    assert(s.insert(pos, x) =~= l.push(x) + r);
    vstd::seq_lib::lemma_multiset_commutative(l, r);
    vstd::seq_lib::lemma_multiset_commutative(l.push(x), r);
    l.to_multiset_ensures();
    assert(l.push(x).to_multiset().add(r.to_multiset()) =~= l.to_multiset().add(r.to_multiset()).insert(x));
}

/// The notes a view of `folder` shows, newest first, and the page from `offset`: the page
/// and, when notes remain after it, the offset of the next page.
pub fn browse_page(items: &Vec<NoteSummary>, folder: &str, exact: bool, archive: bool, offset: usize) -> (r: (Vec<NoteSummary>, Option<usize>))
    requires
        offset <= 100_000,
    ensures
        forall|k: int|
            0 <= k < r.0@.len() ==> items@.contains(#[trigger] r.0@[k]) && (folder@.len() == 0
                || r.0@[k].folder@ == folder@ || (!exact && lies_inside(r.0@[k].folder@, folder@)))
                && (archive || !archived_folder(r.0@[k].folder@)),
        forall|i: int, j: int|
            0 <= i < j < r.0@.len() ==> (#[trigger] r.0@[i]).updated_at >= (#[trigger] r.0@[j]).updated_at,
        r.0@.len() <= LIST_LIMIT,
        exists|all: Seq<NoteSummary>|
            {
                &&& newest_first(all)
                &&& all.to_multiset() == kept(items@, folder@, exact, archive).to_multiset()
                &&& r.0@ == page_of(all, offset as nat)
                &&& r.1 == if all.len() > offset + LIST_LIMIT {
                    Some((offset + LIST_LIMIT) as usize)
                } else {
                    None
                }
            },
{
    let fv = chars_of(folder);
    let mut below = chars_of(folder);
    below.push('/');
    let mut all: Vec<NoteSummary> = Vec::new();
    let mut i: usize = 0;
    proof {
        let e = Seq::<NoteSummary>::empty();
        e.to_multiset_ensures();
        vstd::multiset::lemma_multiset_empty_len(e.to_multiset());
        assert(items@.take(0) =~= e);
    }
    while i < items.len()
        invariant
            i <= items@.len(),
            fv@ == folder@,
            below@ == folder@.push('/'),
            newest_first(all@),
            all@.to_multiset() == kept(items@.take(i as int), folder@, exact, archive).to_multiset(),
        decreases items@.len() - i,
    {
        assert(items@.take(i + 1).drop_last() =~= items@.take(i as int));
        let actual = chars_of(items[i].folder.as_str());
        let outside = fv.len() > 0 && !crate::text::eq_chars(actual.as_slice(), fv.as_slice()) && (exact
            || !crate::text::starts_with_chars(actual.as_slice(), below.as_slice()));
        let hidden = !archive && is_archived_folder(actual.as_slice());
        if !outside && !hidden {
            let x = crate::client::copy_summary(&items[i]);
            let ghost s = all@;
            let mut pos: usize = 0;
            while pos < all.len() && !comes_before(&x, &all[pos])
                invariant
                    pos <= all@.len(),
                    s == all@,
                    forall|k: int| 0 <= k < pos ==> no_later(#[trigger] s[k], x),
                decreases all@.len() - pos,
            {
                proof {
                    lemma_no_later_total(s[pos as int], x);
                    if x.updated_at == s[pos as int].updated_at {
                        crate::order::lemma_lex_total(x.id@, s[pos as int].id@);
                    }
                }
                pos = pos + 1;
            }
            let ghost xv = x;
            all.insert(pos, x);
            proof {
                let t = all@;
                assert(t =~= s.insert(pos as int, xv));
                lemma_insert_ms(s, pos as int, xv);
                let prev = kept(items@.take(i as int), folder@, exact, archive);
                prev.to_multiset_ensures();
                assert(kept(items@.take(i + 1), folder@, exact, archive) == prev.push(items@[i as int]));
                assert forall|a: int, b: int| 0 <= a < b < t.len() implies no_later(#[trigger] t[a], #[trigger] t[b]) by {
                    if b < pos {
                        assert(t[a] == s[a] && t[b] == s[b]);
                    } else if b == pos {
                        assert(t[a] == s[a]);
                    } else if a == pos {
                        assert(t[b] == s[b - 1]);
                        if pos < s.len() {
                            assert(no_later(xv, s[pos as int]));
                            if b - 1 > pos {
                                lemma_no_later_transitive(xv, s[pos as int], s[b - 1]);
                            }
                        }
                    } else if a < pos {
                        assert(t[a] == s[a] && t[b] == s[b - 1]);
                    } else {
                        assert(t[a] == s[a - 1] && t[b] == s[b - 1]);
                    }
                }
            }
        }
        i = i + 1;
    }
    assert(items@.take(items@.len() as int) =~= items@);
    let n = all.len();
    let mut page: Vec<NoteSummary> = Vec::new();
    let first = if offset < n {
        offset
    } else {
        n
    };
    let end = if offset < n && n - offset > LIST_LIMIT {
        offset + LIST_LIMIT
    } else {
        n
    };
    let mut k: usize = first;
    while k < end
        invariant
            first <= k <= end,
            end <= n,
            n == all@.len(),
            page@ == all@.subrange(first as int, k as int),
        decreases end - k,
    {
        page.push(crate::client::copy_summary(&all[k]));
        assert(page@ =~= all@.subrange(first as int, k + 1));
        k = k + 1;
    }
    let next = if offset < n && n - offset > LIST_LIMIT {
        Some(offset + LIST_LIMIT)
    } else {
        None
    };
    proof {
        if offset >= n {
            assert(page@ =~= Seq::<NoteSummary>::empty());
        } else if n - offset <= LIST_LIMIT {
            assert(page@ =~= all@.skip(offset as int));
        }
        let kv = kept(items@, folder@, exact, archive);
        lemma_view_shows(items@, folder@, exact, archive);
        all@.to_multiset_ensures();
        kv.to_multiset_ensures();
        assert forall|k: int| 0 <= k < page@.len() implies items@.contains(#[trigger] page@[k]) && (
        folder@.len() == 0 || page@[k].folder@ == folder@ || (!exact && lies_inside(
            page@[k].folder@,
            folder@,
        ))) && (archive || !archived_folder(page@[k].folder@)) by {
            assert(page@[k] == all@[first + k]);
            assert(all@.contains(page@[k]));
            assert(kv.to_multiset().count(page@[k]) > 0);
            assert(kv.contains(page@[k]));
        }
        assert forall|i: int, j: int| 0 <= i < j < page@.len() implies (#[trigger] page@[i]).updated_at
            >= (#[trigger] page@[j]).updated_at by {
            assert(page@[i] == all@[first + i] && page@[j] == all@[first + j]);
            assert(no_later(all@[first + i], all@[first + j]));
        }
    }
    (page, next)
}

/// The folder a listed file belongs to: for a pre-path file `ID.md` that the index records
/// without a path, the folder the index holds; otherwise the folder of its path.
pub open spec fn listed_folder(path: Seq<char>, legacy_folder: Option<Seq<char>>) -> Seq<char> {
    let stem_ok = ".md"@.is_suffix_of(path) && crate::paths::id_ok(path.take(path.len() - 3));
    match legacy_folder {
        Some(f) => if stem_ok {
            f
        } else {
            crate::paths::parent_of(path)
        },
        None => crate::paths::parent_of(path),
    }
}

/// The folder a listed file belongs to (see `listed_folder`).
pub fn entry_folder(path: &str, legacy_folder: Option<String>) -> (r: String)
    ensures
        r@ == listed_folder(path@, match legacy_folder {
            Some(f) => Some(f@),
            None => None,
        }),
{
    let v = chars_of(path);
    let stem_ok = if crate::text::ends_with_lit(v.as_slice(), ".md") {
        proof {
            reveal_strlit(".md");
        }
        let stem = crate::text::slice_copy(v.as_slice(), 0, v.len() - 3);
        crate::paths::id_ok_chars(stem.as_slice())
    } else {
        false
    };
    match legacy_folder {
        Some(f) => if stem_ok {
            f
        } else {
            crate::paths::folder(path)
        },
        None => crate::paths::folder(path),
    }
}


/// A view of a chosen folder `F` shows exactly the notes in `F` or, unless the view is exact,
/// lying inside `F` (`F` then `/`): a note in a folder that only shares `F` as a character prefix
/// (`Workshop` for `Work`) is never shown. Archived notes show only when asked for.
pub proof fn lemma_view_shows(items: Seq<NoteSummary>, folder: Seq<char>, exact: bool, archive: bool)
    ensures
        forall|x: NoteSummary|
            #[trigger] kept(items, folder, exact, archive).contains(x) <==> (items.contains(x) && (
            folder.len() == 0 || x.folder@ == folder || (!exact && lies_inside(x.folder@, folder)))
                && (archive || !archived_folder(x.folder@))),
    decreases items.len(),
{
    if items.len() > 0 {
        let init = items.drop_last();
        let last = items.last();
        lemma_view_shows(init, folder, exact, archive);
        lemma_slash_prefix_inside(last.folder@, folder);
        assert forall|x: NoteSummary|
            #[trigger] kept(items, folder, exact, archive).contains(x) <==> (items.contains(x) && (
            folder.len() == 0 || x.folder@ == folder || (!exact && lies_inside(x.folder@, folder)))
                && (archive || !archived_folder(x.folder@))) by {
            let kb = kept(init, folder, exact, archive);
            if items.contains(x) {
                let k = choose|k: int| 0 <= k < items.len() && items[k] == x;
                if k < init.len() {
                    assert(init[k] == x);
                }
            }
            if init.contains(x) {
                let k = choose|k: int| 0 <= k < init.len() && init[k] == x;
                assert(items[k] == x);
            }
            if shown_in(last.folder@, folder, exact, archive) {
                if kb.push(last).contains(x) && x != last {
                    let k = choose|k: int| 0 <= k < kb.push(last).len() && kb.push(last)[k] == x;
                    assert(kb[k] == x);
                }
                if kb.contains(x) {
                    let k = choose|k: int| 0 <= k < kb.len() && kb[k] == x;
                    assert(kb.push(last)[k] == x);
                }
                assert(kb.push(last)[kb.len() as int] == last);
            }
        }
    } else {
        assert forall|x: NoteSummary|
            #[trigger] kept(items, folder, exact, archive).contains(x) <==> (items.contains(x) && (
            folder.len() == 0 || x.folder@ == folder || (!exact && lies_inside(x.folder@, folder)))
                && (archive || !archived_folder(x.folder@))) by {}
    }
}


/// A page from `offset` holds the next notes in order, as many as remain up to `LIST_LIMIT`.
pub proof fn lemma_page_is_next_notes(all: Seq<NoteSummary>, offset: nat)
    ensures
        page_of(all, offset).len() == if offset >= all.len() {
            0
        } else if all.len() - offset < LIST_LIMIT {
            all.len() - offset
        } else {
            LIST_LIMIT as int
        },
        forall|k: int| 0 <= k < page_of(all, offset).len() ==> #[trigger] page_of(all, offset)[k] == all[offset + k],
{
}

/// Notes listed newest first have never-increasing update times.
pub proof fn lemma_newest_first_times(s: Seq<NoteSummary>)
    requires
        newest_first(s),
    ensures
        forall|i: int, j: int| 0 <= i < j < s.len() ==> (#[trigger] s[i]).updated_at >= (#[trigger] s[j]).updated_at,
{
    assert forall|i: int, j: int| 0 <= i < j < s.len() implies (#[trigger] s[i]).updated_at >= (#[trigger] s[j]).updated_at by {
        assert(no_later(s[i], s[j]));
    }
}

} // verus!
