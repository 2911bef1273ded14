//! What the storage back ends share: stored objects, listed entries, pages of a listing,
//! and the rules a write and an object key follow.
use crate::order::{
    lemma_lex_irreflexive, lemma_lex_transitive, lex_lt, str_eq, str_lt, strictly_sorted,
};
use crate::text::push_str;
use vstd::prelude::*;

verus! {

/// A stored file: its Markdown and the version a conditional write compares against.
#[derive(Clone, Debug)]
pub struct Object {
    pub markdown: String,
    pub version: String,
}

/// A listed file: its vault path and when it last changed (milliseconds).
#[derive(Clone, Debug)]
pub struct Entry {
    pub path: String,
    pub updated_at: u64,
}

/// A page of a listing and the cursor of the next page, if any.
#[derive(Clone, Debug, Default)]
pub struct Listing {
    pub entries: Vec<Entry>,
    pub cursor: Option<String>,
}

/// What a directory walk lists for one item, given its name, its path relative to the vault
/// (with `/` separators), its kind and when it changed: nothing for a symbolic link or a
/// `.folio-tmp-` file; a directory's marker `<path>/.folio-folder` at time 0; a file itself;
/// nothing for anything else.
pub fn walk_entry(
    name: &str,
    relative: &str,
    is_link: bool,
    is_dir: bool,
    is_file: bool,
    modified: u64,
) -> (r: Option<Entry>)
    ensures
        (is_link || ".folio-tmp-"@.is_prefix_of(name@)) ==> r is None,
        !is_link && !".folio-tmp-"@.is_prefix_of(name@) && is_dir ==> (r matches Some(e) && e.path@
            == relative@ + "/.folio-folder"@ && e.updated_at == 0),
        !is_link && !".folio-tmp-"@.is_prefix_of(name@) && !is_dir && is_file ==> (r matches Some(e)
            && e.path@ == relative@ && e.updated_at == modified),
        !is_link && !".folio-tmp-"@.is_prefix_of(name@) && !is_dir && !is_file ==> r is None,
{
    if is_link {
        return None;
    }
    let n = crate::text::chars_of(name);
    if crate::text::starts_with_lit(n.as_slice(), ".folio-tmp-") {
        return None;
    }
    if is_dir {
        let mut path = crate::text::string_of(crate::text::chars_of(relative).as_slice());
        push_str(&mut path, "/.folio-folder");
        Some(Entry { path, updated_at: 0 })
    } else if is_file {
        Some(Entry { path: crate::text::string_of(crate::text::chars_of(relative).as_slice()), updated_at: modified })
    } else {
        None
    }
}

/// Paths and times of entries, as plain values.
pub open spec fn entry_views(es: Seq<Entry>) -> Seq<(Seq<char>, u64)> {
    es.map_values(|e: Entry| (e.path@, e.updated_at))
}

pub open spec fn paths_of(es: Seq<(Seq<char>, u64)>) -> Seq<Seq<char>> {
    es.map_values(|e: (Seq<char>, u64)| e.0)
}

/// The time of the first entry with path `p`.
pub open spec fn first_seen(es: Seq<(Seq<char>, u64)>, p: Seq<char>) -> u64
    decreases es.len(),
{
    if es.len() == 0 {
        0
    } else if es[0].0 == p {
        es[0].1
    } else {
        first_seen(es.drop_first(), p)
    }
}

/// The distinct paths of `es`, in `str` order, each with the time of its first entry.
pub open spec fn distinct_sorted(u: Seq<(Seq<char>, u64)>, es: Seq<(Seq<char>, u64)>) -> bool {
    &&& strictly_sorted(paths_of(u))
    &&& forall|p: Seq<char>| paths_of(u).contains(p) <==> paths_of(es).contains(p)
    &&& forall|k: int| 0 <= k < u.len() ==> (#[trigger] u[k]).1 == first_seen(es, u[k].0)
}

/// The entries of `u` after `cursor`, in order.
pub open spec fn after(u: Seq<(Seq<char>, u64)>, cursor: Option<Seq<char>>) -> Seq<(Seq<char>, u64)>
    decreases u.len(),
{
    if u.len() == 0 {
        u
    } else if cursor matches Some(c) && !lex_lt(c, u.last().0) {
        after(u.drop_last(), cursor)
    } else {
        after(u.drop_last(), cursor).push(u.last())
    }
}

/// A page size between 1 and 1000.
pub open spec fn clamped(limit: u32) -> nat {
    if limit < 1 {
        1
    } else if limit > 1000 {
        1000
    } else {
        limit as nat
    }
}

proof fn lemma_first_seen_push(es: Seq<(Seq<char>, u64)>, e: (Seq<char>, u64), p: Seq<char>)
    requires
        paths_of(es).contains(p),
    ensures
        first_seen(es.push(e), p) == first_seen(es, p),
    decreases es.len(),
{
    if es[0].0 != p {
        assert(es.push(e).drop_first() =~= es.drop_first().push(e));
        assert(paths_of(es.drop_first()).contains(p)) by {
            let k = choose|k: int| 0 <= k < paths_of(es).len() && paths_of(es)[k] == p;
            assert(k != 0);
            assert(paths_of(es.drop_first())[k - 1] == p);
        }
        lemma_first_seen_push(es.drop_first(), e, p);
    }
}

proof fn lemma_first_seen_new(es: Seq<(Seq<char>, u64)>, e: (Seq<char>, u64))
    requires
        !paths_of(es).contains(e.0),
    ensures
        first_seen(es.push(e), e.0) == e.1,
    decreases es.len(),
{
    if es.len() > 0 {
        assert(paths_of(es)[0] == es[0].0);
        assert(es.push(e).drop_first() =~= es.drop_first().push(e));
        assert(!paths_of(es.drop_first()).contains(e.0)) by {
            if paths_of(es.drop_first()).contains(e.0) {
                let k = choose|k: int| 0 <= k < paths_of(es.drop_first()).len() && paths_of(es.drop_first())[k] == e.0;
                assert(paths_of(es)[k + 1] == e.0);
            }
        }
        lemma_first_seen_new(es.drop_first(), e);
    }
}

/// One page of a listing: the distinct paths in `str` order (each with the time of its
/// first entry), those after `cursor`, at most `limit` of them (taken between 1 and 1000);
/// the next cursor is the last path of a page that leaves paths after it.
pub fn page_entries(entries: Vec<Entry>, cursor: Option<&str>, limit: u32) -> (r: Listing)
    ensures
        exists|u: Seq<(Seq<char>, u64)>|
            #![trigger distinct_sorted(u, entry_views(entries@))]
            {
                let rest = after(u, match cursor {
                    Some(c) => Some(c@),
                    None => None,
                });
                &&& distinct_sorted(u, entry_views(entries@))
                &&& if rest.len() > clamped(limit) {
                    &&& entry_views(r.entries@) == rest.take(clamped(limit) as int)
                    &&& r.cursor matches Some(c) && c@ == rest[clamped(limit) - 1].0
                } else {
                    &&& entry_views(r.entries@) == rest
                    &&& r.cursor is None
                }
            },
{
    let ghost es = entry_views(entries@);
    let mut u: Vec<Entry> = Vec::new();
    let mut i: usize = 0;
    assert(es.take(0) =~= Seq::<(Seq<char>, u64)>::empty());
    while i < entries.len()
        invariant
            i <= entries.len(),
            es == entry_views(entries@),
            distinct_sorted(entry_views(u@), es.take(i as int)),
        decreases entries.len() - i,
    {
        let ghost uv = entry_views(u@);
        let ghost pre = es.take(i as int);
        let ghost e = es[i as int];
        assert(es.take(i + 1) =~= pre.push(e));
        assert(e == (entries@[i as int].path@, entries@[i as int].updated_at));
        let mut pos: usize = 0;
        while pos < u.len() && str_lt(u[pos].path.as_str(), entries[i].path.as_str())
            invariant
                pos <= u@.len(),
                uv == entry_views(u@),
                e.0 == entries@[i as int].path@,
                i < entries@.len(),
                forall|k: int| 0 <= k < pos ==> lex_lt(#[trigger] paths_of(uv)[k], e.0),
            decreases u@.len() - pos,
        {
            assert(paths_of(uv)[pos as int] == u@[pos as int].path@);
            pos = pos + 1;
        }
        let present = pos < u.len() && str_eq(u[pos].path.as_str(), entries[i].path.as_str());
        proof {
            let ps = paths_of(uv);
            if pos < u.len() {
                assert(ps[pos as int] == u@[pos as int].path@);
                crate::order::lemma_lex_total(ps[pos as int], e.0);
            }
            if !present {
                assert forall|k: int| 0 <= k < ps.len() implies #[trigger] ps[k] != e.0 by {
                    crate::order::lemma_lex_irreflexive(e.0);
                    if k > pos {
                        crate::order::lemma_lex_transitive(e.0, ps[pos as int], ps[k]);
                    }
                }
                assert(!paths_of(pre).contains(e.0));
            } else {
                assert(ps.contains(e.0));
                assert(paths_of(pre).contains(e.0));
            }
        }
        if !present {
            let x = Entry { path: entries[i].path.clone(), updated_at: entries[i].updated_at };
            u.insert(pos, x);
            proof {
                let t = entry_views(u@);
                assert(t =~= uv.insert(pos as int, e));
                let tp = paths_of(t);
                let ps = paths_of(uv);
                assert(tp =~= ps.insert(pos as int, e.0));
                assert forall|a: int, b: int| 0 <= a < b < tp.len() implies lex_lt(#[trigger] tp[a], #[trigger] tp[b]) by {
                    if b < pos {
                        assert(tp[a] == ps[a] && tp[b] == ps[b]);
                    } else if b == pos {
                        assert(tp[a] == ps[a]);
                    } else if a == pos {
                        assert(tp[b] == ps[b - 1]);
                        if b - 1 > pos {
                            crate::order::lemma_lex_transitive(e.0, ps[pos as int], ps[b - 1]);
                        }
                    } else if a < pos {
                        assert(tp[a] == ps[a] && tp[b] == ps[b - 1]);
                    } else {
                        assert(tp[a] == ps[a - 1] && tp[b] == ps[b - 1]);
                    }
                }
                assert(paths_of(pre.push(e)) =~= paths_of(pre).push(e.0));
                assert forall|p: Seq<char>| tp.contains(p) <==> paths_of(pre.push(e)).contains(p) by {
                    if tp.contains(p) {
                        let k = choose|k: int| 0 <= k < tp.len() && tp[k] == p;
                        if k < pos {
                            assert(ps[k] == p);
                        } else if k > pos {
                            assert(ps[k - 1] == p);
                        }
                        if p != e.0 {
                            assert(ps.contains(p));
                            assert(paths_of(pre).contains(p));
                            let j = choose|j: int| 0 <= j < paths_of(pre).len() && paths_of(pre)[j] == p;
                            assert(paths_of(pre.push(e))[j] == p);
                        } else {
                            assert(paths_of(pre.push(e))[pre.len() as int] == p);
                        }
                    }
                    if paths_of(pre.push(e)).contains(p) {
                        let j = choose|j: int| 0 <= j < paths_of(pre.push(e)).len() && paths_of(pre.push(e))[j] == p;
                        if j < pre.len() {
                            assert(paths_of(pre)[j] == p);
                            assert(ps.contains(p));
                            let k = choose|k: int| 0 <= k < ps.len() && ps[k] == p;
                            if k < pos {
                                assert(tp[k] == p);
                            } else {
                                assert(tp[k + 1] == p);
                            }
                        } else {
                            assert(tp[pos as int] == p);
                        }
                    }
                }
                assert forall|k: int| 0 <= k < t.len() implies (#[trigger] t[k]).1 == first_seen(pre.push(e), t[k].0) by {
                    if k == pos {
                        lemma_first_seen_new(pre, e);
                    } else {
                        let j = if k < pos { k } else { k - 1 };
                        assert(t[k] == uv[j]);
                        assert(paths_of(uv)[j] == uv[j].0);
                        assert(paths_of(pre).contains(uv[j].0));
                        lemma_first_seen_push(pre, e, uv[j].0);
                    }
                }
            }
        } else {
            proof {
                let ps = paths_of(uv);
                assert(paths_of(pre.push(e)) =~= paths_of(pre).push(e.0));
                assert forall|p: Seq<char>| ps.contains(p) <==> paths_of(pre.push(e)).contains(p) by {
                    if paths_of(pre.push(e)).contains(p) {
                        let j = choose|j: int| 0 <= j < paths_of(pre.push(e)).len() && paths_of(pre.push(e))[j] == p;
                        if j < pre.len() {
                            assert(paths_of(pre)[j] == p);
                        }
                    }
                    if ps.contains(p) {
                        let j = choose|j: int| 0 <= j < paths_of(pre).len() && paths_of(pre)[j] == p;
                        assert(paths_of(pre.push(e))[j] == p);
                    }
                }
                assert forall|k: int| 0 <= k < uv.len() implies (#[trigger] uv[k]).1 == first_seen(pre.push(e), uv[k].0) by {
                    assert(ps[k] == uv[k].0);
                    lemma_first_seen_push(pre, e, uv[k].0);
                }
            }
        }
        i = i + 1;
    }
    assert(es.take(entries.len() as int) =~= es);
    let cap: usize = if limit < 1 {
        1
    } else if limit > 1000 {
        1000
    } else {
        limit as usize
    };
    let ghost cv = match cursor {
        Some(c) => Some(c@),
        None => None::<Seq<char>>,
    };
    let ghost uv = entry_views(u@);
    let mut page: Vec<Entry> = Vec::new();
    let mut more = false;
    let mut k: usize = 0;
    assert(uv.take(0) =~= Seq::<(Seq<char>, u64)>::empty());
    while k < u.len() && !more
        invariant
            k <= u@.len(),
            uv == entry_views(u@),
            cap == clamped(limit),
            cv == (match cursor {
                Some(c) => Some(c@),
                None => None::<Seq<char>>,
            }),
            !more ==> entry_views(page@) == after(uv.take(k as int), cv) && page@.len() <= cap,
            more ==> entry_views(page@) == after(uv, cv).take(cap as int) && after(uv, cv).len() > cap,
        decreases u@.len() - k + (if more { 0int } else { 1int }),
    {
        assert(uv.take(k + 1).drop_last() =~= uv.take(k as int));
        assert(uv.take(k + 1).last() == uv[k as int]);
        let keep = match cursor {
            Some(c) => str_lt(c, u[k].path.as_str()),
            None => true,
        };
        if keep {
            if page.len() == cap {
                more = true;
                proof {
                    lemma_after_prefix(uv, cv, k as int + 1);
                    let a = after(uv.take(k + 1), cv);
                    assert(a == after(uv.take(k as int), cv).push(uv[k as int]));
                    assert(after(uv, cv).len() >= a.len());
                    assert(after(uv, cv).take(cap as int) =~= a.take(cap as int));
                    assert(a.take(cap as int) =~= after(uv.take(k as int), cv));
                }
            } else {
                let ghost before = entry_views(page@);
                page.push(Entry { path: u[k].path.clone(), updated_at: u[k].updated_at });
                assert(entry_views(page@) =~= before.push(uv[k as int]));
                k = k + 1;
            }
        } else {
            k = k + 1;
        }
    }
    proof {
        if !more {
            assert(uv.take(u@.len() as int) =~= uv);
        }
    }
    let next = if more {
        Some(page[page.len() - 1].path.clone())
    } else {
        None
    };
    proof {
        if more {
            assert(page@.len() == cap);
            assert(entry_views(page@)[cap - 1] == (page@[cap - 1].path@, page@[cap - 1].updated_at));
        }
    }
    Listing { entries: page, cursor: next }
}

/// The entries after the cursor in a prefix of `u` begin those in all of `u`.
/// After a cursor, a listing sorted by path continues from the first path past it: the paths
/// up to the cursor are left out, the rest kept.
proof fn lemma_after_cut(u: Seq<(Seq<char>, u64)>, cursor: Option<Seq<char>>)
    requires
        strictly_sorted(paths_of(u)),
    ensures
        exists|j: int|
            0 <= j <= u.len() && #[trigger] after(u, cursor) == u.skip(j) && (cursor matches Some(c)
                ==> (forall|k: int| 0 <= k < j ==> !lex_lt(c, #[trigger] u[k].0)) && (forall|k: int|
                j <= k < u.len() ==> lex_lt(c, #[trigger] u[k].0))),
    decreases u.len(),
{
    if u.len() == 0 {
        assert(after(u, cursor) =~= u.skip(0));
    } else {
        let v = u.drop_last();
        assert forall|a: int, b: int| 0 <= a < b < paths_of(v).len() implies lex_lt(
            #[trigger] paths_of(v)[a],
            #[trigger] paths_of(v)[b],
        ) by {
            assert(paths_of(v)[a] == paths_of(u)[a] && paths_of(v)[b] == paths_of(u)[b]);
        }
        lemma_after_cut(v, cursor);
        let j = choose|j: int|
            0 <= j <= v.len() && #[trigger] after(v, cursor) == v.skip(j) && (cursor matches Some(c)
                ==> (forall|k: int| 0 <= k < j ==> !lex_lt(c, #[trigger] v[k].0)) && (forall|k: int|
                j <= k < v.len() ==> lex_lt(c, #[trigger] v[k].0)));
        let last = u.last();
        match cursor {
            Some(c) => {
                if !lex_lt(c, last.0) {
                    if j < v.len() {
                        assert(lex_lt(c, v[j].0));
                        assert(paths_of(u)[j] == v[j].0 && paths_of(u)[u.len() - 1] == last.0);
                        lemma_lex_transitive(c, v[j].0, last.0);
                    }
                    assert(after(u, cursor) =~= u.skip(u.len() as int));
                    assert forall|k: int| 0 <= k < u.len() implies !lex_lt(c, #[trigger] u[k].0) by {
                        if k < v.len() {
                            assert(u[k] == v[k]);
                        }
                    }
                } else {
                    assert(after(u, cursor) =~= u.skip(j));
                    assert forall|k: int| 0 <= k < j implies !lex_lt(c, #[trigger] u[k].0) by {
                        assert(u[k] == v[k]);
                    }
                    assert forall|k: int| j <= k < u.len() implies lex_lt(c, #[trigger] u[k].0) by {
                        if k < v.len() {
                            assert(u[k] == v[k]);
                        }
                    }
                }
            },
            None => {
                assert(after(u, cursor) =~= u.skip(j));
            },
        }
    }
}

/// Following the cursors of a listing reads every path once, in order: the page after the
/// cursor that a page returns starts right after that page's last path. (Of a listing in path
/// order, as `page_entries` makes it; `limit` is the page's size, at least one path.)
pub proof fn lemma_next_page_follows(
    u: Seq<(Seq<char>, u64)>,
    cursor: Option<Seq<char>>,
    limit: int,
)
    requires
        strictly_sorted(paths_of(u)),
        1 <= limit < after(u, cursor).len(),
    ensures
        after(u, Some(after(u, cursor)[limit - 1].0)) == after(u, cursor).skip(limit),
{
    lemma_after_cut(u, cursor);
    let rest = after(u, cursor);
    let j = choose|j: int|
        0 <= j <= u.len() && #[trigger] after(u, cursor) == u.skip(j) && (cursor matches Some(c)
            ==> (forall|k: int| 0 <= k < j ==> !lex_lt(c, #[trigger] u[k].0)) && (forall|k: int|
            j <= k < u.len() ==> lex_lt(c, #[trigger] u[k].0)));
    let e = j + limit - 1;
    let c1 = u[e].0;
    assert(rest[limit - 1] == u[e]);
    lemma_after_cut(u, Some(c1));
    let j1 = choose|j1: int|
        0 <= j1 <= u.len() && #[trigger] after(u, Some(c1)) == u.skip(j1) && (forall|k: int|
            0 <= k < j1 ==> !lex_lt(c1, #[trigger] u[k].0)) && (forall|k: int|
            j1 <= k < u.len() ==> lex_lt(c1, #[trigger] u[k].0));
    // The cut for `c1` falls right after `e`.
    lemma_lex_irreflexive(c1);
    if j1 <= e {
        assert(lex_lt(c1, u[e].0));
    }
    if j1 > e + 1 {
        assert(!lex_lt(c1, u[e + 1].0));
        assert(paths_of(u)[e] == c1 && paths_of(u)[e + 1] == u[e + 1].0);
    }
    assert(j1 == e + 1);
    assert(u.skip(e + 1) =~= rest.skip(limit));
}

proof fn lemma_after_prefix(u: Seq<(Seq<char>, u64)>, cursor: Option<Seq<char>>, n: int)
    requires
        0 <= n <= u.len(),
    ensures
        after(u.take(n), cursor).is_prefix_of(after(u, cursor)),
    decreases u.len() - n,
{
    if n < u.len() {
        lemma_after_prefix(u, cursor, n + 1);
        assert(u.take(n + 1).drop_last() =~= u.take(n));
    } else {
        assert(u.take(n) =~= u);
    }
}

/// A conditional write goes ahead only when the stored version is the one expected:
/// absent for a create (`None`), equal to the given one otherwise.
pub open spec fn version_ok(current: Option<Seq<char>>, expected: Option<Seq<char>>) -> bool {
    current == expected
}

/// Whether a conditional write may go ahead (see `version_ok`).
pub fn version_matches(current: &Option<String>, expected: Option<&str>) -> (r: bool)
    ensures
        r == version_ok(
            match current {
                Some(v) => Some(v@),
                None => None,
            },
            match expected {
                Some(v) => Some(v@),
                None => None,
            },
        ),
{
    match (current, expected) {
        (Some(a), Some(b)) => str_eq(a.as_str(), b),
        (None, None) => true,
        _ => false,
    }
}

/// The object key of a vault path in a bucket: `notes/` and the path; refused for a path
/// that is no vault path.
pub fn object_key(path: &str) -> (r: Result<String, String>)
    ensures
        crate::paths::path_ok(path@) ==> (r matches Ok(k) && k@ == "notes/"@ + path@),
        !crate::paths::path_ok(path@) ==> (r matches Err(e) && e@ == "Invalid vault path"@),
{
    if !crate::paths::valid_path(path) {
        return Err("Invalid vault path".to_string());
    }
    let mut k = "notes/".to_string();
    push_str(&mut k, path);
    Ok(k)
}

} // verus!
