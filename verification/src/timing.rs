//! Request-scoped storage timings, reported in a `Server-Timing` header. Only operation
//! names and durations are kept: never SQL, object keys or user content.
use crate::order::{lex_lt, str_eq, str_lt, strictly_sorted};
use crate::text::{decimal, join, push_decimal, push_str};
use vstd::prelude::*;

verus! {

/// Total milliseconds and number of calls per operation name, kept in name order.
#[derive(Debug)]
pub struct Timings {
    rows: Vec<(String, u64, u64)>,
}

/// The names of timing rows, in order.
pub open spec fn row_names(rows: Seq<(Seq<char>, u64, u64)>) -> Seq<Seq<char>> {
    rows.map_values(|r: (Seq<char>, u64, u64)| r.0)
}

/// One `Server-Timing` entry: `name;dur=ms;desc="count calls"`.
pub open spec fn timing_entry(name: Seq<char>, ms: u64, count: u64) -> Seq<char> {
    name + ";dur="@ + decimal(ms as nat) + ";desc=\""@ + decimal(count as nat) + " calls\""@
}

pub open spec fn timing_entries(rows: Seq<(Seq<char>, u64, u64)>) -> Seq<Seq<char>> {
    rows.map_values(|r: (Seq<char>, u64, u64)| timing_entry(r.0, r.1, r.2))
}

pub open spec fn row_views(rows: Seq<(String, u64, u64)>) -> Seq<(Seq<char>, u64, u64)> {
    rows.map_values(|r: (String, u64, u64)| (r.0@, r.1, r.2))
}

impl Timings {
    /// The rows: each name once, in `str` order, with its total milliseconds and calls.
    pub closed spec fn rows(&self) -> Seq<(Seq<char>, u64, u64)> {
        row_views(self.rows@)
    }

    #[verifier::type_invariant]
    closed spec fn names_sorted(&self) -> bool {
        strictly_sorted(row_names(row_views(self.rows@)))
    }

    /// No timings yet.
    pub fn new() -> (t: Timings)
        ensures
            t.rows() == Seq::<(Seq<char>, u64, u64)>::empty(),
    {
        let t = Timings { rows: Vec::new() };
        assert(t.rows() =~= Seq::<(Seq<char>, u64, u64)>::empty());
        t
    }

    /// Adds one call of `name` that took `elapsed_ms`: the name's row adds the time and
    /// counts the call, or a new row for it goes in its place in name order.
    pub fn record(&mut self, name: &str, elapsed_ms: u64)
        requires
            forall|k: int|
                0 <= k < old(self).rows().len() && (#[trigger] old(self).rows()[k]).0 == name@
                    ==> old(self).rows()[k].1 + elapsed_ms <= u64::MAX && old(self).rows()[k].2 < u64::MAX,
        ensures
            strictly_sorted(row_names(final(self).rows())),
            forall|k: int|
                0 <= k < old(self).rows().len() && (#[trigger] old(self).rows()[k]).0 == name@
                    ==> final(self).rows() == old(self).rows().update(
                    k,
                    (
                        name@,
                        (old(self).rows()[k].1 + elapsed_ms) as u64,
                        (old(self).rows()[k].2 + 1) as u64,
                    ),
                ),
            (forall|k: int| 0 <= k < old(self).rows().len() ==> (#[trigger] old(self).rows()[k]).0 != name@)
                ==> exists|pos: int|
                0 <= pos <= old(self).rows().len() && final(self).rows() == old(self).rows().insert(
                    pos,
                    (name@, elapsed_ms, 1u64),
                ),
    {
        proof {
            use_type_invariant(&*self);
        }
        let ghost s = self.rows();
        let ghost ns = row_names(s);
        let mut pos: usize = 0;
        while pos < self.rows.len() && str_lt(self.rows[pos].0.as_str(), name)
            invariant
                pos <= s.len(),
                s.len() == self.rows@.len(),
                s == row_views(self.rows@),
                ns == row_names(s),
                strictly_sorted(ns),
                forall|k: int| 0 <= k < pos ==> lex_lt(#[trigger] ns[k], name@),
            decreases self.rows@.len() - pos,
        {
            assert(ns[pos as int] == self.rows@[pos as int].0@);
            pos = pos + 1;
        }
        proof {
            assert forall|k: int| 0 <= k < s.len() && k != pos implies #[trigger] ns[k] != name@ by {
                if k < pos {
                    crate::order::lemma_lex_irreflexive(name@);
                } else if pos < s.len() {
                    crate::order::lemma_lex_total(ns[pos as int], name@);
                    crate::order::lemma_lex_irreflexive(name@);
                    if ns[pos as int] != name@ {
                        crate::order::lemma_lex_transitive(name@, ns[pos as int], ns[k]);
                    } else {
                        assert(lex_lt(ns[pos as int], ns[k]));
                    }
                }
            }
        }
        let mut rows: Vec<(String, u64, u64)> = Vec::new();
        std::mem::swap(&mut rows, &mut self.rows);
        assert(row_views(rows@) == s);
        if pos < rows.len() && str_eq(rows[pos].0.as_str(), name) {
            assert(ns[pos as int] == name@);
            let (n, ms, count) = rows.remove(pos);
            assert(s[pos as int] == (n@, ms, count));
            rows.insert(pos, (n, ms + elapsed_ms, count + 1));
            proof {
                let t = row_views(rows@);
                assert(t =~= s.update(pos as int, (name@, (ms + elapsed_ms) as u64, (count + 1) as u64)));
                assert(row_names(t) =~= ns);
                assert forall|k: int| 0 <= k < s.len() && (#[trigger] s[k]).0 == name@ implies k == pos by {
                    assert(ns[k] == s[k].0);
                }
            }
            self.rows = rows;
        } else {
            proof {
                if pos < s.len() {
                    assert(ns[pos as int] == s[pos as int].0);
                }
                assert forall|k: int| 0 <= k < s.len() implies (#[trigger] s[k]).0 != name@ by {
                    assert(ns[k] == s[k].0);
                }
            }
            rows.insert(pos, (name.to_string(), elapsed_ms, 1));
            proof {
                let t = row_views(rows@);
                assert(t =~= s.insert(pos as int, (name@, elapsed_ms, 1u64)));
                let tn = row_names(t);
                assert(tn =~= ns.insert(pos as int, name@));
                if pos < s.len() {
                    crate::order::lemma_lex_total(ns[pos as int], name@);
                }
                assert forall|a: int, b: int| 0 <= a < b < tn.len() implies lex_lt(#[trigger] tn[a], #[trigger] tn[b]) by {
                    if b < pos {
                        assert(tn[a] == ns[a] && tn[b] == ns[b]);
                    } else if b == pos {
                        assert(tn[a] == ns[a]);
                    } else if a == pos {
                        assert(tn[b] == ns[b - 1]);
                        if b - 1 > pos {
                            crate::order::lemma_lex_transitive(name@, ns[pos as int], ns[b - 1]);
                        }
                    } else if a < pos {
                        assert(tn[a] == ns[a] && tn[b] == ns[b - 1]);
                    } else {
                        assert(tn[a] == ns[a - 1] && tn[b] == ns[b - 1]);
                    }
                }
            }
            self.rows = rows;
        }
    }

    /// The `Server-Timing` header: one entry per name, in name order, joined by `, `.
    pub fn server_timing(&self) -> (r: String)
        ensures
            r@ == join(timing_entries(self.rows()), ", "@),
    {
        let mut out = String::new();
        let mut i: usize = 0;
        while i < self.rows.len()
            invariant
                i <= self.rows@.len(),
                out@ == join(timing_entries(row_views(self.rows@).take(i as int)), ", "@),
            decreases self.rows@.len() - i,
        {
            let ghost before = out@;
            if i > 0 {
                push_str(&mut out, ", ");
            }
            push_str(&mut out, self.rows[i].0.as_str());
            push_str(&mut out, ";dur=");
            push_decimal(&mut out, self.rows[i].1);
            push_str(&mut out, ";desc=\"");
            push_decimal(&mut out, self.rows[i].2);
            push_str(&mut out, " calls\"");
            proof {
                let es = timing_entries(row_views(self.rows@).take(i + 1));
                assert(es.drop_last() =~= timing_entries(row_views(self.rows@).take(i as int)));
                assert(es.last() == timing_entry(self.rows@[i as int].0@, self.rows@[i as int].1, self.rows@[i as int].2));
                if i == 0 {
                    assert(out@ =~= es[0]);
                } else {
                    assert(out@ =~= before + ", "@ + es.last());
                }
            }
            i = i + 1;
        }
        assert(row_views(self.rows@).take(self.rows@.len() as int) =~= row_views(self.rows@));
        out
    }
}

/// The milliseconds from `started` to `now`, none if the clock went back.
pub open spec fn elapsed(now: u64, started: u64) -> u64 {
    if now >= started {
        (now - started) as u64
    } else {
        0
    }
}

/// A storage operation under way: its name and when it started (milliseconds).
#[derive(Clone, Debug)]
pub struct Span {
    pub name: String,
    pub started: u64,
}

impl Timings {
    /// Starts timing an operation called `name` at `now_ms`.
    pub fn start(&self, name: &str, now_ms: u64) -> (s: Span)
        ensures
            s.name@ == name@,
            s.started == now_ms,
    {
        Span { name: name.to_string(), started: now_ms }
    }

    /// Ends an operation at `now_ms`: it took the time since it started (none if the clock
    /// went back), and counts as one call of its name.
    pub fn finish(&mut self, span: Span, now_ms: u64)
        requires
            forall|k: int|
                0 <= k < old(self).rows().len() && (#[trigger] old(self).rows()[k]).0 == span.name@
                    ==> old(self).rows()[k].1 + elapsed(now_ms, span.started) <= u64::MAX
                    && old(self).rows()[k].2 < u64::MAX,
        ensures
            strictly_sorted(row_names(final(self).rows())),
            forall|k: int|
                0 <= k < old(self).rows().len() && (#[trigger] old(self).rows()[k]).0 == span.name@
                    ==> final(self).rows() == old(self).rows().update(
                    k,
                    (
                        span.name@,
                        (old(self).rows()[k].1 + elapsed(now_ms, span.started)) as u64,
                        (old(self).rows()[k].2 + 1) as u64,
                    ),
                ),
            (forall|k: int| 0 <= k < old(self).rows().len() ==> (#[trigger] old(self).rows()[k]).0 != span.name@)
                ==> exists|pos: int|
                0 <= pos <= old(self).rows().len() && final(self).rows() == old(self).rows().insert(
                    pos,
                    (span.name@, elapsed(now_ms, span.started), 1u64),
                ),
    {
        let elapsed = if now_ms >= span.started {
            now_ms - span.started
        } else {
            0
        };
        self.record(span.name.as_str(), elapsed);
    }
}

impl Clone for Timings {
    fn clone(&self) -> (t: Timings)
        ensures
            t.rows() == self.rows(),
    {
        proof {
            use_type_invariant(self);
        }
        let mut rows: Vec<(String, u64, u64)> = Vec::new();
        let mut i: usize = 0;
        while i < self.rows.len()
            invariant
                i <= self.rows@.len(),
                row_views(rows@) == row_views(self.rows@).take(i as int),
            decreases self.rows@.len() - i,
        {
            let r = &self.rows[i];
            let ghost before = rows@;
            let name = r.0.clone();
            rows.push((name, r.1, r.2));
            assert(rows@ =~= before.push((r.0, r.1, r.2)));
            assert(row_views(rows@) =~= row_views(before).push((r.0@, r.1, r.2)));
            assert(row_views(self.rows@).take(i + 1) =~= row_views(self.rows@).take(i as int).push(
                (r.0@, r.1, r.2),
            ));
            i = i + 1;
        }
        assert(row_views(self.rows@).take(self.rows@.len() as int) =~= row_views(self.rows@));
        Timings { rows }
    }
}

impl Default for Timings {
    fn default() -> (t: Timings)
        ensures
            t.rows() == Seq::<(Seq<char>, u64, u64)>::empty(),
    {
        Timings::new()
    }
}

} // verus!
