use vstd::prelude::*;

use crate::fold::compare_form;
use crate::matcher::{
    all_matches, lemma_offset_of, lemma_run_to_newline, line_end, line_matches, matches_from,
    offset_of, run_to_newline, views, MatchView, TextMatch,
};

verus! {

/// Matches come by ascending line number, and by ascending start within a line.
pub open spec fn is_ordered(ms: Seq<MatchView>) -> bool {
    forall|a: int, b: int|
        0 <= a < b < ms.len() ==> ms[a].line_num < ms[b].line_num || (ms[a].line_num
            == ms[b].line_num && ms[a].start < ms[b].start)
}

/// Each match ends at or before the start of the next one on the same line.
pub open spec fn is_non_overlapping(ms: Seq<MatchView>) -> bool {
    forall|a: int, b: int|
        0 <= a && b == a + 1 && b < ms.len() && (#[trigger] ms[a]).line_num == (#[trigger] ms[b]).line_num
            ==> ms[a].end <= ms[b].start
}

/// Each match is a non-empty range of its line whose text has the same
/// comparison form as the query.
pub open spec fn spans_match(ms: Seq<MatchView>, query: Seq<char>, ignore_case: bool) -> bool {
    forall|a: int|
        0 <= a < ms.len() ==> {
            let m = #[trigger] ms[a];
            &&& m.start < m.end <= m.line.len()
            &&& m.end - m.start == query.len()
            &&& compare_form(m.line.subrange(m.start as int, m.end as int), ignore_case)
                == compare_form(query, ignore_case)
        }
}

/// No line of a match holds a newline.
pub open spec fn lines_unbroken(ms: Seq<MatchView>) -> bool {
    forall|a: int, j: int| 0 <= a < ms.len() && 0 <= j < ms[a].line.len() ==> ms[a].line[j] != '\n'
}

proof fn lemma_line_matches(line: Seq<char>, t: Seq<char>, q: Seq<char>, num: nat, cur: nat)
    requires
        q.len() > 0,
    ensures
        ({
            let ms = line_matches(line, t, q, num, cur);
            &&& forall|a: int|
                0 <= a < ms.len() ==> {
                    let m = #[trigger] ms[a];
                    &&& m.line == line
                    &&& m.line_num == num
                    &&& cur <= m.start
                    &&& m.end == m.start + q.len()
                    &&& m.end <= t.len()
                    &&& t.subrange(m.start as int, m.end as int) == q
                }
            &&& forall|a: int, b: int| 0 <= a < b < ms.len() ==> #[trigger] ms[a].end <= #[trigger] ms[b].start
        }),
    decreases t.len() - cur,
{
    lemma_offset_of(t, q, cur as int);
    if cur + q.len() <= t.len() {
        if let Some(d) = offset_of(t, q, cur as int) {
            let s = cur + d;
            lemma_line_matches(line, t, q, num, s + q.len());
            let rest = line_matches(line, t, q, num, s + q.len());
            let ms = line_matches(line, t, q, num, cur);
            assert(ms == seq![MatchView { line, line_num: num, start: s, end: s + q.len() }] + rest);
            assert forall|a: int, b: int| 0 <= a < b < ms.len() implies #[trigger] ms[a].end
                <= #[trigger] ms[b].start by {
                assert(ms[b] == rest[b - 1]);
                if a > 0 {
                    assert(ms[a] == rest[a - 1]);
                }
            }
            assert forall|a: int| 0 <= a < ms.len() implies {
                let m = #[trigger] ms[a];
                &&& m.line == line
                &&& m.line_num == num
                &&& cur <= m.start
                &&& m.end == m.start + q.len()
                &&& m.end <= t.len()
                &&& t.subrange(m.start as int, m.end as int) == q
            } by {
                if a > 0 {
                    assert(ms[a] == rest[a - 1]);
                }
            }
        }
    }
}

proof fn lemma_fold_subrange(s: Seq<char>, lo: int, hi: int, ignore_case: bool)
    requires
        0 <= lo <= hi <= s.len(),
    ensures
        compare_form(s, ignore_case).subrange(lo, hi) == compare_form(s.subrange(lo, hi), ignore_case),
{
    assert(compare_form(s, ignore_case).subrange(lo, hi) =~= compare_form(s.subrange(lo, hi), ignore_case));
}

proof fn lemma_join(l: Seq<MatchView>, r: Seq<MatchView>, q: Seq<char>, ignore_case: bool, num: nat)
    requires
        forall|a: int| 0 <= a < l.len() ==> (#[trigger] l[a]).line_num == num && l[a].start < l[a].end,
        forall|a: int, b: int| 0 <= a < b < l.len() ==> #[trigger] l[a].end <= #[trigger] l[b].start,
        forall|a: int| 0 <= a < r.len() ==> #[trigger] r[a].line_num >= num + 1,
        spans_match(l, q, ignore_case),
        lines_unbroken(l),
        is_ordered(r),
        is_non_overlapping(r),
        spans_match(r, q, ignore_case),
        lines_unbroken(r),
    ensures
        forall|a: int| 0 <= a < (l + r).len() ==> #[trigger] (l + r)[a].line_num >= num,
        is_ordered(l + r),
        is_non_overlapping(l + r),
        spans_match(l + r, q, ignore_case),
        lines_unbroken(l + r),
{
    let ms = l + r;
    assert forall|a: int| 0 <= a < ms.len() implies #[trigger] ms[a].line_num >= num by {
        if a >= l.len() {
            assert(ms[a] == r[a - l.len()]);
        }
    }
    assert forall|a: int, b: int| 0 <= a < b < ms.len() implies ms[a].line_num < ms[b].line_num
        || (ms[a].line_num == ms[b].line_num && ms[a].start < ms[b].start) by {
        if b < l.len() {
            assert(l[a].end <= l[b].start);
        } else if a < l.len() {
            assert(ms[b] == r[b - l.len()]);
        } else {
            assert(ms[a] == r[a - l.len()]);
            assert(ms[b] == r[b - l.len()]);
        }
    }
    assert forall|a: int, b: int|
        0 <= a && b == a + 1 && b < ms.len() && (#[trigger] ms[a]).line_num == (#[trigger] ms[b]).line_num
        implies ms[a].end <= ms[b].start by {
        if b < l.len() {
            assert(l[a].end <= l[b].start);
        } else if b == l.len() {
            assert(ms[b] == r[0]);
        } else {
            assert(ms[a] == r[a - l.len()]);
            assert(ms[b] == r[b - l.len()]);
        }
    }
    assert forall|a: int| 0 <= a < ms.len() implies {
        let m = #[trigger] ms[a];
        &&& m.start < m.end <= m.line.len()
        &&& m.end - m.start == q.len()
        &&& compare_form(m.line.subrange(m.start as int, m.end as int), ignore_case)
            == compare_form(q, ignore_case)
    } by {
        if a >= l.len() {
            assert(ms[a] == r[a - l.len()]);
        } else {
            assert(ms[a] == l[a]);
        }
    }
    assert forall|a: int, j: int| 0 <= a < ms.len() && 0 <= j < ms[a].line.len() implies ms[a].line[j]
        != '\n' by {
        if a >= l.len() {
            assert(ms[a] == r[a - l.len()]);
        } else {
            assert(ms[a] == l[a]);
        }
    }
}

proof fn lemma_matches_from(s: Seq<char>, q: Seq<char>, ignore_case: bool, i: int, num: nat)
    requires
        q.len() > 0,
    ensures
        ({
            let ms = matches_from(s, q, ignore_case, i, num);
            &&& forall|a: int| 0 <= a < ms.len() ==> #[trigger] ms[a].line_num >= num
            &&& is_ordered(ms)
            &&& is_non_overlapping(ms)
            &&& spans_match(ms, q, ignore_case)
            &&& lines_unbroken(ms)
        }),
    decreases s.len() + 1 - i,
{
    if 0 <= i < s.len() {
        lemma_run_to_newline(s, i);
        let next = i + run_to_newline(s, i) + 1;
        let line = s.subrange(i, line_end(s, i));
        let cl = compare_form(line, ignore_case);
        let cq = compare_form(q, ignore_case);
        let l = line_matches(line, cl, cq, num, 0);
        let r = matches_from(s, q, ignore_case, next, num + 1);
        lemma_line_matches(line, cl, cq, num, 0);
        lemma_matches_from(s, q, ignore_case, next, num + 1);
        assert forall|a: int| 0 <= a < l.len() implies {
            let m = #[trigger] l[a];
            &&& m.start < m.end <= m.line.len()
            &&& m.end - m.start == q.len()
            &&& compare_form(m.line.subrange(m.start as int, m.end as int), ignore_case) == cq
        } by {
            lemma_fold_subrange(line, l[a].start as int, l[a].end as int, ignore_case);
        }
        assert forall|a: int, j: int| 0 <= a < l.len() && 0 <= j < l[a].line.len() implies l[a].line[j]
            != '\n' by {
            assert(line[j] == s[i + j]);
        }
        lemma_join(l, r, q, ignore_case, num);
        assert(matches_from(s, q, ignore_case, i, num) == l + r);
    }
}

/// The matches of a search are ordered by line number and, within a line, by
/// start offset.
pub proof fn lemma_search_ordered(query: Seq<char>, contents: Seq<char>, ignore_case: bool)
    requires
        query.len() > 0,
    ensures
        is_ordered(all_matches(query, contents, ignore_case)),
{
    lemma_matches_from(contents, query, ignore_case, 0, 0);
}

/// Consecutive matches on the same line do not overlap: each ends at or before
/// the start of the next.
pub proof fn lemma_search_non_overlapping(query: Seq<char>, contents: Seq<char>, ignore_case: bool)
    requires
        query.len() > 0,
    ensures
        is_non_overlapping(all_matches(query, contents, ignore_case)),
{
    lemma_matches_from(contents, query, ignore_case, 0, 0);
}

/// The text of each match in its line equals the query: exactly when case
/// matters, and after simple lowercasing of both when case is ignored. Its
/// range is non-empty, as long as the query, and within the line, and no line
/// of a match holds a newline.
pub proof fn lemma_search_spans(query: Seq<char>, contents: Seq<char>, ignore_case: bool)
    requires
        query.len() > 0,
    ensures
        spans_match(all_matches(query, contents, ignore_case), query, ignore_case),
        lines_unbroken(all_matches(query, contents, ignore_case)),
{
    lemma_matches_from(contents, query, ignore_case, 0, 0);
}

/// A case-sensitive search for a query that holds a newline finds nothing, as
/// no match reaches across the end of a line.
pub proof fn lemma_no_match_across_lines(query: Seq<char>, contents: Seq<char>)
    requires
        query.len() > 0,
        exists|k: int| 0 <= k < query.len() && query[k] == '\n',
    ensures
        all_matches(query, contents, false) == Seq::<MatchView>::empty(),
{
    let ms = all_matches(query, contents, false);
    lemma_search_spans(query, contents, false);
    if ms.len() > 0 {
        let k = choose|k: int| 0 <= k < query.len() && query[k] == '\n';
        let m = ms[0];
        assert(m.line.subrange(m.start as int, m.end as int)[k] == query[k]);
        assert(m.line[m.start + k] == '\n');
    }
    assert(ms =~= Seq::<MatchView>::empty());
}

/// Searching twice with the same arguments gives the same matches.
pub proof fn lemma_search_deterministic<'a, 'b>(
    query: Seq<char>,
    contents: Seq<char>,
    ignore_case: bool,
    first: Seq<TextMatch<'a>>,
    second: Seq<TextMatch<'b>>,
)
    requires
        views(first) == all_matches(query, contents, ignore_case),
        views(second) == all_matches(query, contents, ignore_case),
    ensures
        views(first) == views(second),
{
}

} // verus!
