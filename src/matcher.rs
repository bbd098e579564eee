use vstd::prelude::*;

use crate::fold::{compare_chars, compare_form};
use crate::text::chars_of;
use vstd::string::StrSliceExecFns;

verus! {

/// One occurrence of the query: the line that holds it, the line's 0-based
/// number, and the half-open character range `[start, end)` within the line.
#[derive(Debug, PartialEq)]
pub struct TextMatch<'a> {
    pub line: &'a str,
    pub line_num: usize,
    pub start: usize,
    pub end: usize,
}

/// The mathematical content of a `TextMatch`.
pub struct MatchView {
    pub line: Seq<char>,
    pub line_num: nat,
    pub start: nat,
    pub end: nat,
}

impl<'a> TextMatch<'a> {
    /// The line cut at the match: the text before it, the matched text, and
    /// the text after it.
    pub fn parts(&self) -> (r: (&'a str, &'a str, &'a str))
        requires
            self.start <= self.end <= self.line@.len(),
        ensures
            r.0@ == self.line@.subrange(0, self.start as int),
            r.1@ == self.line@.subrange(self.start as int, self.end as int),
            r.2@ == self.line@.subrange(self.end as int, self.line@.len() as int),
    {
        let n = self.line.unicode_len();
        (
            self.line.substring_char(0, self.start),
            self.line.substring_char(self.start, self.end),
            self.line.substring_char(self.end, n),
        )
    }
}

impl<'a> View for TextMatch<'a> {
    type V = MatchView;

    open spec fn view(&self) -> MatchView {
        MatchView {
            line: self.line@,
            line_num: self.line_num as nat,
            start: self.start as nat,
            end: self.end as nat,
        }
    }
}

/// The views of a sequence of matches.
pub open spec fn views(ms: Seq<TextMatch>) -> Seq<MatchView> {
    ms.map_values(|m: TextMatch| m@)
}

/// How many characters from position `i` of `s` come before the next newline
/// (or the end of `s`).
pub open spec fn run_to_newline(s: Seq<char>, i: int) -> nat
    decreases s.len() - i,
{
    if i < 0 || i >= s.len() || s[i] == '\n' {
        0
    } else {
        1 + run_to_newline(s, i + 1)
    }
}

/// Where the line that starts at `i` ends: at the next newline, less a
/// carriage return that stands right before that newline.
pub open spec fn line_end(s: Seq<char>, i: int) -> int {
    let e = i + run_to_newline(s, i);
    if e < s.len() && e > i && s[e - 1] == '\r' {
        e - 1
    } else {
        e
    }
}

/// Distance from `cur` to the first position at or after `cur` where `q`
/// occurs in `t`.
pub open spec fn offset_of(t: Seq<char>, q: Seq<char>, cur: int) -> Option<nat>
    decreases t.len() + 1 - cur,
{
    if cur < 0 || cur + q.len() > t.len() {
        None
    } else if t.subrange(cur, cur + q.len()) == q {
        Some(0)
    } else {
        match offset_of(t, q, cur + 1) {
            Some(d) => Some(d + 1),
            None => None,
        }
    }
}

/// The matches of `q` in the comparison text `t` of `line`, scanning left to
/// right from `cur` and resuming after the end of each match.
pub open spec fn line_matches(line: Seq<char>, t: Seq<char>, q: Seq<char>, num: nat, cur: nat) -> Seq<
    MatchView,
>
    decreases t.len() - cur,
    via line_matches_decreases
{
    if q.len() == 0 || cur + q.len() > t.len() {
        seq![]
    } else {
        match offset_of(t, q, cur as int) {
            None => seq![],
            Some(d) => {
                let s = cur + d;
                seq![MatchView { line, line_num: num, start: s, end: s + q.len() }] + line_matches(
                    line,
                    t,
                    q,
                    num,
                    s + q.len(),
                )
            },
        }
    }
}

/// The matches in the lines of `s` from position `i` on, the first of them
/// numbered `num`.
pub open spec fn matches_from(s: Seq<char>, q: Seq<char>, ignore_case: bool, i: int, num: nat) -> Seq<
    MatchView,
>
    decreases s.len() + 1 - i,
    via matches_from_decreases
{
    if i < 0 || i >= s.len() {
        seq![]
    } else {
        let line = s.subrange(i, line_end(s, i));
        line_matches(line, compare_form(line, ignore_case), compare_form(q, ignore_case), num, 0)
            + matches_from(s, q, ignore_case, i + run_to_newline(s, i) + 1, num + 1)
    }
}

/// Every match of `query` in the lines of `contents`, in order.
pub open spec fn all_matches(query: Seq<char>, contents: Seq<char>, ignore_case: bool) -> Seq<
    MatchView,
> {
    matches_from(contents, query, ignore_case, 0, 0)
}

#[via_fn]
proof fn line_matches_decreases(line: Seq<char>, t: Seq<char>, q: Seq<char>, num: nat, cur: nat) {
    lemma_offset_of(t, q, cur as int);
}

#[via_fn]
proof fn matches_from_decreases(s: Seq<char>, q: Seq<char>, ignore_case: bool, i: int, num: nat) {
    if 0 <= i <= s.len() {
        lemma_run_to_newline(s, i);
    }
}

pub(crate) proof fn lemma_run_to_newline(s: Seq<char>, i: int)
    requires
        0 <= i <= s.len(),
    ensures
        i + run_to_newline(s, i) <= s.len(),
        i + run_to_newline(s, i) < s.len() ==> s[i + run_to_newline(s, i)] == '\n',
        forall|j: int| i <= j < i + run_to_newline(s, i) ==> s[j] != '\n',
    decreases s.len() - i,
{
    if i < s.len() && s[i] != '\n' {
        lemma_run_to_newline(s, i + 1);
    }
}

pub(crate) proof fn lemma_offset_of(t: Seq<char>, q: Seq<char>, cur: int)
    ensures
        offset_of(t, q, cur) matches Some(d) ==> cur >= 0 && cur + d + q.len() <= t.len()
            && t.subrange(cur + d, cur + d + q.len()) == q,
    decreases t.len() + 1 - cur,
{
    if cur >= 0 && cur + q.len() <= t.len() && t.subrange(cur, cur + q.len()) != q {
        lemma_offset_of(t, q, cur + 1);
    }
}

/// Whether `q` occurs in `t` at position `p`.
fn occurs_at(t: &Vec<char>, q: &Vec<char>, p: usize) -> (r: bool)
    requires
        p + q@.len() <= t@.len(),
    ensures
        r == (t@.subrange(p as int, p + q@.len()) == q@),
{
    let n = t.len();
    let mut k: usize = 0;
    while k < q.len()
        invariant
            k <= q@.len(),
            p + q@.len() <= t@.len(),
            t@.len() == n,
            forall|j: int| 0 <= j < k ==> t@[p + j] == q@[j],
        decreases q@.len() - k,
    {
        if t[p + k] != q[k] {
            assert(t@.subrange(p as int, p + q@.len())[k as int] != q@[k as int]);
            return false;
        }
        k += 1;
    }
    assert(t@.subrange(p as int, p + q@.len()) =~= q@);
    true
}

/// The first position at or after `from` where `q` occurs in `t`.
fn find_from(t: &Vec<char>, q: &Vec<char>, from: usize) -> (r: Option<usize>)
    requires
        q@.len() > 0,
    ensures
        match offset_of(t@, q@, from as int) {
            Some(d) => r == Some((from + d) as usize),
            None => r is None,
        },
{
    let mut p: usize = from;
    while p <= t.len() && q.len() <= t.len() - p
        invariant
            from <= p,
            q@.len() > 0,
            offset_of(t@, q@, from as int) == match offset_of(t@, q@, p as int) {
                Some(d) => Some((d + (p - from)) as nat),
                None => None,
            },
        decreases t@.len() - p,
    {
        if occurs_at(t, q, p) {
            return Some(p);
        }
        p += 1;
    }
    None
}

/// Appends to `out` the matches of `q` in `t`, the comparison text of `line`,
/// each numbered `num`: left to right, resuming after the end of each match.
pub fn scan_line<'a>(line: &'a str, t: &Vec<char>, q: &Vec<char>, num: usize, out: &mut Vec<TextMatch<'a>>)
    requires
        q@.len() > 0,
        t@.len() == line@.len(),
    ensures
        views(final(out)@) == views(old(out)@) + line_matches(line@, t@, q@, num as nat, 0),
{
    let mut cur: usize = 0;
    while cur <= t.len()
        invariant
            q@.len() > 0,
            t@.len() == line@.len(),
            views(out@) + line_matches(line@, t@, q@, num as nat, cur as nat) == views(old(out)@)
                + line_matches(line@, t@, q@, num as nat, 0),
        decreases t@.len() + 1 - cur,
    {
        proof {
            lemma_offset_of(t@, q@, cur as int);
        }
        match find_from(t, q, cur) {
            None => {
                assert(line_matches(line@, t@, q@, num as nat, cur as nat) =~= seq![]);
                assert(views(out@) + seq![] =~= views(out@));
                return;
            },
            Some(p) => {
                let m = TextMatch { line, line_num: num, start: p, end: p + q.len() };
                let ghost before = views(out@);
                let ghost rest = line_matches(line@, t@, q@, num as nat, (p + q@.len()) as nat);
                assert(line_matches(line@, t@, q@, num as nat, cur as nat) == seq![m@] + rest);
                out.push(m);
                assert(views(out@) =~= before.push(m@));
                assert(before + (seq![m@] + rest) =~= before.push(m@) + rest);
                cur = p + q.len();
            },
        }
    }
    assert(line_matches(line@, t@, q@, num as nat, cur as nat) =~= seq![]);
    assert(views(out@) + seq![] =~= views(out@));
}

/// Every occurrence of `query` in each line of `contents`, ordered by line and
/// then by position. Lines are split at `\n`, with a `\r` right before it left
/// out of the line, and a final newline starts no further line. Within a line
/// the scan resumes after the end of each match, so matches never overlap. With
/// `ignore_case` both the query and each line are compared in their simple
/// lowercase form, while offsets and the line refer to the text as given.
pub fn search<'a>(query: &str, contents: &'a str, ignore_case: bool) -> (r: Vec<TextMatch<'a>>)
    requires
        query@.len() > 0,
    ensures
        views(r@) == all_matches(query@, contents@, ignore_case),
{
    let text = chars_of(contents);
    let q = compare_chars(&chars_of(query), ignore_case);
    let n = text.len();
    let mut result: Vec<TextMatch<'a>> = Vec::new();
    let mut i: usize = 0;
    let mut num: usize = 0;
    while i < n
        invariant
            text@ == contents@,
            n == text@.len(),
            i <= n,
            num <= i,
            q@ == compare_form(query@, ignore_case),
            q@.len() > 0,
            views(result@) + matches_from(contents@, query@, ignore_case, i as int, num as nat)
                == all_matches(query@, contents@, ignore_case),
        decreases n - i,
    {
        let mut e: usize = i;
        while e < n && text[e] != '\n'
            invariant
                i <= e <= n,
                text@ == contents@,
                n == text@.len(),
                run_to_newline(contents@, i as int) == (e - i) + run_to_newline(contents@, e as int),
            decreases n - e,
        {
            e += 1;
        }
        let le = if e < n && e > i && text[e - 1] == '\r' {
            e - 1
        } else {
            e
        };
        assert(le == line_end(contents@, i as int));
        let line = contents.substring_char(i, le);
        let t = compare_chars(&chars_of(line), ignore_case);
        let ghost before = views(result@);
        let ghost rest = matches_from(contents@, query@, ignore_case, e + 1, num as nat + 1);
        scan_line(line, &t, &q, num, &mut result);
        assert(before + matches_from(contents@, query@, ignore_case, i as int, num as nat) =~= views(
            result@,
        ) + rest);
        if e < n {
            i = e + 1;
        } else {
            i = n;
        }
        num += 1;
    }
    assert(views(result@) + seq![] =~= views(result@));
    result
}

} // verus!
