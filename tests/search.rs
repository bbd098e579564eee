use minigrep::{chars_of, compare_chars, lower_char, scan_line, search, Config, TextMatch};

#[test]
fn one_result() {
    let query = "duct";
    let contents = "\
Rust:
safe, fast, productive.
Pick three.";

    assert_eq!(
        TextMatch {
            line: "safe, fast, productive.",
            line_num: 1,
            start: 15,
            end: 19
        },
        search(query, contents, false)[0]
    );
}

#[test]
fn duct_is_the_only_match() {
    let r = search("duct", "Rust:\nsafe, fast, productive.\nPick three.", false);
    assert_eq!(r.len(), 1);
    assert_eq!(r[0].line, "safe, fast, productive.");
    assert_eq!((r[0].line_num, r[0].start, r[0].end), (1, 15, 19));
}

#[test]
fn overlapping_occurrences_give_one_match() {
    let r = search("aa", "aaa", false);
    assert_eq!(r.len(), 1);
    assert_eq!((r[0].line_num, r[0].start, r[0].end), (0, 0, 2));
}

#[test]
fn adjacent_occurrences_all_match() {
    let r = search("aa", "aaaa", false);
    assert_eq!(r.len(), 2);
    assert_eq!((r[0].start, r[0].end), (0, 2));
    assert_eq!((r[1].start, r[1].end), (2, 4));
}

#[test]
fn ignore_case_matches_each_line() {
    let r = search("RUST", "Rust:\nTrust me.", true);
    assert_eq!(r.len(), 2);
    assert_eq!(r[0], TextMatch { line: "Rust:", line_num: 0, start: 0, end: 4 });
    assert_eq!(r[1], TextMatch { line: "Trust me.", line_num: 1, start: 1, end: 5 });
}

#[test]
fn case_matters_without_ignore_case() {
    assert!(search("RUST", "Rust:\nTrust me.", false).is_empty());
    let r = search("RUST", "Rust", true);
    assert_eq!(r.len(), 1);
    assert_eq!((r[0].start, r[0].end), (0, 4));
    assert_eq!(&r[0].line[r[0].start..r[0].end], "Rust");
}

#[test]
fn no_match_gives_empty() {
    assert!(search("xyz", "no match here", false).is_empty());
}

#[test]
fn query_with_newline_never_matches() {
    assert!(search("a\nb", "a\nb", false).is_empty());
    assert!(search("a\nb", "xa\nbx\na\nb\n", false).is_empty());
    assert!(search("a\nb", "A\nB", true).is_empty());
}

#[test]
fn empty_contents_give_empty() {
    assert!(search("a", "", false).is_empty());
    assert!(search("a", "\n\n", true).is_empty());
}

#[test]
fn matches_are_ordered_and_disjoint() {
    let r = search("ab", "abab x ab\n\nab\nbaab", false);
    let got: Vec<(usize, usize, usize)> = r.iter().map(|m| (m.line_num, m.start, m.end)).collect();
    assert_eq!(got, vec![(0, 0, 2), (0, 2, 4), (0, 7, 9), (2, 0, 2), (3, 2, 4)]);
    for m in &r {
        assert_eq!(&m.line[m.start..m.end], "ab");
    }
}

#[test]
fn spans_equal_the_query_ignoring_case() {
    let r = search("aB", "Ab AB ab", true);
    let got: Vec<(usize, usize)> = r.iter().map(|m| (m.start, m.end)).collect();
    assert_eq!(got, vec![(0, 2), (3, 5), (6, 8)]);
    for m in &r {
        assert_eq!(m.line[m.start..m.end].to_lowercase(), "ab");
    }
}

#[test]
fn searching_twice_gives_the_same() {
    let contents = "Rust:\nTrust me.\nrust";
    assert_eq!(search("rust", contents, true), search("rust", contents, true));
    assert_eq!(search("rust", contents, false), search("rust", contents, false));
}

#[test]
fn trailing_newline_and_crlf() {
    let r = search("b", "a\r\nb\r\n", false);
    assert_eq!(r, vec![TextMatch { line: "b", line_num: 1, start: 0, end: 1 }]);
    let r = search("\r", "a\r\nb\r", false);
    assert_eq!(r, vec![TextMatch { line: "b\r", line_num: 1, start: 1, end: 2 }]);
}

#[test]
fn empty_lines_are_counted() {
    let r = search("x", "\n\nx\n", false);
    assert_eq!(r, vec![TextMatch { line: "x", line_num: 2, start: 0, end: 1 }]);
}

#[test]
fn offsets_count_characters() {
    let r = search("wör", "héllo wörld", false);
    assert_eq!(r, vec![TextMatch { line: "héllo wörld", line_num: 0, start: 6, end: 9 }]);
    let (before, word, after) = r[0].parts();
    assert_eq!((before, word, after), ("héllo ", "wör", "ld"));
}

#[test]
fn ignore_case_folds_non_ascii() {
    let r = search("école", "ÉCOLE École", true);
    let got: Vec<(usize, usize)> = r.iter().map(|m| (m.start, m.end)).collect();
    assert_eq!(got, vec![(0, 5), (6, 11)]);
    assert!(search("école", "ÉCOLE", false).is_empty());
}

#[test]
fn parts_cut_the_line() {
    let r = search("duct", "safe, fast, productive.", false);
    assert_eq!(r[0].parts(), ("safe, fast, pro", "duct", "ive."));
}

#[test]
fn lower_char_lowercases() {
    assert_eq!(lower_char('A'), 'a');
    assert_eq!(lower_char('Ö'), 'ö');
    assert_eq!(lower_char('a'), 'a');
    assert_eq!(lower_char('\u{130}'), 'i');
}

#[test]
fn compare_chars_folds_only_when_asked() {
    let s = chars_of("RuSt");
    assert_eq!(s, vec!['R', 'u', 'S', 't']);
    assert_eq!(compare_chars(&s, true), vec!['r', 'u', 's', 't']);
    assert_eq!(compare_chars(&s, false), s);
}

#[test]
fn scan_line_works_on_given_comparison_text() {
    let line = "XaXa";
    let t = vec!['x', 'a', 'x', 'a'];
    let q = vec!['x', 'a'];
    let mut out = Vec::new();
    scan_line(line, &t, &q, 4, &mut out);
    assert_eq!(
        out,
        vec![
            TextMatch { line: "XaXa", line_num: 4, start: 0, end: 2 },
            TextMatch { line: "XaXa", line_num: 4, start: 2, end: 4 },
        ]
    );
}

#[test]
fn build_reads_query_and_path() {
    let args = vec!["prog".to_string(), "needle".to_string(), "poem.txt".to_string()];
    let c = Config::build(&args, true).unwrap();
    assert_eq!(c.query, "needle");
    assert_eq!(c.file_path, "poem.txt");
    assert!(c.ignore_case);
}

#[test]
fn build_needs_three_arguments() {
    let args = vec!["prog".to_string(), "needle".to_string()];
    assert_eq!(Config::build(&args, false).unwrap_err(), "not enough arguments");
    assert_eq!(Config::build(&[], false).unwrap_err(), "not enough arguments");
}

#[test]
fn build_rejects_empty_query() {
    let args = vec!["prog".to_string(), String::new(), "poem.txt".to_string()];
    assert_eq!(Config::build(&args, false).unwrap_err(), "empty query");
}
