mod config;
mod fold;
mod laws;
mod matcher;
mod text;

pub use config::Config;
pub use fold::{compare_chars, compare_form, fold, lower_char, lower_first};
pub use laws::{
    is_non_overlapping, is_ordered, lemma_no_match_across_lines, lemma_search_deterministic,
    lemma_search_non_overlapping, lemma_search_ordered, lemma_search_spans, lines_unbroken,
    spans_match,
};
pub use matcher::{
    all_matches, line_end, line_matches, matches_from, offset_of, run_to_newline, scan_line, search,
    views, MatchView, TextMatch,
};
pub use text::chars_of;
