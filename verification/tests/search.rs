use nermal::paths::Platform;
use nermal::search_panel::{
    build_pattern, git_status_lines, git_status_map, keep_line, pattern_text, search_text, segments, Search,
    SearchFileResult, MAX_FILE_BYTES, MAX_MATCHES,
};
use nermal::search_state::{file_label, if_changed, rewritten, Flag, Row, SearchPanel, MAX_RENDERED_ROWS};

#[test]
fn case_insensitive_is_the_default() {
    let p = build_pattern("Foo", false, false, false).unwrap();
    assert!(p.is_match("a foo b"));
    assert!(p.is_match("a FOO b"));
}

#[test]
fn case_sensitive_only_matches_the_case_typed() {
    let p = build_pattern("Foo", true, false, false).unwrap();
    assert!(p.is_match("Foo"));
    assert!(!p.is_match("foo"));
}

#[test]
fn whole_word_does_not_match_inside_another_word() {
    let p = build_pattern("cat", false, true, false).unwrap();
    assert!(p.is_match("a cat sat"));
    assert!(!p.is_match("concatenate"));
}

#[test]
fn a_literal_query_does_not_run_as_a_pattern() {
    // Not whole-word or regex: `.` must match a literal dot, not "any character".
    let p = build_pattern("a.b", false, false, false).unwrap();
    assert!(p.is_match("a.b"));
    assert!(!p.is_match("axb"));
}

#[test]
fn regex_mode_runs_the_query_as_written() {
    let p = build_pattern(r"\d+", false, false, true).unwrap();
    assert!(p.is_match("room 42"));
    assert!(!p.is_match("no digits here"));
}

#[test]
fn a_blank_query_builds_no_pattern() {
    assert!(build_pattern("", false, false, false).is_none());
}

#[test]
fn a_query_that_is_no_expression_builds_no_pattern() {
    assert!(build_pattern("(", false, false, true).is_none());
    assert!(build_pattern("(", false, false, false).is_some());
}

#[test]
fn the_pattern_of_a_query() {
    assert_eq!(pattern_text("a.b", true, false, false), r"a\.b");
    assert_eq!(pattern_text("a.b", true, false, true), "a.b");
    assert_eq!(pattern_text("cat", false, true, false), r"(?i)\bcat\b");
    assert_eq!(pattern_text("x-y", true, true, false), r"\bx\-y\b");
    let meta = r"\.+*?()|[]{}^$#&-~";
    assert_eq!(pattern_text(meta, true, false, false), regex::escape(meta));
    assert_eq!(pattern_text("a b/%é", true, false, false), "a b/%é");
}

#[test]
fn matches_are_found_line_by_line() {
    let p = build_pattern("é", false, false, false).unwrap();
    let found = search_text(&p, "none\r\néaé\n\nÉ", 10);
    assert_eq!(found.len(), 2);
    assert_eq!(found[0].line, 2);
    assert_eq!(found[0].text, "éaé");
    assert_eq!(found[0].ranges, [(0, 2), (3, 5)]);
    assert_eq!(found[1].line, 4);
    assert_eq!(found[1].ranges, [(0, 2)]);
    assert_eq!(search_text(&p, "é\né\né", 2).len(), 2);
    assert!(search_text(&p, "é", 0).is_empty());
}

#[test]
fn a_search_keeps_files_in_which_something_was_found() {
    let p = build_pattern("x", false, false, false).unwrap();
    let mut search = Search::new(false);
    search.visit(&p, "/a", "x\ny\nx", Some('M'));
    search.visit(&p, "/b", "y", None);
    search.visit(&p, "/c", "x", None);
    assert!(!search.is_full());
    let found = search.finish();
    assert_eq!(found.len(), 2);
    assert_eq!(found[0].path, "/a");
    assert_eq!(found[0].git_status, Some('M'));
    assert_eq!(found[0].matches.len(), 2);
    assert_eq!(found[1].path, "/c");
}

#[test]
fn a_search_stops_at_its_limit() {
    let p = build_pattern("x", false, false, false).unwrap();
    let many = "x\n".repeat(MAX_MATCHES - 1);
    let mut search = Search::new(false);
    search.visit(&p, "/a", &many, None);
    assert!(!search.is_full());
    search.visit(&p, "/b", "x\nx\nx\n", None);
    assert!(search.is_full());
    let found = search.finish();
    assert_eq!(found[1].matches.len(), 1);
}

#[test]
fn only_changed_files_are_wanted_where_that_is_asked_for() {
    let all = Search::new(false);
    let changed = Search::new(true);
    assert!(all.wants_root(0));
    assert!(!changed.wants_root(0));
    assert!(changed.wants_root(1));
    assert!(all.wants_file(true, None, None));
    assert!(!all.wants_file(false, None, None));
    assert!(!changed.wants_file(true, None, Some(1)));
    assert!(changed.wants_file(true, Some('A'), Some(1)));
    assert!(all.wants_file(true, None, Some(MAX_FILE_BYTES)));
    assert!(!all.wants_file(true, None, Some(MAX_FILE_BYTES + 1)));
}

#[test]
fn status_letters_are_read_off_the_code() {
    let list = git_status_lines(" M src/a.rs\n?? new file\nA  b\r\nxx\n   blank\nMM c");
    let want = [("src/a.rs", 'M'), ("new file", '?'), ("b", 'A'), ("blank", 'M'), ("c", 'M')];
    assert_eq!(list.len(), want.len());
    for (got, (path, letter)) in list.iter().zip(want) {
        assert_eq!(got.0, path);
        assert_eq!(got.1, letter);
    }
}

#[test]
fn status_output_is_taken_as_bytes() {
    assert_eq!(git_status_map(false, b" M a"), Some(vec![]));
    assert_eq!(git_status_map(true, b" M a\n"), Some(vec![("a".to_string(), 'M')]));
    // What is not UTF-8 becomes replacement characters.
    assert_eq!(
        git_status_map(true, b" M \xffx\n"),
        Some(vec![("\u{fffd}x".to_string(), 'M')])
    );
    // The second byte is inside a character.
    assert_eq!(git_status_map(true, "Mé abc\n".as_bytes()), None);
}

fn shown(line: &str, ranges: &[(usize, usize)]) -> Vec<(String, bool)> {
    segments(line, &ranges.to_vec()).into_iter().map(|s| (s.text, s.found)).collect()
}

#[test]
fn highlighted_pieces_make_up_the_line() {
    let piece = |s: &str, found: bool| (s.to_string(), found);
    assert_eq!(
        shown("  let x = xs;", &[(6, 7), (10, 11)]),
        [
            piece("let ", false),
            piece("x", true),
            piece(" = ", false),
            piece("x", true),
            piece("s;", false),
        ]
    );
    // A match in the white space at the front is passed over.
    assert_eq!(shown("  x", &[(0, 1), (2, 3)]), [piece("x", true)]);
    assert_eq!(shown("xé", &[(1, 3)]), [piece("x", false), piece("é", true)]);
    assert_eq!(shown("", &[]), []);
    // A range inside a character shows nothing.
    assert_eq!(shown("é", &[(1, 2)]), [piece("", false), piece("", true)]);
    let line = "\t one two one ";
    let p = build_pattern("one", false, false, false).unwrap();
    let found = search_text(&p, line, 9);
    let whole: String =
        shown(line, &found[0].ranges).into_iter().map(|(text, _)| text).collect();
    assert_eq!(whole, line.trim_start());
}

fn file(path: &str, lines: usize) -> SearchFileResult {
    let p = build_pattern("x", false, false, false).unwrap();
    SearchFileResult {
        path: path.to_string(),
        matches: search_text(&p, &"x\n".repeat(lines), lines),
        git_status: None,
    }
}

#[test]
fn a_stale_answer_is_dropped() {
    let mut panel = SearchPanel::new();
    let old = panel.run_search("x", true, true).unwrap();
    let new = panel.run_search("xy", true, true).unwrap();
    assert!(panel.searching);
    panel.land(Platform::Unix, old.generation, vec![file("/old", 1)], 5);
    assert!(panel.searching && panel.results.is_empty());
    panel.land(Platform::Unix, new.generation, vec![file("/new", 3)], 7);
    assert!(!panel.searching);
    assert_eq!(panel.results[0].path, "/new");
    assert_eq!((panel.file_count, panel.match_count, panel.elapsed_ms), (1, 3, 7));
    assert!(!panel.truncated);
}

#[test]
fn a_search_that_cannot_run_clears_what_was_found() {
    let mut panel = SearchPanel::new();
    let job = panel.run_search("x", true, true).unwrap();
    panel.land(Platform::Unix, job.generation, vec![file("/a", 2)], 1);

    // On another machine the counts stay.
    assert!(panel.run_search("x", true, false).is_none());
    assert!(panel.results.is_empty());
    assert_eq!(panel.match_count, 2);
    assert!(panel.run_search("x", false, true).is_none());

    assert!(panel.run_search("", true, true).is_none());
    assert_eq!((panel.file_count, panel.match_count), (0, 0));
    assert!(!panel.searching && !panel.truncated);
    assert_eq!(panel.generation, 4);
}

#[test]
fn switches_change_the_pattern_of_the_next_search() {
    let mut panel = SearchPanel::new();
    panel.toggle(Flag::CaseSensitive);
    panel.toggle(Flag::WholeWord);
    panel.toggle(Flag::Regex);
    panel.toggle(Flag::ModifiedOnly);
    let job = panel.run_search("a.b", true, true).unwrap();
    assert!(job.modified_only);
    assert_eq!(job.pattern.as_str(), r"\ba.b\b");
    panel.toggle(Flag::Regex);
    assert!(!panel.regex && panel.case_sensitive && panel.whole_word);
}

#[test]
fn folded_files_stay_folded_while_they_are_found() {
    let unix = Platform::Unix;
    let mut panel = SearchPanel::new();
    panel.toggle_collapsed(unix, "/a");
    panel.toggle_collapsed(unix, "/b");
    let job = panel.run_search("x", true, true).unwrap();
    panel.land(unix, job.generation, vec![file("/b/", 1), file("/c", 1)], 1);
    assert_eq!(panel.collapsed, ["/b"]);
    panel.toggle_collapsed(unix, "/b/.");
    assert!(panel.collapsed.is_empty());
}

#[test]
fn a_replacement_is_written_only_where_it_changes_something() {
    let p = build_pattern("(a)b", true, false, true).unwrap();
    assert_eq!(rewritten(&p, "xab ab", "$1-"), Some("xa- a-".to_string()));
    assert_eq!(rewritten(&p, "none", "$1-"), None);
    assert_eq!(rewritten(&p, "ab", "ab"), None);

    let mut panel = SearchPanel::new();
    let job = panel.run_search("x", true, true).unwrap();
    panel.land(Platform::Unix, job.generation, vec![file("/a", 1), file("/b", 1)], 1);
    let (re, files) = panel.search_replace_all(true).unwrap();
    assert_eq!(re.as_str(), "(?i)x");
    assert_eq!(files, ["/a", "/b"]);
    assert!(panel.search_replace_all(false).is_none());
}

#[test]
fn results_are_replaced_by_what_they_were_found_with() {
    let mut panel = SearchPanel::new();
    assert!(panel.search_replace_all(true).is_none());
    let job = panel.run_search("x", true, true).unwrap();
    assert!(panel.search_replace_all(true).is_none());
    panel.land(Platform::Unix, job.generation, vec![file("/a", 1)], 1);

    // A newer search is on its way, and a switch was turned over.
    panel.toggle(Flag::CaseSensitive);
    let newer = panel.run_search("y", true, true).unwrap();
    let (re, files) = panel.search_replace_all(true).unwrap();
    assert_eq!((re.as_str(), files), ("(?i)x", vec!["/a".to_string()]));

    panel.land(Platform::Unix, newer.generation, vec![file("/b", 1)], 1);
    let (re, files) = panel.search_replace_all(true).unwrap();
    assert_eq!((re.as_str(), files), ("y", vec!["/b".to_string()]));

    assert!(panel.run_search("", true, true).is_none());
    assert!(panel.search_replace_all(true).is_none());
}

#[test]
fn the_list_stops_where_it_is_full() {
    let unix = Platform::Unix;
    let mut panel = SearchPanel::new();
    let job = panel.run_search("x", true, true).unwrap();
    let found = vec![file("/a", 2), file("/b", 5), file("/c", MAX_RENDERED_ROWS), file("/d", 1)];
    panel.land(unix, job.generation, found, 1);
    panel.toggle_collapsed(unix, "/b");
    let (rows, rendered) = panel.rows(unix);
    assert_eq!(rendered, MAX_RENDERED_ROWS);
    assert_eq!(rows[0], Row::File { file: 0, collapsed: false });
    assert_eq!(rows[1], Row::Match { file: 0, index: 0 });
    assert_eq!(rows[2], Row::Match { file: 0, index: 1 });
    assert_eq!(rows[3], Row::File { file: 1, collapsed: true });
    assert_eq!(rows[4], Row::File { file: 2, collapsed: false });
    assert_eq!(rows.len(), 3 + MAX_RENDERED_ROWS);
    assert_eq!(
        panel.capped_note(rendered).as_deref(),
        Some("Showing the first 300 results — narrow the search to see the rest.")
    );
    assert_eq!(panel.capped_note(299), None);
    assert_eq!(panel.capped_note(308), None);
}

#[test]
fn a_list_that_is_just_full_still_names_the_next_file() {
    let unix = Platform::Unix;
    let mut panel = SearchPanel::new();
    let job = panel.run_search("x", true, true).unwrap();
    panel.land(unix, job.generation, vec![file("/a", MAX_RENDERED_ROWS), file("/b", 1)], 1);
    let (rows, rendered) = panel.rows(unix);
    assert_eq!(rendered, MAX_RENDERED_ROWS);
    assert_eq!(rows.last(), Some(&Row::File { file: 1, collapsed: false }));
}

#[test]
fn the_summary_says_what_was_found() {
    let mut panel = SearchPanel::new();
    assert!(panel.is_empty());
    assert_eq!(panel.summary("Searching", "b", "n"), "");
    let job = panel.run_search("x", true, true).unwrap();
    assert!(!panel.is_empty());
    assert_eq!(panel.summary("Searching", "b", "n"), "Searching");
    panel.land(Platform::Unix, job.generation, vec![file("/a", MAX_MATCHES)], 12);
    assert!(panel.truncated);
    assert_eq!(panel.summary("Searching", "2000 in 1", "more"), "2000 in 1 (12 ms) — more");
    let job = panel.run_search("x", true, true).unwrap();
    panel.land(Platform::Unix, job.generation, vec![file("/a", 1)], 0);
    assert_eq!(panel.summary("Searching", "1 in 1", "more"), "1 in 1 (0 ms)");
}

#[test]
fn a_file_is_listed_by_its_name() {
    assert_eq!(file_label(Platform::Unix, "/a/b.rs"), "b.rs");
    assert_eq!(file_label(Platform::Unix, "/"), "/");
    assert_eq!(file_label(Platform::Windows, r"C:\a\b.rs"), "b.rs");
}

#[test]
fn a_line_is_kept_where_something_was_found_and_there_is_room() {
    let mut kept = Vec::new();
    keep_line(&mut kept, 1, "one".to_string(), vec![], 2);
    assert!(kept.is_empty());
    keep_line(&mut kept, 2, "two".to_string(), vec![(0, 1)], 2);
    keep_line(&mut kept, 3, "three".to_string(), vec![(1, 2), (3, 4)], 2);
    keep_line(&mut kept, 4, "four".to_string(), vec![(0, 4)], 2);
    assert_eq!(kept.len(), 2);
    assert_eq!((kept[0].line, kept[0].text.as_str()), (2, "two"));
    assert_eq!(kept[1].ranges, [(1, 2), (3, 4)]);
}

#[test]
fn only_a_changed_text_is_written_back() {
    assert_eq!(if_changed("new".to_string(), "old"), Some("new".to_string()));
    assert_eq!(if_changed("same".to_string(), "same"), None);
}

#[test]
fn a_search_of_changed_files_keeps_only_those_with_a_status() {
    let p = build_pattern("x", true, false, false).unwrap();
    let mut search = Search::new(true);
    search.visit(&p, "/a", "x", None);
    search.visit(&p, "/b", "x", Some('M'));
    let found = search.finish();
    assert_eq!(found.len(), 1);
    assert_eq!((found[0].path.as_str(), found[0].git_status), ("/b", Some('M')));
}

#[test]
fn a_literal_query_is_found_in_exactly_the_lines_that_hold_it() {
    let text = "a.b\naxb\n(a.b)+\n\\a.b\nA.B\n";
    for query in ["a.b", "(a", "+", "\\", "b", "B", "[", "a.b)+", ".", "#&~-"] {
        let p = build_pattern(query, true, false, false).unwrap();
        let found = search_text(&p, text, 100);
        let lines: Vec<&str> = found.iter().map(|m| m.text.as_str()).collect();
        let held: Vec<&str> = text.lines().filter(|l| l.contains(query)).collect();
        assert_eq!(lines, held, "{query}");
    }
}

#[test]
fn ranges_come_in_order_and_lie_on_their_line() {
    let p = build_pattern("a*", true, false, true).unwrap();
    for m in search_text(&p, "baaab\n\u{e4}aa\n", 100) {
        let mut end = 0;
        for &(from, to) in &m.ranges {
            assert!(end <= from && from <= to);
            assert!(m.text.get(from..to).is_some());
            end = to;
        }
    }
}
