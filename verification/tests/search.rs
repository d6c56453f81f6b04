use moonowl::search::{fold, locate, pages_from_here, Hit, Options, Search, RESULT_LIMIT};

fn chars(text: &str) -> Vec<char> {
    text.chars().collect()
}

fn folded(text: &str) -> String {
    fold(&chars(text), false).text.into_iter().collect()
}

fn scan(search: &mut Search, pages: &[&str]) {
    while let Some(page) = search.wants() {
        let text = chars(pages[page - 1]);
        search.feed(page, || text);
    }
    search.publish();
}

#[test]
fn a_line_break_is_a_space_and_a_line_end_hyphen_is_nothing() {
    assert_eq!(folded("needle\r\nagain  and"), "needle again and");
    assert_eq!(folded("typo\u{2}\r\ngraphy"), "typography");
    assert_eq!(folded("typo\u{ad}graphy"), "typography");
}

#[test]
fn ligatures_accents_and_soft_hyphens_all_fold_away() {
    assert_eq!(folded("ﬁnd"), "find");
    assert_eq!(folded("ﬄuent"), "ffluent");
    assert_eq!(folded("résumé"), "resume");
    assert_eq!(folded("typo\u{00ad}graphy"), "typography");
    assert_eq!(folded("a\u{200b}b"), "ab");
    assert_eq!(folded("MiXeD"), "mixed");
    assert_eq!(folded("İstanbul"), "istanbul");
    assert_eq!(fold(&chars("MiXeD"), true).text.iter().collect::<String>(), "MiXeD");
}

#[test]
fn mathematical_bold_folds_to_the_letters_on_the_keyboard() {
    assert_eq!(folded("\u{1d400}\u{1d401}"), "ab");
}

#[test]
fn every_folded_character_knows_where_it_came_from() {
    let input = chars("ﬁt\u{00ad}résumé");
    let folded = fold(&input, false);
    assert_eq!(folded.origin.len(), folded.text.len() + 1);
    assert_eq!(*folded.origin.last().unwrap(), input.len());
    assert!(folded.origin.iter().all(|&at| at <= input.len()));
    assert!(folded.origin.windows(2).all(|pair| pair[0] <= pair[1]));
    assert_eq!(folded.origin[0], 0);
    assert_eq!(folded.origin[1], 0);
}

#[test]
fn a_match_ending_inside_a_ligature_covers_it() {
    let page = fold(&chars("aﬁb"), false);
    let hits = locate(&page, &chars("af"), 1, false);
    assert_eq!(hits, vec![Hit { page: 1, from: 0, to: 2 }]);
}

#[test]
fn whole_words_is_tested_against_the_folded_text() {
    let page = fold(&chars("understand and stand"), false);
    assert_eq!(locate(&page, &chars("and"), 1, false).len(), 3);
    let whole = locate(&page, &chars("and"), 1, true);
    assert_eq!(whole.len(), 1);
    assert_eq!(whole[0].from, 11);
    let broken = fold(&chars("typo\u{00ad}graphy is"), false);
    assert_eq!(locate(&broken, &chars("typography"), 1, true).len(), 1);
}

#[test]
fn overlapping_matches_are_counted_once() {
    let page = fold(&chars("bandana banana"), false);
    let hits = locate(&page, &chars("ana"), 1, false);
    assert_eq!(hits.len(), 2);
    assert_eq!(hits[0].from, 4);
    assert_eq!(hits[1].from, 9);
}

#[test]
fn the_scan_starts_where_the_reader_is_and_comes_round() {
    assert_eq!(pages_from_here(3, 5), vec![3, 4, 5, 1, 2]);
    assert_eq!(pages_from_here(1, 3), vec![1, 2, 3]);
    assert_eq!(pages_from_here(9, 3), vec![3, 1, 2]);
    assert_eq!(pages_from_here(0, 2), vec![1, 2]);
}

#[test]
fn a_scan_finds_every_match_and_settles_on_the_first_one_below_the_reader() {
    let pages = ["a needle here", "nothing", "needle and needle"];
    let mut search = Search::new();
    assert!(search.find("needle", 3, 3));
    scan(&mut search, &pages);
    let state = search.state();
    assert_eq!(state.total, 3);
    assert!(!state.scanning);
    assert!(!state.textless);
    assert_eq!(search.matches().iter().map(|hit| hit.page).collect::<Vec<_>>(), vec![1, 3, 3]);
    assert_eq!(search.current().map(|hit| hit.page), Some(3));
}

#[test]
fn stepping_wraps_in_both_directions() {
    let mut search = Search::new();
    assert!(search.find("a", 1, 2));
    scan(&mut search, &["a a", "a"]);
    assert_eq!(search.state().total, 3);
    assert_eq!(search.state().at, Some(0));
    search.step(true);
    search.step(true);
    assert_eq!(search.state().at, Some(2));
    search.step(true);
    assert_eq!(search.state().at, Some(0));
    search.step(false);
    assert_eq!(search.state().at, Some(2));
}

#[test]
fn a_document_with_no_text_says_so_and_one_without_the_word_does_not() {
    let mut search = Search::new();
    assert!(search.find("needle", 1, 2));
    scan(&mut search, &["", "   "]);
    assert!(search.state().textless);

    let mut search = Search::new();
    assert!(search.find("needle", 1, 2));
    scan(&mut search, &["haystack", "hay"]);
    assert_eq!(search.state().total, 0);
    assert!(!search.state().textless);
}

#[test]
fn an_empty_needle_is_refused_rather_than_matching_everywhere() {
    let mut search = Search::new();
    assert!(!search.find("   ", 1, 1));
    assert!(!search.find("\u{00ad}\u{200b}", 1, 1));
    assert_eq!(search.state().total, 0);
}

#[test]
fn changing_the_case_setting_does_not_go_back_to_the_renderer() {
    let mut search = Search::new();
    assert!(search.find("Needle", 1, 1));
    scan(&mut search, &["a Needle and a needle"]);
    assert_eq!(search.state().total, 2);

    search.set_options(Options { match_case: true, whole_words: false });
    assert!(search.find("Needle", 1, 1));
    while let Some(page) = search.wants() {
        search.feed(page, || -> Vec<char> { panic!("the renderer was asked again") });
    }
    search.publish();
    assert_eq!(search.state().total, 1);
}

#[test]
fn a_reader_stepping_while_the_scan_runs_keeps_their_place() {
    let mut search = Search::new();
    assert!(search.find("x", 1, 3));
    let pages = ["x x", "x", "x x"];
    search.feed(1, || chars(pages[0]));
    search.publish();
    assert!(search.state().scanning);
    search.step(true);
    let standing = search.current().unwrap();
    search.feed(2, || chars(pages[1]));
    search.publish();
    assert_eq!(search.current(), Some(standing));
    search.feed(3, || chars(pages[2]));
    search.publish();
    assert_eq!(search.current(), Some(standing));
    assert!(!search.state().scanning);
    assert_eq!(search.state().total, 5);
}

#[test]
fn a_result_is_a_line_of_the_document() {
    let mut search = Search::new();
    assert!(search.find("needle", 1, 1));
    scan(&mut search, &["there is a\n  needle in this   haystack"]);
    let results = search.results(RESULT_LIMIT);
    assert_eq!(results.len(), 1);
    assert_eq!(results[0].hit, "needle");
    assert_eq!(results[0].before, "there is a ");
    assert_eq!(results[0].after, " in this haystack");
    assert_eq!(results[0].page, 1);
}

#[test]
fn forgetting_puts_the_index_down() {
    let mut search = Search::new();
    assert!(search.find("a", 1, 1));
    scan(&mut search, &["a a a"]);
    assert_eq!(search.state().total, 3);
    search.forget();
    assert_eq!(search.state().total, 0);
    assert!(search.results(RESULT_LIMIT).is_empty());
}

#[test]
fn going_to_a_match_puts_the_reader_on_it() {
    let mut search = Search::new();
    assert!(search.find("a", 1, 2));
    scan(&mut search, &["a a", "a"]);
    search.go_to(1);
    assert_eq!(search.state().at, Some(1));
    assert_eq!(search.current(), Some(Hit { page: 1, from: 2, to: 3 }));
}

#[test]
fn a_step_back_undoes_a_step_forward_at_either_end() {
    let mut search = Search::new();
    assert!(search.find("a", 1, 2));
    scan(&mut search, &["a a", "a"]);
    for start in 0..3 {
        search.go_to(start);
        search.step(true);
        search.step(false);
        assert_eq!(search.state().at, Some(start));
        search.step(false);
        search.step(true);
        assert_eq!(search.state().at, Some(start));
    }
}
