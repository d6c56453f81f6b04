use moonowl::render::PageText;
use moonowl::select::{line_around, quote, unit_around, words_around, Selection, Spot, Unit};

fn page(text: &str) -> PageText {
    PageText { chars: text.chars().collect() }
}

#[test]
fn a_sweep_backwards_covers_the_same_words() {
    let forwards = Selection { anchor: Spot { page: 1, index: 2 }, head: Spot { page: 1, index: 7 } };
    let backwards = Selection { anchor: Spot { page: 1, index: 7 }, head: Spot { page: 1, index: 2 } };
    assert_eq!(forwards.span(), backwards.span());
    assert_eq!(forwards.range_on(1, 20), Some((2, 7)));
    assert_eq!(backwards.range_on(1, 20), Some((2, 7)));
}

#[test]
fn a_middle_page_is_covered_entirely() {
    let sweep = Selection { anchor: Spot { page: 2, index: 40 }, head: Spot { page: 5, index: 3 } };
    assert_eq!(sweep.range_on(1, 100), None);
    assert_eq!(sweep.range_on(2, 100), Some((40, 100)));
    assert_eq!(sweep.range_on(3, 100), Some((0, 100)));
    assert_eq!(sweep.range_on(5, 100), Some((0, 3)));
    assert_eq!(sweep.range_on(6, 100), None);
    assert_eq!(sweep.pages().collect::<Vec<_>>(), vec![2, 3, 4, 5]);
}

#[test]
fn a_page_the_sweep_only_grazes_covers_nothing() {
    let sweep = Selection { anchor: Spot { page: 4, index: 0 }, head: Spot { page: 5, index: 0 } };
    assert_eq!(sweep.range_on(5, 100), None);
    assert_eq!(sweep.range_on(4, 100), Some((0, 100)));
}

#[test]
fn a_word_stops_at_punctuation() {
    let text = page("end, don\u{2019}t stop\u{2014}now.");
    assert_eq!(words_around(&text, 3), (0, 3));
    assert_eq!(words_around(&text, 1), (0, 3));
    assert_eq!(words_around(&text, 4), (3, 4));
    assert_eq!(words_around(&text, 7), (5, 10));
    assert_eq!(words_around(&text, 13), (11, 15));
    assert_eq!(words_around(&text, 18), (16, 19));
}

#[test]
fn a_word_is_what_is_around_the_caret() {
    let text = page("one two three");
    assert_eq!(words_around(&text, 5), (4, 7));
    assert_eq!(words_around(&text, 7), (4, 7));
    assert_eq!(words_around(&text, 3), (0, 3));
}

#[test]
fn a_quote_is_the_printed_words_with_the_line_endings_mended() {
    let text = page("one\r\ntwo\r\n");
    assert_eq!(quote(&text, 0, 10), "one\ntwo");
    assert_eq!(quote(&text, 0, 0), "");
    assert_eq!(quote(&text, 0, 900), "one\ntwo");
}

#[test]
fn a_click_is_an_empty_selection() {
    let click = Selection::at(Spot { page: 3, index: 9 });
    assert!(click.is_empty());
    assert_eq!(click.range_on(3, 40), None);
}

#[test]
fn a_line_is_what_is_between_its_breaks() {
    let text = page("first line\r\nsecond\r\n");
    assert_eq!(line_around(&text, 3), (0, 10));
    assert_eq!(line_around(&text, 10), (0, 10));
    assert_eq!(line_around(&text, 14), (12, 18));
    assert_eq!(line_around(&page("\r\n\r\n"), 2), (2, 2));
    assert_eq!(line_around(&page(""), 5), (0, 0));
}

#[test]
fn each_unit_goes_through_the_same_door() {
    let text = page("one two\r\nthree");
    assert_eq!(unit_around(&text, 5, Unit::Char), (5, 5));
    assert_eq!(unit_around(&text, 5, Unit::Word), (4, 7));
    assert_eq!(unit_around(&text, 5, Unit::Line), (0, 7));
}

#[test]
fn a_quote_turns_the_stand_in_hyphen_into_a_hyphen() {
    let text = page("typo\u{2}\r\ngraphy ");
    assert_eq!(quote(&text, 0, 20), "typo-\ngraphy");
}
