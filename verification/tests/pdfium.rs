use moonowl::pdfium::{agreed_first_number, last_mod_date, own_numbering, readable_date};

#[test]
fn a_number_the_sample_agrees_on_names_the_first_page() {
    let offprint = vec![(0, vec![2011, 407]), (5, vec![2011, 412]), (10, vec![2011, 417]), (18, vec![2011, 425])];
    assert_eq!(agreed_first_number(&offprint, 19), Some(407));
    let heads = vec![(0, vec![2011]), (5, vec![2011]), (10, vec![2011])];
    assert_eq!(agreed_first_number(&heads, 19), None);
    let plain = vec![(0, vec![1]), (5, vec![6]), (10, vec![11])];
    assert_eq!(agreed_first_number(&plain, 19), None);
    let book = vec![(0, vec![]), (5, vec![2]), (10, vec![7]), (15, vec![12])];
    assert_eq!(agreed_first_number(&book, 19), None);
    let thin = vec![(0, vec![407]), (5, vec![412]), (10, vec![]), (18, vec![])];
    assert_eq!(agreed_first_number(&thin, 19), None);
}

#[test]
fn a_date_that_is_not_ascii_is_passed_through_rather_than_panicking() {
    assert_eq!(readable_date("D:2024０131120000"), "D:2024０131120000");
    assert_eq!(readable_date("D:20240131é0"), "31 January 2024");
    assert_eq!(readable_date("D:20240131120000+01'00'"), "31 January 2024, 12:00");
}

#[test]
fn a_date_that_is_not_a_date_is_passed_through() {
    assert_eq!(readable_date("D:20241331"), "D:20241331");
    assert_eq!(readable_date("D:20240100"), "D:20240100");
    assert_eq!(readable_date("yesterday"), "yesterday");
    assert_eq!(readable_date("20240705"), "5 July 2024");
    assert_eq!(readable_date("D:202407050930"), "5 July 2024, 09:30");
    assert_eq!(readable_date("D:202407052561"), "5 July 2024");
}

#[test]
fn labels_that_say_the_position_say_nothing() {
    let plain: Vec<String> = vec!["1".into(), "2".into(), "".into()];
    assert!(own_numbering(plain).is_empty());
    let roman: Vec<String> = vec!["i".into(), "ii".into(), "1".into()];
    assert_eq!(own_numbering(roman.clone()), roman);
}

#[test]
fn a_tie_goes_to_the_smaller_number() {
    let split = vec![(0, vec![10, 20]), (1, vec![11, 21]), (2, vec![12, 22]), (3, vec![13, 23])];
    assert_eq!(agreed_first_number(&split, 10), Some(10));
}

#[test]
fn the_last_date_written_is_the_one_that_counts() {
    assert_eq!(last_mod_date(b"<< /ModDate (D:20240131120000) >>"), Some("D:20240131120000".to_string()));
    assert_eq!(
        last_mod_date(b"<< /ModDate (D:2020) >> trailer << /ModDate\n (D:2024) >>"),
        Some("D:2024".to_string())
    );
    assert_eq!(last_mod_date(b"no date here"), None);
    assert_eq!(last_mod_date(b""), None);
}

#[test]
fn a_date_written_another_way_is_not_guessed_at() {
    assert_eq!(last_mod_date(b"/ModDate <443a32303234>"), None);
    assert_eq!(last_mod_date(b"/ModDate (D:2020) /ModDateX (D:2024)"), Some("D:2020".to_string()));
    assert_eq!(last_mod_date(b"/ModDate (D:2020) /ModDate (D:20\xff24)"), Some("D:2020".to_string()));
    assert_eq!(last_mod_date(b"/ModDate (D:2020) /ModDate (D:2024"), Some("D:2020".to_string()));
    assert_eq!(last_mod_date(b"/ModDate (D:2020) /ModDate   "), Some("D:2020".to_string()));
}
