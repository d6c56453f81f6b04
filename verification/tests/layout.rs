use moonowl::layout::{turn, row_of, rows, Spread};

#[test]
fn a_cover_spread_opens_the_way_a_book_opens() {
    assert_eq!(rows(6, Spread::Cover), vec![vec![0], vec![1, 2], vec![3, 4], vec![5]]);
    assert_eq!(row_of(6, Spread::Cover, 2), vec![1, 2]);
    assert_eq!(row_of(6, Spread::Cover, 0), vec![0]);
    assert_eq!(row_of(6, Spread::Cover, 5), vec![5]);
    assert_eq!(rows(5, Spread::Cover), vec![vec![0], vec![1, 2], vec![3, 4]]);
}

#[test]
fn two_up_pairs_from_the_first_page() {
    assert_eq!(rows(5, Spread::Two), vec![vec![0, 1], vec![2, 3], vec![4]]);
    assert_eq!(row_of(5, Spread::Two, 3), vec![2, 3]);
    assert_eq!(row_of(5, Spread::Two, 4), vec![4]);
}

#[test]
fn single_pages_stand_alone_and_nothing_is_no_rows() {
    assert_eq!(rows(3, Spread::Single), vec![vec![0], vec![1], vec![2]]);
    assert_eq!(row_of(3, Spread::Single, 1), vec![1]);
    assert!(rows(0, Spread::Cover).is_empty());
    assert!(rows(0, Spread::Two).is_empty());
    assert_eq!(rows(1, Spread::Cover), vec![vec![0]]);
}

#[test]
fn every_page_is_in_the_row_it_is_said_to_be_in() {
    for spread in [Spread::Single, Spread::Two, Spread::Cover] {
        for count in 0..9usize {
            let all = rows(count, spread);
            let flat: Vec<usize> = all.iter().flatten().copied().collect();
            assert_eq!(flat, (0..count).collect::<Vec<_>>());
            for index in 0..count {
                let row = row_of(count, spread, index);
                assert!(row.contains(&index));
                assert!(all.contains(&row));
            }
        }
    }
}

#[test]
fn a_page_turns_a_quarter_at_a_time_and_its_crop_with_it() {
    assert_eq!(turn(0, 1), (90, 1));
    // Three more quarters is where it started; the crop turns with it.
    assert_eq!(turn(90, 3), (0, 3));
    assert_eq!(turn(0, -1), (270, 3));
    assert_eq!(turn(270, -6), (90, 2));
    // A whole turn leaves the page, and so its crop, as they were.
    assert_eq!(turn(180, 4), (180, 0));
    assert_eq!(turn(90, -8), (90, 0));
    assert_eq!(turn(0, 0), (0, 0));
}
