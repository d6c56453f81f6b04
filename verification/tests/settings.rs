use moonowl::settings::{judge, kept_on_load, refusals, same_shape, Shape, Verdict};

#[test]
fn a_value_must_be_the_kind_its_setting_holds() {
    assert!(same_shape(Shape::Number, Shape::Number));
    assert!(same_shape(Shape::Text, Shape::Text));
    assert!(!same_shape(Shape::Number, Shape::Text));
    assert!(!same_shape(Shape::Boolean, Shape::Number));
    // Never placed is null, and anything offered for it is still a number.
    assert!(same_shape(Shape::Null, Shape::Null));
    assert!(same_shape(Shape::Null, Shape::Number));
    assert!(!same_shape(Shape::Null, Shape::Text));
    assert!(!same_shape(Shape::Text, Shape::Null));
}

#[test]
fn a_hand_edited_value_of_the_wrong_kind_is_dropped_and_an_unknown_key_kept() {
    assert!(!kept_on_load(Some(Shape::Number), Shape::Text));
    assert!(kept_on_load(Some(Shape::Number), Shape::Number));
    assert!(kept_on_load(None, Shape::Text));
    assert!(!kept_on_load(None, Shape::Other));
    assert!(!kept_on_load(Some(Shape::Text), Shape::Other));
}

#[test]
fn what_is_refused_is_said_in_one_line() {
    assert_eq!(judge(Some(Shape::Number), Shape::Number), Verdict::Taken);
    assert_eq!(judge(Some(Shape::Number), Shape::Text), Verdict::WrongKind);
    assert_eq!(judge(None, Shape::Number), Verdict::Unknown);
    let judged = vec![
        ("zoom".to_string(), Verdict::WrongKind),
        ("theme".to_string(), Verdict::Taken),
        ("zooom".to_string(), Verdict::Unknown),
    ];
    assert_eq!(
        refusals(&judged),
        Some("zoom does not take that kind of value; unknown setting zooom".to_string())
    );
    assert_eq!(refusals(&vec![("theme".to_string(), Verdict::Taken)]), None);
    assert_eq!(refusals(&vec![]), None);
}
