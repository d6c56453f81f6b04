use moonowl::keymap::bound::{in_name_order, Keymap, Press};
use moonowl::keymap::{
    chords_of, command, default_keys, describe_binding, describe_chord, every, label, needs_document, parse_binding,
    parse_chord, plain, shown, spec_for, Action, Modifiers,
};

fn none() -> Modifiers {
    Modifiers { meta: false, super_: false, ctrl: false, alt: false, shift: false }
}

fn file(entries: &[(&str, &[&str])]) -> Vec<(String, Vec<String>)> {
    entries
        .iter()
        .map(|(name, keys)| (name.to_string(), keys.iter().map(|k| k.to_string()).collect()))
        .collect()
}

#[test]
fn a_chord_is_spelled_one_way() {
    assert_eq!(parse_chord("Cmd+Shift+G", true), Some("mod+shift+g".to_string()));
    assert_eq!(parse_chord("shift+command+g", true), Some("mod+shift+g".to_string()));
    assert_eq!(parse_chord("  mod++ ", false), Some("mod++".to_string()));
    assert_eq!(parse_chord("control+f", true), Some("ctrl+f".to_string()));
    assert_eq!(parse_chord("control+f", false), Some("mod+f".to_string()));
    assert_eq!(parse_chord("esc", false), Some("escape".to_string()));
    assert_eq!(parse_chord("alt+pgdn", false), Some("alt+pagedown".to_string()));
    assert_eq!(parse_chord("F12", false), Some("f12".to_string()));
}

#[test]
fn a_chord_that_cannot_be_read_is_refused() {
    assert_eq!(parse_chord("", false), None);
    assert_eq!(parse_chord("   ", false), None);
    assert_eq!(parse_chord("f13", false), None);
    assert_eq!(parse_chord("f0", false), None);
    assert_eq!(parse_chord("f01", false), None);
    assert_eq!(parse_chord("mod+", false), None);
    assert_eq!(parse_chord("hyper+x", false), None);
}

#[test]
fn a_sequence_is_read_chord_by_chord() {
    assert_eq!(parse_binding("g  g", false), Some("g g".to_string()));
    assert_eq!(parse_binding("Ctrl+K ctrl+s", false), Some("mod+k mod+s".to_string()));
    assert_eq!(parse_binding("g f13", false), None);
    assert_eq!(parse_binding("  ", false), None);
}

#[test]
fn a_chord_is_shown_as_it_is_printed_on_the_key() {
    assert_eq!(shown("mod+t", true), "⌘T");
    assert_eq!(shown("mod+t", false), "Ctrl+T");
    assert_eq!(shown("mod++", true), "⌘+");
    assert_eq!(shown("alt+shift+left", false), "Alt+Shift+left");
}

#[test]
fn a_chord_is_described_in_the_platforms_order() {
    assert_eq!(describe_chord("mod+shift+f", true), "⌘⇧F");
    assert_eq!(describe_chord("mod+shift+f", false), "Ctrl+Shift+F");
    assert_eq!(describe_chord("shift+g", true), "G");
    assert_eq!(describe_chord("g", false), "g");
    assert_eq!(describe_chord("alt+left", true), "⌥←");
    assert_eq!(describe_chord("f5", false), "F5");
    assert_eq!(describe_chord("mod+-", false), "Ctrl+−");
    assert_eq!(describe_binding("g g", false), "g g");
    assert_eq!(describe_binding("mod+k mod+s", true), "⌘K ⌘S");
}

#[test]
fn command_is_either_bit_and_alt_is_typing() {
    let meta = Modifiers { meta: true, ..none() };
    let sup = Modifiers { super_: true, ..none() };
    assert!(command(meta));
    assert!(command(sup));
    assert!(!command(none()));
    assert!(plain(none()));
    assert!(plain(Modifiers { shift: true, ..none() }));
    assert!(!plain(Modifiers { ctrl: true, ..none() }));
    assert!(plain(Modifiers { ctrl: true, alt: true, ..none() }));
    assert!(plain(Modifiers { alt: true, ..none() }));
    assert!(!plain(meta));
}

#[test]
fn a_keystroke_offers_every_spelling_best_first() {
    assert_eq!(chords_of("g", false, "KeyG", none(), false), vec!["g".to_string()]);
    let shifted = Modifiers { shift: true, ..none() };
    assert_eq!(chords_of("G", false, "KeyG", shifted, false), vec!["shift+g".to_string()]);
    assert_eq!(chords_of(" ", false, "Space", shifted, false), vec!["shift+space".to_string(), "space".to_string()]);
    let option = Modifiers { alt: true, ..none() };
    assert_eq!(chords_of("©", false, "KeyG", option, true), vec!["alt+©".to_string(), "alt+g".to_string()]);
    let cmd = Modifiers { meta: true, ..none() };
    assert_eq!(chords_of("f", false, "KeyF", cmd, true), vec!["mod+f".to_string()]);
    assert!(chords_of("f", false, "KeyF", cmd, false).is_empty());
    assert!(chords_of("Shift", true, "ShiftLeft", shifted, false).is_empty());
    assert_eq!(chords_of("F5", false, "F5", none(), false), vec!["f5".to_string()]);
    assert_eq!(chords_of("ArrowLeft", false, "ArrowLeft", none(), false), vec!["left".to_string()]);
    let ctrl = Modifiers { ctrl: true, ..none() };
    assert_eq!(chords_of("1", false, "Digit1", ctrl, false), vec!["mod+1".to_string()]);
    assert_eq!(chords_of("1", false, "Digit1", ctrl, true), vec!["ctrl+1".to_string()]);
}

#[test]
fn the_table_names_every_action_once() {
    let all = every();
    assert_eq!(all.len(), Action::all().len());
    for spec in all.iter() {
        assert_eq!(Action::from_name(spec.id.as_str()), Some(spec.id));
        assert_eq!(spec_for(spec.id).id, spec.id);
    }
    assert_eq!(Action::from_name("not-an-action"), None);
    assert_eq!(Action::from_name("find"), Some(Action::Find));
    assert_eq!(label(Action::Find), "Search this document");
    assert!(needs_document(Action::NextPage));
    assert!(!needs_document(Action::Open));
    assert_eq!(default_keys(&spec_for(Action::Quit), true), Vec::<&str>::new());
    assert_eq!(default_keys(&spec_for(Action::Quit), false), vec!["mod+q"]);
    assert_eq!(default_keys(&spec_for(Action::FirstPage), false), vec!["home", "g g"]);
}

#[test]
fn the_shipped_keys_answer() {
    let keys = Keymap::shipped(false);
    assert_eq!(keys.action_for("mod+f"), Some(Action::Find));
    assert_eq!(keys.action_for("g g"), Some(Action::FirstPage));
    assert_eq!(keys.action_for("g"), None);
    assert!(keys.complaint().is_none());
    assert!(!keys.mac());
    assert!(Keymap::shipped(true).mac());
}

#[test]
fn a_sequence_waits_for_its_second_chord() {
    let keys = Keymap::shipped(false);
    assert_eq!(keys.resolve(&vec!["g".to_string()], ""), Press::Wait("g".to_string()));
    assert_eq!(keys.resolve(&vec!["g".to_string()], "g"), Press::Act(Action::FirstPage));
    assert_eq!(keys.resolve(&vec!["mod+f".to_string()], "g"), Press::Act(Action::Find));
    assert_eq!(keys.resolve(&vec!["q".to_string(), "x".to_string()], ""), Press::Nothing);
    assert_eq!(keys.press("g", false, "KeyG", none(), "g"), Press::Act(Action::FirstPage));
    let shifted = Modifiers { shift: true, ..none() };
    assert_eq!(keys.press("Shift", true, "ShiftLeft", shifted, "g"), Press::Wait("g".to_string()));
}

#[test]
fn the_file_replaces_an_actions_keys() {
    let keys = Keymap::build(false, &file(&[("find", &["mod+e"]), ("quit", &[])]));
    assert_eq!(keys.action_for("mod+e"), Some(Action::Find));
    assert_eq!(keys.action_for("mod+f"), None);
    assert_eq!(keys.action_for("mod+q"), None);
    assert_eq!(keys.action_for("mod+g"), Some(Action::FindNext));
    assert!(keys.complaint().is_none());
}

#[test]
fn what_the_file_gets_wrong_is_told() {
    let keys = Keymap::build(false, &file(&[("find", &["hyper+x"]), ("fly", &["x"])]));
    assert_eq!(keys.problems.len(), 2);
    assert_eq!(keys.problems[0], "fly is not something Moonowl can do.");
    assert_eq!(keys.problems[1], "find: \"hyper+x\" is not a key Moonowl can read.");
    assert_eq!(keys.complaint(), Some("keys.toml: fly is not something Moonowl can do. And 1 more.".to_string()));
}

#[test]
fn a_chord_claimed_twice_goes_to_the_file() {
    let keys = Keymap::build(false, &file(&[("find", &["mod+g"])]));
    assert_eq!(keys.action_for("mod+g"), Some(Action::Find));
    assert_eq!(keys.problems, vec!["Ctrl+G is asked to do two things — find has it, find-next does not.".to_string()]);
}

#[test]
fn a_binding_that_begins_with_a_bound_one_is_dropped() {
    let keys = Keymap::build(false, &file(&[("find", &["g"]), ("last-page", &["g x"])]));
    assert_eq!(keys.action_for("g"), Some(Action::Find));
    assert_eq!(keys.action_for("g x"), None);
    assert_eq!(keys.action_for("g g"), None);
    assert_eq!(keys.resolve(&vec!["g".to_string()], ""), Press::Act(Action::Find));
    assert_eq!(keys.problems.len(), 2);
}

#[test]
fn each_actions_list_is_exactly_what_it_is_bound_to() {
    let keys = Keymap::build(false, &file(&[("find", &["mod+g"]), ("last-page", &["g x"])]));
    let list = |action: Action| keys.by_action.iter().find(|(a, _)| *a == action).map(|(_, l)| l.clone()).unwrap_or_default();
    assert_eq!(list(Action::Find), vec!["mod+g".to_string()]);
    assert!(!list(Action::FindNext).contains(&"mod+g".to_string()));
    assert_eq!(list(Action::LastPage), vec!["g x".to_string()]);
    for (action, bindings) in &keys.by_action {
        for binding in bindings {
            assert_eq!(keys.action_for(binding), Some(*action));
        }
    }
    for (binding, action) in &keys.by_binding {
        assert!(list(*action).contains(binding));
    }
}

#[test]
fn every_action_keeps_its_place_on_the_list_whatever_the_file_says() {
    // One unbound by the file, one whose only key goes to another.
    let keys = Keymap::build(false, &file(&[("find", &["mod+g"]), ("find-next", &["mod+g"]), ("quit", &[])]));
    let actions: Vec<Action> = keys.by_action.iter().map(|(a, _)| *a).collect();
    assert_eq!(actions, Action::all());
    let list = |action: Action| keys.by_action.iter().find(|(a, _)| *a == action).map(|(_, l)| l.clone()).unwrap();
    assert!(list(Action::Quit).is_empty());
    assert_eq!(keys.action_for("mod+g"), Some(Action::Find));
    assert!(list(Action::FindNext).is_empty());
}

#[test]
fn a_chord_read_once_reads_back_as_itself() {
    for (typed, mac) in [("Ctrl+Shift+F", false), ("cmd+opt+left", true), ("control+shift+g", true), ("Esc", false), (" PgDn ", true), ("mod+plus", false), ("F11", false)] {
        let once = parse_chord(typed, mac).unwrap();
        assert_eq!(parse_chord(&once, mac), Some(once.clone()), "{typed}");
    }
    assert_eq!(parse_chord("Ctrl+Shift+F", false), Some("mod+shift+f".to_string()));
    assert_eq!(parse_chord("control+shift+g", true), Some("ctrl+shift+g".to_string()));
}

#[test]
fn a_file_is_a_map_in_the_order_of_its_names() {
    assert!(in_name_order(&file(&[("find", &["g"]), ("find-next", &[]), ("last-page", &["g x"])])));
    assert!(in_name_order(&file(&[])));
    assert!(!in_name_order(&file(&[("quit", &[]), ("find", &["g"])])));
    assert!(!in_name_order(&file(&[("find", &[]), ("find", &["g"])])));
}
