use moonowl::icons::path;
use moonowl::keys::{could_not_read, keys_from, keys_from_text, kind_of, not_toml, Entry, Item, Keys, FILE};
use moonowl::markup::{quote_marked, standing, Access, Standing, IN_FILE_LIMIT};
use moonowl::render::{Nothing, PageText, Refusal};
use moonowl::shell::{drag_of, is_document, Drag, DragEvent};

fn text(s: &str) -> String {
    s.to_string()
}

#[test]
fn an_icon_is_found_by_the_apps_own_name() {
    assert_eq!(path("minus"), Some("<path d=\"M5.5 12h13\"/>"));
    assert_eq!(path("search"), Some("<circle cx=\"11\" cy=\"11\" r=\"6.5\"/><path d=\"M16 16l4.5 4.5\"/>"));
    assert!(path("boxChecked").is_some());
    assert!(path("sign").is_some());
    assert_eq!(path("Minus"), None);
    assert_eq!(path(""), None);
}

#[test]
fn a_pdf_is_known_by_its_extension_in_any_case() {
    assert!(is_document("/tmp/paper.pdf"));
    assert!(is_document("Paper.PDF"));
    assert!(is_document("a.b.Pdf"));
    assert!(!is_document("/tmp/paper.pdf.txt"));
    assert!(!is_document("/tmp/.pdf"));
    assert!(!is_document("/tmp/pdf"));
    assert!(!is_document("/tmp/paper.pdfx"));
    assert!(!is_document(""));
}

#[test]
fn a_drag_says_whether_it_carries_a_document_and_a_drop_opens_the_first() {
    let paths = vec![text("/tmp/notes.txt"), text("/tmp/one.pdf"), text("/tmp/two.PDF")];
    assert_eq!(drag_of(DragEvent::Entered, &paths), Drag::Over(true));
    assert_eq!(drag_of(DragEvent::Entered, &vec![text("/tmp/notes.txt")]), Drag::Over(false));
    assert_eq!(drag_of(DragEvent::Left, &paths), Drag::Left);
    assert_eq!(drag_of(DragEvent::Dropped, &paths), Drag::Drop(text("/tmp/one.pdf")));
    assert_eq!(drag_of(DragEvent::Dropped, &vec![text("/tmp/notes.txt"), text("/tmp")]), Drag::Refused);
    assert_eq!(drag_of(DragEvent::Dropped, &vec![]), Drag::Refused);
}

#[test]
fn an_encrypted_document_is_refused_whatever_its_folder() {
    let s = standing(true, true, &Access::ReadOnly, &Access::ReadOnly, true);
    assert_eq!(s, Standing { into_file: false, refused: text("this document is encrypted"), signed: false });
    let s = standing(false, true, &Access::ReadOnly, &Access::Writable, true);
    assert_eq!(s.refused, "this document is very large");
}

#[test]
fn a_file_or_folder_the_disk_will_not_write_is_named() {
    let s = standing(false, false, &Access::ReadOnly, &Access::Writable, false);
    assert_eq!(s.refused, "this document is read-only");
    assert!(!s.into_file);
    let s = standing(false, false, &Access::Writable, &Access::Failed(text("disk full")), false);
    assert_eq!(s.refused, "the folder this document is in cannot be written (disk full)");
    let s = standing(false, false, &Access::Writable, &Access::ReadOnly, true);
    assert_eq!(s.refused, "the folder this document is in is read-only");
    assert!(!s.signed);
}

#[test]
fn a_writable_document_takes_the_mark_and_a_signature_is_said() {
    let s = standing(false, false, &Access::Writable, &Access::Writable, true);
    assert_eq!(s, Standing { into_file: true, refused: String::new(), signed: true });
    let s = standing(false, false, &Access::Writable, &Access::Writable, false);
    assert_eq!(s, Standing { into_file: true, ..Standing::default() });
    assert_eq!(IN_FILE_LIMIT, 104_857_600);
}

#[test]
fn a_refusal_says_what_to_do() {
    assert_eq!(Refusal::Locked.message(), "That document is locked. It needs a password.");
    assert_eq!(Refusal::Said(text("No such file.")).message(), "No such file.");
    assert_eq!(Nothing.pages(), 0);
    assert!(PageText { chars: vec![] }.is_empty());
    assert!(!PageText { chars: vec!['a'] }.is_empty());
}

#[test]
fn entries_of_one_key_or_a_list_of_them_are_bound() {
    let table = vec![
        (text("find"), Entry::Text(text("mod+e"))),
        (text("quit"), Entry::List(vec![])),
        (text("back"), Entry::List(vec![Item::Text(text("mod+[")), Item::Text(text("alt+left"))])),
    ];
    let keys = keys_from(&table);
    assert_eq!(keys.bindings, vec![
        (text("find"), vec![text("mod+e")]),
        (text("quit"), vec![]),
        (text("back"), vec![text("mod+["), text("alt+left")]),
    ]);
    assert!(keys.problems.is_empty());
}

#[test]
fn an_entry_of_the_wrong_shape_is_named_and_the_good_half_of_a_list_survives() {
    let table = vec![
        (text("find"), Entry::Other(text("integer"))),
        (text("back"), Entry::List(vec![Item::Text(text("mod+[")), Item::Other(text("integer"))])),
        (text("zoom-in"), Entry::List(vec![Item::Other(text("boolean"))])),
    ];
    let keys = keys_from(&table);
    assert_eq!(keys.bindings, vec![(text("back"), vec![text("mod+[")])]);
    assert_eq!(keys.problems.len(), 3);
    assert_eq!(keys.problems[0], "find: expected a key or a list of keys, found a number.");
    assert!(keys.problems[1].starts_with("back:"));
    assert!(keys.problems[2].starts_with("zoom-in:"));
}

#[test]
fn a_file_that_cannot_be_had_binds_nothing_and_says_so() {
    let keys = not_toml("expected `]` at line 2 column 1");
    assert!(keys.bindings.is_empty());
    assert_eq!(keys.problems, vec![text("keys.toml is not readable TOML: expected `]` at line 2 column 1")]);
    assert!(keys.problems[0].contains(FILE));
    let keys = could_not_read("permission denied");
    assert!(keys.bindings.is_empty());
    assert_eq!(keys.problems, vec![text("keys.toml could not be read: permission denied")]);
    let nothing = Keys::default();
    assert!(nothing.bindings.is_empty() && nothing.problems.is_empty());
    assert_eq!(kind_of("table"), "a table");
    assert_eq!(kind_of("float"), "a number");
    assert_eq!(kind_of("datetime"), "a date");
    assert_eq!(kind_of("string"), "text");
    assert_eq!(kind_of("something"), "something");
}

#[test]
fn a_written_file_is_parsed_and_judged() {
    let keys = keys_from_text("find = \"mod+e\"\nquit = []\nback = [\"mod+[\", \"alt+left\"]\n");
    // The table comes back in the order of its names.
    assert_eq!(keys.bindings, vec![
        (text("back"), vec![text("mod+["), text("alt+left")]),
        (text("find"), vec![text("mod+e")]),
        (text("quit"), vec![]),
    ]);
    assert!(keys.problems.is_empty());
    let keys = keys_from_text("find = 3\nback = [\"mod+[\", 7]\nzoom-in = { key = \"f\" }\n");
    assert_eq!(keys.bindings, vec![(text("back"), vec![text("mod+[")])]);
    assert_eq!(keys.problems, vec![
        text("back: a number is not a key. Keys are written in quotes."),
        text("find: expected a key or a list of keys, found a number."),
        text("zoom-in: expected a key or a list of keys, found a table."),
    ]);
    assert!(keys_from_text("").bindings.is_empty() && keys_from_text("").problems.is_empty());
}

#[test]
fn the_words_under_a_mark_are_read_off_the_page() {
    let chars: Vec<char> = "one two\nthree".chars().collect();
    // The space and the line break are the renderer's; the mark covers "two"
    // and the first two letters of "three".
    let generated: Vec<bool> = chars.iter().map(|c| *c == ' ' || *c == '\n').collect();
    let inside: Vec<bool> = (0..chars.len()).map(|i| (4..7).contains(&i) || (8..10).contains(&i)).collect();
    assert_eq!(quote_marked(&chars, &generated, &inside), "two th");
    let none = vec![false; chars.len()];
    assert_eq!(quote_marked(&chars, &generated, &none), "");
    let all = vec![true; chars.len()];
    assert_eq!(quote_marked(&chars, &none, &all), "one two three");
}

fn bound<'a>(keys: &'a Keys, action: &str) -> Option<&'a Vec<String>> {
    keys.bindings.iter().find(|(name, _)| name == action).map(|(_, chords)| chords)
}

#[test]
fn one_key_or_a_list_of_them() {
    let keys = keys_from_text("find = \"mod+e\"\nquit = []\nback = [\"mod+[\", \"alt+left\"]\n");
    assert_eq!(bound(&keys, "find"), Some(&vec![text("mod+e")]));
    assert_eq!(bound(&keys, "quit"), Some(&Vec::<String>::new()));
    assert_eq!(bound(&keys, "back"), Some(&vec![text("mod+["), text("alt+left")]));
    assert!(keys.problems.is_empty());
}

#[test]
fn a_shape_the_frontend_could_not_use_is_named_rather_than_dropped() {
    let keys = keys_from_text("find = 3\nback = [\"mod+[\", 7]\n");
    assert!(bound(&keys, "find").is_none());
    // The good half of a list survives; the bad half is reported.
    assert_eq!(bound(&keys, "back"), Some(&vec![text("mod+[")]));
    assert_eq!(keys.problems.len(), 2);
    assert!(keys.problems.iter().any(|p| p.starts_with("find:")));
    assert!(keys.problems.iter().any(|p| p.starts_with("back:")));
}

#[test]
fn a_file_that_will_not_parse_says_so_and_binds_nothing() {
    let keys = keys_from_text("find = [\"mod+e\"\n");
    assert!(keys.bindings.is_empty());
    assert_eq!(keys.problems.len(), 1);
    assert!(keys.problems[0].contains("keys.toml"));
}
