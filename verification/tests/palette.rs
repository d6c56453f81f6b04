use moonowl::palette::{fallback, hex, read_colour, unreadable, Theme};

#[test]
fn hex_is_read_and_everything_else_is_refused() {
    assert_eq!(read_colour("#abc"), Some([0xaa, 0xbb, 0xcc]));
    assert_eq!(read_colour("#aabbcc"), Some([0xaa, 0xbb, 0xcc]));
    assert_eq!(read_colour("#aabbccdd"), Some([0xaa, 0xbb, 0xcc]));
    assert_eq!(read_colour("#abcd"), Some([0xaa, 0xbb, 0xcc]));
    assert_eq!(read_colour("#12345g"), None);
    assert_eq!(read_colour("steelblue"), None);
    assert_eq!(read_colour("rgb(30, 42, 59)"), None);
    assert_eq!(read_colour("#12345"), None);
}

fn theme(text: &str, background: &str, accent: Option<&str>) -> Theme {
    Theme {
        name: "Test".to_string(),
        text: text.to_string(),
        background: background.to_string(),
        accent: accent.map(str::to_string),
        link: None,
        selection_area: None,
        selection_text: None,
        recolor: true,
    }
}

#[test]
fn an_unreadable_colour_is_reported() {
    assert_eq!(unreadable(&theme("steelblue", "#fff", Some("#12345g"))), vec!["text", "accent"]);
    assert!(unreadable(&theme("#000", "#fff", None)).is_empty());
}

#[test]
fn a_colour_is_written_as_css_writes_it() {
    assert_eq!(hex([0x3d, 0x6b, 0xb3]), "#3d6bb3");
    assert_eq!(hex([0, 0, 0]), "#000000");
}

#[test]
fn the_key_carries_every_colour_and_both_flags() {
    let palette = fallback();
    assert_eq!(palette.key(), "000000ffffff3d6bb33d6bb3b4cdf000000001");
    let mut other = palette;
    other.recolor = true;
    assert_ne!(palette.key(), other.key());
}

#[test]
fn the_paper_is_white_unless_the_pages_are_recoloured() {
    let mut palette = fallback();
    palette.background = [0x20, 0x20, 0x20];
    assert_eq!(palette.page(), [0xff, 0xff, 0xff]);
    palette.recolor = true;
    assert_eq!(palette.page(), [0x20, 0x20, 0x20]);
}

#[test]
fn a_colour_written_as_hex_reads_back_as_itself() {
    for colour in [[0u8, 0, 0], [255, 255, 255], [0x3d, 0x6b, 0xb3], [1, 16, 171]] {
        assert_eq!(read_colour(&hex(colour)), Some(colour));
    }
}

#[test]
fn a_colour_on_the_page_is_recoloured_only_where_the_pages_are() {
    let yellow = [0xff, 0xd7, 0x00];
    // An inversion stands for the recolouring, whatever it is.
    let invert = |c: [u8; 3], _ink: [u8; 3], _paper: [u8; 3], _keep: bool| [255 - c[0], 255 - c[1], 255 - c[2]];
    let plain = fallback();
    assert!(!plain.recolor);
    assert_eq!(plain.on_page(yellow, invert), yellow);
    let dark = moonowl::palette::Palette { recolor: true, text: [0xee; 3], background: [0x11; 3], ..fallback() };
    assert_eq!(dark.on_page(yellow, invert), [0x00, 0x28, 0xff]);
    let handed = |_c: [u8; 3], ink: [u8; 3], paper: [u8; 3], keep: bool| if keep { ink } else { paper };
    assert_eq!(dark.on_page(yellow, handed), if dark.keep_colour { [0xee; 3] } else { [0x11; 3] });
}
