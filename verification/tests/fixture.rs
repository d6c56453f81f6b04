use moonowl::fixture::writer::Pdf;
use moonowl::fixture::{
    book_pdf, contents_pdf, digest_for_test, draft, expected_headings, links_pdf, locked_pdf, notes_pdf, offprint_pdf,
    prose_pdf, restricted_pdf, signed_pdf, titled_name, titled_pdf, turned_pdf, unsigned_field_pdf, LABELS, LOCKED_PASSWORD,
    PROSE,
};

fn contains(hay: &[u8], needle: &str) -> bool {
    hay.windows(needle.len()).any(|w| w == needle.as_bytes())
}

#[test]
fn md5_gives_the_rfc_vectors() {
    assert_eq!(digest_for_test(b""), "d41d8cd98f00b204e9800998ecf8427e");
    assert_eq!(digest_for_test(b"a"), "0cc175b9c0f1b6a831c399e269772661");
    assert_eq!(digest_for_test(b"abc"), "900150983cd24fb0d6963f7d28e17f72");
    assert_eq!(digest_for_test(b"message digest"), "f96b697d7cb7938d525a2f31aaf161d0");
    assert_eq!(digest_for_test(b"abcdefghijklmnopqrstuvwxyz"), "c3fcd3d76192e4007dfb496cca67e13b");
    assert_eq!(
        digest_for_test(b"12345678901234567890123456789012345678901234567890123456789012345678901234567890"),
        "57edf4a22be3c955ac49da2e2107b67a"
    );
}

#[test]
fn a_body_of_objects_makes_a_file_whose_table_points_at_them() {
    let mut pdf = Pdf::new();
    let id = pdf.add(b"<< >>".to_vec());
    assert_eq!(id, 1);
    let bytes = pdf.bytes();
    let expected = "%PDF-1.7\n1 0 obj\n<< >>\nendobj\nxref\n0 2\n0000000000 65535 f \n0000000009 00000 n \n\
                    trailer\n<< /Size 2 /Root 1 0 R >>\nstartxref\n30\n%%EOF\n";
    assert_eq!(String::from_utf8(bytes).unwrap(), expected);
}

#[test]
fn a_reserved_object_is_filled_in_later() {
    let mut pdf = Pdf::new();
    let first = pdf.reserve();
    let second = pdf.add(b"(two)".to_vec());
    pdf.put(first, b"(one)".to_vec());
    assert_eq!((first, second), (1, 2));
    let text = String::from_utf8(pdf.bytes()).unwrap();
    assert!(text.starts_with("%PDF-1.7\n1 0 obj\n(one)\nendobj\n2 0 obj\n(two)\nendobj\n"));
    assert!(text.contains("0000000009 00000 n \n0000000030 00000 n \n"));
}

#[test]
fn every_fixture_is_a_pdf_file() {
    for bytes in [book_pdf(), offprint_pdf(), notes_pdf(), signed_pdf(), unsigned_field_pdf(), locked_pdf(), restricted_pdf()] {
        assert!(bytes.starts_with(b"%PDF-1.7\n"));
        assert!(bytes.ends_with(b"\n%%EOF\n"));
    }
}

#[test]
fn the_locked_fixtures_carry_an_encryption_dictionary() {
    assert_eq!(LOCKED_PASSWORD, "moonowl");
    let locked = locked_pdf();
    assert!(contains(&locked, "/Encrypt"));
    assert!(contains(&locked, "/ID [<4d6f6f6e6f776c206669787475726520>"));
    assert!(contains(&restricted_pdf(), "/Encrypt"));
    assert_ne!(locked, restricted_pdf());
    assert!(!contains(&book_pdf(), "/Encrypt"));
}

#[test]
fn a_turned_page_says_how_far() {
    assert!(contains(&turned_pdf(90), "/Rotate 90 "));
    assert!(contains(&turned_pdf(270), "/CropBox [36 48 576 756] /Rotate 270 "));
}

#[test]
fn a_title_is_written_into_the_info_dictionary_and_names_the_file() {
    let bytes = titled_pdf("On Owls");
    assert!(contains(&bytes, "(On Owls)"));
    assert!(contains(&bytes, "/Info "));
    assert_eq!(titled_name(""), "moonowl-fixture-titled-cbf29ce484222325.pdf");
    assert_eq!(titled_name("a"), "moonowl-fixture-titled-af63dc4c8601ec8c.pdf");
    assert_ne!(titled_name("On Owls"), titled_name("On owls"));
}

#[test]
fn the_offprint_prints_its_own_numbers() {
    let bytes = offprint_pdf();
    assert!(contains(&bytes, "/Count 19"));
    assert!(contains(&bytes, "(407)"));
    assert!(contains(&bytes, "(425)"));
    assert!(!contains(&bytes, "/PageLabels"));
}

#[test]
fn the_book_has_its_pages() {
    let bytes = book_pdf();
    assert!(contains(&bytes, "/Count 400"));
}

#[test]
fn the_contents_flatten_to_seven_rows_over_three_levels() {
    let expected: Vec<(String, usize, usize)> = vec![
        ("Front matter".to_string(), 0, 1),
        ("Preface".to_string(), 1, 2),
        ("Chapter One".to_string(), 0, 3),
        ("A section".to_string(), 1, 4),
        ("Under a section".to_string(), 2, 5),
        ("Another section".to_string(), 1, 6),
        ("Chapter Two".to_string(), 0, 8),
        ("Index".to_string(), 0, 11),
    ];
    assert_eq!(expected_headings(), expected);
}

#[test]
fn the_contents_document_carries_its_outline() {
    let bytes = contents_pdf();
    assert!(contains(&bytes, "/Count 12 /Kids"));
    assert!(contains(&bytes, "/Outlines 28 0 R /PageMode /UseOutlines"));
    assert!(contains(&bytes, "28 0 obj\n<< /Type /Outlines /Count 4 /First 29 0 R /Last 32 0 R >>\nendobj\n"));
    assert!(contains(&bytes, "29 0 obj\n<< /Title (Front matter) /Parent 28 0 R /Dest [4 0 R /XYZ null null null] /Next 30 0 R /Count 1 /First 33 0 R /Last 33 0 R >>"));
    assert!(contains(&bytes, "<< /Title (Index) /Parent 28 0 R /Dest [14 0 R /XYZ null null null] /Prev 31 0 R >>"));
    assert!(contains(&bytes, "36 0 obj\n<< /Title (Under a section) /Parent 34 0 R /Dest [8 0 R /XYZ null null null] >>"));
    assert!(contains(&bytes, "/Size 37 "));
}

#[test]
fn a_short_draft_sends_every_entry_to_its_last_page() {
    let three = draft(3);
    let four = draft(4);
    assert_ne!(three.len(), four.len());
    assert!(contains(&three, "<< /Title (Index) /Parent 10 0 R /Dest [6 0 R /XYZ null null null] /Prev 13 0 R >>"));
}

#[test]
fn the_prose_is_set_in_three_fonts() {
    let bytes = prose_pdf();
    assert!(contains(&bytes, "/Count 6 /Kids [7 0 R 8 0 R 9 0 R 10 0 R 11 0 R 12 0 R]"));
    assert!(contains(&bytes, "BT 18 Tf 72 700 Td /F1 18 Tf (Type ) Tj /F2 18 Tf (\\001nd) Tj /F1 18 Tf ( to find it.) Tj ET"));
    assert!(contains(&bytes, "(Her r\\351sum\\351 is filed on this page.)"));
    assert!(contains(&bytes, "1 beginbfchar <02> <00ad> endbfchar"));
    assert!(contains(&bytes, "/ToUnicode 5 0 R"));
    assert_eq!(PROSE().len(), 6);
    assert_eq!(PROSE()[5][1], ("F3", "\\002"));
}

#[test]
fn the_linked_document_numbers_its_own_pages() {
    let bytes = links_pdf();
    assert!(contains(&bytes, "/PageLabels << /Nums [0 << /S /r >> 3 << /S /D /St 1 >>] >>"));
    assert!(contains(&bytes, "/MediaBox [0 0 612 792] /CropBox [0 100 612 792] /Resources"));
    assert!(contains(&bytes, "/Dest [8 0 R /XYZ null 400 null]"));
    assert!(contains(&bytes, "/A << /S /GoTo /D [9 0 R /Fit] >>"));
    assert!(contains(&bytes, "/Contents 14 0 R /Annots [10 0 R 11 0 R] >>"));
    assert_eq!(LABELS(), vec!["i", "ii", "iii", "1", "2", "3"]);
}

#[test]
fn a_title_that_would_end_its_string_early_is_escaped() {
    assert!(contains(&titled_pdf("A (short) note\\"), "<< /Title (A \\(short\\) note\\\\) >>"));
}
