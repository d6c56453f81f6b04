//! Documents written by hand, for the tests that need a shape no other
//! fixture has, each the bytes of a PDF file: what is being tested is the
//! reader, and a fixture that needs debugging is a fixture that has stopped
//! being evidence.
//!
//! Writing a fixture to disk is done outside this library; the bytes it
//! writes are made here.

use vstd::prelude::*;
use crate::text::chars_of;
use crate::fixture::crypt::{extend, hex, hex_of, md5, md5_digest, object_key, object_key_of, pad, pad_bytes, padded, padded_of, rc4, rc4_of, encryption_key, key_of};
use crate::fixture::writer::{bodies, number, pdf_file, put_number, put_text, utf8, Pdf};
use crate::fixture::outline::{contents_outline, count, ends, ends_of, lemma_contents_count, level, outline_of, write_sections};

pub mod crypt;
pub mod writer;
pub mod outline;

pub use self::crypt::digest_for_test;
pub use self::outline::{expected_headings, section, Section, CONTENTS};

verus! {

/* ------------------------------------------------------- the documents */

/// The one font every fixture sets its type in.
pub open spec fn font_body() -> Seq<u8> {
    utf8("<< /Type /Font /Subtype /Type1 /BaseFont /Helvetica >>"@)
}

/// A stream object around some content.
pub open spec fn content_body(stream: Seq<u8>) -> Seq<u8> {
    utf8("<< /Length "@) + number(stream.len() as int) + utf8(" >>\nstream\n"@) + stream + utf8("\nendstream"@)
}

/// A US Letter page set in the one font, with its content, and whatever the
/// page adds at the end of its dictionary.
pub open spec fn page_body(tree: int, font: int, content: int, more: Seq<u8>) -> Seq<u8> {
    utf8("<< /Type /Page /Parent "@) + number(tree) + utf8(" 0 R /MediaBox [0 0 612 792] /Resources << /Font << /F1 "@)
        + number(font) + utf8(" 0 R >> >> /Contents "@) + number(content) + utf8(" 0 R"@) + more + utf8(" >>"@)
}

/// Object references, one space between each two.
pub open spec fn kids_text(ids: Seq<int>) -> Seq<u8>
    decreases ids.len(),
{
    if ids.len() == 0 {
        Seq::empty()
    } else if ids.len() == 1 {
        number(ids[0]) + utf8(" 0 R"@)
    } else {
        kids_text(ids.drop_last()) + utf8(" "@) + number(ids.last()) + utf8(" 0 R"@)
    }
}

/// The page tree.
pub open spec fn pages_body(count: int, ids: Seq<int>) -> Seq<u8> {
    utf8("<< /Type /Pages /Count "@) + number(count) + utf8(" /Kids ["@) + kids_text(ids) + utf8("] >>"@)
}

/// `count` object numbers from `first` on.
pub open spec fn run_of_ids(first: int, count: int) -> Seq<int> {
    Seq::new(count as nat, |i: int| first + i)
}

fn content_of(stream: &Vec<u8>) -> (r: Vec<u8>)
    ensures
        r@ == content_body(stream@),
{
    let mut out: Vec<u8> = Vec::new();
    put_text(&mut out, "<< /Length ");
    put_number(&mut out, stream.len());
    put_text(&mut out, " >>\nstream\n");
    extend(&mut out, stream.as_slice());
    put_text(&mut out, "\nendstream");
    proof { assert(out@ =~= content_body(stream@)); }
    out
}

fn page_of(tree: usize, font: usize, content: usize, more: &Vec<u8>) -> (r: Vec<u8>)
    ensures
        r@ == page_body(tree as int, font as int, content as int, more@),
{
    let mut out: Vec<u8> = Vec::new();
    put_text(&mut out, "<< /Type /Page /Parent ");
    put_number(&mut out, tree);
    put_text(&mut out, " 0 R /MediaBox [0 0 612 792] /Resources << /Font << /F1 ");
    put_number(&mut out, font);
    put_text(&mut out, " 0 R >> >> /Contents ");
    put_number(&mut out, content);
    put_text(&mut out, " 0 R");
    extend(&mut out, more.as_slice());
    put_text(&mut out, " >>");
    proof { assert(out@ =~= page_body(tree as int, font as int, content as int, more@)); }
    out
}

fn kids_of(first: usize, count: usize) -> (r: Vec<u8>)
    requires
        first + count <= usize::MAX,
    ensures
        r@ == kids_text(run_of_ids(first as int, count as int)),
{
    let mut out: Vec<u8> = Vec::new();
    let mut i: usize = 0;
    proof { assert(run_of_ids(first as int, 0) =~= Seq::<int>::empty()); }
    while i < count
        invariant
            first + count <= usize::MAX,
            i <= count,
            out@ == kids_text(run_of_ids(first as int, i as int)),
        decreases count - i,
    {
        proof { assert(run_of_ids(first as int, i + 1).drop_last() =~= run_of_ids(first as int, i as int)); }
        if i > 0 {
            put_text(&mut out, " ");
        }
        put_number(&mut out, first + i);
        put_text(&mut out, " 0 R");
        proof {
            if i == 0 {
                assert(out@ =~= kids_text(run_of_ids(first as int, 1)));
            } else {
                assert(out@ =~= kids_text(run_of_ids(first as int, i + 1)));
            }
        }
        i = i + 1;
    }
    out
}

fn pages_of(count: usize, first: usize) -> (r: Vec<u8>)
    requires
        first + count <= usize::MAX,
    ensures
        r@ == pages_body(count as int, run_of_ids(first as int, count as int)),
{
    let mut out: Vec<u8> = Vec::new();
    put_text(&mut out, "<< /Type /Pages /Count ");
    put_number(&mut out, count);
    put_text(&mut out, " /Kids [");
    let kids = kids_of(first, count);
    extend(&mut out, kids.as_slice());
    put_text(&mut out, "] >>");
    proof { assert(out@ =~= pages_body(count as int, run_of_ids(first as int, count as int))); }
    out
}

fn text_of(s: &str) -> (r: Vec<u8>)
    ensures
        r@ == utf8(s@),
{
    let mut out: Vec<u8> = Vec::new();
    put_text(&mut out, s);
    proof { assert(out@ =~= utf8(s@)); }
    out
}

/// The catalogue of a document with nothing but its pages.
pub open spec fn catalog_body(tree: int) -> Seq<u8> {
    utf8("<< /Type /Catalog /Pages "@) + number(tree) + utf8(" 0 R >>"@)
}

fn catalog_of(tree: usize) -> (r: Vec<u8>)
    ensures
        r@ == catalog_body(tree as int),
{
    let mut out: Vec<u8> = Vec::new();
    put_text(&mut out, "<< /Type /Catalog /Pages ");
    put_number(&mut out, tree);
    put_text(&mut out, " 0 R >>");
    proof { assert(out@ =~= catalog_body(tree as int)); }
    out
}

/// What every page of the book says: its number and a sentence a dozen
/// times over, set as one long line.
pub open spec fn book_stream(page: int) -> Seq<u8> {
    utf8("BT /F1 11 Tf 54 720 Td 14 TL (Page "@) + number(page) + utf8(". "@) + repeated(utf8("The quick brown fox jumps over the lazy dog. "@), 12)
        + utf8(") Tj ET"@)
}

/// Some bytes `n` times over.
pub open spec fn repeated(s: Seq<u8>, n: int) -> Seq<u8>
    decreases n,
{
    if n <= 0 { Seq::empty() } else { repeated(s, n - 1) + s }
}

fn push_all(out: &mut Vec<Vec<u8>>, more: &Vec<Vec<u8>>)
    ensures
        bodies(final(out)@) == bodies(old(out)@) + bodies(more@),
{
    let mut i: usize = 0;
    while i < more.len()
        invariant
            i <= more@.len(),
            bodies(out@) == bodies(old(out)@) + bodies(more@).take(i as int),
        decreases more@.len() - i,
    {
        let mut copy: Vec<u8> = Vec::new();
        extend(&mut copy, more[i].as_slice());
        let ghost before = out@;
        out.push(copy);
        proof {
            assert(bodies(out@) =~= bodies(before).push(more@[i as int]@));
            assert(bodies(more@).take(i + 1) =~= bodies(more@).take(i as int).push(more@[i as int]@));
        }
        i = i + 1;
    }
    proof { assert(bodies(more@).take(more@.len() as int) =~= bodies(more@)); }
}

/// The pages of a plain document: each in the one font with its own
/// content, which comes `first_content` on; the first page alone with
/// `annots` at the end of its dictionary.
pub open spec fn plain_pages(n: int, first_content: int, annots: Seq<u8>) -> Seq<Seq<u8>> {
    Seq::new(n as nat, |i: int| page_body(2, 3, first_content + i, if i == 0 { annots } else { Seq::empty() }))
}

fn plain_pages_of(n: usize, first_content: usize, annots: &Vec<u8>) -> (r: Vec<Vec<u8>>)
    requires
        first_content + n <= usize::MAX,
    ensures
        bodies(r@) == plain_pages(n as int, first_content as int, annots@),
{
    let mut out: Vec<Vec<u8>> = Vec::new();
    let empty: Vec<u8> = Vec::new();
    let mut i: usize = 0;
    while i < n
        invariant
            first_content + n <= usize::MAX,
            i <= n,
            empty@ == Seq::<u8>::empty(),
            bodies(out@) == plain_pages(n as int, first_content as int, annots@).take(i as int),
        decreases n - i,
    {
        let more = if i == 0 { annots } else { &empty };
        let page = page_of(2, 3, first_content + i, more);
        let ghost before = out@;
        out.push(page);
        proof {
            assert(bodies(out@) =~= bodies(before).push(page@));
            assert(plain_pages(n as int, first_content as int, annots@).take(i + 1)
                =~= plain_pages(n as int, first_content as int, annots@).take(i as int).push(page@));
        }
        i = i + 1;
    }
    proof { assert(plain_pages(n as int, first_content as int, annots@).take(n as int) =~= plain_pages(n as int, first_content as int, annots@)); }
    out
}

/// The content streams of some pages, each page's text made by `stream`.
pub open spec fn contents_of(n: int, stream: spec_fn(int) -> Seq<u8>) -> Seq<Seq<u8>> {
    Seq::new(n as nat, |i: int| content_body(stream(i)))
}

fn document_bytes(objects: Vec<Vec<u8>>) -> (r: Vec<u8>)
    requires
        objects@.len() < usize::MAX,
    ensures
        r@ == pdf_file(bodies(objects@), None, None, None),
{
    let pdf = Pdf { objects, info: None, encrypt: None, id: None };
    pdf.bytes()
}

/// What every page of the book says: its number and a sentence a dozen
/// times over, as one long line.
fn book_stream_of(page: usize) -> (r: Vec<u8>)
    ensures
        r@ == book_stream(page as int),
{
    let mut out: Vec<u8> = Vec::new();
    put_text(&mut out, "BT /F1 11 Tf 54 720 Td 14 TL (Page ");
    put_number(&mut out, page);
    put_text(&mut out, ". ");
    let ghost before = out@;
    let mut k: usize = 0;
    while k < 12
        invariant
            k <= 12,
            out@ == before + repeated(utf8("The quick brown fox jumps over the lazy dog. "@), k as int),
        decreases 12 - k,
    {
        put_text(&mut out, "The quick brown fox jumps over the lazy dog. ");
        proof { assert(out@ =~= before + repeated(utf8("The quick brown fox jumps over the lazy dog. "@), k + 1)); }
        k = k + 1;
    }
    put_text(&mut out, ") Tj ET");
    proof { assert(out@ =~= book_stream(page as int)); }
    out
}

/// The objects of the book of `n` pages.
pub open spec fn book_objects(n: int) -> Seq<Seq<u8>> {
    seq![catalog_body(2), pages_body(n, run_of_ids(4, n)), font_body()] + plain_pages(n, 4 + n, Seq::empty())
        + contents_of(n, |i: int| book_stream(i + 1))
}

fn plain_start(n: usize) -> (r: Vec<Vec<u8>>)
    requires
        n + 4 <= usize::MAX,
    ensures
        bodies(r@) == seq![catalog_body(2), pages_body(n as int, run_of_ids(4, n as int)), font_body()],
{
    let mut objects: Vec<Vec<u8>> = Vec::new();
    objects.push(catalog_of(2));
    objects.push(pages_of(n, 4));
    objects.push(text_of("<< /Type /Font /Subtype /Type1 /BaseFont /Helvetica >>"));
    proof { assert(bodies(objects@) =~= seq![catalog_body(2), pages_body(n as int, run_of_ids(4, n as int)), font_body()]); }
    objects
}

/// The book: `pages` pages of the same sentence, set as one long line so a
/// page has a block of ink on it and a wide margin around it.
fn build_book(pages: usize) -> (r: Vec<u8>)
    requires
        pages <= 1_000_000,
    ensures
        r@ == pdf_file(book_objects(pages as int), None, None, None),
{
    let mut objects = plain_start(pages);
    let empty: Vec<u8> = Vec::new();
    let page_list = plain_pages_of(pages, 4 + pages, &empty);
    push_all(&mut objects, &page_list);
    let mut streams: Vec<Vec<u8>> = Vec::new();
    let mut i: usize = 0;
    while i < pages
        invariant
            pages <= 1_000_000,
            i <= pages,
            bodies(streams@) == contents_of(pages as int, |k: int| book_stream(k + 1)).take(i as int),
        decreases pages - i,
    {
        let stream = book_stream_of(i + 1);
        let content = content_of(&stream);
        let ghost before = streams@;
        streams.push(content);
        proof {
            assert(bodies(streams@) =~= bodies(before).push(content@));
            assert(contents_of(pages as int, |k: int| book_stream(k + 1)).take(i + 1)
                =~= contents_of(pages as int, |k: int| book_stream(k + 1)).take(i as int).push(content@));
        }
        i = i + 1;
    }
    proof { assert(contents_of(pages as int, |k: int| book_stream(k + 1)).take(pages as int) =~= contents_of(pages as int, |k: int| book_stream(k + 1))); }
    push_all(&mut objects, &streams);
    proof { assert(bodies(objects@) =~= book_objects(pages as int)); }
    document_bytes(objects)
}

/// The four hundred page book, which most of the suite reads.
pub fn book_pdf() -> (r: Vec<u8>)
    ensures
        r@ == pdf_file(book_objects(400), None, None, None),
{
    build_book(400)
}

/// A document laid out as every fixture here lays one out: the catalogue,
/// the page tree, what is added before the pages, the pages, what is added
/// between the pages and their content, the content, and what comes last.
pub open spec fn laid_out(catalog: Seq<u8>, head: Seq<Seq<u8>>, pages: Seq<Seq<u8>>, middle: Seq<Seq<u8>>, contents: Seq<Seq<u8>>, tail: Seq<Seq<u8>>) -> Seq<Seq<u8>> {
    seq![catalog, pages_body(pages.len() as int, run_of_ids((3 + head.len()) as int, pages.len() as int))] + head + pages + middle + contents + tail
}

/// Where the first page's content goes in a document laid out so.
pub open spec fn first_content(head: int, n: int, middle: int) -> int {
    3 + head + n + middle
}

fn contents_list<F: Fn(usize) -> Vec<u8>>(n: usize, stream: F, Ghost(text): Ghost<spec_fn(int) -> Seq<u8>>) -> (r: Vec<Vec<u8>>)
    requires
        forall|i: usize| i < n ==> stream.requires((i,)),
        forall|i: usize, out: Vec<u8>| i < n && #[trigger] stream.ensures((i,), out) ==> out@ == text(i as int),
    ensures
        bodies(r@) == contents_of(n as int, text),
{
    let mut out: Vec<Vec<u8>> = Vec::new();
    let mut i: usize = 0;
    while i < n
        invariant
            i <= n,
            forall|i: usize| i < n ==> stream.requires((i,)),
            forall|i: usize, out: Vec<u8>| i < n && #[trigger] stream.ensures((i,), out) ==> out@ == text(i as int),
            bodies(out@) == contents_of(n as int, text).take(i as int),
        decreases n - i,
    {
        let s = stream(i);
        let content = content_of(&s);
        let ghost before = out@;
        out.push(content);
        proof {
            assert(bodies(out@) =~= bodies(before).push(content@));
            assert(contents_of(n as int, text).take(i + 1) =~= contents_of(n as int, text).take(i as int).push(content@));
        }
        i = i + 1;
    }
    proof { assert(contents_of(n as int, text).take(n as int) =~= contents_of(n as int, text)); }
    out
}

fn lay_out(catalog: Vec<u8>, head: &Vec<Vec<u8>>, pages: &Vec<Vec<u8>>, middle: &Vec<Vec<u8>>, contents: &Vec<Vec<u8>>, tail: &Vec<Vec<u8>>) -> (r: Vec<Vec<u8>>)
    requires
        3 + head@.len() + pages@.len() <= usize::MAX,
    ensures
        bodies(r@) == laid_out(catalog@, bodies(head@), bodies(pages@), bodies(middle@), bodies(contents@), bodies(tail@)),
{
    let mut objects: Vec<Vec<u8>> = Vec::new();
    let ghost c = catalog@;
    objects.push(catalog);
    let tree = pages_of(pages.len(), 3 + head.len());
    objects.push(tree);
    proof { assert(bodies(objects@) =~= seq![c, pages_body(pages@.len() as int, run_of_ids((3 + head@.len()) as int, pages@.len() as int))]); }
    push_all(&mut objects, head);
    push_all(&mut objects, pages);
    push_all(&mut objects, middle);
    push_all(&mut objects, contents);
    push_all(&mut objects, tail);
    objects
}

fn one(body: Vec<u8>) -> (r: Vec<Vec<u8>>)
    ensures
        bodies(r@) == seq![body@],
{
    let mut v: Vec<Vec<u8>> = Vec::new();
    v.push(body);
    proof { assert(bodies(v@) =~= seq![body@]); }
    v
}

/* ----------------------------------------------------------- the offprint */

/// What a page of the offprint says: a running head with the year, its body,
/// and its number at the foot, printed 407 on.
pub open spec fn offprint_stream(i: int) -> Seq<u8> {
    utf8("BT /F1 9 Tf 72 760 Td (JOURNAL OF THINGS 2011 Vol. 100) Tj ET \
          BT /F1 11 Tf 72 600 Td (Body text on page "@) + number(i + 1) + utf8(".) Tj ET \
          BT /F1 10 Tf 300 40 Td ("@) + number(407 + i) + utf8(") Tj ET"@)
}

fn offprint_stream_of(i: usize) -> (r: Vec<u8>)
    requires
        i < 19,
    ensures
        r@ == offprint_stream(i as int),
{
    let mut out: Vec<u8> = Vec::new();
    put_text(&mut out, "BT /F1 9 Tf 72 760 Td (JOURNAL OF THINGS 2011 Vol. 100) Tj ET \
          BT /F1 11 Tf 72 600 Td (Body text on page ");
    put_number(&mut out, i + 1);
    put_text(&mut out, ".) Tj ET \
          BT /F1 10 Tf 300 40 Td (");
    put_number(&mut out, 407 + i);
    put_text(&mut out, ") Tj ET");
    proof { assert(out@ =~= offprint_stream(i as int)); }
    out
}

/// The offprint: nineteen pages with nothing in the file to say how they
/// are numbered.
pub open spec fn offprint_objects() -> Seq<Seq<u8>> {
    laid_out(catalog_body(2), seq![font_body()], plain_pages(19, first_content(1, 19, 0), Seq::empty()), Seq::empty(),
        contents_of(19, |i: int| offprint_stream(i)), Seq::empty())
}

/// A journal offprint: nineteen pages printed 407 to 425 at the foot, a
/// running head with the year on every one, and no `/PageLabels`.
pub fn offprint_pdf() -> (r: Vec<u8>)
    ensures
        r@ == pdf_file(offprint_objects(), None, None, None),
{
    let head = one(text_of("<< /Type /Font /Subtype /Type1 /BaseFont /Helvetica >>"));
    let empty: Vec<u8> = Vec::new();
    let pages = plain_pages_of(19, 3 + 1 + 19, &empty);
    let none: Vec<Vec<u8>> = Vec::new();
    let streams = contents_list(19, offprint_stream_of, Ghost(|i: int| offprint_stream(i)));
    proof {
        assert(bodies(none@) =~= Seq::<Seq<u8>>::empty());
        assert(bodies(head@).len() == head@.len() && bodies(pages@).len() == pages@.len());
    }
    let objects = lay_out(catalog_of(2), &head, &pages, &none, &streams, &none);
    proof { assert(bodies(objects@).len() == objects@.len()); }
    document_bytes(objects)
}

/* --------------------------------------------------------------- notes */

/// The plain line a fixture page says.
pub open spec fn fixture_stream(i: int) -> Seq<u8> {
    utf8("BT /F1 18 Tf 72 700 Td (Page "@) + number(i + 1) + utf8(" of the fixture.) Tj ET"@)
}

fn fixture_stream_of(i: usize) -> (r: Vec<u8>)
    requires
        i < usize::MAX,
    ensures
        r@ == fixture_stream(i as int),
{
    let mut out: Vec<u8> = Vec::new();
    put_text(&mut out, "BT /F1 18 Tf 72 700 Td (Page ");
    put_number(&mut out, i + 1);
    put_text(&mut out, " of the fixture.) Tj ET");
    proof { assert(out@ =~= fixture_stream(i as int)); }
    out
}

/// The notes somebody left: a sticky note, a comment over a passage, an
/// annotation with nothing to read, and a link, which is never a note.
pub open spec fn notes_left() -> Seq<Seq<u8>> {
    seq![
        utf8("<< /Type /Annot /Subtype /Text /Rect [500 700 520 720] /T (A Reader) \
         /Contents (Check this against the second edition.) >>"@),
        utf8("<< /Type /Annot /Subtype /Highlight /Rect [72 690 400 715] \
         /QuadPoints [72 715 400 715 72 690 400 690] \
         /Contents (This is the sentence the whole argument turns on.) >>"@),
        utf8("<< /Type /Annot /Subtype /Square /Rect [72 600 200 640] >>"@),
        utf8("<< /Type /Annot /Subtype /Link /Rect [72 500 200 520] /Border [0 0 0] \
         /Contents (not a note) /A << /S /URI /URI (https://example.com) >> >>"@)
    ]
}

pub open spec fn notes_objects() -> Seq<Seq<u8>> {
    laid_out(catalog_body(2), seq![font_body()],
        plain_pages(3, first_content(1, 3, 4), utf8(" /Annots [7 0 R 8 0 R 9 0 R 10 0 R]"@)), notes_left(),
        contents_of(3, |i: int| fixture_stream(i)), Seq::empty())
}

/// A document with the notes somebody else left in it, on its first page.
pub fn notes_pdf() -> (r: Vec<u8>)
    ensures
        r@ == pdf_file(notes_objects(), None, None, None),
{
    let head = one(text_of("<< /Type /Font /Subtype /Type1 /BaseFont /Helvetica >>"));
    let annots = text_of(" /Annots [7 0 R 8 0 R 9 0 R 10 0 R]");
    let pages = plain_pages_of(3, 3 + 1 + 3 + 4, &annots);
    let mut middle: Vec<Vec<u8>> = Vec::new();
    middle.push(text_of("<< /Type /Annot /Subtype /Text /Rect [500 700 520 720] /T (A Reader) \
         /Contents (Check this against the second edition.) >>"));
    middle.push(text_of("<< /Type /Annot /Subtype /Highlight /Rect [72 690 400 715] \
         /QuadPoints [72 715 400 715 72 690 400 690] \
         /Contents (This is the sentence the whole argument turns on.) >>"));
    middle.push(text_of("<< /Type /Annot /Subtype /Square /Rect [72 600 200 640] >>"));
    middle.push(text_of("<< /Type /Annot /Subtype /Link /Rect [72 500 200 520] /Border [0 0 0] \
         /Contents (not a note) /A << /S /URI /URI (https://example.com) >> >>"));
    proof { assert(bodies(middle@) =~= notes_left()); }
    let streams = contents_list(3, fixture_stream_of, Ghost(|i: int| fixture_stream(i)));
    let none: Vec<Vec<u8>> = Vec::new();
    proof {
        assert(bodies(none@) =~= Seq::<Seq<u8>>::empty());
        assert(bodies(head@).len() == head@.len() && bodies(pages@).len() == pages@.len());
    }
    let objects = lay_out(catalog_of(2), &head, &pages, &middle, &streams, &none);
    proof { assert(bodies(objects@).len() == objects@.len()); }
    document_bytes(objects)
}

/* -------------------------------------------------------------- contents */

/// The page objects of a document with one object before its pages.
pub open spec fn page_numbers(n: int) -> Seq<usize> {
    Seq::new(n as nat, |i: int| (4 + i) as usize)
}

/// The catalogue of a document that opens on its own outline.
pub open spec fn outlined_catalog(outline: int) -> Seq<u8> {
    utf8("<< /Type /Catalog /Pages "@) + number(2) + utf8(" 0 R /Outlines "@) + number(outline)
        + utf8(" 0 R /PageMode /UseOutlines >>"@)
}

/// The root of an outline whose top level is `count` entries from `first`.
pub open spec fn outlines_body(count: int, first: int) -> Seq<u8> {
    utf8("<< /Type /Outlines /Count "@) + number(count) + utf8(" "@) + ends(run_of_ids(first, count)) + utf8(" >>"@)
}

/// The pages of a document of `n` plain pages, and their content, under a
/// catalogue that opens on the outline that comes after them.
#[verifier::opaque]
pub open spec fn outlined_start(n: int) -> Seq<Seq<u8>> {
    laid_out(outlined_catalog(4 + 2 * n), seq![font_body()], plain_pages(n, first_content(1, n, 0), Seq::empty()), Seq::empty(),
        contents_of(n, |i: int| fixture_stream(i)), Seq::empty())
}

/// A document of `n` plain pages that carries the fixture's contents as its
/// own outline: the pages and their content, then the outline's root, then
/// the outline.
pub open spec fn outlined_objects(n: int) -> Seq<Seq<u8>> {
    let outline = 4 + 2 * n;
    outlined_start(n) + seq![outlines_body(contents_outline().len() as int, outline + 1)]
        + level(contents_outline(), outline, outline + 1, page_numbers(n))
}

fn page_numbers_of(n: usize) -> (r: Vec<usize>)
    requires
        n + 4 <= usize::MAX,
    ensures
        r@ == page_numbers(n as int),
{
    let mut out: Vec<usize> = Vec::new();
    let mut i: usize = 0;
    while i < n
        invariant
            n + 4 <= usize::MAX,
            i <= n,
            out@ == page_numbers(n as int).take(i as int),
        decreases n - i,
    {
        out.push(4 + i);
        proof { assert(out@ =~= page_numbers(n as int).take(i + 1)); }
        i = i + 1;
    }
    proof { assert(page_numbers(n as int).take(n as int) =~= page_numbers(n as int)); }
    out
}

/// The pages of a document of `pages` plain pages, and their content, under
/// a catalogue that opens on the outline that comes after them.
fn outlined_pages(pages: usize) -> (r: Vec<Vec<u8>>)
    requires
        1 <= pages,
        2 * pages + 16 < usize::MAX,
    ensures
        bodies(r@) == outlined_start(pages as int),
        r@.len() == 3 + 2 * pages,
{
    let head = one(text_of("<< /Type /Font /Subtype /Type1 /BaseFont /Helvetica >>"));
    let empty: Vec<u8> = Vec::new();
    let page_list = plain_pages_of(pages, 3 + 1 + pages, &empty);
    let streams = contents_list(pages, fixture_stream_of, Ghost(|i: int| fixture_stream(i)));
    let outline = 4 + 2 * pages;
    let mut catalog: Vec<u8> = Vec::new();
    put_text(&mut catalog, "<< /Type /Catalog /Pages ");
    put_number(&mut catalog, 2);
    put_text(&mut catalog, " 0 R /Outlines ");
    put_number(&mut catalog, outline);
    put_text(&mut catalog, " 0 R /PageMode /UseOutlines >>");
    proof { assert(catalog@ =~= outlined_catalog(outline as int)); }
    let none: Vec<Vec<u8>> = Vec::new();
    proof {
        assert(bodies(none@) =~= Seq::<Seq<u8>>::empty());
        assert(bodies(head@).len() == head@.len() && bodies(page_list@).len() == page_list@.len());
        assert(bodies(streams@).len() == streams@.len());
    }
    let objects = lay_out(catalog, &head, &page_list, &none, &streams, &none);
    proof {
        reveal(outlined_start);
        assert(bodies(objects@).len() == objects@.len());
    }
    objects
}

/// A document of `pages` plain pages with the contents as its outline.
#[verifier::spinoff_prover]
#[verifier::rlimit(40)]
fn build(pages: usize) -> (r: Vec<u8>)
    requires
        1 <= pages,
        2 * pages + 16 < usize::MAX,
    ensures
        r@ == pdf_file(outlined_objects(pages as int), None, None, None),
{
    let outline = 4 + 2 * pages;
    let objects = outlined_pages(pages);
    let ghost laid = bodies(objects@);
    let mut pdf = Pdf { objects, info: None, encrypt: None, id: None };
    let reserved = pdf.reserve();
    proof {
        assert(bodies(pdf.objects@).len() == pdf.objects@.len());
        assert(reserved == outline);
    }
    let page_ids = page_numbers_of(pages);
    let contents = CONTENTS();
    proof {
        lemma_contents_count();
        assert(count(outline_of(contents@)) == 8);
    }
    let top = write_sections(&mut pdf, &contents, reserved, &page_ids);
    let mut body: Vec<u8> = Vec::new();
    put_text(&mut body, "<< /Type /Outlines /Count ");
    put_number(&mut body, contents.len());
    put_text(&mut body, " ");
    let both = ends_of(&top);
    extend(&mut body, both.as_slice());
    put_text(&mut body, " >>");
    proof {
        crate::fixture::outline::lemma_outline_len(contents@);
        assert(body@ =~= outlines_body(contents_outline().len() as int, outline + 1));
        assert(bodies(pdf.objects@).len() == pdf.objects@.len());
    }
    pdf.put(reserved, body);
    proof {
        let lv = level(contents_outline(), outline as int, outline + 1, page_numbers(pages as int));
        crate::fixture::outline::lemma_level_len(contents_outline(), outline as int, outline + 1, page_numbers(pages as int));
        assert((laid.push(Seq::empty()) + lv).update(laid.len() as int, body@) =~= laid + seq![body@] + lv);
        assert(bodies(pdf.objects@).len() == pdf.objects@.len());
    }
    pdf.bytes()
}

/// A twelve-page document that carries the fixture's contents as its own
/// outline.
pub fn contents_pdf() -> (r: Vec<u8>)
    ensures
        r@ == pdf_file(outlined_objects(12), None, None, None),
{
    build(12)
}

/// A document of `pages` pages: what a recompile writes over a document a
/// reader holds open, a different length each time so that a test can tell
/// the drafts apart.
pub fn draft(pages: usize) -> (r: Vec<u8>)
    requires
        1 <= pages,
        2 * pages + 16 < usize::MAX,
    ensures
        r@ == pdf_file(outlined_objects(pages as int), None, None, None),
{
    build(pages)
}

/* ----------------------------------------------------------------- prose */

/// What each page of the prose document says: a list of runs, each naming
/// the font it is set in. `F1` is everything ordinary; `F2` and `F3` exist
/// for one character each, a ligature and a soft hyphen.
pub open spec fn prose_runs() -> Seq<Seq<(Seq<char>, Seq<char>)>> {
    seq![
        seq![("F1"@, "A needle in the first page."@)],
        seq![("F1"@, "Nothing to look for on this one."@)],
        seq![("F1"@, "The needle again, and a needle beside it."@)],
        seq![("F1"@, "Type "@), ("F2"@, "\\001nd"@), ("F1"@, " to find it."@)],
        seq![("F1"@, "Her r\\351sum\\351 is filed on this page."@)],
        seq![("F1"@, "The word typo"@), ("F3"@, "\\002"@), ("F1"@, "graphy broke across a line."@)]
    ]
}

pub open spec fn runs_view(v: Seq<(&'static str, &'static str)>) -> Seq<(Seq<char>, Seq<char>)> {
    v.map_values(|r: (&'static str, &'static str)| (r.0@, r.1@))
}

/// What each page of the prose document says.
#[allow(non_snake_case)]
pub fn PROSE() -> (r: Vec<Vec<(&'static str, &'static str)>>)
    ensures
        r@.map_values(|p: Vec<(&'static str, &'static str)>| runs_view(p@)) == prose_runs(),
{
    let r = vec![
        vec![("F1", "A needle in the first page.")],
        vec![("F1", "Nothing to look for on this one.")],
        vec![("F1", "The needle again, and a needle beside it.")],
        vec![("F1", "Type "), ("F2", "\\001nd"), ("F1", " to find it.")],
        vec![("F1", "Her r\\351sum\\351 is filed on this page.")],
        vec![("F1", "The word typo"), ("F3", "\\002"), ("F1", "graphy broke across a line.")],
    ];
    proof {
        assert(runs_view(r@[0]@) =~= prose_runs()[0]);
        assert(runs_view(r@[1]@) =~= prose_runs()[1]);
        assert(runs_view(r@[2]@) =~= prose_runs()[2]);
        assert(runs_view(r@[3]@) =~= prose_runs()[3]);
        assert(runs_view(r@[4]@) =~= prose_runs()[4]);
        assert(runs_view(r@[5]@) =~= prose_runs()[5]);
        assert(r@.map_values(|p: Vec<(&'static str, &'static str)>| runs_view(p@)) =~= prose_runs());
    }
    r
}

/// Some runs of text, each set in its font.
pub open spec fn runs_text(runs: Seq<(Seq<char>, Seq<char>)>) -> Seq<u8>
    decreases runs.len(),
{
    if runs.len() == 0 {
        Seq::empty()
    } else {
        let (font, text) = runs[runs.len() - 1];
        runs_text(runs.subrange(0, runs.len() - 1)) + utf8(" /"@) + utf8(font) + utf8(" 18 Tf ("@) + utf8(text) + utf8(") Tj"@)
    }
}

proof fn lemma_runs_text_step(runs: Seq<(Seq<char>, Seq<char>)>, k: int)
    requires
        0 <= k < runs.len(),
    ensures
        runs_text(runs.subrange(0, k + 1)) == runs_text(runs.subrange(0, k)) + utf8(" /"@) + utf8(runs[k].0) + utf8(" 18 Tf ("@)
            + utf8(runs[k].1) + utf8(") Tj"@),
{
    assert(runs.subrange(0, k + 1).subrange(0, k) =~= runs.subrange(0, k));
    assert(runs.subrange(0, k + 1)[k] == runs[k]);
}

/// What a page of the prose document draws.
pub open spec fn prose_stream(runs: Seq<(Seq<char>, Seq<char>)>) -> Seq<u8> {
    utf8("BT 18 Tf 72 700 Td"@) + runs_text(runs) + utf8(" ET"@)
}

/// A `/ToUnicode` CMap around one `beginbfchar` block.
pub open spec fn cmap_text(chars: Seq<char>) -> Seq<u8> {
    utf8("/CIDInit /ProcSet findresource begin 12 dict begin begincmap\n\
         /CMapName /Custom def /CMapType 2 def\n\
         1 begincodespacerange <00> <ff> endcodespacerange\n"@) + utf8(chars)
        + utf8("\nendcmap CMapName currentdict /CMap defineresource pop end end"@)
}

/// The fonts of the prose document: Helvetica as WinAnsiEncoding has it, a
/// font that draws a ligature from one byte, the map that says a code is a
/// soft hyphen, and the font that uses it.
pub open spec fn prose_fonts() -> Seq<Seq<u8>> {
    seq![
        utf8("<< /Type /Font /Subtype /Type1 /BaseFont /Helvetica /Encoding /WinAnsiEncoding >>"@),
        utf8("<< /Type /Font /Subtype /Type1 /BaseFont /Helvetica \
         /Encoding << /Type /Encoding /BaseEncoding /WinAnsiEncoding \
         /Differences [1 /fi] >> >>"@),
        content_body(cmap_text("1 beginbfchar <02> <00ad> endbfchar"@)),
        utf8("<< /Type /Font /Subtype /Type1 /BaseFont /Helvetica \
         /Encoding << /Type /Encoding /BaseEncoding /WinAnsiEncoding \
         /Differences [2 /hyphen] >> /ToUnicode "@) + number(5) + utf8(" 0 R >>"@)
    ]
}

/// A page of the prose document, with the three fonts to hand.
pub open spec fn prose_page(i: int) -> Seq<u8> {
    utf8("<< /Type /Page /Parent "@) + number(2) + utf8(" 0 R /MediaBox [0 0 612 792] \
                 /Resources << /Font << /F1 "@) + number(3) + utf8(" 0 R /F2 "@) + number(4) + utf8(" 0 R \
                 /F3 "@) + number(6) + utf8(" 0 R >> >> /Contents "@) + number(13 + i) + utf8(" 0 R >>"@)
}

pub open spec fn prose_objects() -> Seq<Seq<u8>> {
    laid_out(catalog_body(2), prose_fonts(), Seq::new(6, |i: int| prose_page(i)), Seq::empty(),
        Seq::new(6, |i: int| content_body(prose_stream(prose_runs()[i]))), Seq::empty())
}

/// A `/ToUnicode` CMap object around one `beginbfchar` block.
fn to_unicode(chars: &str) -> (r: Vec<u8>)
    ensures
        r@ == content_body(cmap_text(chars@)),
{
    let mut cmap: Vec<u8> = Vec::new();
    put_text(&mut cmap, "/CIDInit /ProcSet findresource begin 12 dict begin begincmap\n\
         /CMapName /Custom def /CMapType 2 def\n\
         1 begincodespacerange <00> <ff> endcodespacerange\n");
    put_text(&mut cmap, chars);
    put_text(&mut cmap, "\nendcmap CMapName currentdict /CMap defineresource pop end end");
    proof { assert(cmap@ =~= cmap_text(chars@)); }
    content_of(&cmap)
}

fn prose_stream_of(runs: &Vec<(&'static str, &'static str)>) -> (r: Vec<u8>)
    ensures
        r@ == prose_stream(runs_view(runs@)),
{
    let ghost rv = runs_view(runs@);
    let mut out: Vec<u8> = Vec::new();
    put_text(&mut out, "BT 18 Tf 72 700 Td");
    let ghost start = out@;
    let mut k: usize = 0;
    proof { assert(rv.subrange(0, 0) =~= Seq::<(Seq<char>, Seq<char>)>::empty()); }
    while k < runs.len()
        invariant
            k <= runs@.len(),
            rv == runs_view(runs@),
            out@ == start + runs_text(rv.subrange(0, k as int)),
        decreases runs@.len() - k,
    {
        let font = runs[k].0;
        let text = runs[k].1;
        let ghost before = out@;
        put_text(&mut out, " /");
        put_text(&mut out, font);
        put_text(&mut out, " 18 Tf (");
        put_text(&mut out, text);
        put_text(&mut out, ") Tj");
        proof {
            lemma_runs_text_step(rv, k as int);
            assert(rv[k as int] == (font@, text@));
            assert(out@ =~= before + utf8(" /"@) + utf8(font@) + utf8(" 18 Tf ("@) + utf8(text@) + utf8(") Tj"@));
            assert(out@ =~= start + runs_text(rv.subrange(0, k + 1)));
        }
        k = k + 1;
    }
    put_text(&mut out, " ET");
    proof {
        assert(rv.subrange(0, runs@.len() as int) =~= rv);
        assert(out@ =~= prose_stream(rv));
    }
    out
}

fn prose_page_of(i: usize) -> (r: Vec<u8>)
    requires
        i < 6,
    ensures
        r@ == prose_page(i as int),
{
    let mut out: Vec<u8> = Vec::new();
    put_text(&mut out, "<< /Type /Page /Parent ");
    put_number(&mut out, 2);
    put_text(&mut out, " 0 R /MediaBox [0 0 612 792] \
                 /Resources << /Font << /F1 ");
    put_number(&mut out, 3);
    put_text(&mut out, " 0 R /F2 ");
    put_number(&mut out, 4);
    put_text(&mut out, " 0 R \
                 /F3 ");
    put_number(&mut out, 6);
    put_text(&mut out, " 0 R >> >> /Contents ");
    put_number(&mut out, 13 + i);
    put_text(&mut out, " 0 R >>");
    proof { assert(out@ =~= prose_page(i as int)); }
    out
}

fn build_prose() -> (r: Vec<u8>)
    ensures
        r@ == pdf_file(prose_objects(), None, None, None),
{
    let prose = PROSE();
    let mut head: Vec<Vec<u8>> = Vec::new();
    head.push(text_of("<< /Type /Font /Subtype /Type1 /BaseFont /Helvetica /Encoding /WinAnsiEncoding >>"));
    head.push(text_of("<< /Type /Font /Subtype /Type1 /BaseFont /Helvetica \
         /Encoding << /Type /Encoding /BaseEncoding /WinAnsiEncoding \
         /Differences [1 /fi] >> >>"));
    let map = to_unicode("1 beginbfchar <02> <00ad> endbfchar");
    head.push(map);
    let mut soft: Vec<u8> = Vec::new();
    put_text(&mut soft, "<< /Type /Font /Subtype /Type1 /BaseFont /Helvetica \
         /Encoding << /Type /Encoding /BaseEncoding /WinAnsiEncoding \
         /Differences [2 /hyphen] >> /ToUnicode ");
    put_number(&mut soft, 5);
    put_text(&mut soft, " 0 R >>");
    head.push(soft);
    proof { assert(bodies(head@) =~= prose_fonts()); }
    let mut pages: Vec<Vec<u8>> = Vec::new();
    let mut streams: Vec<Vec<u8>> = Vec::new();
    proof { assert(prose@.map_values(|p: Vec<(&'static str, &'static str)>| runs_view(p@)).len() == prose@.len()); }
    let mut i: usize = 0;
    while i < 6
        invariant
            i <= 6,
            prose@.len() == 6,
            prose@.map_values(|p: Vec<(&'static str, &'static str)>| runs_view(p@)) == prose_runs(),
            bodies(pages@) == Seq::new(6, |k: int| prose_page(k)).take(i as int),
            bodies(streams@) == Seq::new(6, |k: int| content_body(prose_stream(prose_runs()[k]))).take(i as int),
        decreases 6 - i,
    {
        let page = prose_page_of(i);
        let ghost before = pages@;
        pages.push(page);
        proof {
            assert(prose@.map_values(|p: Vec<(&'static str, &'static str)>| runs_view(p@))[i as int] == runs_view(prose@[i as int]@));
        }
        let stream = prose_stream_of(&prose[i]);
        let content = content_of(&stream);
        let ghost before_streams = streams@;
        streams.push(content);
        proof {
            assert(bodies(pages@) =~= bodies(before).push(page@));
            assert(Seq::new(6, |k: int| prose_page(k)).take(i + 1) =~= Seq::new(6, |k: int| prose_page(k)).take(i as int).push(page@));
            assert(bodies(streams@) =~= bodies(before_streams).push(content@));
            assert(Seq::new(6, |k: int| content_body(prose_stream(prose_runs()[k]))).take(i + 1)
                =~= Seq::new(6, |k: int| content_body(prose_stream(prose_runs()[k]))).take(i as int).push(content@));
        }
        i = i + 1;
    }
    proof {
        assert(Seq::new(6, |k: int| prose_page(k)).take(6) =~= Seq::new(6, |k: int| prose_page(k)));
        assert(Seq::new(6, |k: int| content_body(prose_stream(prose_runs()[k]))).take(6)
            =~= Seq::new(6, |k: int| content_body(prose_stream(prose_runs()[k]))));
    }
    let none: Vec<Vec<u8>> = Vec::new();
    proof {
        assert(bodies(none@) =~= Seq::<Seq<u8>>::empty());
        assert(bodies(head@).len() == head@.len() && bodies(pages@).len() == pages@.len());
    }
    let objects = lay_out(catalog_of(2), &head, &pages, &none, &streams, &none);
    proof { assert(bodies(objects@).len() == objects@.len()); }
    document_bytes(objects)
}

/// Six pages of prose, written to exercise the fold through the renderer:
/// a ligature drawn from one byte, an accent written precomposed, and a
/// soft hyphen that the document says is one.
pub fn prose_pdf() -> (r: Vec<u8>)
    ensures
        r@ == pdf_file(prose_objects(), None, None, None),
{
    build_prose()
}

/* ----------------------------------------------------------------- links */

/// The links the linked document carries, on its first three pages: an
/// address, a place in the document written as a destination, the same
/// written as an action, and a rectangle that goes nowhere.
pub open spec fn link_annots() -> Seq<Seq<u8>> {
    seq![
        utf8("<< /Type /Annot /Subtype /Link /Rect [72 700 200 720] /Border [0 0 0] \
         /A << /S /URI /URI (https://example.com/paper) >> >>"@),
        utf8("<< /Type /Annot /Subtype /Link /Rect [72 650 200 670] /Border [0 0 0] \
         /Dest ["@) + number(8) + utf8(" 0 R /XYZ null 400 null] >>"@),
        utf8("<< /Type /Annot /Subtype /Link /Rect [72 700 200 720] /Border [0 0 0] \
         /A << /S /GoTo /D ["@) + number(9) + utf8(" 0 R /Fit] >> >>"@),
        utf8("<< /Type /Annot /Subtype /Link /Rect [72 700 200 720] /Border [0 0 0] >>"@)
    ]
}

/// Which of the links a page of the linked document carries.
pub open spec fn link_list(i: int) -> Seq<u8> {
    if i == 0 {
        utf8(" /Annots ["@) + number(10) + utf8(" 0 R "@) + number(11) + utf8(" 0 R]"@)
    } else if i == 1 {
        utf8(" /Annots ["@) + number(12) + utf8(" 0 R]"@)
    } else if i == 2 {
        utf8(" /Annots ["@) + number(13) + utf8(" 0 R]"@)
    } else {
        Seq::empty()
    }
}

/// A page of the linked document: the fifth is cropped, so that a
/// destination on it is measured against the box it is drawn in.
pub open spec fn link_page(i: int) -> Seq<u8> {
    utf8("<< /Type /Page /Parent "@) + number(2) + utf8(" 0 R /MediaBox [0 0 612 792]"@)
        + (if i == 4 { utf8(" /CropBox [0 100 612 792]"@) } else { Seq::empty() })
        + utf8(" /Resources << /Font << /F1 "@) + number(3) + utf8(" 0 R >> >> /Contents "@) + number(14 + i) + utf8(" 0 R"@)
        + link_list(i) + utf8(" >>"@)
}

/// What a page of the linked document says: a line above the links, and
/// its number.
pub open spec fn link_stream(i: int) -> Seq<u8> {
    utf8("BT /F1 18 Tf 72 740 Td (Above the links.) Tj ET BT /F1 18 Tf 72 700 Td (Page "@) + number(i + 1)
        + utf8(" of the fixture.) Tj ET"@)
}

/// The labels the linked document gives its pages: lower-case roman, then
/// a fresh decimal run from 1.
pub open spec fn labelled_catalog() -> Seq<u8> {
    utf8("<< /Type /Catalog /Pages "@) + number(2) + utf8(" 0 R \
             /PageLabels << /Nums [0 << /S /r >> 3 << /S /D /St 1 >>] >> >>"@)
}

pub open spec fn links_objects() -> Seq<Seq<u8>> {
    laid_out(labelled_catalog(), seq![font_body()], Seq::new(6, |i: int| link_page(i)), link_annots(),
        contents_of(6, |i: int| link_stream(i)), Seq::empty())
}

fn link_page_of(i: usize) -> (r: Vec<u8>)
    requires
        i < 6,
    ensures
        r@ == link_page(i as int),
{
    let mut out: Vec<u8> = Vec::new();
    put_text(&mut out, "<< /Type /Page /Parent ");
    put_number(&mut out, 2);
    put_text(&mut out, " 0 R /MediaBox [0 0 612 792]");
    if i == 4 {
        put_text(&mut out, " /CropBox [0 100 612 792]");
    }
    put_text(&mut out, " /Resources << /Font << /F1 ");
    put_number(&mut out, 3);
    put_text(&mut out, " 0 R >> >> /Contents ");
    put_number(&mut out, 14 + i);
    put_text(&mut out, " 0 R");
    if i == 0 {
        put_text(&mut out, " /Annots [");
        put_number(&mut out, 10);
        put_text(&mut out, " 0 R ");
        put_number(&mut out, 11);
        put_text(&mut out, " 0 R]");
    } else if i == 1 {
        put_text(&mut out, " /Annots [");
        put_number(&mut out, 12);
        put_text(&mut out, " 0 R]");
    } else if i == 2 {
        put_text(&mut out, " /Annots [");
        put_number(&mut out, 13);
        put_text(&mut out, " 0 R]");
    }
    put_text(&mut out, " >>");
    proof { assert(out@ =~= link_page(i as int)); }
    out
}

fn link_stream_of(i: usize) -> (r: Vec<u8>)
    requires
        i < 6,
    ensures
        r@ == link_stream(i as int),
{
    let mut out: Vec<u8> = Vec::new();
    put_text(&mut out, "BT /F1 18 Tf 72 740 Td (Above the links.) Tj ET BT /F1 18 Tf 72 700 Td (Page ");
    put_number(&mut out, i + 1);
    put_text(&mut out, " of the fixture.) Tj ET");
    proof { assert(out@ =~= link_stream(i as int)); }
    out
}

fn build_links() -> (r: Vec<u8>)
    ensures
        r@ == pdf_file(links_objects(), None, None, None),
{
    let head = one(text_of("<< /Type /Font /Subtype /Type1 /BaseFont /Helvetica >>"));
    let mut pages: Vec<Vec<u8>> = Vec::new();
    let mut i: usize = 0;
    while i < 6
        invariant
            i <= 6,
            bodies(pages@) == Seq::new(6, |k: int| link_page(k)).take(i as int),
        decreases 6 - i,
    {
        let page = link_page_of(i);
        let ghost before = pages@;
        pages.push(page);
        proof {
            assert(bodies(pages@) =~= bodies(before).push(page@));
            assert(Seq::new(6, |k: int| link_page(k)).take(i + 1) =~= Seq::new(6, |k: int| link_page(k)).take(i as int).push(page@));
        }
        i = i + 1;
    }
    proof { assert(Seq::new(6, |k: int| link_page(k)).take(6) =~= Seq::new(6, |k: int| link_page(k))); }
    let mut middle: Vec<Vec<u8>> = Vec::new();
    middle.push(text_of("<< /Type /Annot /Subtype /Link /Rect [72 700 200 720] /Border [0 0 0] \
         /A << /S /URI /URI (https://example.com/paper) >> >>"));
    let mut internal: Vec<u8> = Vec::new();
    put_text(&mut internal, "<< /Type /Annot /Subtype /Link /Rect [72 650 200 670] /Border [0 0 0] \
         /Dest [");
    put_number(&mut internal, 8);
    put_text(&mut internal, " 0 R /XYZ null 400 null] >>");
    middle.push(internal);
    let mut by_action: Vec<u8> = Vec::new();
    put_text(&mut by_action, "<< /Type /Annot /Subtype /Link /Rect [72 700 200 720] /Border [0 0 0] \
         /A << /S /GoTo /D [");
    put_number(&mut by_action, 9);
    put_text(&mut by_action, " 0 R /Fit] >> >>");
    middle.push(by_action);
    middle.push(text_of("<< /Type /Annot /Subtype /Link /Rect [72 700 200 720] /Border [0 0 0] >>"));
    proof { assert(bodies(middle@) =~= link_annots()); }
    let streams = contents_list(6, link_stream_of, Ghost(|k: int| link_stream(k)));
    let mut catalog: Vec<u8> = Vec::new();
    put_text(&mut catalog, "<< /Type /Catalog /Pages ");
    put_number(&mut catalog, 2);
    put_text(&mut catalog, " 0 R \
             /PageLabels << /Nums [0 << /S /r >> 3 << /S /D /St 1 >>] >> >>");
    proof { assert(catalog@ =~= labelled_catalog()); }
    let none: Vec<Vec<u8>> = Vec::new();
    proof {
        assert(bodies(none@) =~= Seq::<Seq<u8>>::empty());
        assert(bodies(head@).len() == head@.len() && bodies(pages@).len() == pages@.len());
    }
    let objects = lay_out(catalog, &head, &pages, &middle, &streams, &none);
    proof { assert(bodies(objects@).len() == objects@.len()); }
    document_bytes(objects)
}

/// What the labelled pages of the linked document are called, in order.
#[allow(non_snake_case)]
pub fn LABELS() -> (r: Vec<&'static str>)
    ensures
        r@.map_values(|l: &'static str| l@) == seq!["i"@, "ii"@, "iii"@, "1"@, "2"@, "3"@],
{
    let r = vec!["i", "ii", "iii", "1", "2", "3"];
    proof { assert(r@.map_values(|l: &'static str| l@) =~= seq!["i"@, "ii"@, "iii"@, "1"@, "2"@, "3"@]); }
    r
}

/// Six pages that carry links and number their own pages: three in
/// lower-case roman, then a body that starts again at 1.
pub fn links_pdf() -> (r: Vec<u8>)
    ensures
        r@ == pdf_file(links_objects(), None, None, None),
{
    build_links()
}

/* ------------------------------------------------------------ signatures */

/// A `/Sig` dictionary with the four entries pdfium can read. The blob is a
/// well-formed DER prologue, which is enough to be present.
pub open spec fn signature_body() -> Seq<u8> {
    utf8("<< /Type /Sig /Filter /Adobe.PPKLite /SubFilter /adbe.pkcs7.detached \
              /Name (A. Reader) /Reason (I agree to the terms) \
              /M (D:20240314093000+01'00') \
              /ByteRange [0 840 1560 620] \
              /Contents <308006092a864886f70d010702a0803080020101310f300d060960864801650304020105000000> >>"@)
}

/// The signature field, holding the signature when there is one.
pub open spec fn field_body(filled: bool) -> Seq<u8> {
    utf8("<< /Type /Annot /Subtype /Widget /FT /Sig /T (Signature1) /Ff 0 \
          /Rect [400 60 560 110] /F 4"@) + (if filled { utf8(" /V "@) + number(4) + utf8(" 0 R"@) } else { Seq::empty() })
        + utf8(" >>"@)
}

pub open spec fn sign_stream(i: int) -> Seq<u8> {
    utf8("BT /F1 12 Tf 54 720 Td (Page "@) + number(i + 1) + utf8(". Sign here.) Tj ET"@)
}

fn sign_stream_of(i: usize) -> (r: Vec<u8>)
    requires
        i < 2,
    ensures
        r@ == sign_stream(i as int),
{
    let mut out: Vec<u8> = Vec::new();
    put_text(&mut out, "BT /F1 12 Tf 54 720 Td (Page ");
    put_number(&mut out, i + 1);
    put_text(&mut out, ". Sign here.) Tj ET");
    proof { assert(out@ =~= sign_stream(i as int)); }
    out
}

/// Two pages, a signature field on the first, and a signature in it or not.
pub open spec fn signed_objects(filled: bool) -> Seq<Seq<u8>> {
    let field: int = if filled { 5 } else { 4 };
    let head = if filled { seq![font_body(), signature_body(), field_body(true)] } else { seq![font_body(), field_body(false)] };
    laid_out(
        utf8("<< /Type /Catalog /Pages "@) + number(2) + utf8(" 0 R \
             /AcroForm << /Fields ["@) + number(field) + utf8(" 0 R] /SigFlags 3 >> >>"@),
        head,
        plain_pages(2, first_content(head.len() as int, 2, 0), utf8(" /Annots ["@) + number(field) + utf8(" 0 R]"@)),
        Seq::empty(),
        contents_of(2, |i: int| sign_stream(i)),
        Seq::empty(),
    )
}

fn build_signed(filled: bool) -> (r: Vec<u8>)
    ensures
        r@ == pdf_file(signed_objects(filled), None, None, None),
{
    let mut head: Vec<Vec<u8>> = Vec::new();
    head.push(text_of("<< /Type /Font /Subtype /Type1 /BaseFont /Helvetica >>"));
    let field: usize = if filled { 5 } else { 4 };
    if filled {
        head.push(text_of("<< /Type /Sig /Filter /Adobe.PPKLite /SubFilter /adbe.pkcs7.detached \
              /Name (A. Reader) /Reason (I agree to the terms) \
              /M (D:20240314093000+01'00') \
              /ByteRange [0 840 1560 620] \
              /Contents <308006092a864886f70d010702a0803080020101310f300d060960864801650304020105000000> >>"));
    }
    let mut widget: Vec<u8> = Vec::new();
    put_text(&mut widget, "<< /Type /Annot /Subtype /Widget /FT /Sig /T (Signature1) /Ff 0 \
          /Rect [400 60 560 110] /F 4");
    if filled {
        put_text(&mut widget, " /V ");
        put_number(&mut widget, 4);
        put_text(&mut widget, " 0 R");
    }
    put_text(&mut widget, " >>");
    proof { assert(widget@ =~= field_body(filled)); }
    head.push(widget);
    proof {
        if filled {
            assert(bodies(head@) =~= seq![font_body(), signature_body(), field_body(true)]);
        } else {
            assert(bodies(head@) =~= seq![font_body(), field_body(false)]);
        }
    }
    let mut annots: Vec<u8> = Vec::new();
    put_text(&mut annots, " /Annots [");
    put_number(&mut annots, field);
    put_text(&mut annots, " 0 R]");
    let pages = plain_pages_of(2, 3 + head.len() + 2, &annots);
    let streams = contents_list(2, sign_stream_of, Ghost(|i: int| sign_stream(i)));
    let mut catalog: Vec<u8> = Vec::new();
    put_text(&mut catalog, "<< /Type /Catalog /Pages ");
    put_number(&mut catalog, 2);
    put_text(&mut catalog, " 0 R \
             /AcroForm << /Fields [");
    put_number(&mut catalog, field);
    put_text(&mut catalog, " 0 R] /SigFlags 3 >> >>");
    let none: Vec<Vec<u8>> = Vec::new();
    proof {
        assert(bodies(none@) =~= Seq::<Seq<u8>>::empty());
        assert(bodies(head@).len() == head@.len() && bodies(pages@).len() == pages@.len());
    }
    let objects = lay_out(catalog, &head, &pages, &none, &streams, &none);
    proof {
        assert(bodies(objects@).len() == objects@.len());
        assert(bodies(objects@) =~= signed_objects(filled));
    }
    document_bytes(objects)
}

/// Two pages, and a signature field that has actually been signed.
pub fn signed_pdf() -> (r: Vec<u8>)
    ensures
        r@ == pdf_file(signed_objects(true), None, None, None),
{
    build_signed(true)
}

/// The same document with the signature field left blank.
pub fn unsigned_field_pdf() -> (r: Vec<u8>)
    ensures
        r@ == pdf_file(signed_objects(false), None, None, None),
{
    build_signed(false)
}

/* ---------------------------------------------------------------- locked */

/// The password the locked fixture is written under.
pub const LOCKED_PASSWORD: &'static str = "moonowl";

/// The file identifier the key is derived from: fixed, so that the fixture
/// is the same bytes every run.
pub open spec fn fixture_id() -> Seq<u8> {
    seq![0x4du8, 0x6f, 0x6f, 0x6e, 0x6f, 0x77, 0x6c, 0x20, 0x66, 0x69, 0x78, 0x74, 0x75, 0x72, 0x65, 0x20]
}

/// The bytes of "Moonowl fixture ".
fn fixture_id_bytes() -> (r: [u8; 16])
    ensures
        r@ == fixture_id(),
{
    let r: [u8; 16] = [0x4du8, 0x6f, 0x6f, 0x6e, 0x6f, 0x77, 0x6c, 0x20, 0x66, 0x69, 0x78, 0x74, 0x75, 0x72, 0x65, 0x20];
    proof { assert(r@ =~= fixture_id()); }
    r
}

fn first_bytes(v: &Vec<u8>, n: usize) -> (r: Vec<u8>)
    requires
        n <= v@.len(),
    ensures
        r@ == v@.take(n as int),
{
    let mut out: Vec<u8> = Vec::new();
    let mut i: usize = 0;
    while i < n
        invariant
            n <= v@.len(),
            i <= n,
            out@ == v@.take(i as int),
        decreases n - i,
    {
        out.push(v[i]);
        proof { assert(v@.take(i + 1) =~= v@.take(i as int).push(v@[i as int])); }
        i = i + 1;
    }
    out
}

/// The spec's Algorithm 3: the user password, encrypted under the owner's.
pub open spec fn owner_entry(user: Seq<u8>) -> Seq<u8> {
    rc4_of(md5_digest(padded_of(utf8("moonowl"@))).take(5), padded_of(user))
}

/// The file key, for the user password `user`.
pub open spec fn file_key(user: Seq<u8>) -> Seq<u8> {
    key_of(user, owner_entry(user), fixture_id())
}

/// What a locked page says, sealed under its object's key.
pub open spec fn locked_stream(user: Seq<u8>, i: int) -> Seq<u8> {
    rc4_of(object_key_of(file_key(user), (7 + i) as u32), utf8("BT /F1 18 Tf 72 700 Td (Locked page "@) + number(i + 1) + utf8(".) Tj ET"@))
}

/// The encryption dictionary: the standard handler, revision 2.
pub open spec fn encrypt_body(user: Seq<u8>) -> Seq<u8> {
    utf8("<< /Filter /Standard /V 1 /R 2 /O <"@) + utf8(hex_of(owner_entry(user))) + utf8("> /U <"@)
        + utf8(hex_of(rc4_of(file_key(user), pad_bytes()))) + utf8("> /P -1 >>"@)
}

pub open spec fn locked_objects(user: Seq<u8>) -> Seq<Seq<u8>> {
    laid_out(catalog_body(2), seq![font_body()], plain_pages(3, first_content(1, 3, 0), Seq::empty()), Seq::empty(),
        contents_of(3, |i: int| locked_stream(user, i)), seq![encrypt_body(user)])
}

/// The owner entry, the file key and the user entry, for the user password
/// `user`.
fn locked_keys(user: &str) -> (r: (Vec<u8>, Vec<u8>, Vec<u8>))
    ensures
        r.0@ == owner_entry(utf8(user@)),
        r.1@ == file_key(utf8(user@)),
        r.1@.len() == 5,
        r.2@ == rc4_of(file_key(utf8(user@)), pad_bytes()),
{
    let id = fixture_id_bytes();
    let owner_pad = padded(LOCKED_PASSWORD);
    let owner_hash = md5(owner_pad.as_slice());
    let owner_key = first_bytes(&owner_hash, 5);
    let user_pad = padded(user);
    let owner = rc4(owner_key.as_slice(), user_pad.as_slice());
    let key = encryption_key(user, owner.as_slice(), id.as_slice());
    let pad_now = pad();
    let user_entry = rc4(key.as_slice(), pad_now.as_slice());
    (owner, key, user_entry)
}

fn locked_stream_of(key: &Vec<u8>, i: usize, Ghost(user): Ghost<Seq<u8>>) -> (r: Vec<u8>)
    requires
        key@ == file_key(user),
        key@.len() == 5,
        i < 3,
    ensures
        r@ == content_body(locked_stream(user, i as int)),
{
    let mut plain: Vec<u8> = Vec::new();
    put_text(&mut plain, "BT /F1 18 Tf 72 700 Td (Locked page ");
    put_number(&mut plain, i + 1);
    put_text(&mut plain, ".) Tj ET");
    let object = object_key(key.as_slice(), (7 + i) as u32);
    let sealed = rc4(object.as_slice(), plain.as_slice());
    content_of(&sealed)
}

fn encrypt_of(owner: &Vec<u8>, user_entry: &Vec<u8>, Ghost(user): Ghost<Seq<u8>>) -> (r: Vec<u8>)
    requires
        owner@ == owner_entry(user),
        user_entry@ == rc4_of(file_key(user), pad_bytes()),
    ensures
        r@ == encrypt_body(user),
{
    let mut encrypt: Vec<u8> = Vec::new();
    put_text(&mut encrypt, "<< /Filter /Standard /V 1 /R 2 /O <");
    let owner_hex = hex(owner.as_slice());
    put_text(&mut encrypt, owner_hex.as_str());
    put_text(&mut encrypt, "> /U <");
    let user_hex = hex(user_entry.as_slice());
    put_text(&mut encrypt, user_hex.as_str());
    put_text(&mut encrypt, "> /P -1 >>");
    proof { assert(encrypt@ =~= encrypt_body(user)); }
    encrypt
}

/// Three pages behind a password, `user` being the password that opens it
/// and the owner's always the locked fixture's: the structure is in the
/// clear and only the contents are not.
#[verifier::spinoff_prover]
#[verifier::rlimit(80)]
fn build_locked(user: &str) -> (r: Vec<u8>)
    ensures
        r@ == pdf_file(locked_objects(utf8(user@)), None, Some(10), Some(fixture_id())),
{
    let ghost u = utf8(user@);
    let (owner, key, user_entry) = locked_keys(user);
    let head = one(text_of("<< /Type /Font /Subtype /Type1 /BaseFont /Helvetica >>"));
    let empty: Vec<u8> = Vec::new();
    let pages = plain_pages_of(3, 7, &empty);
    let mut streams: Vec<Vec<u8>> = Vec::new();
    let mut i: usize = 0;
    while i < 3
        invariant
            i <= 3,
            key@ == file_key(u),
            key@.len() == 5,
            bodies(streams@) == contents_of(3, |k: int| locked_stream(u, k)).take(i as int),
        decreases 3 - i,
    {
        let content = locked_stream_of(&key, i, Ghost(u));
        let ghost before = streams@;
        streams.push(content);
        proof {
            assert(bodies(streams@) =~= bodies(before).push(content@));
            assert(contents_of(3, |k: int| locked_stream(u, k)).take(i + 1)
                =~= contents_of(3, |k: int| locked_stream(u, k)).take(i as int).push(content@));
        }
        i = i + 1;
    }
    proof { assert(contents_of(3, |k: int| locked_stream(u, k)).take(3) =~= contents_of(3, |k: int| locked_stream(u, k))); }
    let tail = one(encrypt_of(&owner, &user_entry, Ghost(u)));
    let none: Vec<Vec<u8>> = Vec::new();
    proof {
        assert(bodies(none@) =~= Seq::<Seq<u8>>::empty());
        assert(bodies(head@).len() == head@.len() && bodies(pages@).len() == pages@.len());
    }
    let objects = lay_out(catalog_of(2), &head, &pages, &none, &streams, &tail);
    proof {
        assert(bodies(objects@).len() == objects@.len());
        assert(bodies(objects@) =~= locked_objects(u));
    }
    let id = fixture_id_bytes();
    let pdf = Pdf { objects, info: None, encrypt: Some(10), id: Some(id) };
    pdf.bytes()
}

/// Three pages behind the locked fixture's password.
pub fn locked_pdf() -> (r: Vec<u8>)
    ensures
        r@ == pdf_file(locked_objects(utf8(LOCKED_PASSWORD@)), None, Some(10), Some(fixture_id())),
{
    build_locked(LOCKED_PASSWORD)
}

/// The same pages under an owner password alone: encrypted, and opened by
/// anybody with no password at all.
pub fn restricted_pdf() -> (r: Vec<u8>)
    ensures
        r@ == pdf_file(locked_objects(utf8(""@)), None, Some(10), Some(fixture_id())),
{
    build_locked("")
}

/* ---------------------------------------------------------------- turned */

/// The one page of the turned fixture: turned by the file itself, out of a
/// box that does not begin at 0,0.
pub open spec fn turned_page(rotate: u32) -> Seq<u8> {
    utf8("<< /Type /Page /Parent "@) + number(2) + utf8(" 0 R /MediaBox [0 0 612 792] \
             /CropBox [36 48 576 756] /Rotate "@) + number(rotate as int) + utf8(" \
             /Resources << /Font << /F1 "@) + number(3) + utf8(" 0 R >> >> /Contents "@) + number(4) + utf8(" 0 R >>"@)
}

pub open spec fn turned_objects(rotate: u32) -> Seq<Seq<u8>> {
    laid_out(catalog_body(2), seq![font_body(), content_body(utf8("BT /F1 36 Tf 100 600 Td (Turned) Tj ET"@))], seq![turned_page(rotate)],
        Seq::empty(), Seq::empty(), Seq::empty())
}

/// One page the file itself turns by `rotate`, out of a box that does not
/// begin at 0,0.
pub fn turned_pdf(rotate: u32) -> (r: Vec<u8>)
    ensures
        r@ == pdf_file(turned_objects(rotate), None, None, None),
{
    let mut head: Vec<Vec<u8>> = Vec::new();
    head.push(text_of("<< /Type /Font /Subtype /Type1 /BaseFont /Helvetica >>"));
    let stream = text_of("BT /F1 36 Tf 100 600 Td (Turned) Tj ET");
    head.push(content_of(&stream));
    let mut page: Vec<u8> = Vec::new();
    put_text(&mut page, "<< /Type /Page /Parent ");
    put_number(&mut page, 2);
    put_text(&mut page, " 0 R /MediaBox [0 0 612 792] \
             /CropBox [36 48 576 756] /Rotate ");
    put_number(&mut page, rotate as usize);
    put_text(&mut page, " \
             /Resources << /Font << /F1 ");
    put_number(&mut page, 3);
    put_text(&mut page, " 0 R >> >> /Contents ");
    put_number(&mut page, 4);
    put_text(&mut page, " 0 R >>");
    proof { assert(page@ =~= turned_page(rotate)); }
    let pages = one(page);
    let none: Vec<Vec<u8>> = Vec::new();
    proof {
        assert(bodies(none@) =~= Seq::<Seq<u8>>::empty());
        assert(bodies(head@) =~= seq![font_body(), content_body(utf8("BT /F1 36 Tf 100 600 Td (Turned) Tj ET"@))]);
        assert(bodies(head@).len() == head@.len() && bodies(pages@).len() == pages@.len());
    }
    let objects = lay_out(catalog_of(2), &head, &pages, &none, &none, &none);
    proof { assert(bodies(objects@).len() == objects@.len()); }
    document_bytes(objects)
}

/* ---------------------------------------------------------------- titled */

/// A title as a PDF literal string carries it: the three characters that
/// would end it early escaped.
pub open spec fn escaped(title: Seq<char>) -> Seq<char>
    decreases title.len(),
{
    if title.len() == 0 {
        Seq::empty()
    } else {
        let c = title.last();
        escaped(title.drop_last()) + (if c == '(' || c == ')' || c == '\\' { seq!['\\', c] } else { seq![c] })
    }
}

pub open spec fn titled_stream(i: int) -> Seq<u8> {
    utf8("BT /F1 18 Tf 72 700 Td (Page "@) + number(i + 1) + utf8(".) Tj ET"@)
}

fn titled_stream_of(i: usize) -> (r: Vec<u8>)
    requires
        i < 3,
    ensures
        r@ == titled_stream(i as int),
{
    let mut out: Vec<u8> = Vec::new();
    put_text(&mut out, "BT /F1 18 Tf 72 700 Td (Page ");
    put_number(&mut out, i + 1);
    put_text(&mut out, ".) Tj ET");
    proof { assert(out@ =~= titled_stream(i as int)); }
    out
}

pub open spec fn titled_objects(title: Seq<char>) -> Seq<Seq<u8>> {
    laid_out(catalog_body(2), seq![font_body()], plain_pages(3, first_content(1, 3, 0), Seq::empty()), Seq::empty(),
        contents_of(3, |i: int| titled_stream(i)), seq![utf8("<< /Title ("@) + utf8(escaped(title)) + utf8(") >>"@)])
}

/// Three plain pages under a title the document gives itself, in its
/// `/Info` dictionary.
pub fn titled_pdf(title: &str) -> (r: Vec<u8>)
    ensures
        r@ == pdf_file(titled_objects(title@), Some(10), None, None),
{
    let head = one(text_of("<< /Type /Font /Subtype /Type1 /BaseFont /Helvetica >>"));
    let empty: Vec<u8> = Vec::new();
    let pages = plain_pages_of(3, 7, &empty);
    let streams = contents_list(3, titled_stream_of, Ghost(|i: int| titled_stream(i)));
    let typed = chars_of(title);
    let mut kept: Vec<char> = Vec::new();
    let mut i: usize = 0;
    while i < typed.len()
        invariant
            typed@ == title@,
            i <= typed@.len(),
            kept@ == escaped(typed@.take(i as int)),
        decreases typed@.len() - i,
    {
        let c = typed[i];
        proof {
            assert(typed@.take(i + 1).drop_last() =~= typed@.take(i as int));
            assert(typed@.take(i + 1).last() == c);
        }
        if c == '(' || c == ')' || c == '\\' {
            kept.push('\\');
        }
        kept.push(c);
        proof { assert(kept@ =~= escaped(typed@.take(i + 1))); }
        i = i + 1;
    }
    proof { assert(typed@.take(typed@.len() as int) =~= typed@); }
    let mut info: Vec<u8> = Vec::new();
    put_text(&mut info, "<< /Title (");
    let kept_text = crate::text::string_of(kept.as_slice());
    put_text(&mut info, kept_text.as_str());
    put_text(&mut info, ") >>");
    let tail = one(info);
    let none: Vec<Vec<u8>> = Vec::new();
    proof {
        assert(bodies(none@) =~= Seq::<Seq<u8>>::empty());
        assert(bodies(head@).len() == head@.len() && bodies(pages@).len() == pages@.len());
    }
    let objects = lay_out(catalog_of(2), &head, &pages, &none, &streams, &tail);
    proof {
        assert(bodies(objects@).len() == objects@.len());
        assert(bodies(objects@) =~= titled_objects(title@));
    }
    let pdf = Pdf { objects, info: Some(10), encrypt: None, id: None };
    pdf.bytes()
}

/// The FNV-1a hash of some bytes, 64 bits wide.
pub open spec fn fnv(bytes: Seq<u8>) -> u64
    decreases bytes.len(),
{
    if bytes.len() == 0 {
        0xcbf2_9ce4_8422_2325u64
    } else {
        vstd::wrapping::u64_specs::wrapping_mul(fnv(bytes.drop_last()) ^ (bytes.last() as u64), 0x0000_0100_0000_01b3u64)
    }
}

/// A 64-bit number as sixteen lower-case hexadecimal digits.
pub open spec fn hex16(v: u64) -> Seq<char> {
    Seq::new(16, |i: int| crate::palette::hex_char(((v >> ((60 - 4 * i) as u64)) & 0xf) as int))
}

/// The name the titled fixture is written under: it follows the title, so
/// that two titles are two files, and is a digest of it because a title is
/// somebody's prose and a file name is not.
pub fn titled_name(title: &str) -> (r: String)
    ensures
        r@ == "moonowl-fixture-titled-"@ + hex16(fnv(utf8(title@))) + ".pdf"@,
{
    let bytes = title.as_bytes();
    let mut digest: u64 = 0xcbf2_9ce4_8422_2325;
    let mut i: usize = 0;
    while i < bytes.len()
        invariant
            i <= bytes@.len(),
            bytes@ == utf8(title@),
            digest == fnv(bytes@.take(i as int)),
        decreases bytes@.len() - i,
    {
        proof {
            assert(bytes@.take(i + 1).drop_last() =~= bytes@.take(i as int));
            assert(bytes@.take(i + 1).last() == bytes@[i as int]);
        }
        digest = (digest ^ (bytes[i] as u64)).wrapping_mul(0x0000_0100_0000_01b3);
        i = i + 1;
    }
    proof { assert(bytes@.take(bytes@.len() as int) =~= bytes@); }
    let mut name = String::new();
    crate::text::push_str(&mut name, "moonowl-fixture-titled-");
    let mut digits: Vec<char> = Vec::new();
    let mut k: usize = 0;
    while k < 16
        invariant
            k <= 16,
            digits@ == hex16(digest).take(k as int),
        decreases 16 - k,
    {
        let shifted = digest >> ((60 - 4 * k) as u64);
        let low = shifted & 0xf;
        proof { assert(low < 16) by (bit_vector) requires low == shifted & 0xf; }
        let nibble = low as u8;
        let c = crate::palette::hex_char_of(nibble);
        digits.push(c);
        proof { assert(digits@ =~= hex16(digest).take(k + 1)); }
        k = k + 1;
    }
    proof { assert(hex16(digest).take(16) =~= hex16(digest)); }
    let digits_text = crate::text::string_of(digits.as_slice());
    crate::text::push_str(&mut name, digits_text.as_str());
    crate::text::push_str(&mut name, ".pdf");
    name
}

} // verus!
