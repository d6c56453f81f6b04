//! The table of contents a fixture carries as its own outline: a tree of
//! sections, and the objects that write it into a PDF.

use vstd::prelude::*;
use crate::fixture::crypt::extend;
use crate::fixture::writer::{bodies, number, put_number, put_text, utf8, Pdf};
use crate::fixture::run_of_ids;
use crate::text::{chars_of, string_of};

verus! {

broadcast use vstd::std_specs::vec::group_vec_axioms, vstd::seq::group_seq_axioms;

/// One line of the table of contents a fixture is asked for: a title, the
/// page it goes to, and the entries under it.
pub struct Section {
    pub title: &'static str,
    pub page: usize,
    pub under: Vec<Section>,
}

/// What a section is, as mathematics: its title, its page, and the entries
/// under it.
pub struct Outline {
    pub title: Seq<char>,
    pub page: int,
    pub under: Seq<Outline>,
}

/// The sections before the last one.
pub open spec fn but_last<A>(list: Seq<A>) -> Seq<A> {
    list.subrange(0, list.len() - 1)
}

/// A list of sections as mathematics.
pub open spec fn outline_of(list: Seq<Section>) -> Seq<Outline>
    decreases list,
{
    if list.len() == 0 {
        Seq::empty()
    } else {
        let last = list[list.len() - 1];
        proof {
            assert(decreases_to!(list => list[list.len() - 1]));
            assert(decreases_to!(last => last.under));
            assert(decreases_to!(last.under => last.under@));
        }
        outline_of(but_last(list)).push(Outline { title: last.title@, page: last.page as int, under: outline_of(last.under@) })
    }
}

pub(crate) proof fn lemma_outline_len(list: Seq<Section>)
    ensures
        outline_of(list).len() == list.len(),
    decreases list.len(),
{
    if list.len() > 0 {
        lemma_outline_len(but_last(list));
    }
}

/// The outline of one section of a list, read off the outline of the list.
pub(crate) proof fn lemma_outline_at(list: Seq<Section>, i: int)
    requires
        0 <= i < list.len(),
    ensures
        outline_of(list).len() == list.len(),
        outline_of(list)[i] == (Outline { title: list[i].title@, page: list[i].page as int, under: outline_of(list[i].under@) }),
    decreases list.len(),
{
    lemma_outline_len(list);
    if i < list.len() - 1 {
        lemma_outline_at(but_last(list), i);
    }
}

/// The outline of a list, section by section.
proof fn lemma_outline_each(list: Seq<Section>)
    ensures
        outline_of(list) == Seq::new(list.len(), |i: int| Outline { title: list[i].title@, page: list[i].page as int, under: outline_of(list[i].under@) }),
{
    lemma_outline_len(list);
    assert forall|i: int| 0 <= i < list.len() implies outline_of(list)[i] == (Outline { title: list[i].title@, page: list[i].page as int, under: outline_of(list[i].under@) }) by {
        lemma_outline_at(list, i);
    }
    assert(outline_of(list) =~= Seq::new(list.len(), |i: int| Outline { title: list[i].title@, page: list[i].page as int, under: outline_of(list[i].under@) }));
}

/// A list of sections flattened in reading order: title, depth, page, each
/// entry followed by the entries under it.
pub open spec fn headings(list: Seq<Outline>, depth: int) -> Seq<(Seq<char>, int, int)>
    decreases list,
{
    if list.len() == 0 {
        Seq::empty()
    } else {
        let last = list[list.len() - 1];
        proof {
            assert(decreases_to!(list => list[list.len() - 1]));
            assert(decreases_to!(last => last.under));
        }
        headings(but_last(list), depth) + seq![(last.title, depth, last.page)] + headings(last.under, depth + 1)
    }
}

/// The contents the fixture carries, and therefore what a test asserts on:
/// eight rows over three levels, in this order.
pub open spec fn contents_outline() -> Seq<Outline> {
    let leaf = |title: Seq<char>, page: int| Outline { title, page, under: Seq::empty() };
    seq![
        Outline { title: "Front matter"@, page: 1, under: seq![leaf("Preface"@, 2)] },
        Outline {
            title: "Chapter One"@,
            page: 3,
            under: seq![
                Outline { title: "A section"@, page: 4, under: seq![leaf("Under a section"@, 5)] },
                leaf("Another section"@, 6),
            ],
        },
        leaf("Chapter Two"@, 8),
        leaf("Index"@, 11),
    ]
}

/// How many entries a list of sections has, at every level.
pub open spec fn count(list: Seq<Outline>) -> nat
    decreases list,
{
    if list.len() == 0 {
        0
    } else {
        let last = list[list.len() - 1];
        proof {
            assert(decreases_to!(list => list[list.len() - 1]));
            assert(decreases_to!(last => last.under));
        }
        count(but_last(list)) + 1 + count(last.under)
    }
}

/// Whether every entry, at every level, goes to a page counted from one.
pub open spec fn pages_from_one(list: Seq<Outline>) -> bool
    decreases list,
{
    if list.len() == 0 {
        true
    } else {
        let last = list[list.len() - 1];
        proof {
            assert(decreases_to!(list => list[list.len() - 1]));
            assert(decreases_to!(last => last.under));
        }
        pages_from_one(but_last(list)) && last.page >= 1 && pages_from_one(last.under)
    }
}

pub(crate) proof fn lemma_headings_len(list: Seq<Outline>, depth: int)
    ensures
        headings(list, depth).len() == count(list),
    decreases list,
{
    if list.len() > 0 {
        let last = list[list.len() - 1];
        assert(decreases_to!(list => list[list.len() - 1]));
        assert(decreases_to!(last => last.under));
        lemma_headings_len(but_last(list), depth);
        lemma_headings_len(last.under, depth + 1);
    }
}

/// What is said of a list is said of each entry in it, and of what is under
/// that entry: the count of the whole bounds the count under one entry, and
/// every page is counted from one.
pub(crate) proof fn lemma_entry_within(list: Seq<Outline>, i: int)
    requires
        0 <= i < list.len(),
    ensures
        count(list[i].under) + 1 <= count(list),
        pages_from_one(list) ==> list[i].page >= 1 && pages_from_one(list[i].under),
    decreases list.len(),
{
    if i < list.len() - 1 {
        lemma_entry_within(but_last(list), i);
        assert(but_last(list)[i] == list[i]);
    }
}

/* ------------------------------------------------------ in the file */

/// `/First` and `/Last` of some entries, when there are any.
pub open spec fn ends(ids: Seq<int>) -> Seq<u8> {
    if ids.len() == 0 {
        Seq::empty()
    } else {
        utf8("/First "@) + number(ids[0]) + utf8(" 0 R /Last "@) + number(ids[ids.len() - 1]) + utf8(" 0 R"@)
    }
}

/// The page object an entry goes to: the page it names, or the last page
/// where the document is shorter.
pub open spec fn page_id(page_ids: Seq<usize>, page: int) -> int {
    let k = if page - 1 < page_ids.len() - 1 { page - 1 } else { page_ids.len() - 1 };
    page_ids[k] as int
}

/// The object one entry is: its title, its parent, where it goes, its
/// neighbours on its level, and the first and last of the entries under it.
pub open spec fn entry_body(o: Outline, parent: int, base: int, at: int, n: int, first_child: int, page_ids: Seq<usize>) -> Seq<u8> {
    utf8("<< /Title ("@) + utf8(o.title) + utf8(") /Parent "@) + number(parent) + utf8(" 0 R /Dest ["@)
        + number(page_id(page_ids, o.page)) + utf8(" 0 R /XYZ null null null]"@)
        + (if at > 0 { utf8(" /Prev "@) + number(base + at - 1) + utf8(" 0 R"@) } else { Seq::empty() })
        + (if at + 1 < n { utf8(" /Next "@) + number(base + at + 1) + utf8(" 0 R"@) } else { Seq::empty() })
        + (if o.under.len() > 0 {
            utf8(" /Count "@) + number(o.under.len() as int) + utf8(" "@) + ends(run_of_ids(first_child, o.under.len() as int))
        } else {
            Seq::empty()
        })
        + utf8(" >>"@)
}

/// The first `k` entries of a level, numbered from `base`.
pub open spec fn entries(list: Seq<Outline>, parent: int, base: int, k: int, page_ids: Seq<usize>) -> Seq<Seq<u8>>
    decreases list, k + 1,
{
    if k <= 0 {
        Seq::empty()
    } else {
        let first_child = base + list.len() + below(list, base, k - 1, page_ids).len();
        entries(list, parent, base, k - 1, page_ids).push(entry_body(list[k - 1], parent, base, k - 1, list.len() as int, first_child, page_ids))
    }
}

/// What is under the first `k` entries of a level, one entry's at a time,
/// numbered on from the end of the level.
pub open spec fn below(list: Seq<Outline>, base: int, k: int, page_ids: Seq<usize>) -> Seq<Seq<u8>>
    decreases list, k,
{
    if k <= 0 || k > list.len() {
        Seq::empty()
    } else {
        let before = below(list, base, k - 1, page_ids);
        proof {
            assert(decreases_to!(list => list[k - 1]));
            assert(decreases_to!(list[k - 1] => list[k - 1].under));
        }
        before + level(list[k - 1].under, base + k - 1, base + list.len() + before.len(), page_ids)
    }
}

/// The objects one level of the outline writes, numbered from `base`: its
/// own entries first, then what is under each, entry by entry.
pub open spec fn level(list: Seq<Outline>, parent: int, base: int, page_ids: Seq<usize>) -> Seq<Seq<u8>>
    decreases list, list.len() + 2,
{
    entries(list, parent, base, list.len() as int, page_ids) + below(list, base, list.len() as int, page_ids)
}

proof fn lemma_entries_len(list: Seq<Outline>, parent: int, base: int, k: int, page_ids: Seq<usize>)
    requires
        k >= 0,
    ensures
        entries(list, parent, base, k, page_ids).len() == k,
    decreases k,
{
    if k > 0 {
        lemma_entries_len(list, parent, base, k - 1, page_ids);
    }
}

/// One more entry of a level.
proof fn lemma_entries_step(list: Seq<Outline>, parent: int, base: int, k: int, page_ids: Seq<usize>)
    requires
        k >= 0,
    ensures
        entries(list, parent, base, k + 1, page_ids) == entries(list, parent, base, k, page_ids).push(
            entry_body(list[k], parent, base, k, list.len() as int, base + list.len() + below(list, base, k, page_ids).len(), page_ids)),
{
}

/// What is under one more entry of a level.
proof fn lemma_below_step(list: Seq<Outline>, base: int, k: int, page_ids: Seq<usize>)
    requires
        0 <= k < list.len(),
    ensures
        below(list, base, k + 1, page_ids) == below(list, base, k, page_ids)
            + level(list[k].under, base + k, base + list.len() + below(list, base, k, page_ids).len(), page_ids),
{
}

/// A level is its entries, then what is under them.
proof fn lemma_level_parts(list: Seq<Outline>, parent: int, base: int, page_ids: Seq<usize>)
    ensures
        level(list, parent, base, page_ids) == entries(list, parent, base, list.len() as int, page_ids)
            + below(list, base, list.len() as int, page_ids),
        entries(list, parent, base, 0, page_ids) == Seq::<Seq<u8>>::empty(),
        below(list, base, 0, page_ids) == Seq::<Seq<u8>>::empty(),
{
}

/// The counts of what is under the first `k` entries.
pub open spec fn under_count(list: Seq<Outline>, k: int) -> nat
    decreases k,
{
    if k <= 0 || k > list.len() { 0 } else { under_count(list, k - 1) + count(list[k - 1].under) }
}

proof fn lemma_under_count_prefix(list: Seq<Outline>, k: int)
    requires
        list.len() > 0,
        0 <= k < list.len(),
    ensures
        under_count(but_last(list), k) == under_count(list, k),
    decreases k,
{
    if k > 0 {
        lemma_under_count_prefix(list, k - 1);
    }
}

proof fn lemma_count_split(list: Seq<Outline>)
    ensures
        count(list) == list.len() + under_count(list, list.len() as int),
    decreases list.len(),
{
    if list.len() > 0 {
        lemma_count_split(but_last(list));
        lemma_under_count_prefix(list, list.len() - 1);
    }
}

proof fn lemma_below_len(list: Seq<Outline>, base: int, k: int, page_ids: Seq<usize>)
    requires
        0 <= k <= list.len(),
    ensures
        below(list, base, k, page_ids).len() == under_count(list, k),
    decreases list, k,
{
    if k > 0 {
        lemma_below_len(list, base, k - 1, page_ids);
        assert(decreases_to!(list => list[k - 1]));
        assert(decreases_to!(list[k - 1] => list[k - 1].under));
        let before = below(list, base, k - 1, page_ids);
        lemma_level_len(list[k - 1].under, base + k - 1, base + list.len() + before.len(), page_ids);
    }
}

/// An outline writes one object for each of its entries.
pub(crate) proof fn lemma_level_len(list: Seq<Outline>, parent: int, base: int, page_ids: Seq<usize>)
    ensures
        level(list, parent, base, page_ids).len() == count(list),
    decreases list, list.len() + 2,
{
    lemma_entries_len(list, parent, base, list.len() as int, page_ids);
    lemma_below_len(list, base, list.len() as int, page_ids);
    lemma_count_split(list);
}

proof fn lemma_under_count_grows(list: Seq<Outline>, j: int, k: int)
    requires
        0 <= j <= k <= list.len(),
    ensures
        under_count(list, j) <= under_count(list, k),
    decreases k - j,
{
    if j < k {
        lemma_under_count_grows(list, j, k - 1);
    }
}

/// `/First` and `/Last` of some entries, as bytes.
pub(crate) fn ends_of(ids: &Vec<usize>) -> (r: Vec<u8>)
    ensures
        r@ == ends(ids@.map_values(|i: usize| i as int)),
{
    let mut out: Vec<u8> = Vec::new();
    if ids.len() > 0 {
        put_text(&mut out, "/First ");
        put_number(&mut out, ids[0]);
        put_text(&mut out, " 0 R /Last ");
        put_number(&mut out, ids[ids.len() - 1]);
        put_text(&mut out, " 0 R");
    }
    proof { assert(out@ =~= ends(ids@.map_values(|i: usize| i as int))); }
    out
}

/// The object one entry is, with the numbers of what is under it.
fn entry_of(s: &Section, parent: usize, base: usize, at: usize, n: usize, children: &Vec<usize>, page_ids: &Vec<usize>) -> (r: Vec<u8>)
    requires
        s.page >= 1,
        page_ids@.len() >= 1,
        at < n,
        base + n < usize::MAX,
        children@.len() == outline_of(s.under@).len(),
        children@.len() > 0 ==> children@.map_values(|i: usize| i as int) == run_of_ids(children@[0] as int, children@.len() as int),
    ensures
        forall|first_child: int| children@.len() > 0 ==> first_child == children@[0] ==>
            r@ == entry_body(Outline { title: s.title@, page: s.page as int, under: outline_of(s.under@) }, parent as int, base as int, at as int, n as int, first_child, page_ids@),
        children@.len() == 0 ==> forall|first_child: int|
            r@ == entry_body(Outline { title: s.title@, page: s.page as int, under: outline_of(s.under@) }, parent as int, base as int, at as int, n as int, first_child, page_ids@),
{
    let mut body: Vec<u8> = Vec::new();
    put_text(&mut body, "<< /Title (");
    put_text(&mut body, s.title);
    put_text(&mut body, ") /Parent ");
    put_number(&mut body, parent);
    put_text(&mut body, " 0 R /Dest [");
    let last = page_ids.len() - 1;
    let k = if s.page - 1 < last { s.page - 1 } else { last };
    put_number(&mut body, page_ids[k]);
    put_text(&mut body, " 0 R /XYZ null null null]");
    let ghost head = body@;
    let mut prev: Vec<u8> = Vec::new();
    if at > 0 {
        put_text(&mut prev, " /Prev ");
        put_number(&mut prev, base + at - 1);
        put_text(&mut prev, " 0 R");
    }
    let mut next: Vec<u8> = Vec::new();
    if at + 1 < n {
        put_text(&mut next, " /Next ");
        put_number(&mut next, base + at + 1);
        put_text(&mut next, " 0 R");
    }
    let mut under: Vec<u8> = Vec::new();
    if children.len() > 0 {
        put_text(&mut under, " /Count ");
        put_number(&mut under, children.len());
        put_text(&mut under, " ");
        let both = ends_of(children);
        extend(&mut under, both.as_slice());
    }
    extend(&mut body, prev.as_slice());
    extend(&mut body, next.as_slice());
    extend(&mut body, under.as_slice());
    put_text(&mut body, " >>");
    proof {
        let o = Outline { title: s.title@, page: s.page as int, under: outline_of(s.under@) };
        assert(prev@ =~= (if at > 0 { utf8(" /Prev "@) + number(base + at - 1) + utf8(" 0 R"@) } else { Seq::empty() }));
        assert(next@ =~= (if at + 1 < n { utf8(" /Next "@) + number(base + at + 1) + utf8(" 0 R"@) } else { Seq::empty() }));
        assert forall|first_child: int| children@.len() > 0 ==> first_child == children@[0] ==>
            body@ == entry_body(o, parent as int, base as int, at as int, n as int, first_child, page_ids@) by {
            if children@.len() > 0 && first_child == children@[0] {
                assert(children@.map_values(|i: usize| i as int) == run_of_ids(first_child, o.under.len() as int));
                assert(under@ =~= utf8(" /Count "@) + number(o.under.len() as int) + utf8(" "@) + ends(run_of_ids(first_child, o.under.len() as int)));
                assert(body@ =~= entry_body(o, parent as int, base as int, at as int, n as int, first_child, page_ids@));
            }
        }
        assert forall|first_child: int| children@.len() == 0 implies
            body@ == entry_body(o, parent as int, base as int, at as int, n as int, first_child, page_ids@) by {
            assert(under@ =~= Seq::<u8>::empty());
            assert(body@ =~= entry_body(o, parent as int, base as int, at as int, n as int, first_child, page_ids@));
        }
    }
    body
}

/// Objects reserved and not yet written.
pub open spec fn blanks(k: int) -> Seq<Seq<u8>> {
    Seq::new(k as nat, |i: int| Seq::<u8>::empty())
}

/// Writing the first of the reserved objects.
proof fn lemma_fill_blank(before: Seq<Seq<u8>>, done: Seq<Seq<u8>>, k: int, after: Seq<Seq<u8>>, body: Seq<u8>)
    requires
        k >= 1,
    ensures
        (before + done + blanks(k) + after).update((before.len() + done.len()) as int, body) == before + done.push(body) + blanks(k - 1) + after,
{
    assert((before + done + blanks(k) + after).update((before.len() + done.len()) as int, body) =~= before + done.push(body) + blanks(k - 1) + after);
}

/// Write one entry of a level, after what is under it.
#[verifier::spinoff_prover]
fn write_entry(pdf: &mut Pdf, sections: &Vec<Section>, at: usize, parent: usize, base: usize, ids: &Vec<usize>, page_ids: &Vec<usize>)
    requires
        at < sections@.len(),
        page_ids@.len() >= 1,
        pages_from_one(outline_of(sections@)),
        ids@.len() == sections@.len(),
        ids@.map_values(|i: usize| i as int) == run_of_ids(base as int, sections@.len() as int),
        1 <= base,
        base + at <= old(pdf).objects@.len(),
        base + sections@.len() < usize::MAX,
        old(pdf).objects@.len() + count(outline_of(sections@)[at as int].under) + 1 < usize::MAX,
    ensures
        bodies(final(pdf).objects@) == bodies(old(pdf).objects@).update(base + at - 1,
            entry_body(outline_of(sections@)[at as int], parent as int, base as int, at as int, sections@.len() as int,
                old(pdf).objects@.len() + 1int, page_ids@))
            + level(outline_of(sections@)[at as int].under, base + at, old(pdf).objects@.len() + 1int, page_ids@),
        final(pdf).objects@.len() == old(pdf).objects@.len() + count(outline_of(sections@)[at as int].under),
        final(pdf).info == old(pdf).info,
        final(pdf).encrypt == old(pdf).encrypt,
        final(pdf).id == old(pdf).id,
    decreases sections@, 0int,
{
    let ghost o = outline_of(sections@);
    let ghost pids = page_ids@;
    let ghost first_child: int = pdf.objects@.len() + 1int;
    let ghost start = bodies(pdf.objects@);
    proof {
        lemma_outline_at(sections@, at as int);
        lemma_entry_within(o, at as int);
        lemma_outline_len(sections@[at as int].under@);
        assert(ids@.map_values(|i: usize| i as int)[at as int] == base + at);
        assert(decreases_to!(sections@ => sections@[at as int]));
        assert(decreases_to!(sections@[at as int] => sections@[at as int].under));
        assert(start.len() == pdf.objects@.len());
    }
    let s = &sections[at];
    let children = write_sections(pdf, &s.under, ids[at], page_ids);
    proof {
        lemma_level_len(o[at as int].under, base + at, first_child, pids);
        assert(bodies(pdf.objects@).len() == pdf.objects@.len());
        assert(children@.map_values(|i: usize| i as int).len() == children@.len());
        assert(children@.len() > 0 ==> children@[0] == first_child) by {
            if children@.len() > 0 {
                assert(children@.map_values(|i: usize| i as int)[0] == first_child);
            }
        }
    }
    let body = entry_of(s, parent, base, at, sections.len(), &children, page_ids);
    pdf.put(ids[at], body);
    proof {
        let level_under = level(o[at as int].under, base + at, first_child, pids);
        assert((start + level_under).update(base + at - 1, body@) =~= start.update(base + at - 1, body@) + level_under);
    }
}

/// Write one level of the outline into a document, after what it holds, and
/// give the object number of each entry of the level, in order, so that the
/// level above can chain them.
#[verifier::spinoff_prover]
#[verifier::rlimit(100)]
pub(crate) fn write_sections(pdf: &mut Pdf, sections: &Vec<Section>, parent: usize, page_ids: &Vec<usize>) -> (ids: Vec<usize>)
    requires
        page_ids@.len() >= 1,
        pages_from_one(outline_of(sections@)),
        old(pdf).objects@.len() + count(outline_of(sections@)) + 1 < usize::MAX,
    ensures
        bodies(final(pdf).objects@) == bodies(old(pdf).objects@)
            + level(outline_of(sections@), parent as int, old(pdf).objects@.len() + 1int, page_ids@),
        ids@.map_values(|i: usize| i as int) == run_of_ids(old(pdf).objects@.len() + 1int, sections@.len() as int),
        final(pdf).info == old(pdf).info,
        final(pdf).encrypt == old(pdf).encrypt,
        final(pdf).id == old(pdf).id,
    decreases sections@, 1int,
{
    let ghost o = outline_of(sections@);
    let ghost start = pdf.objects@.len() as int;
    let ghost pids = page_ids@;
    proof {
        lemma_outline_len(sections@);
        lemma_count_split(o);
        assert(bodies(pdf.objects@) + blanks(0) =~= bodies(pdf.objects@));
    }
    let n = sections.len();
    let base = pdf.objects.len() + 1;
    let mut ids: Vec<usize> = Vec::new();
    let mut r: usize = 0;
    while r < n
        invariant
            r <= n,
            n == sections@.len(),
            o == outline_of(sections@),
            o.len() == n,
            base == start + 1,
            count(o) == n + under_count(o, n as int),
            start + count(o) + 1 < usize::MAX,
            pdf.objects@.len() == start + r,
            bodies(pdf.objects@) == bodies(old(pdf).objects@) + blanks(r as int),
            ids@.map_values(|i: usize| i as int) == run_of_ids(base as int, r as int),
            pdf.info == old(pdf).info,
            pdf.encrypt == old(pdf).encrypt,
            pdf.id == old(pdf).id,
        decreases n - r,
    {
        let ghost old_ids = ids@;
        let ghost pre = pdf.objects@;
        let id = pdf.reserve();
        ids.push(id);
        proof {
            assert(bodies(pre).len() == pre.len());
            assert(bodies(pdf.objects@).len() == pdf.objects@.len());
            assert(ids@ == old_ids.push(id));
            assert(id == base + r);
            assert(old_ids.push(id).map_values(|i: usize| i as int) =~= old_ids.map_values(|i: usize| i as int).push(id as int));
            assert(bodies(pdf.objects@).len() == pdf.objects@.len());
            assert(bodies(old(pdf).objects@).len() == old(pdf).objects@.len());
            assert(blanks(r as int).push(Seq::empty()) =~= blanks(r + 1));
            assert(ids@.map_values(|i: usize| i as int) =~= run_of_ids(base as int, r + 1));
        }
        r = r + 1;
    }
    proof {
        assert(ids@.len() == ids@.map_values(|i: usize| i as int).len());
        lemma_level_parts(o, parent as int, base as int, pids);
        assert(bodies(pdf.objects@) =~= bodies(old(pdf).objects@) + entries(o, parent as int, base as int, 0, pids) + blanks(n as int)
            + below(o, base as int, 0, pids));
    }
    let mut at: usize = 0;
    while at < n
        invariant
            at <= n,
            n == sections@.len(),
            o == outline_of(sections@),
            o.len() == n,
            pids == page_ids@,
            pids.len() >= 1,
            pages_from_one(o),
            base == start + 1,
            count(o) == n + under_count(o, n as int),
            start + count(o) + 1 < usize::MAX,
            pdf.objects@.len() == start + n + under_count(o, at as int),
            bodies(pdf.objects@) == bodies(old(pdf).objects@) + entries(o, parent as int, base as int, at as int, pids)
                + blanks(n - at) + below(o, base as int, at as int, pids),
            ids@.map_values(|i: usize| i as int) == run_of_ids(base as int, n as int),
            ids@.len() == n,
            pdf.info == old(pdf).info,
            pdf.encrypt == old(pdf).encrypt,
            pdf.id == old(pdf).id,
        decreases n - at,
    {
        proof {
            lemma_below_len(o, base as int, at as int, pids);
            lemma_under_count_grows(o, at + 1, n as int);
            lemma_entries_len(o, parent as int, base as int, at as int, pids);
            lemma_below_step(o, base as int, at as int, pids);
            lemma_entries_step(o, parent as int, base as int, at as int, pids);
            assert(bodies(pdf.objects@).len() == pdf.objects@.len());
        }
        let ghost e = entries(o, parent as int, base as int, at as int, pids);
        let ghost b = below(o, base as int, at as int, pids);
        let ghost filled = bodies(pdf.objects@);
        let ghost first_child: int = pdf.objects@.len() + 1int;
        write_entry(pdf, sections, at, parent, base, &ids, page_ids);
        proof {
            let body = entry_body(o[at as int], parent as int, base as int, at as int, n as int, first_child, pids);
            lemma_fill_blank(bodies(old(pdf).objects@), e, (n - at) as int, b, body);
            assert(bodies(pdf.objects@) =~= bodies(old(pdf).objects@) + e.push(body) + blanks(n - at - 1)
                + (b + level(o[at as int].under, base + at, first_child, pids)));
        }
        at = at + 1;
    }
    proof {
        assert(blanks(0) =~= Seq::<Seq<u8>>::empty());
        lemma_level_parts(o, parent as int, base as int, pids);
        assert(bodies(pdf.objects@) =~= bodies(old(pdf).objects@) + level(o, parent as int, base as int, pids));
    }
    ids
}

/// One section, built.
pub fn section(title: &'static str, page: usize, under: Vec<Section>) -> (r: Section)
    ensures
        r.title == title,
        r.page == page,
        r.under == under,
{
    Section { title, page, under }
}

/// The contents the fixture carries.
#[allow(non_snake_case)]
pub fn CONTENTS() -> (r: Vec<Section>)
    ensures
        outline_of(r@) == contents_outline(),
{
    let preface = section("Preface", 2, Vec::new());
    let front = section("Front matter", 1, vec![preface]);
    let deeper = section("Under a section", 5, Vec::new());
    let a = section("A section", 4, vec![deeper]);
    let another = section("Another section", 6, Vec::new());
    let one = section("Chapter One", 3, vec![a, another]);
    let two = section("Chapter Two", 8, Vec::new());
    let index = section("Index", 11, Vec::new());
    let r = vec![front, one, two, index];
    proof {
        let none = Seq::<Section>::empty();
        assert(outline_of(none) =~= Seq::<Outline>::empty());
        lemma_outline_each(front.under@);
        lemma_outline_each(a.under@);
        lemma_outline_each(one.under@);
        lemma_outline_each(r@);
        reveal_strlit("Front matter");
        reveal_strlit("Preface");
        reveal_strlit("Chapter One");
        reveal_strlit("A section");
        reveal_strlit("Under a section");
        reveal_strlit("Another section");
        reveal_strlit("Chapter Two");
        reveal_strlit("Index");
        assert(outline_of(front.under@) =~= seq![Outline { title: "Preface"@, page: 2, under: Seq::empty() }]);
        assert(outline_of(a.under@) =~= seq![Outline { title: "Under a section"@, page: 5, under: Seq::empty() }]);
        assert(outline_of(one.under@) =~= contents_outline()[1].under);
        assert(outline_of(r@) =~= contents_outline());
    }
    r
}

proof fn lemma_count_push(list: Seq<Outline>, x: Outline)
    ensures
        count(list.push(x)) == count(list) + 1 + count(x.under),
        pages_from_one(list.push(x)) == (pages_from_one(list) && x.page >= 1 && pages_from_one(x.under)),
{
    assert(but_last(list.push(x)) =~= list);
}

/// The fixture's contents: eight entries, every one going to a page.
pub(crate) proof fn lemma_contents_count()
    ensures
        count(contents_outline()) == 8,
        pages_from_one(contents_outline()),
{
    let c = contents_outline();
    let none = Seq::<Outline>::empty();
    let leaf = |title: Seq<char>, page: int| Outline { title, page, under: Seq::empty() };
    assert(count(none) == 0 && pages_from_one(none));
    lemma_count_push(none, leaf("Preface"@, 2));
    assert(c[0].under =~= none.push(leaf("Preface"@, 2)));
    lemma_count_push(none, leaf("Under a section"@, 5));
    assert(c[1].under[0].under =~= none.push(leaf("Under a section"@, 5)));
    lemma_count_push(none, c[1].under[0]);
    lemma_count_push(seq![c[1].under[0]], c[1].under[1]);
    assert(seq![c[1].under[0]] =~= none.push(c[1].under[0]));
    assert(c[1].under =~= seq![c[1].under[0]].push(c[1].under[1]));
    lemma_count_push(none, c[0]);
    lemma_count_push(seq![c[0]], c[1]);
    lemma_count_push(seq![c[0], c[1]], c[2]);
    lemma_count_push(seq![c[0], c[1], c[2]], c[3]);
    assert(seq![c[0]] =~= none.push(c[0]));
    assert(seq![c[0], c[1]] =~= seq![c[0]].push(c[1]));
    assert(seq![c[0], c[1], c[2]] =~= seq![c[0], c[1]].push(c[2]));
    assert(c =~= seq![c[0], c[1], c[2]].push(c[3]));
}

/// An outline writes one object for each heading it lists, whatever the
/// numbers it is written under.
pub proof fn law_one_object_per_heading(list: Seq<Outline>, parent: int, base: int, page_ids: Seq<usize>, depth: int)
    ensures
        level(list, parent, base, page_ids).len() == headings(list, depth).len(),
{
    lemma_level_len(list, parent, base, page_ids);
    lemma_headings_len(list, depth);
}

/// The headings as a test reads them: title, depth, page.
pub open spec fn headings_view(v: Seq<(String, usize, usize)>) -> Seq<(Seq<char>, int, int)> {
    v.map_values(|t: (String, usize, usize)| (t.0@, t.1 as int, t.2 as int))
}

fn walk(into: &mut Vec<(String, usize, usize)>, sections: &Vec<Section>, depth: usize)
    requires
        depth + count(outline_of(sections@)) < usize::MAX,
    ensures
        headings_view(final(into)@) == headings_view(old(into)@) + headings(outline_of(sections@), depth as int),
    decreases sections@,
{
    let ghost o = outline_of(sections@);
    proof {
        lemma_outline_len(sections@);
        assert(headings(o.take(0), depth as int) =~= Seq::<(Seq<char>, int, int)>::empty());
        assert(headings_view(into@) + headings(o.take(0), depth as int) =~= headings_view(into@));
    }
    let mut i: usize = 0;
    while i < sections.len()
        invariant
            i <= sections@.len(),
            o == outline_of(sections@),
            o.len() == sections@.len(),
            depth + count(o) < usize::MAX,
            headings_view(into@) == headings_view(old(into)@) + headings(o.take(i as int), depth as int),
        decreases sections@.len() - i,
    {
        proof {
            lemma_outline_at(sections@, i as int);
            lemma_entry_within(o, i as int);
            assert(decreases_to!(sections@ => sections@[i as int]));
            assert(decreases_to!(sections@[i as int] => sections@[i as int].under));
            assert(but_last(o.take(i + 1)) =~= o.take(i as int));
            assert(o.take(i + 1)[i as int] == o[i as int]);
        }
        let s = &sections[i];
        let ghost before = into@;
        into.push((string_of(chars_of(s.title).as_slice()), depth, s.page));
        proof {
            assert(headings_view(into@) =~= headings_view(before).push((s.title@, depth as int, s.page as int)));
        }
        walk(into, &s.under, depth + 1);
        proof {
            assert(headings(o.take(i + 1), depth as int) == headings(o.take(i as int), depth as int)
                + seq![(o[i as int].title, depth as int, o[i as int].page)] + headings(o[i as int].under, depth + 1));
            assert(headings_view(into@) =~= headings_view(old(into)@) + headings(o.take(i + 1), depth as int));
        }
        i = i + 1;
    }
    proof { assert(o.take(sections@.len() as int) =~= o); }
}

/// The contents flattened the way a renderer's headings are: title, depth,
/// page.
pub fn expected_headings() -> (r: Vec<(String, usize, usize)>)
    ensures
        headings_view(r@) == headings(contents_outline(), 0),
{
    let contents = CONTENTS();
    let mut flat: Vec<(String, usize, usize)> = Vec::new();
    proof {
        lemma_contents_count();
        assert(headings_view(flat@) =~= Seq::<(Seq<char>, int, int)>::empty());
    }
    walk(&mut flat, &contents, 0);
    proof { assert(headings_view(flat@) =~= headings(contents_outline(), 0)); }
    flat
}

} // verus!
