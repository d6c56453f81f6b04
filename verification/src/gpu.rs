//! Where the rectangles a page is painted through go: cut apart so that no
//! two overlap, and shelved into a grid about the page's own shape.
//!
//! The compute pass that paints them is the graphics card's business. What
//! it is handed is decided here: two invocations of a compute shader that
//! write the same texel have no order between them, so runs must not
//! overlap, and a grid taller than a device's texture side is a texture the
//! device refuses.

use vstd::prelude::*;
use crate::palette::Rgb;

verus! {

/// One rectangle of a page painted through a ramp of its own: a link, or a
/// line the reader has swept over.
///
/// `span` is left, top, width and height in the dispatch grid; `on` is where
/// it goes on the page; `from` is where the untouched pixels are read from.
#[derive(Clone, Copy, Debug, PartialEq)]
pub struct Run {
    pub span: [u32; 4],
    pub on: [u32; 2],
    pub from: [u32; 2],
    /// What the darkest pixel in it becomes, and what the lightest becomes.
    pub ink: Rgb,
    pub paper: Rgb,
}

/* ------------------------------------------------------------ on the page */

pub open spec fn left_of(r: Run) -> int { r.on[0] as int }
pub open spec fn top_of(r: Run) -> int { r.on[1] as int }
pub open spec fn right_of(r: Run) -> int { r.on[0] + r.span[2] }
pub open spec fn bottom_of(r: Run) -> int { r.on[1] + r.span[3] }

/// Whether a run covers a pixel of the page.
pub open spec fn covers(r: Run, x: int, y: int) -> bool {
    left_of(r) <= x < right_of(r) && top_of(r) <= y < bottom_of(r)
}

/// Whether two runs share a pixel of the page.
pub open spec fn overlap(a: Run, b: Run) -> bool {
    !(right_of(b) <= left_of(a) || left_of(b) >= right_of(a) || bottom_of(b) <= top_of(a) || top_of(b) >= bottom_of(a))
}

/// A run's far edges, and where it reads from, are all places a `u32` holds.
pub open spec fn fits(r: Run) -> bool {
    &&& r.on[0] + r.span[2] <= u32::MAX
    &&& r.on[1] + r.span[3] <= u32::MAX
    &&& r.from[0] + r.span[2] <= u32::MAX
    &&& r.from[1] + r.span[3] <= u32::MAX
}

/// The part of `run` from `x, y`, `w` wide and `h` tall, reading from where
/// that part of it read.
pub open spec fn piece(run: Run, x: int, y: int, w: int, h: int) -> Run {
    Run {
        span: [0u32, 0u32, w as u32, h as u32],
        on: [x as u32, y as u32],
        from: [(run.from[0] + (x - left_of(run))) as u32, (run.from[1] + (y - top_of(run))) as u32],
        ink: run.ink,
        paper: run.paper,
    }
}

pub open spec fn max_of(a: int, b: int) -> int { if a >= b { a } else { b } }
pub open spec fn min_of(a: int, b: int) -> int { if a <= b { a } else { b } }

/// A piece added if it is not empty.
pub open spec fn with_piece(s: Seq<Run>, run: Run, x: int, y: int, w: int, h: int) -> Seq<Run> {
    if w > 0 && h > 0 { s.push(piece(run, x, y, w, h)) } else { s }
}

/// One rectangle less another, as up to four: the strip above, what is left
/// either side between, and the strip below.
pub open spec fn minus_pieces(run: Run, over: Run) -> Seq<Run> {
    if !overlap(run, over) {
        seq![run]
    } else {
        let mt = max_of(top_of(over), top_of(run));
        let mb = min_of(bottom_of(over), bottom_of(run));
        let s0 = with_piece(Seq::empty(), run, left_of(run), top_of(run), right_of(run) - left_of(run), mt - top_of(run));
        let s1 = with_piece(s0, run, left_of(run), mt, left_of(over) - left_of(run), mb - mt);
        let s2 = with_piece(s1, run, right_of(over), mt, right_of(run) - right_of(over), mb - mt);
        with_piece(s2, run, left_of(run), mb, right_of(run) - left_of(run), bottom_of(run) - mb)
    }
}

/// No two of a list of runs share a pixel.
pub open spec fn apart(s: Seq<Run>) -> bool {
    forall|i: int, j: int, x: int, y: int|
        0 <= i < s.len() && 0 <= j < s.len() && i != j && #[trigger] covers(s[i], x, y) ==> !#[trigger] covers(s[j], x, y)
}

/// Some run of a list covers a pixel.
pub open spec fn any_covers(s: Seq<Run>, x: int, y: int) -> bool {
    exists|i: int| 0 <= i < s.len() && #[trigger] covers(s[i], x, y)
}

fn make_piece(run: &Run, x: u32, y: u32, w: u32, h: u32) -> (r: Run)
    requires
        fits(*run),
        left_of(*run) <= x,
        top_of(*run) <= y,
        x + w <= right_of(*run),
        y + h <= bottom_of(*run),
    ensures
        r == piece(*run, x as int, y as int, w as int, h as int),
        fits(r),
{
    Run {
        span: [0, 0, w, h],
        on: [x, y],
        from: [run.from[0] + (x - run.on[0]), run.from[1] + (y - run.on[1])],
        ink: run.ink,
        paper: run.paper,
    }
}

/// One rectangle less another, as up to four rectangles.
pub fn minus(run: Run, over: &Run) -> (r: Vec<Run>)
    requires
        fits(run),
        fits(*over),
    ensures
        r@ == minus_pieces(run, *over),
{
    let (left, top) = (run.on[0], run.on[1]);
    let (right, bottom) = (left + run.span[2], top + run.span[3]);
    let (over_left, over_top) = (over.on[0], over.on[1]);
    let (over_right, over_bottom) = (over_left + over.span[2], over_top + over.span[3]);
    if over_right <= left || over_left >= right || over_bottom <= top || over_top >= bottom {
        return vec![run];
    }
    let mut out: Vec<Run> = Vec::new();
    let middle_top = if over_top >= top { over_top } else { top };
    let middle_bottom = if over_bottom <= bottom { over_bottom } else { bottom };
    let ghost mt = max_of(top_of(*over), top_of(run));
    let ghost mb = min_of(bottom_of(*over), bottom_of(run));
    proof {
        assert(middle_top == mt && middle_bottom == mb);
        assert(mt <= mb);
    }
    let ghost s0 = with_piece(Seq::empty(), run, left_of(run), top_of(run), right_of(run) - left_of(run), mt - top_of(run));
    if right > left && middle_top > top {
        out.push(make_piece(&run, left, top, right - left, middle_top - top));
    }
    proof { assert(out@ =~= s0); }
    let ghost s1 = with_piece(s0, run, left_of(run), mt, left_of(*over) - left_of(run), mb - mt);
    if over_left > left && middle_bottom > middle_top {
        out.push(make_piece(&run, left, middle_top, over_left - left, middle_bottom - middle_top));
    }
    proof { assert(out@ =~= s1); }
    let ghost s2 = with_piece(s1, run, right_of(*over), mt, right_of(run) - right_of(*over), mb - mt);
    if over_right < right && middle_bottom > middle_top {
        out.push(make_piece(&run, over_right, middle_top, right - over_right, middle_bottom - middle_top));
    }
    proof { assert(out@ =~= s2); }
    if right > left && middle_bottom < bottom {
        out.push(make_piece(&run, left, middle_bottom, right - left, bottom - middle_bottom));
    }
    proof {
        assert(out@ =~= minus_pieces(run, *over));
    }
    out
}

/// What is left of a run once another is taken out of it is exactly the
/// pixels of the one that are not in the other, each in one piece only, and
/// every piece reads from where that part of the run read.
pub proof fn law_minus_is_exact(run: Run, over: Run)
    requires
        fits(run),
        fits(over),
    ensures
        apart(minus_pieces(run, over)),
        forall|x: int, y: int| #[trigger] any_covers(minus_pieces(run, over), x, y) <==> (covers(run, x, y) && !covers(over, x, y)),
        forall|i: int| 0 <= i < minus_pieces(run, over).len() ==> fits(#[trigger] minus_pieces(run, over)[i]),
{
    let s = minus_pieces(run, over);
    if !overlap(run, over) {
        assert forall|x: int, y: int| #[trigger] any_covers(s, x, y) <==> (covers(run, x, y) && !covers(over, x, y)) by {
            if covers(run, x, y) {
                assert(covers(s[0], x, y));
            }
        }
    } else {
        assert forall|x: int, y: int| #[trigger] any_covers(s, x, y) <==> (covers(run, x, y) && !covers(over, x, y)) by {
            if covers(run, x, y) && !covers(over, x, y) {
                let mt = max_of(top_of(over), top_of(run));
                let mb = min_of(bottom_of(over), bottom_of(run));
                if y < mt {
                    assert(covers(s[0], x, y));
                } else if y >= mb {
                    assert(covers(s[s.len() - 1], x, y));
                } else if x < left_of(over) {
                    let k = if mt > top_of(run) { 1int } else { 0int };
                    assert(covers(s[k], x, y));
                } else {
                    let k = (if mt > top_of(run) { 1int } else { 0int }) + (if left_of(over) > left_of(run) { 1int } else { 0int });
                    assert(covers(s[k], x, y));
                }
            }
        }
    }
}

/* ------------------------------------------------------------- the grid */

/// Where the runs go in the dispatch grid, left to right along a shelf no
/// wider than `width`, a new shelf under it when the next one does not fit;
/// and where the next one would go: the place along the shelf, the shelf's
/// top, and its height so far.
pub open spec fn shelved(runs: Seq<Run>, width: int) -> (Seq<(int, int)>, int, int, int)
    decreases runs.len(),
{
    if runs.len() == 0 {
        (Seq::empty(), 0, 0, 0)
    } else {
        let (places, x0, y0, shelf0) = shelved(runs.drop_last(), width);
        let r = runs.last();
        let fresh = x0 > 0 && x0 + r.span[2] > width;
        let x = if fresh { 0 } else { x0 };
        let y = if fresh { y0 + shelf0 } else { y0 };
        let shelf = if fresh { 0 } else { shelf0 };
        (places.push((x, y)), x + r.span[2], y, max_of(shelf, r.span[3] as int))
    }
}

/// Whether shelving the runs keeps every sum it makes within a `u32`: the
/// place along a shelf with the next run's width added, before and after a
/// new shelf is begun, and the height of the shelves above a new one.
pub open spec fn shelves_fit(runs: Seq<Run>, width: int) -> bool
    decreases runs.len(),
{
    if runs.len() == 0 {
        true
    } else {
        let (_, x0, y0, shelf0) = shelved(runs.drop_last(), width);
        let w = runs.last().span[2];
        &&& shelves_fit(runs.drop_last(), width)
        &&& x0 + w <= u32::MAX
        &&& (x0 > 0 && x0 + w > width ==> y0 + shelf0 <= u32::MAX)
    }
}

proof fn lemma_shelved_bounds(runs: Seq<Run>, width: int)
    requires
        width >= 0,
    ensures
        shelved(runs, width).0.len() == runs.len(),
        0 <= shelved(runs, width).1,
        0 <= shelved(runs, width).2,
        0 <= shelved(runs, width).3,
    decreases runs.len(),
{
    if runs.len() > 0 {
        lemma_shelved_bounds(runs.drop_last(), width);
    }
}

proof fn lemma_shelves_fit_prefix(runs: Seq<Run>, width: int, i: int)
    requires
        0 <= i <= runs.len(),
        shelves_fit(runs, width),
    ensures
        shelves_fit(runs.take(i), width),
    decreases runs.len() - i,
{
    if i < runs.len() {
        lemma_shelves_fit_prefix(runs, width, i + 1);
        assert(runs.take(i + 1).drop_last() =~= runs.take(i));
    } else {
        assert(runs.take(i) =~= runs);
    }
}

/// Give each run its place in the grid: left to right along a shelf no wider
/// than the page, and a new shelf under it when the next one does not fit.
/// Only the place in the grid changes.
pub fn stack(runs: &mut Vec<Run>, width: u32)
    requires
        shelves_fit(old(runs)@, width as int),
    ensures
        final(runs)@.len() == old(runs)@.len(),
        forall|i: int| 0 <= i < old(runs)@.len() ==> {
            let (r, o) = (#[trigger] final(runs)@[i], old(runs)@[i]);
            &&& r.span[0] == shelved(old(runs)@, width as int).0[i].0
            &&& r.span[1] == shelved(old(runs)@, width as int).0[i].1
            &&& r.span[2] == o.span[2]
            &&& r.span[3] == o.span[3]
            &&& r.on == o.on
            &&& r.from == o.from
            &&& r.ink == o.ink
            &&& r.paper == o.paper
        },
{
    let ghost start = runs@;
    let mut x: u32 = 0;
    let mut y: u32 = 0;
    let mut shelf: u32 = 0;
    let mut i: usize = 0;
    let n = runs.len();
    proof {
        lemma_shelved_bounds(start, width as int);
        assert(start.take(0) =~= Seq::<Run>::empty());
    }
    while i < n
        invariant
            n == start.len(),
            runs@.len() == n,
            i <= n,
            shelves_fit(start, width as int),
            (x as int, y as int, shelf as int) == ({
                let st = shelved(start.take(i as int), width as int);
                (st.1, st.2, st.3)
            }),
            forall|k: int| i <= k < n ==> #[trigger] runs@[k] == start[k],
            forall|k: int| 0 <= k < i ==> {
                let (r, o) = (#[trigger] runs@[k], start[k]);
                &&& r.span[0] == shelved(start.take(i as int), width as int).0[k].0
                &&& r.span[1] == shelved(start.take(i as int), width as int).0[k].1
                &&& r.span[2] == o.span[2]
                &&& r.span[3] == o.span[3]
                &&& r.on == o.on
                &&& r.from == o.from
                &&& r.ink == o.ink
                &&& r.paper == o.paper
            },
        decreases n - i,
    {
        let ghost prev = start.take(i as int);
        let ghost next = start.take(i + 1);
        proof {
            assert(next.drop_last() =~= prev);
            assert(next.last() == start[i as int]);
            lemma_shelved_bounds(next, width as int);
            lemma_shelved_bounds(prev, width as int);
            lemma_shelves_fit_prefix(start, width as int, i + 1);
        }
        let run = runs[i];
        if x > 0 && x as u64 + run.span[2] as u64 > width as u64 {
            x = 0;
            y = y + shelf;
            shelf = 0;
        }
        let placed = Run { span: [x, y, run.span[2], run.span[3]], on: run.on, from: run.from, ink: run.ink, paper: run.paper };
        runs.set(i, placed);
        x = x + run.span[2];
        if run.span[3] > shelf {
            shelf = run.span[3];
        }
        proof {
            assert forall|k: int| 0 <= k < i implies shelved(next, width as int).0[k] == shelved(prev, width as int).0[k] by {}
        }
        i = i + 1;
    }
    proof { assert(start.take(n as int) =~= start); }
}

/// Whether the runs can be shelved at all: whether every sum the shelving
/// makes stays within a `u32`.
pub fn can_stack(runs: &Vec<Run>, width: u32) -> (r: bool)
    ensures
        r == shelves_fit(runs@, width as int),
{
    let mut x: u64 = 0;
    let mut y: u64 = 0;
    let mut shelf: u64 = 0;
    let mut i: usize = 0;
    proof { assert(runs@.take(0) =~= Seq::<Run>::empty()); }
    while i < runs.len()
        invariant
            i <= runs@.len(),
            shelves_fit(runs@.take(i as int), width as int),
            (x as int, y as int, shelf as int) == ({
                let st = shelved(runs@.take(i as int), width as int);
                (st.1, st.2, st.3)
            }),
            x <= u32::MAX,
            y <= u32::MAX,
            shelf <= u32::MAX,
        decreases runs@.len() - i,
    {
        let ghost prev = runs@.take(i as int);
        let ghost next = runs@.take(i + 1);
        proof {
            assert(next.drop_last() =~= prev);
            assert(next.last() == runs@[i as int]);
            if shelves_fit(runs@, width as int) {
                lemma_shelves_fit_prefix(runs@, width as int, i + 1);
            }
        }
        let w = runs[i].span[2] as u64;
        let h = runs[i].span[3] as u64;
        if x + w > 0xffff_ffff {
            return false;
        }
        if x > 0 && x + w > width as u64 {
            if y + shelf > 0xffff_ffff {
                return false;
            }
            x = 0;
            y = y + shelf;
            shelf = 0;
        }
        x = x + w;
        if h > shelf {
            shelf = h;
        }
        i = i + 1;
    }
    proof { assert(runs@.take(runs@.len() as int) =~= runs@); }
    true
}

/// What stays true while runs are shelved: each one placed so far is on a
/// shelf above the current one, or on it, left of where the next goes and
/// no taller than the shelf.
pub open spec fn shelves_hold(runs: Seq<Run>, width: int) -> bool {
    let (p, x, y, sh) = shelved(runs, width);
    &&& forall|i: int| 0 <= i < runs.len() ==>
        (#[trigger] p[i]).1 + runs[i].span[3] <= y || (p[i].1 == y && p[i].0 + runs[i].span[2] <= x && runs[i].span[3] <= sh)
    &&& forall|i: int| 0 <= i < runs.len() ==> (#[trigger] p[i]).0 == 0 || p[i].0 + runs[i].span[2] <= width
    &&& forall|i: int, j: int| 0 <= i < j < runs.len() ==>
        ((#[trigger] p[j]).1 == (#[trigger] p[i]).1 && p[j].0 >= p[i].0 + runs[i].span[2]) || p[j].1 >= p[i].1 + runs[i].span[3]
}

proof fn lemma_shelves_hold(runs: Seq<Run>, width: int)
    requires
        width >= 0,
    ensures
        shelves_hold(runs, width),
    decreases runs.len(),
{
    if runs.len() > 0 {
        let prev = runs.drop_last();
        lemma_shelves_hold(prev, width);
        lemma_shelved_bounds(prev, width);
        let (p0, x0, y0, sh0) = shelved(prev, width);
        let (p, x, y, sh) = shelved(runs, width);
        let n = prev.len() as int;
        assert forall|i: int| 0 <= i < n implies p[i] == p0[i] && runs[i] == prev[i] by {}
        assert forall|i: int| 0 <= i < runs.len() implies
            (#[trigger] p[i]).1 + runs[i].span[3] <= y || (p[i].1 == y && p[i].0 + runs[i].span[2] <= x && runs[i].span[3] <= sh) by {
            if i < n {
                assert(p0[i].1 + prev[i].span[3] <= y0 || (p0[i].1 == y0 && p0[i].0 + prev[i].span[2] <= x0 && prev[i].span[3] <= sh0));
            }
        }
        assert forall|i: int, j: int| 0 <= i < j < runs.len() implies
            ((#[trigger] p[j]).1 == (#[trigger] p[i]).1 && p[j].0 >= p[i].0 + runs[i].span[2]) || p[j].1 >= p[i].1 + runs[i].span[3] by {
            if j < n {
                assert(p0[j] == p[j] && p0[i] == p[i]);
            } else {
                assert(p0[i].1 + prev[i].span[3] <= y0 || (p0[i].1 == y0 && p0[i].0 + prev[i].span[2] <= x0 && prev[i].span[3] <= sh0));
            }
        }
    }
}

/// Shelved runs lie apart in the grid, each either beside an earlier one
/// on its shelf or below it, and none reaches past the page's width unless
/// it alone is wider.
pub proof fn law_shelves_lie_apart_within_the_width(runs: Seq<Run>, width: int)
    requires
        width >= 0,
    ensures
        ({
            let p = shelved(runs, width).0;
            &&& p.len() == runs.len()
            &&& forall|i: int| 0 <= i < runs.len() ==> (#[trigger] p[i]).0 == 0 || p[i].0 + runs[i].span[2] <= width
            &&& forall|i: int, j: int| 0 <= i < j < runs.len() ==>
                ((#[trigger] p[j]).1 == (#[trigger] p[i]).1 && p[j].0 >= p[i].0 + runs[i].span[2]) || p[j].1 >= p[i].1 + runs[i].span[3]
        }),
{
    lemma_shelves_hold(runs, width);
    lemma_shelved_bounds(runs, width);
}

/// How far across the grid reaches, and how far down: at least one each.
pub open spec fn grid_across(runs: Seq<Run>) -> int
    decreases runs.len(),
{
    if runs.len() == 0 { 1 } else { max_of(grid_across(runs.drop_last()), runs.last().span[0] + runs.last().span[2]) }
}

pub open spec fn grid_down(runs: Seq<Run>) -> int
    decreases runs.len(),
{
    if runs.len() == 0 { 1 } else { max_of(grid_down(runs.drop_last()), runs.last().span[1] + runs.last().span[3]) }
}

/// How big the dispatch grid is: the far edge of the runs `stack` laid out.
pub fn grid(runs: &Vec<Run>) -> (r: (u32, u32))
    requires
        forall|i: int| 0 <= i < runs@.len() ==>
            (#[trigger] runs@[i]).span[0] + runs@[i].span[2] <= u32::MAX && runs@[i].span[1] + runs@[i].span[3] <= u32::MAX,
    ensures
        r.0 == grid_across(runs@),
        r.1 == grid_down(runs@),
{
    let mut across: u32 = 1;
    let mut down: u32 = 1;
    let mut i: usize = 0;
    while i < runs.len()
        invariant
            i <= runs@.len(),
            forall|k: int| 0 <= k < runs@.len() ==>
                (#[trigger] runs@[k]).span[0] + runs@[k].span[2] <= u32::MAX && runs@[k].span[1] + runs@[k].span[3] <= u32::MAX,
            across == grid_across(runs@.take(i as int)),
            down == grid_down(runs@.take(i as int)),
        decreases runs@.len() - i,
    {
        proof {
            assert(runs@.take(i + 1).drop_last() =~= runs@.take(i as int));
            assert(runs@.take(i + 1).last() == runs@[i as int]);
        }
        let run = &runs[i];
        let a = run.span[0] + run.span[2];
        let d = run.span[1] + run.span[3];
        if a > across {
            across = a;
        }
        if d > down {
            down = d;
        }
        i = i + 1;
    }
    proof { assert(runs@.take(runs@.len() as int) =~= runs@); }
    (across, down)
}

/* ----------------------------------------------------------- overlapping */

/// Each of `pieces` less `over`, in order.
pub open spec fn cut_each(pieces: Seq<Run>, over: Run) -> Seq<Run>
    decreases pieces.len(),
{
    if pieces.len() == 0 { Seq::empty() } else { cut_each(pieces.drop_last(), over) + minus_pieces(pieces.last(), over) }
}

/// `pieces` less each of `kept` in turn.
pub open spec fn cut_by_all(pieces: Seq<Run>, kept: Seq<Run>) -> Seq<Run>
    decreases kept.len(),
{
    if kept.len() == 0 { pieces } else { cut_each(cut_by_all(pieces, kept.drop_last()), kept.last()) }
}

/// The runs taken last first, each cut back to what the runs after it leave.
pub open spec fn kept_after(rev: Seq<Run>) -> Seq<Run>
    decreases rev.len(),
{
    if rev.len() == 0 {
        Seq::empty()
    } else {
        let k = kept_after(rev.drop_last());
        k + cut_by_all(seq![rev.last()], k)
    }
}

/// Every run cut back to the part of it no later run covers, in order.
pub open spec fn disjoint_runs(runs: Seq<Run>) -> Seq<Run> {
    kept_after(runs.reverse()).reverse()
}

pub open spec fn all_fit(s: Seq<Run>) -> bool {
    forall|i: int| 0 <= i < s.len() ==> fits(#[trigger] s[i])
}

proof fn lemma_apart_concat(a: Seq<Run>, b: Seq<Run>)
    requires
        apart(a),
        apart(b),
        forall|i: int, j: int, x: int, y: int| 0 <= i < a.len() && 0 <= j < b.len() && #[trigger] covers(a[i], x, y) ==> !#[trigger] covers(b[j], x, y),
    ensures
        apart(a + b),
{
    let s = a + b;
    assert forall|i: int, j: int, x: int, y: int|
        0 <= i < s.len() && 0 <= j < s.len() && i != j && #[trigger] covers(s[i], x, y) implies !#[trigger] covers(s[j], x, y) by {
        if i < a.len() && j < a.len() {
            assert(s[i] == a[i] && s[j] == a[j]);
        } else if i >= a.len() && j >= a.len() {
            assert(s[i] == b[i - a.len()] && s[j] == b[j - a.len()]);
        } else if i < a.len() {
            assert(s[i] == a[i] && s[j] == b[j - a.len()]);
        } else {
            assert(s[j] == a[j] && s[i] == b[i - a.len()]);
        }
    }
}

proof fn lemma_cut_each(pieces: Seq<Run>, over: Run)
    requires
        apart(pieces),
        all_fit(pieces),
        fits(over),
    ensures
        apart(cut_each(pieces, over)),
        all_fit(cut_each(pieces, over)),
        forall|x: int, y: int| #[trigger] any_covers(cut_each(pieces, over), x, y) <==> (any_covers(pieces, x, y) && !covers(over, x, y)),
    decreases pieces.len(),
{
    if pieces.len() > 0 {
        let front = pieces.drop_last();
        let last = pieces.last();
        assert(apart(front)) by {
            assert forall|i: int, j: int, x: int, y: int|
                0 <= i < front.len() && 0 <= j < front.len() && i != j && #[trigger] covers(front[i], x, y) implies !#[trigger] covers(front[j], x, y) by {
                assert(front[i] == pieces[i] && front[j] == pieces[j]);
            }
        }
        assert(all_fit(front)) by {
            assert forall|i: int| 0 <= i < front.len() implies fits(#[trigger] front[i]) by { assert(front[i] == pieces[i]); }
        }
        lemma_cut_each(front, over);
        law_minus_is_exact(last, over);
        let a = cut_each(front, over);
        let b = minus_pieces(last, over);
        assert forall|i: int, j: int, x: int, y: int| 0 <= i < a.len() && 0 <= j < b.len() && #[trigger] covers(a[i], x, y) implies !#[trigger] covers(b[j], x, y) by {
            if covers(b[j], x, y) {
                assert(any_covers(a, x, y));
                assert(any_covers(b, x, y));
                let k = choose|k: int| 0 <= k < front.len() && #[trigger] covers(front[k], x, y);
                assert(front[k] == pieces[k]);
                assert(covers(last, x, y));
                assert(pieces[pieces.len() - 1] == last);
            }
        }
        lemma_apart_concat(a, b);
        let s = a + b;
        assert(all_fit(s)) by {
            assert forall|i: int| 0 <= i < s.len() implies fits(#[trigger] s[i]) by {
                if i < a.len() { assert(s[i] == a[i]); } else { assert(s[i] == b[i - a.len()]); }
            }
        }
        assert forall|x: int, y: int| #[trigger] any_covers(s, x, y) <==> (any_covers(pieces, x, y) && !covers(over, x, y)) by {
            if any_covers(s, x, y) {
                let i = choose|i: int| 0 <= i < s.len() && #[trigger] covers(s[i], x, y);
                if i < a.len() {
                    assert(s[i] == a[i]);
                    assert(any_covers(a, x, y));
                    let k = choose|k: int| 0 <= k < front.len() && #[trigger] covers(front[k], x, y);
                    assert(front[k] == pieces[k]);
                } else {
                    assert(s[i] == b[i - a.len()]);
                    assert(any_covers(b, x, y));
                    assert(pieces[pieces.len() - 1] == last);
                }
            }
            if any_covers(pieces, x, y) && !covers(over, x, y) {
                let k = choose|k: int| 0 <= k < pieces.len() && #[trigger] covers(pieces[k], x, y);
                if k < front.len() {
                    assert(front[k] == pieces[k]);
                    assert(any_covers(front, x, y));
                    assert(any_covers(a, x, y));
                    let i = choose|i: int| 0 <= i < a.len() && #[trigger] covers(a[i], x, y);
                    assert(s[i] == a[i]);
                } else {
                    assert(any_covers(b, x, y));
                    let i = choose|i: int| 0 <= i < b.len() && #[trigger] covers(b[i], x, y);
                    assert(s[i + a.len()] == b[i]);
                }
            }
        }
    }
}

proof fn lemma_cut_by_all(pieces: Seq<Run>, kept: Seq<Run>)
    requires
        apart(pieces),
        all_fit(pieces),
        all_fit(kept),
    ensures
        apart(cut_by_all(pieces, kept)),
        all_fit(cut_by_all(pieces, kept)),
        forall|x: int, y: int| #[trigger] any_covers(cut_by_all(pieces, kept), x, y) <==> (any_covers(pieces, x, y) && !any_covers(kept, x, y)),
    decreases kept.len(),
{
    if kept.len() > 0 {
        let front = kept.drop_last();
        assert(all_fit(front)) by {
            assert forall|i: int| 0 <= i < front.len() implies fits(#[trigger] front[i]) by { assert(front[i] == kept[i]); }
        }
        lemma_cut_by_all(pieces, front);
        lemma_cut_each(cut_by_all(pieces, front), kept.last());
        assert forall|x: int, y: int| #[trigger] any_covers(cut_by_all(pieces, kept), x, y) <==> (any_covers(pieces, x, y) && !any_covers(kept, x, y)) by {
            if any_covers(kept, x, y) {
                let k = choose|k: int| 0 <= k < kept.len() && #[trigger] covers(kept[k], x, y);
                if k < front.len() {
                    assert(front[k] == kept[k]);
                    assert(any_covers(front, x, y));
                }
            }
            if any_covers(front, x, y) {
                let k = choose|k: int| 0 <= k < front.len() && #[trigger] covers(front[k], x, y);
                assert(front[k] == kept[k]);
            }
            if covers(kept.last(), x, y) {
                assert(kept[kept.len() - 1] == kept.last());
            }
        }
    }
}

proof fn lemma_kept_after(rev: Seq<Run>)
    requires
        all_fit(rev),
    ensures
        apart(kept_after(rev)),
        all_fit(kept_after(rev)),
        forall|x: int, y: int| #[trigger] any_covers(kept_after(rev), x, y) <==> any_covers(rev, x, y),
    decreases rev.len(),
{
    if rev.len() > 0 {
        let front = rev.drop_last();
        assert(all_fit(front)) by {
            assert forall|i: int| 0 <= i < front.len() implies fits(#[trigger] front[i]) by { assert(front[i] == rev[i]); }
        }
        lemma_kept_after(front);
        let k = kept_after(front);
        let one = seq![rev.last()];
        assert(apart(one));
        assert(all_fit(one)) by { assert(one[0] == rev[rev.len() - 1]); }
        lemma_cut_by_all(one, k);
        let p = cut_by_all(one, k);
        assert forall|i: int, j: int, x: int, y: int| 0 <= i < k.len() && 0 <= j < p.len() && #[trigger] covers(k[i], x, y) implies !#[trigger] covers(p[j], x, y) by {
            if covers(p[j], x, y) {
                assert(any_covers(p, x, y));
                assert(any_covers(k, x, y));
            }
        }
        lemma_apart_concat(k, p);
        let s = k + p;
        assert(all_fit(s)) by {
            assert forall|i: int| 0 <= i < s.len() implies fits(#[trigger] s[i]) by {
                if i < k.len() { assert(s[i] == k[i]); } else { assert(s[i] == p[i - k.len()]); }
            }
        }
        assert forall|x: int, y: int| #[trigger] any_covers(s, x, y) <==> any_covers(rev, x, y) by {
            if any_covers(s, x, y) {
                let i = choose|i: int| 0 <= i < s.len() && #[trigger] covers(s[i], x, y);
                if i < k.len() {
                    assert(s[i] == k[i]);
                    assert(any_covers(k, x, y));
                    let f = choose|f: int| 0 <= f < front.len() && #[trigger] covers(front[f], x, y);
                    assert(front[f] == rev[f]);
                } else {
                    assert(s[i] == p[i - k.len()]);
                    assert(any_covers(p, x, y));
                    assert(covers(one[0], x, y));
                    assert(rev[rev.len() - 1] == one[0]);
                }
            }
            if any_covers(rev, x, y) {
                let f = choose|f: int| 0 <= f < rev.len() && #[trigger] covers(rev[f], x, y);
                if any_covers(k, x, y) {
                    let i = choose|i: int| 0 <= i < k.len() && #[trigger] covers(k[i], x, y);
                    assert(s[i] == k[i]);
                } else {
                    if f < front.len() {
                        assert(front[f] == rev[f]);
                        assert(any_covers(front, x, y));
                    }
                    assert(covers(one[0], x, y));
                    assert(any_covers(one, x, y));
                    assert(any_covers(p, x, y));
                    let i = choose|i: int| 0 <= i < p.len() && #[trigger] covers(p[i], x, y);
                    assert(s[i + k.len()] == p[i]);
                }
            }
        }
    }
}

proof fn lemma_reverse_keeps(s: Seq<Run>)
    ensures
        apart(s) ==> apart(s.reverse()),
        all_fit(s) ==> all_fit(s.reverse()),
        forall|x: int, y: int| #[trigger] any_covers(s.reverse(), x, y) <==> any_covers(s, x, y),
{
    let r = s.reverse();
    if apart(s) {
        assert forall|i: int, j: int, x: int, y: int|
            0 <= i < r.len() && 0 <= j < r.len() && i != j && #[trigger] covers(r[i], x, y) implies !#[trigger] covers(r[j], x, y) by {
            assert(r[i] == s[s.len() - 1 - i] && r[j] == s[s.len() - 1 - j]);
        }
    }
    if all_fit(s) {
        assert forall|i: int| 0 <= i < r.len() implies fits(#[trigger] r[i]) by { assert(r[i] == s[s.len() - 1 - i]); }
    }
    assert forall|x: int, y: int| #[trigger] any_covers(r, x, y) <==> any_covers(s, x, y) by {
        if any_covers(r, x, y) {
            let i = choose|i: int| 0 <= i < r.len() && #[trigger] covers(r[i], x, y);
            assert(r[i] == s[s.len() - 1 - i]);
        }
        if any_covers(s, x, y) {
            let i = choose|i: int| 0 <= i < s.len() && #[trigger] covers(s[i], x, y);
            assert(r[s.len() - 1 - i] == s[i]);
        }
    }
}

/// Cutting every run back to what no later run covers leaves runs that
/// share no pixel and cover exactly the pixels the runs did: the later run
/// wins by construction rather than by the order a device happens to write.
pub proof fn law_disjoint_runs_are_apart(runs: Seq<Run>)
    requires
        all_fit(runs),
    ensures
        apart(disjoint_runs(runs)),
        all_fit(disjoint_runs(runs)),
        forall|x: int, y: int| #[trigger] any_covers(disjoint_runs(runs), x, y) <==> any_covers(runs, x, y),
{
    lemma_reverse_keeps(runs);
    lemma_kept_after(runs.reverse());
    lemma_reverse_keeps(kept_after(runs.reverse()));
}

proof fn lemma_fit_prefix(s: Seq<Run>, n: int)
    requires
        all_fit(s),
        0 <= n <= s.len(),
    ensures
        all_fit(s.take(n)),
{
    assert forall|i: int| 0 <= i < s.take(n).len() implies fits(#[trigger] s.take(n)[i]) by {
        assert(s.take(n)[i] == s[i]);
    }
}

/// Cut every run back to the part of it no later run covers.
pub fn disjoint(runs: Vec<Run>) -> (r: Vec<Run>)
    requires
        all_fit(runs@),
    ensures
        r@ == disjoint_runs(runs@),
{
    let ghost rev = runs@.reverse();
    let n = runs.len();
    let mut kept: Vec<Run> = Vec::new();
    let mut i: usize = n;
    proof {
        assert(rev.take(0) =~= Seq::<Run>::empty());
        lemma_reverse_keeps(runs@);
    }
    while i > 0
        invariant
            n == runs@.len(),
            rev == runs@.reverse(),
            all_fit(rev),
            i <= n,
            kept@ == kept_after(rev.take(n - i)),
        decreases i,
    {
        i = i - 1;
        let run = runs[i];
        let ghost done = rev.take(n - i - 1);
        proof {
            assert(rev.take(n - i).drop_last() =~= done);
            assert(rev.take(n - i).last() == run);
            lemma_fit_prefix(rev, n - i - 1);
            lemma_kept_after(done);
            assert(fits(run)) by { assert(rev[n - i - 1] == run); }
        }
        let mut pieces: Vec<Run> = vec![run];
        let mut k: usize = 0;
        proof {
            assert(kept@.take(0) =~= Seq::<Run>::empty());
            assert(all_fit(seq![run]));
            assert(apart(seq![run]));
        }
        while k < kept.len()
            invariant
                kept@ == kept_after(done),
                all_fit(kept@),
                apart(seq![run]),
                all_fit(seq![run]),
                k <= kept@.len(),
                pieces@ == cut_by_all(seq![run], kept@.take(k as int)),
            decreases kept@.len() - k,
        {
            let over = kept[k];
            proof {
                assert(kept@.take(k + 1).drop_last() =~= kept@.take(k as int));
                assert(kept@.take(k + 1).last() == over);
                lemma_fit_prefix(kept@, k as int);
                lemma_cut_by_all(seq![run], kept@.take(k as int));
                assert(fits(over));
            }
            let mut next: Vec<Run> = Vec::new();
            let mut p: usize = 0;
            proof { assert(pieces@.take(0) =~= Seq::<Run>::empty()); }
            while p < pieces.len()
                invariant
                    all_fit(pieces@),
                    fits(over),
                    p <= pieces@.len(),
                    next@ == cut_each(pieces@.take(p as int), over),
                decreases pieces@.len() - p,
            {
                proof {
                    assert(pieces@.take(p + 1).drop_last() =~= pieces@.take(p as int));
                    assert(pieces@.take(p + 1).last() == pieces@[p as int]);
                }
                let cut = minus(pieces[p], &over);
                let mut c: usize = 0;
                let ghost base = next@;
                while c < cut.len()
                    invariant
                        c <= cut@.len(),
                        next@ == base + cut@.take(c as int),
                    decreases cut@.len() - c,
                {
                    next.push(cut[c]);
                    proof { assert(base + cut@.take(c + 1) =~= (base + cut@.take(c as int)).push(cut@[c as int])); }
                    c = c + 1;
                }
                proof { assert(cut@.take(cut@.len() as int) =~= cut@); }
                p = p + 1;
            }
            proof { assert(pieces@.take(pieces@.len() as int) =~= pieces@); }
            pieces = next;
            k = k + 1;
        }
        proof { assert(kept@.take(kept@.len() as int) =~= kept@); }
        let mut c: usize = 0;
        let ghost base = kept@;
        while c < pieces.len()
            invariant
                c <= pieces@.len(),
                kept@ == base + pieces@.take(c as int),
            decreases pieces@.len() - c,
        {
            kept.push(pieces[c]);
            proof { assert(base + pieces@.take(c + 1) =~= (base + pieces@.take(c as int)).push(pieces@[c as int])); }
            c = c + 1;
        }
        proof { assert(pieces@.take(pieces@.len() as int) =~= pieces@); }
    }
    proof { assert(rev.take(n as int) =~= rev); }
    let mut out: Vec<Run> = Vec::new();
    let mut j: usize = kept.len();
    while j > 0
        invariant
            j <= kept@.len(),
            out@ == kept@.reverse().take(kept@.len() - j),
        decreases j,
    {
        j = j - 1;
        out.push(kept[j]);
        proof {
            assert(kept@.reverse().take(kept@.len() - j) =~= kept@.reverse().take(kept@.len() - j - 1).push(kept@[j as int]));
        }
    }
    proof { assert(kept@.reverse().take(kept@.len() as int) =~= kept@.reverse()); }
    out
}

} // verus!
