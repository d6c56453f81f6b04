//! How pages are laid out: the choices a reader makes about it, and which
//! pages stand together in a row. Where each page then goes is measured in
//! points, in floating point, and is worked out outside this library.

use vstd::prelude::*;

verus! {

/// How big a page is drawn: as wide as the window, the whole page in it, or
/// at its own size.
#[derive(Clone, Copy, Debug, PartialEq, Eq, Structural)]
pub enum Fit {
    Width,
    Page,
    Actual,
}

/// One page to a row, two side by side, or two with the cover alone first,
/// the way a book opens.
#[derive(Clone, Copy, Debug, PartialEq, Eq, Structural)]
pub enum Spread {
    Single,
    Two,
    Cover,
}

/// Continuous scrolling, or one page at a time. Continuous is a strong
/// default, changed only by a line in `settings.toml`.
#[derive(Clone, Copy, Debug, PartialEq, Eq, Structural)]
pub enum Mode {
    Continuous,
    Paged,
}

/* ---------------------------------------------------------------- turns */

/// A page turned `quarter_turns` quarters clockwise (anticlockwise where
/// negative) from `rotation` degrees: the rotation it then has, always one of
/// 0, 90, 180 and 270, and how many quarters the crop, a rectangle on the
/// turned page, turns with it. Where the rotation comes out as it was, the
/// crop is left alone.
pub open spec fn turned_by(rotation: int, quarter_turns: int) -> (int, int) {
    let after = (rotation + quarter_turns * 90) % 360;
    (after, if after == rotation { 0 } else { quarter_turns % 4 })
}

/// Turn the document a quarter at a time: the rotation it comes to, and how
/// many quarters its crop turns with it.
pub fn turn(rotation: u32, quarter_turns: i32) -> (r: (u32, u32))
    requires
        rotation < 360,
        rotation % 90 == 0,
        i32::MIN <= rotation + quarter_turns * 90 <= i32::MAX,
        i32::MIN <= quarter_turns * 90,
    ensures
        (r.0 as int, r.1 as int) == turned_by(rotation as int, quarter_turns as int),
        r.0 % 90 == 0,
        r.0 < 360,
{
    let sum: i64 = rotation as i64 + quarter_turns as i64 * 90;
    let after: u32 = if sum >= 0 {
        (sum % 360) as u32
    } else {
        let back: i64 = (-sum) % 360;
        proof {
            assert(back == (-sum) % 360);
            assert((sum % 360) == if back == 0 { 0 } else { 360 - back }) by (nonlinear_arith)
                requires back == (-sum) % 360, sum < 0;
        }
        if back == 0 { 0 } else { (360 - back) as u32 }
    };
    let crop: u32 = if after == rotation {
        0
    } else if quarter_turns >= 0 {
        (quarter_turns % 4) as u32
    } else {
        let back: i32 = (-(quarter_turns as i64) % 4) as i32;
        proof {
            assert((quarter_turns % 4) == if back == 0 { 0 } else { 4 - back }) by (nonlinear_arith)
                requires back == (-(quarter_turns as int)) % 4, quarter_turns < 0;
        }
        if back == 0 { 0 } else { (4 - back) as u32 }
    };
    proof {
        assert(after % 90 == 0) by (nonlinear_arith)
            requires after == (rotation + quarter_turns * 90) % 360, rotation % 90 == 0;
    }
    (after, crop)
}

/// A turn is undone by as many quarters the other way: four quarters, or any
/// number of whole turns, is where the page started.
pub proof fn law_a_turn_is_undone_by_the_opposite_turn(rotation: int, quarter_turns: int)
    requires
        0 <= rotation < 360,
    ensures
        turned_by(turned_by(rotation, quarter_turns).0, -quarter_turns).0 == rotation,
        quarter_turns % 4 == 0 ==> turned_by(rotation, quarter_turns) == (rotation, 0int),
{
    let after = (rotation + quarter_turns * 90) % 360;
    assert((after + (-quarter_turns) * 90) % 360 == rotation) by (nonlinear_arith)
        requires after == (rotation + quarter_turns * 90) % 360, 0 <= rotation < 360;
    if quarter_turns % 4 == 0 {
        assert(after == rotation) by (nonlinear_arith)
            requires after == (rotation + quarter_turns * 90) % 360, 0 <= rotation < 360, quarter_turns % 4 == 0;
    }
}

/* ------------------------------------------------------------------ rows */

/// How many rows `count` pages stand in.
pub open spec fn row_count(count: int, spread: Spread) -> int {
    match spread {
        Spread::Single => count,
        Spread::Two => (count + 1) / 2,
        Spread::Cover => if count <= 0 { 0 } else { 1 + count / 2 },
    }
}

/// The first page of row `k`: in `Cover` page one stands alone and every
/// pair after it begins on an even page, the way a book falls open; in `Two`
/// the pairs begin on the first page.
pub open spec fn row_start(k: int, spread: Spread) -> int {
    match spread {
        Spread::Single => k,
        Spread::Two => 2 * k,
        Spread::Cover => if k == 0 { 0 } else { 2 * k - 1 },
    }
}

/// The pages standing in row `k`: its first, and the one after it where the
/// row is a pair and there is one.
pub open spec fn row_at(count: int, spread: Spread, k: int) -> Seq<usize> {
    let first = row_start(k, spread);
    if spread == Spread::Single || (spread == Spread::Cover && k == 0) || first + 1 >= count {
        seq![first as usize]
    } else {
        seq![first as usize, (first + 1) as usize]
    }
}

/// Every row, in order.
pub open spec fn rows_spec(count: int, spread: Spread) -> Seq<Seq<usize>> {
    Seq::new(row_count(count, spread) as nat, |k: int| row_at(count, spread, k))
}

/// The row a page stands in.
pub open spec fn row_index(index: int, spread: Spread) -> int {
    match spread {
        Spread::Single => index,
        Spread::Two => index / 2,
        Spread::Cover => if index == 0 { 0 } else { (index + 1) / 2 },
    }
}

/// The pages standing in each row, in order, for a document of `count`
/// pages: one each in single mode, and pairs otherwise.
pub fn rows(count: usize, spread: Spread) -> (r: Vec<Vec<usize>>)
    ensures
        r@.map_values(|row: Vec<usize>| row@) == rows_spec(count as int, spread),
{
    let mut out: Vec<Vec<usize>> = Vec::new();
    let n: usize = match spread {
        Spread::Single => count,
        Spread::Two => count / 2 + count % 2,
        Spread::Cover => if count == 0 { 0 } else { 1 + count / 2 },
    };
    assert(n == row_count(count as int, spread));
    let mut k: usize = 0;
    while k < n
        invariant
            k <= n,
            n == row_count(count as int, spread),
            n <= count,
            out@.map_values(|row: Vec<usize>| row@) == rows_spec(count as int, spread).take(k as int),
        decreases n - k,
    {
        let first: usize = match spread {
            Spread::Single => k,
            Spread::Two => 2 * k,
            Spread::Cover => if k == 0 { 0 } else { 2 * k - 1 },
        };
        let mut row: Vec<usize> = Vec::new();
        row.push(first);
        let single = match spread {
            Spread::Single => true,
            Spread::Two => false,
            Spread::Cover => k == 0,
        };
        if !single && first + 1 < count {
            row.push(first + 1);
        }
        proof {
            assert(row@ =~= row_at(count as int, spread, k as int));
        }
        let ghost before = out@;
        out.push(row);
        proof {
            assert(out@.map_values(|row: Vec<usize>| row@) =~= before.map_values(|row: Vec<usize>| row@).push(row@));
            assert(rows_spec(count as int, spread).take(k + 1) =~= rows_spec(count as int, spread).take(k as int).push(row@));
        }
        k = k + 1;
    }
    proof { assert(rows_spec(count as int, spread).take(n as int) =~= rows_spec(count as int, spread)); }
    out
}

/// The row a page is standing in, and the pages standing with it.
pub fn row_of(count: usize, spread: Spread, index: usize) -> (r: Vec<usize>)
    ensures
        r@ == row_at(count as int, spread, row_index(index as int, spread)),
{
    let mut row: Vec<usize> = Vec::new();
    match spread {
        Spread::Single => {
            row.push(index);
        },
        Spread::Cover => {
            if index == 0 {
                row.push(0);
            } else {
                let first = if index % 2 == 1 { index } else { index - 1 };
                row.push(first);
                if first < count && count - first > 1 {
                    row.push(first + 1);
                }
            }
        },
        Spread::Two => {
            let first = index - index % 2;
            row.push(first);
            if first < count && count - first > 1 {
                row.push(first + 1);
            }
        },
    }
    proof {
        assert(row@ =~= row_at(count as int, spread, row_index(index as int, spread)));
    }
    row
}

/// Every page stands in exactly one row: the one `row_of` gives, which is
/// the row of that number among `rows`, and no other row holds it.
pub proof fn law_each_page_stands_in_one_row(count: int, spread: Spread, index: int, k: int)
    requires
        0 <= index < count <= usize::MAX,
        0 <= k < row_count(count, spread),
    ensures
        0 <= row_index(index, spread) < row_count(count, spread),
        rows_spec(count, spread)[row_index(index, spread)] == row_at(count, spread, row_index(index, spread)),
        rows_spec(count, spread)[k].contains(index as usize) <==> k == row_index(index, spread),
{
    let row = row_at(count, spread, k);
    let first = row_start(k, spread);
    let pair = !(spread == Spread::Single || (spread == Spread::Cover && k == 0) || first + 1 >= count);
    assert(0 <= first < count);
    assert(rows_spec(count, spread)[k] == row);
    assert(row.contains(index as usize) <==> (index == first || (pair && index == first + 1))) by {
        if row.contains(index as usize) {
            let w = choose|w: int| 0 <= w < row.len() && row[w] == index as usize;
            if w == 0 {
                assert(row[0] == first as usize);
            } else {
                assert(pair && row[1] == (first + 1) as usize);
            }
        }
        if index == first {
            assert(row[0] == index as usize);
        }
        if pair && index == first + 1 {
            assert(row[1] == index as usize);
        }
    }
    match spread {
        Spread::Single => {},
        Spread::Two => {
            assert((index == 2 * k || (2 * k + 1 < count && index == 2 * k + 1)) <==> k == index / 2);
        },
        Spread::Cover => {
            if k == 0 {
                assert(index == 0 <==> k == row_index(index, spread));
            } else {
                assert((index == 2 * k - 1 || (2 * k < count && index == 2 * k)) <==> (index != 0 && k == (index + 1) / 2));
            }
        },
    }
}

} // verus!
