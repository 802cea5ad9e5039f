//! Word search on a letter grid: counting XMAS in all eight directions,
//! and counting X-shaped MAS crossings.
use crate::scan;
use vstd::prelude::*;

verus! {

/// The letter at (r, c), or 0 outside the grid: a value no cell holds, so
/// out-of-bounds positions never match a word.
pub open spec fn letter_at(rows: Seq<Seq<u8>>, r: int, c: int) -> u8 {
    if 0 <= r < rows.len() && 0 <= c < rows[r].len() {
        rows[r][c]
    } else {
        0
    }
}

/// The unit translation of each of the eight directions.
pub open spec fn dir_delta(d: int) -> (int, int) {
    if d == 0 {
        (-1, 0)
    } else if d == 1 {
        (1, 0)
    } else if d == 2 {
        (0, 1)
    } else if d == 3 {
        (0, -1)
    } else if d == 4 {
        (-1, 1)
    } else if d == 5 {
        (-1, -1)
    } else if d == 6 {
        (1, 1)
    } else {
        (1, -1)
    }
}

/// Whether XMAS is written from (r, c) along direction `d`.
pub open spec fn xmas_at(rows: Seq<Seq<u8>>, r: int, c: int, d: int) -> bool {
    let (dr, dc) = dir_delta(d);
    &&& letter_at(rows, r, c) == 88
    &&& letter_at(rows, r + dr, c + dc) == 77
    &&& letter_at(rows, r + 2 * dr, c + 2 * dc) == 65
    &&& letter_at(rows, r + 3 * dr, c + 3 * dc) == 83
}

/// Number of directions among the first `d` in which XMAS is written from
/// (r, c).
pub open spec fn xmas_dirs(rows: Seq<Seq<u8>>, r: int, c: int, d: int) -> int
    decreases d,
{
    if d <= 0 {
        0
    } else {
        xmas_dirs(rows, r, c, d - 1) + if xmas_at(rows, r, c, d - 1) {
            1int
        } else {
            0int
        }
    }
}

/// Whether the cell (r, c) is the centre of an X of MAS words: an A whose
/// two diagonals each read MAS or SAM.
pub open spec fn x_mas_at(rows: Seq<Seq<u8>>, r: int, c: int) -> bool {
    let nw = letter_at(rows, r - 1, c - 1);
    let se = letter_at(rows, r + 1, c + 1);
    let ne = letter_at(rows, r - 1, c + 1);
    let sw = letter_at(rows, r + 1, c - 1);
    &&& letter_at(rows, r, c) == 65
    &&& ((nw == 77 && se == 83) || (nw == 83 && se == 77))
    &&& ((ne == 77 && sw == 83) || (ne == 83 && sw == 77))
}

/// XMAS occurrences with their start among the first `k` cells in
/// row-major order.
pub open spec fn count_xmas(rows: Seq<Seq<u8>>, cols: int, k: int) -> int
    decreases k,
{
    if k <= 0 {
        0
    } else {
        count_xmas(rows, cols, k - 1) + xmas_dirs(rows, (k - 1) / cols, (k - 1) % cols, 8)
    }
}

/// X-MAS centres among the first `k` cells in row-major order.
pub open spec fn count_x_mas(rows: Seq<Seq<u8>>, cols: int, k: int) -> int
    decreases k,
{
    if k <= 0 {
        0
    } else {
        count_x_mas(rows, cols, k - 1) + if x_mas_at(rows, (k - 1) / cols, (k - 1) % cols) {
            1int
        } else {
            0int
        }
    }
}

/// A valid grid: at least one row, rectangular, only the letters X, M, A,
/// S, and dimensions small enough that every count fits a usize on any
/// machine (8 occurrences per cell at most, and 8 * 23170 * 23170 still
/// fits 32 bits).
pub open spec fn grid_ok(rows: Seq<Seq<u8>>) -> bool {
    &&& rows.len() >= 1
    &&& rows[0].len() >= 1
    &&& rows.len() <= 23170
    &&& rows[0].len() <= 23170
    &&& forall|i: int| 0 <= i < rows.len() ==> #[trigger] rows[i].len() == rows[0].len()
    &&& forall|i: int, j: int|
        0 <= i < rows.len() && 0 <= j < rows[i].len() ==> is_letter(#[trigger] rows[i][j])
}

pub open spec fn is_letter(b: u8) -> bool {
    b == 88 || b == 77 || b == 65 || b == 83
}

/// The input as its grid of letters.
pub open spec fn grid_of(s: Seq<u8>) -> Seq<Seq<u8>> {
    scan::spec_lines(s)
}

fn letter_exec(rows: &Vec<Vec<u8>>, r: i64, c: i64) -> (b: u8)
    requires
        grid_ok(scan::pieces_view(rows@)),
        rows@.len() == scan::pieces_view(rows@).len(),
        forall|x: int|
            0 <= x < rows@.len() ==> (#[trigger] rows@[x])@ == scan::pieces_view(rows@)[x],
        -8 <= r <= 0x7fff_ffff + 8,
        -8 <= c <= 0x7fff_ffff + 8,
    ensures
        b == letter_at(scan::pieces_view(rows@), r as int, c as int),
{
    let ghost rv = scan::pieces_view(rows@);
    if r < 0 || c < 0 {
        return 0;
    }
    let ru = r as usize;
    let cu = c as usize;
    if ru >= rows.len() {
        return 0;
    }
    proof {
        assert(rv[r as int].len() == rv[0].len());
    }
    if cu >= rows[ru].len() {
        return 0;
    }
    rows[ru][cu]
}

/// Reads the letter grid; None when the input is not a valid grid.
pub fn parse(input: &[u8]) -> (out: Option<Vec<Vec<u8>>>)
    ensures
        match out {
            Some(rows) => grid_ok(grid_of(input@)) && scan::pieces_view(rows@) == grid_of(
                input@,
            ),
            None => !grid_ok(grid_of(input@)),
        },
{
    let ls = scan::lines(input);
    let ghost rv = grid_of(input@);
    if ls.len() == 0 {
        return None;
    }
    let cols = ls[0].len();
    if cols == 0 {
        proof {
            assert(rv[0] == ls@[0]@);
        }
        return None;
    }
    if ls.len() > 23170usize || cols > 23170usize {
        return None;
    }
    let mut i: usize = 0;
    while i < ls.len()
        invariant
            i <= ls@.len(),
            scan::pieces_view(ls@) == rv,
            rv == grid_of(input@),
            cols == rv[0].len(),
            forall|x: int| 0 <= x < i ==> #[trigger] rv[x].len() == rv[0].len(),
            forall|x: int, y: int| 0 <= x < i && 0 <= y < rv[x].len() ==> is_letter(
                #[trigger] rv[x][y],
            ),
        decreases ls@.len() - i,
    {
        let row = &ls[i];
        proof {
            assert(rv[i as int] == row@);
        }
        if row.len() != cols {
            return None;
        }
        let mut j: usize = 0;
        while j < cols
            invariant
                j <= cols,
                i < ls@.len(),
                scan::pieces_view(ls@) == rv,
                rv == grid_of(input@),
                i < rv.len(),
                row@ == rv[i as int],
                row@.len() == cols,
                forall|y: int| 0 <= y < j ==> is_letter(#[trigger] rv[i as int][y]),
            decreases cols - j,
        {
            let b = row[j];
            if !(b == 88 || b == 77 || b == 65 || b == 83) {
                return None;
            }
            j += 1;
        }
        i += 1;
    }
    Some(ls)
}

/// Both answers for one input: how often XMAS is written in any of the
/// eight directions, and how many X-shaped MAS crossings the grid holds.
/// None when the input is not a valid grid.
pub fn run(input: &[u8]) -> (out: Option<(usize, usize)>)
    ensures
        ({
            let rows = grid_of(input@);
            let cells = rows.len() * rows[0].len();
            match out {
                Some(ans) => {
                    &&& grid_ok(rows)
                    &&& ans.0 == count_xmas(rows, rows[0].len() as int, cells as int)
                    &&& ans.1 == count_x_mas(rows, rows[0].len() as int, cells as int)
                },
                None => !grid_ok(rows),
            }
        }),
{
    let rows = match parse(input) {
        Some(rows) => rows,
        None => {
            return None;
        },
    };
    let ghost rv = grid_of(input@);
    let nr = rows.len();
    let nc = rows[0].len();
    proof {
        assert(rv[0] == rows@[0]@);
    }
    proof {
        assert(rv.len() * rv[0].len() <= 23170 * 23170) by (nonlinear_arith)
            requires
                rv.len() <= 23170,
                rv[0].len() <= 23170,
        ;
    }
    let cells = nr * nc;
    let mut xmas: usize = 0;
    let mut crosses: usize = 0;
    let mut k: usize = 0;
    while k < cells
        invariant
            k <= cells,
            cells == nr * nc,
            nr == rows@.len(),
            nc == rv[0].len(),
            rv == scan::pieces_view(rows@),
            rv == grid_of(input@),
            grid_ok(rv),
            rv.len() == nr,
            cells <= 23170 * 23170,
            nr <= 23170,
            nc <= 23170,
            forall|x: int| 0 <= x < rows@.len() ==> (#[trigger] rows@[x])@ == rv[x],
            xmas == count_xmas(rv, nc as int, k as int),
            crosses == count_x_mas(rv, nc as int, k as int),
            xmas <= 8 * k,
            crosses <= k,
        decreases cells - k,
    {
        proof {
            assert(0 <= (k as int) / (nc as int) < nr && 0 <= (k as int) % (nc as int) < nc)
                by (nonlinear_arith)
                requires
                    0 <= k < nr * nc,
                    1 <= nc,
            ;
        }
        let r = (k / nc) as i64;
        let c = (k % nc) as i64;
        let mut d: usize = 0;
        let mut here: usize = 0;
        while d < 8
            invariant
                d <= 8,
                here <= d,
                grid_ok(rv),
                rv == scan::pieces_view(rows@),
                rv.len() == rows@.len(),
                nr <= 23170,
                nc <= 23170,
                forall|x: int| 0 <= x < rows@.len() ==> (#[trigger] rows@[x])@ == rv[x],
                0 <= r < rv.len(),
                0 <= c < rv[0].len(),
                here == xmas_dirs(rv, r as int, c as int, d as int),
            decreases 8 - d,
        {
            let (dr, dc): (i64, i64) = if d == 0 {
                (-1, 0)
            } else if d == 1 {
                (1, 0)
            } else if d == 2 {
                (0, 1)
            } else if d == 3 {
                (0, -1)
            } else if d == 4 {
                (-1, 1)
            } else if d == 5 {
                (-1, -1)
            } else if d == 6 {
                (1, 1)
            } else {
                (1, -1)
            };
            let hit = letter_exec(&rows, r, c) == 88 && letter_exec(&rows, r + dr, c + dc) == 77
                && letter_exec(&rows, r + 2 * dr, c + 2 * dc) == 65 && letter_exec(
                &rows,
                r + 3 * dr,
                c + 3 * dc,
            ) == 83;
            if hit {
                here += 1;
            }
            d += 1;
        }
        xmas += here;
        let is_cross = letter_exec(&rows, r, c) == 65 && {
            let nw = letter_exec(&rows, r - 1, c - 1);
            let se = letter_exec(&rows, r + 1, c + 1);
            let ne = letter_exec(&rows, r - 1, c + 1);
            let sw = letter_exec(&rows, r + 1, c - 1);
            ((nw == 77 && se == 83) || (nw == 83 && se == 77)) && ((ne == 77 && sw == 83) || (ne
                == 83 && sw == 77))
        };
        if is_cross {
            crosses += 1;
        }
        k += 1;
    }
    Some((xmas, crosses))
}

} // verus!
