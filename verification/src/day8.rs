//! Antenna antinodes: every pair of same-frequency antennas casts a ray
//! of candidate antinode positions across the grid; the answer is how
//! many distinct positions receive one.
use crate::scan;
use vstd::prelude::*;

verus! {

/// A step budget that the ray can never outlive: the step ceiling when
/// there is one, else the number of steps to the grid edge along the
/// moving axis.
pub open spec fn ray_fuel(
    r: int,
    c: int,
    dr: int,
    dc: int,
    nr: int,
    nc: int,
    max_steps: Option<usize>,
) -> nat {
    match max_steps {
        Some(m) => (m + 2) as nat,
        None => if dr > 0 {
            if nr - r >= 0 {
                (nr - r) as nat
            } else {
                0
            }
        } else if dr < 0 {
            if r + 1 >= 0 {
                (r + 1) as nat
            } else {
                0
            }
        } else if dc > 0 {
            if nc - c >= 0 {
                (nc - c) as nat
            } else {
                0
            }
        } else if dc < 0 {
            if c + 1 >= 0 {
                (c + 1) as nat
            } else {
                0
            }
        } else {
            0
        },
    }
}

/// The ray of in-bounds coordinates from (r, c) along (dr, dc), stopping
/// at the grid edge or once the step count exceeds the ceiling.
pub open spec fn spec_ray(
    r: int,
    c: int,
    dr: int,
    dc: int,
    nr: int,
    nc: int,
    max_steps: Option<usize>,
    steps: int,
    fuel: nat,
) -> Seq<(i32, i32)>
    decreases fuel,
{
    if fuel == 0 {
        Seq::empty()
    } else if !(0 <= r < nr && 0 <= c < nc) {
        Seq::empty()
    } else if max_steps matches Some(m) && steps > m {
        Seq::empty()
    } else {
        seq![((r as i32), (c as i32))] + spec_ray(
            r + dr,
            c + dc,
            dr,
            dc,
            nr,
            nc,
            max_steps,
            steps + 1,
            (fuel - 1) as nat,
        )
    }
}

/// The full ray from a start: what `expand` lists.
pub open spec fn ray_of(
    r: int,
    c: int,
    dr: int,
    dc: int,
    nr: int,
    nc: int,
    max_steps: Option<usize>,
) -> Seq<(i32, i32)> {
    spec_ray(r, c, dr, dc, nr, nc, max_steps, 0, ray_fuel(r, c, dr, dc, nr, nc, max_steps))
}

/// With enough fuel the budget does not matter: the ray is cut off by the
/// bounds or the ceiling alone.
proof fn lemma_ray_fuel_enough(
    r: int,
    c: int,
    dr: int,
    dc: int,
    nr: int,
    nc: int,
    max_steps: Option<usize>,
    steps: int,
    f1: nat,
    f2: nat,
)
    requires
        nr <= i32::MAX,
        nc <= i32::MAX,
        max_steps is Some || (dr, dc) != (0int, 0int),
        steps >= 0,
        f1 >= ray_fuel(r, c, dr, dc, nr, nc, max_steps) - steps,
        f2 >= ray_fuel(r, c, dr, dc, nr, nc, max_steps) - steps,
        max_steps is None ==> f1 >= ray_fuel(r, c, dr, dc, nr, nc, None) && f2 >= ray_fuel(
            r,
            c,
            dr,
            dc,
            nr,
            nc,
            None,
        ),
    ensures
        spec_ray(r, c, dr, dc, nr, nc, max_steps, steps, f1) == spec_ray(
            r,
            c,
            dr,
            dc,
            nr,
            nc,
            max_steps,
            steps,
            f2,
        ),
    decreases f1 + f2,
{
    if f1 == 0 || f2 == 0 {
        if 0 <= r < nr && 0 <= c < nc {
            match max_steps {
                Some(m) => {
                    assert(steps > m);
                },
                None => {},
            }
        }
    } else if !(0 <= r < nr && 0 <= c < nc) {
    } else if max_steps matches Some(m) && steps > m {
    } else {
        lemma_ray_fuel_enough(
            r + dr,
            c + dc,
            dr,
            dc,
            nr,
            nc,
            max_steps,
            steps + 1,
            (f1 - 1) as nat,
            (f2 - 1) as nat,
        );
    }
}

/// Walks the ray of in-bounds coordinates from (row_index, col_index)
/// along the translation, with an optional ceiling on the number of
/// steps.
pub fn expand(
    row_index: i32,
    col_index: i32,
    row_translation: i32,
    col_translation: i32,
    num_rows: i32,
    num_cols: i32,
    max_steps: Option<usize>,
) -> (out: Vec<(i32, i32)>)
    requires
        max_steps is Some || (row_translation as int, col_translation as int) != (0int, 0int),
        max_steps matches Some(m) ==> m < usize::MAX,
    ensures
        out@ == ray_of(
            row_index as int,
            col_index as int,
            row_translation as int,
            col_translation as int,
            num_rows as int,
            num_cols as int,
            max_steps,
        ),
{
    let ghost dr = row_translation as int;
    let ghost dc = col_translation as int;
    let ghost nr = num_rows as int;
    let ghost nc = num_cols as int;
    let ghost fuel0 = ray_fuel(row_index as int, col_index as int, dr, dc, nr, nc, max_steps);
    let mut out: Vec<(i32, i32)> = Vec::new();
    let mut r: i64 = row_index as i64;
    let mut c: i64 = col_index as i64;
    let mut steps: usize = 0;
    loop
        invariant
            steps == out@.len(),
            -0x8000_0000_0000i64 <= r <= 0x8000_0000_0000i64,
            -0x8000_0000_0000i64 <= c <= 0x8000_0000_0000i64,
            dr == row_translation as int,
            dc == col_translation as int,
            nr == num_rows as int,
            nc == num_cols as int,
            max_steps is Some || (dr, dc) != (0int, 0int),
            max_steps matches Some(m) ==> m < usize::MAX,
            fuel0 == ray_fuel(row_index as int, col_index as int, dr, dc, nr, nc, max_steps),
            fuel0 <= usize::MAX + 1,
            max_steps is None ==> steps + fuel_here(
                r as int,
                c as int,
                dr,
                dc,
                nr,
                nc,
                max_steps,
                steps as int,
            ) <= fuel0 && fuel0 <= usize::MAX,
            ray_of(row_index as int, col_index as int, dr, dc, nr, nc, max_steps) == out@
                + spec_ray(
                r as int,
                c as int,
                dr,
                dc,
                nr,
                nc,
                max_steps,
                steps as int,
                fuel_here(r as int, c as int, dr, dc, nr, nc, max_steps, steps as int),
            ),
        ensures
            out@ == ray_of(row_index as int, col_index as int, dr, dc, nr, nc, max_steps),
        decreases fuel_here(r as int, c as int, dr, dc, nr, nc, max_steps, steps as int),
    {
        let in_bounds = 0 <= r && r < num_rows as i64 && 0 <= c && c < num_cols as i64;
        let ghost fh = fuel_here(r as int, c as int, dr, dc, nr, nc, max_steps, steps as int);
        if !in_bounds {
            proof {
                assert(spec_ray(r as int, c as int, dr, dc, nr, nc, max_steps, steps as int, fh)
                    =~= Seq::<(i32, i32)>::empty());
                assert(out@ + Seq::<(i32, i32)>::empty() =~= out@);
            }
            break;
        }
        match max_steps {
            Some(m) => {
                if steps > m {
                    proof {
                        assert(spec_ray(
                            r as int,
                            c as int,
                            dr,
                            dc,
                            nr,
                            nc,
                            max_steps,
                            steps as int,
                            fh,
                        ) =~= Seq::<(i32, i32)>::empty());
                        assert(out@ + Seq::<(i32, i32)>::empty() =~= out@);
                    }
                    break;
                }
            },
            None => {},
        }
        let ghost out_pre = out@;
        out.push((r as i32, c as i32));
        proof {
            assert(fh > 0);
            let tail = spec_ray(
                r as int + dr,
                c as int + dc,
                dr,
                dc,
                nr,
                nc,
                max_steps,
                steps as int + 1,
                (fh - 1) as nat,
            );
            assert(spec_ray(r as int, c as int, dr, dc, nr, nc, max_steps, steps as int, fh)
                == seq![((r as i32), (c as i32))] + tail);
            lemma_ray_fuel_enough(
                r as int + dr,
                c as int + dc,
                dr,
                dc,
                nr,
                nc,
                max_steps,
                steps as int + 1,
                (fh - 1) as nat,
                fuel_here(
                    r as int + dr,
                    c as int + dc,
                    dr,
                    dc,
                    nr,
                    nc,
                    max_steps,
                    steps as int + 1,
                ),
            );
            assert(out_pre + (seq![((r as i32), (c as i32))] + tail) =~= out@ + tail);
        }
        r = r + row_translation as i64;
        c = c + col_translation as i64;
        steps = steps + 1;
    }
    out
}

/// The budget still ahead of a partly walked ray.
pub open spec fn fuel_here(
    r: int,
    c: int,
    dr: int,
    dc: int,
    nr: int,
    nc: int,
    max_steps: Option<usize>,
    steps: int,
) -> nat {
    match max_steps {
        Some(m) => if m + 2 - steps >= 0 {
            (m + 2 - steps) as nat
        } else {
            0
        },
        None => ray_fuel(r, c, dr, dc, nr, nc, None),
    }
}

/// A valid antenna map: non-empty, rectangular, no carriage returns, and
/// dimensions small enough for the i32 arithmetic of the rays.
pub open spec fn grid_ok(rows: Seq<Seq<u8>>) -> bool {
    &&& rows.len() >= 1
    &&& rows[0].len() >= 1
    &&& rows.len() <= 23170
    &&& rows[0].len() <= 23170
    &&& forall|i: int| 0 <= i < rows.len() ==> #[trigger] rows[i].len() == rows[0].len()
    &&& forall|i: int, j: int| 0 <= i < rows.len() && 0 <= j < rows[i].len() ==> rows[i][j] != 13
}

/// The antennas among the first `k` cells in row-major order: every cell
/// that is not '.', with its coordinate and its frequency byte.
pub open spec fn spec_antennas(rows: Seq<Seq<u8>>, cols: int, k: int) -> Seq<(i32, i32, u8)>
    decreases k,
{
    if k <= 0 {
        Seq::empty()
    } else {
        let pre = spec_antennas(rows, cols, k - 1);
        let r = (k - 1) / cols;
        let c = (k - 1) % cols;
        if rows[r][c] != 46 {
            pre.push(((r as i32), (c as i32), rows[r][c]))
        } else {
            pre
        }
    }
}

/// Antennas sit on the grid, on distinct cells, in row-major order.
proof fn lemma_antennas_wf(rows: Seq<Seq<u8>>, cols: int, k: int)
    requires
        grid_ok(rows),
        cols == rows[0].len(),
        0 <= k <= rows.len() * cols,
    ensures
        forall|i: int|
            0 <= i < spec_antennas(rows, cols, k).len() ==> {
                let a = #[trigger] spec_antennas(rows, cols, k)[i];
                0 <= a.0 < rows.len() && 0 <= a.1 < cols && a.0 * cols + a.1 <= k - 1
            },
        forall|i: int, j: int|
            0 <= i < j < spec_antennas(rows, cols, k).len() ==> {
                let a = #[trigger] spec_antennas(rows, cols, k)[i];
                let b = #[trigger] spec_antennas(rows, cols, k)[j];
                a.0 * cols + a.1 < b.0 * cols + b.1
            },
    decreases k,
{
    if k > 0 {
        lemma_antennas_wf(rows, cols, k - 1);
        let r = (k - 1) / cols;
        let c = (k - 1) % cols;
        assert(0 <= r < rows.len() && 0 <= c < cols && r * cols + c == k - 1) by (nonlinear_arith)
            requires
                0 <= k - 1 < rows.len() * cols,
                1 <= cols,
                r == (k - 1) / cols,
                c == (k - 1) % cols,
        ;
        let pre = spec_antennas(rows, cols, k - 1);
        let cur = spec_antennas(rows, cols, k);
        if rows[r][c] != 46 {
            let x = (((r as i32), (c as i32), rows[r][c]));
            assert(cur == pre.push(x));
            assert(x.0 == r && x.1 == c);
            assert forall|i: int| 0 <= i < cur.len() implies {
                let a = #[trigger] cur[i];
                0 <= a.0 < rows.len() && 0 <= a.1 < cols && a.0 * cols + a.1 <= k - 1
            } by {
                if i < pre.len() {
                    assert(cur[i] == pre[i]);
                }
            }
            assert forall|i: int, j: int| 0 <= i < j < cur.len() implies {
                let a = #[trigger] cur[i];
                let b = #[trigger] cur[j];
                a.0 * cols + a.1 < b.0 * cols + b.1
            } by {
                if j < pre.len() {
                    assert(cur[i] == pre[i] && cur[j] == pre[j]);
                } else {
                    assert(cur[i] == pre[i] && cur[j] == x);
                    assert(pre[i].0 * cols + pre[i].1 <= k - 2);
                }
            }
        } else {
            assert(cur == pre);
        }
    }
}

/// Distinct antennas never share a cell.
proof fn lemma_antennas_distinct(rows: Seq<Seq<u8>>, cols: int, k: int, i1: int, i2: int)
    requires
        grid_ok(rows),
        cols == rows[0].len(),
        0 <= k <= rows.len() * cols,
        0 <= i1 < spec_antennas(rows, cols, k).len(),
        0 <= i2 < spec_antennas(rows, cols, k).len(),
        i1 != i2,
    ensures
        ({
            let a = spec_antennas(rows, cols, k)[i1];
            let b = spec_antennas(rows, cols, k)[i2];
            (a.0, a.1) != (b.0, b.1)
        }),
{
    lemma_antennas_wf(rows, cols, k);
    let a = spec_antennas(rows, cols, k)[i1];
    let b = spec_antennas(rows, cols, k)[i2];
    if i1 < i2 {
        assert(a.0 * cols + a.1 < b.0 * cols + b.1);
    } else {
        assert(b.0 * cols + b.1 < a.0 * cols + a.1);
    }
}

/// The two antennas of an eligible pair: distinct, same frequency.
pub open spec fn pair_ok(an: Seq<(i32, i32, u8)>, i1: int, i2: int) -> bool {
    &&& 0 <= i1 < an.len()
    &&& 0 <= i2 < an.len()
    &&& i1 != i2
    &&& an[i1].2 == an[i2].2
}

/// The candidate ray of a pair: from the first antenna, stepped by the
/// pair's difference.
pub open spec fn pair_ray(
    an: Seq<(i32, i32, u8)>,
    i1: int,
    i2: int,
    nr: int,
    nc: int,
    max_steps: Option<usize>,
) -> Seq<(i32, i32)> {
    ray_of(
        an[i1].0 as int,
        an[i1].1 as int,
        an[i1].0 - an[i2].0,
        an[i1].1 - an[i2].1,
        nr,
        nc,
        max_steps,
    )
}

/// Whether the point is allowed as an antinode of the pair: always, or
/// only away from the pair's own two antennas.
pub open spec fn point_ok(
    an: Seq<(i32, i32, u8)>,
    i1: int,
    i2: int,
    can_be: bool,
    p: (i32, i32),
) -> bool {
    can_be || (!(p.0 == an[i1].0 && p.1 == an[i1].1) && !(p.0 == an[i2].0 && p.1 == an[i2].1))
}

/// Whether `p` is an antinode of some eligible pair.
pub open spec fn is_antinode(
    an: Seq<(i32, i32, u8)>,
    nr: int,
    nc: int,
    max_steps: Option<usize>,
    can_be: bool,
    p: (i32, i32),
) -> bool {
    exists|i1: int, i2: int|
        #[trigger] pair_ok(an, i1, i2) && pair_ray(an, i1, i2, nr, nc, max_steps).contains(p)
            && point_ok(an, i1, i2, can_be, p)
}

/// Whether `p` is an antinode of a pair that precedes (i1, i2) in the
/// search order.
pub open spec fn antinode_before(
    an: Seq<(i32, i32, u8)>,
    nr: int,
    nc: int,
    max_steps: Option<usize>,
    can_be: bool,
    p: (i32, i32),
    i1: int,
    i2: int,
) -> bool {
    exists|j1: int, j2: int|
        #[trigger] pair_ok(an, j1, j2) && (j1 < i1 || (j1 == i1 && j2 < i2)) && pair_ray(
            an,
            j1,
            j2,
            nr,
            nc,
            max_steps,
        ).contains(p) && point_ok(an, j1, j2, can_be, p)
}

fn coords_contain(coords: &Vec<(i32, i32)>, p: (i32, i32)) -> (r: bool)
    ensures
        r == coords@.contains(p),
{
    let n = coords.len();
    let mut i: usize = 0;
    while i < n
        invariant
            i <= n,
            n == coords@.len(),
            forall|x: int| 0 <= x < i ==> coords@[x] != p,
        decreases n - i,
    {
        if coords[i].0 == p.0 && coords[i].1 == p.1 {
            assert(coords@[i as int] == p);
            return true;
        }
        i += 1;
    }
    false
}

/// Reads the antenna map; None when the input is not a valid map.
pub fn parse(input: &[u8]) -> (out: Option<Vec<Vec<u8>>>)
    ensures
        match out {
            Some(rows) => grid_ok(scan::spec_lines(input@)) && scan::pieces_view(rows@)
                == scan::spec_lines(input@),
            None => !grid_ok(scan::spec_lines(input@)),
        },
{
    let ls = scan::lines(input);
    let ghost rv = scan::spec_lines(input@);
    if ls.len() == 0 {
        return None;
    }
    let cols = ls[0].len();
    if cols == 0 {
        proof {
            assert(rv[0] == ls@[0]@);
        }
        return None;
    }
    if ls.len() > 23170usize || cols > 23170usize {
        return None;
    }
    let mut i: usize = 0;
    while i < ls.len()
        invariant
            i <= ls@.len(),
            scan::pieces_view(ls@) == rv,
            rv == scan::spec_lines(input@),
            cols == rv[0].len(),
            forall|x: int| 0 <= x < i ==> #[trigger] rv[x].len() == rv[0].len(),
            forall|x: int, y: int| 0 <= x < i && 0 <= y < rv[x].len() ==> rv[x][y] != 13,
        decreases ls@.len() - i,
    {
        let row = &ls[i];
        proof {
            assert(rv[i as int] == row@);
        }
        if row.len() != cols {
            return None;
        }
        let mut j: usize = 0;
        while j < cols
            invariant
                j <= cols,
                i < ls@.len(),
                scan::pieces_view(ls@) == rv,
                rv == scan::spec_lines(input@),
                i < rv.len(),
                row@ == rv[i as int],
                row@.len() == cols,
                forall|y: int| 0 <= y < j ==> rv[i as int][y] != 13,
            decreases cols - j,
        {
            if row[j] == 13 {
                return None;
            }
            j += 1;
        }
        i += 1;
    }
    Some(ls)
}

/// Collects the antennas of a valid map in row-major order.
fn collect_antennas(rows: &Vec<Vec<u8>>) -> (out: Vec<(i32, i32, u8)>)
    requires
        grid_ok(scan::pieces_view(rows@)),
    ensures
        ({
            let rv = scan::pieces_view(rows@);
            out@ == spec_antennas(rv, rv[0].len() as int, (rv.len() * rv[0].len()) as int)
        }),
{
    let ghost rv = scan::pieces_view(rows@);
    let nr = rows.len();
    let nc = rows[0].len();
    proof {
        assert(rv[0] == rows@[0]@);
        assert(nr * nc <= 23170 * 23170) by (nonlinear_arith)
            requires
                nr <= 23170,
                nc <= 23170,
                nr == rv.len(),
                nc == rv[0].len(),
        ;
    }
    let cells = nr * nc;
    let mut out: Vec<(i32, i32, u8)> = Vec::new();
    let mut k: usize = 0;
    while k < cells
        invariant
            k <= cells,
            cells == nr * nc,
            nr == rows@.len(),
            rv == scan::pieces_view(rows@),
            grid_ok(rv),
            rv.len() == nr,
            nc == rv[0].len(),
            nr <= 23170,
            nc <= 23170,
            out@ == spec_antennas(rv, nc as int, k as int),
        decreases cells - k,
    {
        proof {
            assert(0 <= (k as int) / (nc as int) < nr && 0 <= (k as int) % (nc as int) < nc)
                by (nonlinear_arith)
                requires
                    0 <= k < nr * nc,
                    1 <= nc,
            ;
        }
        let r = k / nc;
        let c = k % nc;
        proof {
            assert(rv[r as int] == rows@[r as int]@);
            assert(rv[r as int].len() == rv[0].len());
        }
        let b = rows[r][c];
        if b != 46 {
            out.push((r as i32, c as i32, b));
        }
        k += 1;
    }
    out
}

/// The search over one configuration: every eligible ordered antenna
/// pair casts its ray; the result lists each antinode coordinate once.
pub fn solve(input: &[u8], max_steps: Option<usize>, antinode_can_be_antenna: bool) -> (out:
    Option<Vec<(i32, i32)>>)
    requires
        max_steps matches Some(m) ==> m < usize::MAX,
    ensures
        ({
            let rv = scan::spec_lines(input@);
            let an = spec_antennas(rv, rv[0].len() as int, (rv.len() * rv[0].len()) as int);
            match out {
                Some(coords) => {
                    &&& grid_ok(rv)
                    &&& coords@.no_duplicates()
                    &&& forall|p: (i32, i32)|
                        coords@.contains(p) <==> is_antinode(
                            an,
                            rv.len() as int,
                            rv[0].len() as int,
                            max_steps,
                            antinode_can_be_antenna,
                            p,
                        )
                },
                None => !grid_ok(rv),
            }
        }),
{
    let rows = match parse(input) {
        Some(rows) => rows,
        None => {
            return None;
        },
    };
    let ghost rv = scan::spec_lines(input@);
    let nr = rows.len();
    let nc = rows[0].len();
    proof {
        assert(rv[0] == rows@[0]@);
    }
    let ghost nri = rv.len() as int;
    let ghost nci = rv[0].len() as int;
    let antennas = collect_antennas(&rows);
    let ghost an = spec_antennas(rv, nci, (rv.len() * rv[0].len()) as int);
    proof {
        assert(nr * nc <= 23170 * 23170) by (nonlinear_arith)
            requires
                nr <= 23170,
                nc <= 23170,
                nr == rv.len(),
                nc == rv[0].len(),
        ;
        lemma_antennas_wf(rv, nci, (rv.len() * rv[0].len()) as int);
    }
    let n = antennas.len();
    let mut coords: Vec<(i32, i32)> = Vec::new();
    let mut i1: usize = 0;
    while i1 < n
        invariant
            i1 <= n,
            n == antennas@.len(),
            antennas@ == an,
            rv == scan::spec_lines(input@),
            grid_ok(rv),
            nri == rv.len(),
            nci == rv[0].len(),
            nr == rv.len(),
            nc == rv[0].len(),
            an == spec_antennas(rv, nci, (rv.len() * rv[0].len()) as int),
            max_steps matches Some(m) ==> m < usize::MAX,
            forall|i: int|
                0 <= i < an.len() ==> {
                    let a = #[trigger] an[i];
                    0 <= a.0 < nri && 0 <= a.1 < nci
                },
            forall|i: int, j: int|
                0 <= i < j < an.len() ==> {
                    let a = #[trigger] an[i];
                    let b = #[trigger] an[j];
                    a.0 * nci + a.1 < b.0 * nci + b.1
                },
            coords@.no_duplicates(),
            forall|p: (i32, i32)|
                coords@.contains(p) <==> antinode_before(
                    an,
                    nri,
                    nci,
                    max_steps,
                    antinode_can_be_antenna,
                    p,
                    i1 as int,
                    0,
                ),
        decreases n - i1,
    {
        let mut i2: usize = 0;
        while i2 < n
            invariant
                i2 <= n,
                i1 < n,
                n == antennas@.len(),
                antennas@ == an,
                rv == scan::spec_lines(input@),
                grid_ok(rv),
                nri == rv.len(),
                nci == rv[0].len(),
                nr == rv.len(),
                nc == rv[0].len(),
                max_steps matches Some(m) ==> m < usize::MAX,
                forall|i: int|
                    0 <= i < an.len() ==> {
                        let a = #[trigger] an[i];
                        0 <= a.0 < nri && 0 <= a.1 < nci
                    },
                forall|i: int, j: int|
                    0 <= i < j < an.len() ==> {
                        let a = #[trigger] an[i];
                        let b = #[trigger] an[j];
                        a.0 * nci + a.1 < b.0 * nci + b.1
                    },
                coords@.no_duplicates(),
                forall|p: (i32, i32)|
                    coords@.contains(p) <==> antinode_before(
                        an,
                        nri,
                        nci,
                        max_steps,
                        antinode_can_be_antenna,
                        p,
                        i1 as int,
                        i2 as int,
                    ),
            decreases n - i2,
        {
            let a1 = antennas[i1];
            let a2 = antennas[i2];
            if i1 != i2 && a1.2 == a2.2 {
                proof {
                    if (a1.0, a1.1) == (a2.0, a2.1) {
                        if i1 < i2 {
                            assert(an[i1 as int].0 * nci + an[i1 as int].1 < an[i2 as int].0 * nci
                                + an[i2 as int].1);
                        } else {
                            assert(an[i2 as int].0 * nci + an[i2 as int].1 < an[i1 as int].0 * nci
                                + an[i1 as int].1);
                        }
                        assert(false);
                    }
                }
                let dr = a1.0 - a2.0;
                let dc = a1.1 - a2.1;
                let ray = expand(a1.0, a1.1, dr, dc, nr as i32, nc as i32, max_steps);
                let ghost rayv = pair_ray(an, i1 as int, i2 as int, nri, nci, max_steps);
                proof {
                    assert(ray@ == rayv);
                }
                let m = ray.len();
                let mut j: usize = 0;
                while j < m
                    invariant
                        j <= m,
                        m == rayv.len(),
                        ray@ == rayv,
                        i1 < n,
                        i2 < n,
                        n == an.len(),
                        pair_ok(an, i1 as int, i2 as int),
                        a1 == an[i1 as int],
                        a2 == an[i2 as int],
                        rayv == pair_ray(an, i1 as int, i2 as int, nri, nci, max_steps),
                        antennas@ == an,
                        coords@.no_duplicates(),
                        forall|p: (i32, i32)|
                            coords@.contains(p) <==> (antinode_before(
                                an,
                                nri,
                                nci,
                                max_steps,
                                antinode_can_be_antenna,
                                p,
                                i1 as int,
                                i2 as int,
                            ) || (exists|jj: int|
                                0 <= jj < j && rayv[jj] == p && point_ok(
                                    an,
                                    i1 as int,
                                    i2 as int,
                                    antinode_can_be_antenna,
                                    p,
                                ))),
                    decreases m - j,
                {
                    let p = ray[j];
                    let ghost startv = coords@;
                    let excluded = !antinode_can_be_antenna && ((p.0 == a1.0 && p.1 == a1.1) || (
                    p.0 == a2.0 && p.1 == a2.1));
                    if !excluded {
                        if !coords_contain(&coords, p) {
                            let ghost pre = coords@;
                            coords.push(p);
                            proof {
                                assert(coords@.drop_last() =~= pre);
                                assert(coords@.contains(p)) by {
                                    assert(coords@[coords@.len() - 1] == p);
                                }
                                assert forall|q: (i32, i32)| pre.contains(q) implies coords@.contains(
                                    q,
                                ) by {
                                    let ix = choose|ix: int| 0 <= ix < pre.len() && pre[ix] == q;
                                    assert(coords@[ix] == q);
                                }
                            }
                        }
                    }
                    proof {
                        assert(rayv[j as int] == p);
                        let pok = point_ok(an, i1 as int, i2 as int, antinode_can_be_antenna, p);
                        assert((coords@ == startv.push(p) && !startv.contains(p) && pok) || (
                        coords@ == startv && startv.contains(p) && pok) || (coords@ == startv
                            && !pok));
                        assert forall|q: (i32, i32)| #[trigger] coords@.contains(q) implies (
                        antinode_before(
                            an,
                            nri,
                            nci,
                            max_steps,
                            antinode_can_be_antenna,
                            q,
                            i1 as int,
                            i2 as int,
                        ) || (exists|jj: int|
                            0 <= jj < j + 1 && rayv[jj] == q && point_ok(
                                an,
                                i1 as int,
                                i2 as int,
                                antinode_can_be_antenna,
                                q,
                            ))) by {
                            if startv.contains(q) {
                            } else {
                                let ix = choose|ix: int|
                                    0 <= ix < coords@.len() && coords@[ix] == q;
                                if ix < startv.len() {
                                    assert(startv[ix] == q);
                                    assert(false);
                                }
                                assert(q == p);
                                assert(0 <= j < j + 1 && rayv[j as int] == q && point_ok(
                                    an,
                                    i1 as int,
                                    i2 as int,
                                    antinode_can_be_antenna,
                                    q,
                                ));
                            }
                        }
                        assert forall|q: (i32, i32)|
                            (antinode_before(
                                an,
                                nri,
                                nci,
                                max_steps,
                                antinode_can_be_antenna,
                                q,
                                i1 as int,
                                i2 as int,
                            ) || (exists|jj: int|
                                0 <= jj < j + 1 && rayv[jj] == q && point_ok(
                                    an,
                                    i1 as int,
                                    i2 as int,
                                    antinode_can_be_antenna,
                                    q,
                                ))) implies #[trigger] coords@.contains(q) by {
                            if antinode_before(
                                an,
                                nri,
                                nci,
                                max_steps,
                                antinode_can_be_antenna,
                                q,
                                i1 as int,
                                i2 as int,
                            ) {
                                assert(startv.contains(q));
                            } else {
                                let jj = choose|jj: int|
                                    0 <= jj < j + 1 && rayv[jj] == q && point_ok(
                                        an,
                                        i1 as int,
                                        i2 as int,
                                        antinode_can_be_antenna,
                                        q,
                                    );
                                if jj < j {
                                    assert(startv.contains(q));
                                } else {
                                    assert(q == p);
                                }
                            }
                            if startv.contains(q) {
                                if coords@ == startv.push(p) {
                                    let ix = choose|ix: int|
                                        0 <= ix < startv.len() && startv[ix] == q;
                                    assert(coords@[ix] == q);
                                }
                            }
                        }
                    }
                    j += 1;
                }
                proof {
                    assert forall|q: (i32, i32)| #[trigger] coords@.contains(q) implies
                        antinode_before(
                        an,
                        nri,
                        nci,
                        max_steps,
                        antinode_can_be_antenna,
                        q,
                        i1 as int,
                        i2 as int + 1,
                    ) by {
                        if !antinode_before(
                            an,
                            nri,
                            nci,
                            max_steps,
                            antinode_can_be_antenna,
                            q,
                            i1 as int,
                            i2 as int,
                        ) {
                            let jj = choose|jj: int|
                                0 <= jj < m && rayv[jj] == q && point_ok(
                                    an,
                                    i1 as int,
                                    i2 as int,
                                    antinode_can_be_antenna,
                                    q,
                                );
                            assert(rayv.contains(q)) by {
                                assert(rayv[jj] == q);
                            }
                            assert(pair_ok(an, i1 as int, i2 as int) && pair_ray(
                                an,
                                i1 as int,
                                i2 as int,
                                nri,
                                nci,
                                max_steps,
                            ).contains(q) && point_ok(
                                an,
                                i1 as int,
                                i2 as int,
                                antinode_can_be_antenna,
                                q,
                            ));
                        }
                    }
                    assert forall|q: (i32, i32)|
                        antinode_before(
                            an,
                            nri,
                            nci,
                            max_steps,
                            antinode_can_be_antenna,
                            q,
                            i1 as int,
                            i2 as int + 1,
                        ) implies #[trigger] coords@.contains(q) by {
                        let (j1, j2) = choose|j1: int, j2: int|
                            #[trigger] pair_ok(an, j1, j2) && (j1 < i1 as int || (j1 == i1 as int
                                && j2 < i2 as int + 1)) && pair_ray(
                                an,
                                j1,
                                j2,
                                nri,
                                nci,
                                max_steps,
                            ).contains(q) && point_ok(an, j1, j2, antinode_can_be_antenna, q);
                        if j1 == i1 as int && j2 == i2 as int {
                            let jj = choose|jj: int| 0 <= jj < rayv.len() && rayv[jj] == q;
                        }
                    }
                }
            } else {
                proof {
                    assert forall|q: (i32, i32)| #[trigger] coords@.contains(q) implies
                        antinode_before(
                        an,
                        nri,
                        nci,
                        max_steps,
                        antinode_can_be_antenna,
                        q,
                        i1 as int,
                        i2 as int + 1,
                    ) by {}
                    assert forall|q: (i32, i32)|
                        antinode_before(
                            an,
                            nri,
                            nci,
                            max_steps,
                            antinode_can_be_antenna,
                            q,
                            i1 as int,
                            i2 as int + 1,
                        ) implies #[trigger] coords@.contains(q) by {
                        let (j1, j2) = choose|j1: int, j2: int|
                            #[trigger] pair_ok(an, j1, j2) && (j1 < i1 as int || (j1 == i1 as int
                                && j2 < i2 as int + 1)) && pair_ray(
                                an,
                                j1,
                                j2,
                                nri,
                                nci,
                                max_steps,
                            ).contains(q) && point_ok(an, j1, j2, antinode_can_be_antenna, q);
                        assert(!(j1 == i1 as int && j2 == i2 as int));
                    }
                }
            }
            i2 += 1;
        }
        proof {
            assert forall|q: (i32, i32)| #[trigger] coords@.contains(q) implies antinode_before(
                an,
                nri,
                nci,
                max_steps,
                antinode_can_be_antenna,
                q,
                i1 as int + 1,
                0,
            ) by {}
            assert forall|q: (i32, i32)|
                antinode_before(
                    an,
                    nri,
                    nci,
                    max_steps,
                    antinode_can_be_antenna,
                    q,
                    i1 as int + 1,
                    0,
                ) implies #[trigger] coords@.contains(q) by {
                let (j1, j2) = choose|j1: int, j2: int|
                    #[trigger] pair_ok(an, j1, j2) && (j1 < i1 as int + 1 || (j1 == i1 as int + 1
                        && j2 < 0)) && pair_ray(an, j1, j2, nri, nci, max_steps).contains(q)
                        && point_ok(an, j1, j2, antinode_can_be_antenna, q);
                assert(j1 < i1 as int || (j1 == i1 as int && j2 < n));
            }
        }
        i1 += 1;
    }
    proof {
        assert forall|q: (i32, i32)| #[trigger] coords@.contains(q) implies is_antinode(
            an,
            nri,
            nci,
            max_steps,
            antinode_can_be_antenna,
            q,
        ) by {
            let (j1, j2) = choose|j1: int, j2: int|
                #[trigger] pair_ok(an, j1, j2) && (j1 < n as int || (j1 == n as int && j2 < 0))
                    && pair_ray(an, j1, j2, nri, nci, max_steps).contains(q) && point_ok(
                    an,
                    j1,
                    j2,
                    antinode_can_be_antenna,
                    q,
                );
        }
        assert forall|q: (i32, i32)|
            is_antinode(an, nri, nci, max_steps, antinode_can_be_antenna, q) implies
            #[trigger] coords@.contains(q) by {
            let (j1, j2) = choose|j1: int, j2: int|
                #[trigger] pair_ok(an, j1, j2) && pair_ray(an, j1, j2, nri, nci, max_steps).contains(
                    q,
                ) && point_ok(an, j1, j2, antinode_can_be_antenna, q);
            assert(j1 < n as int || (j1 == n as int && j2 < 0));
        }
    }
    Some(coords)
}

/// Both answers for one input: the number of distinct antinodes with one
/// step per ray and the pair's own antennas excluded, and the number with
/// unbounded rays and no exclusion.  None when the input is not a valid
/// map.
pub fn run(input: &[u8]) -> (out: Option<(usize, usize)>)
    ensures
        ({
            let rv = scan::spec_lines(input@);
            let an = spec_antennas(rv, rv[0].len() as int, (rv.len() * rv[0].len()) as int);
            match out {
                Some(ans) => {
                    &&& grid_ok(rv)
                    &&& exists|cs: Seq<(i32, i32)>|
                        (#[trigger] cs.no_duplicates()) && cs.len() == ans.0 && forall|
                            p: (i32, i32),
                        |
                            cs.contains(p) <==> is_antinode(
                                an,
                                rv.len() as int,
                                rv[0].len() as int,
                                Some(1usize),
                                false,
                                p,
                            )
                    &&& exists|cs: Seq<(i32, i32)>|
                        (#[trigger] cs.no_duplicates()) && cs.len() == ans.1 && forall|
                            p: (i32, i32),
                        |
                            cs.contains(p) <==> is_antinode(
                                an,
                                rv.len() as int,
                                rv[0].len() as int,
                                None,
                                true,
                                p,
                            )
                },
                None => !grid_ok(rv),
            }
        }),
{
    let first = match solve(input, Some(1), false) {
        Some(coords) => coords,
        None => {
            return None;
        },
    };
    let second = match solve(input, None, true) {
        Some(coords) => coords,
        None => {
            return None;
        },
    };
    let a = first.len();
    let b = second.len();
    proof {
        let rv = scan::spec_lines(input@);
        let an = spec_antennas(rv, rv[0].len() as int, (rv.len() * rv[0].len()) as int);
        assert(first@.no_duplicates() && first@.len() == a);
        assert(second@.no_duplicates() && second@.len() == b);
    }
    Some((a, b))
}

} // verus!
