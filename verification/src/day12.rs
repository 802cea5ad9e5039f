//! Garden fencing: the map splits into connected zones of one plant
//! letter; each zone is priced by area times perimeter, or by area times
//! its number of sides, counted by corners.
use crate::scan;
use vstd::prelude::*;

verus! {

/// One connected zone: its plant letter and its cells.
pub struct Zone {
    pub garden: u8,
    pub coords: Vec<(i32, i32)>,
}

/// The four neighbour translations, in the fixed order left, right, up,
/// down.
pub open spec fn translation(d: int) -> (int, int) {
    if d == 0 {
        (0, -1)
    } else if d == 1 {
        (0, 1)
    } else if d == 2 {
        (-1, 0)
    } else {
        (1, 0)
    }
}

/// Coordinates a zone may hold: far enough from the i32 edge that
/// neighbour arithmetic stays exact.
pub open spec fn coords_small(cs: Seq<(i32, i32)>) -> bool {
    forall|i: int|
        0 <= i < cs.len() ==> {
            let p = #[trigger] cs[i];
            -0x3fff_ffff <= p.0 <= 0x3fff_ffff && -0x3fff_ffff <= p.1 <= 0x3fff_ffff
        }
}

/// The perimeter contributions of the first `k` cells: for each cell,
/// every neighbour outside the zone, repetitions kept.
pub open spec fn spec_contribs(cs: Seq<(i32, i32)>, k: int) -> Seq<(i32, i32)>
    decreases k,
{
    if k <= 0 {
        Seq::empty()
    } else {
        spec_contribs(cs, k - 1) + cell_contribs(cs, cs[k - 1], 4)
    }
}

/// The outside neighbours of one cell among the first `d` directions.
pub open spec fn cell_contribs(cs: Seq<(i32, i32)>, p: (i32, i32), d: int) -> Seq<(i32, i32)>
    decreases d,
{
    if d <= 0 {
        Seq::empty()
    } else {
        let (dr, dc) = translation(d - 1);
        let q = (((p.0 + dr) as i32), ((p.1 + dc) as i32));
        cell_contribs(cs, p, d - 1) + (if cs.contains(q) {
            Seq::<(i32, i32)>::empty()
        } else {
            seq![q]
        })
    }
}

fn coords_contain(cs: &Vec<(i32, i32)>, p: (i32, i32)) -> (r: bool)
    ensures
        r == cs@.contains(p),
{
    let n = cs.len();
    let mut i: usize = 0;
    while i < n
        invariant
            i <= n,
            n == cs@.len(),
            forall|x: int| 0 <= x < i ==> cs@[x] != p,
        decreases n - i,
    {
        let e = cs[i];
        if e.0 == p.0 && e.1 == p.1 {
            assert(cs@[i as int] == p);
            return true;
        }
        i += 1;
    }
    false
}

impl Zone {
    /// The number of cells.
    pub fn area(&self) -> (n: usize)
        ensures
            n == self.coords@.len(),
    {
        self.coords.len()
    }

    /// Every neighbour outside the zone, one entry per touching cell
    /// edge.
    pub fn perimeter_contributors(&self) -> (out: Vec<(i32, i32)>)
        requires
            coords_small(self.coords@),
        ensures
            out@ == spec_contribs(self.coords@, self.coords@.len() as int),
    {
        let ghost cs = self.coords@;
        let n = self.coords.len();
        let mut out: Vec<(i32, i32)> = Vec::new();
        let mut i: usize = 0;
        while i < n
            invariant
                i <= n,
                n == cs.len(),
                cs == self.coords@,
                coords_small(cs),
                out@ == spec_contribs(cs, i as int),
            decreases n - i,
        {
            let p = self.coords[i];
            let mut d: usize = 0;
            let ghost pre = out@;
            while d < 4
                invariant
                    d <= 4,
                    i < n,
                    n == cs.len(),
                    cs == self.coords@,
                    coords_small(cs),
                    p == cs[i as int],
                    out@ == pre + cell_contribs(cs, p, d as int),
                decreases 4 - d,
            {
                let (dr, dc): (i32, i32) = if d == 0 {
                    (0, -1)
                } else if d == 1 {
                    (0, 1)
                } else if d == 2 {
                    (-1, 0)
                } else {
                    (1, 0)
                };
                let q = (p.0 + dr, p.1 + dc);
                let ghost out_mid = out@;
                if !coords_contain(&self.coords, q) {
                    out.push(q);
                    proof {
                        assert(out@ =~= out_mid.push(q));
                        assert(cell_contribs(cs, p, d as int + 1) == cell_contribs(
                            cs,
                            p,
                            d as int,
                        ) + seq![q]);
                        assert(pre + (cell_contribs(cs, p, d as int) + seq![q]) =~= out@);
                    }
                } else {
                    proof {
                        assert(cell_contribs(cs, p, d as int + 1) =~= cell_contribs(
                            cs,
                            p,
                            d as int,
                        ));
                    }
                }
                d += 1;
            }
            i += 1;
        }
        out
    }

    /// The perimeter: how many cell edges face out of the zone.
    pub fn perimeter(&self) -> (n: usize)
        requires
            coords_small(self.coords@),
        ensures
            n == spec_contribs(self.coords@, self.coords@.len() as int).len(),
    {
        let contribs = self.perimeter_contributors();
        contribs.len()
    }

    /// The number of straight fence sides, counted corner by corner.
    pub fn sides(&self) -> (n: usize)
        requires
            coords_small(self.coords@),
            self.coords@.len() <= 0x3fff_ffff,
        ensures
            n == spec_corners(
                self.coords@,
                spec_contribs(self.coords@, self.coords@.len() as int),
                self.coords@.len() as int,
            ),
    {
        let perimeter = self.perimeter_contributors();
        let ghost cs = self.coords@;
        let ghost pm = perimeter@;
        let n = self.coords.len();
        let mut corners: usize = 0;
        let mut i: usize = 0;
        while i < n
            invariant
                i <= n,
                n == cs.len(),
                cs == self.coords@,
                coords_small(cs),
                pm == perimeter@,
                pm == spec_contribs(cs, cs.len() as int),
                n <= 0x3fff_ffff,
                corners == spec_corners(cs, pm, i as int),
                corners <= 4 * i,
            decreases n - i,
        {
            let (r, c) = self.coords[i];
            proof {
                assert(cs[i as int] == (r, c));
            }
            let mut here: usize = 0;
            if (coords_contain(&perimeter, (r - 1, c)) && coords_contain(&perimeter, (r, c - 1)))
                || (coords_contain(&perimeter, (r - 1, c - 1)) && coords_contain(
                &self.coords,
                (r - 1, c),
            ) && coords_contain(&self.coords, (r, c - 1))) {
                here += 1;
            }
            if (coords_contain(&perimeter, (r - 1, c)) && coords_contain(&perimeter, (r, c + 1)))
                || (coords_contain(&perimeter, (r - 1, c + 1)) && coords_contain(
                &self.coords,
                (r - 1, c),
            ) && coords_contain(&self.coords, (r, c + 1))) {
                here += 1;
            }
            if (coords_contain(&perimeter, (r + 1, c)) && coords_contain(&perimeter, (r, c - 1)))
                || (coords_contain(&perimeter, (r + 1, c - 1)) && coords_contain(
                &self.coords,
                (r + 1, c),
            ) && coords_contain(&self.coords, (r, c - 1))) {
                here += 1;
            }
            if (coords_contain(&perimeter, (r + 1, c)) && coords_contain(&perimeter, (r, c + 1)))
                || (coords_contain(&perimeter, (r + 1, c + 1)) && coords_contain(
                &self.coords,
                (r + 1, c),
            ) && coords_contain(&self.coords, (r, c + 1))) {
                here += 1;
            }
            proof {
                assert(here == cell_corners(cs, pm, (r, c)));
            }
            corners += here;
            i += 1;
        }
        corners
    }
}

/// The corners the first `k` cells contribute.
pub open spec fn spec_corners(cs: Seq<(i32, i32)>, pm: Seq<(i32, i32)>, k: int) -> int
    decreases k,
{
    if k <= 0 {
        0
    } else {
        spec_corners(cs, pm, k - 1) + cell_corners(cs, pm, cs[k - 1])
    }
}

/// The corners one cell contributes: each diagonal makes a corner when
/// the two flanking neighbours both face out (a convex corner) or both
/// lie in the zone while the diagonal faces out (a concave corner).
pub open spec fn cell_corners(cs: Seq<(i32, i32)>, pm: Seq<(i32, i32)>, p: (i32, i32)) -> int {
    let r = p.0 as int;
    let c = p.1 as int;
    corner_at(cs, pm, r, c, -1, -1) + corner_at(cs, pm, r, c, -1, 1) + corner_at(
        cs,
        pm,
        r,
        c,
        1,
        -1,
    ) + corner_at(cs, pm, r, c, 1, 1)
}

pub open spec fn corner_at(
    cs: Seq<(i32, i32)>,
    pm: Seq<(i32, i32)>,
    r: int,
    c: int,
    dr: int,
    dc: int,
) -> int {
    let vert = (((r + dr) as i32), (c as i32));
    let horiz = ((r as i32), ((c + dc) as i32));
    let diag = (((r + dr) as i32), ((c + dc) as i32));
    if (pm.contains(vert) && pm.contains(horiz)) || (pm.contains(diag) && cs.contains(vert)
        && cs.contains(horiz)) {
        1
    } else {
        0
    }
}

/// The views of the rows of the map.
pub open spec fn rows_view(rows: Seq<Vec<u8>>) -> Seq<Seq<u8>> {
    Seq::new(rows.len(), |i: int| rows[i]@)
}

/// A well-formed garden map: non-empty, rectangular, small, free of
/// carriage returns.
pub open spec fn grid_ok(g: Seq<Seq<u8>>) -> bool {
    &&& g.len() >= 1
    &&& g[0].len() >= 1
    &&& g.len() <= 23170
    &&& g[0].len() <= 23170
    &&& forall|i: int| 0 <= i < g.len() ==> #[trigger] g[i].len() == g[0].len()
    &&& forall|i: int, j: int| 0 <= i < g.len() && 0 <= j < g[i].len() ==> g[i][j] != 13
}

pub open spec fn in_grid(g: Seq<Seq<u8>>, p: (i32, i32)) -> bool {
    0 <= p.0 < g.len() && 0 <= p.1 < g[0].len()
}

pub open spec fn letter_at(g: Seq<Seq<u8>>, p: (i32, i32)) -> u8 {
    g[p.0 as int][p.1 as int]
}

/// The flat index of a cell.
pub open spec fn pidx(nc: int, p: (i32, i32)) -> int {
    p.0 * nc + p.1
}

proof fn lemma_pidx_injective(g: Seq<Seq<u8>>, p: (i32, i32), q: (i32, i32))
    by (nonlinear_arith)
    requires
        grid_ok(g),
        in_grid(g, p),
        in_grid(g, q),
        pidx(g[0].len() as int, p) == pidx(g[0].len() as int, q),
    ensures
        p == q,
{
}

proof fn lemma_pidx_range(g: Seq<Seq<u8>>, p: (i32, i32))
    by (nonlinear_arith)
    requires
        grid_ok(g),
        in_grid(g, p),
    ensures
        0 <= pidx(g[0].len() as int, p) < g.len() * g[0].len(),
{
}

/// Whether two cells share an edge.
pub open spec fn adjacent(p: (i32, i32), q: (i32, i32)) -> bool {
    ||| (q.0 == p.0 && (q.1 == p.1 + 1 || q.1 == p.1 - 1))
    ||| (q.1 == p.1 && (q.0 == p.0 + 1 || q.0 == p.0 - 1))
}

/// A walk through same-letter cells of the map.
pub open spec fn is_path(g: Seq<Seq<u8>>, letter: u8, path: Seq<(i32, i32)>) -> bool {
    &&& path.len() >= 1
    &&& forall|i: int|
        0 <= i < path.len() ==> in_grid(g, #[trigger] path[i]) && letter_at(g, path[i]) == letter
    &&& forall|i: int| 0 <= i < path.len() - 1 ==> adjacent(#[trigger] path[i], path[i + 1])
}

/// Whether `p` can be reached from `seed` through same-letter cells.
#[verifier::opaque]
pub open spec fn reaches(g: Seq<Seq<u8>>, letter: u8, seed: (i32, i32), p: (i32, i32)) -> bool {
    exists|path: Seq<(i32, i32)>|
        #[trigger] is_path(g, letter, path) && path[0] == seed && path.last() == p
}

/// What the zone split promises: every zone holds distinct, in-bounds
/// cells of its own letter; no cell is shared; same-letter neighbours of
/// a zone cell belong to the zone; and every zone cell is reachable from
/// the zone's first cell through its letter.
pub open spec fn zones_ok(g: Seq<Seq<u8>>, zs: Seq<Zone>) -> bool {
    &&& forall|z: int, i: int|
        0 <= z < zs.len() && 0 <= i < zs[z].coords@.len() ==> {
            let p = #[trigger] zs[z].coords@[i];
            in_grid(g, p) && letter_at(g, p) == zs[z].garden
        }
    &&& forall|z: int|
        0 <= z < zs.len() ==> (#[trigger] zs[z].coords@).no_duplicates() && zs[z].coords@.len()
            >= 1
    &&& forall|z1: int, z2: int, p: (i32, i32)|
        #![trigger zs[z1].coords@.contains(p), zs[z2].coords@.contains(p)]
        0 <= z1 < zs.len() && 0 <= z2 < zs.len() && z1 != z2 && zs[z1].coords@.contains(p)
            ==> !zs[z2].coords@.contains(p)
    &&& forall|z: int, i: int, d: int|
        #![trigger zs[z].coords@[i], translation(d)]
        0 <= z < zs.len() && 0 <= i < zs[z].coords@.len() && 0 <= d < 4 ==> {
            let p = zs[z].coords@[i];
            let q = (((p.0 + translation(d).0) as i32), ((p.1 + translation(d).1) as i32));
            (in_grid(g, q) && letter_at(g, q) == zs[z].garden) ==> zs[z].coords@.contains(q)
        }
    &&& forall|z: int, i: int|
        0 <= z < zs.len() && 0 <= i < zs[z].coords@.len() ==> reaches(
            g,
            zs[z].garden,
            zs[z].coords@[0],
            #[trigger] zs[z].coords@[i],
        )
}

/// Every in-bounds cell belongs to some zone.
pub open spec fn zones_cover(g: Seq<Seq<u8>>, zs: Seq<Zone>) -> bool {
    forall|p: (i32, i32)|
        #[trigger] in_grid(g, p) ==> exists|z: int|
            0 <= z < zs.len() && (#[trigger] zs[z].coords@.contains(p))
}

/// Splits the map into its connected same-letter zones, seeded in
/// row-major order by a depth-first fill.
#[verifier::rlimit(100)]
pub fn find_zones(grid: &Vec<Vec<u8>>) -> (zones: Vec<Zone>)
    requires
        grid_ok(rows_view(grid@)),
    ensures
        zones_ok(rows_view(grid@), zones@),
        zones_cover(rows_view(grid@), zones@),
        forall|z: int|
            0 <= z < zones@.len() ==> (#[trigger] zones@[z].coords@).len() <= rows_view(
                grid@,
            ).len() * rows_view(grid@)[0].len(),
{
    let ghost g = rows_view(grid@);
    let nr = grid.len();
    proof {
        assert(g[0] == grid@[0]@);
    }
    let nc = grid[0].len();
    let ghost nci = nc as int;
    proof {
        assert(nr * nc <= 23170 * 23170) by (nonlinear_arith)
            requires
                nr <= 23170,
                nc <= 23170,
                nr == g.len(),
                nc == g[0].len(),
        ;
    }
    let cells = nr * nc;
    let mut visited: Vec<bool> = Vec::new();
    let mut i: usize = 0;
    while i < cells
        invariant
            i <= cells,
            visited@.len() == i,
            forall|x: int| 0 <= x < i ==> !visited@[x],
        decreases cells - i,
    {
        visited.push(false);
        i += 1;
    }
    proof {
        crate::day6::lemma_count_true_bounds(visited@);
        assert(crate::day6::count_true(visited@) == 0) by {
            lemma_count_false_zero(visited@);
        }
    }
    let mut zones: Vec<Zone> = Vec::new();
    let mut k: usize = 0;
    proof {
        assert forall|p: (i32, i32)| in_grid(g, p) implies !visited@[#[trigger] pidx(
            nci,
            p,
        )] by {
            lemma_pidx_range(g, p);
        }
    }
    while k < cells
        invariant
            grid_ok(g),
            g == rows_view(grid@),
            nci == g[0].len(),
            nr == g.len(),
            nc == g[0].len(),
            nc == nci,
            cells == nr * nc,
            cells <= 23170 * 23170,
            k <= cells,
            visited@.len() == cells,
            forall|x: int| 0 <= x < k ==> visited@[x],
            forall|p: (i32, i32)|
                #![trigger pidx(nci, p)]
                in_grid(g, p) ==> (visited@[pidx(nci, p)] <==> exists|z: int|
                    0 <= z < zones@.len() && (#[trigger] zones@[z].coords@.contains(p))),
            zones_ok(g, zones@),
            forall|z: int|
                0 <= z < zones@.len() ==> (#[trigger] zones@[z].coords@).len() <= g.len()
                    * g[0].len(),
        decreases cells - k,
    {
        if !visited[k] {
            let r0 = k / nc;
            let c0 = k % nc;
            proof {
                assert(0 <= (k as int) / nci < nr && 0 <= (k as int) % nci < nc && ((k as int)
                    / nci) * nci + (k as int) % nci == k) by (nonlinear_arith)
                    requires
                        0 <= k < nr * nc,
                        1 <= nci,
                        nci == nc,
                ;
            }
            let seedp: (i32, i32) = (r0 as i32, c0 as i32);
            let ghost seedpt = seedp;
            proof {
                assert(in_grid(g, seedpt));
                assert(pidx(nci, seedpt) == k);
                assert(g[r0 as int] == grid@[r0 as int]@);
            }
            let letterb = grid[r0][c0];
            let ghost before = visited@;
            visited[k] = true;
            proof {
                crate::day6::lemma_count_true_update(before, k as int);
                crate::day6::lemma_count_true_bounds(visited@);
            }
            let mut stack: Vec<(i32, i32)> = Vec::new();
            stack.push(seedp);
            let mut coords: Vec<(i32, i32)> = Vec::new();
            proof {
                assert(reaches(g, letterb, seedpt, seedpt)) by {
                    reveal(reaches);
                    let path = seq![seedpt];
                    assert(is_path(g, letterb, path));
                    assert(path[0] == seedpt && path.last() == seedpt);
                }
                assert forall|p: (i32, i32)|
                    #![trigger pidx(nci, p)]
                    in_grid(g, p) implies (visited@[pidx(nci, p)] && !before[pidx(nci, p)]) <==> (
                coords@.contains(p) || stack@.contains(p)) by {
                    lemma_pidx_range(g, p);
                    if p == seedpt {
                        assert(stack@[0] == seedpt);
                    } else {
                        assert(pidx(nci, p) != k) by {
                            if pidx(nci, p) == k {
                                lemma_pidx_injective(g, p, seedpt);
                            }
                        }
                        if stack@.contains(p) {
                            let ix = choose|ix: int| 0 <= ix < stack@.len() && stack@[ix] == p;
                            assert(false);
                        }
                    }
                }
            }
            while stack.len() > 0
                invariant
                    grid_ok(g),
                    g == rows_view(grid@),
                    nci == g[0].len(),
                    nr == g.len(),
                    nc == g[0].len(),
                    nc == nci,
                    cells == nr * nc,
                    cells <= 23170 * 23170,
                    0 <= k < cells,
                    before.len() == cells,
                    in_grid(g, seedpt),
                    letter_at(g, seedpt) == letterb,
                    visited@.len() == cells,
                    forall|x: int| 0 <= x < cells && before[x] ==> visited@[x],
                    forall|x: int| 0 <= x < k ==> visited@[x],
                    forall|p: (i32, i32)|
                        #![trigger pidx(nci, p)]
                        in_grid(g, p) ==> ((visited@[pidx(nci, p)] && !before[pidx(nci, p)])
                            <==> (coords@.contains(p) || stack@.contains(p))),
                    coords@.no_duplicates(),
                    stack@.no_duplicates(),
                    forall|p: (i32, i32)|
                        #![trigger coords@.contains(p)]
                        coords@.contains(p) ==> !stack@.contains(p),
                    forall|p: (i32, i32)|
                        #![trigger coords@.contains(p)]
                        coords@.contains(p) ==> in_grid(g, p) && letter_at(g, p) == letterb
                            && reaches(g, letterb, seedpt, p),
                    forall|p: (i32, i32)|
                        #![trigger stack@.contains(p)]
                        stack@.contains(p) ==> in_grid(g, p) && letter_at(g, p) == letterb
                            && reaches(g, letterb, seedpt, p),
                    forall|i2: int, d: int|
                        #![trigger coords@[i2], translation(d)]
                        0 <= i2 < coords@.len() && 0 <= d < 4 ==> {
                            let p = coords@[i2];
                            let q = (((p.0 + translation(d).0) as i32), ((p.1 + translation(
                                d,
                            ).1) as i32));
                            (in_grid(g, q) && letter_at(g, q) == letterb) ==> visited@[pidx(
                                nci,
                                q,
                            )]
                        },
                    coords@.len() + stack@.len() == crate::day6::count_true(visited@)
                        - crate::day6::count_true(before),
                    crate::day6::count_true(before) <= crate::day6::count_true(visited@),
                    crate::day6::count_true(visited@) <= cells,
                    coords@.len() >= 1 ==> coords@[0] == seedpt,
                    coords@.len() == 0 ==> stack@ == seq![seedpt],
                decreases 5 * (cells - crate::day6::count_true(visited@)) + stack@.len(),
            {
                let ghost stack_pre = stack@;
                let ghost co_pre = coords@;
                let p = stack.pop().unwrap();
                proof {
                    assert(stack_pre[stack_pre.len() - 1] == p);
                    assert(stack_pre.contains(p)) by {
                        assert(stack_pre[stack_pre.len() - 1] == p);
                    }
                    assert(stack@ =~= stack_pre.drop_last());
                    assert(!stack@.contains(p)) by {
                        if stack@.contains(p) {
                            let ix = choose|ix: int| 0 <= ix < stack@.len() && stack@[ix] == p;
                            assert(stack_pre[ix] == p);
                            assert(stack_pre[stack_pre.len() - 1] == p);
                        }
                    }
                    assert(!coords@.contains(p));
                    assert(in_grid(g, p) && letter_at(g, p) == letterb && reaches(
                        g,
                        letterb,
                        seedpt,
                        p,
                    ));
                    assert(visited@[pidx(nci, p)] && !before[pidx(nci, p)]);
                    assert forall|pp: (i32, i32)|
                        #![trigger stack@.contains(pp)]
                        stack@.contains(pp) implies stack_pre.contains(pp) by {
                        let ix = choose|ix: int| 0 <= ix < stack@.len() && stack@[ix] == pp;
                        assert(stack_pre[ix] == pp);
                    }
                    assert forall|pp: (i32, i32)|
                        #![trigger stack_pre.contains(pp)]
                        stack_pre.contains(pp) implies (stack@.contains(pp) || pp == p) by {
                        let ix = choose|ix: int|
                            0 <= ix < stack_pre.len() && stack_pre[ix] == pp;
                        if ix < stack_pre.len() - 1 {
                            assert(stack@[ix] == pp);
                        }
                    }
                }
                let mut d: usize = 0;
                while d < 4
                    invariant
                        d <= 4,
                        grid_ok(g),
                        g == rows_view(grid@),
                        nci == g[0].len(),
                        nr == g.len(),
                        nc == g[0].len(),
                        nc == nci,
                        cells == nr * nc,
                        cells <= 23170 * 23170,
                        0 <= k < cells,
                        before.len() == cells,
                        in_grid(g, seedpt),
                        letter_at(g, seedpt) == letterb,
                        visited@.len() == cells,
                        forall|x: int| 0 <= x < cells && before[x] ==> visited@[x],
                        forall|x: int| 0 <= x < k ==> visited@[x],
                        in_grid(g, p) && letter_at(g, p) == letterb,
                        reaches(g, letterb, seedpt, p),
                        visited@[pidx(nci, p)],
                        !coords@.contains(p),
                        !stack@.contains(p),
                        forall|pp: (i32, i32)|
                            #![trigger pidx(nci, pp)]
                            in_grid(g, pp) ==> ((visited@[pidx(nci, pp)] && !before[pidx(
                                nci,
                                pp,
                            )]) <==> (coords@.contains(pp) || stack@.contains(pp) || pp == p)),
                        coords@.no_duplicates(),
                        stack@.no_duplicates(),
                        forall|pp: (i32, i32)|
                            #![trigger coords@.contains(pp)]
                            coords@.contains(pp) ==> !stack@.contains(pp),
                        forall|pp: (i32, i32)|
                            #![trigger coords@.contains(pp)]
                            coords@.contains(pp) ==> in_grid(g, pp) && letter_at(g, pp) == letterb
                                && reaches(g, letterb, seedpt, pp),
                        forall|pp: (i32, i32)|
                            #![trigger stack@.contains(pp)]
                            stack@.contains(pp) ==> in_grid(g, pp) && letter_at(g, pp) == letterb
                                && reaches(g, letterb, seedpt, pp),
                        forall|i2: int, dd: int|
                            #![trigger coords@[i2], translation(dd)]
                            0 <= i2 < coords@.len() && 0 <= dd < 4 ==> {
                                let pp = coords@[i2];
                                let qq = (((pp.0 + translation(dd).0) as i32), ((pp.1
                                    + translation(dd).1) as i32));
                                (in_grid(g, qq) && letter_at(g, qq) == letterb) ==> visited@[pidx(
                                    nci,
                                    qq,
                                )]
                            },
                        forall|dd: int|
                            0 <= dd < d ==> {
                                let qq = (((p.0 + #[trigger] translation(dd).0) as i32), ((p.1
                                    + translation(dd).1) as i32));
                                (in_grid(g, qq) && letter_at(g, qq) == letterb) ==> visited@[pidx(
                                    nci,
                                    qq,
                                )]
                            },
                        coords@.len() + 1 + stack@.len() == crate::day6::count_true(visited@)
                            - crate::day6::count_true(before),
                        crate::day6::count_true(before) <= crate::day6::count_true(visited@),
                        crate::day6::count_true(visited@) <= cells,
                        stack@.len() >= stack_pre.len() - 1,
                        crate::day6::count_true(visited@) - crate::day6::count_true(before)
                            - (co_pre.len() + stack_pre.len()) == stack@.len() - (stack_pre.len()
                            - 1),
                        coords@ == co_pre,
                        coords@.len() >= 1 ==> coords@[0] == seedpt,
                        coords@.len() == 0 ==> p == seedpt,
                    decreases 4 - d,
                {
                    let (dr, dc): (i32, i32) = if d == 0 {
                        (0, -1)
                    } else if d == 1 {
                        (0, 1)
                    } else if d == 2 {
                        (-1, 0)
                    } else {
                        (1, 0)
                    };
                    let qr = p.0 as i64 + dr as i64;
                    let qc = p.1 as i64 + dc as i64;
                    if 0 <= qr && qr < nr as i64 && 0 <= qc && qc < nc as i64 {
                        let q: (i32, i32) = (qr as i32, qc as i32);
                        proof {
                            assert(in_grid(g, q));
                            lemma_pidx_range(g, q);
                            assert(g[qr as int] == grid@[qr as int]@);
                            assert(g[qr as int].len() == g[0].len());
                        }
                        let qidx = (qr as usize) * nc + (qc as usize);
                        if grid[qr as usize][qc as usize] == letterb && !visited[qidx] {
                            let ghost vis_pre = visited@;
                            let ghost st_pre = stack@;
                            visited[qidx] = true;
                            stack.push(q);
                            proof {
                                crate::day6::lemma_count_true_update(vis_pre, qidx as int);
                                crate::day6::lemma_count_true_bounds(visited@);
                                assert(stack@.drop_last() =~= st_pre);
                                assert(q != p) by {
                                    if q == p {
                                        assert(vis_pre[pidx(nci, p)]);
                                    }
                                }
                                assert(reaches(g, letterb, seedpt, q)) by {
                                    reveal(reaches);
                                    let path = choose|path: Seq<(i32, i32)>|
                                        #[trigger] is_path(g, letterb, path) && path[0] == seedpt
                                            && path.last() == p;
                                    let path2 = path.push(q);
                                    assert(is_path(g, letterb, path2)) by {
                                        assert(forall|x: int|
                                            0 <= x < path.len() ==> path2[x] == #[trigger] path[
                                            x]);
                                        assert(path2.last() == q);
                                        assert(adjacent(path[path.len() - 1], q));
                                    }
                                    assert(path2[0] == seedpt && path2.last() == q);
                                }
                                assert(!st_pre.contains(q) && !coords@.contains(q)) by {
                                    assert(!(vis_pre[pidx(nci, q)] && !before[pidx(nci, q)]));
                                    assert(!before[pidx(nci, q)]) by {
                                        if before[pidx(nci, q)] {
                                            assert(vis_pre[pidx(nci, q)]);
                                        }
                                    }
                                }
                                assert(stack@.no_duplicates()) by {
                                    assert forall|a: int, b: int|
                                        0 <= a < b < stack@.len() implies stack@[a] != stack@[b] by {
                                        if b < st_pre.len() {
                                            assert(st_pre[a] == stack@[a] && st_pre[b]
                                                == stack@[b]);
                                        } else {
                                            assert(stack@[b] == q);
                                            if stack@[a] == q {
                                                assert(st_pre[a] == q);
                                                assert(st_pre.contains(q));
                                            }
                                        }
                                    }
                                }
                                assert(!stack@.contains(p)) by {
                                    if stack@.contains(p) {
                                        let ix = choose|ix: int|
                                            0 <= ix < stack@.len() && stack@[ix] == p;
                                        if ix < st_pre.len() {
                                            assert(st_pre[ix] == p);
                                            assert(st_pre.contains(p));
                                        } else {
                                            assert(p == q);
                                        }
                                    }
                                }
                                assert forall|pp: (i32, i32)|
                                    #![trigger pidx(nci, pp)]
                                    in_grid(g, pp) implies ((visited@[pidx(nci, pp)] && !before[
                                pidx(nci, pp)]) <==> (coords@.contains(pp) || stack@.contains(pp)
                                    || pp == p)) by {
                                    lemma_pidx_range(g, pp);
                                    if pp == q {
                                        assert(stack@[stack@.len() - 1] == q);
                                        assert(stack@.contains(q));
                                    } else {
                                        assert(pidx(nci, pp) != pidx(nci, q)) by {
                                            if pidx(nci, pp) == pidx(nci, q) {
                                                lemma_pidx_injective(g, pp, q);
                                            }
                                        }
                                        assert(visited@[pidx(nci, pp)] == vis_pre[pidx(
                                            nci,
                                            pp,
                                        )]);
                                        assert(stack@.contains(pp) == st_pre.contains(pp)) by {
                                            if stack@.contains(pp) {
                                                let ix = choose|ix: int|
                                                    0 <= ix < stack@.len() && stack@[ix] == pp;
                                                if ix < st_pre.len() {
                                                    assert(st_pre[ix] == pp);
                                                } else {
                                                    assert(pp == q);
                                                }
                                            }
                                            if st_pre.contains(pp) {
                                                let ix = choose|ix: int|
                                                    0 <= ix < st_pre.len() && st_pre[ix] == pp;
                                                assert(stack@[ix] == pp);
                                            }
                                        }
                                    }
                                }
                                assert forall|pp: (i32, i32)|
                                    #![trigger stack@.contains(pp)]
                                    stack@.contains(pp) implies in_grid(g, pp) && letter_at(g, pp)
                                    == letterb && reaches(g, letterb, seedpt, pp) by {
                                    let ix = choose|ix: int|
                                        0 <= ix < stack@.len() && stack@[ix] == pp;
                                    if ix < st_pre.len() {
                                        assert(st_pre[ix] == pp);
                                        assert(st_pre.contains(pp));
                                    } else {
                                        assert(pp == q);
                                    }
                                }
                                assert forall|pp: (i32, i32)|
                                    #![trigger coords@.contains(pp)]
                                    coords@.contains(pp) implies !stack@.contains(pp) by {
                                    if stack@.contains(pp) {
                                        let ix = choose|ix: int|
                                            0 <= ix < stack@.len() && stack@[ix] == pp;
                                        if ix < st_pre.len() {
                                            assert(st_pre[ix] == pp);
                                            assert(st_pre.contains(pp));
                                        } else {
                                            assert(pp == q);
                                        }
                                    }
                                }
                                assert forall|i2: int, dd: int|
                                    #![trigger coords@[i2], translation(dd)]
                                    0 <= i2 < coords@.len() && 0 <= dd < 4 implies {
                                    let pp = coords@[i2];
                                    let qq = (((pp.0 + translation(dd).0) as i32), ((pp.1
                                        + translation(dd).1) as i32));
                                    (in_grid(g, qq) && letter_at(g, qq) == letterb)
                                        ==> visited@[pidx(nci, qq)]
                                } by {
                                    let pp = coords@[i2];
                                    let qq = (((pp.0 + translation(dd).0) as i32), ((pp.1
                                        + translation(dd).1) as i32));
                                    if in_grid(g, qq) && letter_at(g, qq) == letterb {
                                        lemma_pidx_range(g, qq);
                                        assert(vis_pre[pidx(nci, qq)]);
                                    }
                                }
                                assert forall|dd: int| 0 <= dd < d implies {
                                    let qq = (((p.0 + #[trigger] translation(dd).0) as i32), ((
                                    p.1 + translation(dd).1) as i32));
                                    (in_grid(g, qq) && letter_at(g, qq) == letterb)
                                        ==> visited@[pidx(nci, qq)]
                                } by {
                                    let qq = (((p.0 + translation(dd).0) as i32), ((p.1
                                        + translation(dd).1) as i32));
                                    if in_grid(g, qq) && letter_at(g, qq) == letterb {
                                        lemma_pidx_range(g, qq);
                                        assert(vis_pre[pidx(nci, qq)]);
                                    }
                                }
                            }
                        }
                    }
                    proof {
                        assert(translation(d as int) == (dr as int, dc as int));
                        let qq = (((p.0 + dr as int) as i32), ((p.1 + dc as int) as i32));
                        if in_grid(g, qq) && letter_at(g, qq) == letterb {
                            assert(g[qq.0 as int] == grid@[qq.0 as int]@);
                            assert(g[qq.0 as int].len() == g[0].len());
                            assert(visited@[pidx(nci, qq)]);
                        }
                    }
                    d += 1;
                }
                let ghost co_mid = coords@;
                coords.push(p);
                proof {
                    assert(coords@.drop_last() =~= co_mid);
                    assert(coords@.last() == p);
                    assert(coords@.contains(p)) by {
                        assert(coords@[coords@.len() - 1] == p);
                    }
                    assert(coords@.no_duplicates()) by {
                        assert forall|a: int, b: int|
                            0 <= a < b < coords@.len() implies coords@[a] != coords@[b] by {
                            if b < co_mid.len() {
                                assert(co_mid[a] == coords@[a] && co_mid[b] == coords@[b]);
                            } else {
                                assert(coords@[b] == p);
                                if coords@[a] == p {
                                    assert(co_mid[a] == p);
                                    assert(co_mid.contains(p));
                                }
                            }
                        }
                    }
                    assert forall|pp: (i32, i32)|
                        #![trigger coords@.contains(pp)]
                        coords@.contains(pp) implies (co_mid.contains(pp) || pp == p) by {
                        let ix = choose|ix: int| 0 <= ix < coords@.len() && coords@[ix] == pp;
                        if ix < co_mid.len() {
                            assert(co_mid[ix] == pp);
                        }
                    }
                    assert forall|pp: (i32, i32)| co_mid.contains(pp) implies #[trigger] coords@.contains(
                        pp,
                    ) by {
                        let ix = choose|ix: int| 0 <= ix < co_mid.len() && co_mid[ix] == pp;
                        assert(coords@[ix] == pp);
                    }
                    assert forall|pp: (i32, i32)|
                        #![trigger pidx(nci, pp)]
                        in_grid(g, pp) implies ((visited@[pidx(nci, pp)] && !before[pidx(
                        nci,
                        pp,
                    )]) <==> (coords@.contains(pp) || stack@.contains(pp))) by {
                        if pp == p {
                            assert(coords@.contains(p));
                        }
                    }
                    assert forall|i2: int, dd: int|
                        #![trigger coords@[i2], translation(dd)]
                        0 <= i2 < coords@.len() && 0 <= dd < 4 implies {
                        let pp = coords@[i2];
                        let qq = (((pp.0 + translation(dd).0) as i32), ((pp.1 + translation(
                            dd,
                        ).1) as i32));
                        (in_grid(g, qq) && letter_at(g, qq) == letterb) ==> visited@[pidx(
                            nci,
                            qq,
                        )]
                    } by {
                        if i2 < co_mid.len() {
                            assert(coords@[i2] == co_mid[i2]);
                        } else {
                            assert(coords@[i2] == p);
                        }
                    }
                    if co_mid.len() == 0 {
                        assert(coords@[0] == p);
                        assert(p == seedpt);
                    } else {
                        assert(coords@[0] == co_mid[0]);
                    }
                }
            }
            proof {
                assert(coords@.len() >= 1) by {
                    if coords@.len() == 0 {
                        assert(stack@ == seq![seedpt]);
                        assert(stack@.len() == 1);
                    }
                }
                crate::day6::lemma_count_true_bounds(before);
            }
            let zone = Zone { garden: letterb, coords };
            let ghost zs_pre = zones@;
            zones.push(zone);
            proof {
                assert(zones@.drop_last() =~= zs_pre);
                assert(zones@.last() == zone);
                lemma_zone_restore(g, zs_pre, zones@, zone, before, visited@, nci, k as int);
            }
        }
        k += 1;
    }
    proof {
        assert forall|p: (i32, i32)| #[trigger] in_grid(g, p) implies exists|z: int|
            0 <= z < zones@.len() && (#[trigger] zones@[z].coords@.contains(p)) by {
            lemma_pidx_range(g, p);
            assert(visited@[pidx(nci, p)]);
        }
    }
    zones
}

proof fn lemma_count_false_zero(s: Seq<bool>)
    requires
        forall|x: int| 0 <= x < s.len() ==> !s[x],
    ensures
        crate::day6::count_true(s) == 0,
    decreases s.len(),
{
    if s.len() > 0 {
        lemma_count_false_zero(s.drop_last());
    }
}

/// Pushing a finished zone keeps the whole picture consistent: the new
/// zone's cells are exactly the newly visited ones, so the split stays
/// disjoint, closed and covered by the visitation map.
proof fn lemma_zone_restore(
    g: Seq<Seq<u8>>,
    zs_pre: Seq<Zone>,
    zs: Seq<Zone>,
    zone: Zone,
    before: Seq<bool>,
    vis: Seq<bool>,
    nci: int,
    k: int,
)
    requires
        grid_ok(g),
        nci == g[0].len(),
        before.len() == g.len() * g[0].len(),
        vis.len() == g.len() * g[0].len(),
        zs == zs_pre.push(zone),
        zones_ok(g, zs_pre),
        forall|z: int|
            0 <= z < zs_pre.len() ==> (#[trigger] zs_pre[z].coords@).len() <= g.len()
                * g[0].len(),
        forall|p: (i32, i32)|
            #![trigger pidx(nci, p)]
            in_grid(g, p) ==> (before[pidx(nci, p)] <==> exists|z: int|
                0 <= z < zs_pre.len() && (#[trigger] zs_pre[z].coords@.contains(p))),
        forall|x: int| 0 <= x < vis.len() && before[x] ==> vis[x],
        forall|p: (i32, i32)|
            #![trigger pidx(nci, p)]
            in_grid(g, p) ==> ((vis[pidx(nci, p)] && !before[pidx(nci, p)])
                <==> zone.coords@.contains(p)),
        zone.coords@.no_duplicates(),
        zone.coords@.len() >= 1,
        forall|p: (i32, i32)|
            #![trigger zone.coords@.contains(p)]
            zone.coords@.contains(p) ==> in_grid(g, p) && letter_at(g, p) == zone.garden
                && reaches(g, zone.garden, zone.coords@[0], p),
        forall|i2: int, d: int|
            #![trigger zone.coords@[i2], translation(d)]
            0 <= i2 < zone.coords@.len() && 0 <= d < 4 ==> {
                let p = zone.coords@[i2];
                let q = (((p.0 + translation(d).0) as i32), ((p.1 + translation(d).1) as i32));
                (in_grid(g, q) && letter_at(g, q) == zone.garden) ==> vis[pidx(nci, q)]
            },
        zone.coords@.len() <= g.len() * g[0].len(),
    ensures
        zones_ok(g, zs),
        forall|z: int|
            0 <= z < zs.len() ==> (#[trigger] zs[z].coords@).len() <= g.len() * g[0].len(),
        forall|p: (i32, i32)|
            #![trigger pidx(nci, p)]
            in_grid(g, p) ==> (vis[pidx(nci, p)] <==> exists|z: int|
                0 <= z < zs.len() && (#[trigger] zs[z].coords@.contains(p))),
{
    let zlen = zs_pre.len() as int;
    assert(forall|z: int| 0 <= z < zlen ==> zs[z] == zs_pre[z]);
    assert(zs[zlen] == zone);
    // Letters and bounds.
    assert forall|z: int, i: int|
        0 <= z < zs.len() && 0 <= i < zs[z].coords@.len() implies {
        let p = #[trigger] zs[z].coords@[i];
        in_grid(g, p) && letter_at(g, p) == zs[z].garden
    } by {
        if z < zlen {
            assert(zs_pre[z].coords@[i] == zs[z].coords@[i]);
        } else {
            assert(zone.coords@.contains(zs[z].coords@[i])) by {
                assert(zone.coords@[i] == zs[z].coords@[i]);
            }
        }
    }
    // Disjointness.
    assert forall|z1: int, z2: int, p: (i32, i32)|
        #![trigger zs[z1].coords@.contains(p), zs[z2].coords@.contains(p)]
        0 <= z1 < zs.len() && 0 <= z2 < zs.len() && z1 != z2 && zs[z1].coords@.contains(p)
            implies !zs[z2].coords@.contains(p) by {
        if z1 < zlen && z2 < zlen {
            assert(zs_pre[z1].coords@.contains(p) == zs[z1].coords@.contains(p));
            assert(zs_pre[z2].coords@.contains(p) == zs[z2].coords@.contains(p));
        } else if z1 == zlen && z2 < zlen {
            assert(zone.coords@.contains(p));
            assert(in_grid(g, p));
            assert(!before[pidx(nci, p)]);
            if zs[z2].coords@.contains(p) {
                assert(zs_pre[z2].coords@.contains(p));
                assert(before[pidx(nci, p)]);
            }
        } else {
            assert(z2 == zlen && z1 < zlen);
            assert(zs_pre[z1].coords@.contains(p));
            assert(before[pidx(nci, p)]);
            if zs[z2].coords@.contains(p) {
                assert(zone.coords@.contains(p));
                assert(!before[pidx(nci, p)]);
            }
        }
    }
    // Closure.
    assert forall|z: int, i: int, d: int|
        #![trigger zs[z].coords@[i], translation(d)]
        0 <= z < zs.len() && 0 <= i < zs[z].coords@.len() && 0 <= d < 4 implies {
        let p = zs[z].coords@[i];
        let q = (((p.0 + translation(d).0) as i32), ((p.1 + translation(d).1) as i32));
        (in_grid(g, q) && letter_at(g, q) == zs[z].garden) ==> zs[z].coords@.contains(q)
    } by {
        let p = zs[z].coords@[i];
        let q = (((p.0 + translation(d).0) as i32), ((p.1 + translation(d).1) as i32));
        if z < zlen {
            assert(zs_pre[z].coords@[i] == p);
            if in_grid(g, q) && letter_at(g, q) == zs[z].garden {
                assert(zs_pre[z].coords@.contains(q));
                let ix = choose|ix: int|
                    0 <= ix < zs_pre[z].coords@.len() && zs_pre[z].coords@[ix] == q;
                assert(zs[z].coords@[ix] == q);
            }
        } else {
            assert(zone.coords@[i] == p);
            if in_grid(g, q) && letter_at(g, q) == zone.garden {
                assert(vis[pidx(nci, q)]);
                if !before[pidx(nci, q)] {
                    assert(zone.coords@.contains(q));
                } else {
                    // The neighbour would sit in an earlier zone whose
                    // closure would swallow this cell too.
                    let zq = choose|zq: int|
                        0 <= zq < zs_pre.len() && (#[trigger] zs_pre[zq].coords@.contains(q));
                    let iq = choose|iq: int|
                        0 <= iq < zs_pre[zq].coords@.len() && zs_pre[zq].coords@[iq] == q;
                    assert(letter_at(g, q) == zs_pre[zq].garden);
                    let dop: int = if d == 0 {
                        1
                    } else if d == 1 {
                        0
                    } else if d == 2 {
                        3
                    } else {
                        2
                    };
                    assert(zone.coords@.contains(p)) by {
                        assert(zone.coords@[i] == p);
                    }
                    assert(in_grid(g, p) && letter_at(g, p) == zone.garden);
                    assert((((q.0 + translation(dop).0) as i32), ((q.1 + translation(
                        dop,
                    ).1) as i32)) == p);
                    assert(zs_pre[zq].coords@.contains(p));
                    assert(before[pidx(nci, p)]);
                    assert(!before[pidx(nci, p)]);
                }
            }
        }
    }
    // Reachability.
    assert forall|z: int, i: int|
        0 <= z < zs.len() && 0 <= i < zs[z].coords@.len() implies reaches(
        g,
        zs[z].garden,
        zs[z].coords@[0],
        #[trigger] zs[z].coords@[i],
    ) by {
        if z < zlen {
            assert(zs_pre[z].coords@[i] == zs[z].coords@[i]);
            assert(zs_pre[z].coords@[0] == zs[z].coords@[0]);
        } else {
            assert(zone.coords@.contains(zs[z].coords@[i])) by {
                assert(zone.coords@[i] == zs[z].coords@[i]);
            }
            assert(zs[z].coords@[0] == zone.coords@[0]);
        }
    }
    // No duplicates and sizes.
    assert forall|z: int|
        0 <= z < zs.len() implies (#[trigger] zs[z].coords@).no_duplicates()
        && zs[z].coords@.len() >= 1 by {
        if z < zlen {
            assert(zs[z] == zs_pre[z]);
        }
    }
    assert forall|z: int|
        0 <= z < zs.len() implies (#[trigger] zs[z].coords@).len() <= g.len() * g[0].len() by {
        if z < zlen {
            assert(zs[z] == zs_pre[z]);
        }
    }
    // The visitation map covers exactly the zones.
    assert forall|p: (i32, i32)|
        #![trigger pidx(nci, p)]
        in_grid(g, p) implies (vis[pidx(nci, p)] <==> exists|z: int|
            0 <= z < zs.len() && (#[trigger] zs[z].coords@.contains(p))) by {
        lemma_pidx_range(g, p);
        if vis[pidx(nci, p)] {
            if before[pidx(nci, p)] {
                let zq = choose|zq: int|
                    0 <= zq < zs_pre.len() && (#[trigger] zs_pre[zq].coords@.contains(p));
                assert(zs[zq].coords@.contains(p));
            } else {
                assert(zone.coords@.contains(p));
                assert(zs[zlen].coords@.contains(p));
            }
        } else {
            if exists|z: int| 0 <= z < zs.len() && (#[trigger] zs[z].coords@.contains(p)) {
                let z = choose|z: int|
                    0 <= z < zs.len() && (#[trigger] zs[z].coords@.contains(p));
                if z < zlen {
                    assert(zs_pre[z].coords@.contains(p));
                    assert(before[pidx(nci, p)]);
                    assert(vis[pidx(nci, p)]);
                } else {
                    assert(zone.coords@.contains(p));
                    assert(vis[pidx(nci, p)]);
                }
            }
        }
    }
}

/// The fence price of the first `k` zones: area times perimeter.
pub open spec fn price_perimeter(zs: Seq<Zone>, k: int) -> int
    decreases k,
{
    if k <= 0 {
        0
    } else {
        price_perimeter(zs, k - 1) + zs[k - 1].coords@.len() * spec_contribs(
            zs[k - 1].coords@,
            zs[k - 1].coords@.len() as int,
        ).len()
    }
}

/// The discounted price of the first `k` zones: area times sides.
pub open spec fn price_sides(zs: Seq<Zone>, k: int) -> int
    decreases k,
{
    if k <= 0 {
        0
    } else {
        price_sides(zs, k - 1) + zs[k - 1].coords@.len() * spec_corners(
            zs[k - 1].coords@,
            spec_contribs(zs[k - 1].coords@, zs[k - 1].coords@.len() as int),
            zs[k - 1].coords@.len() as int,
        )
    }
}

/// Reads the garden map; None when the input is not a valid map.
pub fn parse(input: &[u8]) -> (out: Option<Vec<Vec<u8>>>)
    ensures
        match out {
            Some(rows) => grid_ok(scan::spec_lines(input@)) && rows_view(rows@)
                == scan::spec_lines(input@),
            None => !grid_ok(scan::spec_lines(input@)),
        },
{
    let ls = scan::lines(input);
    let ghost rv = scan::spec_lines(input@);
    if ls.len() == 0 {
        return None;
    }
    let cols = ls[0].len();
    if cols == 0 {
        proof {
            assert(rv[0] == ls@[0]@);
        }
        return None;
    }
    if ls.len() > 23170usize || cols > 23170usize {
        return None;
    }
    let mut i: usize = 0;
    while i < ls.len()
        invariant
            i <= ls@.len(),
            scan::pieces_view(ls@) == rv,
            rv == scan::spec_lines(input@),
            cols == rv[0].len(),
            forall|x: int| 0 <= x < i ==> #[trigger] rv[x].len() == rv[0].len(),
            forall|x: int, y: int| 0 <= x < i && 0 <= y < rv[x].len() ==> rv[x][y] != 13,
        decreases ls@.len() - i,
    {
        let row = &ls[i];
        proof {
            assert(rv[i as int] == row@);
        }
        if row.len() != cols {
            return None;
        }
        let mut j: usize = 0;
        while j < cols
            invariant
                j <= cols,
                i < ls@.len(),
                scan::pieces_view(ls@) == rv,
                rv == scan::spec_lines(input@),
                i < rv.len(),
                row@ == rv[i as int],
                row@.len() == cols,
                forall|y: int| 0 <= y < j ==> rv[i as int][y] != 13,
            decreases cols - j,
        {
            if row[j] == 13 {
                return None;
            }
            j += 1;
        }
        i += 1;
    }
    proof {
        assert(rows_view(ls@) =~~= rv);
    }
    Some(ls)
}

/// Both answers for one input: every zone's area times perimeter, and
/// area times sides, summed.  None when the input is not a valid map or
/// a sum leaves usize.
#[verifier::rlimit(100)]
pub fn run(input: &[u8]) -> (out: Option<(usize, usize)>)
    ensures
        ({
            let g = scan::spec_lines(input@);
            match out {
                Some(ans) => {
                    &&& grid_ok(g)
                    &&& exists|zs: Seq<Zone>|
                        {
                            &&& #[trigger] zones_ok(g, zs)
                            &&& zones_cover(g, zs)
                            &&& ans.0 == price_perimeter(zs, zs.len() as int)
                            &&& ans.1 == price_sides(zs, zs.len() as int)
                            &&& forall|k: int|
                                0 <= k <= zs.len() ==> 0 <= #[trigger] price_perimeter(zs, k)
                                    <= usize::MAX
                            &&& forall|k: int|
                                0 <= k <= zs.len() ==> 0 <= #[trigger] price_sides(zs, k)
                                    <= usize::MAX
                        }
                },
                None => {
                    ||| !grid_ok(g)
                    ||| exists|zs: Seq<Zone>|
                        {
                            &&& #[trigger] zones_ok(g, zs)
                            &&& zones_cover(g, zs)
                            &&& ((exists|k: int|
                                0 <= k <= zs.len() && !(0 <= #[trigger] price_perimeter(zs, k)
                                    <= usize::MAX)) || (exists|k: int|
                                0 <= k <= zs.len() && !(0 <= #[trigger] price_sides(zs, k)
                                    <= usize::MAX)))
                        }
                },
            }
        }),
{
    let rows = match parse(input) {
        Some(rows) => rows,
        None => {
            return None;
        },
    };
    let ghost g = scan::spec_lines(input@);
    let zones = find_zones(&rows);
    let ghost zv = zones@;
    proof {
        assert forall|z: int, i: int|
            0 <= z < zv.len() && 0 <= i < zv[z].coords@.len() implies {
            let p = #[trigger] zv[z].coords@[i];
            -0x3fff_ffff <= p.0 <= 0x3fff_ffff && -0x3fff_ffff <= p.1 <= 0x3fff_ffff
        } by {
            assert(in_grid(g, zv[z].coords@[i]));
        }
    }
    let n = zones.len();
    let mut total1: usize = 0;
    let mut total2: usize = 0;
    let mut z: usize = 0;
    while z < n
        invariant
            z <= n,
            n == zones@.len(),
            zv == zones@,
            g == scan::spec_lines(input@),
            grid_ok(g),
            zones_ok(g, zv),
            zones_cover(g, zv),
            forall|zz: int|
                0 <= zz < zv.len() ==> (#[trigger] zv[zz].coords@).len() <= g.len() * g[0].len(),
            forall|zz: int, i: int|
                0 <= zz < zv.len() && 0 <= i < zv[zz].coords@.len() ==> {
                    let p = #[trigger] zv[zz].coords@[i];
                    -0x3fff_ffff <= p.0 <= 0x3fff_ffff && -0x3fff_ffff <= p.1 <= 0x3fff_ffff
                },
            total1 == price_perimeter(zv, z as int),
            total2 == price_sides(zv, z as int),
            forall|k: int| 0 <= k <= z ==> 0 <= #[trigger] price_perimeter(zv, k) <= usize::MAX,
            forall|k: int| 0 <= k <= z ==> 0 <= #[trigger] price_sides(zv, k) <= usize::MAX,
        decreases n - z,
    {
        let zone = &zones[z];
        proof {
            assert(zones@[z as int] == zv[z as int]);
            assert(coords_small(zone.coords@)) by {
                assert forall|i: int|
                    0 <= i < zone.coords@.len() implies {
                    let p = #[trigger] zone.coords@[i];
                    -0x3fff_ffff <= p.0 <= 0x3fff_ffff && -0x3fff_ffff <= p.1 <= 0x3fff_ffff
                } by {
                    assert(zv[z as int].coords@[i] == zone.coords@[i]);
                }
            }
            assert(zone.coords@.len() <= g.len() * g[0].len());
            assert(g.len() * g[0].len() <= 23170 * 23170) by (nonlinear_arith)
                requires
                    g.len() <= 23170,
                    g[0].len() <= 23170,
        ;
        }
        let area = zone.area();
        let per = zone.perimeter();
        let sid = zone.sides();
        let t1 = match area.checked_mul(per) {
            Some(v) => v,
            None => {
                proof {
                    assert(price_perimeter(zv, z as int + 1) == total1 + area * per);
                    lemma_price_nonneg(zv, z as int);
                    assert(!(0 <= price_perimeter(zv, z as int + 1) <= usize::MAX));
                    assert(exists|k: int|
                        0 <= k <= zv.len() && !(0 <= #[trigger] price_perimeter(zv, k)
                            <= usize::MAX));
                }
                return None;
            },
        };
        let t2 = match area.checked_mul(sid) {
            Some(v) => v,
            None => {
                proof {
                    assert(price_sides(zv, z as int + 1) == total2 + area * sid);
                    lemma_price_nonneg(zv, z as int);
                    assert(!(0 <= price_sides(zv, z as int + 1) <= usize::MAX));
                    assert(exists|k: int|
                        0 <= k <= zv.len() && !(0 <= #[trigger] price_sides(zv, k)
                            <= usize::MAX));
                }
                return None;
            },
        };
        total1 = match total1.checked_add(t1) {
            Some(v) => v,
            None => {
                proof {
                    assert(price_perimeter(zv, z as int + 1) == total1 + area * per);
                    assert(exists|k: int|
                        0 <= k <= zv.len() && !(0 <= #[trigger] price_perimeter(zv, k)
                            <= usize::MAX));
                }
                return None;
            },
        };
        total2 = match total2.checked_add(t2) {
            Some(v) => v,
            None => {
                proof {
                    assert(price_sides(zv, z as int + 1) == total2 + area * sid);
                    assert(exists|k: int|
                        0 <= k <= zv.len() && !(0 <= #[trigger] price_sides(zv, k)
                            <= usize::MAX));
                }
                return None;
            },
        };
        proof {
            assert(price_perimeter(zv, z as int + 1) == total1);
            assert(price_sides(zv, z as int + 1) == total2);
        }
        z += 1;
    }
    Some((total1, total2))
}

/// Prices never count below zero.
proof fn lemma_price_nonneg(zs: Seq<Zone>, k: int)
    ensures
        price_perimeter(zs, k) >= 0,
        price_sides(zs, k) >= 0,
    decreases k,
{
    if k > 0 {
        lemma_price_nonneg(zs, k - 1);
        assert(zs[k - 1].coords@.len() * spec_contribs(
            zs[k - 1].coords@,
            zs[k - 1].coords@.len() as int,
        ).len() >= 0) by (nonlinear_arith);
        lemma_corners_nonneg(
            zs[k - 1].coords@,
            spec_contribs(zs[k - 1].coords@, zs[k - 1].coords@.len() as int),
            zs[k - 1].coords@.len() as int,
        );
        assert(zs[k - 1].coords@.len() * spec_corners(
            zs[k - 1].coords@,
            spec_contribs(zs[k - 1].coords@, zs[k - 1].coords@.len() as int),
            zs[k - 1].coords@.len() as int,
        ) >= 0) by (nonlinear_arith)
            requires
                spec_corners(
                    zs[k - 1].coords@,
                    spec_contribs(zs[k - 1].coords@, zs[k - 1].coords@.len() as int),
                    zs[k - 1].coords@.len() as int,
                ) >= 0,
        ;
    }
}

proof fn lemma_corners_nonneg(cs: Seq<(i32, i32)>, pm: Seq<(i32, i32)>, k: int)
    ensures
        spec_corners(cs, pm, k) >= 0,
    decreases k,
{
    if k > 0 {
        lemma_corners_nonneg(cs, pm, k - 1);
    }
}

} // verus!
