//! Trailhead scores: paths climb a height map from 0 to 9 in unit steps;
//! each trailhead is scored by the distinct summits it reaches, and rated
//! by how many distinct paths lead up.
use crate::scan;
use vstd::prelude::*;

verus! {

/// The height map.
pub struct Topology {
    pub nodes: Vec<Vec<i32>>,
    pub num_rows: i32,
    pub num_cols: i32,
}

/// The views of the rows of the map.
pub open spec fn grid_view(nodes: Seq<Vec<i32>>) -> Seq<Seq<i32>> {
    Seq::new(nodes.len(), |i: int| nodes[i]@)
}

/// A well-formed map: non-empty, rectangular, and small enough for i32
/// coordinates.
pub open spec fn grid_wf(g: Seq<Seq<i32>>) -> bool {
    &&& g.len() >= 1
    &&& g[0].len() >= 1
    &&& g.len() <= 0x7fff_fffe
    &&& g[0].len() <= 0x7fff_fffe
    &&& forall|i: int| 0 <= i < g.len() ==> #[trigger] g[i].len() == g[0].len()
}

impl Topology {
    pub open spec fn view_grid(self) -> Seq<Seq<i32>> {
        grid_view(self.nodes@)
    }

    pub open spec fn wf(self) -> bool {
        &&& grid_wf(self.view_grid())
        &&& self.num_rows == self.view_grid().len()
        &&& self.num_cols == self.view_grid()[0].len()
    }

    /// Wraps a rectangular, non-empty height map.
    pub fn new(nodes: Vec<Vec<i32>>) -> (t: Topology)
        requires
            grid_wf(grid_view(nodes@)),
        ensures
            t.wf(),
            t.view_grid() == grid_view(nodes@),
    {
        let num_rows = nodes.len() as i32;
        proof {
            assert(grid_view(nodes@)[0] == nodes@[0]@);
        }
        let num_cols = nodes[0].len() as i32;
        Topology { nodes, num_rows, num_cols }
    }

    /// The cells of height zero, in row-major order.
    pub fn trailheads(&self) -> (out: Vec<(i32, i32)>)
        requires
            self.wf(),
        ensures
            out@ == spec_trailheads(self.view_grid()),
    {
        let ghost g = self.view_grid();
        let nr = self.nodes.len();
        let mut out: Vec<(i32, i32)> = Vec::new();
        proof {
            assert(out@ + spec_trailheads_row(g, 0, 0) =~= spec_trailheads_row(g, 0, 0));
        }
        let mut r: usize = 0;
        while r < nr
            invariant
                r <= nr,
                nr == self.nodes@.len(),
                self.wf(),
                g == self.view_grid(),
                spec_trailheads_row(g, 0, 0) == out@ + spec_trailheads_row(g, r as int, 0),
            decreases nr - r,
        {
            let row = &self.nodes[r];
            proof {
                assert(g[r as int] == row@);
                assert(g[r as int].len() == g[0].len());
            }
            let nc = row.len();
            let mut c: usize = 0;
            while c < nc
                invariant
                    c <= nc,
                    r < nr,
                    nr == self.nodes@.len(),
                    self.wf(),
                    g == self.view_grid(),
                    row@ == g[r as int],
                    nc == row@.len(),
                    nc == g[0].len(),
                    spec_trailheads_row(g, 0, 0) == out@ + spec_trailheads_row(
                        g,
                        r as int,
                        c as int,
                    ),
                decreases nc - c,
            {
                let ghost pre = out@;
                if row[c] == 0 {
                    out.push((r as i32, c as i32));
                    proof {
                        let x = (((r as i32)), ((c as i32)));
                        assert(out@ =~= pre.push(x));
                        assert(spec_trailheads_row(g, r as int, c as int) == seq![x]
                            + spec_trailheads_row(g, r as int, c as int + 1));
                        assert(pre + (seq![x] + spec_trailheads_row(g, r as int, c as int + 1))
                            =~= out@ + spec_trailheads_row(g, r as int, c as int + 1));
                    }
                }
                c += 1;
            }
            proof {
                assert(spec_trailheads_row(g, r as int, nc as int) == spec_trailheads_row(
                    g,
                    r as int + 1,
                    0,
                ));
            }
            r += 1;
        }
        proof {
            assert(spec_trailheads_row(g, nr as int, 0) =~= Seq::<(i32, i32)>::empty());
            assert(out@ + Seq::<(i32, i32)>::empty() =~= out@);
        }
        out
    }

    /// The in-bounds orthogonal neighbours of (r, c) with their heights,
    /// in the fixed order left, right, up, down.
    pub fn neighbours(&self, row_idx: i32, col_idx: i32) -> (out: Vec<(i32, i32, i32)>)
        requires
            self.wf(),
            0 <= row_idx < self.view_grid().len(),
            0 <= col_idx < self.view_grid()[0].len(),
        ensures
            out@ == spec_neighbours(self.view_grid(), row_idx as int, col_idx as int),
    {
        let ghost g = self.view_grid();
        let mut out: Vec<(i32, i32, i32)> = Vec::new();
        let nr = self.nodes.len() as i64;
        let nc = self.nodes[0].len() as i64;
        proof {
            assert(g[0] == self.nodes@[0]@);
        }
        if col_idx as i64 - 1 >= 0 {
            proof {
                assert(g[row_idx as int] == self.nodes@[row_idx as int]@);
                assert(g[row_idx as int].len() == g[0].len());
            }
            let h = self.nodes[row_idx as usize][(col_idx - 1) as usize];
            out.push((row_idx, col_idx - 1, h));
        }
        if (col_idx as i64) + 1 < nc {
            proof {
                assert(g[row_idx as int] == self.nodes@[row_idx as int]@);
                assert(g[row_idx as int].len() == g[0].len());
            }
            let h = self.nodes[row_idx as usize][(col_idx + 1) as usize];
            out.push((row_idx, col_idx + 1, h));
        }
        if row_idx as i64 - 1 >= 0 {
            proof {
                assert(g[row_idx as int - 1] == self.nodes@[row_idx as int - 1]@);
                assert(g[row_idx as int - 1].len() == g[0].len());
            }
            let h = self.nodes[(row_idx - 1) as usize][col_idx as usize];
            out.push((row_idx - 1, col_idx, h));
        }
        if (row_idx as i64) + 1 < nr {
            proof {
                assert(g[row_idx as int + 1] == self.nodes@[row_idx as int + 1]@);
                assert(g[row_idx as int + 1].len() == g[0].len());
            }
            let h = self.nodes[(row_idx + 1) as usize][col_idx as usize];
            out.push((row_idx + 1, col_idx, h));
        }
        proof {
            assert(out@ =~= spec_neighbours(g, row_idx as int, col_idx as int));
        }
        out
    }
}

/// The trailheads at or after (r, c) in row-major order.
pub open spec fn spec_trailheads_row(g: Seq<Seq<i32>>, r: int, c: int) -> Seq<(i32, i32)>
    decreases g.len() - r, g[0].len() - c + 1,
        via spec_trailheads_row_decreases
{
    if r < 0 || c < 0 || r >= g.len() {
        Seq::empty()
    } else if c >= g[0].len() {
        spec_trailheads_row(g, r + 1, 0)
    } else {
        let rest = spec_trailheads_row(g, r, c + 1);
        if g[r][c] == 0 {
            seq![((r as i32), (c as i32))] + rest
        } else {
            rest
        }
    }
}

#[via_fn]
proof fn spec_trailheads_row_decreases(g: Seq<Seq<i32>>, r: int, c: int) {
}

/// The trailheads of the whole map.
pub open spec fn spec_trailheads(g: Seq<Seq<i32>>) -> Seq<(i32, i32)> {
    spec_trailheads_row(g, 0, 0)
}

/// The neighbour list: left, right, up, down, kept in bounds.
pub open spec fn spec_neighbours(g: Seq<Seq<i32>>, r: int, c: int) -> Seq<(i32, i32, i32)> {
    let left: Seq<(i32, i32, i32)> = if c - 1 >= 0 {
        seq![((r as i32), ((c - 1) as i32), g[r][c - 1])]
    } else {
        Seq::empty()
    };
    let right: Seq<(i32, i32, i32)> = if c + 1 < g[0].len() {
        seq![((r as i32), ((c + 1) as i32), g[r][c + 1])]
    } else {
        Seq::empty()
    };
    let up: Seq<(i32, i32, i32)> = if r - 1 >= 0 {
        seq![(((r - 1) as i32), (c as i32), g[r - 1][c])]
    } else {
        Seq::empty()
    };
    let down: Seq<(i32, i32, i32)> = if r + 1 < g.len() {
        seq![(((r + 1) as i32), (c as i32), g[r + 1][c])]
    } else {
        Seq::empty()
    };
    left + right + up + down
}

/// The views of a list of paths.
pub open spec fn paths_view(ps: Seq<Vec<(i32, i32, i32)>>) -> Seq<Seq<(i32, i32, i32)>> {
    Seq::new(ps.len(), |i: int| ps[i]@)
}

/// A finished path: it stands on a summit.
pub open spec fn path_done(p: Seq<(i32, i32, i32)>) -> bool {
    p.len() > 0 && p.last().2 == 9
}

pub open spec fn all_paths_done(ps: Seq<Seq<(i32, i32, i32)>>) -> bool {
    forall|i: int| 0 <= i < ps.len() ==> path_done(#[trigger] ps[i])
}

/// The one-step extensions of a path: each unvisited neighbour exactly
/// one higher, in neighbour order.
pub open spec fn exts(
    p: Seq<(i32, i32, i32)>,
    nbs: Seq<(i32, i32, i32)>,
) -> Seq<Seq<(i32, i32, i32)>>
    decreases nbs.len(),
{
    if nbs.len() == 0 {
        Seq::empty()
    } else {
        let rest = exts(p, nbs.skip(1));
        if !p.contains(nbs[0]) && nbs[0].2 == p.last().2 + 1 {
            seq![p.push(nbs[0])] + rest
        } else {
            rest
        }
    }
}

/// One search round: finished paths stay, the others are replaced by
/// their extensions; a path with nowhere to go disappears.
pub open spec fn spec_round(g: Seq<Seq<i32>>, ps: Seq<Seq<(i32, i32, i32)>>) -> Seq<
    Seq<(i32, i32, i32)>,
>
    decreases ps.len(),
{
    if ps.len() == 0 {
        Seq::empty()
    } else {
        let p = ps[0];
        let rest = spec_round(g, ps.skip(1));
        if p.len() == 0 {
            rest
        } else if p.last().2 == 9 {
            seq![p] + rest
        } else {
            exts(p, spec_neighbours(g, p.last().0 as int, p.last().1 as int)) + rest
        }
    }
}

/// Rounds run under a step budget: None when the budget runs out before
/// every path is finished.
pub open spec fn spec_rounds(
    g: Seq<Seq<i32>>,
    ps: Seq<Seq<(i32, i32, i32)>>,
    fuel: nat,
) -> Option<Seq<Seq<(i32, i32, i32)>>>
    decreases fuel,
{
    if all_paths_done(ps) {
        Some(ps)
    } else if fuel == 0 {
        None
    } else {
        spec_rounds(g, spec_round(g, ps), (fuel - 1) as nat)
    }
}

/// One singleton path per trailhead.
pub open spec fn init_paths(g: Seq<Seq<i32>>) -> Seq<Seq<(i32, i32, i32)>> {
    Seq::new(
        spec_trailheads_row(g, 0, 0).len(),
        |i: int|
            seq![
                (
                    spec_trailheads_row(g, 0, 0)[i].0,
                    spec_trailheads_row(g, 0, 0)[i].1,
                    0i32,
                ),
            ],
    )
}

/// The budget the search runs under: heights climb by one per round and
/// top out at nine, so ten rounds always finish.
pub open spec fn rounds_budget() -> nat {
    10
}

/// Every cell of every path lies on the map.
pub open spec fn paths_in_bounds(g: Seq<Seq<i32>>, ps: Seq<Seq<(i32, i32, i32)>>) -> bool {
    forall|i: int, j: int|
        0 <= i < ps.len() && 0 <= j < ps[i].len() ==> {
            let cell = #[trigger] ps[i][j];
            0 <= cell.0 < g.len() && 0 <= cell.1 < g[0].len()
        }
}

proof fn lemma_trailheads_in_bounds(g: Seq<Seq<i32>>, r: int, c: int)
    requires
        grid_wf(g),
        0 <= r,
        0 <= c,
    ensures
        forall|i: int|
            0 <= i < spec_trailheads_row(g, r, c).len() ==> {
                let th = #[trigger] spec_trailheads_row(g, r, c)[i];
                0 <= th.0 < g.len() && 0 <= th.1 < g[0].len()
            },
    decreases g.len() - r, g[0].len() - c + 1,
{
    if r >= g.len() {
    } else if c >= g[0].len() {
        lemma_trailheads_in_bounds(g, r + 1, 0);
        let cur = spec_trailheads_row(g, r, c);
        let next = spec_trailheads_row(g, r + 1, 0);
        assert forall|i: int| 0 <= i < cur.len() implies {
            let th = #[trigger] cur[i];
            0 <= th.0 < g.len() && 0 <= th.1 < g[0].len()
        } by {
            assert(cur[i] == next[i]);
        }
    } else {
        lemma_trailheads_in_bounds(g, r, c + 1);
        let cur = spec_trailheads_row(g, r, c);
        let rest = spec_trailheads_row(g, r, c + 1);
        if g[r][c] == 0 {
            assert forall|i: int| 0 <= i < cur.len() implies {
                let th = #[trigger] cur[i];
                0 <= th.0 < g.len() && 0 <= th.1 < g[0].len()
            } by {
                if i > 0 {
                    assert(cur[i] == rest[i - 1]);
                }
            }
        } else {
            assert forall|i: int| 0 <= i < cur.len() implies {
                let th = #[trigger] cur[i];
                0 <= th.0 < g.len() && 0 <= th.1 < g[0].len()
            } by {
                assert(cur[i] == rest[i]);
            }
        }
    }
}

proof fn lemma_neighbours_in_bounds(g: Seq<Seq<i32>>, r: int, c: int)
    requires
        grid_wf(g),
        0 <= r < g.len(),
        0 <= c < g[0].len(),
    ensures
        forall|i: int|
            0 <= i < spec_neighbours(g, r, c).len() ==> {
                let nb = #[trigger] spec_neighbours(g, r, c)[i];
                0 <= nb.0 < g.len() && 0 <= nb.1 < g[0].len()
            },
{
}

fn path_contains(p: &Vec<(i32, i32, i32)>, x: (i32, i32, i32)) -> (r: bool)
    ensures
        r == p@.contains(x),
{
    let n = p.len();
    let mut i: usize = 0;
    while i < n
        invariant
            i <= n,
            n == p@.len(),
            forall|y: int| 0 <= y < i ==> p@[y] != x,
        decreases n - i,
    {
        let e = p[i];
        if e.0 == x.0 && e.1 == x.1 && e.2 == x.2 {
            assert(p@[i as int] == x);
            return true;
        }
        i += 1;
    }
    false
}

fn copy_path(p: &Vec<(i32, i32, i32)>) -> (out: Vec<(i32, i32, i32)>)
    ensures
        out@ == p@,
{
    let mut q: Vec<(i32, i32, i32)> = Vec::new();
    let mut x: usize = 0;
    while x < p.len()
        invariant
            x <= p@.len(),
            q@ =~= p@.subrange(0, x as int),
        decreases p@.len() - x,
    {
        q.push(p[x]);
        x += 1;
    }
    proof {
        assert(q@ =~= p@);
    }
    q
}

fn paths_all_done(paths: &Vec<Vec<(i32, i32, i32)>>) -> (r: bool)
    ensures
        r == all_paths_done(paths_view(paths@)),
{
    let n = paths.len();
    let mut i: usize = 0;
    while i < n
        invariant
            i <= n,
            n == paths@.len(),
            forall|x: int| 0 <= x < i ==> path_done(#[trigger] paths_view(paths@)[x]),
        decreases n - i,
    {
        let p = &paths[i];
        proof {
            assert(paths_view(paths@)[i as int] == p@);
        }
        let len = p.len();
        if len == 0 {
            return false;
        }
        if p[len - 1].2 != 9 {
            return false;
        }
        i += 1;
    }
    true
}

impl Topology {
    /// Grows every trailhead's path one step per round, breadth first,
    /// until each stands on a summit.  None when the round budget runs
    /// out, which a map of digit heights never reaches.
    pub fn find_paths(&self) -> (out: Option<Vec<Vec<(i32, i32, i32)>>>)
        requires
            self.wf(),
        ensures
            match out {
                Some(ps) => spec_rounds(self.view_grid(), init_paths(self.view_grid()),
                    rounds_budget()) == Some(paths_view(ps@)),
                None => spec_rounds(self.view_grid(), init_paths(self.view_grid()),
                    rounds_budget()) is None,
            },
    {
        let ghost g = self.view_grid();
        let ths = self.trailheads();
        let mut paths: Vec<Vec<(i32, i32, i32)>> = Vec::new();
        let mut i: usize = 0;
        while i < ths.len()
            invariant
                i <= ths@.len(),
                self.wf(),
                g == self.view_grid(),
                ths@ == spec_trailheads_row(g, 0, 0),
                paths@.len() == i,
                forall|x: int|
                    0 <= x < i ==> #[trigger] paths_view(paths@)[x] == init_paths(g)[x],
            decreases ths@.len() - i,
        {
            let (r, c) = ths[i];
            let ghost pre = paths@;
            let mut p: Vec<(i32, i32, i32)> = Vec::new();
            p.push((r, c, 0));
            proof {
                assert(p@ =~= seq![(r, c, 0i32)]);
            }
            paths.push(p);
            proof {
                assert(paths_view(paths@)[i as int] =~= init_paths(g)[i as int]);
                assert forall|x: int| 0 <= x < i implies #[trigger] paths_view(paths@)[x]
                    == init_paths(g)[x] by {
                    assert(paths_view(paths@)[x] == pre[x]@);
                    assert(paths_view(pre)[x] == pre[x]@);
                }
            }
            i += 1;
        }
        proof {
            assert(paths_view(paths@) =~= init_paths(g));
            lemma_trailheads_in_bounds(g, 0, 0);
            assert(paths_in_bounds(g, paths_view(paths@))) by {
                assert forall|a: int, b: int|
                    0 <= a < paths_view(paths@).len() && 0 <= b < paths_view(paths@)[a].len()
                        implies {
                    let cell = #[trigger] paths_view(paths@)[a][b];
                    0 <= cell.0 < g.len() && 0 <= cell.1 < g[0].len()
                } by {
                    assert(paths_view(paths@)[a] == init_paths(g)[a]);
                    assert(b == 0);
                }
            }
        }
        let mut budget: usize = 10;
        let ghost target = spec_rounds(g, init_paths(g), rounds_budget());
        loop
            invariant
                self.wf(),
                g == self.view_grid(),
                budget <= 10,
                paths_in_bounds(g, paths_view(paths@)),
                spec_rounds(g, paths_view(paths@), budget as nat) == target,
                target == spec_rounds(g, init_paths(g), rounds_budget()),
            decreases budget,
        {
            if paths_all_done(&paths) {
                proof {
                    assert(spec_rounds(g, paths_view(paths@), budget as nat) == Some(
                        paths_view(paths@),
                    ));
                }
                return Some(paths);
            }
            if budget == 0 {
                proof {
                    assert(spec_rounds(g, paths_view(paths@), 0nat) is None);
                }
                return None;
            }
            let ghost pv = paths_view(paths@);
            let mut new_paths: Vec<Vec<(i32, i32, i32)>> = Vec::new();
            let m = paths.len();
            let mut e: usize = 0;
            proof {
                assert(pv.skip(0) =~= pv);
                assert(paths_view(new_paths@) + spec_round(g, pv) =~= spec_round(g, pv));
            }
            while e < m
                invariant
                    e <= m,
                    m == paths@.len(),
                    self.wf(),
                    g == self.view_grid(),
                    pv == paths_view(paths@),
                    paths_in_bounds(g, pv),
                    spec_round(g, pv) == paths_view(new_paths@) + spec_round(
                        g,
                        pv.skip(e as int),
                    ),
                    paths_in_bounds(g, paths_view(new_paths@)),
                decreases m - e,
            {
                let ghost pview = pv[e as int];
                let p = &paths[e];
                proof {
                    assert(pv[e as int] == p@);
                    assert(pv.skip(e as int)[0] == pv[e as int]);
                    assert(pv.skip(e as int).skip(1) =~= pv.skip(e as int + 1));
                }
                let plen = p.len();
                let ghost new_pre = paths_view(new_paths@);
                if plen == 0 {
                    proof {
                        assert(spec_round(g, pv.skip(e as int)) == spec_round(
                            g,
                            pv.skip(e as int + 1),
                        ));
                    }
                } else {
                    let last = p[plen - 1];
                    if last.2 == 9 {
                        let q = copy_path(p);
                        new_paths.push(q);
                        proof {
                            assert(paths_view(new_paths@) =~= new_pre.push(pview));
                            assert(spec_round(g, pv.skip(e as int)) == seq![pview] + spec_round(
                                g,
                                pv.skip(e as int + 1),
                            ));
                            assert(new_pre + (seq![pview] + spec_round(g, pv.skip(e as int + 1)))
                                =~= paths_view(new_paths@) + spec_round(g, pv.skip(e as int + 1)));
                        }
                    } else {
                        let nbs = self.neighbours(last.0, last.1);
                        let ghost nbv = spec_neighbours(g, last.0 as int, last.1 as int);
                        proof {
                            lemma_neighbours_in_bounds(g, last.0 as int, last.1 as int);
                            assert(nbv.skip(0) =~= nbv);
                            assert(new_pre + (exts(pview, nbv) + spec_round(
                                g,
                                pv.skip(e as int + 1),
                            )) =~= (new_pre + exts(pview, nbv)) + spec_round(
                                g,
                                pv.skip(e as int + 1),
                            ));
                        }
                        let nn = nbs.len();
                        let mut j: usize = 0;
                        while j < nn
                            invariant
                                j <= nn,
                                nn == nbs@.len(),
                                nbs@ == nbv,
                                self.wf(),
                                g == self.view_grid(),
                                p@ == pview,
                                pview.len() >= 1,
                                last == pview.last(),
                                last.2 != 9,
                                forall|x: int|
                                    0 <= x < nbv.len() ==> {
                                        let nb = #[trigger] nbv[x];
                                        0 <= nb.0 < g.len() && 0 <= nb.1 < g[0].len()
                                    },
                                paths_in_bounds(g, paths_view(new_paths@)),
                                forall|b: int|
                                    0 <= b < pview.len() ==> {
                                        let cell = #[trigger] pview[b];
                                        0 <= cell.0 < g.len() && 0 <= cell.1 < g[0].len()
                                    },
                                new_pre + exts(pview, nbv) == paths_view(new_paths@) + exts(
                                    pview,
                                    nbv.skip(j as int),
                                ),
                            decreases nn - j,
                        {
                            let nb = nbs[j];
                            let ghost newer_pre = paths_view(new_paths@);
                            proof {
                                assert(nbv.skip(j as int)[0] == nbv[j as int]);
                                assert(nbv.skip(j as int).skip(1) =~= nbv.skip(j as int + 1));
                            }
                            let already = path_contains(p, nb);
                            if !already && (nb.2 as i64) == (last.2 as i64) + 1 {
                                let mut q = copy_path(p);
                                q.push(nb);
                                new_paths.push(q);
                                proof {
                                    assert(paths_view(new_paths@) =~= newer_pre.push(
                                        pview.push(nbv[j as int]),
                                    ));
                                    assert(exts(pview, nbv.skip(j as int)) == seq![
                                        pview.push(nbv[j as int]),
                                    ] + exts(pview, nbv.skip(j as int + 1)));
                                    assert(newer_pre + (seq![pview.push(nbv[j as int])] + exts(
                                        pview,
                                        nbv.skip(j as int + 1),
                                    )) =~= paths_view(new_paths@) + exts(
                                        pview,
                                        nbv.skip(j as int + 1),
                                    ));
                                    assert(paths_in_bounds(g, paths_view(new_paths@))) by {
                                        assert forall|a: int, b: int|
                                            0 <= a < paths_view(new_paths@).len() && 0 <= b
                                                < paths_view(new_paths@)[a].len() implies {
                                            let cell = #[trigger] paths_view(new_paths@)[a][b];
                                            0 <= cell.0 < g.len() && 0 <= cell.1 < g[0].len()
                                        } by {
                                            if a < newer_pre.len() {
                                                assert(paths_view(new_paths@)[a] == newer_pre[a]);
                                                assert(newer_pre[a][b] == paths_view(
                                                    new_paths@,
                                                )[a][b]);
                                            } else {
                                                assert(paths_view(new_paths@)[a] == pview.push(
                                                    nbv[j as int],
                                                ));
                                                if b < pview.len() {
                                                    assert(pview.push(nbv[j as int])[b]
                                                        == pview[b]);
                                                } else {
                                                    assert(pview.push(nbv[j as int])[b] == nbv[
                                                        j as int]);
                                                }
                                            }
                                        }
                                    }
                                }
                            } else {
                                proof {
                                    assert(exts(pview, nbv.skip(j as int)) == exts(
                                        pview,
                                        nbv.skip(j as int + 1),
                                    ));
                                }
                            }
                            j += 1;
                        }
                        proof {
                            assert(nbv.skip(nn as int) =~= Seq::<(i32, i32, i32)>::empty());
                            assert(exts(pview, nbv.skip(nn as int)) =~= Seq::<
                                Seq<(i32, i32, i32)>,
                            >::empty());
                            assert(paths_view(new_paths@) + Seq::<Seq<(i32, i32, i32)>>::empty()
                                =~= paths_view(new_paths@));
                            assert(spec_round(g, pv.skip(e as int)) == exts(pview, nbv)
                                + spec_round(g, pv.skip(e as int + 1)));
                        }
                    }
                }
                e += 1;
            }
            proof {
                assert(pv.skip(m as int) =~= Seq::<Seq<(i32, i32, i32)>>::empty());
                assert(spec_round(g, pv.skip(m as int)) =~= Seq::<Seq<(i32, i32, i32)>>::empty());
                assert(paths_view(new_paths@) + Seq::<Seq<(i32, i32, i32)>>::empty() =~=
                    paths_view(new_paths@));
                assert(paths_view(new_paths@) == spec_round(g, pv));
                assert(spec_rounds(g, pv, budget as nat) == spec_rounds(
                    g,
                    spec_round(g, pv),
                    (budget - 1) as nat,
                ));
            }
            paths = new_paths;
            budget -= 1;
        }
    }
}

/// The summits reached from one trailhead: the last cells of the paths
/// that start on it.
pub open spec fn ends_of(ps: Seq<Seq<(i32, i32, i32)>>, th: (i32, i32)) -> Seq<(i32, i32, i32)>
    decreases ps.len(),
{
    if ps.len() == 0 {
        Seq::empty()
    } else {
        let head: Seq<(i32, i32, i32)> = if ps[0].len() > 0 && ps[0][0] == (th.0, th.1, 0i32) {
            seq![ps[0].last()]
        } else {
            Seq::empty()
        };
        head + ends_of(ps.skip(1), th)
    }
}

/// The list with later repetitions dropped: first occurrences survive.
pub open spec fn spec_dedup(s: Seq<(i32, i32, i32)>) -> Seq<(i32, i32, i32)>
    decreases s.len(),
{
    if s.len() == 0 {
        Seq::empty()
    } else {
        let d = spec_dedup(s.drop_last());
        if s.drop_last().contains(s.last()) {
            d
        } else {
            d.push(s.last())
        }
    }
}

/// Deduplication keeps exactly the values of the list.
pub proof fn lemma_dedup_contains(s: Seq<(i32, i32, i32)>, x: (i32, i32, i32))
    ensures
        spec_dedup(s).contains(x) <==> s.contains(x),
    decreases s.len(),
{
    if s.len() > 0 {
        lemma_dedup_contains(s.drop_last(), x);
        let d = spec_dedup(s.drop_last());
        if s.drop_last().contains(s.last()) {
            if s.contains(x) {
                let ix = choose|ix: int| 0 <= ix < s.len() && s[ix] == x;
                if ix == s.len() - 1 {
                    assert(s.drop_last().contains(x));
                } else {
                    assert(s.drop_last()[ix] == x);
                }
            }
            if s.drop_last().contains(x) {
                let ix = choose|ix: int| 0 <= ix < s.drop_last().len() && s.drop_last()[ix] == x;
                assert(s[ix] == x);
            }
        } else {
            if s.contains(x) {
                let ix = choose|ix: int| 0 <= ix < s.len() && s[ix] == x;
                if ix == s.len() - 1 {
                    assert(spec_dedup(s)[spec_dedup(s).len() - 1] == x);
                } else {
                    assert(s.drop_last()[ix] == x);
                    assert(d.contains(x));
                    let dx = choose|dx: int| 0 <= dx < d.len() && d[dx] == x;
                    assert(spec_dedup(s)[dx] == x);
                }
            }
            if spec_dedup(s).contains(x) {
                let ix = choose|ix: int|
                    0 <= ix < spec_dedup(s).len() && spec_dedup(s)[ix] == x;
                if ix == spec_dedup(s).len() - 1 {
                    assert(x == s.last());
                    assert(s[s.len() - 1] == x);
                } else {
                    assert(d[ix] == x);
                    assert(d.contains(x));
                    let jx = choose|jx: int|
                        0 <= jx < s.drop_last().len() && s.drop_last()[jx] == x;
                    assert(s[jx] == x);
                }
            }
        }
    }
}

/// How many distinct values a list holds.
pub open spec fn count_distinct(s: Seq<(i32, i32, i32)>) -> int {
    spec_dedup(s).len() as int
}

/// The total score of the first `k` trailheads: each counts its distinct
/// summits.
pub open spec fn total_score(
    ps: Seq<Seq<(i32, i32, i32)>>,
    ths: Seq<(i32, i32)>,
    k: int,
) -> int
    decreases k,
{
    if k <= 0 {
        0
    } else {
        total_score(ps, ths, k - 1) + count_distinct(ends_of(ps, ths[k - 1]))
    }
}

/// Lists the summit cells reached from one trailhead.
fn ends_for(paths: &Vec<Vec<(i32, i32, i32)>>, th: (i32, i32)) -> (out: Vec<(i32, i32, i32)>)
    ensures
        out@ == ends_of(paths_view(paths@), th),
{
    let ghost pv = paths_view(paths@);
    let n = paths.len();
    let mut out: Vec<(i32, i32, i32)> = Vec::new();
    let mut i: usize = 0;
    proof {
        assert(pv.skip(0) =~= pv);
        assert(out@ + ends_of(pv, th) =~= ends_of(pv, th));
    }
    while i < n
        invariant
            i <= n,
            n == paths@.len(),
            pv == paths_view(paths@),
            ends_of(pv, th) == out@ + ends_of(pv.skip(i as int), th),
        decreases n - i,
    {
        let p = &paths[i];
        proof {
            assert(pv[i as int] == p@);
            assert(pv.skip(i as int)[0] == pv[i as int]);
            assert(pv.skip(i as int).skip(1) =~= pv.skip(i as int + 1));
        }
        let ghost pre = out@;
        let plen = p.len();
        if plen > 0 {
            let head = p[0];
            if head.0 == th.0 && head.1 == th.1 && head.2 == 0 {
                proof {
                    assert(p@[0] == (th.0, th.1, 0i32));
                }
                out.push(p[plen - 1]);
                proof {
                    assert(out@ =~= pre.push(pv[i as int].last()));
                    assert(pre + (seq![pv[i as int].last()] + ends_of(pv.skip(i as int + 1), th))
                        =~= out@ + ends_of(pv.skip(i as int + 1), th));
                }
            }
        }
        i += 1;
    }
    proof {
        assert(pv.skip(n as int) =~= Seq::<Seq<(i32, i32, i32)>>::empty());
        assert(ends_of(pv.skip(n as int), th) =~= Seq::<(i32, i32, i32)>::empty());
        assert(out@ + Seq::<(i32, i32, i32)>::empty() =~= out@);
    }
    out
}

/// Counts the distinct values of a list.
fn distinct_count(items: &Vec<(i32, i32, i32)>) -> (n: usize)
    ensures
        n == count_distinct(items@),
{
    let m = items.len();
    let mut seen: Vec<(i32, i32, i32)> = Vec::new();
    let mut i: usize = 0;
    proof {
        assert(items@.take(0) =~= Seq::<(i32, i32, i32)>::empty());
        assert(seen@ =~= spec_dedup(items@.take(0)));
    }
    while i < m
        invariant
            i <= m,
            m == items@.len(),
            seen@ == spec_dedup(items@.take(i as int)),
        decreases m - i,
    {
        let x = items[i];
        let ghost pre = seen@;
        proof {
            assert(items@.take(i + 1).drop_last() =~= items@.take(i as int));
            assert(items@.take(i + 1).last() == items@[i as int]);
            lemma_dedup_contains(items@.take(i as int), items@[i as int]);
        }
        if !path_contains(&seen, x) {
            seen.push(x);
            proof {
                assert(seen@ =~= pre.push(x));
            }
        }
        i += 1;
    }
    proof {
        assert(items@.take(m as int) =~= items@);
    }
    seen.len()
}

/// The height grid an input denotes.
pub open spec fn spec_heights(s: Seq<u8>) -> Seq<Seq<i32>> {
    Seq::new(
        scan::spec_lines(s).len(),
        |i: int|
            Seq::new(
                scan::spec_lines(s)[i].len(),
                |j: int| (scan::spec_lines(s)[i][j] - 48) as i32,
            ),
    )
}

pub open spec fn input_ok(s: Seq<u8>) -> bool {
    &&& scan::spec_lines(s).len() >= 1
    &&& scan::spec_lines(s)[0].len() >= 1
    &&& scan::spec_lines(s).len() <= 0x7fff_fffe
    &&& scan::spec_lines(s)[0].len() <= 0x7fff_fffe
    &&& forall|i: int|
        0 <= i < scan::spec_lines(s).len() ==> #[trigger] scan::spec_lines(s)[i].len()
            == scan::spec_lines(s)[0].len()
    &&& forall|i: int, j: int|
        0 <= i < scan::spec_lines(s).len() && 0 <= j < scan::spec_lines(s)[i].len()
            ==> scan::is_digit(#[trigger] scan::spec_lines(s)[i][j])
}

/// Reads the height map; None when the input is not a digit grid.
pub fn parse(input: &[u8]) -> (out: Option<Topology>)
    ensures
        match out {
            Some(t) => input_ok(input@) && t.wf() && t.view_grid() == spec_heights(input@),
            None => !input_ok(input@),
        },
{
    let ls = scan::lines(input);
    let ghost lv = scan::spec_lines(input@);
    if ls.len() == 0 {
        return None;
    }
    let cols = ls[0].len();
    if cols == 0 {
        proof {
            assert(lv[0] == ls@[0]@);
        }
        return None;
    }
    if ls.len() > 0x7fff_fffeusize || cols > 0x7fff_fffeusize {
        return None;
    }
    let mut rows: Vec<Vec<i32>> = Vec::new();
    let mut i: usize = 0;
    while i < ls.len()
        invariant
            i <= ls@.len(),
            scan::pieces_view(ls@) == lv,
            lv == scan::spec_lines(input@),
            cols == lv[0].len(),
            rows@.len() == i,
            forall|x: int| 0 <= x < i ==> #[trigger] lv[x].len() == lv[0].len(),
            forall|x: int, y: int|
                0 <= x < i && 0 <= y < lv[x].len() ==> scan::is_digit(#[trigger] lv[x][y]),
            forall|x: int| 0 <= x < i ==> (#[trigger] rows@[x])@ == spec_heights(input@)[x],
        decreases ls@.len() - i,
    {
        let line = &ls[i];
        proof {
            assert(lv[i as int] == line@);
        }
        if line.len() != cols {
            return None;
        }
        let mut row: Vec<i32> = Vec::new();
        let mut j: usize = 0;
        while j < cols
            invariant
                j <= cols,
                i < lv.len(),
                lv == scan::spec_lines(input@),
                line@ == lv[i as int],
                line@.len() == cols,
                row@.len() == j,
                forall|y: int| 0 <= y < j ==> scan::is_digit(#[trigger] lv[i as int][y]),
                forall|y: int|
                    0 <= y < j ==> #[trigger] row@[y] == (lv[i as int][y] - 48) as i32,
            decreases cols - j,
        {
            let b = line[j];
            if b < 48 || b > 57 {
                return None;
            }
            row.push((b - 48) as i32);
            j += 1;
        }
        rows.push(row);
        i += 1;
    }
    proof {
        assert(grid_view(rows@) =~~= spec_heights(input@));
        assert(grid_wf(grid_view(rows@))) by {
            assert(spec_heights(input@).len() == lv.len());
            assert(spec_heights(input@)[0].len() == lv[0].len());
            assert forall|x: int|
                0 <= x < grid_view(rows@).len() implies #[trigger] grid_view(rows@)[x].len()
                == grid_view(rows@)[0].len() by {
                assert(grid_view(rows@)[x] == spec_heights(input@)[x]);
                assert(grid_view(rows@)[0] == spec_heights(input@)[0]);
            }
        }
    }
    let topo = Topology::new(rows);
    Some(topo)
}

/// Both answers for one input: the sum of the trailheads' scores, and
/// the total number of distinct climbing paths.  None when the input is
/// not a digit grid, the round budget runs out, or a sum leaves usize.
pub fn run(input: &[u8]) -> (out: Option<(usize, usize)>)
    ensures
        ({
            let g = spec_heights(input@);
            let ths = spec_trailheads_row(g, 0, 0);
            match out {
                Some(ans) => {
                    &&& input_ok(input@)
                    &&& match spec_rounds(g, init_paths(g), rounds_budget()) {
                        Some(fin) => ans.0 == total_score(fin, ths, ths.len() as int) && ans.1
                            == fin.len(),
                        None => false,
                    }
                },
                None => {
                    ||| !input_ok(input@)
                    ||| spec_rounds(g, init_paths(g), rounds_budget()) is None
                    ||| match spec_rounds(g, init_paths(g), rounds_budget()) {
                        Some(fin) => exists|k: int|
                            0 <= k <= ths.len() && !(0 <= #[trigger] total_score(fin, ths, k)
                                <= usize::MAX),
                        None => true,
                    }
                },
            }
        }),
{
    let topo = match parse(input) {
        Some(t) => t,
        None => {
            return None;
        },
    };
    let ghost g = spec_heights(input@);
    let paths = match topo.find_paths() {
        Some(ps) => ps,
        None => {
            return None;
        },
    };
    let ghost fin = paths_view(paths@);
    let ths = topo.trailheads();
    let ghost thv = spec_trailheads_row(g, 0, 0);
    let n = ths.len();
    let mut score: usize = 0;
    let mut i: usize = 0;
    while i < n
        invariant
            i <= n,
            n == ths@.len(),
            ths@ == thv,
            g == spec_heights(input@),
            fin == paths_view(paths@),
            spec_rounds(g, init_paths(g), rounds_budget()) == Some(fin),
            thv == spec_trailheads_row(g, 0, 0),
            score == total_score(fin, thv, i as int),
            score >= 0,
        decreases n - i,
    {
        let ends = ends_for(&paths, ths[i]);
        let cnt = distinct_count(&ends);
        score = match score.checked_add(cnt) {
            Some(v) => v,
            None => {
                proof {
                    assert(total_score(fin, thv, i + 1) == score + cnt);
                    let fx = spec_rounds(g, init_paths(g), rounds_budget())->Some_0;
                    assert(fx == fin);
                    assert(0 <= i + 1 <= spec_trailheads_row(g, 0, 0).len() && !(0
                        <= total_score(fx, spec_trailheads_row(g, 0, 0), i + 1) <= usize::MAX));
                }
                return None;
            },
        };
        i += 1;
    }
    let rating = paths.len();
    Some((score, rating))
}

} // verus!
