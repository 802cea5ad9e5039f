//! Deterministic agent-patrol simulator with cycle detection and an
//! exhaustive obstruction search.
//!
//! An agent walks over a rectangular grid, turning right whenever the cell
//! ahead is obstructed, until it either steps off the grid or revisits a
//! (coordinate, heading) pair, which proves it is in a loop.  On top of the
//! single-trial engine sits a search that tries an extra obstruction on every
//! candidate cell and counts how many placements force a loop.
use rayon::iter::IntoParallelRefIterator;
use rayon::iter::ParallelIterator;
use vstd::prelude::*;

verus! {

/// A heading of the patrolling agent: one of the four cardinal directions.
#[derive(Copy, Clone, Debug, PartialEq, Eq, Structural)]
pub enum Direction {
    Up,
    Down,
    Left,
    Right,
}

/// The classification of a patrol step: the trial goes on, the agent
/// revisited a (coordinate, heading) pair, or it stepped off the grid.
#[derive(Copy, Clone, Debug, PartialEq, Eq, Structural)]
pub enum Outcome {
    Loop,
    OutOfBounds,
    Continue,
}

impl Direction {
    /// Rotating 90 degrees clockwise cycles Up -> Right -> Down -> Left -> Up.
    pub open spec fn spec_turn_right(self) -> Direction {
        match self {
            Direction::Up => Direction::Right,
            Direction::Right => Direction::Down,
            Direction::Down => Direction::Left,
            Direction::Left => Direction::Up,
        }
    }

    pub fn turn_right(self) -> (r: Direction)
        ensures
            r == self.spec_turn_right(),
    {
        match self {
            Direction::Up => Direction::Right,
            Direction::Right => Direction::Down,
            Direction::Down => Direction::Left,
            Direction::Left => Direction::Up,
        }
    }
}

/// Index of a heading within a cell's group of four visitation bits.
pub open spec fn dir_index(d: Direction) -> int {
    match d {
        Direction::Up => 0,
        Direction::Right => 1,
        Direction::Down => 2,
        Direction::Left => 3,
    }
}

/// Mathematical model of a grid: dimensions plus a row-major obstruction
/// bitset.
pub struct GridModel {
    pub rows: int,
    pub cols: int,
    pub obs: Seq<bool>,
}

/// Mathematical model of the agent: a coordinate and a heading.
pub struct AgentModel {
    pub row: int,
    pub col: int,
    pub heading: Direction,
}

impl GridModel {
    pub open spec fn wf(self) -> bool {
        &&& 1 <= self.rows
        &&& 1 <= self.cols
        &&& self.obs.len() == self.rows * self.cols
        &&& 4 * self.rows * self.cols <= usize::MAX
    }

    pub open spec fn in_bounds(self, r: int, c: int) -> bool {
        0 <= r < self.rows && 0 <= c < self.cols
    }

    pub open spec fn cell(self, r: int, c: int) -> int {
        r * self.cols + c
    }

    pub open spec fn obstructed(self, r: int, c: int) -> bool {
        self.obs[self.cell(r, c)]
    }

    /// The same grid with one more obstruction.
    pub open spec fn with_obstruction(self, r: int, c: int) -> GridModel {
        GridModel { obs: self.obs.update(self.cell(r, c), true), ..self }
    }

    pub open spec fn agent_ok(self, a: AgentModel) -> bool {
        self.in_bounds(a.row, a.col)
    }
}

/// A cell index is within the obstruction bitset.
pub proof fn lemma_cell_in_range(m: GridModel, r: int, c: int)
    requires
        m.wf(),
        m.in_bounds(r, c),
    ensures
        0 <= m.cell(r, c) < m.rows * m.cols,
{
    assert(0 <= r * m.cols + c < m.rows * m.cols) by (nonlinear_arith)
        requires
            0 <= r < m.rows,
            0 <= c < m.cols,
    ;
}

/// Bit index of a (coordinate, heading) pair in a visitation bitset.
pub open spec fn vbit(m: GridModel, r: int, c: int, d: Direction) -> int {
    m.cell(r, c) * 4 + dir_index(d)
}

/// A visitation bit index is within the visitation bitset.
pub proof fn lemma_vbit_in_range(m: GridModel, r: int, c: int, d: Direction)
    requires
        m.wf(),
        m.in_bounds(r, c),
    ensures
        0 <= vbit(m, r, c, d) < 4 * m.rows * m.cols,
        4 * m.cell(r, c) <= vbit(m, r, c, d) < 4 * m.cell(r, c) + 4,
{
    lemma_cell_in_range(m, r, c);
    assert(4 * m.rows * m.cols == 4 * (m.rows * m.cols)) by (nonlinear_arith);
}

/// Visitation bitsets are well formed when they carry one bit per
/// (coordinate, heading) pair of the grid.
pub open spec fn visited_wf(m: GridModel, v: Seq<bool>) -> bool {
    v.len() == 4 * m.rows * m.cols
}

/// The empty visitation record of a grid.
pub open spec fn empty_visited(m: GridModel) -> Seq<bool> {
    Seq::new((4 * m.rows * m.cols) as nat, |i: int| false)
}

/// Whether the visitation bitset records (r, c) under any heading.
pub open spec fn coord_visited(m: GridModel, v: Seq<bool>, r: int, c: int) -> bool {
    ||| v[vbit(m, r, c, Direction::Up)]
    ||| v[vbit(m, r, c, Direction::Right)]
    ||| v[vbit(m, r, c, Direction::Down)]
    ||| v[vbit(m, r, c, Direction::Left)]
}

/// Where a unit step from (r, c) along `d` lands, or None at the grid edge.
pub open spec fn spec_step_target(m: GridModel, r: int, c: int, d: Direction) -> Option<
    (int, int),
> {
    match d {
        Direction::Up => if r == 0 {
            None
        } else {
            Some((r - 1, c))
        },
        Direction::Down => if r == m.rows - 1 {
            None
        } else {
            Some((r + 1, c))
        },
        Direction::Left => if c == 0 {
            None
        } else {
            Some((r, c - 1))
        },
        Direction::Right => if c == m.cols - 1 {
            None
        } else {
            Some((r, c + 1))
        },
    }
}

/// One transition of the patrol engine: loop detection, recording, then a
/// turn, a move, or an exit.  Returns the outcome, the agent afterwards (to
/// be ignored on OutOfBounds) and the visitation bitset afterwards.
pub open spec fn spec_step(m: GridModel, a: AgentModel, v: Seq<bool>) -> (Outcome, AgentModel, Seq<
    bool,
>) {
    if v[vbit(m, a.row, a.col, a.heading)] {
        (Outcome::Loop, a, v)
    } else {
        let v2 = v.update(vbit(m, a.row, a.col, a.heading), true);
        match spec_step_target(m, a.row, a.col, a.heading) {
            None => (Outcome::OutOfBounds, a, v2),
            Some((r2, c2)) => if m.obstructed(r2, c2) {
                (Outcome::Continue, AgentModel { heading: a.heading.spec_turn_right(), ..a }, v2)
            } else {
                (Outcome::Continue, AgentModel { row: r2, col: c2, heading: a.heading }, v2)
            },
        }
    }
}

/// Running the engine with a step budget: None means the budget ran out
/// before a terminal outcome.
pub open spec fn spec_run(m: GridModel, a: AgentModel, v: Seq<bool>, fuel: nat) -> Option<
    (Outcome, Seq<bool>),
>
    decreases fuel,
{
    if fuel == 0 {
        None
    } else {
        let (o, a2, v2) = spec_step(m, a, v);
        if o == Outcome::Continue {
            spec_run(m, a2, v2, (fuel - 1) as nat)
        } else {
            Some((o, v2))
        }
    }
}

/// A step budget that always suffices: one more than the number of
/// (coordinate, heading) pairs of the grid.
pub open spec fn run_fuel(m: GridModel) -> nat {
    (4 * m.rows * m.cols + 1) as nat
}

/// The complete trial of a grid from a starting agent: outcome and the
/// final visitation record.
pub open spec fn spec_trial(m: GridModel, a: AgentModel) -> Option<(Outcome, Seq<bool>)> {
    spec_run(m, a, empty_visited(m), run_fuel(m))
}

/// Number of true bits in a bitset.
pub open spec fn count_true(s: Seq<bool>) -> int
    decreases s.len(),
{
    if s.len() == 0 {
        0
    } else {
        count_true(s.drop_last()) + if s.last() {
            1int
        } else {
            0int
        }
    }
}

pub proof fn lemma_count_true_bounds(s: Seq<bool>)
    ensures
        0 <= count_true(s) <= s.len(),
    decreases s.len(),
{
    if s.len() > 0 {
        lemma_count_true_bounds(s.drop_last());
    }
}

/// Setting a clear bit raises the count by exactly one.
pub proof fn lemma_count_true_update(s: Seq<bool>, i: int)
    requires
        0 <= i < s.len(),
        !s[i],
    ensures
        count_true(s.update(i, true)) == count_true(s) + 1,
    decreases s.len(),
{
    let t = s.update(i, true);
    if i == s.len() - 1 {
        assert(t.drop_last() =~= s.drop_last());
    } else {
        assert(t.drop_last() =~= s.drop_last().update(i, true));
        lemma_count_true_update(s.drop_last(), i);
    }
}

/// The engine preserves agent bounds and bitset shape, and records exactly
/// one new pair on every non-terminal step.
pub proof fn lemma_step_preserves(m: GridModel, a: AgentModel, v: Seq<bool>)
    requires
        m.wf(),
        m.agent_ok(a),
        visited_wf(m, v),
    ensures
        ({
            let (o, a2, v2) = spec_step(m, a, v);
            &&& visited_wf(m, v2)
            &&& (o == Outcome::Continue ==> m.agent_ok(a2))
            &&& (o != Outcome::Loop ==> count_true(v2) == count_true(v) + 1)
            &&& (o == Outcome::Loop ==> v2 == v)
        }),
{
    lemma_vbit_in_range(m, a.row, a.col, a.heading);
    let (o, a2, v2) = spec_step(m, a, v);
    if !v[vbit(m, a.row, a.col, a.heading)] {
        lemma_count_true_update(v, vbit(m, a.row, a.col, a.heading));
    }
}

/// Termination of the patrol (finite state space): with a budget above the
/// number of unrecorded (coordinate, heading) pairs, the run reaches a
/// terminal outcome.
pub proof fn lemma_run_terminates(m: GridModel, a: AgentModel, v: Seq<bool>, fuel: nat)
    requires
        m.wf(),
        m.agent_ok(a),
        visited_wf(m, v),
        fuel > 4 * m.rows * m.cols - count_true(v),
    ensures
        spec_run(m, a, v, fuel) is Some,
    decreases fuel,
{
    lemma_count_true_bounds(v);
    let (o, a2, v2) = spec_step(m, a, v);
    lemma_step_preserves(m, a, v);
    if o == Outcome::Continue {
        lemma_run_terminates(m, a2, v2, (fuel - 1) as nat);
    }
}

/// Every grid's trial terminates within its standard step budget, which is
/// bounded by one more than four times the cell count.
pub proof fn lemma_trial_terminates(m: GridModel, a: AgentModel)
    requires
        m.wf(),
        m.agent_ok(a),
    ensures
        spec_trial(m, a) is Some,
{
    assert(count_true(empty_visited(m)) == 0) by {
        lemma_count_empty((4 * m.rows * m.cols) as nat);
    }
    lemma_run_terminates(m, a, empty_visited(m), run_fuel(m));
}

proof fn lemma_count_empty(n: nat)
    ensures
        count_true(Seq::new(n, |i: int| false)) == 0,
    decreases n,
{
    let s = Seq::new(n, |i: int| false);
    if n > 0 {
        assert(s.drop_last() =~= Seq::new((n - 1) as nat, |i: int| false));
        lemma_count_empty((n - 1) as nat);
    }
}

/// Loop-detection soundness: the moment the engine stands on a
/// (coordinate, heading) pair already recorded, the very next step reports
/// Loop, and records and moves nothing; and only then.
pub proof fn lemma_loop_detected_at_revisit(m: GridModel, a: AgentModel, v: Seq<bool>)
    requires
        m.wf(),
        m.agent_ok(a),
        visited_wf(m, v),
    ensures
        spec_step(m, a, v).0 == Outcome::Loop <==> v[vbit(m, a.row, a.col, a.heading)],
        spec_step(m, a, v).0 == Outcome::Loop ==> spec_step(m, a, v).1 == a && spec_step(
            m,
            a,
            v,
        ).2 == v,
{
}

/// Determinism: a trial's outcome and visitation record are a function of
/// the grid and the starting agent alone, so running the same grid twice
/// gives identical results.
pub proof fn lemma_trial_deterministic(m1: GridModel, a1: AgentModel, m2: GridModel, a2: AgentModel)
    requires
        m1 == m2,
        a1 == a2,
    ensures
        spec_trial(m1, a1) == spec_trial(m2, a2),
{
}

/// Row-major bit indices of distinct in-bounds cells stay within the bitset
/// and do not collide.
proof fn lemma_bit_layout(rows: int, cols: int, r: int, c: int)
    by (nonlinear_arith)
    requires
        0 <= r < rows,
        0 <= c < cols,
    ensures
        0 <= (r * cols + c) * 4,
        (r * cols + c) * 4 + 3 < 4 * rows * cols,
        r * cols + c < rows * cols,
{
}

/// The patrolled grid: fixed dimensions and a row-major obstruction bitset.
/// The agent is held beside it, never inside it, so trial grids stay
/// immutable while a trial runs.
pub struct Grid {
    pub rows: usize,
    pub cols: usize,
    pub obstructed: Vec<bool>,
}

impl View for Grid {
    type V = GridModel;

    open spec fn view(&self) -> GridModel {
        GridModel { rows: self.rows as int, cols: self.cols as int, obs: self.obstructed@ }
    }
}

/// The patrolling agent: its coordinate and its heading.
#[derive(Copy, Clone, Debug, PartialEq, Eq, Structural)]
pub struct Agent {
    pub row: usize,
    pub col: usize,
    pub heading: Direction,
}

impl View for Agent {
    type V = AgentModel;

    open spec fn view(&self) -> AgentModel {
        AgentModel { row: self.row as int, col: self.col as int, heading: self.heading }
    }
}

impl Grid {
    /// Builds a grid when the arguments form one: positive dimensions, one
    /// bit per cell, and a bitset small enough to index.
    pub fn new(rows: usize, cols: usize, obstructed: Vec<bool>) -> (r: Option<Grid>)
        ensures
            match r {
                Some(g) => {
                    &&& g@.wf()
                    &&& g@.rows == rows
                    &&& g@.cols == cols
                    &&& g@.obs == obstructed@
                },
                None => !(1 <= rows && 1 <= cols && obstructed.len() == rows * cols && 4 * rows
                    * cols <= usize::MAX),
            },
    {
        if rows == 0 || cols == 0 {
            return None;
        }
        let cells = match rows.checked_mul(cols) {
            Some(n) => n,
            None => {
                return None;
            },
        };
        let bits = match cells.checked_mul(4) {
            Some(n) => n,
            None => {
                proof {
                    assert(4 * rows * cols == (rows * cols) * 4) by (nonlinear_arith);
                }
                return None;
            },
        };
        proof {
            assert(4 * rows * cols == (rows * cols) * 4) by (nonlinear_arith);
        }
        if obstructed.len() != cells {
            return None;
        }
        Some(Grid { rows, cols, obstructed })
    }

    /// Bounds-checked obstruction query for one cell.
    pub fn cell_at(&self, r: usize, c: usize) -> (b: bool)
        requires
            self@.wf(),
            self@.in_bounds(r as int, c as int),
        ensures
            b == self@.obstructed(r as int, c as int),
    {
        proof {
            lemma_bit_layout(self@.rows, self@.cols, r as int, c as int);
        }
        self.obstructed[r * self.cols + c]
    }

    /// Applies the unit translation for `d` to (r, c); None at the edge.
    pub fn step_target(&self, r: usize, c: usize, d: Direction) -> (t: Option<(usize, usize)>)
        requires
            self@.wf(),
            self@.in_bounds(r as int, c as int),
        ensures
            match t {
                None => spec_step_target(self@, r as int, c as int, d) is None,
                Some(p) => spec_step_target(self@, r as int, c as int, d) == Some(
                    (p.0 as int, p.1 as int),
                ),
            },
    {
        match d {
            Direction::Up => if r == 0 {
                None
            } else {
                Some((r - 1, c))
            },
            Direction::Down => if r == self.rows - 1 {
                None
            } else {
                Some((r + 1, c))
            },
            Direction::Left => if c == 0 {
                None
            } else {
                Some((r, c - 1))
            },
            Direction::Right => if c == self.cols - 1 {
                None
            } else {
                Some((r, c + 1))
            },
        }
    }

    /// A copy of the grid with one more obstruction at (r, c).
    pub fn with_obstruction(&self, r: usize, c: usize) -> (g: Grid)
        requires
            self@.wf(),
            self@.in_bounds(r as int, c as int),
        ensures
            g@ == self@.with_obstruction(r as int, c as int),
            g@.wf(),
    {
        let mut bits: Vec<bool> = Vec::new();
        let n = self.obstructed.len();
        let mut i: usize = 0;
        while i < n
            invariant
                i <= n,
                n == self.obstructed.len(),
                bits@ =~= self.obstructed@.take(i as int),
            decreases n - i,
        {
            bits.push(self.obstructed[i]);
            i += 1;
        }
        assert(bits@ =~= self.obstructed@);
        proof {
            lemma_bit_layout(self@.rows, self@.cols, r as int, c as int);
        }
        let idx = r * self.cols + c;
        bits[idx] = true;
        let g = Grid { rows: self.rows, cols: self.cols, obstructed: bits };
        assert(g@.obs =~= self@.with_obstruction(r as int, c as int).obs);
        g
    }
}

/// The per-trial record of every (coordinate, heading) pair observed, the
/// ground for loop detection.
pub struct VisitedSet {
    pub rows: usize,
    pub cols: usize,
    pub bits: Vec<bool>,
}

impl View for VisitedSet {
    type V = Seq<bool>;

    open spec fn view(&self) -> Seq<bool> {
        self.bits@
    }
}

impl VisitedSet {
    /// Shape agreement with a grid: one bit per (coordinate, heading) pair.
    pub open spec fn wf(self, m: GridModel) -> bool {
        &&& self.rows == m.rows
        &&& self.cols == m.cols
        &&& self.bits@.len() == 4 * m.rows * m.cols
    }

    /// The empty record for a grid.
    pub fn new(g: &Grid) -> (v: VisitedSet)
        requires
            g@.wf(),
        ensures
            v.wf(g@),
            v@ =~= empty_visited(g@),
    {
        proof {
            assert(4 * g@.rows * g@.cols == (g@.rows * g@.cols) * 4) by (nonlinear_arith);
        }
        let cells = g.rows * g.cols;
        let n = cells * 4;
        let mut bits: Vec<bool> = Vec::new();
        let mut i: usize = 0;
        while i < n
            invariant
                i <= n,
                bits@.len() == i,
                forall|j: int| 0 <= j < i ==> !bits@[j],
            decreases n - i,
        {
            bits.push(false);
            i += 1;
        }
        VisitedSet { rows: g.rows, cols: g.cols, bits }
    }

    /// Whether (r, c) under heading `d` has been recorded.
    pub fn contains(&self, r: usize, c: usize, d: Direction) -> (b: bool)
        requires
            r < self.rows,
            c < self.cols,
            self.bits@.len() == 4 * self.rows * self.cols,
        ensures
            b == self@[(r as int * self.cols + c) * 4 + dir_index(d)],
    {
        let _total = self.bits.len();
        proof {
            lemma_bit_layout(self.rows as int, self.cols as int, r as int, c as int);
        }
        let slot: usize = match d {
            Direction::Up => 0,
            Direction::Right => 1,
            Direction::Down => 2,
            Direction::Left => 3,
        };
        self.bits[(r * self.cols + c) * 4 + slot]
    }

    /// Records (r, c) under heading `d`.
    pub fn insert(&mut self, r: usize, c: usize, d: Direction)
        requires
            r < old(self).rows,
            c < old(self).cols,
            old(self).bits@.len() == 4 * old(self).rows * old(self).cols,
        ensures
            final(self).rows == old(self).rows,
            final(self).cols == old(self).cols,
            final(self)@ == old(self)@.update(
                (r as int * old(self).cols + c) * 4 + dir_index(d),
                true,
            ),
    {
        let _total = self.bits.len();
        proof {
            lemma_bit_layout(self.rows as int, self.cols as int, r as int, c as int);
        }
        let slot: usize = match d {
            Direction::Up => 0,
            Direction::Right => 1,
            Direction::Down => 2,
            Direction::Left => 3,
        };
        let idx = (r * self.cols + c) * 4 + slot;
        self.bits[idx] = true;
    }
}

/// Whether the bitset records the cell with index `cell` under any heading.
pub open spec fn cell_visited(v: Seq<bool>, cell: int) -> bool {
    ||| v[4 * cell]
    ||| v[4 * cell + 1]
    ||| v[4 * cell + 2]
    ||| v[4 * cell + 3]
}

/// Number of distinct visited coordinates among the first `k` cells.
pub open spec fn count_visited_cells(v: Seq<bool>, k: int) -> int
    decreases k,
{
    if k <= 0 {
        0
    } else {
        count_visited_cells(v, k - 1) + if cell_visited(v, k - 1) {
            1int
        } else {
            0int
        }
    }
}

impl VisitedSet {
    /// The number of distinct coordinates recorded, irrespective of heading.
    pub fn count_coords(&self) -> (n: usize)
        requires
            self.bits@.len() == 4 * self.rows * self.cols,
        ensures
            n == count_visited_cells(self@, self.rows as int * self.cols),
    {
        let _total = self.bits.len();
        proof {
            assert(4 * self.rows * self.cols == (self.rows * self.cols) * 4) by (nonlinear_arith);
        }
        let cells = self.rows * self.cols;
        let mut n: usize = 0;
        let mut i: usize = 0;
        while i < cells
            invariant
                i <= cells,
                cells == self.rows * self.cols,
                self.bits@.len() == 4 * self.rows * self.cols,
                self.bits@.len() == cells * 4,
                cells * 4 <= usize::MAX,
                n == count_visited_cells(self@, i as int),
                n <= i,
            decreases cells - i,
        {
            proof {
                assert(i * 4 + 3 < cells * 4) by (nonlinear_arith)
                    requires
                        i < cells,
                ;
                assert(cells * 4 == 4 * (self.rows * self.cols)) by (nonlinear_arith)
                    requires
                        cells == self.rows * self.cols,
                ;
                assert(4 * self.rows * self.cols == 4 * (self.rows as int * self.cols))
                    by (nonlinear_arith);
            }
            let base = i * 4;
            if self.bits[base] || self.bits[base + 1] || self.bits[base + 2] || self.bits[base
                + 3] {
                n += 1;
            }
            i += 1;
        }
        n
    }
}

/// One run of the patrol engine against one grid configuration: the agent
/// (None once it has exited) and the visitation record.
pub struct Trial {
    pub agent: Option<Agent>,
    pub visited: VisitedSet,
}

impl Trial {
    pub open spec fn wf(self, m: GridModel) -> bool {
        &&& self.visited.wf(m)
        &&& match self.agent {
            Some(a) => m.agent_ok(a@),
            None => true,
        }
    }

    /// A fresh trial of `g` starting from `start`.
    pub fn new(g: &Grid, start: Agent) -> (t: Trial)
        requires
            g@.wf(),
            g@.agent_ok(start@),
        ensures
            t.wf(g@),
            t.agent == Some(start),
            t.visited@ =~= empty_visited(g@),
    {
        Trial { agent: Some(start), visited: VisitedSet::new(g) }
    }

    /// The unique cell currently holding the agent; None once the agent has
    /// stepped off the grid.
    pub fn locate_agent(&self) -> (a: Option<Agent>)
        ensures
            a == self.agent,
    {
        self.agent
    }
}

/// Advances the simulation by a single step, as one engine transition:
/// report a revisit as Loop before anything else, otherwise record the
/// current pair and then turn, move, or exit.
pub fn advance(g: &Grid, t: &mut Trial) -> (o: Outcome)
    requires
        g@.wf(),
        old(t).wf(g@),
        old(t).agent is Some,
    ensures
        final(t).wf(g@),
        ({
            let a = old(t).agent->Some_0@;
            let (o2, a2, v2) = spec_step(g@, a, old(t).visited@);
            &&& o == o2
            &&& final(t).visited@ == v2
            &&& (o2 == Outcome::OutOfBounds ==> final(t).agent is None)
            &&& (o2 != Outcome::OutOfBounds ==> final(t).agent is Some
                && final(t).agent->Some_0@ == a2)
            &&& (o == Outcome::Loop <==> old(t).visited@[vbit(
                g@,
                a.row,
                a.col,
                a.heading,
            )])
            &&& (o == Outcome::Loop ==> *final(t) == *old(t))
        }),
{
    let a = t.agent.unwrap();
    proof {
        lemma_vbit_in_range(g@, a@.row, a@.col, a@.heading);
    }
    if t.visited.contains(a.row, a.col, a.heading) {
        return Outcome::Loop;
    }
    t.visited.insert(a.row, a.col, a.heading);
    match g.step_target(a.row, a.col, a.heading) {
        None => {
            t.agent = None;
            Outcome::OutOfBounds
        },
        Some((r2, c2)) => {
            if g.cell_at(r2, c2) {
                t.agent = Some(Agent { heading: a.heading.turn_right(), ..a });
            } else {
                t.agent = Some(Agent { row: r2, col: c2, ..a });
            }
            Outcome::Continue
        },
    }
}

/// The step budget still available for a partly recorded trial.
pub open spec fn fuel_left(m: GridModel, v: Seq<bool>) -> nat {
    (4 * m.rows * m.cols + 1 - count_true(v)) as nat
}

/// Repeatedly advances the trial until it yields Loop or OutOfBounds, and
/// returns that terminal outcome; the visitation record accumulates in the
/// trial.  Termination is owed to loop detection: every non-terminal step
/// records a pair never recorded before, and there are only
/// `4 * rows * cols` of them.
pub fn run_to_completion(g: &Grid, t: &mut Trial) -> (o: Outcome)
    requires
        g@.wf(),
        old(t).wf(g@),
        old(t).agent is Some,
    ensures
        final(t).wf(g@),
        o != Outcome::Continue,
        Some((o, final(t).visited@)) == spec_run(
            g@,
            old(t).agent->Some_0@,
            old(t).visited@,
            fuel_left(g@, old(t).visited@),
        ),
{
    let ghost m = g@;
    let ghost a0 = t.agent->Some_0@;
    let ghost v0 = t.visited@;
    let ghost target = spec_run(m, a0, v0, fuel_left(m, v0));
    let mut o = Outcome::Continue;
    while o == Outcome::Continue
        invariant
            g@ == m,
            m.wf(),
            t.wf(m),
            o == Outcome::Continue ==> t.agent is Some,
            o == Outcome::Continue ==> spec_run(
                m,
                t.agent->Some_0@,
                t.visited@,
                fuel_left(m, t.visited@),
            ) == target,
            o != Outcome::Continue ==> Some((o, t.visited@)) == target,
        decreases 4 * m.rows * m.cols - count_true(t.visited@), (if o == Outcome::Continue {
            1int
        } else {
            0int
        }),
    {
        let ghost a_pre = t.agent->Some_0@;
        let ghost v_pre = t.visited@;
        proof {
            lemma_count_true_bounds(v_pre);
            lemma_step_preserves(m, a_pre, v_pre);
        }
        o = advance(g, t);
        proof {
            let f = fuel_left(m, v_pre);
            assert(f >= 1);
            let (o2, a2, v2) = spec_step(m, a_pre, v_pre);
            assert(spec_run(m, a_pre, v_pre, f) == if o2 == Outcome::Continue {
                spec_run(m, a2, v2, (f - 1) as nat)
            } else {
                Some((o2, v2))
            });
            if o2 == Outcome::Continue {
                assert(fuel_left(m, v2) == (f - 1) as nat);
            }
            lemma_count_true_bounds(t.visited@);
        }
    }
    o
}

/// Runs one fresh trial of `g` from `start` to its terminal outcome.
pub fn run_trial(g: &Grid, start: Agent) -> (r: (Outcome, VisitedSet))
    requires
        g@.wf(),
        g@.agent_ok(start@),
    ensures
        r.1.wf(g@),
        Some((r.0, r.1@)) == spec_trial(g@, start@),
        r.0 != Outcome::Continue,
{
    let mut t = Trial::new(g, start);
    proof {
        lemma_count_empty((4 * g@.rows * g@.cols) as nat);
        assert(t.visited@ == empty_visited(g@));
        assert(fuel_left(g@, t.visited@) == run_fuel(g@));
    }
    let o = run_to_completion(g, &mut t);
    (o, t.visited)
}

/// The visitation record of the unobstructed baseline trial.
pub open spec fn baseline_visited(m: GridModel, a: AgentModel) -> Seq<bool> {
    (spec_trial(m, a)->Some_0).1
}

/// The number of distinct coordinates the baseline trial visits.
pub open spec fn spec_baseline_count(m: GridModel, a: AgentModel) -> int {
    count_visited_cells(baseline_visited(m, a), m.rows * m.cols)
}

/// The baseline answer: run the unobstructed grid to completion and count
/// the distinct coordinates visited, irrespective of heading.
pub fn baseline_visited_count(g: &Grid, start: Agent) -> (n: usize)
    requires
        g@.wf(),
        g@.agent_ok(start@),
    ensures
        n == spec_baseline_count(g@, start@),
{
    let (_o, vs) = run_trial(g, start);
    vs.count_coords()
}

/// Whether placing one extra obstruction at (r, c) makes the trial loop.
pub open spec fn spec_induces_loop(m: GridModel, a: AgentModel, r: int, c: int) -> bool {
    (spec_trial(m.with_obstruction(r, c), a)->Some_0).0 == Outcome::Loop
}

/// One independent trial of the obstruction search: a deep copy of the
/// grid with an obstruction added at (r, c), run to completion.
pub fn trial_induces_loop(g: &Grid, start: Agent, r: usize, c: usize) -> (b: bool)
    requires
        g@.wf(),
        g@.agent_ok(start@),
        g@.in_bounds(r as int, c as int),
    ensures
        b == spec_induces_loop(g@, start@, r as int, c as int),
{
    let g2 = g.with_obstruction(r, c);
    proof {
        lemma_trial_terminates(g2@, start@);
    }
    let (o, _vs) = run_trial(&g2, start);
    o == Outcome::Loop
}

/// The candidate coordinates among the first `k` cells: visited by the
/// baseline trial recorded in `v`, excluding the agent's own start.
pub open spec fn spec_candidates(m: GridModel, v: Seq<bool>, a: AgentModel, k: int) -> Seq<
    (usize, usize),
>
    decreases k,
{
    if k <= 0 {
        Seq::empty()
    } else {
        let pre = spec_candidates(m, v, a, k - 1);
        let r = (k - 1) / m.cols;
        let c = (k - 1) % m.cols;
        if cell_visited(v, k - 1) && !(r == a.row && c == a.col) {
            pre.push((r as usize, c as usize))
        } else {
            pre
        }
    }
}

/// Lists the candidate coordinates of a visitation record in row-major
/// order: every visited coordinate except the agent's start.  Unvisited
/// cells are pruned; `lemma_candidate_pruning` shows the pruning loses no
/// loop placement.
pub fn candidates(g: &Grid, vs: &VisitedSet, start: Agent) -> (out: Vec<(usize, usize)>)
    requires
        g@.wf(),
        vs.wf(g@),
    ensures
        out@ == spec_candidates(g@, vs@, start@, g@.rows * g@.cols),
{
    proof {
        assert(4 * g@.rows * g@.cols == (g@.rows * g@.cols) * 4) by (nonlinear_arith);
    }
    let cells = g.rows * g.cols;
    let mut out: Vec<(usize, usize)> = Vec::new();
    let mut k: usize = 0;
    while k < cells
        invariant
            k <= cells,
            cells == g.rows * g.cols,
            g@.wf(),
            vs.wf(g@),
            vs.bits@.len() == cells * 4,
            cells * 4 <= usize::MAX,
            out@ == spec_candidates(g@, vs@, start@, k as int),
        decreases cells - k,
    {
        proof {
            assert(k * 4 + 3 < cells * 4) by (nonlinear_arith)
                requires
                    k < cells,
            ;
        }
        let base = k * 4;
        let visited_here = vs.bits[base] || vs.bits[base + 1] || vs.bits[base + 2] || vs.bits[base
            + 3];
        let r = k / g.cols;
        let c = k % g.cols;
        if visited_here && !(r == start.row && c == start.col) {
            out.push((r, c));
        }
        k += 1;
    }
    out
}

/// Whether the cell with index `k` is a candidate of the baseline trial.
pub open spec fn candidate_cell(m: GridModel, a: AgentModel, k: int) -> bool {
    cell_visited(baseline_visited(m, a), k) && !(k / m.cols == a.row && k % m.cols == a.col)
}

/// Number of candidate cells among the first `k` whose obstruction makes
/// the trial loop.
pub open spec fn count_loop_candidates(m: GridModel, a: AgentModel, k: int) -> int
    decreases k,
{
    if k <= 0 {
        0
    } else {
        count_loop_candidates(m, a, k - 1) + if candidate_cell(m, a, k - 1) && spec_induces_loop(
            m,
            a,
            (k - 1) / m.cols,
            (k - 1) % m.cols,
        ) {
            1int
        } else {
            0int
        }
    }
}

/// The obstruction-search answer: how many candidate placements force a
/// loop.
pub open spec fn spec_loop_count(m: GridModel, a: AgentModel) -> int {
    count_loop_candidates(m, a, m.rows * m.cols)
}

/// Serial obstruction search: runs the baseline once, then one independent
/// trial per candidate coordinate, counting the Loop outcomes.
pub fn obstruction_search_serial(g: &Grid, start: Agent) -> (n: usize)
    requires
        g@.wf(),
        g@.agent_ok(start@),
    ensures
        n == spec_loop_count(g@, start@),
{
    let (_o, vs) = run_trial(g, start);
    proof {
        assert(4 * g@.rows * g@.cols == (g@.rows * g@.cols) * 4) by (nonlinear_arith);
    }
    let cells = g.rows * g.cols;
    let mut n: usize = 0;
    let mut k: usize = 0;
    while k < cells
        invariant
            k <= cells,
            cells == g.rows * g.cols,
            g@.wf(),
            g@.agent_ok(start@),
            vs.wf(g@),
            vs@ == baseline_visited(g@, start@),
            vs.bits@.len() == cells * 4,
            cells * 4 <= usize::MAX,
            n == count_loop_candidates(g@, start@, k as int),
            n <= k,
        decreases cells - k,
    {
        proof {
            assert(k * 4 + 3 < cells * 4) by (nonlinear_arith)
                requires
                    k < cells,
            ;
            assert(0 <= k as int / g@.cols < g@.rows && 0 <= k as int % g@.cols < g@.cols)
                by (nonlinear_arith)
                requires
                    0 <= k < g@.rows * g@.cols,
                    1 <= g@.cols,
            ;
        }
        let base = k * 4;
        let visited_here = vs.bits[base] || vs.bits[base + 1] || vs.bits[base + 2] || vs.bits[base
            + 3];
        let r = k / g.cols;
        let c = k % g.cols;
        if visited_here && !(r == start.row && c == start.col) {
            if trial_induces_loop(g, start, r, c) {
                n += 1;
            }
        }
        k += 1;
    }
    n
}

/// Distinct in-bounds coordinates have distinct cell indices.
pub proof fn lemma_cell_injective(m: GridModel, r1: int, c1: int, r2: int, c2: int)
    by (nonlinear_arith)
    requires
        m.wf(),
        m.in_bounds(r1, c1),
        m.in_bounds(r2, c2),
        m.cell(r1, c1) == m.cell(r2, c2),
    ensures
        r1 == r2 && c1 == c2,
{
}

/// A run only ever adds visitation bits: whatever `v` records, the final
/// record still holds.
pub proof fn lemma_run_monotonic(m: GridModel, a: AgentModel, v: Seq<bool>, fuel: nat)
    requires
        m.wf(),
        m.agent_ok(a),
        visited_wf(m, v),
        spec_run(m, a, v, fuel) is Some,
    ensures
        ({
            let vf = (spec_run(m, a, v, fuel)->Some_0).1;
            &&& visited_wf(m, vf)
            &&& forall|i: int| 0 <= i < v.len() && v[i] ==> vf[i]
        }),
    decreases fuel,
{
    let (o, a2, v2) = spec_step(m, a, v);
    lemma_step_preserves(m, a, v);
    lemma_vbit_in_range(m, a.row, a.col, a.heading);
    if o == Outcome::Continue {
        lemma_run_monotonic(m, a2, v2, (fuel - 1) as nat);
    }
}

/// The coordinate the agent stands on when a run starts is recorded in the
/// run's final visitation record.
pub proof fn lemma_run_pos_visited(m: GridModel, a: AgentModel, v: Seq<bool>, fuel: nat)
    requires
        m.wf(),
        m.agent_ok(a),
        visited_wf(m, v),
        spec_run(m, a, v, fuel) is Some,
    ensures
        coord_visited(m, (spec_run(m, a, v, fuel)->Some_0).1, a.row, a.col),
{
    let (o, a2, v2) = spec_step(m, a, v);
    lemma_step_preserves(m, a, v);
    lemma_vbit_in_range(m, a.row, a.col, a.heading);
    if o == Outcome::Continue {
        lemma_run_monotonic(m, a2, v2, (fuel - 1) as nat);
    }
}

/// A visitation record that only holds unobstructed coordinates.
pub open spec fn clear_coords(m: GridModel, v: Seq<bool>) -> bool {
    forall|r: int, c: int|
        m.in_bounds(r, c) && #[trigger] coord_visited(m, v, r, c) ==> !m.obstructed(r, c)
}

/// The agent never stands on an obstruction, so a run records unobstructed
/// coordinates only.
pub proof fn lemma_run_clear_coords(m: GridModel, a: AgentModel, v: Seq<bool>, fuel: nat)
    requires
        m.wf(),
        m.agent_ok(a),
        visited_wf(m, v),
        !m.obstructed(a.row, a.col),
        clear_coords(m, v),
        spec_run(m, a, v, fuel) is Some,
    ensures
        clear_coords(m, (spec_run(m, a, v, fuel)->Some_0).1),
    decreases fuel,
{
    let (o, a2, v2) = spec_step(m, a, v);
    lemma_step_preserves(m, a, v);
    lemma_vbit_in_range(m, a.row, a.col, a.heading);
    if o == Outcome::Loop {
    } else {
        assert(clear_coords(m, v2)) by {
            assert forall|r: int, c: int|
                m.in_bounds(r, c) && #[trigger] coord_visited(m, v2, r, c) implies !m.obstructed(
                r,
                c,
            ) by {
                if r == a.row && c == a.col {
                } else {
                    lemma_vbit_in_range(m, r, c, Direction::Up);
                    lemma_vbit_in_range(m, r, c, Direction::Right);
                    lemma_vbit_in_range(m, r, c, Direction::Down);
                    lemma_vbit_in_range(m, r, c, Direction::Left);
                    if m.cell(r, c) == m.cell(a.row, a.col) {
                        lemma_cell_injective(m, r, c, a.row, a.col);
                    }
                    assert(coord_visited(m, v, r, c));
                }
            }
        }
        if o == Outcome::Continue {
            lemma_run_clear_coords(m, a2, v2, (fuel - 1) as nat);
        }
    }
}

/// The heart of candidate pruning: an obstruction placed on a coordinate
/// that the run never visits leaves the whole run unchanged, because the
/// agent never even queries that cell.
pub proof fn lemma_obstruction_preserves_run(
    m: GridModel,
    a: AgentModel,
    v: Seq<bool>,
    fuel: nat,
    r: int,
    c: int,
)
    requires
        m.wf(),
        m.agent_ok(a),
        visited_wf(m, v),
        m.in_bounds(r, c),
        !m.obstructed(r, c),
        spec_run(m, a, v, fuel) is Some,
        !coord_visited(m, (spec_run(m, a, v, fuel)->Some_0).1, r, c),
    ensures
        spec_run(m.with_obstruction(r, c), a, v, fuel) == spec_run(m, a, v, fuel),
    decreases fuel,
{
    let m2 = m.with_obstruction(r, c);
    let vf = (spec_run(m, a, v, fuel)->Some_0).1;
    lemma_cell_in_range(m, r, c);
    assert(m2.wf());
    let (o, a2, v2) = spec_step(m, a, v);
    lemma_step_preserves(m, a, v);
    lemma_vbit_in_range(m, a.row, a.col, a.heading);
    // Loop detection and recording read the visitation record alone, and
    // the bit layout of both grids is the same.
    assert(vbit(m2, a.row, a.col, a.heading) == vbit(m, a.row, a.col, a.heading));
    if v[vbit(m, a.row, a.col, a.heading)] {
    } else {
        match spec_step_target(m, a.row, a.col, a.heading) {
            None => {
                assert(spec_step_target(m2, a.row, a.col, a.heading) is None);
            },
            Some((r2, c2)) => {
                assert(m.in_bounds(r2, c2));
                if r2 == r && c2 == c {
                    // The target would be the newly obstructed cell; but in
                    // the unobstructed grid the agent then walks onto it, so
                    // the cell would end up visited, against the hypothesis.
                    assert(o == Outcome::Continue);
                    assert(a2 == AgentModel { row: r2, col: c2, heading: a.heading });
                    assert(spec_run(m, a2, v2, (fuel - 1) as nat) == spec_run(m, a, v, fuel));
                    lemma_run_pos_visited(m, a2, v2, (fuel - 1) as nat);
                    assert(false);
                } else {
                    lemma_cell_in_range(m, r2, c2);
                    if m.cell(r2, c2) == m.cell(r, c) {
                        lemma_cell_injective(m, r2, c2, r, c);
                    }
                    assert(m2.obstructed(r2, c2) == m.obstructed(r2, c2));
                    if o == Outcome::Continue {
                        lemma_obstruction_preserves_run(m, a2, v2, (fuel - 1) as nat, r, c);
                    }
                }
            },
        }
    }
}

/// Number of unobstructed non-start cells among the first `k` whose
/// obstruction makes the trial loop: the unrestricted brute force.
pub open spec fn count_loops_brute(m: GridModel, a: AgentModel, k: int) -> int
    decreases k,
{
    if k <= 0 {
        0
    } else {
        count_loops_brute(m, a, k - 1) + if !m.obs[k - 1] && !((k - 1) / m.cols == a.row && (k - 1)
            % m.cols == a.col) && spec_induces_loop(m, a, (k - 1) / m.cols, (k - 1) % m.cols) {
            1int
        } else {
            0int
        }
    }
}

/// One cell of the pruning argument: for a baseline that exits the grid,
/// a cell is a loop-inducing brute-force placement exactly when it is a
/// loop-inducing candidate placement.
proof fn lemma_pruning_cell(m: GridModel, a: AgentModel, k: int)
    requires
        m.wf(),
        m.agent_ok(a),
        !m.obstructed(a.row, a.col),
        spec_trial(m, a) is Some,
        (spec_trial(m, a)->Some_0).0 == Outcome::OutOfBounds,
        0 <= k < m.rows * m.cols,
    ensures
        ({
            let r = k / m.cols;
            let c = k % m.cols;
            (!m.obs[k] && !(r == a.row && c == a.col) && spec_induces_loop(m, a, r, c)) == (
            candidate_cell(m, a, k) && spec_induces_loop(m, a, r, c))
        }),
{
    let r = k / m.cols;
    let c = k % m.cols;
    assert(0 <= r < m.rows && 0 <= c < m.cols && r * m.cols + c == k) by (nonlinear_arith)
        requires
            0 <= k < m.rows * m.cols,
            1 <= m.cols,
            r == k / m.cols,
            c == k % m.cols,
    ;
    assert(m.cell(r, c) == k);
    let vf = baseline_visited(m, a);
    let empty = empty_visited(m);
    assert(cell_visited(vf, k) == coord_visited(m, vf, r, c));
    if cell_visited(vf, k) {
        // A visited coordinate is never obstructed.
        assert(clear_coords(m, empty)) by {
            assert forall|r0: int, c0: int|
                m.in_bounds(r0, c0) && #[trigger] coord_visited(m, empty, r0, c0) implies !m
                .obstructed(r0, c0) by {
                lemma_vbit_in_range(m, r0, c0, Direction::Up);
                lemma_vbit_in_range(m, r0, c0, Direction::Right);
                lemma_vbit_in_range(m, r0, c0, Direction::Down);
                lemma_vbit_in_range(m, r0, c0, Direction::Left);
            }
        }
        lemma_run_clear_coords(m, a, empty, run_fuel(m));
        assert(coord_visited(m, vf, r, c));
        assert(!m.obstructed(r, c));
    }
    if !m.obs[k] && !cell_visited(vf, k) {
        // Obstructing an unvisited cell leaves the whole baseline run,
        // and so its OutOfBounds outcome, unchanged.
        lemma_obstruction_preserves_run(m, a, empty, run_fuel(m), r, c);
        let m2 = m.with_obstruction(r, c);
        assert(empty_visited(m2) == empty);
        assert(run_fuel(m2) == run_fuel(m));
        assert(spec_trial(m2, a) == spec_trial(m, a));
        assert(!spec_induces_loop(m, a, r, c));
    }
}

/// Candidate pruning is lossless for the first `k` cells.
proof fn lemma_pruning_upto(m: GridModel, a: AgentModel, k: int)
    requires
        m.wf(),
        m.agent_ok(a),
        !m.obstructed(a.row, a.col),
        spec_trial(m, a) is Some,
        (spec_trial(m, a)->Some_0).0 == Outcome::OutOfBounds,
        0 <= k <= m.rows * m.cols,
    ensures
        count_loops_brute(m, a, k) == count_loop_candidates(m, a, k),
    decreases k,
{
    if k > 0 {
        lemma_pruning_upto(m, a, k - 1);
        lemma_pruning_cell(m, a, k - 1);
    }
}

/// Candidate pruning correctness: when the unobstructed baseline exits the
/// grid, the obstruction search restricted to baseline-visited coordinates
/// counts exactly as many loop placements as the unrestricted brute force
/// over every unobstructed non-start cell.  An obstruction on a coordinate
/// the baseline never visits is never queried, so it cannot change the
/// baseline outcome.
pub proof fn lemma_candidate_pruning(m: GridModel, a: AgentModel)
    requires
        m.wf(),
        m.agent_ok(a),
        !m.obstructed(a.row, a.col),
        (spec_trial(m, a)->Some_0).0 == Outcome::OutOfBounds,
    ensures
        count_loops_brute(m, a, m.rows * m.cols) == spec_loop_count(m, a),
{
    lemma_trial_terminates(m, a);
    lemma_pruning_upto(m, a, m.rows * m.cols);
}

/// Number of coordinates in the list whose obstruction makes the trial
/// loop: the per-candidate aggregation that the search workers compute.
pub open spec fn count_induced(m: GridModel, a: AgentModel, cs: Seq<(usize, usize)>) -> int
    decreases cs.len(),
{
    if cs.len() == 0 {
        0
    } else {
        count_induced(m, a, cs.drop_last()) + if spec_induces_loop(
            m,
            a,
            cs.last().0 as int,
            cs.last().1 as int,
        ) {
            1int
        } else {
            0int
        }
    }
}

/// Every candidate coordinate lies on the grid.
pub proof fn lemma_candidates_in_bounds(m: GridModel, v: Seq<bool>, a: AgentModel, k: int)
    requires
        m.wf(),
        k <= m.rows * m.cols,
    ensures
        forall|i: int|
            0 <= i < spec_candidates(m, v, a, k).len() ==> m.in_bounds(
                #[trigger] spec_candidates(m, v, a, k)[i].0 as int,
                spec_candidates(m, v, a, k)[i].1 as int,
            ),
    decreases k,
{
    if k > 0 {
        lemma_candidates_in_bounds(m, v, a, k - 1);
        assert(0 <= (k - 1) / m.cols < m.rows && 0 <= (k - 1) % m.cols < m.cols)
            by (nonlinear_arith)
            requires
                0 <= k - 1 < m.rows * m.cols,
                1 <= m.cols,
        ;
        assert((k - 1) / m.cols <= usize::MAX && (k - 1) % m.cols <= usize::MAX)
            by (nonlinear_arith)
            requires
                0 <= k - 1 < m.rows * m.cols,
                1 <= m.cols,
                1 <= m.rows,
                4 * m.rows * m.cols <= usize::MAX,
        ;
        let cur = spec_candidates(m, v, a, k);
        let pre = spec_candidates(m, v, a, k - 1);
        assert forall|i: int| 0 <= i < cur.len() implies m.in_bounds(
            #[trigger] cur[i].0 as int,
            cur[i].1 as int,
        ) by {
            if i < pre.len() {
                assert(cur[i] == pre[i]);
                assert(m.in_bounds(pre[i].0 as int, pre[i].1 as int));
            }
        }
    }
}

/// Counting loop placements candidate by candidate over the row-major
/// candidate list agrees with counting them cell by cell: dispatch order
/// does not matter, the aggregation is a plain count.
pub proof fn lemma_count_induced_matches(m: GridModel, a: AgentModel, k: int)
    requires
        m.wf(),
        0 <= k <= m.rows * m.cols,
    ensures
        count_induced(m, a, spec_candidates(m, baseline_visited(m, a), a, k))
            == count_loop_candidates(m, a, k),
    decreases k,
{
    if k > 0 {
        lemma_count_induced_matches(m, a, k - 1);
        let v = baseline_visited(m, a);
        let pre = spec_candidates(m, v, a, k - 1);
        let r = (k - 1) / m.cols;
        let c = (k - 1) % m.cols;
        assert(0 <= r < m.rows && 0 <= c < m.cols) by (nonlinear_arith)
            requires
                0 <= k - 1 < m.rows * m.cols,
                1 <= m.cols,
                r == (k - 1) / m.cols,
                c == (k - 1) % m.cols,
        ;
        assert(r <= usize::MAX && c <= usize::MAX) by (nonlinear_arith)
            requires
                0 <= r < m.rows,
                0 <= c < m.cols,
                1 <= m.rows,
                1 <= m.cols,
                4 * m.rows * m.cols <= usize::MAX,
        ;
        if cell_visited(v, k - 1) && !(r == a.row && c == a.col) {
            let p = ((r as usize), (c as usize));
            assert(pre.push(p).drop_last() =~= pre);
            assert(pre.push(p).last() == p);
            assert(p.0 as int == r && p.1 as int == c);
        }
    }
}

/// Relies on rayon's parallel iterators: `par_iter().filter(p).count()`
/// returns the number of elements satisfying the pure predicate `p`,
/// exactly as the sequential count would; the predicate here is the
/// verified `trial_induces_loop`, so worker scheduling cannot change the
/// result.
#[verifier::external_body]
fn count_loops_parallel(g: &Grid, start: Agent, cands: &Vec<(usize, usize)>) -> (n: usize)
    requires
        g@.wf(),
        g@.agent_ok(start@),
        forall|i: int|
            0 <= i < cands@.len() ==> g@.in_bounds(
                #[trigger] cands@[i].0 as int,
                cands@[i].1 as int,
            ),
    ensures
        n == count_induced(g@, start@, cands@),
{
    cands.par_iter().filter(|rc| trial_induces_loop(g, start, rc.0, rc.1)).count()
}

/// The obstruction search: run the unobstructed baseline once, take every
/// visited coordinate except the agent's start as a candidate, and count,
/// across independent parallel trials on deep copies of the grid, how many
/// single obstructions force a loop.
pub fn obstruction_search(g: &Grid, start: Agent) -> (n: usize)
    requires
        g@.wf(),
        g@.agent_ok(start@),
    ensures
        n == spec_loop_count(g@, start@),
{
    let (_o, vs) = run_trial(g, start);
    let cands = candidates(g, &vs, start);
    proof {
        lemma_candidates_in_bounds(g@, vs@, start@, g@.rows * g@.cols);
        lemma_count_induced_matches(g@, start@, g@.rows * g@.cols);
    }
    count_loops_parallel(g, start, &cands)
}

/// The cell glyphs of the textual grid format.
pub open spec fn is_glyph(b: u8) -> bool {
    b == 35 || b == 94 || b == 60 || b == 62 || b == 86 || b == 46
}

/// The glyphs that place the agent with a heading.
pub open spec fn is_agent_glyph(b: u8) -> bool {
    b == 94 || b == 60 || b == 62 || b == 86
}

/// The heading that an agent glyph denotes.
pub open spec fn glyph_heading(b: u8) -> Direction {
    if b == 94 {
        Direction::Up
    } else if b == 60 {
        Direction::Left
    } else if b == 62 {
        Direction::Right
    } else {
        Direction::Down
    }
}

/// Length of the leading run of cell glyphs: the next row of the grid.
pub open spec fn row_len(s: Seq<u8>) -> int
    decreases s.len(),
{
    if s.len() == 0 || !is_glyph(s[0]) {
        0
    } else {
        1 + row_len(s.skip(1))
    }
}

pub proof fn lemma_row_len_bound(s: Seq<u8>)
    ensures
        0 <= row_len(s) <= s.len(),
    decreases s.len(),
{
    if s.len() > 0 && is_glyph(s[0]) {
        lemma_row_len_bound(s.skip(1));
    }
}

/// A run of `k` glyphs followed by the end or a non-glyph byte is the
/// leading row.
pub proof fn lemma_row_len_is(s: Seq<u8>, k: int)
    requires
        0 <= k <= s.len(),
        forall|x: int| 0 <= x < k ==> is_glyph(#[trigger] s[x]),
        k < s.len() ==> !is_glyph(s[k]),
    ensures
        row_len(s) == k,
    decreases k,
{
    if k > 0 {
        lemma_row_len_is(s.skip(1), k - 1);
    }
}

/// The grammar of the textual grid: one or more rows of cell glyphs, each
/// followed by a line break (\n or \r\n), the last one optional.  None is
/// a syntax error: a stray byte, an empty row, or a lone carriage return.
/// The empty input parses to no rows; the grid construction rejects it.
pub open spec fn spec_rows(s: Seq<u8>) -> Option<Seq<Seq<u8>>>
    decreases s.len(),
        via spec_rows_decreases
{
    if s.len() == 0 {
        Some(Seq::empty())
    } else {
        let k = row_len(s);
        if k == 0 {
            None
        } else {
            let row = s.take(k);
            let rest = s.skip(k);
            if rest.len() == 0 {
                Some(seq![row])
            } else if rest[0] == 10 {
                match spec_rows(rest.skip(1)) {
                    Some(rs) => Some(seq![row] + rs),
                    None => None,
                }
            } else if rest[0] == 13 && rest.len() >= 2 && rest[1] == 10 {
                match spec_rows(rest.skip(2)) {
                    Some(rs) => Some(seq![row] + rs),
                    None => None,
                }
            } else {
                None
            }
        }
    }
}

#[via_fn]
proof fn spec_rows_decreases(s: Seq<u8>) {
    lemma_row_len_bound(s);
}

/// The views of a list of byte rows.
pub open spec fn rows_view(rows: Seq<Vec<u8>>) -> Seq<Seq<u8>> {
    Seq::new(rows.len(), |i: int| rows[i]@)
}

fn glyph_exec(b: u8) -> (r: bool)
    ensures
        r == is_glyph(b),
{
    b == 35 || b == 94 || b == 60 || b == 62 || b == 86 || b == 46
}

/// Splits the input into its rows of cell glyphs; None on a syntax error.
pub fn parse_rows(s: &[u8]) -> (out: Option<Vec<Vec<u8>>>)
    ensures
        match out {
            Some(rows) => spec_rows(s@) == Some(rows_view(rows@)),
            None => spec_rows(s@) is None,
        },
{
    let n = s.len();
    let mut done: Vec<Vec<u8>> = Vec::new();
    let mut i: usize = 0;
    proof {
        assert(s@.skip(0) =~= s@);
        if spec_rows(s@) is Some {
            assert(rows_view(done@) + spec_rows(s@)->Some_0 =~~= spec_rows(s@)->Some_0);
        }
    }
    while i < n
        invariant
            i <= n,
            n == s@.len(),
            spec_rows(s@.skip(i as int)) is Some ==> spec_rows(s@) == Some(
                rows_view(done@) + spec_rows(s@.skip(i as int))->Some_0,
            ),
            spec_rows(s@.skip(i as int)) is None ==> spec_rows(s@) is None,
        decreases n - i,
    {
        let ghost i0 = i as int;
        let ghost t = s@.skip(i0);
        let mut j = i;
        while j < n && glyph_exec(s[j])
            invariant
                i <= j <= n,
                n == s@.len(),
                forall|x: int| i <= x < j ==> is_glyph(#[trigger] s@[x]),
            decreases n - j,
        {
            j += 1;
        }
        proof {
            assert(forall|x: int| 0 <= x < j - i0 ==> t[x] == s@[i0 + x]);
            lemma_row_len_is(t, j - i0);
        }
        if j == i {
            return None;
        }
        let mut row: Vec<u8> = Vec::new();
        let mut x = i;
        while x < j
            invariant
                i <= x <= j <= n,
                n == s@.len(),
                row@ =~= s@.subrange(i as int, x as int),
            decreases j - x,
        {
            row.push(s[x]);
            x += 1;
        }
        proof {
            assert(row@ =~= t.take(j - i0));
            assert(t.skip(j - i0) =~= s@.skip(j as int));
        }
        let ghost done_pre = done@;
        let next_i: usize;
        if j == n {
            next_i = n;
        } else if s[j] == 10 {
            next_i = j + 1;
            proof {
                assert(t.skip(j - i0).skip(1) =~= s@.skip(j + 1));
            }
        } else if s[j] == 13 && j + 1 < n && s[j + 1] == 10 {
            next_i = j + 2;
            proof {
                assert(t.skip(j - i0).skip(2) =~= s@.skip(j + 2));
            }
        } else {
            proof {
                assert(t.skip(j - i0).len() > 0);
                assert(t.skip(j - i0)[0] == s@[j as int]);
                if s@[j as int] == 13 {
                    if j + 1 < n {
                        assert(t.skip(j - i0)[1] == s@[j + 1]);
                    }
                }
                assert(spec_rows(t) is None);
            }
            return None;
        }
        done.push(row);
        proof {
            assert(rows_view(done@) =~~= rows_view(done_pre).push(row@));
            let rest = t.skip(j - i0);
            if j == n {
                assert(rest.len() == 0);
                assert(spec_rows(t) == Some(seq![row@]));
                assert(s@.skip(n as int).len() == 0);
                assert(spec_rows(s@.skip(n as int)) == Some(Seq::<Seq<u8>>::empty()));
                assert(rows_view(done_pre) + seq![row@] =~~= rows_view(done@));
                assert(rows_view(done@) + Seq::<Seq<u8>>::empty() =~~= rows_view(done@));
            } else {
                let tail = s@.skip(next_i as int);
                assert(spec_rows(t) == match spec_rows(tail) {
                    Some(rs) => Some(seq![row@] + rs),
                    None => None,
                });
                if spec_rows(tail) is Some {
                    let rs = spec_rows(tail)->Some_0;
                    assert(rows_view(done_pre) + (seq![row@] + rs) =~~= rows_view(done@) + rs);
                }
            }
        }
        i = next_i;
    }
    proof {
        assert(s@.skip(n as int).len() == 0);
        assert(spec_rows(s@.skip(i as int)) == Some(Seq::<Seq<u8>>::empty()));
        assert(rows_view(done@) + Seq::<Seq<u8>>::empty() =~~= rows_view(done@));
    }
    Some(done)
}

/// Construction errors of the textual grid format.
#[derive(Copy, Clone, Debug, PartialEq, Eq, Structural)]
pub enum GridError {
    /// A stray byte, an empty row, a lone carriage return, or no input.
    Syntax,
    /// Not all rows have the same length.
    NonRectangular,
    /// The visitation bitset of the grid would not be indexable.
    TooLarge,
    /// No cell holds an agent glyph.
    NoAgent,
    /// More than one cell holds an agent glyph.
    MultipleAgents,
}

/// All rows have the length of the first one.
pub open spec fn rectangular(rows: Seq<Seq<u8>>) -> bool {
    forall|i: int| 0 <= i < rows.len() ==> #[trigger] rows[i].len() == rows[0].len()
}

/// Number of agent glyphs among the first `c` cells of a row.
pub open spec fn count_row_agents(row: Seq<u8>, c: int) -> int
    decreases c,
{
    if c <= 0 {
        0
    } else {
        count_row_agents(row, c - 1) + if is_agent_glyph(row[c - 1]) {
            1int
        } else {
            0int
        }
    }
}

/// Number of agent glyphs in the first `r` rows.
pub open spec fn count_agents(rows: Seq<Seq<u8>>, r: int) -> int
    decreases r,
{
    if r <= 0 {
        0
    } else {
        count_agents(rows, r - 1) + count_row_agents(rows[r - 1], rows[r - 1].len() as int)
    }
}

proof fn lemma_count_row_agents_bound(row: Seq<u8>, c: int)
    ensures
        0 <= count_row_agents(row, c) <= if c <= 0 {
            0int
        } else {
            c
        },
    decreases c,
{
    if c > 0 {
        lemma_count_row_agents_bound(row, c - 1);
    }
}

/// Column of the first agent glyph of a row at or after `j`, if any.
pub open spec fn first_agent_in_row(row: Seq<u8>, j: int) -> Option<int>
    decreases row.len() - j,
{
    if j < 0 || j >= row.len() {
        None
    } else if is_agent_glyph(row[j]) {
        Some(j)
    } else {
        first_agent_in_row(row, j + 1)
    }
}

/// Coordinate of the first agent glyph in row-major order at or after row
/// `i`, if any.
pub open spec fn first_agent(rows: Seq<Seq<u8>>, i: int) -> Option<(int, int)>
    decreases rows.len() - i,
{
    if i < 0 || i >= rows.len() {
        None
    } else {
        match first_agent_in_row(rows[i], 0) {
            Some(j) => Some((i, j)),
            None => first_agent(rows, i + 1),
        }
    }
}

/// The starting agent a well-formed row list denotes.
pub open spec fn start_of_rows(rows: Seq<Seq<u8>>) -> AgentModel {
    let (r, c) = first_agent(rows, 0)->Some_0;
    AgentModel { row: r, col: c, heading: glyph_heading(rows[r][c]) }
}

/// The grid a rectangular row list denotes: a cell is obstructed exactly
/// where its glyph is '#'.
pub open spec fn grid_of_rows(rows: Seq<Seq<u8>>) -> GridModel {
    let nr = rows.len() as int;
    let nc = rows[0].len() as int;
    GridModel {
        rows: nr,
        cols: nc,
        obs: Seq::new((nr * nc) as nat, |i: int| rows[i / nc][i % nc] == 35),
    }
}

/// The conditions under which a row list denotes a grid and an agent.
pub open spec fn rows_ok(rows: Seq<Seq<u8>>) -> bool {
    &&& rows.len() >= 1
    &&& rows[0].len() >= 1
    &&& rectangular(rows)
    &&& 4 * rows.len() * rows[0].len() <= usize::MAX
    &&& count_agents(rows, rows.len() as int) == 1
}

/// Builds the grid and the starting agent from parsed rows, enforcing at
/// construction what the format owes: a non-empty rectangular grid of
/// indexable size holding exactly one agent glyph.
pub fn from_rows(rows: &Vec<Vec<u8>>) -> (out: Result<(Grid, Agent), GridError>)
    ensures
        match out {
            Ok((g, a)) => {
                &&& rows_ok(rows_view(rows@))
                &&& g@ == grid_of_rows(rows_view(rows@))
                &&& g@.wf()
                &&& first_agent(rows_view(rows@), 0) is Some
                &&& a@ == start_of_rows(rows_view(rows@))
                &&& g@.agent_ok(a@)
                &&& !g@.obstructed(a@.row, a@.col)
            },
            Err(e) => {
                &&& !rows_ok(rows_view(rows@))
                &&& match e {
                    GridError::Syntax => rows@.len() == 0 || rows@[0]@.len() == 0,
                    GridError::NonRectangular => !rectangular(rows_view(rows@)),
                    GridError::TooLarge => 4 * rows@.len() * rows@[0]@.len() > usize::MAX,
                    GridError::NoAgent => count_agents(rows_view(rows@), rows@.len() as int)
                        == 0,
                    GridError::MultipleAgents => count_agents(
                        rows_view(rows@),
                        rows@.len() as int,
                    ) >= 2,
                }
            },
        },
{
    let ghost rv = rows_view(rows@);
    proof {
        assert(rv.len() == rows@.len());
        assert forall|x: int| 0 <= x < rows@.len() implies #[trigger] rv[x] == rows@[x]@ by {}
    }
    let nr = rows.len();
    if nr == 0 {
        return Err(GridError::Syntax);
    }
    let nc = rows[0].len();
    if nc == 0 {
        proof {
            assert(rv[0] == rows@[0]@);
        }
        return Err(GridError::Syntax);
    }
    // Rectangularity.
    let mut i: usize = 0;
    while i < nr
        invariant
            i <= nr,
            nr == rows@.len(),
            nc == rows@[0]@.len(),
            rv == rows_view(rows@),
            forall|x: int| 0 <= x < i ==> #[trigger] rows@[x]@.len() == nc,
        decreases nr - i,
    {
        if rows[i].len() != nc {
            proof {
                assert(rv[i as int] == rows@[i as int]@);
                assert(rv[0] == rows@[0]@);
                assert(rv[i as int].len() != rv[0].len());
            }
            return Err(GridError::NonRectangular);
        }
        i += 1;
    }
    proof {
        assert forall|x: int| 0 <= x < rv.len() implies #[trigger] rv[x].len() == rv[0].len() by {
            assert(rv[x] == rows@[x]@);
            assert(rv[0] == rows@[0]@);
        }
        assert(rectangular(rv));
    }
    // Size.
    let cells = match nr.checked_mul(nc) {
        Some(n) => n,
        None => {
            proof {
                assert(4 * rv.len() * rv[0].len() >= rv.len() * rv[0].len())
                    by (nonlinear_arith)
                    requires
                        rv.len() >= 1,
                        rv[0].len() >= 1,
                ;
            }
            return Err(GridError::TooLarge);
        },
    };
    if cells > usize::MAX / 4 {
        proof {
            assert(4 * rv.len() * rv[0].len() > usize::MAX) by (nonlinear_arith)
                requires
                    rv.len() * rv[0].len() > usize::MAX / 4,
                    rv.len() >= 1,
                    rv[0].len() >= 1,
                    cells == rv.len() * rv[0].len(),
                    cells > usize::MAX / 4,
            ;
        }
        return Err(GridError::TooLarge);
    }
    proof {
        assert(4 * rv.len() * rv[0].len() <= usize::MAX && 4 * rv.len() * rv[0].len() == (rv.len()
            * rv[0].len()) * 4) by (nonlinear_arith)
            requires
                rv.len() * rv[0].len() <= usize::MAX / 4,
                rv.len() >= 1,
                rv[0].len() >= 1,
        ;
    }
    // One pass: obstruction bits, agent count, first agent.
    let mut bits: Vec<bool> = Vec::new();
    let mut found: Option<Agent> = None;
    let mut cnt: usize = 0;
    let mut r: usize = 0;
    while r < nr
        invariant
            r <= nr,
            nr == rv.len(),
            nc == rv[0].len(),
            nc >= 1,
            rectangular(rv),
            rv == rows_view(rows@),
            nr == rows@.len(),
            rv.len() * rv[0].len() <= usize::MAX / 4,
            bits@.len() == r * nc,
            forall|x: int|
                0 <= x < bits@.len() ==> #[trigger] bits@[x] == (rv[x / nc as int][x % nc as int]
                    == 35),
            cnt == count_agents(rv, r as int),
            cnt <= r * nc,
            match found {
                None => cnt == 0 && first_agent(rv, 0) == first_agent(rv, r as int),
                Some(a) => {
                    &&& cnt >= 1
                    &&& first_agent(rv, 0) == Some((a.row as int, a.col as int))
                    &&& a.row < nr
                    &&& a.col < nc
                    &&& is_agent_glyph(rv[a.row as int][a.col as int])
                    &&& a.heading == glyph_heading(rv[a.row as int][a.col as int])
                },
            },
        decreases nr - r,
    {
        let row = &rows[r];
        proof {
            assert(rv[r as int] == rows@[r as int]@);
            assert(rv[r as int].len() == rv[0].len());
        }
        let mut c: usize = 0;
        while c < nc
            invariant
                c <= nc,
                r < nr,
                nr == rv.len(),
                nc == rv[0].len(),
                nc >= 1,
                rectangular(rv),
                rv == rows_view(rows@),
                nr == rows@.len(),
                rv.len() * rv[0].len() <= usize::MAX / 4,
                row@ == rv[r as int],
                row@.len() == nc,
                bits@.len() == r * nc + c,
                forall|x: int|
                    0 <= x < bits@.len() ==> #[trigger] bits@[x] == (rv[x / nc as int][x
                        % nc as int] == 35),
                cnt == count_agents(rv, r as int) + count_row_agents(rv[r as int], c as int),
                cnt <= r * nc + c,
                match found {
                    None => cnt == 0 && first_agent(rv, 0) == (match first_agent_in_row(
                        rv[r as int],
                        c as int,
                    ) {
                        Some(j) => Some((r as int, j)),
                        None => first_agent(rv, r as int + 1),
                    }),
                    Some(a) => {
                        &&& cnt >= 1
                        &&& first_agent(rv, 0) == Some((a.row as int, a.col as int))
                        &&& a.row < nr
                        &&& a.col < nc
                        &&& is_agent_glyph(rv[a.row as int][a.col as int])
                        &&& a.heading == glyph_heading(rv[a.row as int][a.col as int])
                    },
                },
            decreases nc - c,
        {
            proof {
                assert(r * nc + c + 1 <= rv.len() * rv[0].len()) by (nonlinear_arith)
                    requires
                        0 <= r < rv.len(),
                        0 <= c < rv[0].len(),
                        nc == rv[0].len(),
                        nr == rv.len(),
                ;
                assert((r * nc + c) / nc as int == r as int && (r * nc + c) % nc as int
                    == c as int) by (nonlinear_arith)
                    requires
                        0 <= r,
                        0 <= c < nc,
                        1 <= nc,
                ;
            }
            let b = row[c];
            bits.push(b == 35);
            if b == 94 || b == 60 || b == 62 || b == 86 {
                if found.is_none() {
                    let heading = if b == 94 {
                        Direction::Up
                    } else if b == 60 {
                        Direction::Left
                    } else if b == 62 {
                        Direction::Right
                    } else {
                        Direction::Down
                    };
                    found = Some(Agent { row: r, col: c, heading });
                }
                cnt += 1;
            }
            c += 1;
        }
        proof {
            assert((r + 1) * nc == r * nc + nc) by (nonlinear_arith);
            assert(rv[r as int].len() == rv[0].len());
            assert(count_agents(rv, r as int + 1) == count_agents(rv, r as int)
                + count_row_agents(rv[r as int], rv[r as int].len() as int));
            if found is None {
                assert(first_agent_in_row(rv[r as int], nc as int) is None);
                assert(first_agent(rv, r as int) == (match first_agent_in_row(rv[r as int], 0) {
                    Some(j) => Some((r as int, j)),
                    None => first_agent(rv, r as int + 1),
                }));
            }
        }
        r += 1;
    }
    if cnt == 0 {
        return Err(GridError::NoAgent);
    }
    if cnt > 1 {
        return Err(GridError::MultipleAgents);
    }
    let start = found.unwrap();
    let g = Grid { rows: nr, cols: nc, obstructed: bits };
    proof {
        assert(g@.obs =~= grid_of_rows(rv).obs);
        assert(g@ == grid_of_rows(rv));
        let a = start_of_rows(rv);
        assert(a.row == start.row as int && a.col == start.col as int);
        lemma_cell_in_range(g@, a.row, a.col);
        assert((a.row * nc + a.col) / nc as int == a.row && (a.row * nc + a.col) % nc as int
            == a.col) by (nonlinear_arith)
            requires
                0 <= a.row,
                0 <= a.col < nc,
                1 <= nc,
        ;
        assert(!g@.obstructed(a.row, a.col));
    }
    Ok((g, start))
}

/// Parses the textual grid and answers both questions: the number of
/// distinct coordinates the baseline patrol visits, and the number of
/// candidate obstructions that force a loop (searched in parallel).
pub fn run(input: &[u8]) -> (out: Result<(usize, usize), GridError>)
    ensures
        match out {
            Ok(ans) => {
                &&& spec_rows(input@) is Some
                &&& rows_ok(spec_rows(input@)->Some_0)
                &&& ans.0 == spec_baseline_count(
                    grid_of_rows(spec_rows(input@)->Some_0),
                    start_of_rows(spec_rows(input@)->Some_0),
                )
                &&& ans.1 == spec_loop_count(
                    grid_of_rows(spec_rows(input@)->Some_0),
                    start_of_rows(spec_rows(input@)->Some_0),
                )
            },
            Err(GridError::Syntax) => spec_rows(input@) is None || !rows_ok(
                spec_rows(input@)->Some_0,
            ),
            Err(_) => spec_rows(input@) is Some && !rows_ok(spec_rows(input@)->Some_0),
        },
{
    let rows = match parse_rows(input) {
        Some(rows) => rows,
        None => {
            return Err(GridError::Syntax);
        },
    };
    let (g, start) = match from_rows(&rows) {
        Ok(p) => p,
        Err(e) => {
            return Err(e);
        },
    };
    let first = baseline_visited_count(&g, start);
    let second = obstruction_search(&g, start);
    Ok((first, second))
}

/// The glyph that places an agent with a heading, as the parser reads it.
pub open spec fn heading_glyph(d: Direction) -> u8 {
    match d {
        Direction::Up => 94,
        Direction::Left => 60,
        Direction::Right => 62,
        Direction::Down => 86,
    }
}

/// The byte a rendering shows for one cell: the agent's glyph, an
/// obstruction, a visited-but-empty cell, or an empty one.
pub open spec fn render_cell(
    m: GridModel,
    agent: Option<Agent>,
    v: Seq<bool>,
    r: int,
    c: int,
) -> u8 {
    if agent matches Some(a) && a.row == r && a.col == c {
        heading_glyph(agent->Some_0.heading)
    } else if m.obstructed(r, c) {
        35
    } else if coord_visited(m, v, r, c) {
        88
    } else {
        46
    }
}

/// The diagnostic rendering: one line per row, closed by a newline.
pub open spec fn spec_render(m: GridModel, agent: Option<Agent>, v: Seq<bool>) -> Seq<u8> {
    Seq::new(
        (m.rows * (m.cols + 1)) as nat,
        |i: int|
            if i % (m.cols + 1) == m.cols {
                10u8
            } else {
                render_cell(m, agent, v, i / (m.cols + 1), i % (m.cols + 1))
            },
    )
}

/// Renders a trial for diagnostics: obstructions, the agent's glyph,
/// visited-but-empty cells marked X, unvisited ones dots.
pub fn render(g: &Grid, t: &Trial) -> (out: Vec<u8>)
    requires
        g@.wf(),
        t.wf(g@),
    ensures
        out@ == spec_render(g@, t.agent, t.visited@),
{
    let ghost m = g@;
    let nr = g.rows;
    let nc = g.cols;
    proof {
        assert(nr * (nc + 1) <= nr * nc + nr) by (nonlinear_arith)
            requires
                nr >= 1,
                nc >= 1,
        ;
        assert(4 * m.rows * m.cols >= m.rows * m.cols + m.rows) by (nonlinear_arith)
            requires
                m.rows >= 1,
                m.cols >= 1,
        ;
    }
    let mut out: Vec<u8> = Vec::new();
    let mut r: usize = 0;
    while r < nr
        invariant
            r <= nr,
            nr == g.rows,
            nc == g.cols,
            m == g@,
            m.wf(),
            t.wf(m),
            nr * (nc + 1) <= usize::MAX,
            out@.len() == r * (nc + 1),
            forall|x: int| 0 <= x < out@.len() ==> out@[x] == spec_render(m, t.agent, t.visited@)[x],
        decreases nr - r,
    {
        let mut c: usize = 0;
        while c < nc
            invariant
                c <= nc,
                r < nr,
                nr == g.rows,
                nc == g.cols,
                m == g@,
                m.wf(),
                t.wf(m),
                nr * (nc + 1) <= usize::MAX,
                out@.len() == r * (nc + 1) + c,
                forall|x: int|
                    0 <= x < out@.len() ==> out@[x] == spec_render(m, t.agent, t.visited@)[x],
            decreases nc - c,
        {
            proof {
                assert(r * (nc + 1) + c < nr * (nc + 1) && ((r * (nc + 1) + c) as int) / (
                nc as int + 1) == r && ((r * (nc + 1) + c) as int) % (nc as int + 1) == c)
                    by (nonlinear_arith)
                    requires
                        0 <= r < nr,
                        0 <= c < nc,
                ;
            }
            let agent_here = match &t.agent {
                Some(a) => a.row == r && a.col == c,
                None => false,
            };
            let b: u8 = if agent_here {
                match t.agent {
                    Some(a) => match a.heading {
                        Direction::Up => 94,
                        Direction::Left => 60,
                        Direction::Right => 62,
                        Direction::Down => 86,
                    },
                    None => 46,
                }
            } else if g.cell_at(r, c) {
                35
            } else if t.visited.contains(r, c, Direction::Up) || t.visited.contains(
                r,
                c,
                Direction::Right,
            ) || t.visited.contains(r, c, Direction::Down) || t.visited.contains(
                r,
                c,
                Direction::Left,
            ) {
                88
            } else {
                46
            };
            out.push(b);
            c += 1;
        }
        proof {
            assert(r * (nc + 1) + nc < nr * (nc + 1) && ((r * (nc + 1) + nc) as int) / (nc as int
                + 1) == r && ((r * (nc + 1) + nc) as int) % (nc as int + 1) == nc && (r + 1) * (nc
                + 1) == r * (nc + 1) + nc + 1) by (nonlinear_arith)
                requires
                    0 <= r < nr,
                    1 <= nc,
            ;
        }
        out.push(10);
        r += 1;
    }
    proof {
        assert(out@ =~= spec_render(m, t.agent, t.visited@));
    }
    out
}

} // verus!
