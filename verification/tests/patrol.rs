//! Tests of the patrol engine and the obstruction search.
use patrol_puzzles::day6::advance;
use patrol_puzzles::day6::baseline_visited_count;
use patrol_puzzles::day6::from_rows;
use patrol_puzzles::day6::obstruction_search;
use patrol_puzzles::day6::obstruction_search_serial;
use patrol_puzzles::day6::parse_rows;
use patrol_puzzles::day6::run;
use patrol_puzzles::day6::run_trial;
use patrol_puzzles::day6::trial_induces_loop;
use patrol_puzzles::day6::Direction;
use patrol_puzzles::day6::GridError;
use patrol_puzzles::day6::Outcome;
use patrol_puzzles::day6::Trial;

const EXAMPLE: &[u8] = b"....#.....\n\
.........#\n\
..........\n\
..#.......\n\
.......#..\n\
..........\n\
.#..^.....\n\
........#.\n\
#.........\n\
......#...";

fn build(input: &[u8]) -> (patrol_puzzles::day6::Grid, patrol_puzzles::day6::Agent) {
    let rows = parse_rows(input).expect("syntax");
    from_rows(&rows).expect("construction")
}

#[test]
fn example_baseline_and_search() {
    let answers = run(EXAMPLE).expect("valid grid");
    assert_eq!(answers, (41, 6));
}

#[test]
fn example_baseline_exits_bounds() {
    let (grid, start) = build(EXAMPLE);
    let (outcome, visited) = run_trial(&grid, start);
    assert_eq!(outcome, Outcome::OutOfBounds);
    assert!(visited.contains(6, 4, Direction::Up));
    assert_eq!(baseline_visited_count(&grid, start), 41);
}

#[test]
fn determinism_same_grid_twice() {
    let first = run(EXAMPLE).expect("valid grid");
    let second = run(EXAMPLE).expect("valid grid");
    assert_eq!(first, second);
    let (grid, start) = build(EXAMPLE);
    let (o1, v1) = run_trial(&grid, start);
    let (o2, v2) = run_trial(&grid, start);
    assert_eq!(o1, o2);
    assert_eq!(v1.bits, v2.bits);
}

#[test]
fn parallel_equals_serial() {
    let (grid, start) = build(EXAMPLE);
    assert_eq!(
        obstruction_search(&grid, start),
        obstruction_search_serial(&grid, start)
    );
}

#[test]
fn loop_detected_at_exact_revisit_step() {
    // The agent is boxed in: four turns in place, then the fifth step
    // revisits (1, 1, Up) and must report Loop there, never later.
    let (grid, start) = build(b".#..\n#^#.\n.#..");
    assert_eq!(start.row, 1);
    assert_eq!(start.col, 1);
    let mut trial = Trial::new(&grid, start);
    for _ in 0..4 {
        assert_eq!(advance(&grid, &mut trial), Outcome::Continue);
    }
    assert_eq!(advance(&grid, &mut trial), Outcome::Loop);
}

#[test]
fn boxed_agent_baseline_loops() {
    let (grid, start) = build(b".#..\n#^#.\n.#..");
    let mut trial = Trial::new(&grid, start);
    let mut outcome = Outcome::Continue;
    while outcome == Outcome::Continue {
        outcome = advance(&grid, &mut trial);
    }
    assert_eq!(outcome, Outcome::Loop);
}

#[test]
fn obstruction_on_unvisited_corner_changes_nothing() {
    // Agent at (0, 4) heading up leaves at once; obstructing the far
    // corner, never visited, leaves the outcome and count unchanged.
    let (grid, start) = build(b"....^\n..#..\n..#..\n..#..\n.....");
    let (outcome, _) = run_trial(&grid, start);
    assert_eq!(outcome, Outcome::OutOfBounds);
    assert_eq!(baseline_visited_count(&grid, start), 1);
    assert!(!trial_induces_loop(&grid, start, 4, 0));
    let blocked = grid.with_obstruction(4, 0);
    let (outcome2, _) = run_trial(&blocked, start);
    assert_eq!(outcome2, Outcome::OutOfBounds);
    assert_eq!(baseline_visited_count(&blocked, start), 1);
}

#[test]
fn obstruction_ahead_forces_turn_and_loop() {
    // In the example, blocking the cell just ahead of the start forces a
    // loop, while blocking the never-visited top-left corner does not.
    let (grid, start) = build(EXAMPLE);
    assert!(trial_induces_loop(&grid, start, 6, 3));
    assert!(!trial_induces_loop(&grid, start, 0, 0));
}

#[test]
fn syntax_error_on_stray_byte() {
    assert_eq!(run(b"..a.\n.^.."), Err(GridError::Syntax));
}

#[test]
fn syntax_error_on_empty_input() {
    assert_eq!(run(b""), Err(GridError::Syntax));
}

#[test]
fn syntax_error_on_blank_row() {
    assert_eq!(run(b"....\n\n.^.."), Err(GridError::Syntax));
}

#[test]
fn error_on_missing_agent() {
    assert_eq!(run(b"....\n.#.."), Err(GridError::NoAgent));
}

#[test]
fn error_on_two_agents() {
    assert_eq!(run(b"^...\n.>.."), Err(GridError::MultipleAgents));
}

#[test]
fn error_on_ragged_rows() {
    assert_eq!(run(b"....\n.^."), Err(GridError::NonRectangular));
}

#[test]
fn headings_parse_and_turn() {
    for (glyph, heading) in [
        (b'^', Direction::Up),
        (b'<', Direction::Left),
        (b'>', Direction::Right),
        (b'V', Direction::Down),
    ] {
        let input = vec![b'.', glyph, b'.'];
        let rows = parse_rows(&input).expect("syntax");
        let (_, agent) = from_rows(&rows).expect("construction");
        assert_eq!(agent.heading, heading);
    }
    assert_eq!(Direction::Up.turn_right(), Direction::Right);
    assert_eq!(Direction::Right.turn_right(), Direction::Down);
    assert_eq!(Direction::Down.turn_right(), Direction::Left);
    assert_eq!(Direction::Left.turn_right(), Direction::Up);
}

#[test]
fn render_marks_visited_cells() {
    let (grid, start) = build(b"....^\n..#..\n.....");
    let trial = patrol_puzzles::day6::Trial::new(&grid, start);
    assert_eq!(
        patrol_puzzles::day6::render(&grid, &trial),
        b"....^\n..#..\n.....\n".to_vec()
    );
    let (_, visited) = run_trial(&grid, start);
    let done = patrol_puzzles::day6::Trial {
        agent: None,
        visited,
    };
    assert_eq!(
        patrol_puzzles::day6::render(&grid, &done),
        b"....X\n..#..\n.....\n".to_vec()
    );
}
