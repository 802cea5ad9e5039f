//! Tests of the other solvers of the collection.
use patrol_puzzles::day1;
use patrol_puzzles::day2;
use patrol_puzzles::day4;
use patrol_puzzles::day5;
use patrol_puzzles::day7;
use patrol_puzzles::day8;
use patrol_puzzles::scan;

#[test]
fn day1_example() {
    let input = b"3   4\n4   3\n2   5\n1   3\n3   9\n3   3\n";
    assert_eq!(day1::run(input), Some((11, 31)));
}

#[test]
fn day1_sorts_canonically() {
    let v = vec![3, 1, 2, 1];
    let sorted = day1::sort_i32(&v);
    assert_eq!(sorted, vec![1, 1, 2, 3]);
}

#[test]
fn day1_occurrences_counts() {
    let v = vec![3, 3, 5, -1];
    let m = day1::occurrences(&v);
    assert_eq!(m.get(&3), Some(&2));
    assert_eq!(m.get(&5), Some(&1));
    assert_eq!(m.get(&-1), Some(&1));
    assert_eq!(m.get(&7), None);
}

#[test]
fn day1_rejects_bad_lines() {
    assert_eq!(day1::run(b""), None);
    assert_eq!(day1::run(b"1 2 3\n"), None);
    assert_eq!(day1::run(b"1 x\n"), None);
}

#[test]
fn day2_example() {
    let input = b"7 6 4 2 1\n1 2 7 8 9\n9 7 6 2 1\n1 3 2 4 5\n8 6 4 4 1\n1 3 6 7 9\n";
    assert_eq!(day2::run(input), Some((2, 4)));
}

#[test]
fn day2_single_value_is_safe() {
    assert_eq!(day2::run(b"7\n"), Some((1, 1)));
}

#[test]
fn day2_rejects_garbage() {
    assert_eq!(day2::run(b""), None);
    assert_eq!(day2::run(b"1 2\n\n3 4\n"), None);
    assert_eq!(day2::run(b"1 two\n"), None);
}

#[test]
fn day4_example() {
    let input = b"MMMSXXMASM\n\
MSAMXMSMSA\n\
AMXSXMAAMM\n\
MSAMASMSMX\n\
XMASAMXAMM\n\
XXAMMXXAMA\n\
SMSMSASXSS\n\
SAXAMASAAA\n\
MAMMMXMMMM\n\
MXMXAXMASX";
    assert_eq!(day4::run(input), Some((18, 9)));
}

#[test]
fn day4_single_word() {
    assert_eq!(day4::run(b"XMAS"), Some((1, 0)));
    assert_eq!(day4::run(b"SAMX"), Some((1, 0)));
}

#[test]
fn day4_rejects_other_letters() {
    assert_eq!(day4::run(b"XMAQ"), None);
    assert_eq!(day4::run(b""), None);
}

#[test]
fn day5_example() {
    let input = b"47|53\n\
97|13\n\
97|61\n\
97|47\n\
75|29\n\
61|13\n\
75|53\n\
29|13\n\
97|29\n\
53|29\n\
61|53\n\
97|53\n\
61|29\n\
47|13\n\
75|47\n\
97|75\n\
47|61\n\
75|61\n\
47|29\n\
75|13\n\
53|13\n\
\n\
75,47,61,53,29\n\
97,61,53,29,13\n\
75,29,13\n\
75,97,47,61,53\n\
61,13,29\n\
97,13,75,29,47\n";
    assert_eq!(day5::run(input), Some((143, 123)));
}

#[test]
fn day5_sum_middle_value() {
    let updates = vec![vec![1, 2, 3], vec![9], vec![4, 5, 6, 7, 8]];
    assert_eq!(day5::sum_middle_value(&updates), 2 + 9 + 6);
}

#[test]
fn day5_is_safe_update_respects_rules() {
    let rules = vec![(47, 53), (53, 29)];
    assert!(day5::is_safe_update(&rules, &vec![47, 53, 29]));
    assert!(!day5::is_safe_update(&rules, &vec![53, 47]));
}

#[test]
fn day5_rejects_missing_separator() {
    assert_eq!(day5::run(b"1|2\n3,4\n"), None);
    assert_eq!(day5::run(b""), None);
}

#[test]
fn day7_example() {
    let input = b"190: 10 19\n\
3267: 81 40 27\n\
83: 17 5\n\
156: 15 6\n\
7290: 6 8 6 15\n\
161011: 16 10 13\n\
192: 17 8 14\n\
21037: 9 7 18 13\n\
292: 11 6 16 20\n";
    assert_eq!(day7::run(input), Some((3749, 11387)));
}

#[test]
fn day7_concat_evaluates_by_digits() {
    let cal = day7::Calibration {
        result: 156,
        numbers: vec![15, 6],
    };
    let combos = cal.find_combinations(&vec![
        day7::OpKind::Add,
        day7::OpKind::Multiply,
        day7::OpKind::Concat,
    ]);
    assert_eq!(combos.len(), 3);
    let values: Vec<Option<i64>> = combos.iter().map(day7::eval_checked).collect();
    assert_eq!(values, vec![Some(21), Some(90), Some(156)]);
}

#[test]
fn day7_rejects_bad_lines() {
    assert_eq!(day7::run(b""), None);
    assert_eq!(day7::run(b"190 10 19\n"), None);
    assert_eq!(day7::run(b"190:\n"), None);
}

#[test]
fn day8_example() {
    let input = b"............\n\
........0...\n\
.....0......\n\
.......0....\n\
....0.......\n\
......A.....\n\
............\n\
............\n\
........A...\n\
.........A..\n\
............\n\
............";
    assert_eq!(day8::run(input), Some((14, 34)));
}

#[test]
fn day8_two_antennas() {
    // Two antennas in one row: one antinode on each side fits the grid.
    let input = b"..........\n...a..a...\n..........";
    assert_eq!(day8::run(input), Some((2, 4)));
}

#[test]
fn day8_expand_walks_ray() {
    let ray = day8::expand(1, 1, 1, 0, 4, 4, None);
    assert_eq!(ray, vec![(1, 1), (2, 1), (3, 1)]);
    let capped = day8::expand(1, 1, 1, 0, 4, 4, Some(1));
    assert_eq!(capped, vec![(1, 1), (2, 1)]);
    let outside = day8::expand(-1, 0, 1, 0, 4, 4, Some(3));
    assert_eq!(outside, Vec::<(i32, i32)>::new());
}

#[test]
fn day8_rejects_ragged_map() {
    assert_eq!(day8::run(b"..\n..."), None);
    assert_eq!(day8::run(b""), None);
}

#[test]
fn scan_parse_i64_reads_literals() {
    assert_eq!(scan::parse_i64(b"0"), Some(0));
    assert_eq!(scan::parse_i64(b"-42"), Some(-42));
    assert_eq!(scan::parse_i64(b"9223372036854775807"), Some(i64::MAX));
    assert_eq!(scan::parse_i64(b"-9223372036854775808"), Some(i64::MIN));
    assert_eq!(scan::parse_i64(b"9223372036854775808"), None);
    assert_eq!(scan::parse_i64(b"99999999999999999999999"), None);
    assert_eq!(scan::parse_i64(b""), None);
    assert_eq!(scan::parse_i64(b"-"), None);
    assert_eq!(scan::parse_i64(b"1a"), None);
}

#[test]
fn scan_lines_tolerates_trailing_newline_and_crlf() {
    let a = scan::lines(b"ab\ncd\n");
    assert_eq!(a, vec![b"ab".to_vec(), b"cd".to_vec()]);
    let b = scan::lines(b"ab\r\ncd");
    assert_eq!(b, vec![b"ab".to_vec(), b"cd".to_vec()]);
    let c = scan::lines(b"ab\n\ncd");
    assert_eq!(c, vec![b"ab".to_vec(), b"".to_vec(), b"cd".to_vec()]);
}

#[test]
fn scan_split_fields_drops_empty_pieces() {
    let fields = scan::split_fields(b"  3   4 ", 32);
    assert_eq!(fields, vec![b"3".to_vec(), b"4".to_vec()]);
}

#[test]
fn day9_example() {
    assert_eq!(
        patrol_puzzles::day9::run(b"2333133121414131402"),
        Some((1928, 2858))
    );
}

#[test]
fn day9_small_map() {
    assert_eq!(patrol_puzzles::day9::run(b"12345"), Some((60, 132)));
}

#[test]
fn day9_rejects_non_digits() {
    assert_eq!(patrol_puzzles::day9::run(b"1a2"), None);
    assert_eq!(patrol_puzzles::day9::run(b""), None);
    assert_eq!(patrol_puzzles::day9::run(b"0"), None);
}

#[test]
fn day9_build_and_compact() {
    let blocks = patrol_puzzles::day9::parse(b"12345");
    let mut disk = patrol_puzzles::day9::build_disk(&blocks);
    assert_eq!(disk.len(), 15);
    patrol_puzzles::day9::compact_disk(&mut disk);
    let front: Vec<patrol_puzzles::day9::Bit> = disk[..9].to_vec();
    assert!(front.iter().all(|b| matches!(b, patrol_puzzles::day9::Bit::File(_))));
    assert!(disk[9..]
        .iter()
        .all(|b| matches!(b, patrol_puzzles::day9::Bit::Empty)));
}

#[test]
fn day3_example_all_muls() {
    let input = b"xmul(2,4)%&mul[3,7]!@^do_not_mul(5,5)+mul(32,64]then(mul(11,8)mul(8,5))";
    assert_eq!(patrol_puzzles::day3::run(input), Some((161, 161)));
}

#[test]
fn day3_example_with_switches() {
    let input = b"xmul(2,4)&mul[3,7]!^don't()_mul(5,5)+mul(32,64](mul(11,8)undo()?mul(8,5))";
    assert_eq!(patrol_puzzles::day3::run(input), Some((161, 48)));
}

#[test]
fn day3_signed_factors_and_edge_cases() {
    assert_eq!(patrol_puzzles::day3::run(b"mul(+2,-3)"), Some((-6, -6)));
    assert_eq!(patrol_puzzles::day3::run(b"mul(4*"), Some((0, 0)));
    assert_eq!(patrol_puzzles::day3::run(b"mul(2147483648,1)"), Some((0, 0)));
    assert_eq!(patrol_puzzles::day3::run(b"mul(0000000002,3)"), Some((6, 6)));
    assert_eq!(patrol_puzzles::day3::run(b""), None);
}

#[test]
fn day3_tokens_in_order() {
    let tokens = patrol_puzzles::day3::parse(b"do()don't()mul(2,3)x");
    assert_eq!(
        tokens,
        vec![
            patrol_puzzles::day3::Value::Do,
            patrol_puzzles::day3::Value::DoNot,
            patrol_puzzles::day3::Value::Mul(2, 3),
            patrol_puzzles::day3::Value::Garbage,
        ]
    );
}

#[test]
fn day11_example_blinks() {
    let stones = vec![125, 17];
    assert_eq!(patrol_puzzles::day11::solve(&stones, 6), Some(22));
    assert_eq!(patrol_puzzles::day11::solve(&stones, 25), Some(55312));
}

#[test]
fn day11_blink_rules() {
    let zero = vec![0];
    assert_eq!(patrol_puzzles::day11::solve(&zero, 1), Some(1));
    assert_eq!(patrol_puzzles::day11::solve(&zero, 2), Some(1));
    assert_eq!(patrol_puzzles::day11::solve(&zero, 3), Some(2));
    assert_eq!(patrol_puzzles::day11::solve(&zero, 4), Some(4));
    assert_eq!(patrol_puzzles::day11::blink_exec(10), Some((1, Some(0))));
    assert_eq!(patrol_puzzles::day11::blink_exec(99), Some((9, Some(9))));
    assert_eq!(patrol_puzzles::day11::blink_exec(999), Some((2021976, None)));
}

#[test]
fn day11_run_and_rejections() {
    let out = patrol_puzzles::day11::run(b"125 17").expect("valid input");
    assert_eq!(out.0, 55312);
    assert!(out.1 > out.0);
    assert_eq!(patrol_puzzles::day11::run(b""), None);
    assert_eq!(patrol_puzzles::day11::run(b"1\n2"), None);
    assert_eq!(patrol_puzzles::day11::run(b"x"), None);
}

#[test]
fn day10_example() {
    let input = b"89010123\n\
78121874\n\
87430965\n\
96549874\n\
45678903\n\
32019012\n\
01329801\n\
10456732";
    assert_eq!(patrol_puzzles::day10::run(input), Some((36, 81)));
}

#[test]
fn day10_single_trail() {
    let input = b"0123456789";
    assert_eq!(patrol_puzzles::day10::run(input), Some((1, 1)));
}

#[test]
fn day10_trailheads_and_neighbours() {
    let topo = patrol_puzzles::day10::parse(b"012\n345").expect("valid grid");
    assert_eq!(topo.trailheads(), vec![(0, 0)]);
    assert_eq!(topo.neighbours(0, 0), vec![(0, 1, 1), (1, 0, 3)]);
    assert_eq!(topo.neighbours(1, 1), vec![(1, 0, 3), (1, 2, 5), (0, 1, 1)]);
}

#[test]
fn day10_rejects_bad_grids() {
    assert_eq!(patrol_puzzles::day10::run(b""), None);
    assert_eq!(patrol_puzzles::day10::run(b"01\n234"), None);
    assert_eq!(patrol_puzzles::day10::run(b"0a"), None);
}

#[test]
fn day12_small_examples() {
    assert_eq!(
        patrol_puzzles::day12::run(b"AAAA\nBBCD\nBBCC\nEEEC"),
        Some((140, 80))
    );
    assert_eq!(
        patrol_puzzles::day12::run(b"OOOOO\nOXOXO\nOOOOO\nOXOXO\nOOOOO"),
        Some((772, 436))
    );
    assert_eq!(
        patrol_puzzles::day12::run(b"EEEEE\nEXXXX\nEEEEE\nEXXXX\nEEEEE"),
        Some((692, 236))
    );
    assert_eq!(
        patrol_puzzles::day12::run(b"AAAAAA\nAAABBA\nAAABBA\nABBAAA\nABBAAA\nAAAAAA"),
        Some((1184, 368))
    );
}

#[test]
fn day12_large_example() {
    let input = b"RRRRIICCFF\n\
RRRRIICCCF\n\
VVRRRCCFFF\n\
VVRCCCJFFF\n\
VVVVCJJCFE\n\
VVIVCCJJEE\n\
VVIIICJJEE\n\
MIIIIIJJEE\n\
MIIISIJEEE\n\
MMMISSJEEE";
    assert_eq!(patrol_puzzles::day12::run(input), Some((1930, 1206)));
}

#[test]
fn day12_zone_metrics() {
    let zone = patrol_puzzles::day12::Zone {
        garden: 65,
        coords: vec![(0, 0)],
    };
    assert_eq!(zone.area(), 1);
    assert_eq!(zone.perimeter(), 4);
    assert_eq!(zone.sides(), 4);
    let strip = patrol_puzzles::day12::Zone {
        garden: 66,
        coords: vec![(0, 0), (0, 1), (0, 2)],
    };
    assert_eq!(strip.area(), 3);
    assert_eq!(strip.perimeter(), 8);
    assert_eq!(strip.sides(), 4);
}

#[test]
fn day12_zones_split_the_map() {
    let rows = patrol_puzzles::day12::parse(b"AB\nAB").expect("valid map");
    let zones = patrol_puzzles::day12::find_zones(&rows);
    assert_eq!(zones.len(), 2);
    assert_eq!(zones[0].garden, b'A');
    assert_eq!(zones[0].coords, vec![(0, 0), (1, 0)]);
    assert_eq!(zones[1].garden, b'B');
    assert_eq!(zones[1].coords, vec![(0, 1), (1, 1)]);
}

#[test]
fn day12_rejects_bad_maps() {
    assert_eq!(patrol_puzzles::day12::run(b""), None);
    assert_eq!(patrol_puzzles::day12::run(b"AB\nABC"), None);
}

#[test]
fn day7_result_evaluates_trees() {
    let tree = patrol_puzzles::day7::Operator::Multiply(
        Box::new(patrol_puzzles::day7::Operator::Add(
            Box::new(patrol_puzzles::day7::Operator::Identity(81)),
            Box::new(patrol_puzzles::day7::Operator::Identity(40)),
        )),
        Box::new(patrol_puzzles::day7::Operator::Identity(27)),
    );
    assert_eq!(tree.result(), 3267);
}
