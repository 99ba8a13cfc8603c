use aoc24::antennas;
use aoc24::calibration;
use aoc24::claw;
use aoc24::coords::Coordinates;
use aoc24::page_order;
use aoc24::garden;
use aoc24::garden_sides;
use aoc24::lists;
use aoc24::mul_program;
use aoc24::patrol;
use aoc24::reports;
use aoc24::robots::{robot_position_after_n_steps, safety_score_after_n_steps, Robot};
use aoc24::stones;
use aoc24::warehouse;
use aoc24::word_search;

fn char_lines(input: &str) -> Vec<Vec<char>> {
    input.lines().map(|l| l.chars().collect()).collect()
}

#[test]
fn sample() {
    let sample_input = "Button A: X+94, Y+34
Button B: X+22, Y+67
Prize: X=8400, Y=5400

Button A: X+26, Y+66
Button B: X+67, Y+21
Prize: X=12748, Y=12176

Button A: X+17, Y+86
Button B: X+84, Y+37
Prize: X=7870, Y=6450

Button A: X+69, Y+23
Button B: X+27, Y+71
Prize: X=18641, Y=10279
";

    let lines = char_lines(sample_input);
    let input = claw::parse_input(&lines).expect("parses");
    assert_eq!(claw::max_prizes_min_tokens(&input), 480);
}

#[test]
fn test_example_small() {
    let input = "########
#..O.O.#
##@.O..#
#...O..#
#.#.O..#
#...O..#
#......#
########

<^^>>>vv<v>>v<<
";

    let lines = char_lines(input);
    let (mut map, instructions) = warehouse::parse_input(&lines).expect("parses");
    map.transform_map(&instructions);
    assert_eq!(map.box_coordinate_sums(), 2028);
}

#[test]
fn test_example_large() {
    let input = "##########
#..O..O.O#
#......O.#
#.OO..O.O#
#..O@..O.#
#O#..O...#
#O..O..O.#
#.OO.O.OO#
#....O...#
##########

<vv>^<v^>v>^vv^v>v<>v^v<v<^vv<<<^><<><>>v<vvv<>^v^>^<<<><<v<<<v^vv^v>^
vvv<<^>^v^^><<>>><>^<<><^vv^^<>vvv<>><^^v>^>vv<>v<<<<v<^v>^<^^>>>^<v<v
><>vv>v^v^<>><>>>><^^>vv>v<^^^>>v^v^<^^>v^^>v^<^v>v<>>v^v^<v>v^^<^^vv<
<<v<^>>^^^^>>>v^<>vvv^><v<<<>^^^vv^<vvv>^>v<^^^^v<>^>vvvv><>>v^<<^^^^^
^><^><>>><>^^<<^^v>>><^<v>^<vv>>v>>>^v><>^v><<<<v>>v<v<v>vvv>^<><<>^><
^>><>^v<><^vvv<^^<><v<<<<<><^v<<<><<<^^<v<^^^><^>>^<v^><<<^>>^v<v^v<v^
>^>>^v>vv>^<<^v<>><<><<v<<v><>v<^vv<<<>^^v^>^^>>><<^v>>v^v><^^>>^<>vv^
<><^^>^^^<><vvvvv^v<v<<>^v<v>v<<^><<><<><<<^^<<<^<<>><<><^^^>^^<>^>v<>
^^>vv<^v^v<vv>^<><v<^v>^^^>>>^^vvv^>vvv<>>>^<^>>>>>^<<^v>^vvv<>^<><<v>
v^^>>><<^^<>>^v^<v^vv<>v^<<>^<^v^v><^<<<><<^<v><v<>vv>>v><v^<vv<>v^<<^
";

    let lines = char_lines(input);
    let (mut map, instructions) = warehouse::parse_input(&lines).expect("parses");
    map.transform_map(&instructions);
    assert_eq!(map.box_coordinate_sums(), 10092);
}

fn region_pairs(grid: &str) -> Vec<(usize, usize)> {
    let matrix: Vec<Vec<char>> = char_lines(grid);
    let regions = garden::area_circumference_map(&matrix);
    let mut pairs: Vec<(usize, usize)> = regions
        .iter()
        .map(|entry| (entry.1.area, entry.1.circumference))
        .collect();
    pairs.sort();
    pairs
}

#[test]
fn garden_concrete_fixture() {
    // grid AAAA / BBCD / BBCC / EEEC
    let pairs = region_pairs("AAAA\nBBCD\nBBCC\nEEEC");
    let mut expected = vec![(4, 10), (4, 8), (4, 10), (1, 4), (3, 8)];
    expected.sort();
    assert_eq!(pairs, expected);
}

#[test]
fn garden_single_cell() {
    assert_eq!(region_pairs("A"), vec![(1, 4)]);
}

#[test]
fn garden_uniform_grid() {
    // a 3 x 2 uniform grid: one region, area 6, perimeter 2 * (3 + 2)
    assert_eq!(region_pairs("AAA\nAAA"), vec![(6, 10)]);
}

#[test]
fn garden_total_area_covers_grid() {
    let pairs = region_pairs("AAAA\nBBCD\nBBCC\nEEEC");
    let total: usize = pairs.iter().map(|p| p.0).sum();
    assert_eq!(total, 16);
}

#[test]
fn lists_total_diff() {
    let a = vec![3, 4, 2, 1, 3, 3];
    let b = vec![4, 3, 5, 3, 9, 3];
    assert_eq!(lists::calculate_total_diff(a, b), 11);
}

#[test]
fn lists_similarity() {
    // each distinct left value counts once, weighted by its multiplicity on
    // the right: 3 * 3 + 4 * 1 = 13
    let a = vec![3, 4, 2, 1, 3, 3];
    let b = vec![4, 3, 5, 3, 9, 3];
    assert_eq!(lists::calculate_similarity(a, b), 13);
}

#[test]
fn reports_safety() {
    assert!(reports::is_safe_inner(&vec![7, 6, 4, 2, 1]));
    assert!(!reports::is_safe_inner(&vec![1, 2, 7, 8, 9]));
    assert!(!reports::is_safe_inner(&vec![8, 6, 4, 4, 1]));
    assert!(reports::is_safe(&vec![1, 3, 2, 4, 5]));
    assert!(!reports::is_safe(&vec![9, 7, 6, 2, 1]));
    let all = vec![
        vec![7, 6, 4, 2, 1],
        vec![1, 2, 7, 8, 9],
        vec![9, 7, 6, 2, 1],
        vec![1, 3, 2, 4, 5],
        vec![8, 6, 4, 4, 1],
        vec![1, 3, 6, 7, 9],
    ];
    assert_eq!(reports::count_safe_reports(&all), 2);
    assert_eq!(reports::count_damped_safe_reports(&all), 4);
}

#[test]
fn coords_divided_by() {
    let a = Coordinates { x: 6, y: 9 };
    let b = Coordinates { x: 2, y: 3 };
    assert_eq!(a.divided_by(b), Some(3));
    let c = Coordinates { x: 6, y: 8 };
    assert_eq!(c.divided_by(b), None);
}

#[test]
fn coords_checked_bounded_add() {
    let a = Coordinates { x: 2, y: 3 };
    let step = Coordinates { x: 1, y: 1 };
    let max = Coordinates { x: 3, y: 4 };
    assert_eq!(a.checked_bounded_add(step, max), Some(Coordinates { x: 3, y: 4 }));
    assert_eq!(max.checked_bounded_add(step, max), None);
}

#[test]
fn robot_wraps_around_board() {
    // the lobby example robot: p=2,4 v=2,-3 on an 11 x 7 board
    let robot = Robot {
        position: Coordinates { x: 2, y: 4 },
        velocity: Coordinates { x: 2, y: -3 },
    };
    let bounds = Coordinates { x: 11, y: 7 };
    let after5 = robot_position_after_n_steps(robot, 5, bounds);
    assert_eq!((after5.x, after5.y), (1, 3));
}

#[test]
fn claw_single_machine() {
    let m = claw::Machine {
        a_rel_move: Coordinates { x: 94, y: 34 },
        b_rel_move: Coordinates { x: 22, y: 67 },
        prize: Coordinates { x: 8400, y: 5400 },
    };
    assert_eq!(claw::min_price_steps(&m), Some((80, 40)));
}

#[test]
fn warehouse_direction_chars() {
    assert_eq!(warehouse::Direction::from_char('^'), Some(warehouse::Direction::Up));
    assert_eq!(warehouse::Direction::from_char('x'), None);
}

#[test]
fn garden_sides_fixture() {
    // the same fixture priced by sides: 16 + 16 + 32 + 4 + 12 = 80
    let matrix = char_lines("AAAA\nBBCD\nBBCC\nEEEC");
    let regions = garden_sides::field_dimensions(&matrix);
    let total: usize = regions
        .iter()
        .map(|entry| garden_sides::dimension_to_cost(&entry.1))
        .sum();
    assert_eq!(total, 80);
}

#[test]
fn continuous_sections() {
    assert_eq!(garden_sides::num_continuous_sections(&vec![5, 6, 2, 1, 3]), 2);
    assert_eq!(garden_sides::num_continuous_sections(&vec![4]), 1);
    assert_eq!(garden_sides::num_continuous_sections(&vec![]), 1);
}

#[test]
fn stones_blink_once() {
    let row = stones::apply_rules(vec![0, 1, 10, 99, 999]);
    assert_eq!(row, vec![1, 2024, 1, 0, 9, 9, 2021976]);
}

#[test]
fn stones_blink_counts() {
    let mut cache = stones::StoneCache::new();
    let six: usize = [125u64, 17]
        .iter()
        .map(|m| stones::num_stones_after_n_iterations(6, *m, &mut cache))
        .sum();
    assert_eq!(six, 22);
    let mut cache = stones::StoneCache::new();
    let twenty_five: usize = [125u64, 17]
        .iter()
        .map(|m| stones::num_stones_after_n_iterations(25, *m, &mut cache))
        .sum();
    assert_eq!(twenty_five, 55312);
}

#[test]
fn stones_iterated_rules() {
    let after2 = stones::apply_rules_n_times(vec![125, 17], 2);
    assert_eq!(after2, vec![253, 0, 2024, 14168]);
}

#[test]
fn robots_safety_score() {
    let data: [(i64, i64, i64, i64); 12] = [
        (0, 4, 3, -3),
        (6, 3, -1, -3),
        (10, 3, -1, 2),
        (2, 0, 2, -1),
        (0, 0, 1, 3),
        (3, 0, -2, -2),
        (7, 6, -1, -3),
        (3, 0, -1, -2),
        (9, 3, 2, 3),
        (7, 3, -1, 2),
        (2, 4, 2, -3),
        (9, 5, -3, -3),
    ];
    let robots: Vec<Robot> = data
        .iter()
        .map(|(px, py, vx, vy)| Robot {
            position: Coordinates { x: *px, y: *py },
            velocity: Coordinates { x: *vx, y: *vy },
        })
        .collect();
    let bounds = Coordinates { x: 11, y: 7 };
    assert_eq!(safety_score_after_n_steps(&robots, 100, bounds), 12);
}

#[test]
fn word_search_sample() {
    let grid = "MMMSXXMASM\nMSAMXMSMSA\nAMXSXMAAMM\nMSAMASMSMX\nXMASAMXAMM\nXXAMMXXAMA\nSMSMSASXSS\nSAXAMASAAA\nMAMMMXMMMM\nMXMXAXMASX";
    let matrix = char_lines(grid);
    assert_eq!(word_search::find_xmas_times(&matrix), 18);
}

#[test]
fn patrol_parsing() {
    let matrix = char_lines("....#.....\n.........#\n..........\n..#.......\n.......#..\n..........\n.#..^.....");
    let guard = patrol::get_guard_position(&matrix).expect("guard present");
    assert_eq!((guard.x, guard.y), (4, 6));
    let obstacles = patrol::get_obstacles(&matrix);
    assert_eq!(obstacles.len(), 5);
    assert_eq!((obstacles[0].x, obstacles[0].y), (4, 0));
    assert_eq!(
        patrol::Direction::Up.turn_right(),
        patrol::Direction::Right
    );
    let step = patrol::Direction::Left.to_move();
    assert_eq!((step.x, step.y), (-1, 0));
}

#[test]
fn claw_rejects_malformed_input() {
    let lines = char_lines("Button A: X+1, Y+2\nnonsense\nPrize: X=3, Y=4\n");
    // a complete group must parse; a short trailing group is ignored
    assert!(claw::parse_input(&lines).is_some());
    let lines = char_lines("Button A: X+1, Y+2\nnonsense\nPrize: X=3, Y=4\n\n");
    assert!(claw::parse_input(&lines).is_none());
}

#[test]
fn warehouse_parser_maps_cells() {
    let lines = char_lines("###\n#@#\n###");
    let wh = warehouse::Warehouse::from_lines(&lines).expect("parses");
    assert!(wh.check_wf());
    assert_eq!((wh.robot_coords.x, wh.robot_coords.y), (1, 1));
    assert_eq!(
        wh.get_field(Coordinates { x: 0, y: 0 }),
        Some(warehouse::FieldState::Wall)
    );
    assert_eq!(
        wh.get_field(Coordinates { x: 1, y: 1 }),
        Some(warehouse::FieldState::Empty)
    );
    let bad = char_lines("#?#\n#@#\n###");
    assert!(warehouse::Warehouse::from_lines(&bad).is_none());
}

#[test]
fn page_order_rules() {
    let rules = page_order::precedence_map(vec![(47, 53), (97, 13)]);
    assert!(page_order::is_ordering_valid(&vec![47, 53], &rules));
    assert!(!page_order::is_ordering_valid(&vec![53, 47], &rules));
    assert!(page_order::is_ordering_valid(&vec![13, 53], &rules));
    let orderings = vec![vec![47, 53, 13], vec![53, 47, 13]];
    // only the first ordering is valid; its middle page is 53
    assert_eq!(page_order::sum_valid_middles(&orderings, &rules), 53);
}

#[test]
fn patrol_walk() {
    let field = Coordinates { x: 3, y: 3 };
    let obstacles = vec![Coordinates { x: 0, y: 0 }];
    let start = Coordinates { x: 0, y: 2 };
    let trace = patrol::generate_trace(field, obstacles, start, patrol::Direction::Up);
    // up once, blocked by the obstacle, turn right, leave to the east
    assert_eq!(trace.len(), 4);
    assert_eq!((trace[1].1.x, trace[1].1.y), (0, 1));
    assert_eq!((trace[3].1.x, trace[3].1.y), (2, 1));
}

#[test]
fn calibration_lines() {
    assert!(calibration::find_valid_operator_combination(&vec![10, 19], 190).is_some());
    assert!(calibration::find_valid_operator_combination(&vec![17, 5], 83).is_none());
    let ops = calibration::find_valid_operator_combination(&vec![81, 40, 27], 3267)
        .expect("solvable");
    assert_eq!(calibration::evaluate_term(&vec![81, 40, 27], &ops), 3267);
    let lines = vec![
        (190u64, vec![10u64, 19]),
        (3267, vec![81, 40, 27]),
        (83, vec![17, 5]),
        (161011, vec![16, 10, 13]),
    ];
    assert_eq!(calibration::sum_valid_results(&lines), 3457);
}

#[test]
fn antenna_groups_and_antinodes() {
    let matrix = char_lines("..a.\n....\n..a.\n...b");
    let groups = antennas::get_antennas(&matrix);
    assert_eq!(groups.len(), 2);
    assert_eq!(groups[0].0, 'a');
    assert_eq!(groups[0].1.len(), 2);
    assert_eq!(groups[1].0, 'b');
    let field = Coordinates { x: 4, y: 4 };
    // antennas at (2,0) and (2,2): mirrors land at (2,-2) and (2,4), both off
    // the field
    let nodes = antennas::get_antinodes(field, &groups[0].1);
    assert_eq!(nodes.len(), 0);
    // a taller field keeps (2,4)
    let field = Coordinates { x: 4, y: 6 };
    let nodes = antennas::get_antinodes(field, &groups[0].1);
    assert_eq!(nodes.len(), 1);
    assert_eq!((nodes[0].x, nodes[0].y), (2, 4));
}

#[test]
fn mul_scanner() {
    let line: Vec<char> =
        "xmul(2,4)%&mul[3,7]!@^do_not_mul(5,5)+mul(32,64]then(mul(11,8)mul(8,5))"
            .chars()
            .collect();
    let pairs = mul_program::parse_mul_statements(&line);
    assert_eq!(pairs, vec![(2, 4), (5, 5), (11, 8), (8, 5)]);
    assert_eq!(mul_program::sum_products(&vec![line]), 161);
    // a factor of four digits matches nowhere
    let line: Vec<char> = "mul(1234,5)".chars().collect();
    assert!(mul_program::parse_mul_statements(&line).is_empty());
}

