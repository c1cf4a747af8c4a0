use advent_hills::days::day12::{
    part1, part2,
    can_move, elevation, parse_input, shortest_path_multi_source, shortest_path_single_source,
    solve, GridError, Matrix, ParseError, Point, SearchError, END_VAL, START_VAL,
};

fn lines(rows: &[&str]) -> Vec<String> {
    rows.iter().map(|r| r.to_string()).collect()
}

fn grid(rows: &[&str]) -> Matrix<u8> {
    parse_input(&lines(rows)).unwrap()
}

const EXAMPLE: [&str; 5] = ["Sabqponm", "abcryxxl", "accszExk", "acctuvwj", "abdefghi"];

#[test]
fn example_single_source() {
    assert_eq!(shortest_path_single_source(&grid(&EXAMPLE)), Ok(31));
}

#[test]
fn example_multi_source() {
    assert_eq!(shortest_path_multi_source(&grid(&EXAMPLE)), Ok(29));
}

#[test]
fn example_solve() {
    assert_eq!(solve(&lines(&EXAMPLE)), Ok((Ok(31), Ok(29))));
}

#[test]
fn repeated_runs_agree() {
    let g = grid(&EXAMPLE);
    let first = shortest_path_single_source(&g);
    let second = shortest_path_single_source(&g);
    assert_eq!(first, second);
    assert_eq!(shortest_path_multi_source(&g), shortest_path_multi_source(&g));
}

#[test]
fn climbing_the_alphabet() {
    let g = grid(&["SbcdefghijklmnopqrstuvwxyzE"]);
    assert_eq!(shortest_path_single_source(&g), Ok(26));
    let g = grid(&["SabcdefghijklmnopqrstuvwxyzE"]);
    assert_eq!(shortest_path_single_source(&g), Ok(27));
    assert_eq!(shortest_path_multi_source(&g), Ok(26));
}

#[test]
fn start_counts_as_a_and_goal_as_z() {
    assert_eq!(shortest_path_single_source(&grid(&["SbczE"])), Err(SearchError::Unreachable));
    assert_eq!(shortest_path_single_source(&grid(&["SyzE"])), Err(SearchError::Unreachable));
    assert_eq!(shortest_path_single_source(&grid(&["zE", "Sz"])), Err(SearchError::Unreachable));
    assert_eq!(shortest_path_single_source(&grid(&["Sb"])), Err(SearchError::Unreachable));
    assert!(can_move(START_VAL, 2));
    assert!(!can_move(START_VAL, 3));
    assert!(can_move(25, END_VAL));
    assert!(!can_move(24, END_VAL));
}

#[test]
fn descent_of_any_height_is_allowed() {
    assert!(can_move(26, 1));
    assert!(can_move(END_VAL, START_VAL));
    assert!(can_move(5, 5));
    let g = grid(&["SbcdefghijklmnopqrstuvwxyzaaE"]);
    assert_eq!(shortest_path_single_source(&g), Err(SearchError::Unreachable));
    let g = grid(&["SbcdefghijklmnopqrstuvwxyzabcdefghijklmnopqrstuvwxyzE"]);
    assert_eq!(shortest_path_single_source(&g), Ok(52));
}

#[test]
fn ascent_above_one_is_refused() {
    assert!(!can_move(1, 3));
    assert!(!can_move(1, 26));
    assert!(can_move(1, 2));
}

#[test]
fn more_seeds_never_lengthen() {
    let g = grid(&["Sbcdefghijklmnopqrstuvwxyz", "aaaaaaaaaaaaaaaaaaaaaaaaaE"]);
    let single = shortest_path_single_source(&g).unwrap();
    let multi = shortest_path_multi_source(&g).unwrap();
    assert_eq!(single, 26);
    assert_eq!(multi, 26);
    let g = grid(&["Sbcdefghijklmnopqrstuvwxyz", "zzzzzzzzzzzzzzzzzzzzzzzzzz", "abcdefghijklmnopqrstuvwxyE"]);
    assert_eq!(shortest_path_single_source(&g), Ok(27));
    assert_eq!(shortest_path_multi_source(&g), Ok(25));
}

#[test]
fn goal_walled_off_by_high_cells() {
    let g = grid(&["Sbcaa", "bcczz", "aaczE"]);
    assert_eq!(shortest_path_single_source(&g), Err(SearchError::Unreachable));
    assert_eq!(shortest_path_multi_source(&g), Err(SearchError::Unreachable));
}

#[test]
fn flat_five_by_five_cannot_climb_into_goal() {
    let g = grid(&["Saaaa", "aaaaa", "aaaaa", "aaaaa", "aaaaE"]);
    assert_eq!(shortest_path_single_source(&g), Err(SearchError::Unreachable));
}

#[test]
fn start_surrounded_by_peaks() {
    let g = grid(&["Szaa", "zzaa", "aaaE"]);
    assert_eq!(shortest_path_single_source(&g), Err(SearchError::Unreachable));
    let g = grid(&["Szb", "zzb", "bbE"]);
    assert_eq!(shortest_path_multi_source(&g), Err(SearchError::Unreachable));
}

#[test]
fn single_peak_between_start_and_goal() {
    let g = grid(&["SzE"]);
    assert_eq!(shortest_path_single_source(&g), Err(SearchError::Unreachable));
    assert_eq!(shortest_path_multi_source(&g), Err(SearchError::Unreachable));
}

#[test]
fn goal_beside_start_needs_a_peak() {
    let g = Matrix { rows: 1, cols: 2, data: vec![START_VAL, END_VAL] };
    assert_eq!(shortest_path_single_source(&g), Err(SearchError::Unreachable));
    let g = Matrix { rows: 1, cols: 3, data: vec![START_VAL, 26, END_VAL] };
    assert_eq!(shortest_path_single_source(&g), Err(SearchError::Unreachable));
    let g = Matrix { rows: 1, cols: 2, data: vec![26, END_VAL] };
    assert_eq!(shortest_path_multi_source(&g), Err(SearchError::Unreachable));
}

#[test]
fn no_goal_or_no_seed_is_unreachable() {
    assert_eq!(shortest_path_single_source(&grid(&["Sabc"])), Err(SearchError::Unreachable));
    assert_eq!(shortest_path_single_source(&grid(&["abcE"])), Err(SearchError::Unreachable));
    assert_eq!(shortest_path_multi_source(&grid(&["abE"])), Err(SearchError::Unreachable));
    assert_eq!(shortest_path_single_source(&grid(&[])), Err(SearchError::Unreachable));
}

#[test]
fn parse_errors() {
    assert_eq!(parse_input(&lines(&["Sab", "ab"])).err(), Some(ParseError::Ragged));
    assert_eq!(parse_input(&lines(&["SaB", "abE"])).err(), Some(ParseError::InvalidSymbol));
    assert_eq!(solve(&lines(&["Sa1"])), Err(ParseError::InvalidSymbol));
    assert_eq!(elevation(b'S'), Ok(START_VAL));
    assert_eq!(elevation(b'E'), Ok(END_VAL));
    assert_eq!(elevation(b'a'), Ok(1));
    assert_eq!(elevation(b'z'), Ok(26));
    assert_eq!(elevation(b'{'), Err(ParseError::InvalidSymbol));
}

#[test]
fn parse_layout_is_row_major() {
    let g = grid(&["Sab", "cdE"]);
    assert_eq!((g.rows, g.cols), (2, 3));
    assert_eq!(g.data, vec![0, 1, 2, 3, 4, 27]);
    assert_eq!(g.get(&Point::new(2, 0)), Ok(&2));
    assert_eq!(g.get(&Point::new(0, 1)), Ok(&3));
    assert_eq!(g.get(&Point::new(3, 0)), Err(GridError::OutOfBounds));
    assert_eq!(g.get(&Point::new(0, 2)), Err(GridError::OutOfBounds));
}

#[test]
fn neighbours_in_fixed_order() {
    let g = grid(&["abc", "def", "ghi"]);
    assert_eq!(
        g.get_neighbours(&Point::new(1, 1)),
        vec![Point::new(1, 0), Point::new(0, 1), Point::new(2, 1), Point::new(1, 2)]
    );
    assert_eq!(g.get_neighbours(&Point::new(0, 0)), vec![Point::new(1, 0), Point::new(0, 1)]);
    assert_eq!(g.get_neighbours(&Point::new(2, 2)), vec![Point::new(2, 1), Point::new(1, 2)]);
}

#[test]
fn parts_run_both_variants() {
    let g = grid(&EXAMPLE);
    assert_eq!(part1(&g), Ok(31));
    assert_eq!(part2(&g), Ok(29));
}
