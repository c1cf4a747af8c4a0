use advent_hills::days::day02::{find_winning_move, get_outcome, get_score, Move, Outcome};
use advent_hills::days::{day01, day02, day03, day04, day05, day06, day07, day08, day09, day10};

fn lines(rows: &[&str]) -> Vec<String> {
    rows.iter().map(|r| r.to_string()).collect()
}

#[test]
fn calories_example() {
    let input = lines(&[
        "1000", "2000", "3000", "", "4000", "", "5000", "6000", "", "7000", "8000", "9000", "",
        "10000",
    ]);
    assert_eq!(day01::solve(&input), Ok((Some(24000), Some(45000))));
}

#[test]
fn calories_fewer_elves_than_asked() {
    let groups = vec![vec![5, 6], vec![1]];
    assert_eq!(day01::get_top_n_calories(&groups, 3), Some(12));
    assert_eq!(day01::get_top_n_calories(&groups, 1), Some(11));
    assert_eq!(day01::get_top_n_calories(&groups, 0), Some(0));
    assert_eq!(day01::get_top_n_calories(&vec![vec![3], vec![9], vec![4]], 2), Some(13));
    assert_eq!(day01::get_top_n_calories(&vec![vec![9], vec![3], vec![4]], 2), Some(13));
    assert_eq!(day01::get_top_n_calories(&vec![vec![9], vec![3], vec![4]], 1), Some(9));
}

#[test]
fn calories_signed_lines() {
    assert_eq!(day01::solve(&lines(&["-1"])), Ok((Some(-1), Some(-1))));
    assert_eq!(day01::solve(&lines(&["+5", "-2", "", "1"])), Ok((Some(3), Some(4))));
    let groups = vec![vec![i32::MAX, i32::MAX, i32::MAX]];
    assert_eq!(day01::get_top_n_calories(&groups, 1), Some(3 * i32::MAX as i128));
    assert_eq!(day01::get_top_n_calories(&vec![vec![i32::MIN], vec![-1]], 2), Some(i32::MIN as i128 - 1));
}

#[test]
fn calories_groups_split_at_blank_lines() {
    let parsed = day01::parse_input(&lines(&["1", "", "", "2", "-3", ""])).unwrap();
    assert_eq!(parsed, vec![vec![1], vec![], vec![2, -3], vec![]]);
    assert_eq!(day01::parse_input(&lines(&[])).unwrap(), vec![Vec::<i32>::new()]);
    assert_eq!(day01::parse_input(&lines(&["12", "x3"])), Err(()));
    assert_eq!(day01::parse_input(&lines(&["2147483648"])), Err(()));
}

#[test]
fn strategy_example() {
    assert_eq!(day02::solve(&lines(&["A Y", "B X", "C Z"])), Ok((15, 12)));
}

#[test]
fn strategy_rules() {
    assert_eq!(get_outcome(&Move::Paper, &Move::Rock), Outcome::Win);
    assert_eq!(get_outcome(&Move::Rock, &Move::Paper), Outcome::Loose);
    assert_eq!(get_outcome(&Move::Scissor, &Move::Scissor), Outcome::Draw);
    assert_eq!(get_outcome(&Move::Rock, &Move::Scissor), Outcome::Win);
    assert_eq!(find_winning_move(&Move::Rock, &Outcome::Win), Move::Paper);
    assert_eq!(find_winning_move(&Move::Scissor, &Outcome::Loose), Move::Paper);
    assert_eq!(find_winning_move(&Move::Paper, &Outcome::Draw), Move::Paper);
    assert_eq!(get_score(&Move::Scissor, &Outcome::Win), 9);
    assert_eq!(get_score(&Move::Rock, &Outcome::Loose), 1);
}

#[test]
fn strategy_lines_without_space_are_skipped() {
    assert_eq!(day02::parse_input(&lines(&["A Y", "", "AX", "C Z"])), Ok(vec![(0, 1), (2, 2)]));
    assert_eq!(day02::parse_input(&lines(&["A Y", "A  Y"])), Err(()));
    assert_eq!(day02::parse_input(&lines(&["D X"])), Err(()));
    assert_eq!(day02::idx_from_str(b"B"), Ok(1));
    assert_eq!(day02::idx_from_str(b"BB"), Err(()));
}

const SACKS: [&str; 6] = [
    "vJrwpWtwJgWrhcsFMMfFFhFp",
    "jqHRNqRjqzjGDLGLrsFMfFZSrLrFZsSL",
    "PmmdzqPrVvPwwTWBwg",
    "wMqvLMZHhHMvwLHjbvcjnnSBnvTQFn",
    "ttgJtRGJQctTZtZT",
    "CrZsJsPPZsGzwwsLwLmpwMDw",
];

#[test]
fn rucksack_example() {
    assert_eq!(day03::solve(&lines(&SACKS)), Ok((157, 70)));
}

#[test]
fn rucksack_items_and_errors() {
    let sack = day03::Rucksack::from_bytes(b"vJrwpWtwJgWrhcsFMMfFFhFp").unwrap();
    assert_eq!(sack.get_error_item(), Some(day03::Itemtype(b'p')));
    assert_eq!(day03::Itemtype(b'p').get_rank(), 16);
    assert_eq!(day03::Itemtype(b'L').get_rank(), 38);
    assert_eq!(day03::ItemtypeCounter::get_char(0), day03::Itemtype(b'a'));
    assert_eq!(day03::ItemtypeCounter::get_char(51), day03::Itemtype(b'Z'));
    let sack = day03::Rucksack::from_bytes(b"abcd").unwrap();
    assert_eq!(sack.get_error_item(), None);
    assert!(day03::Rucksack::from_bytes(b"ab1c").is_err());
    assert_eq!(day03::solve(&lines(&SACKS[0..4])), Err(()));
    assert_eq!(day03::solve(&lines(&["aa", "b-", "cc"])), Err(()));
}

#[test]
fn section_pairs_example() {
    let input = lines(&["2-4,6-8", "2-3,4-5", "5-7,7-9", "2-8,3-7", "6-6,4-6", "2-6,4-8"]);
    assert_eq!(day04::solve(&input), Ok((2, 4)));
}

#[test]
fn section_pairs_parsing() {
    let p = day04::Pair::from_bytes(b"12-345,6-7").unwrap();
    assert_eq!(p, day04::Pair(day04::Assignment { from: 12, to: 345 }, day04::Assignment { from: 6, to: 7 }));
    assert!(!p.is_contained());
    assert!(!p.is_overlapped());
    assert!(day04::Pair::from_bytes(b"2-4").is_err());
    assert!(day04::Pair::from_bytes(b"2-4,x-5").is_err());
    assert!(day04::Pair::from_bytes(b"2-4,5").is_err());
    assert_eq!(day04::solve(&lines(&["1-2,3-4", "1-2;3-4"])), Err(()));
}

#[test]
fn marker_examples() {
    let cases: [(&str, usize, usize); 5] = [
        ("mjqjpqmgbljsphdztnvjfqwrcgsmlb", 7, 19),
        ("bvwbjplbgvbhsrlpgdmjqwftvncz", 5, 23),
        ("nppdvjthqldpwncqszvftbrmjlhg", 6, 23),
        ("nznrnfrfntjfmvfwmzdfjlvtqnbhcprsg", 10, 29),
        ("zcfzfwzzqfrljwzlrfnpqdbhtmscgvjw", 11, 26),
    ];
    for (text, a, b) in cases {
        assert_eq!(day06::solve(&lines(&[text])), Ok((Some(a), Some(b))));
    }
}

#[test]
fn marker_edge_cases() {
    assert_eq!(day06::find_unique_n(b"abcd", 4), Some(4));
    assert_eq!(day06::find_unique_n(b"aaaa", 4), None);
    assert_eq!(day06::find_unique_n(b"abc", 4), Some(4));
    assert_eq!(day06::find_unique_n(b"aab", 4), None);
    assert_eq!(day06::find_unique_n(b"", 0), Some(0));
    assert_eq!(day06::solve(&lines(&[])), Err(()));
}

#[test]
fn letter_counter_counts() {
    let mut c = day06::LetterCounter::new();
    c.add(b'x');
    c.add(b'x');
    assert!(!c.is_valid());
    c.remove(b'x');
    assert!(c.is_valid());
    c.remove(b'y');
    assert_eq!(c.counter[b'x' as usize], 1);
    assert_eq!(c.adds_performed, 2);
}

#[test]
fn cpu_signal() {
    let mut program = vec!["addx 2"];
    program.extend(std::iter::repeat("noop").take(18));
    let (signal, _) = day10::solve(&lines(&program)).unwrap();
    assert_eq!(signal, Some(60));
    let program: Vec<&str> = std::iter::repeat("noop").take(60).collect();
    let (signal, _) = day10::solve(&lines(&program)).unwrap();
    assert_eq!(signal, Some(80));
}

#[test]
fn cpu_screen_and_parsing() {
    let (_, screen) = day10::solve(&lines(&["noop", "addx -7"])).unwrap();
    assert_eq!(screen.len(), 240);
    assert_eq!(&screen[0..4], &[true, true, true, false]);
    assert_eq!(
        day10::parse_input(&lines(&["addx -7", "noop", "other"])),
        Ok(vec![day10::Instruction::SetY(-7), day10::Instruction::AddXY, day10::Instruction::Noop, day10::Instruction::Noop])
    );
    assert_eq!(day10::parse_input(&lines(&["addx z"])), Err(()));
    assert_eq!(day10::parse_input(&lines(&["addx 2147483648"])), Err(()));
    let mut cpu = day10::Cpu::new();
    cpu.perform(&day10::Instruction::SetY(4));
    cpu.perform(&day10::Instruction::AddXY);
    cpu.bump_cycle();
    assert_eq!(cpu.get_signal_strength(), Some(5));
}

const CRATES: [&str; 9] = [
    "    [D]    ",
    "[N] [C]    ",
    "[Z] [M] [P]",
    " 1   2   3 ",
    "",
    "move 1 from 2 to 1",
    "move 3 from 1 to 3",
    "move 2 from 2 to 1",
    "move 1 from 1 to 2",
];

#[test]
fn crate_stacks_example() {
    let (single, batched) = day05::solve(&lines(&CRATES)).unwrap();
    assert_eq!(single, b"CMZ".to_vec());
    assert_eq!(batched, Some(b"MCD".to_vec()));
}

#[test]
fn crate_stacks_parsing() {
    let data = day05::parse_input(&lines(&CRATES)).unwrap();
    assert_eq!(data.stacks, vec![b"ZN".to_vec(), b"MCD".to_vec(), b"P".to_vec()]);
    assert_eq!(data.moves[1], day05::Move { num: 3, from: 1, to: 3 });
    assert_eq!(day05::Move::from_bytes(b"move 12 from 3 to 40"), Some(day05::Move { num: 12, from: 3, to: 40 }));
    assert_eq!(day05::Move::from_bytes(b"move 256 from 3 to 4"), None);
    assert_eq!(day05::Move::from_bytes(b"move 2 to 3 from 4"), None);
    assert!(day05::parse_input(&lines(&["", "move 1 from 1 to 2"])).is_err());
    assert!(day05::parse_input(&lines(&["[A]", " 1 ", "", "move x from 1 to 1"])).is_err());
}

#[test]
fn crate_stacks_errors_and_short_stacks() {
    assert!(day05::solve(&lines(&["[A]", " 1 ", "", "move 1 from 1 to 2"])).is_err());
    let (single, batched) = day05::solve(&lines(&["[A]", " 1 ", "", "move 2 from 1 to 1"])).unwrap();
    assert_eq!(single, b"A".to_vec());
    assert_eq!(batched, None);
    let (single, batched) = day05::solve(&lines(&["[A]    ", "[B] [C]", " 1   2 ", "", "move 2 from 1 to 2"])).unwrap();
    assert_eq!(single, b"B".to_vec());
    assert_eq!(batched, Some(b"A".to_vec()));
}

#[test]
fn rope_example() {
    let input = lines(&["R 4", "U 4", "L 3", "D 1", "R 4", "D 1", "L 5", "R 2"]);
    assert_eq!(day09::solve(&input), Ok((13, 1)));
}

#[test]
fn rope_larger_example() {
    let input = lines(&["R 5", "U 8", "L 8", "D 3", "R 17", "D 10", "L 25", "U 20"]);
    assert_eq!(day09::solve(&input).map(|(_, b)| b), Ok(36));
}

#[test]
fn rope_knot_following() {
    let p = |x, y| day09::Point::new(x, y);
    assert_eq!(day09::Point::get_tail_move(&p(0, 0), &p(0, 0)), None);
    assert_eq!(day09::Point::get_tail_move(&p(1, 1), &p(0, 0)), None);
    assert_eq!(day09::Point::get_tail_move(&p(2, 0), &p(0, 0)), Some(day09::Direction::Right(1)));
    assert_eq!(day09::Point::get_tail_move(&p(0, -2), &p(0, 0)), Some(day09::Direction::Down(1)));
    assert_eq!(day09::Point::get_tail_move(&p(2, 1), &p(0, 0)), Some(day09::Direction::Diag(1, 1)));
    assert_eq!(day09::Point::get_tail_move(&p(-1, -2), &p(0, 0)), Some(day09::Direction::Diag(-1, -1)));
    let mut q = p(3, 3);
    q.make_move(&day09::Direction::Diag(-1, 1));
    assert_eq!(q, p(2, 4));
    assert!(p(0, 0).is_too_far(&p(2, 2)));
    assert!(!p(0, 0).is_too_far(&p(-1, 1)));
}

#[test]
fn rope_parsing() {
    assert_eq!(day09::Direction::from_bytes(b"L 12"), Ok(day09::Direction::Left(12)));
    assert_eq!(day09::Direction::from_bytes(b"X 1"), Err(()));
    assert_eq!(day09::Direction::from_bytes(b"U"), Err(()));
    assert_eq!(day09::solve(&lines(&["R 2", "Q 1"])), Err(()));
    assert_eq!(day09::solve(&lines(&["R 2147483647"])), Err(()));
    assert_eq!(day09::solve(&lines(&[])), Ok((1, 1)));
    assert_eq!(day09::solve(&lines(&["L -3", "U 0"])), Ok((1, 1)));
}

const TREES: [&str; 5] = ["30373", "25512", "65332", "33549", "35390"];

#[test]
fn trees_example() {
    assert_eq!(day08::solve(&lines(&TREES)), Ok((21, 8)));
}

#[test]
fn trees_scenic_scores() {
    let g = day08::parse_input(&lines(&TREES)).unwrap();
    assert_eq!(day08::get_scenic_score(2, 1, &g, 5), 4);
    assert_eq!(day08::get_scenic_score(2, 3, &g, 5), 8);
    assert_eq!(day08::get_scenic_score(0, 0, &g, 5), 0);
    assert_eq!(day08::get_max_scenic_score(&g, 5), 8);
    assert_eq!(day08::count_visible(&g, 5), 21);
}

#[test]
fn trees_small_and_invalid() {
    assert_eq!(day08::solve(&lines(&["5"])), Ok((1, 0)));
    assert_eq!(day08::solve(&lines(&["12", "34"])), Ok((4, 0)));
    assert_eq!(day08::solve(&lines(&["111", "101", "111"])), Ok((8, 1)));
    assert_eq!(day08::solve(&lines(&["12", "3"])), Err(()));
    assert_eq!(day08::solve(&lines(&["1a"])), Err(()));
    assert_eq!(day08::solve(&lines(&[])), Err(()));
    assert_eq!(day08::Point::new(3, 4), day08::Point { x: 3, y: 4 });
}

const SESSION: [&str; 23] = [
    "$ cd /", "$ ls", "dir a", "14848514 b.txt", "8504156 c.dat", "dir d", "$ cd a", "$ ls", "dir e",
    "29116 f", "2557 g", "62596 h.lst", "$ cd e", "$ ls", "584 i", "$ cd ..", "$ cd ..", "$ cd d",
    "$ ls", "4060174 j", "8033020 d.log", "5626152 d.ext", "7214296 k",
];

#[test]
fn filesystem_example() {
    assert_eq!(day07::solve(&lines(&SESSION)), Ok((95437, Some(24933642))));
}

#[test]
fn filesystem_sizes_and_errors() {
    let mut fs = day07::Filesystem::new();
    assert_eq!(fs.build(&lines(&SESSION)), Ok(fs.find_child(fs.find_child(0, b"/").unwrap(), b"d").unwrap()));
    let root = fs.find_child(0, b"/").unwrap();
    assert_eq!(fs.calc_size(root), Some(48381165));
    let a = fs.find_child(root, b"a").unwrap();
    assert_eq!(fs.calc_size(a), Some(94853));
    assert!(fs.is_under(fs.find_child(a, b"e").unwrap(), root));
    assert!(!fs.is_under(a, fs.find_child(root, b"d").unwrap()));
    assert_eq!(day07::solve(&lines(&["$ cd /", "abc"])), Err(()));
    assert_eq!(day07::solve(&lines(&["$ cd /", "x1 f"])), Err(()));
    assert_eq!(day07::solve(&lines(&["$ cd /", "$ ls", "10 f"])), Ok((10, None)));
    assert_eq!(day07::solve(&lines(&["$ ls"])), Ok((0, None)));
}
