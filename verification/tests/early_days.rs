use aoc_puzzles::banks::{bank_of_line, one as banks_one, one_checked, pos_first_max, two as banks_two, two_checked, two_wrong};
use aoc_puzzles::dial::{parse_rotation, turn, Turn};
use aoc_puzzles::ids::{check1, check1_checked, check2};
use aoc_puzzles::ranges::{one as ranges_one, parse_line, sort_ranges, two as ranges_two, two_checked as ranges_two_checked, Entry};
use aoc_puzzles::rolls::{grid_row, one as rolls_one, two as rolls_two};

const ROTATIONS: [&str; 10] = ["L68", "L30", "R48", "L5", "R60", "L55", "L1", "L99", "R14", "L82"];

fn spin(lines: &[&str]) -> (i32, i32) {
    let mut pos = 50;
    let mut zeros = 0;
    for line in lines {
        let (left, num) = parse_rotation(line).unwrap();
        let t = turn(pos, zeros, left, num);
        pos = t.pos;
        zeros = t.zeros;
    }
    (pos, zeros)
}

#[test]
fn rotation_lines_are_read() {
    assert_eq!(parse_rotation("L68"), Some((true, 68)));
    assert_eq!(parse_rotation("R48"), Some((false, 48)));
    assert_eq!(parse_rotation("R1000"), Some((false, 1000)));
    assert_eq!(parse_rotation(""), None);
    assert_eq!(parse_rotation("Lx"), None);
    assert_eq!(parse_rotation("L"), None);
}

#[test]
fn dial_example_counts_six_zero_clicks() {
    assert_eq!(spin(&ROTATIONS), (32, 6));
}

#[test]
fn turn_past_zero_to_the_left() {
    let t = turn(50, 0, true, 68);
    assert_eq!(t, Turn { pos: 82, zeros: 1, whole: 0, counted: true });
}

#[test]
fn turn_landing_on_zero() {
    let t = turn(52, 1, false, 48);
    assert_eq!(t, Turn { pos: 0, zeros: 2, whole: 0, counted: true });
}

#[test]
fn turn_from_zero_does_not_count_the_start() {
    let t = turn(0, 2, true, 5);
    assert_eq!(t, Turn { pos: 95, zeros: 2, whole: 0, counted: false });
}

#[test]
fn whole_turns_each_pass_zero_once() {
    // 1000 clicks right from 50: ten whole turns, back at 50.
    let t = turn(50, 0, false, 1000);
    assert_eq!(t, Turn { pos: 50, zeros: 10, whole: 10, counted: false });
    // 250 clicks left from 10: two whole turns, then 50 more pass zero.
    let t = turn(10, 0, true, 250);
    assert_eq!(t, Turn { pos: 60, zeros: 3, whole: 2, counted: true });
}

#[test]
fn doubled_ids_in_example_ranges() {
    assert_eq!(check1("11", "22"), 33);
    assert_eq!(check1("95", "115"), 99);
    assert_eq!(check1("998", "1012"), 1010);
    assert_eq!(check1("1188511880", "1188511890"), 1188511885);
    assert_eq!(check1("222220", "222224"), 222222);
    assert_eq!(check1("1698522", "1698528"), 0);
    assert_eq!(check1("446443", "446449"), 446446);
    assert_eq!(check1("38593856", "38593862"), 38593859);
}

#[test]
fn doubled_ids_of_unreadable_range_are_zero() {
    assert_eq!(check1("x", "22"), 0);
    assert_eq!(check1("11", ""), 0);
}

#[test]
fn doubled_ids_from_single_digit_start() {
    // The walk starts at block 1: 11, 22, ..., 99 are all in 1..=100.
    assert_eq!(check1("1", "100"), 495);
}

#[test]
fn repeated_ids_in_example_ranges() {
    assert_eq!(check2("11", "22"), 33);
    assert_eq!(check2("95", "115"), 210);
    assert_eq!(check2("998", "1012"), 2009);
    assert_eq!(check2("1188511880", "1188511890"), 1188511885);
    assert_eq!(check2("222220", "222224"), 222222);
    assert_eq!(check2("1698522", "1698528"), 0);
    assert_eq!(check2("565653", "565659"), 565656);
    assert_eq!(check2("824824821", "824824827"), 824824824);
    assert_eq!(check2("2121212118", "2121212124"), 2121212121);
}

#[test]
fn repeated_ids_are_counted_once() {
    // 1111 is 1 four times and 11 twice; 2222 likewise.
    assert_eq!(check2("1100", "2300"), 1111 + 1212 + 1313 + 1414 + 1515 + 1616 + 1717 + 1818 + 1919 + 2020 + 2121 + 2222);
    assert_eq!(check2("x", "9"), 0);
}

const BANKS: [&str; 4] = ["987654321111111", "811111111111119", "234234234234278", "818181911112111"];

fn bank_matrix() -> Vec<Vec<i32>> {
    BANKS.iter().map(|l| bank_of_line(l)).collect()
}

#[test]
fn bank_lines_are_digits() {
    assert_eq!(bank_of_line(" 8a19 "), vec![8, 1, 9]);
}

#[test]
fn first_max_position() {
    assert_eq!(pos_first_max(&[1, 3, 2, 3]), (3, 1));
    assert_eq!(pos_first_max(&[5]), (5, 0));
}

#[test]
fn two_batteries_example() {
    assert_eq!(banks_one(bank_matrix()), 357);
    assert_eq!(banks_one(vec![vec![8, 1, 9]]), 89);
    assert_eq!(banks_one(vec![vec![1, 9]]), 19);
}

#[test]
fn twelve_batteries_example() {
    assert_eq!(banks_two(bank_matrix(), 12), 3121910778619);
}

#[test]
fn picking_two_agrees_with_the_pair_search() {
    assert_eq!(banks_two(bank_matrix(), 2), 357);
}

#[test]
fn picking_all_batteries_keeps_the_bank() {
    assert_eq!(banks_two(vec![vec![1, 2, 3]], 3), 123);
}

#[test]
fn first_greedy_attempt() {
    assert_eq!(two_wrong(vec![vec![9, 8, 7]], 2), 98);
    assert_eq!(two_wrong(vec![vec![1, 2, 3]], 2), 23);
    assert_eq!(two_wrong(vec![vec![9, 8, 7], vec![1, 2, 3]], 2), 121);
}

const ROLLS: [&str; 10] = [
    "..@@.@@@@.",
    "@@@.@.@.@@",
    "@@@@@.@.@@",
    "@.@@@@..@.",
    "@@.@@@@.@@",
    ".@@@@@@@.@",
    ".@.@.@.@@@",
    "@.@@@.@@@@",
    ".@@@@@@@@.",
    "@.@.@@@.@.",
];

fn roll_grid() -> Vec<Vec<i32>> {
    ROLLS.iter().map(|l| grid_row(l)).collect()
}

#[test]
fn grid_rows_mark_rolls() {
    assert_eq!(grid_row(" .@@. "), vec![0, 1, 1, 0]);
}

#[test]
fn reachable_rolls_example() {
    let (n, after) = rolls_one(roll_grid());
    assert_eq!(n, 13);
    assert_eq!(after[0], vec![0, 0, 0, 0, 0, 0, 0, 1, 0, 0]);
    let total: i32 = after.iter().flatten().sum();
    let before: i32 = roll_grid().iter().flatten().sum();
    assert_eq!(before - total, 13);
}

#[test]
fn all_removable_rolls_example() {
    assert_eq!(rolls_two(roll_grid()), 43);
}

#[test]
fn a_lone_roll_is_removed() {
    let (n, after) = rolls_one(vec![vec![0, 0], vec![0, 1]]);
    assert_eq!(n, 1);
    assert_eq!(after, vec![vec![0, 0], vec![0, 0]]);
}

#[test]
fn range_lines_are_read() {
    assert_eq!(parse_line("3-5"), Entry::Range(3, 5));
    assert_eq!(parse_line("17"), Entry::Id(17));
    assert_eq!(parse_line(""), Entry::Skip);
    assert_eq!(parse_line("a-b"), Entry::Skip);
    assert_eq!(parse_line("-5"), Entry::Skip);
    assert_eq!(parse_line("5-"), Entry::Skip);
    assert_eq!(parse_line("x"), Entry::Skip);
}

fn example_ranges() -> Vec<(i64, i64)> {
    vec![(3, 5), (10, 14), (16, 20), (12, 18)]
}

#[test]
fn fresh_ids_example() {
    assert_eq!(ranges_one(&example_ranges(), &vec![1, 5, 8, 11, 17, 32]), 3);
    assert_eq!(ranges_one(&example_ranges(), &vec![]), 0);
}

#[test]
fn ranges_sorted_by_start() {
    assert_eq!(sort_ranges(&example_ranges()), vec![(3, 5), (10, 14), (12, 18), (16, 20)]);
    assert_eq!(sort_ranges(&vec![(5, 6), (1, 9), (5, 5)]), vec![(1, 9), (5, 6), (5, 5)]);
}

#[test]
fn covered_ids_example() {
    assert_eq!(ranges_two(example_ranges()), 14);
}

#[test]
fn covered_ids_of_nested_and_touching_ranges() {
    // 1..=10 holds 2..=3; 11..=12 only touches it and is counted on its own.
    assert_eq!(ranges_two(vec![(2, 3), (1, 10), (11, 12)]), 12);
    assert_eq!(ranges_two(vec![(7, 7)]), 1);
}

#[test]
fn checked_bank_sums_tell_when_the_sums_run() {
    let banks: Vec<Vec<i32>> = vec![vec![9, 8, 7, 6, 5, 4, 3, 2, 1, 1, 1, 1, 1, 1, 1], vec![8, 1, 1, 1, 1, 1, 1, 1, 1, 1, 1, 1, 1, 1, 9]];
    assert_eq!(one_checked(&banks), Some(banks_one(banks.clone())));
    assert_eq!(two_checked(&banks, 12), Some(banks_two(banks.clone(), 12)));
    assert_eq!(one_checked(&vec![vec![5]]), None);
    assert_eq!(one_checked(&vec![vec![]]), None);
    assert_eq!(two_checked(&banks, 16), None);
    assert_eq!(two_checked(&banks, 0), None);
    assert_eq!(two_checked(&vec![vec![9; 38], vec![9; 38]], 38), None);
    assert_eq!(two_checked(&vec![vec![9; 38]], 38), Some(99999999999999999999999999999999999999));
    assert_eq!(one_checked(&vec![vec![i32::MAX, 1]]), None);
}

#[test]
fn checked_range_total_tells_when_it_runs() {
    let rs = vec![(3, 5), (10, 14), (16, 20), (12, 18)];
    assert_eq!(ranges_two_checked(rs.clone()), Some(ranges_two(rs)));
    assert_eq!(ranges_two_checked(vec![]), None);
    assert_eq!(ranges_two_checked(vec![(i64::MIN, i64::MAX)]), None);
    assert_eq!(ranges_two_checked(vec![(0, i64::MAX - 1)]), Some(i64::MAX));
    assert_eq!(ranges_two_checked(vec![(0, i64::MAX - 1), (i64::MAX, i64::MAX)]), None);
}

#[test]
fn checked_doubled_ids_tell_when_the_walk_runs() {
    assert_eq!(check1_checked("11", "22"), Some(check1("11", "22")));
    assert_eq!(check1_checked("998", "1012"), Some(1010));
    assert_eq!(check1_checked("a", "22"), Some(0));
    assert_eq!(check1_checked("+5", "22"), None);
    assert_eq!(check1_checked("999999990999999990", "999999999999999999"), None);
    assert_eq!(check1_checked("999999998999999998", "999999999999999999"), Some(999999998999999998 + 999999999999999999));
}
