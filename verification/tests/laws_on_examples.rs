use aoc_puzzles::banks::{one as banks_one, two as banks_two};
use aoc_puzzles::circuits::{largest_circuits, last_connection};
use aoc_puzzles::dial::turn;
use aoc_puzzles::ids::{check1, check2};
use aoc_puzzles::presents::{one as presents_one, parse_input};
use aoc_puzzles::ranges::two as ranges_two;
use aoc_puzzles::rolls::{one as rolls_one, two as rolls_two};

fn is_doubled(x: i64) -> bool {
    let s = x.to_string();
    s.len() % 2 == 0 && s[..s.len() / 2] == s[s.len() / 2..]
}

fn is_repeated(x: i64) -> bool {
    let s = x.to_string();
    (1..s.len()).any(|b| s.len() % b == 0 && s[..b].repeat(s.len() / b) == s)
}

#[test]
fn doubled_ids_match_a_scan_of_the_range() {
    for (a, b) in [(0, 100), (1, 2000), (10, 99), (95, 1212), (500, 100000)] {
        let expect: i64 = (a..=b).filter(|&x| is_doubled(x)).sum();
        assert_eq!(check1(&a.to_string(), &b.to_string()), expect, "range {a}-{b}");
    }
    assert_eq!(check1("00", "100"), 495);
}

#[test]
fn repeated_ids_match_a_scan_of_the_range() {
    for (a, b) in [(1, 2000), (10, 99), (95, 1212), (500, 100000)] {
        let expect: i64 = (a..=b).filter(|&x| is_repeated(x)).sum();
        assert_eq!(check2(&a.to_string(), &b.to_string()), expect, "range {a}-{b}");
    }
}

#[test]
fn merged_ranges_count_each_covered_id_once() {
    let cases: Vec<Vec<(i64, i64)>> = vec![
        vec![(3, 5), (10, 14), (16, 20), (12, 18)],
        vec![(1, 1), (1, 1), (2, 2)],
        vec![(5, 9), (1, 3), (2, 6), (20, 25), (21, 22)],
        vec![(-4, -1), (0, 0), (-2, 3)],
    ];
    for ranges in cases {
        let lo = ranges.iter().map(|r| r.0).min().unwrap();
        let hi = ranges.iter().map(|r| r.1).max().unwrap();
        let expect = (lo..=hi).filter(|&x| ranges.iter().any(|r| r.0 <= x && x <= r.1)).count() as i64;
        assert_eq!(ranges_two(ranges.clone()), expect, "{ranges:?}");
    }
}

fn best_pick(bank: &[i32], size: usize) -> i128 {
    // Every way of choosing `size` batteries in order, by bit mask.
    let n = bank.len();
    let mut best = 0i128;
    for mask in 0u32..(1 << n) {
        if mask.count_ones() as usize == size {
            let v = (0..n).filter(|&i| mask >> i & 1 == 1).fold(0i128, |acc, i| acc * 10 + bank[i] as i128);
            best = best.max(v);
        }
    }
    best
}

#[test]
fn battery_picks_are_the_largest_possible() {
    let banks: Vec<Vec<i32>> = vec![
        vec![9, 8, 7, 6, 5, 4, 3, 2, 1, 1, 1, 1, 1, 1, 1],
        vec![8, 1, 1, 1, 1, 1, 1, 1, 1, 1, 1, 1, 1, 1, 9],
        vec![2, 3, 4, 2, 3, 4, 2, 3, 4, 2, 3, 4, 2, 7, 8],
        vec![1, 9, 1, 9, 2, 8, 3],
    ];
    for bank in &banks {
        assert_eq!(banks_one(vec![bank.clone()]) as i128, best_pick(bank, 2), "{bank:?}");
        for size in 1..=bank.len().min(12) {
            assert_eq!(banks_two(vec![bank.clone()], size), best_pick(bank, size), "{bank:?} {size}");
        }
    }
}

#[test]
fn two_batteries_per_bank_is_part_one() {
    let banks: Vec<Vec<i32>> = vec![
        vec![9, 8, 7, 6, 5, 4, 3, 2, 1, 1, 1, 1, 1, 1, 1],
        vec![8, 1, 1, 1, 1, 1, 1, 1, 1, 1, 1, 1, 1, 1, 9],
        vec![2, 3, 4, 2, 3, 4, 2, 3, 4, 2, 3, 4, 2, 7, 8],
        vec![8, 1, 1, 1, 1, 1, 1, 1, 1, 1, 1, 1, 1, 1, 1, 1, 1, 9],
        vec![1, 2],
        vec![5, 5, 5],
    ];
    assert_eq!(banks_two(banks.clone(), 2), banks_one(banks) as i128);
}

#[test]
fn zero_count_matches_clicking_one_by_one() {
    for pos in [0, 1, 50, 99] {
        for left in [true, false] {
            for num in [0, 1, 49, 50, 99, 100, 101, 250, 1000] {
                let mut p = pos;
                let mut hits = 0;
                for _ in 0..num {
                    p = (p + if left { 99 } else { 1 }) % 100;
                    if p == 0 {
                        hits += 1;
                    }
                }
                let t = turn(pos, 7, left, num);
                assert_eq!((t.pos, t.zeros), (p, 7 + hits), "{pos} {left} {num}");
            }
        }
    }
}

#[test]
fn all_rounds_take_every_roll_that_goes() {
    let g = vec![vec![1, 1, 1], vec![1, 1, 1], vec![1, 1, 1]];
    let (first, after) = rolls_one(g.clone());
    assert_eq!(first, 4);
    let before: i32 = g.iter().flatten().sum();
    let left: i32 = after.iter().flatten().sum();
    assert_eq!(before - left, first);
    assert_eq!(rolls_two(g), 9);
}

/// The sizes of the linked groups of the boxes named by the pairs, by a plain search.
fn component_sizes(n: usize, pairs: &[(usize, usize)]) -> Vec<usize> {
    let touched: Vec<bool> = (0..n).map(|b| pairs.iter().any(|&(p, q)| p == b || q == b)).collect();
    let mut seen = vec![false; n];
    let mut sizes = Vec::new();
    for s in 0..n {
        if seen[s] || !touched[s] {
            continue;
        }
        let mut stack = vec![s];
        seen[s] = true;
        let mut size = 0;
        while let Some(u) = stack.pop() {
            size += 1;
            for &(p, q) in pairs {
                for (a, b) in [(p, q), (q, p)] {
                    if a == u && !seen[b] {
                        seen[b] = true;
                        stack.push(b);
                    }
                }
            }
        }
        sizes.push(size);
    }
    sizes.sort_by(|a, b| b.cmp(a));
    sizes
}

#[test]
fn circuits_are_the_linked_groups() {
    let pairs = vec![(0, 1), (2, 3), (4, 5), (1, 2), (6, 7), (7, 8), (3, 0), (9, 10), (5, 9)];
    for k in 3..=pairs.len() {
        let sizes = component_sizes(12, &pairs[..k]);
        if sizes.len() >= 3 {
            assert_eq!(largest_circuits(12, &pairs, k as i32), (sizes[0] * sizes[1] * sizes[2]) as i32, "{k}");
        }
    }
    let joined = vec![(0, 1), (2, 3), (1, 2), (3, 4)];
    assert_eq!(last_connection(5, &joined), (3, 4));
}

#[test]
fn regions_counted_as_fitting_and_rejected() {
    // Shape 0 is a full 3x3 block; shape 1 is a single cell.
    let input = "0:\n###\n###\n###\n1:\n#\n6x3: 2 0\n6x3: 2 1\n3x3: 0 9\n3x3: 0 10\n";
    let (shapes, grids) = parse_input(input).unwrap();
    // 6x3 holds two 3x3 boxes: two blocks surely fit; two blocks and a cell cover 19 > 18
    // cells and surely do not; nine cells in a 3x3 region are left undecided; ten do not fit.
    assert_eq!(presents_one(&shapes, &grids), (1, vec![2]));
}

use aoc_puzzles::devices::{
    build_graph, compute_is_sets, find_node, one as devices_one, parse_device_line, two as devices_two, Graph,
};

fn device_graph(lines: &[&str]) -> Graph {
    let entries: Vec<(Vec<char>, Vec<Vec<char>>)> = lines.iter().filter_map(|l| parse_device_line(l)).collect();
    build_graph(&entries).unwrap()
}

/// Walks from `v` to a device without outputs, through devices that `allowed` accepts.
fn count_walks(g: &Graph, v: usize, allowed: &dyn Fn(usize) -> bool) -> i64 {
    let kids = &g.nodes[v].children;
    if kids.is_empty() {
        return 1;
    }
    kids.iter().filter(|&&c| allowed(c)).map(|&c| count_walks(g, c, allowed)).sum()
}

#[test]
fn path_counts_are_walk_counts() {
    let lines = [
        "aaa: you hhh",
        "you: bbb ccc",
        "bbb: ddd eee",
        "ccc: ddd eee fff",
        "ddd: ggg",
        "eee: out",
        "fff: out",
        "ggg: out",
        "hhh: ccc fff iii",
        "iii: out",
    ];
    let g = device_graph(&lines);
    for u in 0..g.nodes.len() {
        assert_eq!(devices_one(&g, u), count_walks(&g, u, &|_| true));
    }
}

#[test]
fn restricted_path_counts_are_walk_counts() {
    // `svr` reaches `fft` directly and through `dac`; both walks are counted, though only
    // one passes `dac`.
    let lines = ["svr: dac fft", "dac: fft", "fft: end", "end: out"];
    let g = device_graph(&lines);
    let name = |s: &str| find_node(&g, &s.chars().collect::<Vec<char>>()).unwrap();
    let (is_dac, is_fft) = compute_is_sets(&g, name("dac"), name("fft"));
    let expect = count_walks(&g, name("svr"), &|c| is_dac[c] && is_fft[c]);
    assert_eq!(expect, 2);
    assert_eq!(devices_two(&g, name("svr"), name("fft"), name("dac")), expect);
}

use aoc_puzzles::routes::walks_bounded;

#[test]
fn walks_are_bounded_without_cycles() {
    let g = device_graph(&["aaa: bbb ccc", "bbb: ccc", "ccc: out"]);
    let a = find_node(&g, &['a', 'a', 'a']).unwrap();
    assert!(walks_bounded(&g, &vec![], &vec![], true, a));
    let cyclic = device_graph(&["aaa: bbb", "bbb: ccc", "ccc: aaa out"]);
    let a = find_node(&cyclic, &['a', 'a', 'a']).unwrap();
    assert!(!walks_bounded(&cyclic, &vec![], &vec![], true, a));
    // Leaving out a device of the cycle breaks it.
    let c = find_node(&cyclic, &['c', 'c', 'c']).unwrap();
    let allowed: Vec<bool> = (0..cyclic.nodes.len()).map(|u| u != c).collect();
    assert!(walks_bounded(&cyclic, &allowed, &allowed, false, a));
}

#[test]
fn doubled_ids_sum_at_most_repeated_ids_sum() {
    for (a, b) in [("11", "22"), ("95", "115"), ("998", "1012"), ("1", "1000"), ("222220", "222224"), ("565653", "565659")] {
        assert!(check1(a, b) <= check2(a, b), "{a}-{b}");
    }
}
