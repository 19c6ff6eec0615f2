use aoc_puzzles::devices::{
    build_graph, compute_is_sets, find_node, mark_backward, mark_forward, one as devices_one, parse_device_line,
    two as devices_two, Graph, Node,
};
use aoc_puzzles::factory::{one as lights_one, parse_button_line, two_2};
use aoc_puzzles::machines::{fill_patterns_and_combos, pattern_from_joltage, Button};
use aoc_puzzles::presses::{joltage_action, JoltageAction};
use aoc_puzzles::presents::{build_shape_from_lines, one as presents_one, parse_input, ParseError};
use std::collections::HashMap;

fn graph_of(lines: &[&str]) -> Graph {
    let entries: Vec<(Vec<char>, Vec<Vec<char>>)> = lines.iter().filter_map(|l| parse_device_line(l)).collect();
    build_graph(&entries).unwrap()
}

fn node(g: &Graph, name: &str) -> usize {
    let cs: Vec<char> = name.chars().collect();
    find_node(g, &cs).unwrap()
}

const YOU: [&str; 10] = [
    "aaa: you hhh",
    "you: bbb ccc",
    "bbb: ddd eee",
    "ccc: ddd eee fff",
    "ddd: ggg",
    "eee: out",
    "fff: out",
    "ggg: out",
    "hhh: ccc fff iii",
    "iii: out",
];

const SVR: [&str; 13] = [
    "svr: aaa bbb",
    "aaa: fft",
    "fft: ccc",
    "bbb: tty",
    "tty: ccc",
    "ccc: ddd eee",
    "ddd: hub",
    "hub: fff",
    "eee: dac",
    "dac: fff",
    "fff: ggg hhh",
    "ggg: out",
    "hhh: out",
];

#[test]
fn device_lines_are_read() {
    let (name, outs) = parse_device_line("  ccc: ddd eee fff ").unwrap();
    assert_eq!(name, vec!['c', 'c', 'c']);
    assert_eq!(outs, vec![vec!['d', 'd', 'd'], vec!['e', 'e', 'e'], vec!['f', 'f', 'f']]);
    assert!(parse_device_line("   ").is_none());
    let (name, outs) = parse_device_line("solo").unwrap();
    assert_eq!(name, vec!['s', 'o', 'l', 'o']);
    assert!(outs.is_empty());
}

#[test]
fn graph_links_outputs_but_not_out() {
    let g = graph_of(&YOU);
    assert_eq!(g.nodes.len(), 10);
    let you = node(&g, "you");
    let bbb = node(&g, "bbb");
    let ccc = node(&g, "ccc");
    let eee = node(&g, "eee");
    assert_eq!(g.nodes[you].children, vec![bbb, ccc]);
    assert!(g.nodes[eee].children.is_empty());
    assert!(g.nodes[bbb].parents.contains(&you));
    assert!(find_node(&g, &['z', 'z', 'z']).is_none());
}

#[test]
fn unknown_output_is_reported() {
    let entries: Vec<(Vec<char>, Vec<Vec<char>>)> =
        ["aaa: bbb out", "ccc: aaa"].iter().filter_map(|l| parse_device_line(l)).collect();
    assert_eq!(build_graph(&entries).err(), Some(vec!['b', 'b', 'b']));
}

#[test]
fn paths_from_you_example() {
    let g = graph_of(&YOU);
    assert_eq!(devices_one(&g, node(&g, "you")), 5);
    assert_eq!(devices_one(&g, node(&g, "eee")), 1);
    assert_eq!(devices_one(&g, node(&g, "aaa")), 5 + 5);
}

#[test]
fn paths_through_dac_and_fft_example() {
    let g = graph_of(&SVR);
    let r = devices_two(&g, node(&g, "svr"), node(&g, "fft"), node(&g, "dac"));
    assert_eq!(r, 2);
}

#[test]
fn marks_and_related_sets() {
    let g = graph_of(&SVR);
    let n = g.nodes.len();
    let mut m = vec![false; n];
    mark_forward(&g, node(&g, "dac"), &mut m);
    let marked: Vec<usize> = (0..n).filter(|&u| m[u]).collect();
    let mut expect = vec![node(&g, "dac"), node(&g, "fff"), node(&g, "ggg"), node(&g, "hhh")];
    expect.sort();
    assert_eq!(marked, expect);
    let mut m = vec![false; n];
    mark_backward(&g, node(&g, "aaa"), &mut m);
    let marked: Vec<usize> = (0..n).filter(|&u| m[u]).collect();
    let mut expect = vec![node(&g, "aaa"), node(&g, "svr")];
    expect.sort();
    assert_eq!(marked, expect);
    let (is_dac, is_fft) = compute_is_sets(&g, node(&g, "dac"), node(&g, "fft"));
    assert!(is_dac[node(&g, "dac")] && is_dac[node(&g, "bbb")] && is_dac[node(&g, "ggg")]);
    assert!(!is_dac[node(&g, "ddd")] && !is_dac[node(&g, "hub")]);
    assert!(is_fft[node(&g, "fft")] && is_fft[node(&g, "svr")] && is_fft[node(&g, "hub")]);
    assert!(!is_fft[node(&g, "bbb")] && !is_fft[node(&g, "tty")]);
}

#[test]
fn graph_nodes_and_links() {
    let mut g = Graph { nodes: vec![Node::new(&['a'], String::new()), Node::new(&['b'], "v".to_string())] };
    g.add_child(0, 1);
    assert_eq!(g.nodes[0].children, vec![1]);
    assert_eq!(g.nodes[1].parents, vec![0]);
    assert_eq!(g.nodes[1].value, "v");
    assert_eq!(devices_one(&g, 0), 1);
}

const PRESENTS: &str = "0:\n###\n##.\n##.\n\n1:\n###\n##.\n.##\n\n2:\n.##\n###\n##.\n\n3:\n##.\n###\n##.\n\n4:\n###\n#..\n###\n\n5:\n###\n.#.\n###\n\n4x4: 0 0 0 0 2 0\n12x5: 1 0 1 0 2 2\n12x5: 1 0 1 0 3 2\n9x9: 1 1 1 1 1 1\n3x3: 2\n";

#[test]
fn presents_input_is_read() {
    let (shapes, grids) = parse_input(PRESENTS).unwrap();
    assert_eq!(shapes.len(), 6);
    let s4 = shapes.get(&4).unwrap();
    assert_eq!((s4.id, s4.width, s4.height, s4.rows), (4, 3, 3, [7, 1, 7]));
    let s1 = shapes.get(&1).unwrap();
    assert_eq!(s1.rows, [7, 3, 6]);
    assert_eq!(grids.len(), 5);
    assert_eq!(grids[0], ((4, 4), vec![0, 0, 0, 0, 2, 0]));
    assert_eq!(grids[4], ((3, 3), vec![2]));
}

#[test]
fn regions_are_sorted_into_fits_and_unclear() {
    let (shapes, grids) = parse_input(PRESENTS).unwrap();
    assert_eq!(presents_one(&shapes, &grids), (1, vec![0, 1, 2]));
}

#[test]
fn a_shape_from_its_rows() {
    let lines = vec!["###".to_string(), "#..".to_string(), "###".to_string()];
    let s = build_shape_from_lines(4, &lines);
    assert_eq!((s.width, s.height, s.rows), (3, 3, [7, 1, 7]));
    assert_eq!(s.size(), 7);
    assert!(s.has(0, 1));
    assert!(!s.has(1, 1));
    assert_eq!(s.pretty_string(), "id 4 (3x3, size=7):\n###\n#..\n###\n");
    let wide = build_shape_from_lines(9, &["..#.#".to_string()]);
    assert_eq!((wide.width, wide.height, wide.rows), (5, 1, [20, 0, 0]));
    assert_eq!(wide.pretty_string(), "id 9 (5x1, size=2):\n..#.#\n");
}

#[test]
fn presents_input_errors() {
    assert_eq!(parse_input("axb: 1\n").err(), Some(ParseError::GridWidth));
    assert_eq!(parse_input("4x: 1\n").err(), Some(ParseError::GridHeight));
    assert_eq!(parse_input("4x4: 1 a\n").err(), Some(ParseError::GridShapeId));
    assert_eq!(parse_input("q:\n#\n").err(), Some(ParseError::ShapeId));
    assert_eq!(parse_input("0:\n#\n#\n#\n#\n").err(), Some(ParseError::TooManyRows));
    let long = format!("0:\n{}\n", "#".repeat(65));
    assert_eq!(parse_input(&long).err(), Some(ParseError::RowTooWide));
    // After the regions start, shape lines are ignored.
    let (shapes, grids) = parse_input("1x1:\n0:\n#\n").unwrap();
    assert!(shapes.is_empty());
    assert_eq!(grids, vec![((1, 1), vec![])]);
}

const MACHINES: [&str; 3] = [
    "[.##.] (3) (1,3) (2) (2,3) (0,2) (0,1) {3,5,4,7}",
    "[...#.] (0,2,3,4) (2,3) (0,4) (0,1,2) (1,2,3,4) {7,5,12,7,2}",
    "[.###.#] (0,1,2,3,4) (0,3,4) (0,1,2,4,5) (1,2) {10,11,11,5,10,5}",
];

fn machines() -> Vec<Button> {
    MACHINES.iter().map(|l| parse_button_line(l).unwrap()).collect()
}

fn counters_after(b: &Button, presses: &[i32]) -> Vec<i32> {
    let mut c = vec![0; b.joltage.len()];
    for (i, w) in b.wirings.iter().enumerate() {
        for &k in w {
            c[k as usize] += presses[i];
        }
    }
    c
}

#[test]
fn machine_lines_are_read() {
    let b = parse_button_line(MACHINES[0]).unwrap();
    assert_eq!(b.target_leds, vec![false, true, true, false]);
    assert_eq!(b.wirings, vec![vec![3], vec![1, 3], vec![2], vec![2, 3], vec![0, 2], vec![0, 1]]);
    assert_eq!(b.joltage, vec![3, 5, 4, 7]);
    assert!(b.hash_vault.is_empty());
    assert!(parse_button_line("[.#]").is_none());
    assert!(parse_button_line("").is_none());
    let b = parse_button_line("[#] {}").unwrap();
    assert!(b.wirings.is_empty() && b.joltage.is_empty());
}

#[test]
fn machine_text() {
    let b = parse_button_line(MACHINES[0]).unwrap();
    assert_eq!(
        b.display_string(),
        "Button { target_leds: .##., wirings: [3]; [1,3]; [2]; [2,3]; [0,2]; [0,1], joltage: 3,5,4,7 }"
    );
    assert_eq!(Button::default().display_string(), "Button { target_leds: , wirings: , joltage:  }");
}

#[test]
fn light_presses_reach_the_targets() {
    let ms = machines();
    let (steps, total) = lights_one(ms.clone());
    assert_eq!(steps.len(), 3);
    for (b, s) in ms.iter().zip(steps.iter()) {
        assert!(!s.is_empty());
        let mut lights = vec![false; b.target_leds.len()];
        for &i in s {
            for &k in &b.wirings[i] {
                lights[k as usize] = !lights[k as usize];
            }
        }
        assert_eq!(lights, b.target_leds);
    }
    assert_eq!(total, Some(steps.iter().map(|s| s.len()).sum()));
}

#[test]
fn joltage_example() {
    let ms = machines();
    let (total, plans) = two_2(ms.clone());
    assert_eq!(total, 33);
    let expected = [10, 12, 11];
    for i in 0..3 {
        let (presses, n, reached) = &plans[i];
        assert_eq!(*n, expected[i]);
        assert_eq!(presses.iter().sum::<i32>(), expected[i]);
        assert_eq!(reached, &ms[i].joltage);
        assert_eq!(&counters_after(&ms[i], presses), &ms[i].joltage);
    }
}

#[test]
fn joltage_of_one_machine() {
    let mut b = parse_button_line(MACHINES[0]).unwrap();
    let presses = b.solve_joltage_optimized().unwrap();
    assert_eq!(presses.iter().sum::<i32>(), 10);
    assert_eq!(counters_after(&b, &presses), vec![3, 5, 4, 7]);
    let mut stuck = parse_button_line("[.] (0) {}").unwrap();
    stuck.joltage = vec![1, 1];
    assert_eq!(stuck.solve_joltage_optimized(), None);
}

#[test]
fn parity_patterns_and_combos() {
    assert_eq!(pattern_from_joltage(&vec![3, 5, 4, 7]), "1101");
    assert_eq!(pattern_from_joltage(&vec![]), "");
    let b = parse_button_line(MACHINES[0]).unwrap();
    let table = fill_patterns_and_combos(&b.wirings, 4);
    let combos: usize = table.iter().map(|(_, v)| v.len()).sum();
    assert_eq!(combos, 64);
    let mut keys: Vec<&String> = table.iter().map(|(k, _)| k).collect();
    keys.sort();
    keys.dedup();
    assert_eq!(keys.len(), table.len());
    for (pattern, list) in &table {
        for c in list {
            assert_eq!(&pattern_from_joltage(&c.joltage), pattern);
            assert_eq!(c.presses, c.button_indices.len());
        }
    }
}

#[test]
fn multipliers() {
    assert_eq!(Button::same_multiplier(&[1, 2], &[3, 6]), Some(3));
    assert_eq!(Button::same_multiplier(&[2, 4], &[3, 6]), None);
    assert_eq!(Button::same_multiplier(&[0, 1], &[0, 2]), None);
    assert_eq!(Button::same_multiplier(&[1], &[1, 2]), None);
    assert_eq!(Button::same_multiplier(&[], &[]), None);
    assert_eq!(Button::same_multiplier(&[-2, 4], &[6, -12]), Some(-3));
}

#[test]
fn joltage_search_steps() {
    assert!(Button::quick_check(&vec![1, 2], &vec![1, 1]));
    assert!(!Button::quick_check(&vec![0, 0], &vec![1, 1]));
    let b = parse_button_line(MACHINES[0]).unwrap();
    let next = Button::get_next_steps_smart(&b.wirings, &vec![0, 0, 0, 0], &vec![0; 6], &b.joltage);
    assert_eq!(next, vec![(vec![1, 0, 1, 0], vec![0, 0, 0, 0, 1, 0]), (vec![1, 1, 0, 0], vec![0, 0, 0, 0, 0, 1])]);
    let done = Button::get_next_steps_smart(&b.wirings, &vec![3, 5, 4, 7], &vec![0; 6], &b.joltage);
    assert!(done.is_empty());
    let mut vault: HashMap<u64, usize> = HashMap::new();
    let mut steps = vec![1, 1];
    assert_eq!(Button::check_joltage_static(&vec![1, 2], &mut steps, &vec![1, 2], &mut vault), 1);
    assert_eq!(vault.len(), 1);
    assert_eq!(Button::check_joltage_static(&vec![1, 2], &mut steps, &vec![1, 2], &mut vault), -1);
    assert_eq!(Button::check_joltage_static(&vec![0, 1], &mut steps, &vec![1, 2], &mut vault), 0);
    assert_eq!(vault.len(), 2);
    assert_eq!(Button::check_joltage_static(&vec![2, 2], &mut steps, &vec![1, 2], &mut vault), -1);
    assert_eq!(steps, vec![1, 1]);
}

#[test]
fn light_search_of_one_machine() {
    let mut b = parse_button_line("[#.] (0,1) (1) {1,1}").unwrap();
    let s = b.solve_leds();
    assert!(!s.is_empty());
    let mut lights = vec![false, false];
    for &i in &s {
        for &k in &b.wirings[i] {
            lights[k as usize] = !lights[k as usize];
        }
    }
    assert_eq!(lights, vec![true, false]);
}

#[test]
fn light_search_takes_the_first_button_when_it_lights_the_target() {
    let mut b = parse_button_line("[.##.] (1,2) (3) (0,1) {1,2,3,4}").unwrap();
    assert_eq!(b.solve_leds(), vec![0]);
    assert!(b.hash_vault.values().any(|&v| v <= 1));
}

fn packed_key(v: &Vec<bool>) -> u64 {
    let mut h: u64 = 1;
    for &b in v {
        h = h * 2 + (b as u64);
    }
    h
}

#[test]
fn light_search_finds_the_shortest_sequence_past_a_longer_first_hit() {
    let mut b = Button {
        target_leds: vec![true, false],
        wirings: vec![vec![0, 1], vec![1]],
        joltage: vec![],
        hash_vault: HashMap::new(),
    };
    assert_eq!(b.solve_leds(), vec![0, 1]);
    let mut k = Button {
        target_leds: vec![true, false],
        wirings: vec![vec![0, 1], vec![1]],
        joltage: vec![],
        hash_vault: HashMap::new(),
    };
    assert_eq!(k.solve_leds_keyed(&packed_key), vec![0, 1]);
}

#[test]
fn keyed_light_search_is_empty_when_no_sequence_lights_the_target() {
    let mut b = Button {
        target_leds: vec![true, false],
        wirings: vec![vec![0, 1]],
        joltage: vec![],
        hash_vault: HashMap::new(),
    };
    assert!(b.solve_leds_keyed(&packed_key).is_empty());
    assert!(b.hash_vault.len() == 2);
}

#[test]
fn counter_step_by_key_records_then_rejects() {
    let mut vault: HashMap<u64, usize> = HashMap::new();
    assert_eq!(Button::check_joltage_keyed(&vec![1, 2], &vec![1, 2], &mut vault, 7, 2), 1);
    assert_eq!(vault.get(&7), Some(&2));
    assert_eq!(Button::check_joltage_keyed(&vec![1, 2], &vec![1, 2], &mut vault, 7, 2), -1);
    assert_eq!(Button::check_joltage_keyed(&vec![1, 2], &vec![1, 2], &mut vault, 7, 1), 1);
    assert_eq!(vault.get(&7), Some(&1));
    assert_eq!(Button::check_joltage_keyed(&vec![0, 1], &vec![1, 2], &mut vault, 9, 5), 0);
    assert_eq!(Button::check_joltage_keyed(&vec![0, 3], &vec![1, 2], &mut vault, 11, 5), -1);
    assert_eq!(vault.len(), 2);
}

#[test]
fn memo_gains_the_target_and_keeps_earlier_entries() {
    let b = Button { target_leds: vec![], wirings: vec![vec![0]], joltage: vec![1, 1], hash_vault: HashMap::new() };
    let table = fill_patterns_and_combos(&b.wirings, 2);
    let mut cache: Vec<(Vec<i32>, Option<(usize, Vec<i32>)>)> = Vec::new();
    assert_eq!(b.count_presses(&vec![2, 0], &table, &mut cache), Some((2, vec![2])));
    assert!(cache.iter().any(|(k, v)| k == &vec![2, 0] && v == &Some((2, vec![2]))));
    let earlier = cache.clone();
    assert_eq!(b.count_presses(&vec![1, 1], &table, &mut cache), None);
    assert_eq!(&cache[..earlier.len()], &earlier[..]);
    assert!(cache.iter().any(|(k, v)| k == &vec![1, 1] && v.is_none()));
}

#[test]
fn presents_reading_ignores_blank_lines_and_blanks_at_line_ends() {
    let padded: String = PRESENTS
        .lines()
        .map(|l| format!("  {l}\t\n \n"))
        .collect();
    let (shapes, grids) = parse_input(PRESENTS).unwrap();
    let (shapes2, grids2) = parse_input(&padded).unwrap();
    assert_eq!(grids, grids2);
    assert_eq!(shapes.len(), shapes2.len());
    for (id, s) in &shapes {
        let t = &shapes2[id];
        assert_eq!((s.id, s.width, s.height, &s.rows), (t.id, t.width, t.height, &t.rows));
    }
}

#[test]
fn shape_covers_exactly_the_hashes_of_its_lines() {
    let lines: Vec<String> = vec!["#.#".to_string(), ".##.#".to_string(), "".to_string()];
    let s = build_shape_from_lines(7, &lines);
    assert_eq!((s.id, s.width, s.height), (7, 5, 3));
    for (y, l) in lines.iter().enumerate() {
        for x in 0..64u8 {
            assert_eq!(s.has(x, y as u8), l.chars().nth(x as usize) == Some('#'), "{x} {y}");
        }
    }
    assert_eq!(s.size(), lines.iter().map(|l| l.chars().filter(|&c| c == '#').count()).sum::<usize>());
}

#[test]
fn worker_decisions_follow_the_check() {
    assert_eq!(joltage_action(-1, false), JoltageAction::Skip);
    assert_eq!(joltage_action(-1, true), JoltageAction::Skip);
    assert_eq!(joltage_action(1, true), JoltageAction::Hit);
    assert_eq!(joltage_action(0, true), JoltageAction::Stop);
    assert_eq!(joltage_action(0, false), JoltageAction::Expand);
}
