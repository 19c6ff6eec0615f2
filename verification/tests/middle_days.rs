use aoc_puzzles::beams::{beam_row, one as beams_one};
use aoc_puzzles::circuits::{circuit_sizes, largest_circuits, last_connection};
use aoc_puzzles::tiles::{
    inside_poly, inside_poly_point, inside_poly_point2, one as tiles_one, parse_point, two as tiles_two, Point, Rect,
};
use aoc_puzzles::worksheet::{one as sheet_one, product_of, row_of_line, sum_of, two as sheet_two};

fn sheet() -> Vec<String> {
    vec![
        "123 328  51 64 ".to_string(),
        " 45 64  387 23 ".to_string(),
        "  6 98  215 314".to_string(),
        "*   +   *   +  ".to_string(),
    ]
}

#[test]
fn worksheet_rows_are_read_by_words() {
    assert_eq!(row_of_line(" 45 64  387 23 "), vec![45, 64, 387, 23]);
    assert_eq!(row_of_line("*   +   *   +  "), vec![1, 0, 1, 0]);
    assert_eq!(row_of_line("7 x"), vec![7, 0]);
}

#[test]
fn sums_and_products() {
    assert_eq!(sum_of(&[328, 64, 98]), 490);
    assert_eq!(product_of(&[123, 45, 6]), 33210);
    assert_eq!(sum_of(&[]), 0);
    assert_eq!(product_of(&[]), 1);
}

#[test]
fn worksheet_by_rows_example() {
    assert_eq!(sheet_one(&sheet()), 4277556);
}

#[test]
fn worksheet_by_columns_example() {
    assert_eq!(sheet_two(&sheet()), 3263827);
}

#[test]
fn worksheet_single_problem() {
    let lines = vec!["2 ".to_string(), "3 ".to_string(), "* ".to_string()];
    assert_eq!(sheet_one(&lines), 6);
    // Read by columns: the first column is 23, the second is empty.
    assert_eq!(sheet_two(&lines), 23);
}

const MANIFOLD: [&str; 16] = [
    ".......S.......",
    "...............",
    ".......^.......",
    "...............",
    "......^.^......",
    "...............",
    ".....^.^.^.....",
    "...............",
    "....^.^...^....",
    "...............",
    "...^.^...^.^...",
    "...............",
    "..^...^.....^..",
    "...............",
    ".^.^.^.^.^...^.",
    "...............",
];

#[test]
fn start_is_drawn_as_a_beam() {
    assert_eq!(beam_row("..S."), vec!['.', '.', '|', '.']);
}

#[test]
fn beams_example() {
    let rows: Vec<Vec<char>> = MANIFOLD.iter().map(|l| beam_row(l)).collect();
    assert_eq!(beams_one(rows), (21, 40));
}

#[test]
fn one_splitter_makes_two_timelines() {
    let rows: Vec<Vec<char>> = ["..S..", ".....", "..^..", "....."].iter().map(|l| beam_row(l)).collect();
    assert_eq!(beams_one(rows), (1, 2));
}

#[test]
fn no_splitter_keeps_one_timeline() {
    let rows: Vec<Vec<char>> = [".S.", "...", "..."].iter().map(|l| beam_row(l)).collect();
    assert_eq!(beams_one(rows), (0, 1));
}

const BOXES: [(i64, i64, i64); 20] = [
    (162, 817, 812),
    (57, 618, 57),
    (906, 360, 560),
    (592, 479, 940),
    (352, 342, 300),
    (466, 668, 158),
    (542, 29, 236),
    (431, 825, 988),
    (739, 650, 466),
    (52, 470, 668),
    (216, 146, 977),
    (819, 987, 18),
    (117, 168, 530),
    (805, 96, 715),
    (346, 949, 466),
    (970, 615, 88),
    (941, 993, 340),
    (862, 61, 35),
    (984, 92, 344),
    (425, 690, 689),
];

/// The pairs of boxes, nearest first (the squared distance orders them as the distance does).
fn sorted_pairs() -> Vec<(usize, usize)> {
    let mut d: Vec<(i64, (usize, usize))> = Vec::new();
    for i in 0..BOXES.len() {
        for j in i + 1..BOXES.len() {
            let (a, b) = (BOXES[i], BOXES[j]);
            let dist = (a.0 - b.0).pow(2) + (a.1 - b.1).pow(2) + (a.2 - b.2).pow(2);
            d.push((dist, (i, j)));
        }
    }
    d.sort_by_key(|e| e.0);
    d.into_iter().map(|e| e.1).collect()
}

#[test]
fn circuits_after_ten_pairs() {
    assert_eq!(largest_circuits(20, &sorted_pairs(), 10), 40);
    assert_eq!(circuit_sizes(20, &sorted_pairs(), 10), vec![5, 4, 2, 2]);
}

#[test]
fn last_pair_joins_everything() {
    let (p1, p2) = last_connection(20, &sorted_pairs());
    assert_eq!(BOXES[p1].0 * BOXES[p2].0, 25272);
}

#[test]
fn circuits_of_hand_made_pairs() {
    // Boxes 0-1-2 form a circuit, 3-4 another, 5 and 6 a third.
    let pairs = vec![(0, 1), (3, 4), (1, 2), (5, 6), (0, 2)];
    assert_eq!(circuit_sizes(7, &pairs, 5), vec![3, 2, 2]);
    assert_eq!(circuit_sizes(7, &pairs, 2), vec![2, 2]);
    assert_eq!(circuit_sizes(7, &pairs, 0), Vec::<usize>::new());
    assert_eq!(largest_circuits(7, &pairs, 5), 3 * 2 * 2);
    assert_eq!(largest_circuits(7, &pairs, 100), 3 * 2 * 2);
    // Merging two circuits: 0-1 and 2-3, then 1-2.
    let pairs = vec![(0, 1), (2, 3), (4, 5), (1, 2), (6, 7)];
    assert_eq!(largest_circuits(8, &pairs, 5), 4 * 2 * 2);
    assert_eq!(last_connection(3, &vec![(0, 1), (1, 0), (2, 1), (0, 2)]), (2, 1));
}

fn tiles() -> Vec<Point> {
    vec![
        Point::new(7, 1),
        Point::new(11, 1),
        Point::new(11, 7),
        Point::new(9, 7),
        Point::new(9, 5),
        Point::new(2, 5),
        Point::new(2, 3),
        Point::new(7, 3),
    ]
}

fn loop_of(points: &[Point]) -> Vec<Rect> {
    (0..points.len()).map(|i| Rect { p1: points[i], p2: points[(i + 1) % points.len()] }).collect()
}

#[test]
fn tile_lines_are_read() {
    assert_eq!(parse_point("7,1"), Some(Point::new(7, 1)));
    assert_eq!(parse_point(" 11 , 7 ,3"), Some(Point::new(11, 7)));
    assert_eq!(parse_point("x,3,4"), Some(Point::new(3, 4)));
    assert_eq!(parse_point("5"), None);
}

#[test]
fn point_area_and_text() {
    assert_eq!(Point::new(2, 5).area(&Point::new(11, 1)), 50);
    assert_eq!(Point::new(7, 3).area(&Point::new(7, 3)), 1);
    assert_eq!(Point::new(-1, 20).display_string(), "[-1, 20]");
}

#[test]
fn rect_measures() {
    let r = Rect { p1: Point::new(9, 5), p2: Point::new(2, 3) };
    assert_eq!(r.area(), 24);
    assert_eq!((r.width(), r.height()), (8, 3));
    assert_eq!((r.x_min(), r.x_max(), r.y_min(), r.y_max()), (2, 9, 3, 5));
    assert!(r.contains(&Point::new(2, 3)));
    assert!(r.contains(&Point::new(9, 5)));
    assert!(!r.contains(&Point::new(10, 5)));
    let inner = Rect { p1: Point::new(3, 4), p2: Point::new(4, 4) };
    assert!(inner.inside(&r));
    assert!(!r.inside(&inner));
    let pts = Rect { p1: Point::new(1, 1), p2: Point::new(0, 2) }.points();
    assert_eq!(pts, vec![Point::new(0, 1), Point::new(0, 2), Point::new(1, 1), Point::new(1, 2)]);
}

#[test]
fn rect_edge_samples() {
    let r = Rect { p1: Point::new(0, 0), p2: Point::new(2, 1) };
    let e = r.points_edges(50);
    assert_eq!(
        e,
        vec![
            Point::new(0, 0),
            Point::new(0, 1),
            Point::new(1, 0),
            Point::new(1, 1),
            Point::new(2, 0),
            Point::new(2, 1),
            Point::new(0, 0),
            Point::new(2, 0),
            Point::new(0, 2),
            Point::new(2, 2),
        ]
    );
}

#[test]
fn largest_rectangle_example() {
    assert_eq!(tiles_one(tiles()), 50);
    assert_eq!(tiles_one(vec![Point::new(1, 1)]), 0);
}

#[test]
fn largest_rectangle_inside_the_loop_example() {
    assert_eq!(tiles_two(tiles()), 24);
}

#[test]
fn inside_tests_on_the_example_loop() {
    let poly = loop_of(&tiles());
    let verticals: Vec<Rect> = poly.iter().copied().filter(|r| r.p1.x == r.p2.x).collect();
    assert!(inside_poly_point(&poly, &verticals, Point::new(8, 4)));
    assert!(inside_poly_point(&poly, &verticals, Point::new(11, 1)));
    assert!(!inside_poly_point(&poly, &verticals, Point::new(1, 1)));
    assert!(!inside_poly_point(&poly, &verticals, Point::new(3, 1)));
    assert!(inside_poly(&poly, Rect { p1: Point::new(9, 5), p2: Point::new(2, 3) }, 50));
    assert!(!inside_poly(&poly, Rect { p1: Point::new(2, 5), p2: Point::new(11, 1) }, 50));
    assert!(inside_poly_point2(&poly, Point::new(8, 4), 11));
    assert!(inside_poly_point2(&poly, Point::new(9, 6), 11));
    assert!(!inside_poly_point2(&poly, Point::new(1, 4), 11));
}

#[test]
fn loop_rectangle_is_some_pair_and_at_most_the_largest() {
    let pts = tiles();
    let best = tiles_two(pts.clone());
    assert!(best <= tiles_one(pts.clone()));
    let mut found = best == 0;
    for i in 0..pts.len() {
        for j in i + 1..pts.len() {
            if pts[i].area(&pts[j]) == best {
                found = true;
            }
        }
    }
    assert!(found);
}
