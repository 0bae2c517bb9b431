use icfpc2021::paths::{classify_edges, polygon, polygon_path, segments, view_box};
use icfpc2021::tree_decomposition::{parse_tree_decomposition, tree_decomposition_lines_ok};
use icfpc2021::viewer::{all_pair_abs2, check_solution1};
use icfpc2021::{Figure, Input, Output, Point, P};

fn problem(hole: Vec<Point>, vertices: Vec<Point>, edges: Vec<(usize, usize)>, epsilon: i64) -> Input {
    Input {
        hole,
        figure: Figure { edges, vertices },
        epsilon,
        bonuses: vec![],
        internal: None,
    }
}

fn square(k: i64) -> Vec<Point> {
    vec![P(0, 0), P(k, 0), P(k, k), P(0, k)]
}

#[test]
fn vertices_and_edges_in_the_hole() {
    let input = problem(square(10), vec![P(0, 0), P(1, 0)], vec![(0, 1)], 0);
    let out = Output { vertices: vec![P(5, 5), P(20, 20)], bonuses: vec![] };
    assert_eq!(check_solution1(&input, &out), (vec![true, false], vec![false]));
    let out = Output { vertices: vec![P(5, 5), P(10, 10)], bonuses: vec![] };
    assert_eq!(check_solution1(&input, &out), (vec![true, true], vec![true]));
}

#[test]
fn squared_distances_of_all_pairs() {
    let out = Output { vertices: vec![P(0, 0), P(3, 4)], bonuses: vec![] };
    assert_eq!(all_pair_abs2(&out), vec![0, 25, 25, 0]);
    let far = Output { vertices: vec![P(0, 0), P(65536, 0)], bonuses: vec![] };
    assert_eq!(all_pair_abs2(&far), vec![0, 0, 0, 0]);
}

#[test]
fn edges_sorted_for_drawing() {
    let input = problem(
        square(10),
        vec![P(1, 1), P(3, 1), P(1, 3), P(3, 3), P(5, 3)],
        vec![(0, 1), (0, 2), (2, 3), (1, 3), (3, 4)],
        0,
    );
    let pose = vec![P(1, 1), P(3, 1), P(1, 2), P(5, 2), P(20, 20)];
    let (ok, short, long, out) = classify_edges(&input, &pose);
    assert_eq!(ok, vec![(0, 1)]);
    assert_eq!(short, vec![(0, 2)]);
    assert_eq!(long, vec![(2, 3), (1, 3)]);
    assert_eq!(out, vec![(3, 4)]);
    assert_eq!(view_box(&input.hole, &pose), (-2, 22, -2, 22));
}

#[test]
fn path_text() {
    assert_eq!(polygon(&vec![P(1, 2), P(-3, 40)]), "1,2 -3,40 ");
    assert_eq!(polygon(&vec![P(i64::MIN, 0)]), "-9223372036854775808,0 ");
    assert_eq!(polygon_path(&vec![P(1, 2), P(-3, 40)]), "M1 2L-3 40");
    assert_eq!(polygon_path(&vec![]), "");
    assert_eq!(segments(&vec![(0, 1), (1, 0)], &vec![P(0, 0), P(10, -5)]), "M0 0L10 -5M10 -5L0 0");
}

fn lines(text: &[&str]) -> Vec<Vec<u8>> {
    text.iter().map(|l| l.as_bytes().to_vec()).collect()
}

#[test]
fn tree_decomposition_file() {
    let ls = lines(&["s td 2 3 4", "b 1 1 2", "b 2 +2 3", "1 2"]);
    assert!(tree_decomposition_lines_ok(&ls));
    let td = parse_tree_decomposition(&ls);
    assert_eq!(td.bag_vs, vec![vec![0, 1], vec![1, 2]]);
    assert_eq!(td.es, vec![(0, 1)]);
}

#[test]
fn malformed_tree_decompositions() {
    assert!(!tree_decomposition_lines_ok(&lines(&["s td 2", "b 3 1"])));
    assert!(!tree_decomposition_lines_ok(&lines(&["s tw 2"])));
    assert!(!tree_decomposition_lines_ok(&lines(&["s td 2", "b 1 0"])));
    assert!(!tree_decomposition_lines_ok(&lines(&["1  2"])));
    assert!(!tree_decomposition_lines_ok(&lines(&[""])));
    assert!(!tree_decomposition_lines_ok(&lines(&["s td 99999999999999999999"])));
    assert!(tree_decomposition_lines_ok(&lines(&[])));
}
