use icfpc2021::ugougo::{ugougo, ugougo_with_draws};
use icfpc2021::{compute_score, Figure, Input, Output, Point, P};

fn rectangle() -> Vec<Point> {
    vec![P(0, 0), P(0, 10), P(10, 10), P(10, 0)]
}

fn setup() -> (Input, Output) {
    let input = Input {
        hole: rectangle(),
        figure: Figure { edges: vec![(0, 1)], vertices: vec![P(1, 1), P(1, 5)] },
        epsilon: 0,
        bonuses: vec![],
        internal: None,
    };
    let out = Output { vertices: vec![P(1, 1), P(1, 5)], bonuses: vec![] };
    (input, out)
}

#[test]
fn hill_climbing_never_worsens() {
    let (input, out) = setup();
    let before = compute_score(&input, &out, true);
    let (res, k) = ugougo(&input, &out, 200, true);
    assert!(0 <= k && k <= 200);
    assert_eq!(res.vertices.len(), 2);
    assert!(res.bonuses.is_empty());
    if k > 0 {
        assert!(compute_score(&input, &res, true) <= before);
    } else {
        assert_eq!(res.vertices, out.vertices);
    }
    for &v in &res.vertices {
        assert!(P::contains_p(&input.hole, v) >= 0);
    }
    // The edge keeps its length: epsilon is 0.
    assert_eq!((res.vertices[0] - res.vertices[1]).abs2(), 16);
}

#[test]
fn no_cycles_no_change() {
    let (input, out) = setup();
    let (res, k) = ugougo(&input, &out, 0, true);
    assert_eq!(k, 0);
    assert_eq!(res.vertices, out.vertices);
}

fn lone_vertex(at: Point) -> (Input, Output) {
    let input = Input {
        hole: rectangle(),
        figure: Figure { edges: vec![], vertices: vec![at] },
        epsilon: 0,
        bonuses: vec![],
        internal: None,
    };
    let out = Output { vertices: vec![at], bonuses: vec![] };
    (input, out)
}

#[test]
fn climb_keeps_only_moves_that_do_not_worsen() {
    let (input, out) = lone_vertex(P(1, 1));
    assert_eq!(compute_score(&input, &out, true), 328);
    // Left to (0, 1) scores 364: refused. Right to (2, 1) scores 300: kept.
    let (res, k) = ugougo_with_draws(&input, &out, &vec![(0, 2), (0, 0)], true);
    assert_eq!(k, 1);
    assert_eq!(res.vertices, vec![P(2, 1)]);
    assert!(res.bonuses.is_empty());
    assert_eq!(compute_score(&input, &res, true), 300);
}

#[test]
fn climb_refuses_a_vertex_leaving_the_hole() {
    let (input, out) = lone_vertex(P(0, 5));
    let (res, k) = ugougo_with_draws(&input, &out, &vec![(0, 2)], true);
    assert_eq!(k, 0);
    assert_eq!(res.vertices, vec![P(0, 5)]);
}

#[test]
fn climb_refuses_a_stretched_edge() {
    let (input, out) = setup();
    // Moving either end of the rigid edge changes its length.
    let (res, k) = ugougo_with_draws(&input, &out, &vec![(0, 0), (1, 1), (0, 3)], true);
    assert_eq!(k, 0);
    assert_eq!(res.vertices, out.vertices);
}
