use icfpc2021::problem::signed_area2;
use icfpc2021::{
    compute_adjmat, compute_dislikes, compute_score, compute_score_or_err, evaluate, globalist_used,
    shortest_path_rec, stretch_within, via_expands, Bonus, BonusType, ConstraintError, Figure,
    Input, InputInternal, Output, Point, UseBonus, INVALID_SCORE, NO_VIA, P,
};
use std::cmp::Ordering;

fn rectangle() -> Vec<Point> {
    vec![P(0, 0), P(0, 10), P(10, 10), P(10, 0)]
}

fn boko() -> Vec<Point> {
    vec![P(0, 0), P(0, 8), P(2, 8), P(2, 4), P(6, 4), P(6, 8), P(8, 8), P(8, 0)]
}

fn problem(hole: Vec<Point>, vertices: Vec<Point>, edges: Vec<(usize, usize)>, epsilon: i64) -> Input {
    Input {
        hole,
        figure: Figure { edges, vertices },
        epsilon,
        bonuses: vec![],
        internal: None,
    }
}

fn pose(vertices: Vec<Point>) -> Output {
    Output { vertices, bonuses: vec![] }
}

#[test]
fn internal_coordinates() {
    let mut input = problem(
        vec![P(0, 0), P(10, 0), P(10, 10), P(0, 10)],
        vec![P(1, 1), P(3, 4), P(-2, 5)],
        vec![(1, 0), (0, 1), (2, 1)],
        1000,
    );
    input.bonuses = vec![Bonus { bonus: BonusType::WallHack, problem: 3, position: P(4, 4), edge: (0, 0) }];
    let original = input.clone();
    input.to_internal();
    assert_eq!(input.hole, vec![P(2, 10), P(12, 10), P(12, 0), P(2, 0)]);
    assert_eq!(input.figure.vertices, vec![P(3, 1), P(5, 4), P(0, 5)]);
    assert_eq!(input.figure.edges, vec![(0, 1), (1, 2)]);
    assert_eq!(input.bonuses[0].position, P(6, 4));
    assert_eq!(input.internal, Some(InputInternal { reversed_hole: true }));
    assert!(signed_area2(&input.hole) <= 0);
    input.to_external();
    assert_eq!(input.hole, original.hole);
    assert_eq!(input.figure.vertices, original.figure.vertices);
    assert_eq!(input.bonuses, original.bonuses);
    assert_eq!(input.internal, None);
    assert_eq!(input.figure.edges, vec![(0, 1), (1, 2)]);
}

#[test]
fn clockwise_hole_is_kept() {
    let mut input = problem(rectangle(), vec![], vec![], 0);
    input.to_internal();
    assert_eq!(input.hole, vec![P(2, 0), P(2, 10), P(12, 10), P(12, 0)]);
    assert_eq!(input.internal, Some(InputInternal { reversed_hole: false }));
    assert_eq!(signed_area2(&input.hole), -200);
}

#[test]
fn output_coordinates() {
    let mut out = pose(vec![P(1, 2), P(-3, 0)]);
    out.to_internal();
    assert_eq!(out.vertices, vec![P(3, 2), P(-1, 0)]);
    out.to_external();
    assert_eq!(out.vertices, vec![P(1, 2), P(-3, 0)]);
}

#[test]
fn dislikes_of_a_valid_pose() {
    let input = problem(rectangle(), vec![P(1, 1), P(1, 5)], vec![(0, 1)], 0);
    let out = pose(vec![P(1, 1), P(1, 5)]);
    assert_eq!(compute_score_or_err(&input, &out, true), Ok(216));
    assert_eq!(compute_score(&input, &out, true), 216);
}

#[test]
fn constraint_errors() {
    let input = problem(rectangle(), vec![P(1, 1), P(1, 5)], vec![(0, 1)], 0);
    assert_eq!(
        compute_score_or_err(&input, &pose(vec![P(1, 1)]), true),
        Err(ConstraintError::VerticesLen)
    );
    assert_eq!(
        compute_score_or_err(&input, &pose(vec![P(11, 1), P(1, 5)]), true),
        Err(ConstraintError::OutsidePoint)
    );
    assert_eq!(
        compute_score_or_err(&input, &pose(vec![P(1, 1), P(1, 6)]), true),
        Err(ConstraintError::IllegalLength)
    );
    assert_eq!(compute_score(&input, &pose(vec![P(1, 1), P(1, 6)]), true), INVALID_SCORE);
    let b = problem(boko(), vec![P(1, 6), P(7, 6)], vec![(0, 1)], 0);
    assert_eq!(
        compute_score_or_err(&b, &pose(vec![P(1, 6), P(7, 6)]), true),
        Err(ConstraintError::CrossEdge)
    );
}

#[test]
fn stretch_tolerance() {
    let input = problem(rectangle(), vec![P(1, 1), P(1, 5)], vec![(0, 1)], 600000);
    // 25 against 16: off by 9/16 = 562500 millionths, within 600000.
    assert_eq!(compute_score_or_err(&input, &pose(vec![P(1, 1), P(1, 6)]), true), Ok(198));
}

#[test]
fn globalist_budget() {
    let input = problem(rectangle(), vec![P(1, 1), P(1, 5)], vec![(0, 1)], 0);
    let out = Output {
        vertices: vec![P(1, 1), P(1, 6)],
        bonuses: vec![UseBonus { bonus: BonusType::Globalist, problem: 1 }],
    };
    assert!(globalist_used(&out));
    assert!(!globalist_used(&pose(vec![])));
    assert_eq!(compute_score_or_err(&input, &out, true), Ok(198));
    assert_eq!(compute_score_or_err(&input, &out, false), Err(ConstraintError::IllegalLength));
}

#[test]
fn error_messages() {
    assert_eq!(ConstraintError::VerticesLen.message(), "vertices len");
    assert_eq!(ConstraintError::OutsidePoint.message(), "outside point");
    assert_eq!(ConstraintError::CrossEdge.message(), "cross edge");
    assert_eq!(ConstraintError::IllegalLength.message(), "illegal length");
}

#[test]
fn evaluation() {
    let mut input = problem(rectangle(), vec![P(1, 1), P(1, 5)], vec![(0, 1)], 0);
    input.bonuses = vec![
        Bonus { bonus: BonusType::BreakALeg, problem: 7, position: P(1, 5), edge: (0, 0) },
        Bonus { bonus: BonusType::SuperFlex, problem: 9, position: P(3, 3), edge: (0, 0) },
        Bonus { bonus: BonusType::Globalist, problem: 4, position: P(1, 1), edge: (0, 0) },
    ];
    let out = Output {
        vertices: vec![P(1, 1), P(1, 5)],
        bonuses: vec![
            UseBonus { bonus: BonusType::WallHack, problem: 3 },
            UseBonus { bonus: BonusType::Globalist, problem: 5 },
            UseBonus { bonus: BonusType::Globalist, problem: 2 },
        ],
    };
    let e = evaluate(&input, &out, true);
    assert_eq!(e.dislikes, 216);
    assert_eq!(
        e.bonuses,
        vec![
            UseBonus { bonus: BonusType::Globalist, problem: 2 },
            UseBonus { bonus: BonusType::Globalist, problem: 5 },
            UseBonus { bonus: BonusType::WallHack, problem: 3 },
        ]
    );
    assert_eq!(
        e.obtained_bonuses,
        vec![
            Bonus { bonus: BonusType::Globalist, problem: 4, position: P(1, 1), edge: (0, 0) },
            Bonus { bonus: BonusType::BreakALeg, problem: 7, position: P(1, 5), edge: (0, 0) },
        ]
    );
    let bad = evaluate(&input, &pose(vec![P(1, 1)]), true);
    assert_eq!(bad.dislikes, -1);
}

#[test]
fn stretch_comparison() {
    assert_eq!(stretch_within(100, 100, 0), Ordering::Equal);
    assert_eq!(stretch_within(101, 100, 0), Ordering::Greater);
    assert_eq!(stretch_within(99, 100, 0), Ordering::Less);
    assert_eq!(stretch_within(101, 100, 10000), Ordering::Equal);
    assert_eq!(stretch_within(102, 100, 10000), Ordering::Greater);
}

#[test]
fn visibility_matrix() {
    let m = compute_adjmat(&rectangle());
    for u in 0..4 {
        for v in 0..4 {
            assert_eq!(m[u][v], u != v);
        }
    }
    let b = boko();
    let m = compute_adjmat(&b);
    assert!(m[0][7]);
    assert!(!m[1][6]);
    for u in 0..8 {
        assert!(!m[u][u]);
        for v in 0..8 {
            assert_eq!(m[u][v], m[v][u]);
        }
    }
}

#[test]
fn via_reconstruction() {
    let via = vec![
        vec![NO_VIA, NO_VIA, 1],
        vec![NO_VIA, NO_VIA, NO_VIA],
        vec![1, NO_VIA, NO_VIA],
    ];
    assert!(via_expands(0, 2, &via, 2));
    assert!(!via_expands(0, 2, &via, 1));
    let mut path = vec![9];
    shortest_path_rec(0, 2, &via, &mut path);
    assert_eq!(path, vec![9, 0, 1]);
    let cyclic = vec![vec![0usize]];
    assert!(!via_expands(0, 0, &cyclic, 20));
}

#[test]
fn no_dislikes_exactly_when_every_corner_is_covered() {
    let input = problem(rectangle(), vec![P(0, 0)], vec![], 0);
    let covering = pose(vec![P(10, 0), P(0, 10), P(10, 10), P(0, 0), P(5, 5)]);
    assert_eq!(compute_dislikes(&input, &covering), 0);
    let missing = pose(vec![P(10, 0), P(0, 10), P(10, 10), P(1, 0)]);
    assert_eq!(compute_dislikes(&input, &missing), 1);
}

#[test]
fn dislikes_on_large_coordinates() {
    let hole = vec![P(0, 0), P(0, 1_000_000), P(1_000_000, 1_000_000), P(1_000_000, 0)];
    let input = problem(hole, vec![P(0, 0)], vec![], 0);
    let out = pose(vec![P(0, 0), P(1_000_000, 1_000_000)]);
    assert_eq!(compute_dislikes(&input, &out), 2_000_000_000_000);
}

#[test]
fn expansion_reads_only_entries_of_the_matrix() {
    // Row 0 is short: the expansion of 0 toward 2 would read outside it.
    let ragged = vec![vec![NO_VIA, NO_VIA], vec![NO_VIA, NO_VIA, NO_VIA], vec![NO_VIA, NO_VIA, NO_VIA]];
    assert!(!via_expands(0, 2, &ragged, 5));
    assert!(via_expands(1, 2, &ragged, 5));
    let mut path = vec![7];
    shortest_path_rec(1, 2, &ragged, &mut path);
    assert_eq!(path, vec![7, 1]);
}
