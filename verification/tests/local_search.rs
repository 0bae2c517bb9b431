use icfpc2021::lib_chokudai::{
    board_size, corner_vertices, get_new_graph, get_new_graph_checked, outside_board, points_in_range,
    FAR,
};
use icfpc2021::problem_stats::{max_coord, n_triangles};
use icfpc2021::sat::{
    dv, edge_penalty, find_largest_penalty, generate_clauses, lit, max_var,
    reconstruct_positions, repair_limit, solution_from_lits,
};
use icfpc2021::sat_hillclimber::{first_side, search_next, SatHillclimber, SearchAction, SearchState};
use icfpc2021::{Figure, Input, Point, P};

fn problem(hole: Vec<Point>, vertices: Vec<Point>, edges: Vec<(usize, usize)>, epsilon: i64) -> Input {
    Input {
        hole,
        figure: Figure { edges, vertices },
        epsilon,
        bonuses: vec![],
        internal: None,
    }
}

fn square(k: i64) -> Vec<Point> {
    vec![P(0, 0), P(k, 0), P(k, k), P(0, k)]
}

#[test]
fn relaxation_settles_near_the_lengths() {
    let input = problem(square(100), vec![P(0, 0), P(10, 0)], vec![(0, 1)], 0);
    let r = get_new_graph(&input, &vec![P(0, 0), P(40, 0)], &vec![false, false]);
    assert_eq!(r, vec![P(11, 0), P(29, 0)]);
}

#[test]
fn relaxation_keeps_fixed_vertices() {
    let input = problem(square(100), vec![P(0, 0), P(10, 0)], vec![(0, 1)], 0);
    let r = get_new_graph(&input, &vec![P(0, 0), P(40, 0)], &vec![true, false]);
    assert_eq!(r, vec![P(0, 0), P(19, 0)]);
}

#[test]
fn relaxation_of_a_triangle() {
    let input = problem(
        square(100),
        vec![P(0, 0), P(10, 0), P(0, 10)],
        vec![(0, 1), (1, 2), (0, 2)],
        0,
    );
    let r = get_new_graph(&input, &vec![P(0, 0), P(60, 0), P(0, 60)], &vec![false; 3]);
    assert_eq!(r, vec![P(14, 14), P(32, 14), P(14, 32)]);
}

#[test]
fn edge_penalties() {
    let input = problem(square(100), vec![P(0, 0), P(10, 0)], vec![(0, 1)], 0);
    assert_eq!(edge_penalty(&input, 0, 1, P(0, 0), P(11, 0)), 21_000_000);
    assert_eq!(edge_penalty(&input, 0, 1, P(0, 0), P(10, 0)), 0);
    let tolerant = problem(square(100), vec![P(0, 0), P(10, 0)], vec![(0, 1)], 100_000);
    assert_eq!(edge_penalty(&tolerant, 0, 1, P(0, 0), P(11, 0)), 11_000_000);
    assert_eq!(edge_penalty(&tolerant, 0, 1, P(0, 0), P(9, 0)), 9_000_000);
    assert_eq!(edge_penalty(&tolerant, 0, 1, P(0, 0), P(0, 10)), 0);
}

#[test]
fn largest_penalty_is_the_first_maximum() {
    let triangle = problem(
        square(100),
        vec![P(0, 0), P(10, 0), P(0, 10)],
        vec![(0, 1), (1, 2), (0, 2)],
        0,
    );
    assert_eq!(find_largest_penalty(&triangle, &vec![P(0, 0), P(10, 0), P(0, 10)]), (0, None));
    let input = problem(square(100), vec![P(0, 0), P(10, 0), P(0, 10)], vec![(0, 1), (0, 2)], 0);
    // both edges have squared length 121 instead of 100
    let r = find_largest_penalty(&input, &vec![P(0, 0), P(11, 0), P(0, 11)]);
    assert_eq!(r, (21_000_000, Some(0)));
    let r = find_largest_penalty(&input, &vec![P(0, 0), P(10, 0), P(0, 12)]);
    assert_eq!(r, (44_000_000, Some(1)));
}

#[test]
fn variables_and_directions() {
    assert_eq!(lit(0, 0), 1);
    assert_eq!(lit(2, 4), 23);
    assert_eq!(dv(4), P(0, 0));
    assert_eq!(dv(0), P(-1, -1));
    assert_eq!(dv(5), P(1, 0));
    assert_eq!(dv(8), P(1, 1));
    assert_eq!(dv(-1), P(-2, -1));
}

fn exactly_one(v: usize) -> Vec<Vec<i64>> {
    let mut cs = vec![(0..9).map(|d| lit(v, d)).collect::<Vec<_>>()];
    for i in 0..9 {
        for j in 0..i {
            cs.push(vec![-lit(v, j), -lit(v, i)]);
        }
    }
    cs
}

#[test]
fn clauses_of_a_free_vertex() {
    let input = problem(square(10), vec![P(0, 0)], vec![], 0);
    let cs = generate_clauses(&input, &vec![P(5, 5)], 1);
    assert_eq!(cs, exactly_one(0));
    assert_eq!(cs.len(), 37);
    assert_eq!(cs[1], vec![-1, -2]);
}

#[test]
fn clauses_of_a_corner_vertex() {
    let input = problem(square(10), vec![P(0, 0)], vec![], 0);
    let cs = generate_clauses(&input, &vec![P(0, 0)], 1);
    let mut expected = exactly_one(0);
    expected.push(vec![5]);
    for d in [1, 2, 3, 4, 7] {
        expected.push(vec![-d]);
    }
    assert_eq!(cs, expected);
}

#[test]
fn clauses_of_an_edge() {
    let input = problem(square(100), vec![P(0, 0), P(10, 0)], vec![(0, 1)], 0);
    let cs = generate_clauses(&input, &vec![P(2, 5), P(12, 5)], 1);
    assert_eq!(cs.len(), 2 * 37 + 72);
    let mut expected = exactly_one(0);
    expected.extend(exactly_one(1));
    for d1 in 0..9 {
        for d2 in 0..9 {
            if d1 != d2 {
                expected.push(vec![-lit(0, d1), -lit(1, d2)]);
            }
        }
    }
    assert_eq!(cs, expected);
}

#[test]
fn positions_from_a_solution() {
    let mut sol = vec![false; 10];
    sol[9] = true;
    assert_eq!(reconstruct_positions(&problem(vec![], vec![], vec![], 0), &vec![P(5, 5)], &sol), vec![P(6, 6)]);
    let mut sol = vec![false; 19];
    sol[3] = true;
    sol[6] = true;
    sol[14] = true;
    let r = reconstruct_positions(&problem(vec![], vec![], vec![], 0), &vec![P(5, 5), P(0, 0)], &sol);
    assert_eq!(r, vec![P(6, 5), P(0, 0)]);
}

#[test]
fn solution_from_solver_output() {
    assert_eq!(solution_from_lits(&vec![1, -2, 3, -1]), vec![false, false, false, true]);
    assert_eq!(solution_from_lits(&vec![-4, 2]), vec![false, false, true, false, false]);
}

#[test]
fn largest_variable() {
    assert_eq!(max_var(&vec![vec![1, -5], vec![3]]), 5);
    assert_eq!(max_var(&vec![]), 0);
}

#[test]
fn climber_variables_and_directions() {
    let climber = icfpc2021::sat_hillclimber::SatHillclimber::new(problem(square(10), vec![], vec![], 0), 5);
    assert_eq!(climber.n_cands(), 25);
    assert_eq!(climber.d_center(), 12);
    assert_eq!(climber.dv(12), P(0, 0));
    assert_eq!(climber.dv(0), P(-2, -2));
    assert_eq!(climber.dv(24), P(2, 2));
    assert_eq!(climber.lit(1, 3), 29);
}

#[test]
fn climber_clauses_toward_the_corners() {
    let climber =
        icfpc2021::sat_hillclimber::SatHillclimber::new(problem(square(10), vec![P(0, 0)], vec![], 0), 3);
    let cs = climber.generate_clauses(&vec![P(5, 5)]);
    let mut expected = exactly_one(0);
    for away in [[3, 6, 7, 8, 9], [1, 4, 7, 8, 9], [1, 2, 3, 4, 7], [1, 2, 3, 6, 9]] {
        for l in away {
            expected.push(vec![-l]);
        }
    }
    expected.push(vec![1, 2, 4, 2, 3, 6, 6, 8, 9, 4, 7, 8]);
    assert_eq!(cs, expected);
}

#[test]
fn climber_keeps_edges_exact() {
    let climber = icfpc2021::sat_hillclimber::SatHillclimber::new(
        problem(square(100), vec![P(0, 0), P(10, 0)], vec![(0, 1)], 0),
        3,
    );
    let cs = climber.generate_clauses(&vec![P(2, 5), P(12, 5)]);
    let mut one_hot = exactly_one(0);
    one_hot.extend(exactly_one(1));
    let mut edge = vec![];
    for d1 in 0..9 {
        for d2 in 0..9 {
            if d1 != d2 {
                edge.push(vec![-lit(0, d1), -lit(1, d2)]);
            }
        }
    }
    assert_eq!(cs[..74], one_hot[..]);
    assert_eq!(cs[cs.len() - 72..], edge[..]);
    // the clause asking some vertex to get nearer to its corner
    let improve = &cs[cs.len() - 73];
    assert!(improve.contains(&lit(0, 0)));
    assert!(improve.contains(&lit(1, 2)));
}

#[test]
fn climber_positions_from_a_solution() {
    let climber = icfpc2021::sat_hillclimber::SatHillclimber::new(problem(square(10), vec![], vec![], 0), 5);
    let mut sol = vec![false; 26];
    sol[25] = true;
    assert_eq!(climber.reconstruct_positions(&vec![P(5, 5)], &sol), vec![P(7, 7)]);
}

#[test]
fn relaxation_checked_for_range() {
    let input = problem(square(100), vec![P(0, 0), P(10, 0)], vec![(0, 1)], 0);
    assert_eq!(
        get_new_graph_checked(&input, &vec![P(0, 0), P(40, 0)], &vec![false, false]),
        Some(vec![P(11, 0), P(29, 0)])
    );
    assert_eq!(get_new_graph_checked(&input, &vec![P(0, 0), P(600_000, 0)], &vec![false, false]), None);
    assert!(points_in_range(&vec![P(-524288, 524288)]));
    assert!(!points_in_range(&vec![P(0, 0), P(524289, 0)]));
}

#[test]
fn board_of_the_search() {
    let input = problem(square(10), vec![P(-5, 7)], vec![], 0);
    let out = icfpc2021::Output { vertices: vec![P(3, 12)], bonuses: vec![] };
    assert_eq!(board_size(&input, &out), 13);
    let neg = problem(vec![P(-3, -4)], vec![], vec![], 0);
    let none = icfpc2021::Output { vertices: vec![], bonuses: vec![] };
    assert_eq!(board_size(&neg, &none), 1);
    assert_eq!(
        corner_vertices(&square(10), &vec![P(0, 0), P(5, 5), P(10, 10)]),
        vec![true, false, true]
    );
    assert_eq!(
        outside_board(&square(2), 4),
        vec![vec![0, 0, 0, 1], vec![0, 0, 0, 1], vec![0, 0, 0, 1], vec![1, 1, 1, 2]]
    );
    let far = outside_board(&vec![P(0, 0), P(1, 0), P(0, 1)], 2);
    assert_eq!(far, vec![vec![0, 0], vec![0, 1]]);
    assert!(FAR > 10000);
}

#[test]
fn figure_statistics() {
    let input = problem(vec![P(3, 8), P(12, -1), P(0, 0)], vec![], vec![], 0);
    assert_eq!(max_coord(&input), 12);
    // a square with one diagonal: two triangles
    let square_with_diagonal = Figure {
        vertices: vec![P(0, 0), P(1, 0), P(1, 1), P(0, 1)],
        edges: vec![(0, 1), (1, 2), (2, 3), (3, 0), (0, 2)],
    };
    assert_eq!(n_triangles(&square_with_diagonal), 2);
    let complete4 = Figure {
        vertices: vec![P(0, 0), P(1, 0), P(1, 1), P(0, 1)],
        edges: vec![(0, 1), (1, 2), (2, 3), (3, 0), (0, 2), (3, 1)],
    };
    assert_eq!(n_triangles(&complete4), 4);
    let path = Figure { vertices: vec![P(0, 0), P(1, 0), P(2, 0)], edges: vec![(0, 1), (1, 2)] };
    assert_eq!(n_triangles(&path), 0);
}

#[test]
fn repair_stops_when_no_edge_is_stretched() {
    let input = problem(square(100), vec![P(0, 0), P(10, 0), P(0, 10)], vec![(0, 1), (0, 2)], 0);
    assert_eq!(repair_limit(&input, &vec![P(0, 0), P(10, 0), P(0, 10)]), None);
    assert_eq!(repair_limit(&input, &vec![P(0, 0), P(11, 0), P(0, 10)]), Some(21_000_000));
}

#[test]
fn climber_center_direction_is_no_move() {
    let climber = SatHillclimber::new(problem(square(10), vec![P(1, 1)], vec![], 0), 3);
    assert_eq!(climber.n_cands(), 9);
    assert_eq!(climber.d_center(), 4);
    assert_eq!(climber.dv(climber.d_center()), P(0, 0));
    let wide = SatHillclimber::new(problem(square(10), vec![P(1, 1)], vec![], 0), 7);
    assert_eq!(wide.n_cands(), 49);
    assert_eq!(wide.d_center(), 24);
    assert_eq!(wide.dv(wide.d_center()), P(0, 0));
}

#[test]
fn sides_are_positive_odd_numbers() {
    assert_eq!(first_side(3, 9), Some(3));
    assert_eq!(first_side(4, 9), Some(5));
    assert_eq!(first_side(-4, 9), Some(1));
    assert_eq!(first_side(8, 8), None);
    assert_eq!(first_side(10, 9), None);
}

#[test]
fn search_tries_growing_sides_then_restarts() {
    let start = SearchState { steps: 0, tried: None };
    let (s, a) = search_next(3, 7, start, false);
    assert_eq!((s, a), (SearchState { steps: 0, tried: Some(3) }, SearchAction::Try(3)));
    let (s, a) = search_next(3, 7, s, false);
    assert_eq!((s, a), (SearchState { steps: 0, tried: Some(5) }, SearchAction::Try(5)));
    // A found step is taken and the sides start again from the smallest.
    let (s, a) = search_next(3, 7, s, true);
    assert_eq!((s, a), (SearchState { steps: 1, tried: Some(3) }, SearchAction::Try(3)));
    let (s, _) = search_next(3, 7, s, false);
    let (s, _) = search_next(3, 7, s, false);
    let (s, a) = search_next(3, 7, s, false);
    assert_eq!((s, a), (SearchState { steps: 1, tried: None }, SearchAction::Finish(true)));
}

#[test]
fn search_without_any_step_has_no_result() {
    let (s, a) = search_next(3, 3, SearchState { steps: 0, tried: Some(3) }, false);
    assert_eq!((s, a), (SearchState { steps: 0, tried: None }, SearchAction::Finish(false)));
    let (_, a) = search_next(4, 4, SearchState { steps: 0, tried: None }, false);
    assert_eq!(a, SearchAction::Finish(false));
}

fn satisfies_all(sol: &[bool], clauses: &[Vec<i64>]) -> bool {
    clauses.iter().all(|c| c.iter().any(|&l| if l > 0 { sol[l as usize] } else { !sol[(-l) as usize] }))
}

#[test]
fn every_model_of_a_repair_step_is_a_valid_move() {
    let input = problem(square(10), vec![P(0, 0), P(3, 0)], vec![(0, 1)], 0);
    let positions = vec![P(1, 1), P(5, 1)];
    let limit = edge_penalty(&input, 0, 1, positions[0], positions[1]);
    assert!(limit > 0);
    let clauses = generate_clauses(&input, &positions, limit);
    let mut models = 0;
    for bits in 0u32..(1 << 18) {
        let mut sol = vec![false; 19];
        for x in 0..18 {
            sol[x + 1] = bits >> x & 1 == 1;
        }
        if !satisfies_all(&sol, &clauses) {
            continue;
        }
        models += 1;
        let r = reconstruct_positions(&input, &positions, &sol);
        for &p in &r {
            assert!(icfpc2021::P::contains_p(&input.hole, p) >= 0);
        }
        assert!(edge_penalty(&input, 0, 1, r[0], r[1]) < limit);
    }
    assert!(models > 0);
}

#[test]
fn every_model_of_a_climb_step_gets_nearer_to_a_corner() {
    let input = problem(square(10), vec![P(0, 0), P(1, 1)], vec![], 0);
    let climber = SatHillclimber::new(input.clone(), 3);
    let positions = vec![P(2, 3), P(8, 7)];
    let clauses = climber.generate_clauses(&positions);
    let d2 = |a: Point, b: Point| (a - b).abs2();
    let nearest = |h: Point| if d2(positions[1], h) < d2(positions[0], h) { 1 } else { 0 };
    let mut models = 0;
    for bits in 0u32..(1 << 18) {
        let mut sol = vec![false; 19];
        for x in 0..18 {
            sol[x + 1] = bits >> x & 1 == 1;
        }
        if !satisfies_all(&sol, &clauses) {
            continue;
        }
        models += 1;
        let r = climber.reconstruct_positions(&positions, &sol);
        for &p in &r {
            assert!(icfpc2021::P::contains_p(&input.hole, p) >= 0);
        }
        let corners = square(10);
        assert!(corners.iter().all(|&h| d2(r[nearest(h)], h) <= d2(positions[nearest(h)], h)));
        assert!(corners.iter().any(|&h| d2(r[nearest(h)], h) < d2(positions[nearest(h)], h)));
    }
    assert!(models > 0);
}

#[test]
fn board_holds_the_fewest_steps_to_the_hole() {
    let b = outside_board(&square(1), 6);
    for y in 0..6i64 {
        for x in 0..6i64 {
            let steps = (y - 1).max(0) + (x - 1).max(0);
            assert_eq!(b[y as usize][x as usize], steps);
        }
    }
}
