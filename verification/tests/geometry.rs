use icfpc2021::{sig, Point, P, R};
use std::cmp::Ordering;

fn rectangle() -> Vec<Point> {
    vec![P(0, 0), P(0, 10), P(10, 10), P(10, 0)]
}

fn boko() -> Vec<Point> {
    vec![P(0, 0), P(0, 8), P(2, 8), P(2, 4), P(6, 4), P(6, 8), P(8, 8), P(8, 0)]
}

#[test]
fn vector_products() {
    assert_eq!(P(3, 4).dot(P(2, -1)), 2);
    assert_eq!(P(3, 4).det(P(2, -1)), -11);
    assert_eq!(P(3, 4).abs2(), 25);
    assert_eq!(P(3, 4).rot(), P(-4, 3));
    assert_eq!(P(3, 4) + P(1, -1), P(4, 3));
    assert_eq!(P(3, 4) - P(1, -1), P(2, 5));
    assert_eq!(P(3, 4) * 3, P(9, 12));
}

#[test]
fn rotation_is_orthogonal() {
    let p: Point = P(7, -2);
    assert_eq!(p.dot(p.rot()), 0);
    assert_eq!(p.det(p.rot()), p.abs2());
}

#[test]
fn signs() {
    assert_eq!(sig(5), 1);
    assert_eq!(sig(-3), -1);
    assert_eq!(sig(0), 0);
}

#[test]
fn fraction_values() {
    assert_eq!(R(7i64, 2).val(), 3);
    assert_eq!(R(-7i64, 2).val(), -3);
    assert_eq!(R(7i64, -2).val(), -3);
    assert_eq!(R(-7i64, -2).val(), 3);
}

#[test]
fn fraction_order() {
    assert_eq!(R(1i64, 2).cmp(&R(2, 4)), Ordering::Equal);
    assert_eq!(R(1i64, 3).cmp(&R(1, 2)), Ordering::Less);
    assert_eq!(R(1i64, -2).cmp(&R(1, 3)), Ordering::Less);
    assert_eq!(R(3i64, -2).cmp(&R(-2, 1)), Ordering::Greater);
    assert!(R(3i64, 6).same_value(&R(-1, -2)));
    assert!(!R(3i64, 6).same_value(&R(1, 3)));
    let x: R<i64> = R::from(5);
    assert_eq!((x.0, x.1), (5, 1));
}

#[test]
fn distances() {
    let s = (P(0, 0), P(10, 0));
    let r = P::dist2_lp(s, P(3, 4));
    assert_eq!((r.0, r.1), (1600, 100));
    let r = P::dist2_sp(s, P(3, 4));
    assert_eq!((r.0, r.1), (1600, 100));
    let r = P::dist2_sp(s, P(-3, 4));
    assert_eq!((r.0, r.1), (25, 1));
    let r = P::dist2_sp(s, P(13, 4));
    assert_eq!((r.0, r.1), (25, 1));
}

#[test]
fn point_on_line_and_segment() {
    let s = (P(0, 0), P(2, 2));
    assert!(P::crs_lp(s, P(5, 5)));
    assert!(!P::crs_sp(s, P(5, 5)));
    assert!(P::crs_sp(s, P(1, 1)));
    assert!(!P::crs_lp(s, P(1, 2)));
}

#[test]
fn segments_meeting() {
    assert!(P::crs_ss((P(0, 0), P(2, 2)), (P(0, 2), P(2, 0))));
    assert!(!P::crs_ss((P(0, 0), P(1, 1)), (P(2, 2), P(3, 3))));
    assert!(P::crs_ss((P(0, 0), P(2, 2)), (P(1, 1), P(3, 3))));
    assert!(!P::crs_ss((P(0, 0), P(2, 0)), (P(0, 1), P(2, 1))));
}

#[test]
fn projection() {
    let r = P::proj((P(0, 0), P(10, 0)), P(3, 4));
    assert_eq!((r.0 .0, r.0 .1, r.1 .0, r.1 .1), (300, 100, 0, 100));
    assert_eq!((r.0.val(), r.1.val()), (3, 0));
}

#[test]
fn line_intersection() {
    let r = P::pi_ll((P(0, 0), P(2, 2)), (P(0, 2), P(2, 0))).unwrap();
    assert_eq!((r.0 .0, r.0 .1, r.1 .0, r.1 .1), (8, 8, 8, 8));
    assert_eq!((r.0.val(), r.1.val()), (1, 1));
    assert!(P::pi_ll((P(0, 0), P(2, 2)), (P(1, 0), P(3, 2))).is_none());
}

#[test]
fn point_in_polygon() {
    let rect = rectangle();
    assert_eq!(P::contains_p(&rect, P(5, 5)), 1);
    assert_eq!(P::contains_p(&rect, P(0, 5)), 0);
    assert_eq!(P::contains_p(&rect, P(10, 10)), 0);
    assert_eq!(P::contains_p(&rect, P(11, 5)), -1);
    assert_eq!(P::contains_p(&rect, P(5, -1)), -1);
    let b = boko();
    assert_eq!(P::contains_p(&b, P(4, 6)), -1);
    assert_eq!(P::contains_p(&b, P(4, 2)), 1);
    assert_eq!(P::contains_p(&b, P(4, 4)), 0);
    assert_eq!(P::contains_p(&Vec::new(), P(0, 0)), -1);
}

#[test]
fn points_outside_the_box_are_outside() {
    let b = boko();
    for q in [P(-1, 3), P(9, 3), P(3, -1), P(3, 9), P(-5, -5), P(20, 20)] {
        assert_eq!(P::contains_p(&b, q), -1);
    }
}

#[test]
fn degenerate_segment_is_its_point() {
    let b = boko();
    for q in [P(1, 1), P(4, 6), P(0, 3), P(2, 6), P(9, 9), P(4, 4)] {
        assert_eq!(P::contains_s(&b, (q, q)), P::contains_p(&b, q) >= 0);
    }
}

#[test]
fn segment_through_a_notch() {
    let b = boko();
    assert!(!P::contains_s(&b, (P(1, 6), P(7, 6))));
    assert!(P::contains_s(&b, (P(1, 2), P(7, 2))));
    assert!(!P::contains_s(&b, (P(1, 6), P(3, 6))));
}

#[test]
fn segment_predicates_on_large_coordinates() {
    let a = P(-1_000_000_000, -1_000_000_000);
    let b = P(1_000_000_000, 1_000_000_000);
    assert!(P::crs_lp((a, b), P(7, 7)));
    assert!(!P::crs_lp((a, b), P(7, 8)));
    assert!(P::crs_sp((a, b), P(999_999_999, 999_999_999)));
    assert!(!P::crs_sp((a, P(0, 0)), P(5, 5)));
    let c = P(-1_000_000_000, 1_000_000_000);
    let d = P(1_000_000_000, -1_000_000_000);
    assert!(P::crs_ss((a, b), (c, d)));
    assert!(P::crs_ss((c, d), (b, a)));
    assert!(!P::crs_ss((a, P(-1, -1)), (P(1, 1), b)));
    let square = vec![a, c, b, d];
    assert_eq!(P::contains_p(&square, P(0, 0)), 1);
    assert_eq!(P::contains_p(&square, P(1_000_000_000, 0)), 0);
    assert_eq!(P::contains_p(&square, P(1_000_000_001, 0)), -1);
}

#[test]
fn segment_predicates_are_symmetric() {
    let (p, q, r) = (P(0, 0), P(4, 2), P(2, 1));
    assert_eq!(P::crs_lp((p, q), r), P::crs_lp((q, p), r));
    assert_eq!(P::crs_lp((p, q), r), P::crs_lp((p, r), q));
    let (s, t) = ((P(0, 0), P(4, 4)), (P(4, 0), P(0, 4)));
    assert_eq!(P::crs_ss(s, t), P::crs_ss(t, s));
    assert_eq!(P::crs_ss(s, t), P::crs_ss((s.1, s.0), t));
    let far = (P(5, 5), P(6, 9));
    assert!(!P::crs_ss(s, far) || P::crs_ss(far, s));
    assert_eq!(P::crs_ss((P(0, 0), P(1, 0)), (P(2, 0), P(3, 0))), false);
    assert_eq!(P::crs_ss((P(0, 0), P(2, 0)), (P(2, 0), P(3, 0))), true);
}

#[test]
fn containment_ignores_first_vertex_and_orientation() {
    let ps = boko();
    let mut reversed = ps.clone();
    reversed.reverse();
    for q in [P(1, 1), P(4, 6), P(4, 4), P(0, 3), P(9, 9), P(2, 6), P(7, 8), P(-1, 0)] {
        let r = P::contains_p(&ps, q);
        assert_eq!(P::contains_p(&reversed, q), r);
        for k in 0..ps.len() {
            let mut rotated = ps[k..].to_vec();
            rotated.extend_from_slice(&ps[..k]);
            assert_eq!(P::contains_p(&rotated, q), r);
        }
    }
    assert_eq!(P::contains_p(&ps, P(4, 6)), -1);
    assert_eq!(P::contains_p(&ps, P(1, 1)), 1);
    assert_eq!(P::contains_p(&ps, P(4, 4)), 0);
}

#[test]
fn distances_are_the_smallest_over_the_segment() {
    let cases = [((0, 0), (10, 0), (3, 4)), ((1, 2), (7, -3), (0, 9)), ((2, 2), (2, 2), (5, 6)), ((-4, 1), (3, 5), (6, 2))];
    for &(a, b, q) in &cases {
        let (a, b, q) = (P(a.0, a.1), P(b.0, b.1), P(q.0, q.1));
        let r = P::dist2_sp((a, b), q);
        let mut best = None;
        for k in 0..=1000i64 {
            // squared distance to a + (k / 1000) (b - a), times 1000^2
            let x = 1000 * (a.0 - q.0) + k * (b.0 - a.0);
            let y = 1000 * (a.1 - q.1) + k * (b.1 - a.1);
            let d = x * x + y * y;
            // d / 10^6 >= r.0 / r.1
            assert!(d * r.1 >= 1_000_000 * r.0);
            best = Some(best.map_or(d, |m: i64| m.min(d)));
        }
        assert!(best.unwrap() >= 0);
    }
}
