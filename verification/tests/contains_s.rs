use icfpc2021::{Point, P};

fn generate_rectangle() -> Vec<Point> {
    vec![P(0, 0), P(0, 10), P(10, 10), P(10, 0)]
}

#[test]
fn rect1() {
    assert_eq!(P::contains_s(&generate_rectangle(), (P(1, 5), P(9, 5))), true);
}

#[test]
fn rect2() {
    assert_eq!(P::contains_s(&generate_rectangle(), (P(11, 5), P(19, 5))), false);
}

#[test]
fn rect3() {
    assert_eq!(P::contains_s(&generate_rectangle(), (P(0, 5), P(0, 5))), true);
}

#[test]
fn rect4() {
    assert_eq!(P::contains_s(&generate_rectangle(), (P(0, 10), P(10, 10))), true);
}

#[test]
fn rect5() {
    assert_eq!(P::contains_s(&generate_rectangle(), (P(0, 10), P(9, 10))), true);
}

#[test]
fn rect6() {
    assert_eq!(P::contains_s(&generate_rectangle(), (P(1, 10), P(9, 10))), true);
}

#[test]
fn rect7() {
    assert_eq!(P::contains_s(&generate_rectangle(), (P(-1, 10), P(11, 10))), false);
}

#[test]
fn rect8() {
    assert_eq!(P::contains_s(&generate_rectangle(), (P(-1, 10), P(9, 10))), false);
}

#[test]
fn rect9() {
    assert_eq!(P::contains_s(&generate_rectangle(), (P(0, 0), P(10, 10))), true);
}

#[test]
fn rect10() {
    assert_eq!(P::contains_s(&generate_rectangle(), (P(0, 0), P(9, 9))), true);
}

#[test]
fn rect11() {
    assert_eq!(P::contains_s(&generate_rectangle(), (P(-1, -1), P(11, 11))), false);
}

#[test]
fn rect12() {
    assert_eq!(P::contains_s(&generate_rectangle(), (P(1, 0), P(9, 9))), true);
}

fn det(a: (i64, i64), b: (i64, i64)) -> i64 {
    a.0 * b.1 - a.1 * b.0
}

fn dot(a: (i64, i64), b: (i64, i64)) -> i64 {
    a.0 * b.0 + a.1 * b.1
}

fn gcd(a: i64, b: i64) -> i64 {
    if b == 0 { a.abs() } else { gcd(b, a % b) }
}

/// Whether every point of the closed segment lies in the closed polygon,
/// found by testing the ends, every point where the segment meets a side's
/// line or passes a corner, and a point between each two of them, each with
/// the point test on the polygon scaled to the point's denominator.
fn segment_inside(ps: &Vec<Point>, q1: Point, q2: Point) -> bool {
    let d = (q2.0 - q1.0, q2.1 - q1.1);
    let mut ts: Vec<(i64, i64)> = vec![(0, 1), (1, 1)];
    let n = ps.len();
    for i in 0..n {
        let a = ps[i];
        let b = ps[(i + 1) % n];
        let w = (a.0 - q1.0, a.1 - q1.1);
        if det(d, w) == 0 && dot(d, d) > 0 {
            ts.push((dot(d, w), dot(d, d)));
        }
        let e = (b.0 - a.0, b.1 - a.1);
        let den = det(d, e);
        if den != 0 {
            ts.push((det(w, e), den));
        }
    }
    let mut ts: Vec<(i64, i64)> = ts
        .into_iter()
        .map(|(a, b)| if b < 0 { (-a, -b) } else { (a, b) })
        .filter(|&(a, b)| 0 <= a && a <= b)
        .map(|(a, b)| {
            let g = gcd(a, b).max(1);
            (a / g, b / g)
        })
        .collect();
    ts.sort_by(|x, y| (x.0 * y.1).cmp(&(y.0 * x.1)));
    ts.dedup();
    let mut probes = ts.clone();
    for k in 0..ts.len() - 1 {
        let (a, b) = ts[k];
        let (c, e) = ts[k + 1];
        probes.push((a * e + c * b, 2 * b * e));
    }
    probes.iter().all(|&(num, den)| {
        let scaled: Vec<Point> = ps.iter().map(|p| P(p.0 * den, p.1 * den)).collect();
        let x = P(q1.0 * den + d.0 * num, q1.1 * den + d.1 * num);
        P::contains_p(&scaled, x) >= 0
    })
}

fn all_segments_agree(ps: &Vec<Point>, size: i64) {
    let mut pts = vec![];
    for x in -1..=size + 1 {
        for y in -1..=size + 1 {
            pts.push(P(x, y));
        }
    }
    for &q1 in &pts {
        for &q2 in &pts {
            let r = P::contains_s(ps, (q1, q2));
            assert_eq!(r, segment_inside(ps, q1, q2), "{:?} {:?} {:?}", ps, q1, q2);
            assert_eq!(r, P::contains_s(ps, (q2, q1)), "{:?} {:?} {:?}", ps, q1, q2);
        }
    }
}

#[test]
fn contains_s_is_segment_containment_on_small_polygons() {
    let polys = vec![
        vec![P(0, 0), P(0, 4), P(4, 4), P(4, 0)],
        vec![P(0, 0), P(0, 4), P(1, 4), P(1, 2), P(3, 2), P(3, 4), P(4, 4), P(4, 0)],
        vec![P(0, 0), P(2, 4), P(4, 0), P(2, 2)],
        vec![P(0, 0), P(0, 2), P(0, 4), P(4, 4), P(2, 2), P(4, 0)],
        vec![P(1, 0), P(0, 3), P(2, 1), P(4, 4), P(3, 0)],
    ];
    for ps in &polys {
        all_segments_agree(ps, 4);
    }
}
