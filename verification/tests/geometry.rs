use imageproc::geometry::{
    approx_poly_dp, arc_segments, convex_hull, farthest_from_chord, min_area_rect,
};
use imageproc::point::Point;

fn to_f64(p: Point<i32>) -> (f64, f64) {
    (p.x as f64, p.y as f64)
}

fn distance(p: Point<i32>, q: Point<i32>) -> f64 {
    let (px, py) = to_f64(p);
    let (qx, qy) = to_f64(q);
    ((px - qx).powf(2.0) + (py - qy).powf(2.0)).sqrt()
}

fn arc_length(arc: &[Point<i32>], closed: bool) -> f64 {
    arc_segments(arc, closed).iter().map(|s| distance(s.0, s.1)).sum()
}

fn simplify(curve: &[Point<i32>], epsilon: f64, closed: bool) -> Vec<Point<i32>> {
    approx_poly_dp(curve, closed, |offset, chord_squared| {
        offset as f64 / (chord_squared as f64).sqrt() > epsilon
    })
}

fn rotate(p: (f64, f64), sin: f64, cos: f64) -> (f64, f64) {
    (p.0 * cos + p.1 * sin, p.1 * cos - p.0 * sin)
}

fn invert_rotation(p: (f64, f64), sin: f64, cos: f64) -> (f64, f64) {
    (p.0 * cos - p.1 * sin, p.1 * cos + p.0 * sin)
}

fn rotating_calipers(points: &Vec<Point<i32>>) -> [Point<i32>; 4] {
    let pi = std::f64::consts::PI;
    let mut edge_angles: Vec<f64> = points
        .windows(2)
        .map(|e| {
            let (ax, ay) = to_f64(e[0]);
            let (bx, by) = to_f64(e[1]);
            (((by - ay).atan2(bx - ax) + pi) % (pi / 2.)).abs()
        })
        .collect();
    edge_angles.dedup();

    let mut min_area = f64::MAX;
    let mut res = vec![(0.0, 0.0); 4];
    for angle in edge_angles {
        let (sin, cos) = angle.sin_cos();
        let rotated: Vec<(f64, f64)> = points.iter().map(|p| rotate(to_f64(*p), sin, cos)).collect();
        let (min_x, max_x, min_y, max_y) =
            rotated.iter().fold((f64::MAX, f64::MIN, f64::MAX, f64::MIN), |acc, p| {
                (acc.0.min(p.0), acc.1.max(p.0), acc.2.min(p.1), acc.3.max(p.1))
            });
        let area = (max_x - min_x) * (max_y - min_y);
        if area < min_area {
            min_area = area;
            res[0] = invert_rotation((max_x, min_y), sin, cos);
            res[1] = invert_rotation((min_x, min_y), sin, cos);
            res[2] = invert_rotation((min_x, max_y), sin, cos);
            res[3] = invert_rotation((max_x, max_y), sin, cos);
        }
    }
    res.sort_by(|a, b| a.0.partial_cmp(&b.0).unwrap());

    let i1 = if res[1].1 > res[0].1 { 0 } else { 1 };
    let i2 = if res[3].1 > res[2].1 { 2 } else { 3 };
    let i3 = if res[3].1 > res[2].1 { 3 } else { 2 };
    let i4 = if res[1].1 > res[0].1 { 1 } else { 0 };
    [
        Point::new(res[i1].0.floor() as i32, res[i1].1.floor() as i32),
        Point::new(res[i2].0.ceil() as i32, res[i2].1.floor() as i32),
        Point::new(res[i3].0.ceil() as i32, res[i3].1.ceil() as i32),
        Point::new(res[i4].0.floor() as i32, res[i4].1.ceil() as i32),
    ]
}

#[test]
fn min_area_test() {
    assert_eq!(
        min_area_rect(
            &[
                Point::new(100, 20),
                Point::new(140, 30),
                Point::new(130, 60),
                Point::new(80, 55),
                Point::new(60, 25)
            ],
            rotating_calipers
        ),
        [
            Point::new(60, 16),
            Point::new(141, 24),
            Point::new(137, 61),
            Point::new(57, 53)
        ]
    )
}

#[test]
fn min_area_rect_holds_the_contour() {
    let contour = [
        Point::new(100, 20),
        Point::new(90, 35),
        Point::new(60, 25),
        Point::new(90, 40),
        Point::new(80, 55),
        Point::new(101, 50),
        Point::new(130, 60),
        Point::new(115, 45),
        Point::new(140, 30),
        Point::new(120, 35),
    ];
    let rect = min_area_rect(&contour, rotating_calipers);
    assert_eq!(
        rect,
        [Point::new(60, 16), Point::new(141, 24), Point::new(137, 61), Point::new(57, 53)]
    );
    for i in 0..4 {
        for p in &contour {
            assert!(cross(rect[i], rect[(i + 1) % 4], *p) >= 0);
        }
    }
}

#[test]
fn min_area_rect_of_one_point_is_that_point_four_times() {
    let p = Point::new(7, -3);
    assert_eq!(min_area_rect(&[p, p, p], rotating_calipers), [p, p, p, p]);
}

#[test]
fn min_area_rect_of_points_in_line_is_the_segment_twice() {
    let a = Point::new(0, 0);
    let b = Point::new(6, 3);
    let rect = min_area_rect(&[Point::new(2, 1), b, a, Point::new(4, 2)], rotating_calipers);
    assert_eq!(rect, [a, b, b, a]);
}

#[test]
fn arc_length_of_two_points() {
    let arc = [Point::new(0, 0), Point::new(3, 4)];
    assert_eq!(arc_length(&arc, false), 5.0);
}

#[test]
fn arc_length_of_two_points_is_the_same_closed() {
    let arc = [Point::new(0, 0), Point::new(3, 4)];
    assert_eq!(arc_segments(&arc, true), arc_segments(&arc, false));
    assert_eq!(arc_length(&arc, true), arc_length(&arc, false));
}

#[test]
fn arc_segments_of_short_arcs_are_none() {
    assert_eq!(arc_segments::<i32>(&[], true), vec![]);
    assert_eq!(arc_segments(&[Point::new(1, 1)], true), vec![]);
}

#[test]
fn arc_segments_close_a_triangle() {
    let a = Point::new(0, 0);
    let b = Point::new(3, 0);
    let c = Point::new(3, 4);
    assert_eq!(arc_segments(&[a, b, c], false), vec![(a, b), (b, c)]);
    assert_eq!(arc_segments(&[a, b, c], true), vec![(a, b), (b, c), (a, c)]);
    assert_eq!(arc_length(&[a, b, c], false), 7.0);
    assert_eq!(arc_length(&[a, b, c], true), 12.0);
}

#[test]
fn approx_poly_dp_cuts_at_the_first_of_the_farthest_points() {
    let curve = [
        Point::new(0, 0),
        Point::new(1, 0),
        Point::new(2, 1),
        Point::new(5, 5),
        Point::new(6, 5),
        Point::new(10, 0),
    ];
    assert_eq!(
        simplify(&curve, 1.0, false),
        vec![Point::new(0, 0), Point::new(5, 5), Point::new(10, 0)]
    );
}

#[test]
fn approx_poly_dp_open_curve_keeps_both_ends() {
    let curve = [
        Point::new(3, 3),
        Point::new(4, 9),
        Point::new(8, 2),
        Point::new(9, 9),
        Point::new(12, 4),
    ];
    for epsilon in [0.1, 1.0, 3.0, 10.0, 100.0] {
        let res = simplify(&curve, epsilon, false);
        assert_eq!(res[0], curve[0]);
        assert_eq!(res[res.len() - 1], curve[4]);
    }
    assert_eq!(simplify(&curve, 100.0, false), vec![curve[0], curve[4]]);
    assert_eq!(simplify(&curve, 0.1, false), curve.to_vec());
}

#[test]
fn approx_poly_dp_larger_tolerance_keeps_no_more_points() {
    let curve = [
        Point::new(0, 0),
        Point::new(2, 5),
        Point::new(4, -1),
        Point::new(7, 8),
        Point::new(9, 1),
        Point::new(11, 2),
        Point::new(14, 0),
    ];
    let mut last = usize::MAX;
    for epsilon in [0.5, 1.0, 2.0, 4.0, 6.0, 8.0, 20.0] {
        let count = simplify(&curve, epsilon, false).len();
        assert!(count <= last);
        last = count;
    }
    assert_eq!(last, 2);
}

#[test]
fn approx_poly_dp_closed_curve_drops_the_last_point() {
    let curve = [
        Point::new(0, 0),
        Point::new(10, 0),
        Point::new(10, 10),
        Point::new(0, 10),
        Point::new(0, 0),
    ];
    // the chord from the first point to the last has no length, so nothing is measured against it
    assert_eq!(simplify(&curve, 1.0, true), vec![Point::new(0, 0)]);
    let open = [Point::new(0, 0), Point::new(10, 0), Point::new(10, 10), Point::new(0, 10)];
    assert_eq!(
        simplify(&open, 1.0, true),
        vec![Point::new(0, 0), Point::new(10, 0), Point::new(10, 10)]
    );
}

#[test]
fn approx_poly_dp_never_cuts_at_a_point_on_the_chord() {
    let line = [Point::new(0, 0), Point::new(1, 1), Point::new(2, 2), Point::new(3, 3)];
    assert_eq!(approx_poly_dp(&line, false, |_, _| true), vec![line[0], line[3]]);
    let same = [Point::new(4, 4), Point::new(4, 4), Point::new(4, 4)];
    assert_eq!(approx_poly_dp(&same, false, |_, _| true), vec![same[0], same[2]]);
}

#[test]
fn approx_poly_dp_joins_the_parts_without_repeating_the_cut() {
    let curve = [
        Point::new(0, 0),
        Point::new(1, 3),
        Point::new(2, -2),
        Point::new(3, 4),
        Point::new(4, 0),
    ];
    assert_eq!(approx_poly_dp(&curve, false, |_, _| true), curve.to_vec());
    assert_eq!(approx_poly_dp(&curve, true, |_, _| true), curve[..4].to_vec());
    assert_eq!(approx_poly_dp(&curve, false, |_, _| false), vec![curve[0], curve[4]]);
    assert_eq!(approx_poly_dp(&curve, true, |_, _| false), vec![curve[0]]);
}

#[test]
fn approx_poly_dp_hands_over_the_offset_and_the_squared_chord() {
    let curve = [Point::new(0, 0), Point::new(1, 2), Point::new(4, 3)];
    // the offset of (1, 2) from the chord to (4, 3) is |4 * 2 - 3 * 1| = 5, the chord squared 25
    let res = approx_poly_dp(&curve, false, |offset, chord_squared| {
        assert_eq!((offset, chord_squared), (5, 25));
        true
    });
    assert_eq!(res, curve.to_vec());
}

#[test]
fn farthest_from_chord_is_the_first_of_the_farthest() {
    let curve = [
        Point::new(0, 0),
        Point::new(1, 0),
        Point::new(2, 1),
        Point::new(5, -5),
        Point::new(6, 5),
        Point::new(10, 0),
    ];
    assert_eq!(farthest_from_chord(&curve, 0, 5), (3, 50));
    assert_eq!(farthest_from_chord(&curve, 0, 2), (1, 1));
    assert_eq!(farthest_from_chord(&curve, 3, 4), (3, 0));
    assert_eq!(farthest_from_chord(&curve, 0, 1), (0, 0));
    let line = [Point::new(0, 0), Point::new(2, 2), Point::new(1, 1), Point::new(3, 3)];
    assert_eq!(farthest_from_chord(&line, 0, 3), (0, 0));
}

#[test]
fn farthest_from_chord_is_exact_for_the_largest_coordinates() {
    let curve = [
        Point::new(i32::MIN, i32::MIN),
        Point::new(i32::MAX, i32::MIN),
        Point::new(i32::MIN, i32::MAX),
        Point::new(i32::MAX, i32::MAX),
    ];
    let side = u32::MAX as u128;
    assert_eq!(farthest_from_chord(&curve, 0, 3), (1, side * side));
}

#[test]
fn convex_hull_does_not_depend_on_the_order() {
    let points = vec![
        Point::new(3, 1),
        Point::new(0, 0),
        Point::new(4, 4),
        Point::new(2, 2),
        Point::new(0, 4),
        Point::new(4, 0),
        Point::new(2, 0),
        Point::new(2, 2),
    ];
    let hull = convex_hull(&points);
    assert_eq!(
        hull,
        vec![Point::new(0, 0), Point::new(4, 0), Point::new(4, 4), Point::new(0, 4)]
    );
    let mut turned = points.clone();
    for _ in 0..points.len() {
        turned.rotate_left(1);
        assert_eq!(convex_hull(&turned), hull);
    }
    turned.reverse();
    assert_eq!(convex_hull(&turned), hull);
}

#[test]
fn convex_hull_of_one_point_and_of_equal_points() {
    let p = Point::new(5, 5);
    assert_eq!(convex_hull(&[p]), vec![p]);
    assert_eq!(convex_hull(&[p, p]), vec![p, p]);
    assert_eq!(convex_hull(&[p, p, p]), vec![p, p]);
}

#[test]
fn convex_hull_of_two_points_starts_at_the_lower() {
    let a = Point::new(3, 9);
    let b = Point::new(8, 2);
    assert_eq!(convex_hull(&[a, b]), vec![b, a]);
    let c = Point::new(1, 2);
    assert_eq!(convex_hull(&[b, c]), vec![c, b]);
}

#[test]
fn convex_hull_of_points_in_line_keeps_the_ends() {
    let line: Vec<Point<i32>> = (0..6).map(|i| Point::new(2 * i, 3 * i)).collect();
    assert_eq!(convex_hull(&line), vec![Point::new(0, 0), Point::new(10, 15)]);
}

#[test]
fn convex_hull_leaves_out_points_on_its_edges() {
    let points = [
        Point::new(0, 0),
        Point::new(2, 0),
        Point::new(4, 0),
        Point::new(4, 2),
        Point::new(4, 4),
        Point::new(2, 4),
        Point::new(0, 4),
        Point::new(0, 2),
        Point::new(2, 2),
    ];
    assert_eq!(
        convex_hull(&points),
        vec![Point::new(0, 0), Point::new(4, 0), Point::new(4, 4), Point::new(0, 4)]
    );
}

fn cross(o: Point<i32>, a: Point<i32>, b: Point<i32>) -> i128 {
    (a.x as i128 - o.x as i128) * (b.y as i128 - o.y as i128)
        - (a.y as i128 - o.y as i128) * (b.x as i128 - o.x as i128)
}

#[test]
fn convex_hull_orders_many_points() {
    // points on a parabola, given out of order: every one is a corner of the hull
    let count: i32 = 1000;
    let mut points = Vec::new();
    for k in 0..count {
        let x = (k * 7919) % count - count / 2;
        points.push(Point::new(x, x * x));
    }
    let hull = convex_hull(&points);
    assert_eq!(hull.len(), count as usize);
    assert_eq!(hull[0], Point::new(0, 0));
    for k in 1..count as usize {
        let x = if k < (count / 2) as usize { k as i32 } else { k as i32 - count };
        assert_eq!(hull[k], Point::new(x, x * x));
    }
}

#[test]
fn convex_hull_turns_left_and_holds_every_point() {
    let mut points = Vec::new();
    let mut seed: u32 = 12345;
    for _ in 0..200 {
        seed = seed.wrapping_mul(1103515245).wrapping_add(12345);
        let x = ((seed >> 16) % 41) as i32 - 20;
        seed = seed.wrapping_mul(1103515245).wrapping_add(12345);
        let y = ((seed >> 16) % 41) as i32 - 20;
        points.push(Point::new(x, y));
    }
    let hull = convex_hull(&points);
    let n = hull.len();
    assert!(n >= 3);
    for i in 0..n {
        assert!(cross(hull[i], hull[(i + 1) % n], hull[(i + 2) % n]) > 0);
        for p in &points {
            assert!(cross(hull[i], hull[(i + 1) % n], *p) >= 0);
        }
    }
}

#[test]
fn convex_hull_is_exact_at_the_ends_of_the_coordinate_range() {
    let points = [
        Point::new(i32::MIN, i32::MIN),
        Point::new(i32::MAX, i32::MIN),
        Point::new(i32::MAX, i32::MAX),
        Point::new(i32::MIN, i32::MAX),
        Point::new(0, 0),
        Point::new(i32::MAX, 0),
    ];
    assert_eq!(
        convex_hull(&points),
        vec![
            Point::new(i32::MIN, i32::MIN),
            Point::new(i32::MAX, i32::MIN),
            Point::new(i32::MAX, i32::MAX),
            Point::new(i32::MIN, i32::MAX)
        ]
    );
}

/// The corners of the hull by trying every point against every pair of others.
fn is_corner_of_hull(points: &[Point<i32>], p: Point<i32>) -> bool {
    // a corner is a point that does not lie on a segment between two other points
    // and not inside a triangle of three others
    for a in points {
        for b in points {
            if *a == p || *b == p {
                continue;
            }
            let on_line = cross(*a, *b, p) == 0;
            let between = (a.x.min(b.x)..=a.x.max(b.x)).contains(&p.x)
                && (a.y.min(b.y)..=a.y.max(b.y)).contains(&p.y);
            if on_line && between {
                return false;
            }
            for c in points {
                if *c == p {
                    continue;
                }
                let (d1, d2, d3) = (cross(*a, *b, p), cross(*b, *c, p), cross(*c, *a, p));
                if d1 > 0 && d2 > 0 && d3 > 0 {
                    return false;
                }
            }
        }
    }
    true
}

#[test]
fn convex_hull_is_the_set_of_corners() {
    let mut seed: u32 = 2024;
    for _ in 0..300 {
        let mut points = Vec::new();
        seed = seed.wrapping_mul(1103515245).wrapping_add(12345);
        let count = 1 + (seed >> 16) % 9;
        for _ in 0..count {
            seed = seed.wrapping_mul(1103515245).wrapping_add(12345);
            let x = ((seed >> 16) % 7) as i32 - 3;
            seed = seed.wrapping_mul(1103515245).wrapping_add(12345);
            let y = ((seed >> 16) % 7) as i32 - 3;
            points.push(Point::new(x, y));
        }
        let hull = convex_hull(&points);
        let mut distinct = points.clone();
        distinct.sort_by_key(|p| (p.y, p.x));
        distinct.dedup();
        if distinct.len() == 1 {
            // one point, once or more often: itself, and once more if it was given twice
            assert_eq!(hull.len(), points.len().min(2));
            continue;
        }
        let mut expected: Vec<Point<i32>> =
            distinct.iter().filter(|p| is_corner_of_hull(&distinct, **p)).cloned().collect();
        let mut found = hull.clone();
        found.sort_by_key(|p| (p.y, p.x));
        expected.sort_by_key(|p| (p.y, p.x));
        assert_eq!(found, expected);
        assert_eq!(hull[0], distinct[0]);
    }
}
