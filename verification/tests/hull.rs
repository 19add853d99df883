use imageproc::geometry::{convex_hull, orientation, Orientation};
use imageproc::point::Point;

#[test]
fn convex_hull_points() {
    let star = vec![
        Point::new(100, 20),
        Point::new(90, 35),
        Point::new(60, 25),
        Point::new(90, 40),
        Point::new(80, 55),
        Point::new(101, 50),
        Point::new(130, 60),
        Point::new(115, 45),
        Point::new(140, 30),
        Point::new(120, 35),
    ];
    let points = convex_hull(&star);
    assert_eq!(
        points,
        [
            Point::new(100, 20),
            Point::new(140, 30),
            Point::new(130, 60),
            Point::new(80, 55),
            Point::new(60, 25)
        ]
    );
}

#[test]
fn convex_hull_points_empty_vec() {
    let points = convex_hull(&vec![]);
    assert_eq!(points, []);
}

#[test]
fn convex_hull_points_with_negative_values() {
    let star = vec![
        Point::new(100, -20),
        Point::new(90, 5),
        Point::new(60, -15),
        Point::new(90, 0),
        Point::new(80, 15),
        Point::new(101, 10),
        Point::new(130, 20),
        Point::new(115, 5),
        Point::new(140, -10),
        Point::new(120, -5),
    ];
    let points = convex_hull(&star);
    assert_eq!(
        points,
        [
            Point::new(100, -20),
            Point::new(140, -10),
            Point::new(130, 20),
            Point::new(80, 15),
            Point::new(60, -15)
        ]
    );
}

#[test]
fn orientation_follows_the_sign_of_the_turn_value() {
    let p = Point::new(0, 0);
    let q = Point::new(4, 0);
    assert_eq!(orientation(p, q, Point::new(8, 0)), Orientation::Collinear);
    assert_eq!(orientation(p, q, Point::new(4, 3)), Orientation::CounterClockwise);
    assert_eq!(orientation(p, q, Point::new(4, -3)), Orientation::Clockwise);
}
