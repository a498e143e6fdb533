use dragon_curve::Curve;
use dragon_curve::Point;

#[test]
fn start_and_end() {
    let c: Vec<Point> = vec![(3, -2), (5, 7), (0, 1)];
    assert_eq!(c.start(), (3, -2));
    assert_eq!(c.end(), (0, 1));
}

#[test]
fn bounding_box_corners() {
    let c: Vec<Point> = vec![(3, -2), (-5, 7), (0, 1)];
    assert_eq!(c.top_left(), (-5, -2));
    assert_eq!(c.bottom_right(), (3, 7));
}

#[test]
fn translate_moves_every_point() {
    let mut c: Vec<Point> = vec![(0, 0), (1, 2), (-3, 4)];
    c.translate(10, -20);
    assert_eq!(c, vec![(10, -20), (11, -18), (7, -16)]);
}

#[test]
fn translate_round_trip_recovers_original() {
    let original: Vec<Point> = vec![(0, 0), (1, 2), (-3, 4)];
    let mut c = original.clone();
    c.translate(7, -9);
    c.translate(-7, 9);
    assert_eq!(c, original);
}

#[test]
fn rotate_left_quarter_turn() {
    let mut c: Vec<Point> = vec![(1, 0), (0, 1), (-2, 3)];
    c.rotate_left();
    assert_eq!(c, vec![(0, 1), (-1, 0), (-3, -2)]);
}

#[test]
fn rotate_right_quarter_turn() {
    let mut c: Vec<Point> = vec![(1, 0), (0, 1), (-2, 3)];
    c.rotate_right();
    assert_eq!(c, vec![(0, -1), (1, 0), (3, 2)]);
}

#[test]
fn rotate_round_trips_recover_original() {
    let original: Vec<Point> = vec![(1, 0), (0, 1), (-2, 3)];
    let mut c = original.clone();
    c.rotate_left();
    c.rotate_right();
    assert_eq!(c, original);
    c.rotate_right();
    c.rotate_left();
    assert_eq!(c, original);
}

#[test]
fn move_start_to_sets_start() {
    let mut c: Vec<Point> = vec![(2, 3), (4, 5)];
    c.move_start_to((-1, -1));
    assert_eq!(c.start(), (-1, -1));
    assert_eq!(c, vec![(-1, -1), (1, 1)]);
}

#[test]
fn move_end_to_sets_end() {
    let mut c: Vec<Point> = vec![(2, 3), (4, 5)];
    c.move_end_to((0, 0));
    assert_eq!(c.end(), (0, 0));
    assert_eq!(c, vec![(-2, -2), (0, 0)]);
}

#[test]
fn justify_puts_top_left_on_origin() {
    let mut c: Vec<Point> = vec![(3, -2), (-5, 7), (0, 1)];
    c.justify();
    assert_eq!(c.top_left(), (0, 0));
    assert_eq!(c, vec![(8, 0), (0, 9), (5, 3)]);
}

#[test]
fn justify_is_idempotent() {
    let mut once: Vec<Point> = vec![(3, -2), (-5, 7), (0, 1)];
    once.justify();
    let mut twice = once.clone();
    twice.justify();
    assert_eq!(twice, once);
}

#[test]
fn expand_factor_one_is_identity() {
    let c: Vec<Point> = vec![(0, 0), (0, 1), (-1, 1)];
    let e = c.clone().expand(1);
    assert_eq!(e, c);
}

#[test]
fn expand_factor_two_interpolates_and_scales() {
    let c: Vec<Point> = vec![(0, 0), (0, 1)];
    assert_eq!(c.expand(2), vec![(0, 0), (0, 1), (0, 2)]);
    let d: Vec<Point> = vec![(1, 2), (3, 4)];
    assert_eq!(d.expand(2), vec![(2, 4), (4, 6), (6, 8)]);
}

#[test]
fn expand_factor_three_point_count() {
    let c: Vec<Point> = vec![(0, 0), (1, 0), (1, 1)];
    let e = c.expand(3);
    assert_eq!(e.len(), 1 + 2 * 3);
    assert_eq!(e, vec![(0, 0), (1, 0), (2, 0), (3, 0), (3, 1), (3, 2), (3, 3)]);
}

#[test]
fn join_connects_curves() {
    let a: Vec<Point> = vec![(0, 0), (0, 1)];
    let b: Vec<Point> = vec![(1, 0), (0, 0)];
    let j = a.join(b);
    assert_eq!(j, vec![(0, 0), (0, 1), (-1, 1)]);
}

#[test]
fn join_keeps_start_and_translated_end() {
    let a: Vec<Point> = vec![(5, 5), (6, 5), (6, 6)];
    let b: Vec<Point> = vec![(0, 0), (0, -1), (1, -1)];
    let start = a.start();
    let j = a.join(b);
    assert_eq!(j.start(), start);
    // b is translated by (6, 6) - (0, 0); its end (1, -1) lands on (7, 5).
    assert_eq!(j.end(), (7, 5));
}
