use dragon_curve::Curve;
use dragon_curve::Point;
use dragon_curve::dragon;
use dragon_curve::render::contains_point;
use dragon_curve::render::render_grid;

#[test]
fn dragon_order_zero_is_unit_segment() {
    assert_eq!(dragon(0), vec![(0, 0), (0, 1)]);
}

#[test]
fn dragon_order_one_matches_hand_construction() {
    // Reverse of [(0,0),(0,1)] is [(0,1),(0,0)]; rotate_right gives
    // [(1,0),(0,0)]; joining and justifying gives [(1,0),(1,1),(0,1)].
    assert_eq!(dragon(1), vec![(1, 0), (1, 1), (0, 1)]);
}

#[test]
fn dragon_order_two_exact_points() {
    assert_eq!(dragon(2), vec![(2, 0), (2, 1), (1, 1), (1, 0), (0, 0)]);
}

#[test]
fn dragon_point_counts_follow_recurrence() {
    // L(0) = 2 and L(n) = 2 * L(n-1) - 1, i.e. L(n) = 2^n + 1.
    let mut expected: usize = 2;
    for order in 0..=8usize {
        assert_eq!(dragon(order).len(), expected);
        expected = 2 * expected - 1;
    }
}

#[test]
fn dragon_is_justified() {
    for order in 0..=6usize {
        assert_eq!(dragon(order).top_left(), (0, 0));
    }
}

#[test]
fn contains_point_finds_members_only() {
    let c: Vec<Point> = vec![(0, 0), (0, 1), (-1, 1)];
    assert!(contains_point(&c, (0, 0)));
    assert!(contains_point(&c, (-1, 1)));
    assert!(!contains_point(&c, (1, 1)));
    assert!(!contains_point(&c, (0, 2)));
}

#[test]
fn render_grid_of_unit_segment() {
    // dragon(0) has bottom_right (0, 1): one column, two rows, both on.
    let c = dragon(0);
    assert_eq!(c.bottom_right(), (0, 1));
    let grid = render_grid(&c);
    assert_eq!(grid, vec![vec![true], vec![true]]);
}

#[test]
fn render_grid_marks_exactly_the_points() {
    let grid = render_grid(&dragon(1));
    assert_eq!(grid, vec![vec![false, true], vec![true, true]]);
}

#[test]
fn expanded_dragon_renders_larger_grid() {
    let c = dragon(1).expand(2);
    assert_eq!(c, vec![(2, 0), (2, 1), (2, 2), (1, 2), (0, 2)]);
    let grid = render_grid(&c);
    assert_eq!(grid.len(), 3);
    assert_eq!(grid[0], vec![false, false, true]);
    assert_eq!(grid[1], vec![false, false, true]);
    assert_eq!(grid[2], vec![true, true, true]);
}
