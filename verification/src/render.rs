//! The two read-only queries a text renderer needs: a point-membership
//! test and the grid of cell membership over the curve's bounding box.

use vstd::prelude::*;

use crate::curve::Curve;
use crate::curve::Point;
use crate::curve::int_points;
use crate::curve::max_x;
use crate::curve::max_y;
use crate::curve::min_x;
use crate::curve::min_y;

verus! {

/// True when (x, y) occurs among the points of the sequence.
pub open spec fn contains_point_spec(s: Seq<(int, int)>, x: int, y: int) -> bool {
    exists|i: int| 0 <= i < s.len() && (#[trigger] s[i]) == (x, y)
}

/// Membership test: whether the given lattice point occurs in the curve.
pub fn contains_point(c: &Vec<Point>, p: Point) -> (b: bool)
    ensures
        b == contains_point_spec(int_points(c@), p.0 as int, p.1 as int),
{
    let n: usize = c.len();
    let mut i: usize = 0;
    while i < n
        invariant
            n == c@.len(),
            i <= n,
            forall|k: int| 0 <= k < i
                ==> (#[trigger] int_points(c@)[k]) != (p.0 as int, p.1 as int),
        decreases n - i,
    {
        let q: Point = c[i];
        if q.0 == p.0 && q.1 == p.1 {
            proof {
                assert(int_points(c@)[i as int] == (p.0 as int, p.1 as int));
            }
            return true;
        }
        proof {
            assert(int_points(c@)[i as int] == (c@[i as int].0 as int, c@[i as int].1 as int));
        }
        i = i + 1;
    }
    false
}

/// The grid of cell membership for a curve lying in the non-negative
/// quadrant: row y, column x of the result tells whether (x, y) is a
/// point of the curve.  The grid spans the bounding box from the origin
/// down to `bottom_right`, both inclusive.
pub fn render_grid(c: &Vec<Point>) -> (g: Vec<Vec<bool>>)
    requires
        c@.len() > 0,
        min_x(int_points(c@)) >= 0,
        min_y(int_points(c@)) >= 0,
        max_x(int_points(c@)) < i32::MAX,
        max_y(int_points(c@)) < i32::MAX,
    ensures
        g@.len() == max_y(int_points(c@)) + 1,
        forall|y: int| 0 <= y < g@.len()
            ==> (#[trigger] g@[y])@.len() == max_x(int_points(c@)) + 1,
        forall|y: int, x: int| 0 <= y < g@.len() && 0 <= x < max_x(int_points(c@)) + 1
            ==> (#[trigger] g@[y]@[x]) == contains_point_spec(int_points(c@), x, y),
{
    let br: Point = c.bottom_right();
    let mut g: Vec<Vec<bool>> = Vec::new();
    let mut y: i32 = 0;
    while y <= br.1
        invariant
            c@.len() > 0,
            br.0 as int == max_x(int_points(c@)),
            br.1 as int == max_y(int_points(c@)),
            br.0 >= 0,
            br.1 >= 0,
            br.1 < i32::MAX,
            br.0 < i32::MAX,
            0 <= y <= br.1 + 1,
            g@.len() == y,
            forall|yy: int| 0 <= yy < y ==> (#[trigger] g@[yy])@.len() == br.0 + 1,
            forall|yy: int, x: int| 0 <= yy < y && 0 <= x < br.0 + 1
                ==> (#[trigger] g@[yy]@[x]) == contains_point_spec(int_points(c@), x, yy),
        decreases br.1 + 1 - y,
    {
        let mut row: Vec<bool> = Vec::new();
        let mut x: i32 = 0;
        while x <= br.0
            invariant
                c@.len() > 0,
                br.0 as int == max_x(int_points(c@)),
                br.0 >= 0,
                br.0 < i32::MAX,
                0 <= x <= br.0 + 1,
                row@.len() == x,
                forall|xx: int| 0 <= xx < x
                    ==> (#[trigger] row@[xx]) == contains_point_spec(int_points(c@), xx, y as int),
            decreases br.0 + 1 - x,
        {
            let cell: bool = contains_point(c, (x, y));
            row.push(cell);
            x = x + 1;
        }
        g.push(row);
        y = y + 1;
    }
    g
}

} // verus!
