//! The curve algebra: an ordered, non-empty sequence of integer lattice
//! points, with translation, rotation, justification, subdivision and
//! joining, plus the recursive dragon constructor built on top of it.

use vstd::prelude::*;

verus! {

/// A lattice point: a pair of signed coordinates (x, y).
pub type Point = (i32, i32);

/// The mathematical view of a point sequence: each coordinate as an
/// unbounded integer.
pub open spec fn int_points(s: Seq<Point>) -> Seq<(int, int)> {
    s.map(|i: int, p: Point| (p.0 as int, p.1 as int))
}

/// True when the value fits in a signed 32-bit coordinate.
pub open spec fn fits_i32(v: int) -> bool {
    i32::MIN <= v <= i32::MAX
}

/// Every point shifted by the vector (dx, dy).
pub open spec fn translated(s: Seq<(int, int)>, dx: int, dy: int) -> Seq<(int, int)> {
    s.map(|i: int, p: (int, int)| (p.0 + dx, p.1 + dy))
}

/// Every point rotated 90 degrees counter-clockwise about the origin:
/// (x, y) becomes (-y, x).
pub open spec fn rotated_left(s: Seq<(int, int)>) -> Seq<(int, int)> {
    s.map(|i: int, p: (int, int)| (-p.1, p.0))
}

/// Every point rotated 90 degrees clockwise about the origin:
/// (x, y) becomes (y, -x).
pub open spec fn rotated_right(s: Seq<(int, int)>) -> Seq<(int, int)> {
    s.map(|i: int, p: (int, int)| (p.1, -p.0))
}

/// The least x coordinate over all points of the sequence.
pub open spec fn min_x(s: Seq<(int, int)>) -> int
    recommends
        s.len() > 0,
    decreases s.len(),
{
    if s.len() <= 1 {
        s[0].0
    } else {
        let m = min_x(s.drop_last());
        if s.last().0 < m {
            s.last().0
        } else {
            m
        }
    }
}

/// The least y coordinate over all points of the sequence.
pub open spec fn min_y(s: Seq<(int, int)>) -> int
    recommends
        s.len() > 0,
    decreases s.len(),
{
    if s.len() <= 1 {
        s[0].1
    } else {
        let m = min_y(s.drop_last());
        if s.last().1 < m {
            s.last().1
        } else {
            m
        }
    }
}

/// The greatest x coordinate over all points of the sequence.
pub open spec fn max_x(s: Seq<(int, int)>) -> int
    recommends
        s.len() > 0,
    decreases s.len(),
{
    if s.len() <= 1 {
        s[0].0
    } else {
        let m = max_x(s.drop_last());
        if s.last().0 > m {
            s.last().0
        } else {
            m
        }
    }
}

/// The greatest y coordinate over all points of the sequence.
pub open spec fn max_y(s: Seq<(int, int)>) -> int
    recommends
        s.len() > 0,
    decreases s.len(),
{
    if s.len() <= 1 {
        s[0].1
    } else {
        let m = max_y(s.drop_last());
        if s.last().1 > m {
            s.last().1
        } else {
            m
        }
    }
}

/// The `factor` interpolation points that subdivide the segment from `p1`
/// to `p2`: for i = 1..=factor, the weighted integer average
/// ((factor-i)*p1 + i*p2), not divided by `factor`.
pub open spec fn seg_expanded(p1: (int, int), p2: (int, int), f: int) -> Seq<(int, int)>
    recommends
        f >= 1,
{
    Seq::new(
        f as nat,
        |i: int| (
            (f - (i + 1)) * p1.0 + (i + 1) * p2.0,
            (f - (i + 1)) * p1.1 + (i + 1) * p2.1,
        ),
    )
}

/// The exact integer subdivision of a sequence: the first point scaled by
/// `f` as the seed, then for every consecutive pair the `f` interpolation
/// points.  Coordinates scale by `f`; shape is preserved.
pub open spec fn expanded(s: Seq<(int, int)>, f: int) -> Seq<(int, int)>
    recommends
        s.len() > 0,
        f >= 1,
    decreases s.len(),
{
    if s.len() <= 1 {
        seq![(s[0].0 * f, s[0].1 * f)]
    } else {
        expanded(s.drop_last(), f) + seg_expanded(s[s.len() - 2], s.last(), f)
    }
}

/// Appending a point and taking the integer view commute.
proof fn lemma_int_points_push(s: Seq<Point>, p: Point)
    ensures
        int_points(s.push(p)) == int_points(s).push((p.0 as int, p.1 as int)),
{
    assert(int_points(s.push(p)) =~= int_points(s).push((p.0 as int, p.1 as int)));
}

/// A weighted average of two coordinates within [lo, hi], and both of its
/// summands, stay within 32-bit range whenever the scaled corners do.
proof fn lemma_interp_fits(x1: int, x2: int, lo: int, hi: int, i: int, f: int)
    by (nonlinear_arith)
    requires
        lo <= x1 <= hi,
        lo <= x2 <= hi,
        0 <= i <= f,
        1 <= f,
        i32::MIN <= f * lo <= i32::MAX,
        i32::MIN <= f * hi <= i32::MAX,
    ensures
        i32::MIN <= (f - i) * x1 <= i32::MAX,
        i32::MIN <= i * x2 <= i32::MAX,
        i32::MIN <= (f - i) * x1 + i * x2 <= i32::MAX,
{
}

/// The subdivision of a non-empty sequence has 1 + (len - 1) * f points.
pub proof fn lemma_expanded_len(s: Seq<(int, int)>, f: int)
    requires
        s.len() > 0,
        f >= 1,
    ensures
        expanded(s, f).len() == 1 + (s.len() - 1) * f,
    decreases s.len(),
{
    if s.len() > 1 {
        lemma_expanded_len(s.drop_last(), f);
        assert((s.len() - 2) * f + f == (s.len() - 1) * f) by (nonlinear_arith);
    } else {
        assert((s.len() - 1) * f == 0) by (nonlinear_arith)
            requires
                s.len() == 1,
        ;
    }
}

/// Law: subdividing with factor 1 returns the original sequence, point
/// for point (the interpolation formula reduces to the identity).
pub proof fn lemma_expand_one(s: Seq<(int, int)>)
    requires
        s.len() > 0,
    ensures
        expanded(s, 1) == s,
    decreases s.len(),
{
    if s.len() <= 1 {
        assert(expanded(s, 1) =~= s);
    } else {
        lemma_expand_one(s.drop_last());
        let p1 = s[s.len() - 2];
        let p2 = s.last();
        assert(seg_expanded(p1, p2, 1)[0] == ((1 - (0 + 1)) * p1.0 + (0 + 1) * p2.0,
            (1 - (0 + 1)) * p1.1 + (0 + 1) * p2.1));
        assert(p2 == (p2.0, p2.1));
        assert((1 - (0 + 1)) * p1.0 + (0 + 1) * p2.0 == p2.0) by (nonlinear_arith);
        assert((1 - (0 + 1)) * p1.1 + (0 + 1) * p2.1 == p2.1) by (nonlinear_arith);
        assert(seg_expanded(p1, p2, 1)[0] == p2);
        assert(seg_expanded(p1, p2, 1) =~= seq![p2]);
        assert(expanded(s, 1) =~= s);
    }
}

/// The geometric concatenation of two non-empty sequences: the last point
/// of `a` is removed, and `b` is translated so its start point coincides
/// with that removed point, then appended.
pub open spec fn joined(a: Seq<(int, int)>, b: Seq<(int, int)>) -> Seq<(int, int)>
    recommends
        a.len() > 0,
        b.len() > 0,
{
    a.drop_last() + translated(b, a.last().0 - b[0].0, a.last().1 - b[0].1)
}

/// The sequence shifted so that the bounding box's top-left corner,
/// (min_x, min_y), lands on the origin.
pub open spec fn justified(s: Seq<(int, int)>) -> Seq<(int, int)> {
    translated(s, -min_x(s), -min_y(s))
}

/// Every coordinate of a non-empty sequence lies between the bounding
/// box corners.
pub proof fn lemma_bounds(s: Seq<(int, int)>)
    requires
        s.len() > 0,
    ensures
        forall|k: int| 0 <= k < s.len()
            ==> min_x(s) <= (#[trigger] s[k]).0 && s[k].0 <= max_x(s)
                && min_y(s) <= s[k].1 && s[k].1 <= max_y(s),
    decreases s.len(),
{
    if s.len() > 1 {
        let d = s.drop_last();
        lemma_bounds(d);
        assert(forall|k: int| 0 <= k < d.len() ==> #[trigger] s[k] == d[k]);
        assert(s[s.len() - 1] == s.last());
    }
}

/// Translating a sequence shifts its bounding box by the same vector.
pub proof fn lemma_translated_bounds(s: Seq<(int, int)>, dx: int, dy: int)
    requires
        s.len() > 0,
    ensures
        min_x(translated(s, dx, dy)) == min_x(s) + dx,
        max_x(translated(s, dx, dy)) == max_x(s) + dx,
        min_y(translated(s, dx, dy)) == min_y(s) + dy,
        max_y(translated(s, dx, dy)) == max_y(s) + dy,
    decreases s.len(),
{
    let t = translated(s, dx, dy);
    if s.len() == 1 {
        assert(t[0] == (s[0].0 + dx, s[0].1 + dy));
    } else {
        lemma_translated_bounds(s.drop_last(), dx, dy);
        assert(t.drop_last() =~= translated(s.drop_last(), dx, dy));
        assert(t.last() == (s.last().0 + dx, s.last().1 + dy));
    }
}

/// Extending a prefix by one point updates each bounding-box corner by
/// comparison with the new point.
proof fn lemma_corner_step(t: Seq<(int, int)>, i: int)
    requires
        1 <= i < t.len(),
    ensures
        min_x(t.take(i + 1)) == (if t[i].0 < min_x(t.take(i)) {
            t[i].0
        } else {
            min_x(t.take(i))
        }),
        min_y(t.take(i + 1)) == (if t[i].1 < min_y(t.take(i)) {
            t[i].1
        } else {
            min_y(t.take(i))
        }),
        max_x(t.take(i + 1)) == (if t[i].0 > max_x(t.take(i)) {
            t[i].0
        } else {
            max_x(t.take(i))
        }),
        max_y(t.take(i + 1)) == (if t[i].1 > max_y(t.take(i)) {
            t[i].1
        } else {
            max_y(t.take(i))
        }),
{
    assert(t.take(i + 1).drop_last() =~= t.take(i));
    assert(t.take(i + 1).last() == t[i]);
}

/// Law: translating by (dx, dy) and then by (-dx, -dy) recovers the
/// original point sequence exactly.
pub proof fn lemma_translate_round_trip(s: Seq<(int, int)>, dx: int, dy: int)
    ensures
        translated(translated(s, dx, dy), -dx, -dy) == s,
{
    assert(translated(translated(s, dx, dy), -dx, -dy) =~= s);
}

/// Law: rotating left then right, or right then left, recovers the
/// original point sequence exactly.
pub proof fn lemma_rotate_round_trip(s: Seq<(int, int)>)
    ensures
        rotated_right(rotated_left(s)) == s,
        rotated_left(rotated_right(s)) == s,
{
    assert(rotated_right(rotated_left(s)) =~= s);
    assert(rotated_left(rotated_right(s)) =~= s);
}

/// Law: justifying a non-empty sequence is idempotent.
pub proof fn lemma_justify_idempotent(s: Seq<(int, int)>)
    requires
        s.len() > 0,
    ensures
        justified(justified(s)) == justified(s),
{
    lemma_translated_bounds(s, -min_x(s), -min_y(s));
    assert(justified(justified(s)) =~= justified(s));
}

/// True when `q` lies exactly one lattice step from `p`, horizontally or
/// vertically.
pub open spec fn is_unit_step(p: (int, int), q: (int, int)) -> bool {
    let dx = q.0 - p.0;
    let dy = q.1 - p.1;
    (dx == 0 && (dy == 1 || dy == -1)) || (dy == 0 && (dx == 1 || dx == -1))
}

/// True when every pair of adjacent points is one lattice step apart, so
/// the sequence draws a connected path of unit segments.
pub open spec fn unit_steps(s: Seq<(int, int)>) -> bool {
    forall|i: int| 0 <= i && i + 1 < s.len() ==> is_unit_step(#[trigger] s[i], s[i + 1])
}

/// Two to the power `n`.
pub open spec fn pow2(n: nat) -> nat
    decreases n,
{
    if n == 0 {
        1
    } else {
        2 * pow2((n - 1) as nat)
    }
}

/// `pow2` is monotone.
pub proof fn lemma_pow2_le(a: nat, b: nat)
    requires
        a <= b,
    ensures
        pow2(a) <= pow2(b),
    decreases b,
{
    if a < b {
        lemma_pow2_le(a, (b - 1) as nat);
    }
}

/// The concrete values of `pow2` needed to place dragon curves of any
/// allowed order inside the 32-bit coordinate range.
pub proof fn lemma_pow2_values()
    ensures
        pow2(29) == 0x2000_0000,
        pow2(30) == 0x4000_0000,
{
    assert(pow2(29) == 0x2000_0000) by {
        reveal_with_fuel(pow2, 30);
    }
    assert(pow2(30) == 2 * pow2(29));
}

/// The dragon curve of the given order: the base order is the unit
/// segment from (0, 0) to (0, 1); each further order joins the previous
/// curve with its reversed, clockwise-rotated copy and justifies the
/// result onto the origin.
pub open spec fn dragon_spec(n: nat) -> Seq<(int, int)>
    decreases n,
{
    if n == 0 {
        seq![(0, 0), (0, 1)]
    } else {
        let d = dragon_spec((n - 1) as nat);
        justified(joined(d, rotated_right(d.reverse())))
    }
}

/// Each bounding-box corner coordinate is attained by some point of the
/// sequence.
pub proof fn lemma_corners_attained(s: Seq<(int, int)>)
    requires
        s.len() > 0,
    ensures
        exists|i: int| 0 <= i < s.len() && min_x(s) == (#[trigger] s[i]).0,
        exists|i: int| 0 <= i < s.len() && max_x(s) == (#[trigger] s[i]).0,
        exists|i: int| 0 <= i < s.len() && min_y(s) == (#[trigger] s[i]).1,
        exists|i: int| 0 <= i < s.len() && max_y(s) == (#[trigger] s[i]).1,
    decreases s.len(),
{
    if s.len() == 1 {
        assert(min_x(s) == s[0].0 && max_x(s) == s[0].0);
        assert(min_y(s) == s[0].1 && max_y(s) == s[0].1);
    } else {
        let d = s.drop_last();
        lemma_corners_attained(d);
        assert(forall|k: int| 0 <= k < d.len() ==> #[trigger] s[k] == d[k]);
        assert(s[s.len() - 1] == s.last());
        let wnx = choose|i: int| 0 <= i < d.len() && min_x(d) == (#[trigger] d[i]).0;
        let wxx = choose|i: int| 0 <= i < d.len() && max_x(d) == (#[trigger] d[i]).0;
        let wny = choose|i: int| 0 <= i < d.len() && min_y(d) == (#[trigger] d[i]).1;
        let wxy = choose|i: int| 0 <= i < d.len() && max_y(d) == (#[trigger] d[i]).1;
        assert(s[wnx].0 == min_x(d) && s[wxx].0 == max_x(d));
        assert(s[wny].1 == min_y(d) && s[wxy].1 == max_y(d));
    }
}

/// Unit steps survive translation.
proof fn lemma_unit_steps_translated(s: Seq<(int, int)>, dx: int, dy: int)
    requires
        unit_steps(s),
    ensures
        unit_steps(translated(s, dx, dy)),
{
    let t = translated(s, dx, dy);
    assert forall|i: int| 0 <= i && i + 1 < t.len() implies is_unit_step(
        #[trigger] t[i],
        t[i + 1],
    ) by {
        assert(t[i] == (s[i].0 + dx, s[i].1 + dy));
        assert(t[i + 1] == (s[i + 1].0 + dx, s[i + 1].1 + dy));
        assert(is_unit_step(s[i], s[i + 1]));
    }
}

/// Unit steps survive clockwise rotation.
proof fn lemma_unit_steps_rotated_right(s: Seq<(int, int)>)
    requires
        unit_steps(s),
    ensures
        unit_steps(rotated_right(s)),
{
    let t = rotated_right(s);
    assert forall|i: int| 0 <= i && i + 1 < t.len() implies is_unit_step(
        #[trigger] t[i],
        t[i + 1],
    ) by {
        assert(t[i] == (s[i].1, -s[i].0));
        assert(t[i + 1] == (s[i + 1].1, -s[i + 1].0));
        assert(is_unit_step(s[i], s[i + 1]));
    }
}

/// Unit steps survive reversal.
proof fn lemma_unit_steps_reverse(s: Seq<(int, int)>)
    requires
        unit_steps(s),
    ensures
        unit_steps(s.reverse()),
{
    let t = s.reverse();
    assert forall|i: int| 0 <= i && i + 1 < t.len() implies is_unit_step(
        #[trigger] t[i],
        t[i + 1],
    ) by {
        assert(t[i] == s[s.len() - 1 - i]);
        assert(t[i + 1] == s[s.len() - 2 - i]);
        assert(is_unit_step(s[s.len() - 2 - i], s[s.len() - 1 - i]));
    }
}

/// Unit steps survive joining: the junction step equals the last step of
/// the left part, and both parts keep their own steps.
proof fn lemma_unit_steps_joined(a: Seq<(int, int)>, b: Seq<(int, int)>)
    requires
        a.len() > 0,
        b.len() > 0,
        unit_steps(a),
        unit_steps(b),
    ensures
        unit_steps(joined(a, b)),
{
    let j = joined(a, b);
    let dx = a.last().0 - b[0].0;
    let dy = a.last().1 - b[0].1;
    let tb = translated(b, dx, dy);
    let m = a.len() - 1;
    assert forall|i: int| 0 <= i && i + 1 < j.len() implies is_unit_step(
        #[trigger] j[i],
        j[i + 1],
    ) by {
        if i + 1 < m {
            assert(j[i] == a[i]);
            assert(j[i + 1] == a[i + 1]);
            assert(is_unit_step(a[i], a[i + 1]));
        } else if i + 1 == m {
            assert(j[i] == a[i]);
            assert(j[i + 1] == tb[0]);
            assert(tb[0] == (b[0].0 + dx, b[0].1 + dy));
            assert(a.last() == (a.last().0, a.last().1));
            assert(tb[0] == a[m]);
            assert(is_unit_step(a[i], a[m]));
        } else {
            assert(j[i] == tb[i - m]);
            assert(j[i + 1] == tb[i - m + 1]);
            assert(tb[i - m] == (b[i - m].0 + dx, b[i - m].1 + dy));
            assert(tb[i - m + 1] == (b[i - m + 1].0 + dx, b[i - m + 1].1 + dy));
            assert(is_unit_step(b[i - m], b[i - m + 1]));
        }
    }
}

/// A connected path of unit segments spans at most its point count minus
/// one in each direction.
proof fn lemma_unit_steps_spread(s: Seq<(int, int)>)
    requires
        s.len() > 0,
        unit_steps(s),
    ensures
        max_x(s) - min_x(s) <= s.len() - 1,
        max_y(s) - min_y(s) <= s.len() - 1,
    decreases s.len(),
{
    if s.len() > 1 {
        let d = s.drop_last();
        assert(forall|k: int| 0 <= k < d.len() ==> #[trigger] d[k] == s[k]);
        assert forall|i: int| 0 <= i && i + 1 < d.len() implies is_unit_step(
            #[trigger] d[i],
            d[i + 1],
        ) by {
            assert(is_unit_step(s[i], s[i + 1]));
        }
        lemma_unit_steps_spread(d);
        lemma_bounds(d);
        assert(is_unit_step(s[s.len() - 2], s[s.len() - 1]));
        assert(d[d.len() - 1] == s[s.len() - 2]);
        assert(min_x(d) <= d[d.len() - 1].0 <= max_x(d));
        assert(min_y(d) <= d[d.len() - 1].1 <= max_y(d));
        assert(s[s.len() - 1] == s.last());
    }
}

/// Law: the dragon curve of order n is a justified path of unit steps
/// with exactly pow2(n) + 1 points (so its length obeys L(0) = 2 and
/// L(n) = 2 * L(n-1) - 1), and all its coordinates lie in [0, pow2(n)].
pub proof fn lemma_dragon_props(n: nat)
    ensures
        dragon_spec(n).len() == pow2(n) + 1,
        unit_steps(dragon_spec(n)),
        min_x(dragon_spec(n)) == 0,
        min_y(dragon_spec(n)) == 0,
        max_x(dragon_spec(n)) <= pow2(n),
        max_y(dragon_spec(n)) <= pow2(n),
    decreases n,
{
    let s = dragon_spec(n);
    if n == 0 {
        let s0 = s.drop_last();
        assert(s0.len() == 1);
        assert(s0[0] == (0int, 0int));
        assert(min_x(s0) == 0 && min_y(s0) == 0 && max_x(s0) == 0 && max_y(s0) == 0);
        assert(s.last() == (0int, 1int));
        assert(min_x(s) == 0 && min_y(s) == 0 && max_x(s) == 0 && max_y(s) == 1);
        assert forall|i: int| 0 <= i && i + 1 < s.len() implies is_unit_step(
            #[trigger] s[i],
            s[i + 1],
        ) by {
            assert(s[0] == (0int, 0int));
            assert(s[1] == (0int, 1int));
        }
    } else {
        let d = dragon_spec((n - 1) as nat);
        lemma_dragon_props((n - 1) as nat);
        let r = d.reverse();
        let rr = rotated_right(r);
        let j = joined(d, rr);
        assert(s == justified(j));
        assert(j.len() == 2 * d.len() - 1);
        assert(pow2(n) == 2 * pow2((n - 1) as nat));
        lemma_unit_steps_reverse(d);
        lemma_unit_steps_rotated_right(r);
        lemma_unit_steps_joined(d, rr);
        lemma_unit_steps_translated(j, -min_x(j), -min_y(j));
        lemma_translated_bounds(j, -min_x(j), -min_y(j));
        lemma_unit_steps_spread(j);
    }
}

/// An ordered sequence of lattice points with a geometric algebra attached.
///
/// Adjacency in the sequence denotes a connecting straight segment, so the
/// order is semantically significant.  Operations that read the first or
/// last point, or the bounding box, demand a non-empty sequence.
pub trait Curve: Sized {
    /// The point sequence this curve stands for, coordinates as integers.
    spec fn pts(&self) -> Seq<(int, int)>;

    /// The first point of the sequence.
    fn start(&self) -> (p: Point)
        requires
            self.pts().len() > 0,
        ensures
            p.0 as int == self.pts()[0].0,
            p.1 as int == self.pts()[0].1,
    ;

    /// The last point of the sequence.
    fn end(&self) -> (p: Point)
        requires
            self.pts().len() > 0,
        ensures
            p.0 as int == self.pts().last().0,
            p.1 as int == self.pts().last().1,
    ;

    /// The componentwise minimum of all coordinates: the top-left corner
    /// of the axis-aligned bounding box (not necessarily a point of the
    /// sequence).
    fn top_left(&self) -> (p: Point)
        requires
            self.pts().len() > 0,
        ensures
            p.0 as int == min_x(self.pts()),
            p.1 as int == min_y(self.pts()),
    ;

    /// The componentwise maximum of all coordinates: the bottom-right
    /// corner of the axis-aligned bounding box.
    fn bottom_right(&self) -> (p: Point)
        requires
            self.pts().len() > 0,
        ensures
            p.0 as int == max_x(self.pts()),
            p.1 as int == max_y(self.pts()),
    ;

    /// Adds (dx, dy) to every point, in place, order preserved.
    fn translate(&mut self, dx: i32, dy: i32)
        requires
            forall|k: int| 0 <= k < old(self).pts().len()
                ==> fits_i32((#[trigger] old(self).pts()[k]).0 + dx)
                    && fits_i32(old(self).pts()[k].1 + dy),
        ensures
            final(self).pts() == translated(old(self).pts(), dx as int, dy as int),
    ;

    /// Rotates every point 90 degrees counter-clockwise about the origin,
    /// in place: (x, y) becomes (-y, x).
    fn rotate_left(&mut self)
        requires
            forall|k: int| 0 <= k < old(self).pts().len()
                ==> (#[trigger] old(self).pts()[k]).1 != i32::MIN,
        ensures
            final(self).pts() == rotated_left(old(self).pts()),
    ;

    /// Rotates every point 90 degrees clockwise about the origin,
    /// in place: (x, y) becomes (y, -x).
    fn rotate_right(&mut self)
        requires
            forall|k: int| 0 <= k < old(self).pts().len()
                ==> (#[trigger] old(self).pts()[k]).0 != i32::MIN,
        ensures
            final(self).pts() == rotated_right(old(self).pts()),
    ;

    /// Translates the whole sequence so that afterward `start()` is
    /// `new_start`.
    fn move_start_to(&mut self, new_start: Point)
        requires
            old(self).pts().len() > 0,
            fits_i32(new_start.0 - old(self).pts()[0].0),
            fits_i32(new_start.1 - old(self).pts()[0].1),
            forall|k: int| 0 <= k < old(self).pts().len()
                ==> fits_i32(
                    (#[trigger] old(self).pts()[k]).0 + (new_start.0 - old(self).pts()[0].0),
                )
                    && fits_i32(old(self).pts()[k].1 + (new_start.1 - old(self).pts()[0].1)),
        ensures
            final(self).pts() == translated(
                old(self).pts(),
                new_start.0 - old(self).pts()[0].0,
                new_start.1 - old(self).pts()[0].1,
            ),
            final(self).pts()[0] == (new_start.0 as int, new_start.1 as int),
    ;

    /// Translates the whole sequence so that afterward `end()` is `new_end`.
    fn move_end_to(&mut self, new_end: Point)
        requires
            old(self).pts().len() > 0,
            fits_i32(new_end.0 - old(self).pts().last().0),
            fits_i32(new_end.1 - old(self).pts().last().1),
            forall|k: int| 0 <= k < old(self).pts().len()
                ==> fits_i32(
                    (#[trigger] old(self).pts()[k]).0 + (new_end.0 - old(self).pts().last().0),
                )
                    && fits_i32(old(self).pts()[k].1 + (new_end.1 - old(self).pts().last().1)),
        ensures
            final(self).pts() == translated(
                old(self).pts(),
                new_end.0 - old(self).pts().last().0,
                new_end.1 - old(self).pts().last().1,
            ),
            final(self).pts().last() == (new_end.0 as int, new_end.1 as int),
    ;

    /// Translates the sequence so that its bounding box's top-left corner
    /// becomes (0, 0); afterward both minima are zero.
    fn justify(&mut self)
        requires
            old(self).pts().len() > 0,
            min_x(old(self).pts()) > i32::MIN,
            min_y(old(self).pts()) > i32::MIN,
            max_x(old(self).pts()) - min_x(old(self).pts()) <= i32::MAX,
            max_y(old(self).pts()) - min_y(old(self).pts()) <= i32::MAX,
        ensures
            final(self).pts() == justified(old(self).pts()),
            min_x(final(self).pts()) == 0,
            min_y(final(self).pts()) == 0,
    ;

    /// Returns a new sequence that subdivides every consecutive pair of
    /// points into `factor` collinear sub-segments by exact integer
    /// interpolation, seeded with the first point scaled by `factor`.
    /// Coordinates scale by `factor`; the shape is preserved.
    fn expand(self, factor: i32) -> (r: Self)
        requires
            self.pts().len() > 0,
            factor >= 1,
            fits_i32(factor * min_x(self.pts())),
            fits_i32(factor * max_x(self.pts())),
            fits_i32(factor * min_y(self.pts())),
            fits_i32(factor * max_y(self.pts())),
        ensures
            r.pts() == expanded(self.pts(), factor as int),
            r.pts().len() == 1 + (self.pts().len() - 1) * factor,
    ;

    /// Consumes both sequences and returns their geometric concatenation:
    /// the result starts where `self` started and ends where `other`,
    /// translated onto `self`'s removed end point, ends.
    fn join(self, other: Self) -> (r: Self)
        requires
            self.pts().len() > 0,
            other.pts().len() > 0,
            fits_i32(self.pts().last().0 - other.pts()[0].0),
            fits_i32(self.pts().last().1 - other.pts()[0].1),
            forall|k: int| 0 <= k < other.pts().len()
                ==> fits_i32(
                    (#[trigger] other.pts()[k]).0 + (self.pts().last().0 - other.pts()[0].0),
                )
                    && fits_i32(other.pts()[k].1 + (self.pts().last().1 - other.pts()[0].1)),
        ensures
            r.pts() == joined(self.pts(), other.pts()),
            r.pts().len() == self.pts().len() + other.pts().len() - 1,
            r.pts()[0] == self.pts()[0],
            r.pts().last() == (
                other.pts().last().0 + (self.pts().last().0 - other.pts()[0].0),
                other.pts().last().1 + (self.pts().last().1 - other.pts()[0].1),
            ),
    ;
}

impl Curve for Vec<Point> {
    open spec fn pts(&self) -> Seq<(int, int)> {
        int_points(self@)
    }

    fn start(&self) -> (p: Point) {
        self[0]
    }

    fn end(&self) -> (p: Point) {
        self[self.len() - 1]
    }

    fn top_left(&self) -> (p: Point) {
        let ghost t = int_points(self@);
        let n: usize = self.len();
        let first: Point = self[0];
        let mut mx: i32 = first.0;
        let mut my: i32 = first.1;
        let mut i: usize = 1;
        proof {
            assert(t.take(1)[0] == t[0]);
            assert(t[0] == (self@[0].0 as int, self@[0].1 as int));
        }
        while i < n
            invariant
                n == self@.len(),
                t == int_points(self@),
                1 <= i <= n,
                mx as int == min_x(t.take(i as int)),
                my as int == min_y(t.take(i as int)),
            decreases n - i,
        {
            let p: Point = self[i];
            proof {
                lemma_corner_step(t, i as int);
                assert(t[i as int] == (self@[i as int].0 as int, self@[i as int].1 as int));
            }
            if p.0 < mx {
                mx = p.0;
            }
            if p.1 < my {
                my = p.1;
            }
            i = i + 1;
        }
        proof {
            assert(t.take(n as int) =~= t);
        }
        (mx, my)
    }

    fn bottom_right(&self) -> (p: Point) {
        let ghost t = int_points(self@);
        let n: usize = self.len();
        let first: Point = self[0];
        let mut mx: i32 = first.0;
        let mut my: i32 = first.1;
        let mut i: usize = 1;
        proof {
            assert(t.take(1)[0] == t[0]);
            assert(t[0] == (self@[0].0 as int, self@[0].1 as int));
        }
        while i < n
            invariant
                n == self@.len(),
                t == int_points(self@),
                1 <= i <= n,
                mx as int == max_x(t.take(i as int)),
                my as int == max_y(t.take(i as int)),
            decreases n - i,
        {
            let p: Point = self[i];
            proof {
                lemma_corner_step(t, i as int);
                assert(t[i as int] == (self@[i as int].0 as int, self@[i as int].1 as int));
            }
            if p.0 > mx {
                mx = p.0;
            }
            if p.1 > my {
                my = p.1;
            }
            i = i + 1;
        }
        proof {
            assert(t.take(n as int) =~= t);
        }
        (mx, my)
    }

    fn translate(&mut self, dx: i32, dy: i32) {
        let n: usize = self.len();
        proof {
            assert forall|k: int| 0 <= k < n implies
                fits_i32((#[trigger] old(self)@[k]).0 + dx)
                && fits_i32(old(self)@[k].1 + dy) by {
                assert(old(self).pts()[k] == (old(self)@[k].0 as int, old(self)@[k].1 as int));
            }
        }
        let mut i: usize = 0;
        while i < n
            invariant
                n == self@.len(),
                old(self)@.len() == n,
                i <= n,
                forall|k: int| 0 <= k < n
                    ==> fits_i32((#[trigger] old(self)@[k]).0 + dx)
                        && fits_i32(old(self)@[k].1 + dy),
                forall|k: int| 0 <= k < i
                    ==> #[trigger] self@[k].0 == old(self)@[k].0 + dx
                        && self@[k].1 == old(self)@[k].1 + dy,
                forall|k: int| i <= k < n ==> #[trigger] self@[k] == old(self)@[k],
            decreases n - i,
        {
            let p: Point = self[i];
            self[i] = (p.0 + dx, p.1 + dy);
            i = i + 1;
        }
        proof {
            assert(int_points(self@) =~= translated(
                int_points(old(self)@),
                dx as int,
                dy as int,
            ));
        }
    }

    fn rotate_left(&mut self) {
        let n: usize = self.len();
        proof {
            assert forall|k: int| 0 <= k < n implies
                (#[trigger] old(self)@[k]).1 != i32::MIN by {
                assert(old(self).pts()[k] == (old(self)@[k].0 as int, old(self)@[k].1 as int));
            }
        }
        let mut i: usize = 0;
        while i < n
            invariant
                n == self@.len(),
                old(self)@.len() == n,
                i <= n,
                forall|k: int| 0 <= k < n ==> (#[trigger] old(self)@[k]).1 != i32::MIN,
                forall|k: int| 0 <= k < i
                    ==> (#[trigger] self@[k]).0 == -old(self)@[k].1
                        && self@[k].1 == old(self)@[k].0,
                forall|k: int| i <= k < n ==> #[trigger] self@[k] == old(self)@[k],
            decreases n - i,
        {
            let p: Point = self[i];
            self[i] = (-p.1, p.0);
            i = i + 1;
        }
        proof {
            assert(int_points(self@) =~= rotated_left(int_points(old(self)@)));
        }
    }

    fn rotate_right(&mut self) {
        let n: usize = self.len();
        proof {
            assert forall|k: int| 0 <= k < n implies
                (#[trigger] old(self)@[k]).0 != i32::MIN by {
                assert(old(self).pts()[k] == (old(self)@[k].0 as int, old(self)@[k].1 as int));
            }
        }
        let mut i: usize = 0;
        while i < n
            invariant
                n == self@.len(),
                old(self)@.len() == n,
                i <= n,
                forall|k: int| 0 <= k < n ==> (#[trigger] old(self)@[k]).0 != i32::MIN,
                forall|k: int| 0 <= k < i
                    ==> (#[trigger] self@[k]).0 == old(self)@[k].1
                        && self@[k].1 == -old(self)@[k].0,
                forall|k: int| i <= k < n ==> #[trigger] self@[k] == old(self)@[k],
            decreases n - i,
        {
            let p: Point = self[i];
            self[i] = (p.1, -p.0);
            i = i + 1;
        }
        proof {
            assert(int_points(self@) =~= rotated_right(int_points(old(self)@)));
        }
    }

    fn move_start_to(&mut self, new_start: Point) {
        let s: Point = self.start();
        let dx: i32 = new_start.0 - s.0;
        let dy: i32 = new_start.1 - s.1;
        self.translate(dx, dy);
        proof {
            assert(self.pts()[0] == (
                old(self).pts()[0].0 + dx,
                old(self).pts()[0].1 + dy,
            ));
        }
    }

    fn move_end_to(&mut self, new_end: Point) {
        let e: Point = self.end();
        let dx: i32 = new_end.0 - e.0;
        let dy: i32 = new_end.1 - e.1;
        self.translate(dx, dy);
        proof {
            let last: int = old(self).pts().len() - 1;
            assert(self.pts()[last] == (
                old(self).pts()[last].0 + dx,
                old(self).pts()[last].1 + dy,
            ));
        }
    }

    fn justify(&mut self) {
        proof {
            lemma_bounds(old(self).pts());
        }
        let tl: Point = self.top_left();
        self.translate(-tl.0, -tl.1);
        proof {
            lemma_translated_bounds(
                old(self).pts(),
                -min_x(old(self).pts()),
                -min_y(old(self).pts()),
            );
        }
    }

    fn expand(self, factor: i32) -> (r: Self) {
        let ghost t = self.pts();
        let ghost f = factor as int;
        proof {
            lemma_bounds(t);
            lemma_expanded_len(t, f);
            assert(t[0] == (self@[0].0 as int, self@[0].1 as int));
            lemma_interp_fits(t[0].0, t[0].0, min_x(t), max_x(t), 0, f);
            lemma_interp_fits(t[0].1, t[0].1, min_y(t), max_y(t), 0, f);
        }
        let n: usize = self.len();
        let first: Point = self[0];
        proof {
            assert(i32::MIN <= f * t[0].0 <= i32::MAX);
            assert(i32::MIN <= f * t[0].1 <= i32::MAX);
            assert(i32::MIN <= (first.0 as int) * (factor as int) <= i32::MAX);
            assert(i32::MIN <= (first.1 as int) * (factor as int) <= i32::MAX);
        }
        let mut out: Vec<Point> = Vec::new();
        out.push((first.0 * factor, first.1 * factor));
        proof {
            assert(int_points(out@) =~= expanded(t.take(1), f));
        }
        let mut k: usize = 0;
        while k < n - 1
            invariant
                self@.len() == n,
                n >= 1,
                t == int_points(self@),
                f == factor as int,
                factor >= 1,
                k <= n - 1,
                fits_i32(f * min_x(t)),
                fits_i32(f * max_x(t)),
                fits_i32(f * min_y(t)),
                fits_i32(f * max_y(t)),
                int_points(out@) == expanded(t.take(k + 1), f),
            decreases n - 1 - k,
        {
            let p1: Point = self[k];
            let p2: Point = self[k + 1];
            proof {
                lemma_bounds(t);
                assert(t[k as int] == (self@[k as int].0 as int, self@[k as int].1 as int));
                assert(t[k + 1] == (self@[k + 1].0 as int, self@[k + 1].1 as int));
            }
            let mut i: i32 = 1;
            while i < factor
                invariant
                    self@.len() == n,
                    t == int_points(self@),
                    f == factor as int,
                    factor >= 1,
                    k < n - 1,
                    n >= 1,
                    p1.0 as int == t[k as int].0,
                    p1.1 as int == t[k as int].1,
                    p2.0 as int == t[k + 1].0,
                    p2.1 as int == t[k + 1].1,
                    min_x(t) <= t[k as int].0 <= max_x(t),
                    min_y(t) <= t[k as int].1 <= max_y(t),
                    min_x(t) <= t[k + 1].0 <= max_x(t),
                    min_y(t) <= t[k + 1].1 <= max_y(t),
                    fits_i32(f * min_x(t)),
                    fits_i32(f * max_x(t)),
                    fits_i32(f * min_y(t)),
                    fits_i32(f * max_y(t)),
                    1 <= i <= factor,
                    int_points(out@) == expanded(t.take(k + 1), f) + seg_expanded(
                        t[k as int],
                        t[k + 1],
                        f,
                    ).take(i - 1),
                decreases factor - i,
            {
                proof {
                    lemma_interp_fits(t[k as int].0, t[k + 1].0, min_x(t), max_x(t), i as int, f);
                    lemma_interp_fits(t[k as int].1, t[k + 1].1, min_y(t), max_y(t), i as int, f);
                }
                let j: i32 = factor - i;
                proof {
                    assert(i32::MIN <= (j as int) * (p1.0 as int) <= i32::MAX
                        && i32::MIN <= (i as int) * (p2.0 as int) <= i32::MAX
                        && i32::MIN <= (j as int) * (p1.0 as int) + (i as int) * (p2.0 as int)
                            <= i32::MAX) by (nonlinear_arith)
                        requires
                            j as int == f - i,
                            p1.0 as int == t[k as int].0,
                            p2.0 as int == t[k + 1].0,
                            i32::MIN <= (f - i as int) * t[k as int].0 <= i32::MAX,
                            i32::MIN <= (i as int) * t[k + 1].0 <= i32::MAX,
                            i32::MIN <= (f - i as int) * t[k as int].0 + (i as int) * t[k + 1].0
                                <= i32::MAX,
                    ;
                    assert(i32::MIN <= (j as int) * (p1.1 as int) <= i32::MAX
                        && i32::MIN <= (i as int) * (p2.1 as int) <= i32::MAX
                        && i32::MIN <= (j as int) * (p1.1 as int) + (i as int) * (p2.1 as int)
                            <= i32::MAX) by (nonlinear_arith)
                        requires
                            j as int == f - i,
                            p1.1 as int == t[k as int].1,
                            p2.1 as int == t[k + 1].1,
                            i32::MIN <= (f - i as int) * t[k as int].1 <= i32::MAX,
                            i32::MIN <= (i as int) * t[k + 1].1 <= i32::MAX,
                            i32::MIN <= (f - i as int) * t[k as int].1 + (i as int) * t[k + 1].1
                                <= i32::MAX,
                    ;
                }
                let nx: i32 = j * p1.0 + i * p2.0;
                let ny: i32 = j * p1.1 + i * p2.1;
                proof {
                    assert(nx as int == (f - i) * t[k as int].0 + i * t[k + 1].0)
                        by (nonlinear_arith)
                        requires
                            nx as int == (j as int) * (p1.0 as int) + (i as int) * (p2.0 as int),
                            j as int == f - i,
                            p1.0 as int == t[k as int].0,
                            p2.0 as int == t[k + 1].0,
                    ;
                    assert(ny as int == (f - i) * t[k as int].1 + i * t[k + 1].1)
                        by (nonlinear_arith)
                        requires
                            ny as int == (j as int) * (p1.1 as int) + (i as int) * (p2.1 as int),
                            j as int == f - i,
                            p1.1 as int == t[k as int].1,
                            p2.1 as int == t[k + 1].1,
                    ;
                }
                let ghost out0 = out@;
                out.push((nx, ny));
                proof {
                    let seg = seg_expanded(t[k as int], t[k + 1], f);
                    assert(seg[i - 1] == ((f - i) * t[k as int].0 + i * t[k + 1].0,
                        (f - i) * t[k as int].1 + i * t[k + 1].1));
                    lemma_int_points_push(out0, (nx, ny));
                    assert(expanded(t.take(k + 1), f) + seg.take(i as int) =~= (expanded(
                        t.take(k + 1),
                        f,
                    ) + seg.take(i - 1)).push(seg[i - 1]));
                    assert(int_points(out@) == expanded(t.take(k + 1), f) + seg.take(i as int));
                }
                i = i + 1;
            }
            proof {
                lemma_interp_fits(t[k + 1].0, t[k + 1].0, min_x(t), max_x(t), f, f);
                lemma_interp_fits(t[k + 1].1, t[k + 1].1, min_y(t), max_y(t), f, f);
                assert(i32::MIN <= f * t[k + 1].0 <= i32::MAX);
                assert(i32::MIN <= f * t[k + 1].1 <= i32::MAX);
                assert(i32::MIN <= (p2.0 as int) * (factor as int) <= i32::MAX);
                assert(i32::MIN <= (p2.1 as int) * (factor as int) <= i32::MAX);
            }
            let tail: Point = (p2.0 * factor, p2.1 * factor);
            proof {
                assert(tail.0 as int == (f - f) * t[k as int].0 + f * t[k + 1].0)
                    by (nonlinear_arith)
                    requires
                        tail.0 as int == (p2.0 as int) * (factor as int),
                        f == factor as int,
                        p2.0 as int == t[k + 1].0,
                ;
                assert(tail.1 as int == (f - f) * t[k as int].1 + f * t[k + 1].1)
                    by (nonlinear_arith)
                    requires
                        tail.1 as int == (p2.1 as int) * (factor as int),
                        f == factor as int,
                        p2.1 as int == t[k + 1].1,
                ;
            }
            let ghost out1 = out@;
            out.push(tail);
            proof {
                let seg = seg_expanded(t[k as int], t[k + 1], f);
                assert(seg[f - 1] == ((f - f) * t[k as int].0 + f * t[k + 1].0,
                    (f - f) * t[k as int].1 + f * t[k + 1].1));
                lemma_int_points_push(out1, tail);
                assert(expanded(t.take(k + 1), f) + seg =~= (expanded(t.take(k + 1), f)
                    + seg.take(f - 1)).push(seg[f - 1]));
                assert(int_points(out@) == expanded(t.take(k + 1), f) + seg);
                assert(t.take(k + 2).drop_last() =~= t.take(k + 1));
                assert(t.take(k + 2).last() == t[k + 1]);
                assert(t.take(k + 2)[t.take(k + 2).len() - 2] == t[k as int]);
                assert(int_points(out@) == expanded(t.take(k + 2), f));
            }
            k = k + 1;
        }
        proof {
            assert(t.take(n as int) =~= t);
        }
        out
    }

    fn join(self, mut other: Self) -> (r: Self) {
        let ghost a = self.pts();
        let ghost b = other.pts();
        let mut left = self;
        proof {
            assert(a[a.len() - 1] == (
                left@[left@.len() - 1].0 as int,
                left@[left@.len() - 1].1 as int,
            ));
            assert(b[0] == (other@[0].0 as int, other@[0].1 as int));
        }
        let e: Point = left.pop().unwrap();
        other.move_start_to(e);
        left.append(&mut other);
        proof {
            let dx = a.last().0 - b[0].0;
            let dy = a.last().1 - b[0].1;
            assert(int_points(left@) =~= a.drop_last() + translated(b, dx, dy));
            assert(joined(a, b)[0] == a[0]) by {
                if a.len() > 1 {
                    assert(a.drop_last()[0] == a[0]);
                } else {
                    assert(joined(a, b)[0] == (b[0].0 + dx, b[0].1 + dy));
                }
            }
            assert(joined(a, b).last() == (b.last().0 + dx, b.last().1 + dy)) by {
                assert(translated(b, dx, dy).last() == (b.last().0 + dx, b.last().1 + dy));
            }
        }
        left
    }
}

/// A copy of the points in reverse order.
fn reversed_copy(v: &Vec<Point>) -> (r: Vec<Point>)
    ensures
        int_points(r@) == int_points(v@).reverse(),
{
    let n: usize = v.len();
    let mut r: Vec<Point> = Vec::new();
    let mut i: usize = 0;
    while i < n
        invariant
            n == v@.len(),
            i <= n,
            r@.len() == i,
            forall|k: int| 0 <= k < i ==> #[trigger] r@[k] == v@[n - 1 - k],
        decreases n - i,
    {
        r.push(v[n - 1 - i]);
        i = i + 1;
    }
    proof {
        assert(int_points(r@) =~= int_points(v@).reverse());
    }
    r
}

/// Builds the dragon curve of the requested order: the base order is the
/// unit segment [(0, 0), (0, 1)]; each further order joins the previous
/// curve with its reversed, clockwise-rotated copy and justifies the
/// result.  The order is capped so that every intermediate coordinate
/// provably fits in 32 bits; point count and memory grow as 2^order.
pub fn dragon(order: usize) -> (r: Vec<Point>)
    requires
        order <= 30,
    ensures
        int_points(r@) == dragon_spec(order as nat),
    decreases order,
{
    if order == 0 {
        let mut v: Vec<Point> = Vec::new();
        v.push((0, 0));
        v.push((0, 1));
        proof {
            assert(int_points(v@) =~= dragon_spec(0));
        }
        v
    } else {
        let ghost m = (order - 1) as nat;
        let ghost d = dragon_spec(m);
        let ghost p = pow2(m) as int;
        let first_half: Vec<Point> = dragon(order - 1);
        proof {
            lemma_dragon_props(m);
            lemma_bounds(d);
            lemma_pow2_le(m, 29);
            lemma_pow2_values();
            assert(d.last() == d[d.len() - 1]);
        }
        let mut second_half: Vec<Point> = reversed_copy(&first_half);
        proof {
            assert forall|k: int| 0 <= k < d.reverse().len() implies
                0 <= (#[trigger] d.reverse()[k]).0 <= p && 0 <= d.reverse()[k].1 <= p by {
                assert(d.reverse()[k] == d[d.len() - 1 - k]);
            }
            assert forall|k: int| 0 <= k < second_half.pts().len() implies
                (#[trigger] second_half.pts()[k]).0 != i32::MIN by {
                assert(second_half.pts()[k] == d.reverse()[k]);
            }
        }
        second_half.rotate_right();
        let ghost rr = rotated_right(d.reverse());
        let ghost dx = d.last().0 - rr[0].0;
        let ghost dy = d.last().1 - rr[0].1;
        proof {
            assert forall|k: int| 0 <= k < rr.len() implies
                0 <= (#[trigger] rr[k]).0 <= p && -p <= rr[k].1 <= 0 by {
                assert(rr[k] == (d.reverse()[k].1, -d.reverse()[k].0));
                assert(d.reverse()[k] == d[d.len() - 1 - k]);
            }
            assert(-p <= dx <= p && 0 <= dy <= 2 * p);
            assert forall|k: int| 0 <= k < rr.len() implies
                fits_i32((#[trigger] rr[k]).0 + dx) && fits_i32(rr[k].1 + dy) by {
                assert(0 <= rr[k].0 <= p && -p <= rr[k].1 <= 0);
            }
        }
        let mut full: Vec<Point> = first_half.join(second_half);
        let ghost j = joined(d, rr);
        proof {
            lemma_unit_steps_reverse(d);
            lemma_unit_steps_rotated_right(d.reverse());
            lemma_unit_steps_joined(d, rr);
            lemma_unit_steps_spread(j);
            lemma_corners_attained(j);
            lemma_bounds(j);
            assert(j.len() == 2 * p + 1);
            assert forall|k: int| 0 <= k < j.len() implies
                -2 * p <= (#[trigger] j[k]).0 && -2 * p <= j[k].1 by {
                if k < d.len() - 1 {
                    assert(j[k] == d[k]);
                } else {
                    let tb = translated(rr, dx, dy);
                    assert(j[k] == tb[k - (d.len() - 1)]);
                    assert(tb[k - (d.len() - 1)] == (
                        rr[k - (d.len() - 1)].0 + dx,
                        rr[k - (d.len() - 1)].1 + dy,
                    ));
                }
            }
            let wx = choose|i: int| 0 <= i < j.len() && min_x(j) == (#[trigger] j[i]).0;
            let wy = choose|i: int| 0 <= i < j.len() && min_y(j) == (#[trigger] j[i]).1;
            assert(min_x(j) == j[wx].0 >= -2 * p);
            assert(min_y(j) == j[wy].1 >= -2 * p);
        }
        full.justify();
        proof {
            assert(int_points(full@) == justified(j));
            assert(dragon_spec(order as nat) == justified(
                joined(dragon_spec(m), rotated_right(dragon_spec(m).reverse())),
            ));
        }
        full
    }
}

} // verus!
