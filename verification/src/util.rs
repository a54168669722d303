//! Rasterization primitives and point-set transforms.
//!
//! All geometry works on `Point = (i32, i32)`. Slope handling in `line` uses
//! exact integer arithmetic for the half-pixel rounding `floor(y + 1/2)`, so
//! the sampled ordinates are stated precisely in the contracts.

use vstd::prelude::*;
use vstd::math::abs;
use vstd::multiset::Multiset;

verus! {

/// A pixel position: signed x and y coordinates.
pub type Point = (i32, i32);

/// Clamp a mathematical integer into the value range of `i32`.
pub open spec fn clip(v: int) -> int {
    if v < i32::MIN as int {
        i32::MIN as int
    } else if v > i32::MAX as int {
        i32::MAX as int
    } else {
        v
    }
}

/// Clamp an `i128` into `i32`, realizing `clip` on the value.
fn clip_i128(v: i128) -> (r: i32)
    ensures
        r as int == clip(v as int),
{
    if v < i32::MIN as i128 {
        i32::MIN
    } else if v > i32::MAX as i128 {
        i32::MAX
    } else {
        v as i32
    }
}

/// Floor division, equal to the mathematical `/` of specifications for a
/// positive divisor.
fn floor_div_i128(a: i128, b: i128) -> (r: i128)
    requires
        b > 0,
        a > i128::MIN,
    ensures
        r as int == a as int / b as int,
        a >= 0 ==> 0 <= r <= a,
        a < 0 ==> a <= r <= -1,
{
    if a >= 0 {
        let q = (a as u128) / (b as u128);
        proof {
            assert(q == a as int / b as int);
            vstd::arithmetic::div_mod::lemma_div_pos_is_pos(a as int, b as int);
            vstd::arithmetic::div_mod::lemma_div_nonincreasing(a as int, b as int);
        }
        q as i128
    } else {
        let q = ((-a - 1) as u128) / (b as u128);
        proof {
            let n = (-a - 1) as int;
            let qi = a as int / b as int;
            let ri = a as int % b as int;
            vstd::arithmetic::div_mod::lemma_fundamental_div_mod(a as int, b as int);
            vstd::arithmetic::div_mod::lemma_mod_bound(a as int, b as int);
            assert((-qi - 1) * (b as int) == -(qi * (b as int)) - b
                && qi * (b as int) == (b as int) * qi) by (nonlinear_arith);
            assert(n == (-qi - 1) * (b as int) + (b - ri - 1)) by {
                assert(a as int == (b as int) * qi + ri);
            }
            vstd::arithmetic::div_mod::lemma_fundamental_div_mod_converse(
                n, b as int, -qi - 1, b as int - ri - 1);
            assert(q as int == -qi - 1);
            vstd::arithmetic::div_mod::lemma_div_pos_is_pos(n, b as int);
            vstd::arithmetic::div_mod::lemma_div_nonincreasing(n, b as int);
        }
        -(q as i128) - 1
    }
}

/// The half-pixel-rounded ordinate of the `k`-th sample of a shallow segment:
/// `floor(y0 + k*dy/dx + 1/2)`, written over integers only.
pub open spec fn sample_ord(y0: int, dx: int, dy: int, k: int) -> int
    recommends
        dx > 0,
{
    y0 + (2 * k * dy + dx) / (2 * dx)
}

/// The sample points of a shallow (`|dy| <= dx`, `dx >= 0`) segment: the two
/// endpoints first, then one sample for each x strictly between the ends,
/// where the `k`-th sample keeps the previous x.
pub open spec fn shallow_pts(p0: Point, p1: Point) -> Seq<Point> {
    let dx = p1.0 - p0.0;
    let dy = p1.1 - p0.1;
    seq![p0, p1] + Seq::new(dx as nat, |j: int|
        ((p0.0 + j) as i32, clip(sample_ord(p0.1 as int, dx, dy, j + 1)) as i32))
}

/// The transposed-segment worker: its arguments are transposed endpoints, and
/// every point it yields is transposed back to the caller's coordinates.
pub open spec fn line2_pts(p0: Point, p1: Point) -> Seq<Point>
    decreases (if p1.0 - p0.0 < 0 { 1int } else { 0int }),
{
    let dx = p1.0 - p0.0;
    if dx < 0 {
        line2_pts(p1, p0)
    } else {
        let dy = p1.1 - p0.1;
        seq![(p1.1, p1.0), (p0.1, p0.0)] + Seq::new(dx as nat, |j: int|
            (clip(sample_ord(p0.1 as int, dx, dy, j + 1)) as i32, (p0.0 + j) as i32))
    }
}

/// All sample points of the segment from `p0` to `p1`: endpoints are
/// normalized so the x span is non-negative, and steep segments (including
/// vertical ones) are handled through the transposed worker.
pub open spec fn line_pts(p0: Point, p1: Point) -> Seq<Point>
    decreases (if p1.0 - p0.0 < 0 { 1int } else { 0int }),
{
    let dx = p1.0 - p0.0;
    let dy = p1.1 - p0.1;
    if dx < 0 {
        line_pts(p1, p0)
    } else if abs(dy) > dx {
        line2_pts((p1.1, p1.0), (p0.1, p0.0))
    } else {
        shallow_pts(p0, p1)
    }
}

/// Compute one shallow sample ordinate, clamped into `i32`.
fn sample_ord_exec(y0: i32, dx: i64, dy: i64, k: i64) -> (r: i32)
    requires
        0 < dx <= 0x1_0000_0000,
        -0x1_0000_0000 <= dy <= 0x1_0000_0000,
        0 <= k <= 0x1_0000_0000,
    ensures
        r as int == clip(sample_ord(y0 as int, dx as int, dy as int, k as int)),
{
    proof {
        assert((k as int) * (dy as int) <= 0x1_0000_0000_0000_0000
            && (k as int) * (dy as int) >= -0x1_0000_0000_0000_0000) by (nonlinear_arith)
            requires
                0 <= k as int <= 0x1_0000_0000,
                -0x1_0000_0000 <= dy as int <= 0x1_0000_0000,
        ;
    }
    let kd: i128 = (k as i128) * (dy as i128);
    let num: i128 = 2 * kd + (dx as i128);
    let den: i128 = 2 * (dx as i128);
    let q = floor_div_i128(num, den);
    proof {
        assert(2 * ((k as int) * (dy as int)) == 2 * (k as int) * (dy as int)) by (nonlinear_arith);
    }
    clip_i128((y0 as i128) + q)
}

/// Every pixel-center approximation on the segment between `p0` and `p1`,
/// both endpoints included; steep segments iterate over the dominant axis.
pub fn line(p0: Point, p1: Point) -> (r: Vec<Point>)
    ensures
        r@ == line_pts(p0, p1),
    decreases (if p1.0 - p0.0 < 0 { 1int } else { 0int }),
{
    let dx = p1.0 as i64 - p0.0 as i64;
    let dy = p1.1 as i64 - p0.1 as i64;
    if dx < 0 {
        return line(p1, p0);
    }
    if (if dy < 0 { -dy } else { dy }) > dx {
        return line2((p1.1, p1.0), (p0.1, p0.0));
    }
    let mut points: Vec<Point> = Vec::new();
    points.push(p0);
    points.push(p1);
    let mut x = p0.0;
    while x < p1.0
        invariant
            p0.0 <= x <= p1.0,
            dx == p1.0 - p0.0,
            dy == p1.1 - p0.1,
            0 <= dx <= 0x1_0000_0000,
            -0x1_0000_0000 <= dy <= 0x1_0000_0000,
            points@ == seq![p0, p1] + Seq::new((x - p0.0) as nat, |j: int|
                ((p0.0 + j) as i32, clip(sample_ord(p0.1 as int, dx as int, dy as int, j + 1)) as i32)),
        decreases p1.0 - x,
    {
        let k = (x as i64) - (p0.0 as i64) + 1;
        let y = sample_ord_exec(p0.1, dx, dy, k);
        points.push((x, y));
        proof {
            assert(points@ =~= seq![p0, p1] + Seq::new((x + 1 - p0.0) as nat, |j: int|
                ((p0.0 + j) as i32, clip(sample_ord(p0.1 as int, dx as int, dy as int, j + 1)) as i32)));
        }
        x = x + 1;
    }
    proof {
        assert(points@ =~= shallow_pts(p0, p1));
    }
    points
}

/// The transposed worker behind `line`: takes transposed endpoints, yields
/// every point transposed back.
pub fn line2(p0: Point, p1: Point) -> (r: Vec<Point>)
    ensures
        r@ == line2_pts(p0, p1),
    decreases (if p1.0 - p0.0 < 0 { 1int } else { 0int }),
{
    let dx = p1.0 as i64 - p0.0 as i64;
    let dy = p1.1 as i64 - p0.1 as i64;
    if dx < 0 {
        return line2(p1, p0);
    }
    let mut points: Vec<Point> = Vec::new();
    points.push((p1.1, p1.0));
    points.push((p0.1, p0.0));
    let mut x = p0.0;
    while x < p1.0
        invariant
            p0.0 <= x <= p1.0,
            dx == p1.0 - p0.0,
            dy == p1.1 - p0.1,
            0 <= dx <= 0x1_0000_0000,
            -0x1_0000_0000 <= dy <= 0x1_0000_0000,
            points@ == seq![(p1.1, p1.0), (p0.1, p0.0)] + Seq::new((x - p0.0) as nat, |j: int|
                (clip(sample_ord(p0.1 as int, dx as int, dy as int, j + 1)) as i32, (p0.0 + j) as i32)),
        decreases p1.0 - x,
    {
        let k = (x as i64) - (p0.0 as i64) + 1;
        let y = sample_ord_exec(p0.1, dx, dy, k);
        points.push((y, x));
        proof {
            assert(points@ =~= seq![(p1.1, p1.0), (p0.1, p0.0)] + Seq::new((x + 1 - p0.0) as nat, |j: int|
                (clip(sample_ord(p0.1 as int, dx as int, dy as int, j + 1)) as i32, (p0.0 + j) as i32)));
        }
        x = x + 1;
    }
    points
}

/// The dominant axis span of a segment: the larger of `|dx|` and `|dy|`.
pub open spec fn dominant_span(p0: Point, p1: Point) -> int {
    let dx = abs(p1.0 - p0.0);
    let dy = abs(p1.1 - p0.1);
    if dy > dx {
        dy as int
    } else {
        dx as int
    }
}

/// Octant correctness: a segment yields its two endpoint entries plus one
/// sample per unit of the dominant axis span, never the minor axis span.
pub proof fn lemma_line_point_count(p0: Point, p1: Point)
    ensures
        line_pts(p0, p1).len() == 2 + dominant_span(p0, p1),
{
    reveal_with_fuel(line_pts, 2);
    reveal_with_fuel(line2_pts, 2);
}

/// The transposed worker always yields both of its (transposed-back)
/// endpoints.
pub proof fn lemma_line2_endpoints(p0: Point, p1: Point)
    ensures
        line2_pts(p0, p1).contains((p0.1, p0.0)),
        line2_pts(p0, p1).contains((p1.1, p1.0)),
    decreases (if p1.0 - p0.0 < 0 { 1int } else { 0int }),
{
    let s = line2_pts(p0, p1);
    if p1.0 - p0.0 < 0 {
        lemma_line2_endpoints(p1, p0);
    } else {
        assert(s.contains((p0.1, p0.0))) by {
            assert(s[1] == (p0.1, p0.0));
        }
        assert(s.contains((p1.1, p1.0))) by {
            assert(s[0] == (p1.1, p1.0));
        }
    }
}

/// Endpoint inclusion: the segment's points always contain both endpoints.
pub proof fn lemma_line_endpoints(p0: Point, p1: Point)
    ensures
        line_pts(p0, p1).contains(p0),
        line_pts(p0, p1).contains(p1),
    decreases (if p1.0 - p0.0 < 0 { 1int } else { 0int }),
{
    let s = line_pts(p0, p1);
    if p1.0 - p0.0 < 0 {
        lemma_line_endpoints(p1, p0);
    } else if abs(p1.1 - p0.1) > p1.0 - p0.0 {
        lemma_line2_endpoints((p1.1, p1.0), (p0.1, p0.0));
    } else {
        assert(s.contains(p0)) by {
            assert(s[0] == p0);
        }
        assert(s.contains(p1)) by {
            assert(s[1] == p1);
        }
    }
}

/// Symmetry: the segment's points do not depend on the order in which the
/// two endpoints are given; the sequences are identical.
pub proof fn lemma_line_symmetry(p0: Point, p1: Point)
    ensures
        line_pts(p0, p1) == line_pts(p1, p0),
{
    reveal_with_fuel(line_pts, 3);
    reveal_with_fuel(line2_pts, 3);
}

} // verus!

verus! {

/// The four edges of the axis-aligned rectangle with opposite corners `p0`
/// and `p1`; each corner lies on two edges and is emitted by both.
pub open spec fn rect_pts(p0: Point, p1: Point) -> Seq<Point> {
    line_pts((p0.0, p0.1), (p1.0, p0.1))
        + line_pts((p0.0, p0.1), (p0.0, p1.1))
        + line_pts((p1.0, p0.1), (p1.0, p1.1))
        + line_pts((p0.0, p1.1), (p1.0, p1.1))
}

/// Rasterize the axis-aligned rectangle with corners `p0`, `p1`.
pub fn rect(p0: Point, p1: Point) -> (r: Vec<Point>)
    ensures
        r@ == rect_pts(p0, p1),
{
    let mut points = line((p0.0, p0.1), (p1.0, p0.1));
    let mut e1 = line((p0.0, p0.1), (p0.0, p1.1));
    let mut e2 = line((p1.0, p0.1), (p1.0, p1.1));
    let mut e3 = line((p0.0, p1.1), (p1.0, p1.1));
    points.append(&mut e1);
    points.append(&mut e2);
    points.append(&mut e3);
    points
}

/// The consecutive-pair edges of the first `n` vertices: one rasterized
/// segment for every adjacent pair.
pub open spec fn polygon_open_pts(corners: Seq<Point>, n: int) -> Seq<Point>
    recommends
        n <= corners.len(),
    decreases n,
{
    if n <= 1 {
        Seq::empty()
    } else {
        polygon_open_pts(corners, n - 1) + line_pts(corners[n - 2], corners[n - 1])
    }
}

/// All points of the polygon over the given vertices: every consecutive-pair
/// edge, then one direct closing edge from the first to the last vertex,
/// added even when the vertex list already forms a closed ring.
pub open spec fn polygon_pts(corners: Seq<Point>) -> Seq<Point>
    recommends
        corners.len() >= 2,
{
    polygon_open_pts(corners, corners.len() as int)
        + line_pts(corners[0], corners[corners.len() - 1])
}

/// Rasterize a polygon from its vertex list.
pub fn polygon(corners: &Vec<Point>) -> (r: Vec<Point>)
    requires
        corners@.len() >= 2,
    ensures
        r@ == polygon_pts(corners@),
{
    let mut points: Vec<Point> = Vec::new();
    let mut i: usize = 1;
    while i < corners.len()
        invariant
            1 <= i <= corners@.len(),
            points@ == polygon_open_pts(corners@, i as int),
        decreases corners@.len() - i,
    {
        let mut e = line(corners[i - 1], corners[i]);
        points.append(&mut e);
        i = i + 1;
    }
    let mut closing = line(corners[0], corners[corners.len() - 1]);
    points.append(&mut closing);
    points
}

/// Closing-edge rule: beyond the consecutive-pair edges, the polygon always
/// contains every point of the direct edge from its first to its last vertex.
pub proof fn lemma_polygon_closing_edge(corners: Seq<Point>, p: Point)
    requires
        corners.len() >= 2,
        line_pts(corners[0], corners[corners.len() - 1]).contains(p),
    ensures
        polygon_pts(corners).contains(p),
{
    let open = polygon_open_pts(corners, corners.len() as int);
    let closing = line_pts(corners[0], corners[corners.len() - 1]);
    let i = choose|i: int| 0 <= i < closing.len() && closing[i] == p;
    assert(polygon_pts(corners)[open.len() + i] == p);
}

} // verus!

verus! {

/// The 4-way mirror of one ellipse sample into all quadrants about `c`.
pub open spec fn ellipse_quad(x: int, y: int, c: Point) -> Seq<Point> {
    seq![
        (clip(x + c.0) as i32, clip(y + c.1) as i32),
        (clip(-x + c.0) as i32, clip(y + c.1) as i32),
        (clip(x + c.0) as i32, clip(-y + c.1) as i32),
        (clip(-x + c.0) as i32, clip(-y + c.1) as i32),
    ]
}

/// Mirror the sample `(x, y)` into all four quadrants about `p0`.
pub fn ellipse_points(x: i32, y: i32, p0: Point) -> (r: Vec<Point>)
    ensures
        r@ == ellipse_quad(x as int, y as int, p0),
{
    let mut points: Vec<Point> = Vec::new();
    points.push((clip_i128(x as i128 + p0.0 as i128), clip_i128(y as i128 + p0.1 as i128)));
    points.push((clip_i128(-(x as i128) + p0.0 as i128), clip_i128(y as i128 + p0.1 as i128)));
    points.push((clip_i128(x as i128 + p0.0 as i128), clip_i128(-(y as i128) + p0.1 as i128)));
    points.push((clip_i128(-(x as i128) + p0.0 as i128), clip_i128(-(y as i128) + p0.1 as i128)));
    proof {
        assert(points@ =~= ellipse_quad(x as int, y as int, p0));
    }
    points
}

/// Phase 1 of the midpoint ellipse walk: steps x while the boundary slope
/// magnitude stays below one, mirroring each new sample into all quadrants.
/// Yields the emitted points and the final `(x, y)` that seed phase 2.
pub open spec fn ellipse_phase1(a2: int, b2: int, x: int, y: int, d1: int, c: Point)
    -> (Seq<Point>, int, int)
    decreases (if a2 * y - b2 * x >= 0 { a2 * y - b2 * x } else { 0int })
        when a2 > 0 && b2 > 0
        via ellipse_phase1_decreases
{
    if a2 * y > b2 * (x + 1) {
        let nx = x + 1;
        let ny = if d1 < 0 { y } else { y - 1 };
        let nd = if d1 < 0 {
            d1 + b2 * (2 * x + 3)
        } else {
            d1 + b2 * (2 * x + 3) + a2 * (-2 * y + 2)
        };
        let rest = ellipse_phase1(a2, b2, nx, ny, nd, c);
        (ellipse_quad(nx, ny, c) + rest.0, rest.1, rest.2)
    } else {
        (Seq::empty(), x, y)
    }
}

#[via_fn]
proof fn ellipse_phase1_decreases(a2: int, b2: int, x: int, y: int, d1: int, c: Point) {
    if a2 * y > b2 * (x + 1) {
        assert(b2 * (x + 1) == b2 * x + b2) by (nonlinear_arith);
        assert(a2 * (y - 1) == a2 * y - a2) by (nonlinear_arith);
    }
}

/// Phase 2 of the midpoint ellipse walk: steps y down to zero, stepping x
/// when the decision variable asks for it.
pub open spec fn ellipse_phase2(a2: int, b2: int, x: int, y: int, d2: int, c: Point) -> Seq<Point>
    decreases (if y >= 0 { y } else { 0int }),
{
    if y > 0 {
        let nx = if d2 < 0 { x + 1 } else { x };
        let nd = if d2 < 0 {
            d2 + b2 * (2 * x + 2) + a2 * (-2 * y + 3)
        } else {
            d2 + a2 * (-2 * y + 3)
        };
        let ny = y - 1;
        ellipse_quad(nx, ny, c) + ellipse_phase2(a2, b2, nx, ny, nd, c)
    } else {
        Seq::empty()
    }
}

/// All points of the midpoint ellipse about `c` with semi-axes `a` and `b`:
/// the top/bottom seed samples, the phase-1 walk, then the phase-2 walk
/// seeded exactly once from phase 1's final `(x, y)`.
pub open spec fn ellipse_pts(c: Point, a: int, b: int) -> Seq<Point> {
    let a2 = a * a;
    let b2 = b * b;
    let p1 = if a2 > 0 && b2 > 0 {
        ellipse_phase1(a2, b2, 0, b, b2 - a2 * b + a2 / 4, c)
    } else {
        (Seq::<Point>::empty(), 0int, b)
    };
    let d2 = b2 * (p1.1 * p1.1) + a2 * ((p1.2 - 1) * (p1.2 - 1)) - a2 * b2;
    ellipse_quad(0, b, c) + p1.0 + ellipse_phase2(a2, b2, p1.1, p1.2, d2, c)
}

} // verus!


verus! {

/// Append the 4-way mirror of `(x, y)` about `c` to `points`.
fn push_quad(points: &mut Vec<Point>, x: i64, y: i64, c: Point)
    ensures
        final(points)@ == old(points)@ + ellipse_quad(x as int, y as int, c),
{
    points.push((clip_i128(x as i128 + c.0 as i128), clip_i128(y as i128 + c.1 as i128)));
    points.push((clip_i128(-(x as i128) + c.0 as i128), clip_i128(y as i128 + c.1 as i128)));
    points.push((clip_i128(x as i128 + c.0 as i128), clip_i128(-(y as i128) + c.1 as i128)));
    points.push((clip_i128(-(x as i128) + c.0 as i128), clip_i128(-(y as i128) + c.1 as i128)));
    proof {
        assert(points@ =~= old(points)@ + ellipse_quad(x as int, y as int, c));
    }
}

/// Whether phase 1 of the ellipse walk has another step to take.
fn phase1_more(a2: i64, b2: i64, x: i64, y: i64) -> (r: bool)
    requires
        0 <= a2 <= 2147395600,
        0 <= b2 <= 2147395600,
        0 <= x <= 2147395600,
        -46340 <= y <= 46340,
    ensures
        r == ((a2 as int) * (y as int) > (b2 as int) * ((x as int) + 1)),
{
    proof {
        assert(-200_000_000_000_000 <= (a2 as int) * (y as int) <= 200_000_000_000_000
            && 0 <= (b2 as int) * ((x as int) + 1) <= 5_000_000_000_000_000_000) by (nonlinear_arith)
            requires
                0 <= a2 as int <= 2147395600,
                0 <= b2 as int <= 2147395600,
                0 <= x as int <= 2147395600,
                -46340 <= y as int <= 46340,
        ;
    }
    a2 * y > b2 * (x + 1)
}

/// Rasterize the ellipse centered at `p0` with horizontal semi-axis `a` and
/// vertical semi-axis `b`, by the two-region integer midpoint algorithm.
/// The semi-axes are bounded so that their squares stay representable.
pub fn ellipse(p0: Point, a: i32, b: i32) -> (r: Vec<Point>)
    requires
        -46340 <= a <= 46340,
        -46340 <= b <= 46340,
    ensures
        r@ == ellipse_pts(p0, a as int, b as int),
{
    proof {
        assert(0 <= (a as int) * (a as int) <= 2147395600
            && 0 <= (b as int) * (b as int) <= 2147395600
            && ((a as int) != 0 ==> (a as int) * (a as int) >= 1)
            && ((b as int) != 0 ==> (b as int) * (b as int) >= 1)) by (nonlinear_arith)
            requires
                -46340 <= a as int <= 46340,
                -46340 <= b as int <= 46340,
        ;
    }
    let a2: i64 = (a as i64) * (a as i64);
    let b2: i64 = (b as i64) * (b as i64);
    let mut x: i64 = 0;
    let mut y: i64 = b as i64;
    proof {
        vstd::arithmetic::div_mod::lemma_div_pos_is_pos(a2 as int, 4);
        vstd::arithmetic::div_mod::lemma_div_nonincreasing(a2 as int, 4);
        assert(-100_000_000_000_000 <= (a2 as int) * (b as int) <= 100_000_000_000_000)
            by (nonlinear_arith)
            requires
                0 <= a2 as int <= 2147395600,
                -46340 <= b as int <= 46340,
        ;
    }
    let q4: i64 = ((a2 as u128) / 4) as i64;
    let mut d1: i128 = (b2 as i128) - (a2 as i128) * (b as i128) + (q4 as i128);
    let mut points: Vec<Point> = ellipse_points(0, b, p0);
    let ghost b0 = b as int;
    let ghost d1_0 = d1 as int;
    let ghost p1full = if a2 as int > 0 && b2 as int > 0 {
        ellipse_phase1(a2 as int, b2 as int, 0, b0, d1_0, p0)
    } else {
        (Seq::<Point>::empty(), 0int, b0)
    };
    if a != 0 && b > 0 {
        let mut go = phase1_more(a2, b2, x, y);
        while go
            invariant
                a2 == (a as int) * (a as int),
                b2 == (b as int) * (b as int),
                1 <= a2 <= 2147395600,
                1 <= b2 <= 2147395600,
                1 <= b <= 46340,
                b0 == b as int,
                0 <= x <= a2,
                0 <= y <= b,
                go == ((a2 as int) * (y as int) > (b2 as int) * ((x as int) + 1)),
                -100_000_000_000_000 - (x as int) * 20_000_000_000_000_000_000 <= d1 as int
                    <= 100_000_000_000_000 + (x as int) * 20_000_000_000_000_000_000,
                points@.len() >= 4,
                points@.subrange(0, 4) == ellipse_quad(0, b0, p0),
                p1full == ellipse_phase1(a2 as int, b2 as int, 0, b0, d1_0, p0),
                p1full.0 == points@.subrange(4, points@.len() as int)
                    + ellipse_phase1(a2 as int, b2 as int, x as int, y as int, d1 as int, p0).0,
                p1full.1 == ellipse_phase1(a2 as int, b2 as int, x as int, y as int, d1 as int, p0).1,
                p1full.2 == ellipse_phase1(a2 as int, b2 as int, x as int, y as int, d1 as int, p0).2,
            decreases (if (a2 as int) * (y as int) - (b2 as int) * (x as int) >= 0 {
                (a2 as int) * (y as int) - (b2 as int) * (x as int)
            } else {
                0int
            }),
        {
            let ghost cur = ellipse_phase1(a2 as int, b2 as int, x as int, y as int, d1 as int, p0);
            proof {
                assert((b2 as int) * ((x as int) + 1) == (b2 as int) * (x as int) + b2 as int
                    && (a2 as int) * ((y as int) - 1) == (a2 as int) * (y as int) - a2 as int)
                    by (nonlinear_arith);
                assert((y as int) >= 1 && (x as int) + 1 < a2 as int) by (nonlinear_arith)
                    requires
                        (a2 as int) * (y as int) > (b2 as int) * ((x as int) + 1),
                        1 <= a2 as int,
                        b2 as int == (b as int) * (b as int),
                        1 <= b as int <= 46340,
                        y as int <= b as int,
                        0 <= x as int,
                ;
                assert(0 <= (b2 as int) * (2 * (x as int) + 3) <= 10_000_000_000_000_000_000
                    && -200_000_000_000_000 <= (a2 as int) * (-2 * (y as int) + 2) <= 0)
                    by (nonlinear_arith)
                    requires
                        1 <= a2 as int <= 2147395600,
                        1 <= b2 as int <= 2147395600,
                        0 <= x as int <= 2147395600,
                        1 <= y as int <= 46340,
                ;
            }
            if d1 < 0 {
                d1 = d1 + (b2 as i128) * (2 * (x as i128) + 3);
            } else {
                d1 = d1 + (b2 as i128) * (2 * (x as i128) + 3) + (a2 as i128) * (-2 * (y as i128) + 2);
                y = y - 1;
            }
            x = x + 1;
            push_quad(&mut points, x, y, p0);
            go = phase1_more(a2, b2, x, y);
            proof {
                assert(cur.0 == ellipse_quad(x as int, y as int, p0)
                    + ellipse_phase1(a2 as int, b2 as int, x as int, y as int, d1 as int, p0).0);
                assert(points@.subrange(0, 4) =~= ellipse_quad(0, b0, p0));
                assert(p1full.0 =~= points@.subrange(4, points@.len() as int)
                    + ellipse_phase1(a2 as int, b2 as int, x as int, y as int, d1 as int, p0).0);
            }
        }
        proof {
            assert(ellipse_phase1(a2 as int, b2 as int, x as int, y as int, d1 as int, p0)
                == (Seq::<Point>::empty(), x as int, y as int));
            assert(p1full.0 =~= points@.subrange(4, points@.len() as int));
        }
    } else {
        proof {
            if a2 as int > 0 && b2 as int > 0 {
                assert(b as int <= 0);
                assert((a2 as int) * b0 <= 0 && (b2 as int) * (0 + 1) >= 1) by (nonlinear_arith)
                    requires
                        a2 as int > 0,
                        b2 as int > 0,
                        b0 <= 0,
                ;
                assert(p1full == (Seq::<Point>::empty(), 0int, b0));
            }
        }
    }
    proof {
        assert(points@ =~= points@.subrange(0, 4) + points@.subrange(4, points@.len() as int));
        assert(points@ == ellipse_quad(0, b0, p0) + p1full.0);
        assert(x as int == p1full.1 && y as int == p1full.2);
        assert(0 <= (x as int) * (x as int) <= 5_000_000_000_000_000_000
            && 0 <= ((y as int) - 1) * ((y as int) - 1) <= 3_000_000_000) by (nonlinear_arith)
            requires
                0 <= x as int <= 2147441940,
                -46341 <= (y as int) - 1 <= 46340,
        ;
    }
    let xx: i128 = (x as i128) * (x as i128);
    let yy: i128 = ((y as i128) - 1) * ((y as i128) - 1);
    proof {
        assert(0 <= (b2 as int) * ((x as int) * (x as int))
                <= 20_000_000_000_000_000_000_000_000_000
            && 0 <= (a2 as int) * (((y as int) - 1) * ((y as int) - 1))
                <= 10_000_000_000_000_000_000
            && 0 <= (a2 as int) * (b2 as int) <= 5_000_000_000_000_000_000) by (nonlinear_arith)
            requires
                0 <= a2 as int <= 2147395600,
                0 <= b2 as int <= 2147395600,
                0 <= (x as int) * (x as int) <= 5_000_000_000_000_000_000,
                0 <= ((y as int) - 1) * ((y as int) - 1) <= 3_000_000_000,
        ;
    }
    let mut d2: i128 = (b2 as i128) * xx + (a2 as i128) * yy - (a2 as i128) * (b2 as i128);
    let ghost split = points@.len() as int;
    let ghost fy0 = y as int;
    let ghost p2full = ellipse_phase2(a2 as int, b2 as int, x as int, y as int, d2 as int, p0);
    proof {
        assert(points@.subrange(split, points@.len() as int) =~= Seq::<Point>::empty());
        assert(points@.subrange(0, split) =~= points@);
    }
    while y > 0
        invariant
            a2 == (a as int) * (a as int),
            b2 == (b as int) * (b as int),
            0 <= a2 <= 2147395600,
            0 <= b2 <= 2147395600,
            -46340 <= y <= 46340,
            y as int <= fy0,
            fy0 <= 46340,
            0 <= x,
            (x as int) + (if y >= 0 { y as int } else { 0int }) <= 2147441940,
            -30_000_000_000_000_000_000_000_000_000 - (fy0 - y as int) * 20_000_000_000_000_000_000
                <= d2 as int
                <= 30_000_000_000_000_000_000_000_000_000
                    + (fy0 - y as int) * 20_000_000_000_000_000_000,
            points@.len() >= split >= 0,
            points@.subrange(0, split) == ellipse_quad(0, b0, p0) + p1full.0,
            p2full == points@.subrange(split, points@.len() as int)
                + ellipse_phase2(a2 as int, b2 as int, x as int, y as int, d2 as int, p0),
        decreases (if y as int >= 0 { y as int } else { 0int }),
    {
        let ghost cur = ellipse_phase2(a2 as int, b2 as int, x as int, y as int, d2 as int, p0);
        proof {
            assert(0 <= (b2 as int) * (2 * (x as int) + 2) <= 10_000_000_000_000_000_000
                && -200_000_000_000_000 <= (a2 as int) * (-2 * (y as int) + 3)
                    <= 200_000_000_000_000) by (nonlinear_arith)
                requires
                    0 <= a2 as int <= 2147395600,
                    0 <= b2 as int <= 2147395600,
                    0 <= x as int <= 2147441940,
                    1 <= y as int <= 46340,
            ;
        }
        if d2 < 0 {
            d2 = d2 + (b2 as i128) * (2 * (x as i128) + 2) + (a2 as i128) * (-2 * (y as i128) + 3);
            x = x + 1;
        } else {
            d2 = d2 + (a2 as i128) * (-2 * (y as i128) + 3);
        }
        y = y - 1;
        push_quad(&mut points, x, y, p0);
        proof {
            assert(cur == ellipse_quad(x as int, y as int, p0)
                + ellipse_phase2(a2 as int, b2 as int, x as int, y as int, d2 as int, p0));
            assert(p2full =~= points@.subrange(split, points@.len() as int)
                + ellipse_phase2(a2 as int, b2 as int, x as int, y as int, d2 as int, p0));
            assert(points@.subrange(0, split) =~= ellipse_quad(0, b0, p0) + p1full.0);
        }
    }
    proof {
        assert(ellipse_phase2(a2 as int, b2 as int, x as int, y as int, d2 as int, p0)
            == Seq::<Point>::empty());
        assert(p2full =~= points@.subrange(split, points@.len() as int));
        assert(points@ =~= points@.subrange(0, split) + points@.subrange(split, points@.len() as int));
        assert(points@ =~= ellipse_pts(p0, a as int, b as int));
    }
    points
}

} // verus!

verus! {

/// Truncating (toward zero) division by a positive divisor, matching how the
/// transform results are cut to integers.
pub open spec fn trunc_div(a: int, b: int) -> int
    recommends
        b > 0,
{
    if a >= 0 {
        a / b
    } else {
        -((-a) / b)
    }
}

/// Truncating division on machine integers.
fn trunc_div_i64(a: i64, b: i64) -> (r: i64)
    requires
        b > 0,
        a > i64::MIN,
    ensures
        r as int == trunc_div(a as int, b as int),
{
    if a >= 0 {
        let q = (a as u64) / (b as u64);
        proof {
            vstd::arithmetic::div_mod::lemma_div_pos_is_pos(a as int, b as int);
            vstd::arithmetic::div_mod::lemma_div_nonincreasing(a as int, b as int);
        }
        q as i64
    } else {
        let q = ((-a) as u64) / (b as u64);
        proof {
            vstd::arithmetic::div_mod::lemma_div_pos_is_pos(-(a as int), b as int);
            vstd::arithmetic::div_mod::lemma_div_nonincreasing(-(a as int), b as int);
        }
        -(q as i64)
    }
}

/// One point translated by `(dx, dy)`, coordinates clamped into `i32`.
pub open spec fn translate_pt(p: Point, dx: int, dy: int) -> Point {
    (clip(p.0 + dx) as i32, clip(p.1 + dy) as i32)
}

/// One point rotated about the origin with sine `s` and cosine `c` in
/// thousandths. Both coordinates combine the terms with `+`, the drawing
/// convention this library preserves rather than the textbook matrix.
pub open spec fn rotate_pt(p: Point, s: int, c: int) -> Point {
    (clip(trunc_div(p.0 * c + p.1 * s, 1000)) as i32,
        clip(trunc_div(p.0 * s + p.1 * c, 1000)) as i32)
}

/// One point scaled by `(sx, sy)` thousandths, truncating toward zero.
pub open spec fn scale_pt(p: Point, sx: int, sy: int) -> Point {
    (clip(trunc_div(p.0 * sx, 1000)) as i32, clip(trunc_div(p.1 * sy, 1000)) as i32)
}

/// Whether `p` lies in the closed box from `p0` to `p1` widened by one unit
/// on every side.
pub open spec fn in_margin_box(p: Point, p0: Point, p1: Point) -> bool {
    p0.0 - 1 <= p.0 <= p1.0 + 1 && p0.1 - 1 <= p.1 <= p1.1 + 1
}

/// Whether `p` lies in the half-open box `[p0.x, p1.x) × [p0.y, p1.y)`.
pub open spec fn in_half_open_box(p: Point, p0: Point, p1: Point) -> bool {
    p0.0 <= p.0 < p1.0 && p0.1 <= p.1 < p1.1
}

/// The coordinate an operation keys on: y when `by_y`, else x.
pub open spec fn axis(p: Point, by_y: bool) -> int {
    if by_y {
        p.1 as int
    } else {
        p.0 as int
    }
}

/// Whether the sequence is ordered by the chosen axis.
pub open spec fn sorted_by_axis(s: Seq<Point>, by_y: bool) -> bool {
    forall|i: int, j: int| 0 <= i < j < s.len() ==> axis(s[i], by_y) <= axis(s[j], by_y)
}

/// Whether the sequence is ordered by the y coordinate.
pub open spec fn sorted_by_y(s: Seq<Point>) -> bool {
    sorted_by_axis(s, true)
}

/// In-place operations on a point set.
pub trait VecExt: View<V = Seq<Point>> + Sized {
    /// Keep exactly the points inside the closed box widened by one unit on
    /// every side, `[p0.x−1, p1.x+1] × [p0.y−1, p1.y+1]`; the survivors come
    /// back sorted by y.
    fn scissor(&mut self, p0: Point, p1: Point)
        ensures
            final(self)@.to_multiset() == old(self)@.filter(
                |p: Point| in_margin_box(p, p0, p1)).to_multiset(),
            sorted_by_y(final(self)@);

    /// Keep exactly the points inside the half-open box
    /// `[p0.x, p1.x) × [p0.y, p1.y)`, in their original order.
    fn scissor_iter(&mut self, p0: Point, p1: Point)
        ensures
            final(self)@ == old(self)@.filter(|p: Point| in_half_open_box(p, p0, p1));

    /// Add `(x, y)` to every point.
    fn translate(&mut self, x: i32, y: i32)
        ensures
            final(self)@ == old(self)@.map_values(
                |p: Point| translate_pt(p, x as int, y as int));

    /// Rotate every point about the origin by `a` whole degrees.
    fn rotate(&mut self, a: i32)
        ensures
            final(self)@ == old(self)@.map_values(
                |p: Point| rotate_pt(p, crate::trig::sin_mdeg(a as int), crate::trig::cos_mdeg(a as int)));

    /// Scale each coordinate by a factor in thousandths; both factors must be
    /// non-negative.
    fn scale(&mut self, a: i32, b: i32)
        requires
            a >= 0,
            b >= 0,
        ensures
            final(self)@ == old(self)@.map_values(
                |p: Point| scale_pt(p, a as int, b as int));

    /// Append all points of `other`.
    fn add(self, other: Vec<Point>) -> (r: Vec<Point>)
        ensures
            r@ == self@ + other@;
}

/// Compute one rotated point from fixed-point sine and cosine.
fn rotate_pt_exec(p: Point, s: i32, c: i32) -> (r: Point)
    requires
        -1000 <= s <= 1000,
        -1000 <= c <= 1000,
    ensures
        r == rotate_pt(p, s as int, c as int),
{
    proof {
        assert(-3_000_000_000_000 <= (p.0 as int) * (c as int) <= 3_000_000_000_000
            && -3_000_000_000_000 <= (p.1 as int) * (s as int) <= 3_000_000_000_000
            && -3_000_000_000_000 <= (p.0 as int) * (s as int) <= 3_000_000_000_000
            && -3_000_000_000_000 <= (p.1 as int) * (c as int) <= 3_000_000_000_000)
            by (nonlinear_arith)
            requires
                -0x8000_0000 <= p.0 as int <= 0x8000_0000,
                -0x8000_0000 <= p.1 as int <= 0x8000_0000,
                -1000 <= s as int <= 1000,
                -1000 <= c as int <= 1000,
        ;
    }
    let xt: i64 = (p.0 as i64) * (c as i64) + (p.1 as i64) * (s as i64);
    let yt: i64 = (p.0 as i64) * (s as i64) + (p.1 as i64) * (c as i64);
    let nx = clip_i128(trunc_div_i64(xt, 1000) as i128);
    let ny = clip_i128(trunc_div_i64(yt, 1000) as i128);
    (nx, ny)
}

/// Compute one scaled point from fixed-point non-negative factors.
fn scale_pt_exec(p: Point, sx: i32, sy: i32) -> (r: Point)
    requires
        sx >= 0,
        sy >= 0,
    ensures
        r == scale_pt(p, sx as int, sy as int),
{
    proof {
        assert(-5_000_000_000_000_000_000 <= (p.0 as int) * (sx as int) <= 5_000_000_000_000_000_000
            && -5_000_000_000_000_000_000 <= (p.1 as int) * (sy as int) <= 5_000_000_000_000_000_000)
            by (nonlinear_arith)
            requires
                -0x8000_0000 <= p.0 as int <= 0x8000_0000,
                -0x8000_0000 <= p.1 as int <= 0x8000_0000,
                0 <= sx as int <= 0x8000_0000,
                0 <= sy as int <= 0x8000_0000,
        ;
    }
    let xt: i64 = (p.0 as i64) * (sx as i64);
    let yt: i64 = (p.1 as i64) * (sy as i64);
    let nx = clip_i128(trunc_div_i64(xt, 1000) as i128);
    let ny = clip_i128(trunc_div_i64(yt, 1000) as i128);
    (nx, ny)
}

} // verus!

verus! {

/// Read the keyed coordinate of a point, widened.
fn axis_val(p: Point, by_y: bool) -> (r: i64)
    ensures
        r as int == axis(p, by_y),
{
    if by_y {
        p.1 as i64
    } else {
        p.0 as i64
    }
}

/// Sort the points by the chosen axis; the contents are kept exactly.
fn sort_points(v: &mut Vec<Point>, by_y: bool)
    ensures
        sorted_by_axis(final(v)@, by_y),
        final(v)@.to_multiset() == old(v)@.to_multiset(),
        final(v)@.len() == old(v)@.len(),
{
    broadcast use vstd::seq_lib::group_to_multiset_ensures;

    let mut out: Vec<Point> = Vec::new();
    let mut i: usize = 0;
    while i < v.len()
        invariant
            i <= v@.len(),
            sorted_by_axis(out@, by_y),
            out@.to_multiset() == v@.take(i as int).to_multiset(),
            out@.len() == i,
        decreases v@.len() - i,
    {
        let p = v[i];
        let pk = axis_val(p, by_y);
        let mut j: usize = 0;
        while j < out.len()
            invariant_except_break
                j <= out@.len(),
                forall|k: int| 0 <= k < j ==> axis(out@[k], by_y) <= axis(p, by_y),
                sorted_by_axis(out@, by_y),
                pk as int == axis(p, by_y),
            ensures
                j <= out@.len(),
                forall|k: int| 0 <= k < j ==> axis(out@[k], by_y) <= axis(p, by_y),
                j < out@.len() ==> axis(out@[j as int], by_y) > axis(p, by_y),
                sorted_by_axis(out@, by_y),
                pk as int == axis(p, by_y),
            decreases out@.len() - j,
        {
            if axis_val(out[j], by_y) > pk {
                break;
            }
            j = j + 1;
        }
        let ghost before = out@;
        out.insert(j, p);
        proof {
            vstd::seq_lib::to_multiset_insert(before, j as int, p);
            assert(out@.to_multiset() == before.to_multiset().insert(p));
            assert(v@.take(i as int + 1).drop_last() =~= v@.take(i as int));
            assert(v@.take(i as int + 1) =~= v@.take(i as int).push(p));
            vstd::seq_lib::to_multiset_build(v@.take(i as int), p);
            assert(v@.take(i as int).push(p).to_multiset()
                =~= v@.take(i as int).to_multiset().insert(p));
            assert(out@.to_multiset() == v@.take(i as int + 1).to_multiset());
            assert forall|m: int, n: int| 0 <= m < n < out@.len()
                implies axis(out@[m], by_y) <= axis(out@[n], by_y) by {
                if n == j {
                    assert(out@[m] == before[m]);
                    assert(axis(out@[m], by_y) <= axis(p, by_y));
                } else if m == j {
                    assert(j < before.len());
                    assert(out@[n] == before[n - 1]);
                    assert(axis(before[j as int], by_y) > axis(p, by_y));
                    assert(axis(before[j as int], by_y) <= axis(before[n - 1], by_y)
                        || j as int == n - 1);
                } else if n < j {
                    assert(out@[m] == before[m] && out@[n] == before[n]);
                } else if m > j {
                    assert(out@[m] == before[m - 1] && out@[n] == before[n - 1]);
                } else {
                    assert(out@[m] == before[m] && out@[n] == before[n - 1]);
                    assert(m <= n - 1);
                    assert(m == n - 1 || axis(before[m], by_y) <= axis(before[n - 1], by_y));
                }
            }
        }
        i = i + 1;
    }
    proof {
        assert(v@.take(v@.len() as int) =~= v@);
    }
    *v = out;
}

/// First index whose keyed coordinate is at least `key`, by binary search
/// over a sorted sequence.
fn lower_bound(v: &Vec<Point>, key: i64, by_y: bool) -> (r: usize)
    requires
        sorted_by_axis(v@, by_y),
    ensures
        r <= v@.len(),
        forall|i: int| 0 <= i < r ==> axis(v@[i], by_y) < key as int,
        forall|i: int| r <= i < v@.len() ==> axis(v@[i], by_y) >= key as int,
{
    let mut lo: usize = 0;
    let mut hi: usize = v.len();
    while lo < hi
        invariant
            lo <= hi <= v@.len(),
            sorted_by_axis(v@, by_y),
            forall|i: int| 0 <= i < lo ==> axis(v@[i], by_y) < key as int,
            forall|i: int| hi <= i < v@.len() ==> axis(v@[i], by_y) >= key as int,
        decreases hi - lo,
    {
        let mid = lo + (hi - lo) / 2;
        if axis_val(v[mid], by_y) < key {
            lo = mid + 1;
        } else {
            hi = mid;
        }
    }
    lo
}

/// First index whose keyed coordinate exceeds `key`, by binary search over a
/// sorted sequence.
fn upper_bound(v: &Vec<Point>, key: i64, by_y: bool) -> (r: usize)
    requires
        sorted_by_axis(v@, by_y),
    ensures
        r <= v@.len(),
        forall|i: int| 0 <= i < r ==> axis(v@[i], by_y) <= key as int,
        forall|i: int| r <= i < v@.len() ==> axis(v@[i], by_y) > key as int,
{
    let mut lo: usize = 0;
    let mut hi: usize = v.len();
    while lo < hi
        invariant
            lo <= hi <= v@.len(),
            sorted_by_axis(v@, by_y),
            forall|i: int| 0 <= i < lo ==> axis(v@[i], by_y) <= key as int,
            forall|i: int| hi <= i < v@.len() ==> axis(v@[i], by_y) > key as int,
        decreases hi - lo,
    {
        let mid = lo + (hi - lo) / 2;
        if axis_val(v[mid], by_y) <= key {
            lo = mid + 1;
        } else {
            hi = mid;
        }
    }
    lo
}

/// When a predicate holds exactly on the index block `[lo, hi)` of a
/// sequence, filtering by it yields exactly that block.
proof fn lemma_filter_is_block(s: Seq<Point>, pred: spec_fn(Point) -> bool, lo: int, hi: int)
    requires
        0 <= lo <= hi <= s.len(),
        forall|i: int| 0 <= i < lo ==> !pred(s[i]),
        forall|i: int| lo <= i < hi ==> pred(s[i]),
        forall|i: int| hi <= i < s.len() ==> !pred(s[i]),
    ensures
        s.filter(pred) == s.subrange(lo, hi),
    decreases s.len(),
{
    reveal(Seq::filter);
    if s.len() == 0 {
        assert(s.filter(pred) =~= s.subrange(lo, hi));
    } else {
        let last = s.last();
        let s2 = s.drop_last();
        if hi == s.len() && lo < hi {
            lemma_filter_is_block(s2, pred, lo, hi - 1);
            assert(s.filter(pred) =~= s.subrange(lo, hi)) by {
                assert(s.filter(pred) == s2.filter(pred) + seq![last]);
                assert(s.subrange(lo, hi) =~= s2.subrange(lo, hi - 1) + seq![last]);
            }
        } else {
            let lo2 = if lo < s.len() { lo } else { s.len() - 1 };
            let hi2 = if hi < s.len() { hi } else { s.len() - 1 };
            lemma_filter_is_block(s2, pred, lo2, hi2);
            assert(!pred(last));
            assert(s.filter(pred) == s2.filter(pred));
            assert(s.filter(pred) =~= s.subrange(lo, hi)) by {
                assert(s2.subrange(lo2, hi2) =~= s.subrange(lo, hi));
            }
        }
    }
}

/// Filtering a sequence and converting to a multiset is the same as
/// filtering its multiset.
proof fn lemma_filter_to_multiset(s: Seq<Point>, pred: spec_fn(Point) -> bool)
    ensures
        s.filter(pred).to_multiset() == s.to_multiset().filter(pred),
    decreases s.len(),
{
    broadcast use vstd::seq_lib::group_to_multiset_ensures;
    broadcast use vstd::multiset::group_multiset_axioms;

    reveal(Seq::filter);
    if s.len() == 0 {
        assert(s.to_multiset() =~= Multiset::<Point>::empty());
        assert(s.filter(pred).to_multiset() =~= s.to_multiset().filter(pred));
    } else {
        let last = s.last();
        let s2 = s.drop_last();
        lemma_filter_to_multiset(s2, pred);
        assert(s2.push(last) =~= s);
        assert(s.to_multiset() =~= s2.to_multiset().insert(last));
        if pred(last) {
            assert(s.filter(pred) == s2.filter(pred) + seq![last]);
            assert(s.filter(pred) =~= s2.filter(pred).push(last));
            assert(s.filter(pred).to_multiset() =~= s2.filter(pred).to_multiset().insert(last));
            assert(s.to_multiset().filter(pred) =~= s2.to_multiset().filter(pred).insert(last));
        } else {
            assert(s.filter(pred) == s2.filter(pred));
            assert(s.to_multiset().filter(pred) =~= s2.to_multiset().filter(pred));
        }
    }
}

} // verus!

verus! {

impl VecExt for Vec<Point> {
    fn scissor(&mut self, p0: Point, p1: Point) {
        broadcast use vstd::multiset::group_multiset_axioms;

        let ghost orig = self@;
        let ghost boxpred = |p: Point| in_margin_box(p, p0, p1);
        let ghost predx = |p: Point| p0.0 - 1 <= axis(p, false) <= p1.0 + 1;
        let ghost predy = |p: Point| p0.1 - 1 <= axis(p, true) <= p1.1 + 1;
        sort_points(self, false);
        let ghost s1 = self@;
        let lo = lower_bound(self, p0.0 as i64 - 1, false);
        let hi = upper_bound(self, p1.0 as i64 + 1, false);
        let lo2 = if lo > hi { hi } else { lo };
        self.truncate(hi);
        let tail = self.split_off(lo2);
        *self = tail;
        proof {
            lemma_filter_is_block(s1, predx, lo2 as int, hi as int);
            assert(self@ =~= s1.subrange(lo2 as int, hi as int));
            assert(self@ == s1.filter(predx));
            lemma_filter_to_multiset(s1, predx);
        }
        let ghost s2 = self@;
        sort_points(self, true);
        let ghost s3 = self@;
        let lo_y = lower_bound(self, p0.1 as i64 - 1, true);
        let hi_y = upper_bound(self, p1.1 as i64 + 1, true);
        let lo2_y = if lo_y > hi_y { hi_y } else { lo_y };
        self.truncate(hi_y);
        let tail_y = self.split_off(lo2_y);
        *self = tail_y;
        proof {
            lemma_filter_is_block(s3, predy, lo2_y as int, hi_y as int);
            assert(self@ =~= s3.subrange(lo2_y as int, hi_y as int));
            assert(self@ == s3.filter(predy));
            lemma_filter_to_multiset(s3, predy);
            lemma_filter_to_multiset(orig, boxpred);
            assert(self@.to_multiset() =~= orig.to_multiset().filter(boxpred)) by {
                assert(self@.to_multiset() == s3.to_multiset().filter(predy));
                assert(s3.to_multiset() == s2.to_multiset());
                assert(s2.to_multiset() == s1.to_multiset().filter(predx));
                assert(s1.to_multiset() == orig.to_multiset());
            }
            assert(self@.to_multiset() == orig.filter(boxpred).to_multiset());
            assert(sorted_by_y(self@)) by {
                assert forall|i: int, j: int| 0 <= i < j < self@.len()
                    implies axis(self@[i], true) <= axis(self@[j], true) by {
                    assert(self@[i] == s3[lo2_y + i] && self@[j] == s3[lo2_y + j]);
                }
            }
        }
    }

    fn scissor_iter(&mut self, p0: Point, p1: Point) {
        let ghost orig = self@;
        let ghost pred = |p: Point| in_half_open_box(p, p0, p1);
        let mut out: Vec<Point> = Vec::new();
        let mut i: usize = 0;
        while i < self.len()
            invariant
                i <= self@.len(),
                self@ == orig,
                pred == (|p: Point| in_half_open_box(p, p0, p1)),
                out@ == orig.take(i as int).filter(pred),
            decreases self@.len() - i,
        {
            let p = self[i];
            proof {
                reveal(Seq::filter);
                assert(orig.take(i as int + 1).drop_last() =~= orig.take(i as int));
                assert(orig.take(i as int + 1).last() == p);
            }
            if p.0 >= p0.0 && p.0 < p1.0 && p.1 >= p0.1 && p.1 < p1.1 {
                out.push(p);
                proof {
                    assert(out@ =~= orig.take(i as int + 1).filter(pred));
                }
            } else {
                proof {
                    assert(out@ =~= orig.take(i as int + 1).filter(pred));
                }
            }
            i = i + 1;
        }
        proof {
            assert(orig.take(orig.len() as int) =~= orig);
        }
        *self = out;
    }

    fn translate(&mut self, x: i32, y: i32) {
        let ghost orig = self@;
        let n = self.len();
        let mut i: usize = 0;
        while i < n
            invariant
                i <= n,
                n == self@.len(),
                self@.len() == orig.len(),
                forall|j: int| 0 <= j < i ==> self@[j] == translate_pt(orig[j], x as int, y as int),
                forall|j: int| i <= j < n ==> self@[j] == orig[j],
            decreases n - i,
        {
            let p = self[i];
            let np = (clip_i128(p.0 as i128 + x as i128), clip_i128(p.1 as i128 + y as i128));
            self.set(i, np);
            i = i + 1;
        }
        proof {
            assert(self@ =~= orig.map_values(|p: Point| translate_pt(p, x as int, y as int)));
        }
    }

    fn rotate(&mut self, a: i32) {
        let s = crate::trig::sin_milli(a);
        let c = crate::trig::cos_milli(a);
        let ghost orig = self@;
        let n = self.len();
        let mut i: usize = 0;
        while i < n
            invariant
                i <= n,
                n == self@.len(),
                self@.len() == orig.len(),
                -1000 <= s <= 1000,
                -1000 <= c <= 1000,
                s as int == crate::trig::sin_mdeg(a as int),
                c as int == crate::trig::cos_mdeg(a as int),
                forall|j: int| 0 <= j < i ==> self@[j] == rotate_pt(orig[j], s as int, c as int),
                forall|j: int| i <= j < n ==> self@[j] == orig[j],
            decreases n - i,
        {
            let p = self[i];
            let np = rotate_pt_exec(p, s, c);
            self.set(i, np);
            i = i + 1;
        }
        proof {
            assert(self@ =~= orig.map_values(
                |p: Point| rotate_pt(p, crate::trig::sin_mdeg(a as int), crate::trig::cos_mdeg(a as int))));
        }
    }

    fn scale(&mut self, a: i32, b: i32) {
        let ghost orig = self@;
        let n = self.len();
        let mut i: usize = 0;
        while i < n
            invariant
                i <= n,
                n == self@.len(),
                self@.len() == orig.len(),
                a >= 0,
                b >= 0,
                forall|j: int| 0 <= j < i ==> self@[j] == scale_pt(orig[j], a as int, b as int),
                forall|j: int| i <= j < n ==> self@[j] == orig[j],
            decreases n - i,
        {
            let p = self[i];
            let np = scale_pt_exec(p, a, b);
            self.set(i, np);
            i = i + 1;
        }
        proof {
            assert(self@ =~= orig.map_values(|p: Point| scale_pt(p, a as int, b as int)));
        }
    }

    fn add(self, other: Vec<Point>) -> (r: Vec<Point>) {
        let mut joined = self;
        let mut rest = other;
        joined.append(&mut rest);
        joined
    }
}

} // verus!
