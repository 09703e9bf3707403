//! The points of a line on the pixel grid, as Bresenham's walk visits them.

use vstd::prelude::*;

verus! {

/// Distance between two integers.
pub open spec fn dist(a: int, b: int) -> int {
    if a <= b {
        b - a
    } else {
        a - b
    }
}

/// The unit step that moves `a` toward `b`.
pub open spec fn step_toward(a: int, b: int) -> int {
    if a < b {
        1
    } else if a > b {
        -1
    } else {
        0
    }
}

/// The points visited by the walk from `(x, y)` to `(x1, y1)` with error
/// term `err`, for a line whose horizontal extent is `dx` and whose vertical
/// extent is `-dy`. Each point is followed by a step in x (when `2 * err >=
/// dy`), in y (when `2 * err <= dx`) or both; the walk ends at `(x1, y1)`,
/// or as soon as a step is due along an axis whose target is reached.
pub open spec fn walk(x: int, y: int, x1: int, y1: int, dx: int, dy: int, err: int) -> Seq<
    (int, int),
>
    decreases dist(x, x1) + dist(y, y1),
{
    if x == x1 && y == y1 {
        seq![(x, y)]
    } else {
        let xs = 2 * err >= dy;
        let ys = 2 * err <= dx;
        if xs && x == x1 {
            seq![(x, y)]
        } else if ys && y == y1 {
            seq![(x, y)]
        } else if !xs && !ys {
            seq![(x, y)]
        } else {
            let nx = if xs {
                x + step_toward(x, x1)
            } else {
                x
            };
            let ny = if ys {
                y + step_toward(y, y1)
            } else {
                y
            };
            let nerr = err + (if xs {
                dy
            } else {
                0
            }) + (if ys {
                dx
            } else {
                0
            });
            seq![(x, y)] + walk(nx, ny, x1, y1, dx, dy, nerr)
        }
    }
}

/// The points of the line from `(x0, y0)` to `(x1, y1)`, in the order they
/// are drawn.
pub open spec fn line_points(x0: int, y0: int, x1: int, y1: int) -> Seq<(int, int)> {
    let dx = dist(x0, x1);
    let dy = -dist(y0, y1);
    walk(x0, y0, x1, y1, dx, dy, dx + dy)
}


/// Whether `v` lies between `a` and `b`, ends included.
pub open spec fn between(a: int, b: int, v: int) -> bool {
    (a <= v <= b) || (b <= v <= a)
}

/// The walk's error term keeps Bresenham's invariant: with `a` and `b` the
/// distances still to go along x and y, `err == dx - dy_len + a * dy_len - b * dx`.
pub open spec fn on_track(x: int, y: int, x1: int, y1: int, dx: int, dy: int, err: int) -> bool {
    let a = dist(x, x1);
    let b = dist(y, y1);
    &&& dx >= 0
    &&& dy <= 0
    &&& a <= dx
    &&& b <= -dy
    &&& err == dx + dy + a * (-dy) - b * dx
}

proof fn lemma_track_step(a: int, b: int, dx: int, d: int, err: int, xs: bool, ys: bool)
    by (nonlinear_arith)
    requires
        err == dx - d + a * d - b * dx,
    ensures
        err + (if xs { -d } else { 0 }) + (if ys { dx } else { 0 }) == dx - d + (a - (if xs { 1int } else { 0int })) * d - (b - (if ys { 1int } else { 0int })) * dx,
{
}

proof fn lemma_track_bounds(a: int, b: int, dx: int, d: int)
    by (nonlinear_arith)
    requires
        0 <= a <= dx,
        0 <= b <= d,
    ensures
        a == 0 && b >= 1 ==> dx - d + a * d - b * dx <= -d,
        b == 0 && a >= 1 ==> dx - d + a * d - b * dx >= dx,
{
}

/// A walk on track visits points one step apart (in x, in y or both), and
/// ends at its target.
proof fn lemma_walk_on_track(x: int, y: int, x1: int, y1: int, dx: int, dy: int, err: int)
    requires
        on_track(x, y, x1, y1, dx, dy, err),
    ensures
        ({
            let w = walk(x, y, x1, y1, dx, dy, err);
            &&& w.len() >= 1
            &&& w[0] == (x, y)
            &&& w.last() == (x1, y1)
            &&& forall|k: int|
                0 <= k < w.len() - 1 ==> dist(#[trigger] w[k].0, w[k + 1].0) <= 1 && dist(w[k].1, w[k + 1].1)
                    <= 1 && w[k] != w[k + 1]
            &&& forall|k: int|
                0 <= k < w.len() ==> between(x, x1, #[trigger] w[k].0) && between(y, y1, w[k].1)
        }),
    decreases dist(x, x1) + dist(y, y1),
{
    let w = walk(x, y, x1, y1, dx, dy, err);
    if x == x1 && y == y1 {
    } else {
        let a = dist(x, x1);
        let b = dist(y, y1);
        let d = -dy;
        let xs = 2 * err >= dy;
        let ys = 2 * err <= dx;
        lemma_track_bounds(a, b, dx, d);
        assert(!(xs && x == x1));
        assert(!(ys && y == y1));
        assert(xs || ys);
        let nx = if xs { x + step_toward(x, x1) } else { x };
        let ny = if ys { y + step_toward(y, y1) } else { y };
        let nerr = err + (if xs { dy } else { 0 }) + (if ys { dx } else { 0 });
        lemma_track_step(a, b, dx, d, err, xs, ys);
        assert(dist(nx, x1) == a - (if xs { 1int } else { 0int }));
        assert(dist(ny, y1) == b - (if ys { 1int } else { 0int }));
        lemma_walk_on_track(nx, ny, x1, y1, dx, dy, nerr);
        let rest = walk(nx, ny, x1, y1, dx, dy, nerr);
        assert(w == seq![(x, y)] + rest);
        assert forall|k: int| 0 <= k < w.len() - 1 implies dist(#[trigger] w[k].0, w[k + 1].0) <= 1
            && dist(w[k].1, w[k + 1].1) <= 1 && w[k] != w[k + 1] by {
            if k > 0 {
                assert(w[k] == rest[k - 1]);
                assert(w[k + 1] == rest[k]);
                assert(dist(rest[k - 1].0, rest[k].0) <= 1 && dist(rest[k - 1].1, rest[k].1) <= 1
                    && rest[k - 1] != rest[k]);
            } else {
                assert(w[1] == rest[0]);
            }
        }
        assert forall|k: int| 0 <= k < w.len() implies between(x, x1, #[trigger] w[k].0)
            && between(y, y1, w[k].1) by {
            if k > 0 {
                assert(w[k] == rest[k - 1]);
                assert(0 <= k - 1 < rest.len());
                assert(between(nx, x1, rest[k - 1].0));
                assert(between(ny, y1, rest[k - 1].1));
                assert(between(x, x1, nx) && between(y, y1, ny));
            }
        }
    }
}

pub open spec fn abs(v: int) -> int {
    if v < 0 {
        -v
    } else {
        v
    }
}

pub open spec fn max(a: int, b: int) -> int {
    if a < b {
        b
    } else {
        a
    }
}

proof fn lemma_index_step(k: int, s: int)
    by (nonlinear_arith)
    ensures
        (k - 1) * s + s == k * s,
        0 * s == 0,
{
}

/// A walk on track whose error term stays within half a step of the ideal
/// line: every point keeps that bound, and along the major axis the walk
/// takes a step at every point.
proof fn lemma_walk_balanced(x: int, y: int, x1: int, y1: int, dx: int, dy: int, err: int)
    requires
        on_track(x, y, x1, y1, dx, dy, err),
        2 * abs(err - dx - dy) <= max(dx, -dy),
    ensures
        ({
            let w = walk(x, y, x1, y1, dx, dy, err);
            &&& forall|k: int|
                0 <= k < w.len() ==> 2 * abs(dist(#[trigger] w[k].0, x1) * (-dy) - dist(w[k].1, y1)
                    * dx) <= max(dx, -dy)
            &&& dx >= -dy ==> w.len() == dist(x, x1) + 1 && forall|k: int|
                0 <= k < w.len() ==> #[trigger] w[k].0 == x + k * step_toward(x, x1)
            &&& -dy >= dx ==> w.len() == dist(y, y1) + 1 && forall|k: int|
                0 <= k < w.len() ==> #[trigger] w[k].1 == y + k * step_toward(y, y1)
        }),
    decreases dist(x, x1) + dist(y, y1),
{
    let w = walk(x, y, x1, y1, dx, dy, err);
    let a = dist(x, x1);
    let b = dist(y, y1);
    let d = -dy;
    lemma_index_step(0, step_toward(x, x1));
    lemma_index_step(0, step_toward(y, y1));
    if x == x1 && y == y1 {
    } else {
        let xs = 2 * err >= dy;
        let ys = 2 * err <= dx;
        lemma_track_bounds(a, b, dx, d);
        assert(!(xs && x == x1));
        assert(!(ys && y == y1));
        assert(dx >= d ==> xs);
        assert(d >= dx ==> ys);
        let nx = if xs { x + step_toward(x, x1) } else { x };
        let ny = if ys { y + step_toward(y, y1) } else { y };
        let nerr = err + (if xs { dy } else { 0 }) + (if ys { dx } else { 0 });
        lemma_track_step(a, b, dx, d, err, xs, ys);
        assert(dist(nx, x1) == a - (if xs { 1int } else { 0int }));
        assert(dist(ny, y1) == b - (if ys { 1int } else { 0int }));
        assert(2 * abs(nerr - dx - dy) <= max(dx, -dy));
        lemma_walk_balanced(nx, ny, x1, y1, dx, dy, nerr);
        let rest = walk(nx, ny, x1, y1, dx, dy, nerr);
        assert(w == seq![(x, y)] + rest);
        assert forall|k: int| 0 <= k < w.len() implies 2 * abs(dist(#[trigger] w[k].0, x1) * (-dy)
            - dist(w[k].1, y1) * dx) <= max(dx, -dy) by {
            if k > 0 {
                assert(w[k] == rest[k - 1]);
                assert(0 <= k - 1 < rest.len());
                assert(2 * abs(dist(rest[k - 1].0, x1) * (-dy) - dist(rest[k - 1].1, y1) * dx)
                    <= max(dx, -dy));
            }
        }
        if dx >= d {
            assert forall|k: int| 0 <= k < w.len() implies #[trigger] w[k].0 == x + k
                * step_toward(x, x1) by {
                if k > 0 {
                    assert(w[k] == rest[k - 1]);
                    assert(0 <= k - 1 < rest.len());
                    assert(rest[k - 1].0 == nx + (k - 1) * step_toward(nx, x1));
                    lemma_index_step(k, step_toward(x, x1));
                    if nx != x1 {
                        assert(step_toward(nx, x1) == step_toward(x, x1));
                    } else {
                        assert(k - 1 == 0);
                        lemma_index_step(1, step_toward(x, x1));
                    }
                }
            }
        }
        if d >= dx {
            assert forall|k: int| 0 <= k < w.len() implies #[trigger] w[k].1 == y + k
                * step_toward(y, y1) by {
                if k > 0 {
                    assert(w[k] == rest[k - 1]);
                    assert(0 <= k - 1 < rest.len());
                    assert(rest[k - 1].1 == ny + (k - 1) * step_toward(ny, y1));
                    lemma_index_step(k, step_toward(y, y1));
                    if ny != y1 {
                        assert(step_toward(ny, y1) == step_toward(y, y1));
                    } else {
                        assert(k - 1 == 0);
                        lemma_index_step(1, step_toward(y, y1));
                    }
                }
            }
        }
    }
}

/// A drawn line starts at its first end and finishes at its second; each
/// point is one step (along x, y or a diagonal) from the one before, and no
/// point lies beyond the ends.
pub proof fn law_line_joins_its_ends(x0: int, y0: int, x1: int, y1: int)
    ensures
        ({
            let pts = line_points(x0, y0, x1, y1);
            &&& pts.len() >= 1
            &&& pts[0] == (x0, y0)
            &&& pts.last() == (x1, y1)
            &&& forall|k: int|
                0 <= k < pts.len() - 1 ==> dist(#[trigger] pts[k].0, pts[k + 1].0) <= 1 && dist(pts[k].1, pts[k + 1].1)
                    <= 1 && pts[k] != pts[k + 1]
            &&& forall|k: int|
                0 <= k < pts.len() ==> between(x0, x1, #[trigger] pts[k].0) && between(y0, y1, pts[k].1)
        }),
{
    let dx = dist(x0, x1);
    let dy = -dist(y0, y1);
    assert(dx + dy == dx + dy + dx * (-dy) - (-dy) * dx) by (nonlinear_arith);
    lemma_walk_on_track(x0, y0, x1, y1, dx, dy, dx + dy);
}


proof fn lemma_cross_signed(u: int, v: int, dx: int, d: int, a: int, b: int, s1: int, s2: int)
    by (nonlinear_arith)
    requires
        s1 == 1 || s1 == -1,
        s2 == 1 || s2 == -1,
        u == s1 * (dx - a),
        v == s2 * (d - b),
    ensures
        abs(u * (s2 * d) - v * (s1 * dx)) == abs(a * d - b * dx),
{
}

/// The cross product of a point's offset from the first end with the
/// line's direction, in terms of the distances still to go.
proof fn lemma_cross(x0: int, y0: int, x1: int, y1: int, px: int, py: int)
    requires
        between(x0, x1, px),
        between(y0, y1, py),
    ensures
        abs((px - x0) * (y1 - y0) - (py - y0) * (x1 - x0)) == abs(dist(px, x1) * dist(y0, y1)
            - dist(py, y1) * dist(x0, x1)),
{
    let dx = dist(x0, x1);
    let d = dist(y0, y1);
    let a = dist(px, x1);
    let b = dist(py, y1);
    if x0 <= x1 {
        if y0 <= y1 {
            lemma_cross_signed(px - x0, py - y0, dx, d, a, b, 1, 1);
        } else {
            lemma_cross_signed(px - x0, py - y0, dx, d, a, b, 1, -1);
        }
    } else {
        if y0 <= y1 {
            lemma_cross_signed(px - x0, py - y0, dx, d, a, b, -1, 1);
        } else {
            lemma_cross_signed(px - x0, py - y0, dx, d, a, b, -1, -1);
        }
    }
}

/// Bresenham's line: every point lies within half a pixel of the ideal
/// segment along the minor axis, i.e. twice the cross product of its offset
/// with the line's direction is at most the major extent; and the line has
/// exactly one point per step along its major axis, in order.
pub proof fn law_line_follows_the_segment(x0: int, y0: int, x1: int, y1: int)
    ensures
        ({
            let pts = line_points(x0, y0, x1, y1);
            let dx = dist(x0, x1);
            let dyl = dist(y0, y1);
            &&& forall|k: int|
                0 <= k < pts.len() ==> 2 * abs((#[trigger] pts[k].0 - x0) * (y1 - y0) - (pts[k].1
                    - y0) * (x1 - x0)) <= max(dx, dyl)
            &&& dx >= dyl ==> pts.len() == dx + 1 && forall|k: int|
                0 <= k < pts.len() ==> #[trigger] pts[k].0 == x0 + k * step_toward(x0, x1)
            &&& dyl >= dx ==> pts.len() == dyl + 1 && forall|k: int|
                0 <= k < pts.len() ==> #[trigger] pts[k].1 == y0 + k * step_toward(y0, y1)
        }),
{
    let dx = dist(x0, x1);
    let dy = -dist(y0, y1);
    assert(dx + dy == dx + dy + dx * (-dy) - (-dy) * dx) by (nonlinear_arith);
    lemma_walk_on_track(x0, y0, x1, y1, dx, dy, dx + dy);
    lemma_walk_balanced(x0, y0, x1, y1, dx, dy, dx + dy);
    let pts = line_points(x0, y0, x1, y1);
    assert forall|k: int| 0 <= k < pts.len() implies 2 * abs((#[trigger] pts[k].0 - x0) * (y1
        - y0) - (pts[k].1 - y0) * (x1 - x0)) <= max(dx, -dy) by {
        lemma_cross(x0, y0, x1, y1, pts[k].0, pts[k].1);
        assert(abs(dist(pts[k].0, x1) * (-dy) - dist(pts[k].1, y1) * dx) == abs(dist(pts[k].0, x1)
            * dist(y0, y1) - dist(pts[k].1, y1) * dist(x0, x1)));
    }
}

} // verus!
