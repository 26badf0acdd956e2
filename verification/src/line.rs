//! Bresenham's line: which pixels approximate the segment between two pixels.
//!
//! A line from `(x0, y0)` to `(x1, y1)` is walked in unit steps along each
//! axis. After `i` steps along x and `j` steps along y, the error term of the
//! algorithm is `(j + 1) * dx - (i + 1) * dy` (with `dx`, `dy` the absolute
//! extents); the next step goes along x when twice the error exceeds `-dy`, and
//! along y when it is below `dx`.
use vstd::prelude::*;

verus! {

/// Distance between `a` and `b` along one axis.
pub open spec fn span(a: int, b: int) -> int {
    if a <= b {
        b - a
    } else {
        a - b
    }
}

/// The coordinate `n` unit steps from `a` in the direction of `b`
/// (downwards when `a` is not below `b`).
pub open spec fn toward(a: int, b: int, n: int) -> int {
    if a < b {
        a + n
    } else {
        a - n
    }
}

/// The longer of the two extents.
pub open spec fn major(dx: int, dy: int) -> int {
    if dx >= dy {
        dx
    } else {
        dy
    }
}

/// The error term after `i` steps along x and `j` steps along y.
pub open spec fn step_error(dx: int, dy: int, i: int, j: int) -> int {
    (j + 1) * dx - (i + 1) * dy
}

/// One step of the walk: the step counts along each axis after the next move.
pub open spec fn next_offsets(dx: int, dy: int, i: int, j: int) -> (int, int) {
    let e = step_error(dx, dy, i, j);
    (if 2 * e > -dy { i + 1 } else { i }, if 2 * e < dx { j + 1 } else { j })
}

/// The step counts along each axis after `k` moves.
pub open spec fn offsets(dx: int, dy: int, k: nat) -> (int, int)
    decreases k,
{
    if k == 0 {
        (0, 0)
    } else {
        let prev = offsets(dx, dy, (k - 1) as nat);
        next_offsets(dx, dy, prev.0, prev.1)
    }
}

/// The `k`-th pixel of the line from `(x0, y0)` to `(x1, y1)`.
pub open spec fn line_point(x0: int, y0: int, x1: int, y1: int, k: int) -> (int, int) {
    let o = offsets(span(x0, x1), span(y0, y1), k as nat);
    (toward(x0, x1, o.0), toward(y0, y1, o.1))
}

/// The pixels of the line from `(x0, y0)` to `(x1, y1)`, in drawing order:
/// one per unit of the longer extent, both ends included.
pub open spec fn line_points(x0: int, y0: int, x1: int, y1: int) -> Seq<(int, int)> {
    Seq::new(
        (major(span(x0, x1), span(y0, y1)) + 1) as nat,
        |k: int| line_point(x0, y0, x1, y1, k),
    )
}

/// How far the point `i` steps along x and `j` along y lies from the ideal
/// segment, scaled by the extents: zero exactly on the segment.
pub open spec fn deviation(dx: int, dy: int, i: int, j: int) -> int {
    j * dx - i * dy
}

/// What holds of the step counts after `k` moves: they stay within the
/// extents, the longer axis advances on every move, and the point is within
/// half a pixel of the ideal segment (a tie goes to the step not yet taken
/// along the shorter axis).
pub open spec fn offsets_ok(dx: int, dy: int, k: int, i: int, j: int) -> bool {
    &&& 0 <= i <= dx
    &&& 0 <= j <= dy
    &&& -major(dx, dy) <= 2 * deviation(dx, dy, i, j) <= major(dx, dy)
    &&& dx >= dy ==> 2 * deviation(dx, dy, i, j) < dx || dx == 0
    &&& dx < dy ==> -dy < 2 * deviation(dx, dy, i, j)
    &&& if dx >= dy {
        i == k
    } else {
        j == k
    }
}

proof fn lemma_error_deviation(dx: int, dy: int, i: int, j: int)
    ensures
        step_error(dx, dy, i, j) == deviation(dx, dy, i, j) + dx - dy,
        deviation(dx, dy, i + 1, j) == deviation(dx, dy, i, j) - dy,
        deviation(dx, dy, i, j + 1) == deviation(dx, dy, i, j) + dx,
        deviation(dx, dy, i + 1, j + 1) == deviation(dx, dy, i, j) + dx - dy,
        deviation(dx, dy, dx, j) == dx * (j - dy),
        deviation(dx, dy, i, dy) == dy * (dx - i),
{
    assert((j + 1) * dx - (i + 1) * dy == j * dx - i * dy + dx - dy) by (nonlinear_arith);
    assert(j * dx - (i + 1) * dy == j * dx - i * dy - dy) by (nonlinear_arith);
    assert((j + 1) * dx - i * dy == j * dx - i * dy + dx) by (nonlinear_arith);
    assert(j * dx - dx * dy == dx * (j - dy)) by (nonlinear_arith);
    assert(dy * dx - i * dy == dy * (dx - i)) by (nonlinear_arith);
}

/// From a state that has not reached the far end, one step keeps
/// `offsets_ok`, moves by at most one along each axis, and always moves
/// along the longer axis.
proof fn lemma_step(dx: int, dy: int, k: int, i: int, j: int)
    requires
        0 <= dx,
        0 <= dy,
        offsets_ok(dx, dy, k, i, j),
        (i, j) != (dx, dy),
    ensures
        offsets_ok(dx, dy, k + 1, next_offsets(dx, dy, i, j).0, next_offsets(dx, dy, i, j).1),
{
    let d = deviation(dx, dy, i, j);
    lemma_error_deviation(dx, dy, i, j);
    let n = next_offsets(dx, dy, i, j);
    if dx >= dy {
        assert(dx > 0);
        if i == dx {
            assert(j < dy);
            assert(dx * (j - dy) <= -dx) by (nonlinear_arith)
                requires
                    j < dy,
                    dx > 0,
            ;
            assert(false);
        }
        if dy == dx {
            assert(d == dx * (j - i)) by (nonlinear_arith)
                requires
                    d == j * dx - i * dy,
                    dy == dx,
            ;
            assert(2 * d != -dx) by (nonlinear_arith)
                requires
                    d == dx * (j - i),
                    dx > 0,
            ;
        }
        assert(n.0 == i + 1);
        if n.1 == j + 1 {
            if j == dy {
                assert(dy * (dx - i) >= dy) by (nonlinear_arith)
                    requires
                        i < dx,
                        dy >= 0,
                ;
                assert(false);
            }
            lemma_error_deviation(dx, dy, i, j);
            assert(deviation(dx, dy, n.0, n.1) == d + dx - dy);
        } else {
            assert(deviation(dx, dy, n.0, n.1) == d - dy);
        }
    } else {
        assert(dy > 0);
        if j == dy {
            assert(i < dx);
            assert(dy * (dx - i) >= dy) by (nonlinear_arith)
                requires
                    i < dx,
                    dy > 0,
            ;
            assert(false);
        }
        assert(n.1 == j + 1);
        if n.0 == i + 1 {
            if i == dx {
                assert(dx * (j - dy) <= -dx) by (nonlinear_arith)
                    requires
                        j < dy,
                        dx >= 0,
                ;
                assert(false);
            }
            assert(deviation(dx, dy, n.0, n.1) == d + dx - dy);
        } else {
            assert(deviation(dx, dy, n.0, n.1) == d + dx);
        }
    }
}

/// The step counts after `k` moves satisfy `offsets_ok`, and the walk has not
/// reached the far end before the last move.
pub proof fn lemma_offsets(dx: int, dy: int, k: nat)
    requires
        0 <= dx,
        0 <= dy,
        k <= major(dx, dy),
    ensures
        offsets_ok(dx, dy, k as int, offsets(dx, dy, k).0, offsets(dx, dy, k).1),
        offsets(dx, dy, k) == (dx, dy) <==> k == major(dx, dy),
    decreases k,
{
    if k > 0 {
        lemma_offsets(dx, dy, (k - 1) as nat);
        let p = offsets(dx, dy, (k - 1) as nat);
        lemma_step(dx, dy, k - 1, p.0, p.1);
    }
    lemma_far_end(dx, dy, k as int, offsets(dx, dy, k).0, offsets(dx, dy, k).1);
}

/// A state allowed by `offsets_ok` is at the far end exactly after `major` moves.
proof fn lemma_far_end(dx: int, dy: int, k: int, i: int, j: int)
    requires
        0 <= dx,
        0 <= dy,
        offsets_ok(dx, dy, k, i, j),
    ensures
        (i, j) == (dx, dy) <==> k == major(dx, dy),
{
    lemma_error_deviation(dx, dy, i, j);
    if dx >= dy {
        if k == dx && dx > 0 {
            // at i == dx the deviation is dx * (j - dy), which is small only when j == dy
            if j < dy {
                assert(dx * (j - dy) <= -dx) by (nonlinear_arith)
                    requires
                        j < dy,
                        dx > 0,
                ;
            }
        }
    } else {
        if k == dy {
            if i < dx {
                assert(dy * (dx - i) >= dy) by (nonlinear_arith)
                    requires
                        i < dx,
                        dy > 0,
                ;
            }
        }
    }
}

/// The error term and the far-end test in terms of the step counts.
pub proof fn lemma_error_deviation_public(dx: int, dy: int, i: int, j: int)
    ensures
        step_error(dx, dy, i, j) == deviation(dx, dy, i, j) + dx - dy,
        step_error(dx, dy, i + 1, j) == step_error(dx, dy, i, j) - dy,
        step_error(dx, dy, i, j + 1) == step_error(dx, dy, i, j) + dx,
        step_error(dx, dy, i + 1, j + 1) == step_error(dx, dy, i, j) + dx - dy,
{
    lemma_error_deviation(dx, dy, i, j);
    lemma_error_deviation(dx, dy, i + 1, j);
    lemma_error_deviation(dx, dy, i, j + 1);
}

/// While the walk is in progress the error term stays within a few extents.
pub proof fn lemma_error_bounds(dx: int, dy: int, k: int, i: int, j: int)
    requires
        0 <= dx,
        0 <= dy,
        offsets_ok(dx, dy, k, i, j),
    ensures
        -2 * major(dx, dy) <= step_error(dx, dy, i, j) <= 2 * major(dx, dy),
{
    lemma_error_deviation(dx, dy, i, j);
}

/// The unit move along one axis from `a` toward `b` (downwards when `a` is not below `b`).
pub open spec fn unit(a: int, b: int) -> int {
    if a < b {
        1
    } else {
        -1
    }
}

/// The line has one pixel per unit of its longer extent plus one, starts at
/// `(x0, y0)` and ends at `(x1, y1)`.
pub proof fn lemma_line_endpoints(x0: int, y0: int, x1: int, y1: int)
    ensures
        line_points(x0, y0, x1, y1).len() == major(span(x0, x1), span(y0, y1)) + 1,
        line_points(x0, y0, x1, y1)[0] == (x0, y0),
        line_points(x0, y0, x1, y1).last() == (x1, y1),
{
    let dx = span(x0, x1);
    let dy = span(y0, y1);
    let m = major(dx, dy);
    lemma_offsets(dx, dy, m as nat);
    assert(line_points(x0, y0, x1, y1)[m] == line_point(x0, y0, x1, y1, m));
    assert(line_points(x0, y0, x1, y1)[0] == line_point(x0, y0, x1, y1, 0));
}

/// Consecutive pixels of the line are neighbours: each coordinate stays or
/// moves one unit toward the far end, the coordinate of the longer extent
/// always moves, so no pixel repeats the one before it.
pub proof fn lemma_line_steps(x0: int, y0: int, x1: int, y1: int, k: int)
    requires
        0 <= k < line_points(x0, y0, x1, y1).len() - 1,
    ensures
        ({
            let p = line_points(x0, y0, x1, y1)[k];
            let q = line_points(x0, y0, x1, y1)[k + 1];
            &&& q.0 == p.0 || q.0 == p.0 + unit(x0, x1)
            &&& q.1 == p.1 || q.1 == p.1 + unit(y0, y1)
            &&& span(x0, x1) >= span(y0, y1) ==> q.0 == p.0 + unit(x0, x1)
            &&& span(x0, x1) < span(y0, y1) ==> q.1 == p.1 + unit(y0, y1)
        }),
{
    let dx = span(x0, x1);
    let dy = span(y0, y1);
    lemma_offsets(dx, dy, k as nat);
    lemma_offsets(dx, dy, (k + 1) as nat);
    assert(line_points(x0, y0, x1, y1)[k] == line_point(x0, y0, x1, y1, k));
    assert(line_points(x0, y0, x1, y1)[k + 1] == line_point(x0, y0, x1, y1, k + 1));
    assert(offsets(dx, dy, (k + 1) as nat) == next_offsets(
        dx,
        dy,
        offsets(dx, dy, k as nat).0,
        offsets(dx, dy, k as nat).1,
    ));
}

/// Every pixel of the line lies within half a pixel of the ideal segment,
/// measured across its longer extent, and inside the box spanned by the ends.
pub proof fn lemma_line_near_segment(x0: int, y0: int, x1: int, y1: int, k: int)
    requires
        0 <= k < line_points(x0, y0, x1, y1).len(),
    ensures
        ({
            let p = line_points(x0, y0, x1, y1)[k];
            let cross = (p.1 - y0) * (x1 - x0) - (p.0 - x0) * (y1 - y0);
            let m = major(span(x0, x1), span(y0, y1));
            &&& -m <= 2 * cross <= m
            &&& (x0 <= p.0 <= x1 || x1 <= p.0 <= x0)
            &&& (y0 <= p.1 <= y1 || y1 <= p.1 <= y0)
        }),
{
    let dx = span(x0, x1);
    let dy = span(y0, y1);
    lemma_offsets(dx, dy, k as nat);
    let o = offsets(dx, dy, k as nat);
    let i = o.0;
    let j = o.1;
    assert(line_points(x0, y0, x1, y1)[k] == line_point(x0, y0, x1, y1, k));
    let p = line_points(x0, y0, x1, y1)[k];
    let d = deviation(dx, dy, i, j);
    let cross = (p.1 - y0) * (x1 - x0) - (p.0 - x0) * (y1 - y0);
    let ux = unit(x0, x1);
    let uy = unit(y0, y1);
    assert(p.0 - x0 == ux * i && x1 - x0 == ux * dx);
    assert(p.1 - y0 == uy * j && y1 - y0 == uy * dy);
    assert(cross == ux * uy * d) by (nonlinear_arith)
        requires
            p.0 - x0 == ux * i,
            x1 - x0 == ux * dx,
            p.1 - y0 == uy * j,
            y1 - y0 == uy * dy,
            cross == (p.1 - y0) * (x1 - x0) - (p.0 - x0) * (y1 - y0),
            d == j * dx - i * dy,
            ux == 1 || ux == -1,
            uy == 1 || uy == -1,
    ;
    let m = major(dx, dy);
    assert(-m <= 2 * cross <= m) by (nonlinear_arith)
        requires
            cross == ux * uy * d,
            -m <= 2 * d <= m,
            ux == 1 || ux == -1,
            uy == 1 || uy == -1,
    ;
}

/// Moving both ends by the same offset moves every pixel of the line by that offset.
pub proof fn lemma_line_translate(x0: int, y0: int, x1: int, y1: int, a: int, b: int)
    ensures
        line_points(x0 + a, y0 + b, x1 + a, y1 + b) == line_points(x0, y0, x1, y1).map_values(
            |p: (int, int)| (p.0 + a, p.1 + b),
        ),
{
    let l = line_points(x0, y0, x1, y1);
    let t = line_points(x0 + a, y0 + b, x1 + a, y1 + b);
    assert(span(x0 + a, x1 + a) == span(x0, x1));
    assert(span(y0 + b, y1 + b) == span(y0, y1));
    assert forall|k: int| 0 <= k < t.len() implies t[k] == (l[k].0 + a, l[k].1 + b) by {
        assert(t[k] == line_point(x0 + a, y0 + b, x1 + a, y1 + b, k));
        assert(l[k] == line_point(x0, y0, x1, y1, k));
    }
    assert(t =~= l.map_values(|p: (int, int)| (p.0 + a, p.1 + b)));
}

/// The pixels of the line are pinned down one by one: pixel `k` lies between
/// the ends, is `k` units from the start along the longer extent, and its
/// offset `j` along the shorter extent is the one whose deviation
/// `2 * (j * dx - i * dy)` from the ideal segment lies in `[-dx, dx)` (when
/// x is the longer extent) or `(-dy, dy]` (when y is), which leaves exactly
/// one choice.
pub proof fn lemma_line_pixel_exact(x0: int, y0: int, x1: int, y1: int, k: int)
    requires
        0 <= k < line_points(x0, y0, x1, y1).len(),
    ensures
        ({
            let p = line_points(x0, y0, x1, y1)[k];
            let dx = span(x0, x1);
            let dy = span(y0, y1);
            let i = span(x0, p.0);
            let j = span(y0, p.1);
            let d = j * dx - i * dy;
            &&& x0 <= p.0 <= x1 || x1 <= p.0 <= x0
            &&& y0 <= p.1 <= y1 || y1 <= p.1 <= y0
            &&& dx >= dy ==> i == k && -dx <= 2 * d && (2 * d < dx || dx == 0)
            &&& dx < dy ==> j == k && -dy < 2 * d <= dy
        }),
{
    let dx = span(x0, x1);
    let dy = span(y0, y1);
    lemma_offsets(dx, dy, k as nat);
    assert(line_points(x0, y0, x1, y1)[k] == line_point(x0, y0, x1, y1, k));
}

} // verus!
