//! Drawing into a window's pixel buffer: straight lines.
use vstd::prelude::*;
use crate::line::{
    lemma_error_bounds, lemma_error_deviation_public, lemma_offsets, line_point, line_points, major,
    offsets, offsets_ok, span, step_error, toward, unit,
};
use crate::window::{
    in_bounds_spec, lemma_in_bounds_exact, lemma_in_bounds_inside, paint_in_bounds, Color, Window,
};

verus! {

/// The pixels after plotting, in order, every point of `pts` that lies in a
/// `width` by `height` window.
pub open spec fn paint_points(
    p: Seq<Seq<Color>>,
    width: usize,
    height: usize,
    pts: Seq<(int, int)>,
    c: Color,
) -> Seq<Seq<Color>>
    decreases pts.len(),
{
    if pts.len() == 0 {
        p
    } else {
        paint_in_bounds(
            paint_points(p, width, height, pts.drop_last(), c),
            width,
            height,
            pts.last().0,
            pts.last().1,
            c,
        )
    }
}

/// The pixels after drawing the line from `a` to `b`.
pub open spec fn paint_line(
    p: Seq<Seq<Color>>,
    width: usize,
    height: usize,
    a: (i32, i32),
    b: (i32, i32),
    c: Color,
) -> Seq<Seq<Color>> {
    paint_points(p, width, height, line_points(a.0 as int, a.1 as int, b.0 as int, b.1 as int), c)
}

/// The pixels after drawing the outline of triangle `t`: its edges
/// `t[0]`-`t[1]`, `t[1]`-`t[2]` and `t[2]`-`t[0]`, in that order.
pub open spec fn paint_outline(
    p: Seq<Seq<Color>>,
    width: usize,
    height: usize,
    t: [(i32, i32); 3],
    c: Color,
) -> Seq<Seq<Color>> {
    let p1 = paint_line(p, width, height, t[0], t[1], c);
    let p2 = paint_line(p1, width, height, t[1], t[2], c);
    paint_line(p2, width, height, t[2], t[0], c)
}

/// The pixels after drawing the outlines of all triangles, in order.
pub open spec fn paint_wireframe(
    p: Seq<Seq<Color>>,
    width: usize,
    height: usize,
    tris: Seq<[(i32, i32); 3]>,
    c: Color,
) -> Seq<Seq<Color>>
    decreases tris.len(),
{
    if tris.len() == 0 {
        p
    } else {
        paint_outline(
            paint_wireframe(p, width, height, tris.drop_last(), c),
            width,
            height,
            tris.last(),
            c,
        )
    }
}

/// Pixels shaped as a `width` by `height` buffer.
pub open spec fn shaped(p: Seq<Seq<Color>>, width: usize, height: usize) -> bool {
    &&& p.len() == height
    &&& forall|y: int| 0 <= y < height ==> #[trigger] p[y].len() == width
}

/// Plotting a list of points keeps the shape of the buffer and sets exactly
/// the pixels that are among the points and in bounds; every other pixel
/// keeps its color.
pub proof fn lemma_paint_points_pixel(
    p: Seq<Seq<Color>>,
    width: usize,
    height: usize,
    pts: Seq<(int, int)>,
    c: Color,
    x: int,
    y: int,
)
    requires
        shaped(p, width, height),
        0 <= x < width,
        0 <= y < height,
    ensures
        shaped(paint_points(p, width, height, pts, c), width, height),
        paint_points(p, width, height, pts, c)[y][x] == if pts.contains((x, y)) && in_bounds_spec(
            width,
            height,
            x,
            y,
        ) {
            c
        } else {
            p[y][x]
        },
    decreases pts.len(),
{
    if pts.len() > 0 {
        let rest = pts.drop_last();
        lemma_paint_points_pixel(p, width, height, rest, c, x, y);
        let q = paint_points(p, width, height, rest, c);
        let l = pts.last();
        if in_bounds_spec(width, height, l.0, l.1) {
            lemma_in_bounds_inside(width, height, l.0, l.1);
        }
        assert(pts.contains((x, y)) <==> rest.contains((x, y)) || l == (x, y)) by {
            if pts.contains((x, y)) {
                let k = choose|k: int| 0 <= k < pts.len() && pts[k] == (x, y);
                if k < pts.len() - 1 {
                    assert(rest[k] == (x, y));
                }
            }
            if rest.contains((x, y)) {
                let k = choose|k: int| 0 <= k < rest.len() && rest[k] == (x, y);
                assert(pts[k] == (x, y));
            }
        }
    }
}

/// For a window whose extents fit in `i32`: plotting a list of points sets
/// exactly the pixels of the window that are among the points.
pub proof fn lemma_paint_points_in_window(
    p: Seq<Seq<Color>>,
    width: usize,
    height: usize,
    pts: Seq<(int, int)>,
    c: Color,
    x: int,
    y: int,
)
    requires
        shaped(p, width, height),
        width <= i32::MAX,
        height <= i32::MAX,
        0 <= x < width,
        0 <= y < height,
    ensures
        shaped(paint_points(p, width, height, pts, c), width, height),
        paint_points(p, width, height, pts, c)[y][x] == if pts.contains((x, y)) {
            c
        } else {
            p[y][x]
        },
{
    lemma_paint_points_pixel(p, width, height, pts, c, x, y);
    lemma_in_bounds_exact(width, height, x, y);
}

/// Whether `q` is a pixel of one of the three edges of triangle `t`.
pub open spec fn on_outline(t: [(i32, i32); 3], q: (int, int)) -> bool {
    ||| line_points(t[0].0 as int, t[0].1 as int, t[1].0 as int, t[1].1 as int).contains(q)
    ||| line_points(t[1].0 as int, t[1].1 as int, t[2].0 as int, t[2].1 as int).contains(q)
    ||| line_points(t[2].0 as int, t[2].1 as int, t[0].0 as int, t[0].1 as int).contains(q)
}

/// A pixel is on the outline of a triangle exactly when it is a pixel of the
/// line from corner 0 to 1, from 1 to 2, or from 2 to 0.
pub proof fn lemma_on_outline_edges(t: [(i32, i32); 3], q: (int, int))
    ensures
        on_outline(t, q) <==> (line_points(t[0].0 as int, t[0].1 as int, t[1].0 as int, t[1].1 as int).contains(q)
            || line_points(t[1].0 as int, t[1].1 as int, t[2].0 as int, t[2].1 as int).contains(q)
            || line_points(t[2].0 as int, t[2].1 as int, t[0].0 as int, t[0].1 as int).contains(q)),
{
}

/// For a window whose extents fit in `i32`: drawing the outlines of a list
/// of triangles sets every pixel of the window that lies on an edge of any of
/// the triangles, and leaves every other pixel as it was.
pub proof fn lemma_wireframe_pixel(
    p: Seq<Seq<Color>>,
    width: usize,
    height: usize,
    tris: Seq<[(i32, i32); 3]>,
    c: Color,
    x: int,
    y: int,
)
    requires
        shaped(p, width, height),
        width <= i32::MAX,
        height <= i32::MAX,
        0 <= x < width,
        0 <= y < height,
    ensures
        shaped(paint_wireframe(p, width, height, tris, c), width, height),
        paint_wireframe(p, width, height, tris, c)[y][x] == if exists|k: int|
            0 <= k < tris.len() && #[trigger] on_outline(tris[k], (x, y)) {
            c
        } else {
            p[y][x]
        },
    decreases tris.len(),
{
    if tris.len() > 0 {
        let rest = tris.drop_last();
        let t = tris.last();
        lemma_wireframe_pixel(p, width, height, rest, c, x, y);
        let q0 = paint_wireframe(p, width, height, rest, c);
        let l01 = line_points(t[0].0 as int, t[0].1 as int, t[1].0 as int, t[1].1 as int);
        let l12 = line_points(t[1].0 as int, t[1].1 as int, t[2].0 as int, t[2].1 as int);
        let l20 = line_points(t[2].0 as int, t[2].1 as int, t[0].0 as int, t[0].1 as int);
        lemma_paint_points_in_window(q0, width, height, l01, c, x, y);
        let q1 = paint_points(q0, width, height, l01, c);
        lemma_paint_points_in_window(q1, width, height, l12, c, x, y);
        let q2 = paint_points(q1, width, height, l12, c);
        lemma_paint_points_in_window(q2, width, height, l20, c, x, y);
        let on_any = exists|k: int| 0 <= k < tris.len() && #[trigger] on_outline(tris[k], (x, y));
        let on_rest = exists|k: int| 0 <= k < rest.len() && #[trigger] on_outline(rest[k], (x, y));
        assert(on_any <==> on_rest || on_outline(t, (x, y))) by {
            if on_rest {
                let k = choose|k: int| 0 <= k < rest.len() && #[trigger] on_outline(rest[k], (x, y));
                assert(tris[k] == rest[k]);
            }
            if on_outline(t, (x, y)) {
                assert(tris[tris.len() - 1] == t);
            }
            if on_any {
                let k = choose|k: int| 0 <= k < tris.len() && #[trigger] on_outline(tris[k], (x, y));
                if k < tris.len() - 1 {
                    assert(rest[k] == tris[k]);
                }
            }
        }
    }
}

impl Window {
    /// Draws the line from `points[0]` to `points[1]` with Bresenham's
    /// algorithm: every pixel of `line_points` that lies in the window is set
    /// to `color`, in drawing order.
    pub fn plot_line(&mut self, points: [[i32; 2]; 2], color: Color)
        requires
            old(self).well_formed(),
        ensures
            final(self).well_formed(),
            final(self).pixels() == paint_points(
                old(self).pixels(),
                old(self).width,
                old(self).height,
                line_points(
                    points[0][0] as int,
                    points[0][1] as int,
                    points[1][0] as int,
                    points[1][1] as int,
                ),
                color,
            ),
            old(self).width <= i32::MAX && old(self).height <= i32::MAX ==> forall|x: int, y: int|
                0 <= x < old(self).width && 0 <= y < old(self).height ==> #[trigger] final(self).pixels()[y][x] == if line_points(
                    points[0][0] as int,
                    points[0][1] as int,
                    points[1][0] as int,
                    points[1][1] as int,
                ).contains((x, y)) {
                    color
                } else {
                    old(self).pixels()[y][x]
                },
            final(self).width == old(self).width,
            final(self).height == old(self).height,
            final(self).title == old(self).title,
            final(self).frame == old(self).frame,
    {
        proof {
            let ghost lp = line_points(
                points[0][0] as int,
                points[0][1] as int,
                points[1][0] as int,
                points[1][1] as int,
            );
            if old(self).width <= i32::MAX && old(self).height <= i32::MAX {
                assert(shaped(old(self).pixels(), old(self).width, old(self).height));
                assert forall|x: int, y: int|
                    0 <= x < old(self).width && 0 <= y < old(self).height implies #[trigger] paint_points(
                    old(self).pixels(),
                    old(self).width,
                    old(self).height,
                    lp,
                    color,
                )[y][x] == if lp.contains((x, y)) {
                    color
                } else {
                    old(self).pixels()[y][x]
                } by {
                    lemma_paint_points_in_window(
                        old(self).pixels(),
                        old(self).width,
                        old(self).height,
                        lp,
                        color,
                        x,
                        y,
                    );
                }
            }
        }
        let x0 = points[0][0] as i64;
        let y0 = points[0][1] as i64;
        let x1 = points[1][0] as i64;
        let y1 = points[1][1] as i64;
        let ghost pts = line_points(x0 as int, y0 as int, x1 as int, y1 as int);
        let ghost p0 = old(self).pixels();

        let mut x = x0;
        let mut y = y0;
        let dx: i64 = if x1 >= x0 { x1 - x0 } else { x0 - x1 };
        let dy: i64 = if y1 >= y0 { y1 - y0 } else { y0 - y1 };
        let sx: i64 = if x0 < x1 { 1 } else { -1 };
        let sy: i64 = if y0 < y1 { 1 } else { -1 };
        let mut err: i64 = dx - dy;

        let ghost mut i: int = 0;
        let ghost mut j: int = 0;
        let ghost mut k: nat = 0;
        let ghost m: int = major(dx as int, dy as int);
        proof {
            assert(pts.take(0) =~= Seq::<(int, int)>::empty());
        }

        loop
            invariant_except_break
                self.pixels() == paint_points(p0, self.width, self.height, pts.take(k as int), color),
            invariant
                self.well_formed(),
                self.width == old(self).width,
                self.height == old(self).height,
                self.title == old(self).title,
                self.frame == old(self).frame,
                p0 == old(self).pixels(),
                pts == line_points(x0 as int, y0 as int, x1 as int, y1 as int),
                pts.len() == m + 1,
                x0 == points[0][0] && y0 == points[0][1],
                x1 == points[1][0] && y1 == points[1][1],
                dx == span(x0 as int, x1 as int),
                dy == span(y0 as int, y1 as int),
                m == major(dx as int, dy as int),
                sx == unit(x0 as int, x1 as int),
                sy == unit(y0 as int, y1 as int),
                k <= m,
                (i, j) == offsets(dx as int, dy as int, k),
                offsets_ok(dx as int, dy as int, k as int, i, j),
                x == toward(x0 as int, x1 as int, i),
                y == toward(y0 as int, y1 as int, j),
                err == step_error(dx as int, dy as int, i, j),
            ensures
                self.pixels() == paint_points(p0, self.width, self.height, pts, color),
            decreases m - k,
        {
            proof {
                lemma_error_bounds(dx as int, dy as int, k as int, i, j);
                assert(pts[k as int] == line_point(x0 as int, y0 as int, x1 as int, y1 as int, k as int));
            }
            self.plot_in_bounds(x as i32, y as i32, color);
            proof {
                assert(pts.take(k + 1int).drop_last() =~= pts.take(k as int));
                assert(pts.take(k + 1int).last() == pts[k as int]);
            }

            if x == x1 && y == y1 {
                proof {
                    lemma_offsets(dx as int, dy as int, k);
                    assert(pts.take(k + 1int) =~= pts);
                }
                break;
            }

            proof {
                lemma_offsets(dx as int, dy as int, k);
                lemma_offsets(dx as int, dy as int, k + 1);
                lemma_error_deviation_public(dx as int, dy as int, i, j);
            }
            let e2 = 2 * err;
            if e2 > -dy {
                err = err - dy;
                x = x + sx;
                proof {
                    i = i + 1;
                }
            }
            if e2 < dx {
                err = err + dx;
                y = y + sy;
                proof {
                    j = j + 1;
                }
            }
            proof {
                k = k + 1;
            }
        }
    }

    /// Draws the outline of every triangle of `tris`, given in pixel
    /// coordinates, with `plot_line`: for each triangle in order, its edges
    /// from corner 0 to 1, 1 to 2 and 2 to 0.
    pub fn plot_wireframe(&mut self, tris: &Vec<[(i32, i32); 3]>, color: Color)
        requires
            old(self).well_formed(),
        ensures
            final(self).well_formed(),
            final(self).pixels() == paint_wireframe(
                old(self).pixels(),
                old(self).width,
                old(self).height,
                tris@,
                color,
            ),
            old(self).width <= i32::MAX && old(self).height <= i32::MAX ==> forall|x: int, y: int|
                0 <= x < old(self).width && 0 <= y < old(self).height ==> #[trigger] final(self).pixels()[y][x] == if exists|k: int|
                    0 <= k < tris@.len() && #[trigger] on_outline(tris@[k], (x, y)) {
                    color
                } else {
                    old(self).pixels()[y][x]
                },
            final(self).width == old(self).width,
            final(self).height == old(self).height,
            final(self).title == old(self).title,
            final(self).frame == old(self).frame,
    {
        let ghost p0 = old(self).pixels();
        proof {
            if old(self).width <= i32::MAX && old(self).height <= i32::MAX {
                assert(shaped(p0, old(self).width, old(self).height));
                assert forall|x: int, y: int|
                    0 <= x < old(self).width && 0 <= y < old(self).height implies #[trigger] paint_wireframe(
                    p0,
                    old(self).width,
                    old(self).height,
                    tris@,
                    color,
                )[y][x] == if exists|k: int|
                    0 <= k < tris@.len() && #[trigger] on_outline(tris@[k], (x, y)) {
                    color
                } else {
                    p0[y][x]
                } by {
                    lemma_wireframe_pixel(p0, old(self).width, old(self).height, tris@, color, x, y);
                }
            }
        }
        let mut n: usize = 0;
        proof {
            assert(tris@.take(0) =~= Seq::<[(i32, i32); 3]>::empty());
        }
        while n < tris.len()
            invariant
                n <= tris@.len(),
                self.well_formed(),
                self.width == old(self).width,
                self.height == old(self).height,
                self.title == old(self).title,
                self.frame == old(self).frame,
                p0 == old(self).pixels(),
                self.pixels() == paint_wireframe(p0, self.width, self.height, tris@.take(n as int), color),
            decreases tris@.len() - n,
        {
            let t = tris[n];
            self.plot_line([[t[0].0, t[0].1], [t[1].0, t[1].1]], color);
            self.plot_line([[t[1].0, t[1].1], [t[2].0, t[2].1]], color);
            self.plot_line([[t[2].0, t[2].1], [t[0].0, t[0].1]], color);
            proof {
                assert(tris@.take(n + 1int).drop_last() =~= tris@.take(n as int));
                assert(tris@.take(n + 1int).last() == t);
            }
            n = n + 1;
        }
        proof {
            assert(tris@.take(n as int) =~= tris@);
        }
    }
}

} // verus!
