//! Integer rasterization of the straight segment between two pixels.
//!
//! The walk is a classic error-accumulating line stepper. Its result is
//! pinned exactly by the spec recursion [`line_seq`]; endpoints are
//! normalized so the pixel sequence for `(a, b)` is the reverse of the
//! one for `(b, a)`, making the covered pixel set independent of the
//! direction of the query.

use vstd::prelude::*;
use crate::utils::Coord;

verus! {

/// The integer pair a coordinate stands for.
pub open spec fn pt(c: Coord) -> (int, int) {
    (c.x as int, c.y as int)
}

/// View of a pixel list as a sequence of integer pairs.
pub open spec fn pts_view(s: Seq<Coord>) -> Seq<(int, int)> {
    s.map_values(|c: Coord| pt(c))
}

/// Integer absolute value.
pub open spec fn iabs(a: int) -> int {
    if a >= 0 {
        a
    } else {
        -a
    }
}

/// `b` lies between `a` and `c`, whichever of `a` and `c` is larger.
pub open spec fn between(a: int, b: int, c: int) -> bool {
    (a <= b <= c) || (c <= b <= a)
}

/// Lexicographic order on coordinates, used to pick the canonical
/// direction of a segment.
pub open spec fn lex_le(a: Coord, b: Coord) -> bool {
    a.x < b.x || (a.x == b.x && a.y <= b.y)
}

/// One step of the error-accumulating walk: from position `(x, y)` with
/// error term `err`, the next position and error term.
pub open spec fn bres_next(
    x: int,
    y: int,
    sx: int,
    sy: int,
    dx: int,
    dy: int,
    err: int,
) -> (int, int, int) {
    let e2 = 2 * err;
    let x2 = if e2 > -dy {
        x + sx
    } else {
        x
    };
    let err_x = if e2 > -dy {
        err - dy
    } else {
        err
    };
    let y2 = if e2 < dx {
        y + sy
    } else {
        y
    };
    let err2 = if e2 < dx {
        err_x + dx
    } else {
        err_x
    };
    (x2, y2, err2)
}

/// The error term of the walk after `u` steps along x and `v` steps
/// along y.
pub open spec fn bres_err(dx: int, dy: int, u: int, v: int) -> int {
    dx - dy - u * dy + v * dx
}

/// The pixels visited by the walk from `(x, y)` until it reaches
/// `(ex, ey)`, endpoints included; `fuel` bounds the number of moves and
/// is consumed exactly by the moves a real run makes.
pub open spec fn bres_seq(
    x: int,
    y: int,
    ex: int,
    ey: int,
    sx: int,
    sy: int,
    dx: int,
    dy: int,
    err: int,
    fuel: nat,
) -> Seq<(int, int)>
    decreases fuel,
{
    if (x == ex && y == ey) || fuel == 0 {
        seq![(x, y)]
    } else {
        let next = bres_next(x, y, sx, sy, dx, dy, err);
        let step = iabs(next.0 - x) + iabs(next.1 - y);
        if step == 0 || step > fuel {
            seq![(x, y)]
        } else {
            seq![(x, y)] + bres_seq(
                next.0,
                next.1,
                ex,
                ey,
                sx,
                sy,
                dx,
                dy,
                next.2,
                (fuel - step) as nat,
            )
        }
    }
}

/// The pixel sequence of the walk from `a` to `b`.
pub open spec fn line_seq(a: Coord, b: Coord) -> Seq<(int, int)> {
    let dx = iabs(b.x - a.x);
    let dy = iabs(b.y - a.y);
    let sx: int = if a.x < b.x {
        1
    } else {
        -1
    };
    let sy: int = if a.y < b.y {
        1
    } else {
        -1
    };
    bres_seq(a.x as int, a.y as int, b.x as int, b.y as int, sx, sy, dx, dy, dx - dy, (dx
        + dy) as nat)
}

/// The pixel sequence `rasterize` returns: the walk along the canonical
/// direction of the segment, reversed when the query goes the other way.
pub open spec fn rasterize_spec(a: Coord, b: Coord) -> Seq<(int, int)> {
    if lex_le(a, b) {
        line_seq(a, b)
    } else {
        line_seq(b, a).reverse()
    }
}

/// One unfolding step of the walk, phrased over the step counts `u`
/// (along x) and `v` (along y): from any non-final state the walk moves,
/// never overshoots, and keeps the error term in its closed form.
proof fn lemma_bres_step(x0: int, y0: int, sx: int, sy: int, dx: int, dy: int, u: int, v: int)
    requires
        sx == 1 || sx == -1,
        sy == 1 || sy == -1,
        0 <= u <= dx,
        0 <= v <= dy,
        !(u == dx && v == dy),
    ensures
        ({
            let x = x0 + sx * u;
            let y = y0 + sy * v;
            let err = bres_err(dx, dy, u, v);
            let e2 = 2 * err;
            let c1 = e2 > -dy;
            let c2 = e2 < dx;
            let u2 = if c1 {
                u + 1
            } else {
                u
            };
            let v2 = if c2 {
                v + 1
            } else {
                v
            };
            let next = bres_next(x, y, sx, sy, dx, dy, err);
            (c1 || c2) && (c1 ==> u < dx) && (c2 ==> v < dy) && next.0 == x0 + sx * u2 && next.1
                == y0 + sy * v2 && next.2 == bres_err(dx, dy, u2, v2) && iabs(next.0 - x) + iabs(
                next.1 - y,
            ) == (u2 - u) + (v2 - v)
        }),
{
    let x = x0 + sx * u;
    let y = y0 + sy * v;
    let err = bres_err(dx, dy, u, v);
    let e2 = 2 * err;
    let c1 = e2 > -dy;
    let c2 = e2 < dx;
    if !c1 && !c2 {
        // the walk would be stuck: impossible away from the endpoint
        assert(dx <= 2 * err <= -dy);
        assert(dx == 0 && dy == 0) by (nonlinear_arith)
            requires
                dx >= 0,
                dy >= 0,
                dx <= 2 * (dx - dy - u * dy + v * dx) <= -dy,
                0 <= u <= dx,
                0 <= v <= dy,
        ;
        assert(false);
    }
    if c1 && u == dx {
        // an x move past the endpoint would need too large an error term
        assert(v < dy);
        assert(!(2 * (dx - dy - dx * dy + v * dx) > -dy)) by (nonlinear_arith)
            requires
                dx >= 0,
                0 <= v,
                v + 1 <= dy,
        ;
        assert(false);
    }
    if c2 && v == dy {
        // a y move past the endpoint would need too small an error term
        assert(u < dx);
        assert(!(2 * (dx - dy - u * dy + dy * dx) < dx)) by (nonlinear_arith)
            requires
                dy >= 0,
                0 <= u,
                u + 1 <= dx,
        ;
        assert(false);
    }
    let u2 = if c1 {
        u + 1
    } else {
        u
    };
    let v2 = if c2 {
        v + 1
    } else {
        v
    };
    assert(sx * u2 == sx * u + if c1 {
        sx
    } else {
        0
    }) by (nonlinear_arith)
        requires
            u2 == if c1 {
                u + 1
            } else {
                u
            },
    ;
    assert(sy * v2 == sy * v + if c2 {
        sy
    } else {
        0
    }) by (nonlinear_arith)
        requires
            v2 == if c2 {
                v + 1
            } else {
                v
            },
    ;
    assert(u2 * dy == u * dy + if c1 {
        dy
    } else {
        0
    }) by (nonlinear_arith)
        requires
            u2 == if c1 {
                u + 1
            } else {
                u
            },
    ;
    assert(v2 * dx == v * dx + if c2 {
        dx
    } else {
        0
    }) by (nonlinear_arith)
        requires
            v2 == if c2 {
                v + 1
            } else {
                v
            },
    ;
    if sx == 1 {
        assert(iabs((x0 + sx * u2) - x) == u2 - u);
    } else {
        assert(iabs((x0 + sx * u2) - x) == u2 - u);
    }
}

/// Properties of the walk from any intermediate state to the endpoint:
/// it starts where it stands, ends exactly at the endpoint, stays inside
/// the bounding box, and strictly advances along the direction of
/// travel (so its pixels are pairwise distinct).
#[verifier::rlimit(100)]
proof fn lemma_bres_props(x0: int, y0: int, sx: int, sy: int, dx: int, dy: int, u: int, v: int)
    requires
        sx == 1 || sx == -1,
        sy == 1 || sy == -1,
        0 <= u <= dx,
        0 <= v <= dy,
    ensures
        ({
            let x = x0 + sx * u;
            let y = y0 + sy * v;
            let ex = x0 + sx * dx;
            let ey = y0 + sy * dy;
            let s = bres_seq(
                x,
                y,
                ex,
                ey,
                sx,
                sy,
                dx,
                dy,
                bres_err(dx, dy, u, v),
                ((dx - u) + (dy - v)) as nat,
            );
            s.len() >= 1 && s[0] == (x, y) && s[s.len() - 1] == (ex, ey) && (forall|k: int|
                0 <= k < s.len() ==> between(x, (#[trigger] s[k]).0, ex) && between(y, s[k].1, ey))
                && (forall|i: int, j: int|
                0 <= i < j < s.len() ==> sx * (#[trigger] s[i]).0 + sy * s[i].1 < sx * (
                #[trigger] s[j]).0 + sy * s[j].1)
        }),
    decreases (dx - u) + (dy - v),
{
    let x = x0 + sx * u;
    let y = y0 + sy * v;
    let ex = x0 + sx * dx;
    let ey = y0 + sy * dy;
    let err = bres_err(dx, dy, u, v);
    let fuel = ((dx - u) + (dy - v)) as nat;
    let s = bres_seq(x, y, ex, ey, sx, sy, dx, dy, err, fuel);
    assert(sx * u == sx * dx <==> u == dx) by (nonlinear_arith)
        requires
            sx == 1 || sx == -1,
    ;
    assert(sy * v == sy * dy <==> v == dy) by (nonlinear_arith)
        requires
            sy == 1 || sy == -1,
    ;
    if u == dx && v == dy {
        assert(x == ex && y == ey);
        assert(s == seq![(x, y)]);
    } else {
        assert(!(x == ex && y == ey));
        assert(fuel > 0);
        lemma_bres_step(x0, y0, sx, sy, dx, dy, u, v);
        let e2 = 2 * err;
        let c1 = e2 > -dy;
        let c2 = e2 < dx;
        let u2 = if c1 {
            u + 1
        } else {
            u
        };
        let v2 = if c2 {
            v + 1
        } else {
            v
        };
        let next = bres_next(x, y, sx, sy, dx, dy, err);
        let step = iabs(next.0 - x) + iabs(next.1 - y);
        assert(step == (u2 - u) + (v2 - v));
        assert(1 <= step <= fuel);
        let fuel2 = (fuel - step) as nat;
        assert(fuel2 == ((dx - u2) + (dy - v2)) as nat);
        lemma_bres_props(x0, y0, sx, sy, dx, dy, u2, v2);
        let s2 = bres_seq(next.0, next.1, ex, ey, sx, sy, dx, dy, next.2, fuel2);
        assert(s == seq![(x, y)] + s2);
        let x2 = x0 + sx * u2;
        let y2 = y0 + sy * v2;
        // the measure strictly grows with each move
        assert(sx * x2 + sy * y2 == sx * x + sy * y + step) by (nonlinear_arith)
            requires
                sx == 1 || sx == -1,
                sy == 1 || sy == -1,
                x == x0 + sx * u,
                y == y0 + sy * v,
                x2 == x0 + sx * u2,
                y2 == y0 + sy * v2,
                step == (u2 - u) + (v2 - v),
        ;
        // the current point lies on the near side of every later point
        assert forall|k: int| 0 <= k < s2.len() implies sx * x + sy * y < sx * (#[trigger] s2[k]).0
            + sy * s2[k].1 by {
            if k > 0 {
                assert(sx * s2[0].0 + sy * s2[0].1 < sx * s2[k].0 + sy * s2[k].1);
            }
        }
        // box containment widens from the next point to the current one
        assert(between(x, x2, ex) && between(y, y2, ey)) by (nonlinear_arith)
            requires
                sx == 1 || sx == -1,
                sy == 1 || sy == -1,
                x == x0 + sx * u,
                y == y0 + sy * v,
                x2 == x0 + sx * u2,
                y2 == y0 + sy * v2,
                ex == x0 + sx * dx,
                ey == y0 + sy * dy,
                u <= u2 <= dx,
                v <= v2 <= dy,
        ;
        assert forall|k: int| 0 <= k < s.len() implies between(x, (#[trigger] s[k]).0, ex)
            && between(y, s[k].1, ey) by {
            if k > 0 {
                assert(s[k] == s2[k - 1]);
                assert(between(x2, s2[k - 1].0, ex) && between(y2, s2[k - 1].1, ey));
            }
        }
        assert(s[s.len() - 1] == s2[s2.len() - 1]);
    }
}

/// The walk from `a` to `b`: starts at `a`, ends at `b`, all pixels
/// inside the bounding box, pairwise distinct.
pub proof fn lemma_line_seq_props(a: Coord, b: Coord)
    ensures
        line_seq(a, b).len() >= 1,
        line_seq(a, b)[0] == pt(a),
        line_seq(a, b)[line_seq(a, b).len() - 1] == pt(b),
        forall|k: int|
            0 <= k < line_seq(a, b).len() ==> between(a.x as int, (#[trigger] line_seq(a, b)[k]).0, b.x as int)
                && between(a.y as int, line_seq(a, b)[k].1, b.y as int),
        forall|i: int, j: int|
            0 <= i < j < line_seq(a, b).len() ==> #[trigger] line_seq(a, b)[i] != #[trigger] line_seq(
            a,
            b,
        )[j],
{
    let dx = iabs(b.x - a.x);
    let dy = iabs(b.y - a.y);
    let sx: int = if a.x < b.x {
        1
    } else {
        -1
    };
    let sy: int = if a.y < b.y {
        1
    } else {
        -1
    };
    assert(b.x == a.x + sx * dx) by (nonlinear_arith)
        requires
            sx == (if a.x < b.x {
                1int
            } else {
                -1int
            }),
            dx == iabs(b.x - a.x),
    ;
    assert(b.y == a.y + sy * dy) by (nonlinear_arith)
        requires
            sy == (if a.y < b.y {
                1int
            } else {
                -1int
            }),
            dy == iabs(b.y - a.y),
    ;
    assert(sx * 0 == 0 && sy * 0 == 0) by (nonlinear_arith);
    assert(bres_err(dx, dy, 0, 0) == dx - dy) by (nonlinear_arith);
    lemma_bres_props(a.x as int, a.y as int, sx, sy, dx, dy, 0, 0);
    let s = line_seq(a, b);
    assert forall|i: int, j: int| 0 <= i < j < s.len() implies #[trigger] s[i] != #[trigger] s[j] by {
        assert(sx * s[i].0 + sy * s[i].1 < sx * s[j].0 + sy * s[j].1);
    }
}

/// Mapping a pixel list to its integer view commutes with `push`.
proof fn lemma_pts_view_push(s: Seq<Coord>, c: Coord)
    ensures
        pts_view(s.push(c)) == pts_view(s).push(pt(c)),
{
    assert(pts_view(s.push(c)) =~= pts_view(s).push(pt(c)));
}

/// The error-accumulating walk from `a` to `b`, pinned to [`line_seq`].
fn walk_line(a: Coord, b: Coord) -> (pixels: Vec<Coord>)
    ensures
        pts_view(pixels@) == line_seq(a, b),
{
    let ex: i64 = b.x as i64;
    let ey: i64 = b.y as i64;
    let dx: i64 = if ex >= a.x as i64 {
        ex - a.x as i64
    } else {
        a.x as i64 - ex
    };
    let dy: i64 = if ey >= a.y as i64 {
        ey - a.y as i64
    } else {
        a.y as i64 - ey
    };
    let sx: i64 = if a.x < b.x {
        1
    } else {
        -1
    };
    let sy: i64 = if a.y < b.y {
        1
    } else {
        -1
    };
    let mut err: i64 = dx - dy;
    let mut x: i64 = a.x as i64;
    let mut y: i64 = a.y as i64;
    let mut pixels: Vec<Coord> = Vec::new();
    let ghost mut u: int = 0;
    let ghost mut v: int = 0;
    proof {
        assert(sx * u == 0 && sy * v == 0 && u * dy == 0 && v * dx == 0) by (nonlinear_arith)
            requires
                u == 0 && v == 0,
        ;
    }
    loop
        invariant_except_break
            line_seq(a, b) == pts_view(pixels@) + bres_seq(
                x as int,
                y as int,
                b.x as int,
                b.y as int,
                sx as int,
                sy as int,
                dx as int,
                dy as int,
                err as int,
                ((dx - u) + (dy - v)) as nat,
            ),
        invariant
            dx as int == iabs(b.x as int - a.x as int),
            dy as int == iabs(b.y as int - a.y as int),
            sx as int == (if a.x < b.x {
                1int
            } else {
                -1int
            }),
            sy as int == (if a.y < b.y {
                1int
            } else {
                -1int
            }),
            ex == b.x as i64,
            ey == b.y as i64,
            0 <= u <= dx,
            0 <= v <= dy,
            x as int == a.x + (sx as int) * u,
            y as int == a.y + (sy as int) * v,
            err as int == bres_err(dx as int, dy as int, u, v),
            -2 * (dy as int) <= err as int <= 2 * (dx as int),
            between(a.x as int, x as int, b.x as int),
            between(a.y as int, y as int, b.y as int),
        ensures
            pts_view(pixels@) == line_seq(a, b),
        decreases (dx - u) + (dy - v),
    {
        proof {
            lemma_pts_view_push(pixels@, Coord { x: x as i32, y: y as i32 });
        }
        pixels.push(Coord { x: x as i32, y: y as i32 });
        if x == ex && y == ey {
            proof {
                assert(bres_seq(
                    x as int,
                    y as int,
                    b.x as int,
                    b.y as int,
                    sx as int,
                    sy as int,
                    dx as int,
                    dy as int,
                    err as int,
                    ((dx - u) + (dy - v)) as nat,
                ) == seq![(x as int, y as int)]);
                assert(line_seq(a, b) =~= pts_view(pixels@));
            }
            break ;
        }
        proof {
            assert((sx as int) * u == (sx as int) * (dx as int) <==> u == dx) by (nonlinear_arith)
                requires
                    sx as int == 1 || sx as int == -1,
            ;
            assert((sy as int) * v == (sy as int) * (dy as int) <==> v == dy) by (nonlinear_arith)
                requires
                    sy as int == 1 || sy as int == -1,
            ;
            assert(b.x as int == a.x + (sx as int) * (dx as int)) by (nonlinear_arith)
                requires
                    sx as int == (if a.x < b.x {
                        1int
                    } else {
                        -1int
                    }),
                    dx as int == iabs(b.x as int - a.x as int),
            ;
            assert(b.y as int == a.y + (sy as int) * (dy as int)) by (nonlinear_arith)
                requires
                    sy as int == (if a.y < b.y {
                        1int
                    } else {
                        -1int
                    }),
                    dy as int == iabs(b.y as int - a.y as int),
            ;
            assert(!(u == dx && v == dy));
            lemma_bres_step(a.x as int, a.y as int, sx as int, sy as int, dx as int, dy as int, u, v);
        }
        let e2: i64 = 2 * err;
        let ghost fuel_before: nat = ((dx - u) + (dy - v)) as nat;
        let ghost state_before: (int, int, int) = (x as int, y as int, err as int);
        if e2 > -dy {
            err = err - dy;
            x = x + sx;
            proof {
                u = u + 1;
            }
        }
        if e2 < dx {
            err = err + dx;
            y = y + sy;
            proof {
                v = v + 1;
            }
        }
        proof {
            let next = bres_next(
                state_before.0,
                state_before.1,
                sx as int,
                sy as int,
                dx as int,
                dy as int,
                state_before.2,
            );
            assert(next == (x as int, y as int, err as int));
            let step = iabs(next.0 - state_before.0) + iabs(next.1 - state_before.1);
            assert(1 <= step <= fuel_before);
            assert(bres_seq(
                state_before.0,
                state_before.1,
                b.x as int,
                b.y as int,
                sx as int,
                sy as int,
                dx as int,
                dy as int,
                state_before.2,
                fuel_before,
            ) == seq![(state_before.0, state_before.1)] + bres_seq(
                x as int,
                y as int,
                b.x as int,
                b.y as int,
                sx as int,
                sy as int,
                dx as int,
                dy as int,
                err as int,
                ((dx - u) + (dy - v)) as nat,
            ));
            assert(line_seq(a, b) =~= pts_view(pixels@) + bres_seq(
                x as int,
                y as int,
                b.x as int,
                b.y as int,
                sx as int,
                sy as int,
                dx as int,
                dy as int,
                err as int,
                ((dx - u) + (dy - v)) as nat,
            ));
            assert(between(a.x as int, x as int, b.x as int) && between(
                a.y as int,
                y as int,
                b.y as int,
            )) by (nonlinear_arith)
                requires
                    sx as int == 1 || sx as int == -1,
                    sy as int == 1 || sy as int == -1,
                    x as int == a.x + (sx as int) * u,
                    y as int == a.y + (sy as int) * v,
                    b.x as int == a.x + (sx as int) * (dx as int),
                    b.y as int == a.y + (sy as int) * (dy as int),
                    0 <= u <= dx,
                    0 <= v <= dy,
            ;
        }
    }
    pixels
}

/// Rasterize the straight segment from `a` to `b` into the exact list
/// of pixels it covers.
///
/// Both endpoints appear exactly once, the pixels are pairwise distinct
/// and lie in the segment's bounding box, and the list for `(b, a)` is
/// the same list reversed.
pub fn rasterize(a: Coord, b: Coord) -> (r: Vec<Coord>)
    ensures
        pts_view(r@) == rasterize_spec(a, b),
        r@.len() >= 1,
        r@[0] == a,
        r@[r@.len() - 1] == b,
        forall|i: int, j: int| 0 <= i < j < r@.len() ==> r@[i] != r@[j],
        forall|k: int|
            0 <= k < r@.len() ==> between(a.x as int, (#[trigger] r@[k]).x as int, b.x as int)
                && between(a.y as int, r@[k].y as int, b.y as int),
{
    let swap: bool = if a.x < b.x {
        false
    } else if a.x > b.x {
        true
    } else {
        a.y > b.y
    };
    if !swap {
        let r = walk_line(a, b);
        proof {
            lemma_line_seq_props(a, b);
            lemma_props_transfer(r@, a, b);
        }
        r
    } else {
        let fwd = walk_line(b, a);
        let mut r: Vec<Coord> = Vec::new();
        let mut k: usize = fwd.len();
        while k > 0
            invariant
                k <= fwd@.len(),
                r@.len() == fwd@.len() - k,
                forall|i: int| 0 <= i < r@.len() ==> r@[i] == fwd@[fwd@.len() - 1 - i],
            decreases k,
        {
            k = k - 1;
            let c = fwd[k];
            r.push(c);
        }
        proof {
            assert(pts_view(r@) =~= pts_view(fwd@).reverse());
            lemma_line_seq_props(b, a);
            lemma_props_transfer(fwd@, b, a);
            assert(r@.len() == fwd@.len());
            assert(r@[0] == fwd@[fwd@.len() - 1]);
            assert(r@[r@.len() - 1] == fwd@[0]);
            assert forall|i: int, j: int| 0 <= i < j < r@.len() implies r@[i] != r@[j] by {
                assert(r@[i] == fwd@[fwd@.len() - 1 - i]);
                assert(r@[j] == fwd@[fwd@.len() - 1 - j]);
            }
        }
        r
    }
}

/// Transfer the spec-level walk properties to a pixel list whose view
/// is the walk's sequence.
proof fn lemma_props_transfer(s: Seq<Coord>, a: Coord, b: Coord)
    requires
        pts_view(s) == line_seq(a, b),
    ensures
        s.len() >= 1,
        s[0] == a,
        s[s.len() - 1] == b,
        forall|i: int, j: int| 0 <= i < j < s.len() ==> s[i] != s[j],
        forall|k: int|
            0 <= k < s.len() ==> between(a.x as int, (#[trigger] s[k]).x as int, b.x as int)
                && between(a.y as int, s[k].y as int, b.y as int),
{
    lemma_line_seq_props(a, b);
    assert(pts_view(s).len() == s.len());
    assert(forall|k: int| 0 <= k < s.len() ==> pts_view(s)[k] == pt(#[trigger] s[k]));
    assert(s[0].x == a.x && s[0].y == a.y);
    assert(s[s.len() - 1].x == b.x && s[s.len() - 1].y == b.y);
    assert forall|i: int, j: int| 0 <= i < j < s.len() implies s[i] != s[j] by {
        assert(pts_view(s)[i] != pts_view(s)[j]);
    }
}

/// The covered pixel set does not depend on the direction of the query,
/// and both endpoints are covered.
pub proof fn lemma_rasterize_symmetric(a: Coord, b: Coord)
    ensures
        rasterize_spec(a, b).to_set() == rasterize_spec(b, a).to_set(),
        rasterize_spec(a, b).contains(pt(a)),
        rasterize_spec(a, b).contains(pt(b)),
{
    lemma_line_seq_props(a, b);
    lemma_line_seq_props(b, a);
    if lex_le(a, b) && lex_le(b, a) {
        assert(a == b);
    } else if lex_le(a, b) {
        lemma_reverse_to_set(line_seq(a, b));
        assert(rasterize_spec(b, a) == line_seq(a, b).reverse());
    } else {
        lemma_reverse_to_set(line_seq(b, a));
    }
    let s = rasterize_spec(a, b);
    if lex_le(a, b) {
        assert(s[0] == pt(a) && s[s.len() - 1] == pt(b));
    } else {
        let w = line_seq(b, a);
        assert(s == w.reverse());
        assert(s[s.len() - 1] == w[0]);
        assert(s[0] == w[w.len() - 1]);
    }
    assert(s.contains(pt(a)) && s.contains(pt(b)));
}

/// Reversing a sequence leaves the set of its elements unchanged.
proof fn lemma_reverse_to_set<A>(s: Seq<A>)
    ensures
        s.reverse().to_set() == s.to_set(),
{
    assert forall|x: A| s.to_set().contains(x) implies s.reverse().to_set().contains(x) by {
        let i = choose|i: int| 0 <= i < s.len() && s[i] == x;
        assert(s.reverse()[s.len() - 1 - i] == x);
    }
    assert forall|x: A| s.reverse().to_set().contains(x) implies s.to_set().contains(x) by {
        let i = choose|i: int| 0 <= i < s.reverse().len() && s.reverse()[i] == x;
        assert(s[s.len() - 1 - i] == x);
    }
    assert(s.reverse().to_set() =~= s.to_set());
}

/// The coordinate list an integer-pair sequence stands for.
pub open spec fn coords_of(pv: Seq<(int, int)>) -> Seq<Coord> {
    pv.map_values(|p: (int, int)| Coord { x: p.0 as i32, y: p.1 as i32 })
}

/// A pixel list is recovered exactly from its integer view.
pub proof fn lemma_coords_roundtrip(s: Seq<Coord>)
    ensures
        coords_of(pts_view(s)) == s,
{
    assert(coords_of(pts_view(s)) =~= s);
}

/// The walk visits at most one pixel per unit of the segment's
/// L1 length, plus the starting pixel.
proof fn lemma_bres_seq_len(
    x: int,
    y: int,
    ex: int,
    ey: int,
    sx: int,
    sy: int,
    dx: int,
    dy: int,
    err: int,
    fuel: nat,
)
    ensures
        bres_seq(x, y, ex, ey, sx, sy, dx, dy, err, fuel).len() <= fuel + 1,
    decreases fuel,
{
    if (x == ex && y == ey) || fuel == 0 {
    } else {
        let next = bres_next(x, y, sx, sy, dx, dy, err);
        let step = iabs(next.0 - x) + iabs(next.1 - y);
        if step == 0 || step > fuel {
        } else {
            lemma_bres_seq_len(next.0, next.1, ex, ey, sx, sy, dx, dy, next.2, (fuel - step) as nat);
        }
    }
}

/// The rasterized segment has at most one pixel more than its L1
/// length.
pub proof fn lemma_rasterize_len(a: Coord, b: Coord)
    ensures
        rasterize_spec(a, b).len() <= iabs(b.x - a.x) + iabs(b.y - a.y) + 1,
        rasterize_spec(a, b).len() >= 1,
{
    lemma_line_seq_props(a, b);
    lemma_line_seq_props(b, a);
    let dxf = iabs(b.x - a.x);
    let dyf = iabs(b.y - a.y);
    if lex_le(a, b) {
        lemma_bres_seq_len(
            a.x as int,
            a.y as int,
            b.x as int,
            b.y as int,
            if a.x < b.x {
                1int
            } else {
                -1int
            },
            if a.y < b.y {
                1int
            } else {
                -1int
            },
            dxf,
            dyf,
            dxf - dyf,
            (dxf + dyf) as nat,
        );
    } else {
        lemma_bres_seq_len(
            b.x as int,
            b.y as int,
            a.x as int,
            a.y as int,
            if b.x < a.x {
                1int
            } else {
                -1int
            },
            if b.y < a.y {
                1int
            } else {
                -1int
            },
            dxf,
            dyf,
            dxf - dyf,
            (dxf + dyf) as nat,
        );
    }
}

} // verus!
