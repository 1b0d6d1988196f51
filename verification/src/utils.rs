//! Basic geometry: pixel coordinates and the placement of nails evenly
//! around a circle, in pure integer (fixed-point) arithmetic.
//!
//! Angles are measured in "ticks": 262144 ticks make a full turn, so a
//! nail index maps to the tick `i * 262144 / n`. Sine magnitudes are
//! computed by a rational approximation on the half turn, scaled by
//! 65536, exact at 0, a quarter turn and a half turn, and bounded by the
//! scale everywhere, so every nail lands inside the circle's bounding box.

use vstd::prelude::*;
use vstd::arithmetic::div_mod::{lemma_div_is_ordered, lemma_div_multiples_vanish};

verus! {

/// A 2D pixel coordinate.
#[derive(Debug, Clone, Copy, PartialEq, Eq, Structural)]
pub struct Coord {
    pub x: i32,
    pub y: i32,
}

impl Coord {
    pub fn new(x: i32, y: i32) -> (r: Self)
        ensures
            r.x == x,
            r.y == y,
    {
        Self { x, y }
    }
}

/// Sine magnitude, scaled by 65536, for a tick `t` within the half turn
/// `[0, 131072]`: a rational approximation of `sin(pi * t / 131072)`.
pub open spec fn sin_mag(t: int) -> int {
    (16 * t * (131072 - t) * 65536) / (5 * 131072 * 131072 - 4 * t * (131072 - t))
}

/// Signed sine at a tick `t` in `[0, 262144)`: nonnegative on the first
/// half turn, mirrored and negated on the second.
pub open spec fn sin_at(t: int) -> int {
    if t <= 131072 {
        sin_mag(t)
    } else {
        -sin_mag(t - 131072)
    }
}

/// Cosine at a tick `t` in `[0, 262144)`, as the sine shifted by a
/// quarter turn.
pub open spec fn cos_at(t: int) -> int {
    sin_at((t + 65536) % 262144)
}

/// The tick of nail `i` out of `n`: the fraction `i / n` of a full turn.
pub open spec fn nail_tick(i: int, n: int) -> int {
    (i * 262144) / n
}

/// Offset of a scaled trig value `c` applied to `radius`, truncated
/// toward zero as the integer division of magnitudes.
pub open spec fn scaled_offset(radius: int, c: int) -> int {
    if c >= 0 {
        (radius * c) / 65536
    } else {
        -((radius * (-c)) / 65536)
    }
}

/// The position of nail `i` out of `n` on the circle with the given
/// center and radius.
pub open spec fn nail_coord(i: int, n: int, cx: int, cy: int, radius: int) -> (int, int) {
    let t = nail_tick(i, n);
    (cx + scaled_offset(radius, cos_at(t)), cy + scaled_offset(radius, sin_at(t)))
}

/// Sine magnitude on the half turn, scaled by 65536.
fn sin_quarter(t: u64) -> (r: u64)
    requires
        t <= 131072,
    ensures
        r as int == sin_mag(t as int),
        r <= 65536,
{
    assert(0 <= 16 * (t as int) * (131072 - t as int) <= 274877906944int) by (nonlinear_arith)
        requires
            0 <= t <= 131072,
    ;
    let a: u64 = 16 * t * (131072 - t);
    assert(0 <= 4 * (t as int) * (131072 - t as int) <= 131072 * 131072) by (nonlinear_arith)
        requires
            0 <= t <= 131072,
    ;
    let den: u64 = 5 * 131072 * 131072 - 4 * t * (131072 - t);
    assert(a <= 274877906944u64);
    let r: u64 = (a * 65536) / den;
    proof {
        assert(16 * (t as int) * (131072 - t as int) <= 5 * 131072 * 131072 - 4 * (t as int) * (
        131072 - t as int)) by (nonlinear_arith)
            requires
                0 <= t <= 131072,
        ;
        assert(a as int * 65536 <= den as int * 65536);
        lemma_div_is_ordered(a as int * 65536, den as int * 65536, den as int);
        lemma_div_multiples_vanish(65536, den as int);
        assert(den as int * 65536 == 65536 * den as int);
    }
    r
}

/// Signed sine at a tick within the full turn: the magnitude and a sign
/// flag (`true` for negative).
fn sin_signed(t: u64) -> (r: (u64, bool))
    requires
        t < 262144,
    ensures
        (if r.1 {
            -(r.0 as int)
        } else {
            r.0 as int
        }) == sin_at(t as int),
        r.0 <= 65536,
{
    if t <= 131072 {
        (sin_quarter(t), false)
    } else {
        (sin_quarter(t - 131072), true)
    }
}

/// Signed cosine at a tick within the full turn.
fn cos_signed(t: u64) -> (r: (u64, bool))
    requires
        t < 262144,
    ensures
        (if r.1 {
            -(r.0 as int)
        } else {
            r.0 as int
        }) == cos_at(t as int),
        r.0 <= 65536,
{
    let tc: u64 = (t + 65536) % 262144;
    sin_signed(tc)
}

/// Calculate nail coordinates around a circle.
///
/// Nail 0 sits exactly at the rightmost point of the circle; every nail
/// lies within the circle's bounding box.
pub fn calculate_nail_coords(num_nails: usize, center: Coord, radius: i32) -> (r: Vec<Coord>)
    requires
        radius >= 0,
        num_nails <= 1000000,
        center.x + radius <= i32::MAX,
        center.x - radius >= i32::MIN,
        center.y + radius <= i32::MAX,
        center.y - radius >= i32::MIN,
    ensures
        r@.len() == num_nails,
        forall|i: int|
            0 <= i < num_nails ==> ((#[trigger] r@[i]).x as int, r@[i].y as int) == nail_coord(
                i,
                num_nails as int,
                center.x as int,
                center.y as int,
                radius as int,
            ),
        forall|i: int|
            0 <= i < num_nails ==> center.x - radius <= (#[trigger] r@[i]).x <= center.x + radius
                && center.y - radius <= r@[i].y <= center.y + radius,
        num_nails > 0 ==> r@[0].x == center.x + radius && r@[0].y == center.y,
{
    let mut coords: Vec<Coord> = Vec::new();
    let n = num_nails;
    let mut i: usize = 0;
    while i < n
        invariant
            i <= n,
            n <= 1000000,
            radius >= 0,
            center.x + radius <= i32::MAX,
            center.x - radius >= i32::MIN,
            center.y + radius <= i32::MAX,
            center.y - radius >= i32::MIN,
            coords@.len() == i,
            forall|k: int|
                0 <= k < i ==> ((#[trigger] coords@[k]).x as int, coords@[k].y as int)
                    == nail_coord(k, n as int, center.x as int, center.y as int, radius as int),
            forall|k: int|
                0 <= k < i ==> center.x - radius <= (#[trigger] coords@[k]).x <= center.x + radius
                    && center.y - radius <= coords@[k].y <= center.y + radius,
        decreases n - i,
    {
        let t: u64 = ((i as u64) * 262144) / (n as u64);
        proof {
            assert((i as int) * 262144 < (n as int) * 262144) by (nonlinear_arith)
                requires
                    0 <= i < n,
            ;
            vstd::arithmetic::div_mod::lemma_multiply_divide_lt(
                (i as int) * 262144,
                n as int,
                262144,
            );
        }
        let (smag, sneg) = sin_signed(t);
        let (cmag, cneg) = cos_signed(t);
        proof {
            assert((radius as int) * (cmag as int) <= 2147483647int * 65536) by (nonlinear_arith)
                requires
                    0 <= radius <= 2147483647,
                    0 <= cmag <= 65536,
            ;
            assert((radius as int) * (smag as int) <= 2147483647int * 65536) by (nonlinear_arith)
                requires
                    0 <= radius <= 2147483647,
                    0 <= smag <= 65536,
            ;
            assert(0 <= (radius as int) * (cmag as int)) by (nonlinear_arith)
                requires
                    0 <= radius,
                    0 <= cmag,
            ;
            assert(0 <= (radius as int) * (smag as int)) by (nonlinear_arith)
                requires
                    0 <= radius,
                    0 <= smag,
            ;
        }
        let dx: u64 = ((radius as u64) * cmag) / 65536;
        let dy: u64 = ((radius as u64) * smag) / 65536;
        proof {
            assert((radius as int) * (cmag as int) <= (radius as int) * 65536) by (
            nonlinear_arith)
                requires
                    radius >= 0,
                    cmag <= 65536,
            ;
            assert((radius as int) * (smag as int) <= (radius as int) * 65536) by (
            nonlinear_arith)
                requires
                    radius >= 0,
                    smag <= 65536,
            ;
            lemma_div_is_ordered(
                (radius as int) * (cmag as int),
                (radius as int) * 65536,
                65536,
            );
            lemma_div_is_ordered(
                (radius as int) * (smag as int),
                (radius as int) * 65536,
                65536,
            );
            lemma_div_multiples_vanish(radius as int, 65536);
        }
        let x64: i64 = if cneg {
            (center.x as i64) - (dx as i64)
        } else {
            (center.x as i64) + (dx as i64)
        };
        let y64: i64 = if sneg {
            (center.y as i64) - (dy as i64)
        } else {
            (center.y as i64) + (dy as i64)
        };
        proof {
            let ti = t as int;
            let ri = radius as int;
            assert(ti == nail_tick(i as int, n as int));
            vstd::arithmetic::div_mod::lemma_div_of0(65536);
            if cneg {
                assert(cos_at(ti) == -(cmag as int));
                if cmag == 0 {
                    assert(ri * 0 == 0);
                    assert(scaled_offset(ri, cos_at(ti)) == 0);
                    assert(dx as int == 0);
                } else {
                    assert(scaled_offset(ri, cos_at(ti)) == -(dx as int));
                }
                assert(x64 as int == center.x + scaled_offset(ri, cos_at(ti)));
            } else {
                assert(cos_at(ti) == cmag as int);
                assert(x64 as int == center.x + scaled_offset(ri, cos_at(ti)));
            }
            if sneg {
                assert(sin_at(ti) == -(smag as int));
                if smag == 0 {
                    assert(ri * 0 == 0);
                    assert(scaled_offset(ri, sin_at(ti)) == 0);
                    assert(dy as int == 0);
                } else {
                    assert(scaled_offset(ri, sin_at(ti)) == -(dy as int));
                }
                assert(y64 as int == center.y + scaled_offset(ri, sin_at(ti)));
            } else {
                assert(sin_at(ti) == smag as int);
                assert(y64 as int == center.y + scaled_offset(ri, sin_at(ti)));
            }
            assert(center.x - radius <= x64 <= center.x + radius);
            assert(center.y - radius <= y64 <= center.y + radius);
        }
        let c = Coord { x: x64 as i32, y: y64 as i32 };
        proof {
            assert((c.x as int, c.y as int) == nail_coord(
                i as int,
                n as int,
                center.x as int,
                center.y as int,
                radius as int,
            ));
        }
        coords.push(c);
        i = i + 1;
    }
    proof {
        if num_nails > 0 {
            lemma_first_nail(num_nails as int, center.x as int, center.y as int, radius as int);
        }
    }
    coords
}

/// The first nail sits exactly at the rightmost point of the circle.
proof fn lemma_first_nail(n: int, cx: int, cy: int, radius: int)
    requires
        n >= 1,
        radius >= 0,
    ensures
        nail_coord(0, n, cx, cy, radius) == (cx + radius, cy),
{
    assert(nail_tick(0, n) == 0) by {
        assert((0int * 262144) == 0);
        vstd::arithmetic::div_mod::lemma_div_of0(n);
    }
    assert((0int + 65536) % 262144 == 65536);
    assert(sin_mag(65536) == 65536) by {
        assert(16 * 65536int * (131072 - 65536) * 65536 == 4503599627370496int);
        assert(5 * 131072int * 131072 - 4 * 65536int * (131072 - 65536) == 68719476736int);
        lemma_div_multiples_vanish(65536, 68719476736);
        assert(65536int * 68719476736 == 4503599627370496int);
    }
    assert(cos_at(0) == 65536);
    assert(sin_mag(0) == 0) by {
        assert(16 * 0int * (131072 - 0) * 65536 == 0);
        vstd::arithmetic::div_mod::lemma_div_of0(5 * 131072int * 131072 - 4 * 0int * (131072 - 0));
    }
    assert(sin_at(0) == 0);
    assert(scaled_offset(radius, 65536) == radius) by {
        lemma_div_multiples_vanish(radius, 65536);
        assert(radius * 65536 == 65536 * radius) by (nonlinear_arith);
    }
    assert(scaled_offset(radius, 0) == 0) by {
        assert(radius * 0 == 0) by (nonlinear_arith);
        vstd::arithmetic::div_mod::lemma_div_of0(65536);
    }
}

} // verus!

use crate::grid::{PixelGrid, MaskGrid};

verus! {

/// A pixel lies inside a `w` x `h` image.
pub open spec fn in_bounds(p: Coord, w: int, h: int) -> bool {
    0 <= p.x < w && 0 <= p.y < h
}

/// How many pixels of the list lie inside the image.
pub open spec fn line_count(px: Seq<Coord>, w: int, h: int) -> int
    decreases px.len(),
{
    if px.len() == 0 {
        0
    } else {
        (if in_bounds(px[0], w, h) {
            1int
        } else {
            0int
        }) + line_count(px.skip(1), w, h)
    }
}

/// Sum of residual brightness over the in-bounds pixels of the list.
pub open spec fn line_res_sum(px: Seq<Coord>, cells: Seq<Seq<u8>>, w: int, h: int) -> int
    decreases px.len(),
{
    if px.len() == 0 {
        0
    } else {
        (if in_bounds(px[0], w, h) {
            cells[px[0].y as int][px[0].x as int] as int
        } else {
            0
        }) + line_res_sum(px.skip(1), cells, w, h)
    }
}

/// Sum of residual brightness weighted by the emphasis multiplier over
/// the in-bounds pixels of the list.
pub open spec fn line_emph_sum(
    px: Seq<Coord>,
    cells: Seq<Seq<u8>>,
    w: int,
    h: int,
    em: MaskGrid,
) -> int
    decreases px.len(),
{
    if px.len() == 0 {
        0
    } else {
        (if in_bounds(px[0], w, h) {
            (cells[px[0].y as int][px[0].x as int] as int) * em.at(px[0].y as int, px[0].x as int)
        } else {
            0
        }) + line_emph_sum(px.skip(1), cells, w, h, em)
    }
}

/// Sum of protection multipliers over the in-bounds pixels of the list.
pub open spec fn line_prot_sum(px: Seq<Coord>, pm: MaskGrid) -> int
    decreases px.len(),
{
    if px.len() == 0 {
        0
    } else {
        (if in_bounds(px[0], pm.w as int, pm.h as int) {
            pm.at(px[0].y as int, px[0].x as int)
        } else {
            0
        }) + line_prot_sum(px.skip(1), pm)
    }
}

/// The score of a candidate line: the average emphasized residual
/// brightness along its in-bounds pixels, minus the penalty-weighted
/// average protection, floored at zero. All quantities are fixed point,
/// scaled by 100; a line with no in-bounds pixel scores zero.
pub open spec fn score_spec(
    px: Seq<Coord>,
    cells: Seq<Seq<u8>>,
    w: int,
    h: int,
    em: MaskGrid,
    pm: MaskGrid,
    penalty: int,
) -> int {
    let c = line_count(px, w, h);
    if c == 0 {
        0
    } else {
        let e_avg = line_emph_sum(px, cells, w, h, em) / c;
        let p_avg = line_prot_sum(px, pm) / c;
        let pen = (penalty * p_avg) / 100;
        if e_avg >= pen {
            e_avg - pen
        } else {
            0
        }
    }
}

/// Calculate a line's score from a pre-computed list of pixels.
pub fn calculate_line_score_from_pixels(
    image: &PixelGrid,
    pixels: &Vec<Coord>,
    enhancement_mask: &MaskGrid,
    negative_space_mask: &MaskGrid,
    negative_space_penalty: u32,
) -> (score: u64)
    requires
        image.wf(),
        enhancement_mask.wf(),
        negative_space_mask.wf(),
        enhancement_mask.w == image.w,
        enhancement_mask.h == image.h,
        negative_space_mask.w == image.w,
        negative_space_mask.h == image.h,
        pixels@.len() <= 100000000,
    ensures
        score as int == score_spec(
            pixels@,
            image.cells(),
            image.w as int,
            image.h as int,
            *enhancement_mask,
            *negative_space_mask,
            negative_space_penalty as int,
        ),
{
    let mut count: u64 = 0;
    let mut esum: u64 = 0;
    let mut psum: u64 = 0;
    let mut i: usize = 0;
    let n = pixels.len();
    proof {
        assert(pixels@.skip(0) =~= pixels@);
    }
    while i < n
        invariant
            image.wf(),
            enhancement_mask.wf(),
            negative_space_mask.wf(),
            enhancement_mask.w == image.w,
            enhancement_mask.h == image.h,
            negative_space_mask.w == image.w,
            negative_space_mask.h == image.h,
            n == pixels@.len(),
            n <= 100000000,
            i <= n,
            count <= i,
            esum <= i * 255000000,
            psum <= count * 1000000,
            count as int + line_count(pixels@.skip(i as int), image.w as int, image.h as int)
                == line_count(pixels@, image.w as int, image.h as int),
            esum as int + line_emph_sum(
                pixels@.skip(i as int),
                image.cells(),
                image.w as int,
                image.h as int,
                *enhancement_mask,
            ) == line_emph_sum(
                pixels@,
                image.cells(),
                image.w as int,
                image.h as int,
                *enhancement_mask,
            ),
            psum as int + line_prot_sum(pixels@.skip(i as int), *negative_space_mask)
                == line_prot_sum(pixels@, *negative_space_mask),
        decreases n - i,
    {
        let p = pixels[i];
        proof {
            assert(pixels@.skip(i as int)[0] == pixels@[i as int]);
            assert(pixels@.skip(i as int).skip(1) =~= pixels@.skip(i as int + 1));
        }
        if p.x >= 0 && p.y >= 0 && (p.x as usize) < image.w && (p.y as usize) < image.h {
            let pv: u8 = image.get(p.y as usize, p.x as usize);
            let ev: u32 = enhancement_mask.get(p.y as usize, p.x as usize);
            let nv: u32 = negative_space_mask.get(p.y as usize, p.x as usize);
            proof {
                assert(image.cells()[p.y as int] == image.rows@[p.y as int]@);
                assert((pv as int) * (ev as int) <= 255000000) by (nonlinear_arith)
                    requires
                        0 <= pv <= 255,
                        0 <= ev <= 1000000,
                ;
                assert(0 <= (pv as int) * (ev as int)) by (nonlinear_arith)
                    requires
                        0 <= pv,
                        0 <= ev,
                ;
            }
            count = count + 1;
            esum = esum + (pv as u64) * (ev as u64);
            psum = psum + (nv as u64);
        }
        i = i + 1;
    }
    proof {
        assert(pixels@.skip(n as int) =~= Seq::<Coord>::empty());
    }
    if count == 0 {
        return 0;
    }
    let e_avg: u64 = esum / count;
    let p_avg: u64 = psum / count;
    proof {
        lemma_div_is_ordered(psum as int, (count as int) * 1000000, count as int);
        lemma_div_multiples_vanish(1000000, count as int);
        assert((count as int) * 1000000 == 1000000 * (count as int));
        assert(p_avg <= 1000000);
        assert((negative_space_penalty as int) * (p_avg as int) <= 4294967295int * 1000000) by (
        nonlinear_arith)
            requires
                0 <= negative_space_penalty <= 4294967295,
                0 <= p_avg <= 1000000,
        ;
    }
    let pen: u64 = ((negative_space_penalty as u64) * p_avg) / 100;
    if e_avg >= pen {
        e_avg - pen
    } else {
        0
    }
}

/// `a` minus `d`, floored at zero.
pub open spec fn clamp_sub(a: int, d: int) -> int {
    if a >= d {
        a - d
    } else {
        0
    }
}

/// One pixel\'s residual update: darken the cell by `d`, clamped at
/// zero; a pixel outside the image leaves the grid untouched.
pub open spec fn apply_pt(v: Seq<Seq<u8>>, p: Coord, d: int, w: int, h: int) -> Seq<Seq<u8>> {
    if in_bounds(p, w, h) {
        let y = p.y as int;
        let x = p.x as int;
        v.update(y, v[y].update(x, clamp_sub(v[y][x] as int, d) as u8))
    } else {
        v
    }
}

/// The residual update of a whole pixel list, applied front to back.
pub open spec fn apply_pixels(v: Seq<Seq<u8>>, px: Seq<Coord>, d: int, w: int, h: int) -> Seq<
    Seq<u8>,
>
    decreases px.len(),
{
    if px.len() == 0 {
        v
    } else {
        apply_pixels(apply_pt(v, px[0], d, w, h), px.skip(1), d, w, h)
    }
}

/// The residual update of the same pixel list repeated `k` times.
pub open spec fn apply_rounds(
    v: Seq<Seq<u8>>,
    px: Seq<Coord>,
    d: int,
    w: int,
    h: int,
    k: nat,
) -> Seq<Seq<u8>>
    decreases k,
{
    if k == 0 {
        v
    } else {
        apply_rounds(apply_pixels(v, px, d, w, h), px, d, w, h, (k - 1) as nat)
    }
}

/// Apply a line\'s darkness to the residual image: every in-bounds pixel
/// of the list is darkened by `darkness`, clamped at zero.
pub fn apply_line_darkness_from_pixels(
    residual: &mut PixelGrid,
    pixels: &Vec<Coord>,
    darkness: u32,
)
    requires
        old(residual).wf(),
    ensures
        final(residual).wf(),
        final(residual).w == old(residual).w,
        final(residual).h == old(residual).h,
        final(residual).cells() == apply_pixels(
            old(residual).cells(),
            pixels@,
            darkness as int,
            old(residual).w as int,
            old(residual).h as int,
        ),
{
    let ghost w = old(residual).w as int;
    let ghost h = old(residual).h as int;
    let ghost d = darkness as int;
    let mut i: usize = 0;
    let n = pixels.len();
    proof {
        assert(pixels@.skip(0) =~= pixels@);
    }
    while i < n
        invariant
            residual.wf(),
            residual.w as int == w,
            residual.h as int == h,
            d == darkness as int,
            n == pixels@.len(),
            i <= n,
            apply_pixels(old(residual).cells(), pixels@, d, w, h) == apply_pixels(
                residual.cells(),
                pixels@.skip(i as int),
                d,
                w,
                h,
            ),
        decreases n - i,
    {
        let p = pixels[i];
        proof {
            assert(pixels@.skip(i as int)[0] == pixels@[i as int]);
            assert(pixels@.skip(i as int).skip(1) =~= pixels@.skip(i as int + 1));
            assert(pixels@.skip(i as int).len() > 0);
        }
        if p.x >= 0 && p.y >= 0 && (p.x as usize) < residual.w && (p.y as usize) < residual.h {
            let cur: u8 = residual.get(p.y as usize, p.x as usize);
            let nv32: u32 = if cur as u32 >= darkness {
                cur as u32 - darkness
            } else {
                0
            };
            proof {
                assert(residual.cells()[p.y as int] == residual.rows@[p.y as int]@);
                assert(nv32 as int == clamp_sub(cur as int, d));
                assert(nv32 <= 255);
            }
            let ghost before = residual.cells();
            residual.set(p.y as usize, p.x as usize, nv32 as u8);
            proof {
                assert(residual.cells() == apply_pt(before, p, d, w, h));
            }
        } else {
            proof {
                assert(apply_pt(residual.cells(), p, d, w, h) == residual.cells());
            }
        }
        i = i + 1;
    }
    proof {
        assert(pixels@.skip(n as int) =~= Seq::<Coord>::empty());
    }
}

/// The residual update never raises a cell and never drops one below
/// zero, and it preserves the grid\'s shape.
pub proof fn lemma_apply_monotone(v: Seq<Seq<u8>>, px: Seq<Coord>, d: int, w: int, h: int)
    requires
        d >= 0,
        v.len() == h,
        forall|y: int| 0 <= y < h ==> (#[trigger] v[y]).len() == w,
    ensures
        apply_pixels(v, px, d, w, h).len() == h,
        forall|y: int| 0 <= y < h ==> (#[trigger] apply_pixels(v, px, d, w, h)[y]).len() == w,
        forall|y: int, x: int|
            0 <= y < h && 0 <= x < w ==> 0 <= #[trigger] apply_pixels(v, px, d, w, h)[y][x] as int
                <= v[y][x] as int,
    decreases px.len(),
{
    if px.len() == 0 {
    } else {
        let v1 = apply_pt(v, px[0], d, w, h);
        assert(v1.len() == h);
        assert forall|y: int| 0 <= y < h implies (#[trigger] v1[y]).len() == w by {
            if in_bounds(px[0], w, h) {
            }
        }
        assert forall|y: int, x: int|
            0 <= y < h && 0 <= x < w implies 0 <= #[trigger] v1[y][x] as int <= v[y][x] as int by {
            if in_bounds(px[0], w, h) {
                let py = px[0].y as int;
                let qx = px[0].x as int;
                assert(clamp_sub(v[py][qx] as int, d) <= v[py][qx] as int);
            }
        }
        lemma_apply_monotone(v1, px.skip(1), d, w, h);
    }
}

/// One full application of a line darkens each of its in-bounds pixels
/// by at least `d` (clamped at zero).
proof fn lemma_apply_hits(v: Seq<Seq<u8>>, px: Seq<Coord>, d: int, w: int, h: int, j: int)
    requires
        d >= 0,
        0 <= j < px.len(),
        in_bounds(px[j], w, h),
        v.len() == h,
        forall|y: int| 0 <= y < h ==> (#[trigger] v[y]).len() == w,
    ensures
        apply_pixels(v, px, d, w, h)[px[j].y as int][px[j].x as int] as int <= clamp_sub(
            v[px[j].y as int][px[j].x as int] as int,
            d,
        ),
    decreases px.len(),
{
    let py = px[j].y as int;
    let qx = px[j].x as int;
    let v1 = apply_pt(v, px[0], d, w, h);
    assert(v1.len() == h);
    assert forall|y: int| 0 <= y < h implies (#[trigger] v1[y]).len() == w by {
        if in_bounds(px[0], w, h) {
        }
    }
    if j == 0 {
        assert(v1[py][qx] as int == clamp_sub(v[py][qx] as int, d));
        lemma_apply_monotone(v1, px.skip(1), d, w, h);
        assert(apply_pixels(v1, px.skip(1), d, w, h)[py][qx] as int <= v1[py][qx] as int);
    } else {
        assert(px.skip(1)[j - 1] == px[j]);
        lemma_apply_hits(v1, px.skip(1), d, w, h, j - 1);
        assert(v1[py][qx] as int <= v[py][qx] as int) by {
            if in_bounds(px[0], w, h) {
                let oy = px[0].y as int;
                let ox = px[0].x as int;
                assert(clamp_sub(v[oy][ox] as int, d) <= v[oy][ox] as int);
            }
        }
        assert(clamp_sub(v1[py][qx] as int, d) <= clamp_sub(v[py][qx] as int, d));
    }
}

/// Repeating the residual update of one line `k` times leaves each of
/// its in-bounds pixels at most `k` times `d` below its start, clamped
/// at zero.
proof fn lemma_apply_rounds_bound(
    v: Seq<Seq<u8>>,
    px: Seq<Coord>,
    d: int,
    w: int,
    h: int,
    k: nat,
    j: int,
)
    requires
        d >= 0,
        0 <= j < px.len(),
        in_bounds(px[j], w, h),
        v.len() == h,
        forall|y: int| 0 <= y < h ==> (#[trigger] v[y]).len() == w,
    ensures
        apply_rounds(v, px, d, w, h, k)[px[j].y as int][px[j].x as int] as int <= clamp_sub(
            v[px[j].y as int][px[j].x as int] as int,
            k * d,
        ),
    decreases k,
{
    let py = px[j].y as int;
    let qx = px[j].x as int;
    if k == 0 {
        assert(k * d == 0) by (nonlinear_arith)
            requires
                k == 0,
        ;
    } else {
        let v1 = apply_pixels(v, px, d, w, h);
        lemma_apply_monotone(v, px, d, w, h);
        lemma_apply_hits(v, px, d, w, h, j);
        lemma_apply_rounds_bound(v1, px, d, w, h, (k - 1) as nat, j);
        assert(k * d == (k - 1) * d + d) by (nonlinear_arith)
            requires
                k >= 1,
        ;
        assert((k - 1) as nat * d == (k - 1) * d);
        assert(clamp_sub(clamp_sub(v[py][qx] as int, d), (k - 1) * d) <= clamp_sub(
            v[py][qx] as int,
            k * d,
        ));
        assert(clamp_sub(v1[py][qx] as int, (k - 1) * d) <= clamp_sub(
            clamp_sub(v[py][qx] as int, d),
            (k - 1) * d,
        ));
    }
}

/// Repeatedly applying the residual update of one line drives each of
/// its in-bounds pixels to exactly zero once the accumulated darkness
/// reaches the brightness range, and never below zero.
pub proof fn lemma_apply_drains(
    v: Seq<Seq<u8>>,
    px: Seq<Coord>,
    d: int,
    w: int,
    h: int,
    k: nat,
    j: int,
)
    requires
        d >= 1,
        0 <= j < px.len(),
        in_bounds(px[j], w, h),
        v.len() == h,
        forall|y: int| 0 <= y < h ==> (#[trigger] v[y]).len() == w,
        k * d >= 255,
    ensures
        apply_rounds(v, px, d, w, h, k)[px[j].y as int][px[j].x as int] as int == 0,
{
    lemma_apply_rounds_bound(v, px, d, w, h, k, j);
    let py = px[j].y as int;
    let qx = px[j].x as int;
    assert(v[py][qx] as int <= 255);
    assert(clamp_sub(v[py][qx] as int, k * d) == 0);
}

/// All the line sums are nonnegative, and the residual sum is at most
/// 255 per counted pixel.
proof fn lemma_sums_nonneg(
    px: Seq<Coord>,
    cells: Seq<Seq<u8>>,
    w: int,
    h: int,
    em: MaskGrid,
    pm: MaskGrid,
)
    ensures
        line_count(px, w, h) >= 0,
        line_res_sum(px, cells, w, h) >= 0,
        line_emph_sum(px, cells, w, h, em) >= 0,
        line_prot_sum(px, pm) >= 0,
        line_res_sum(px, cells, w, h) <= 255 * line_count(px, w, h),
    decreases px.len(),
{
    if px.len() == 0 {
    } else {
        lemma_sums_nonneg(px.skip(1), cells, w, h, em, pm);
        if in_bounds(px[0], w, h) {
            let y = px[0].y as int;
            let x = px[0].x as int;
            assert((cells[y][x] as int) * em.at(y, x) >= 0) by (nonlinear_arith)
                requires
                    cells[y][x] as int >= 0,
                    em.at(y, x) >= 0,
            ;
        }
    }
}

/// With a neutral emphasis mask the emphasis sum is just the residual
/// sum, scaled by 100.
proof fn lemma_emph_sum_neutral(
    px: Seq<Coord>,
    cells: Seq<Seq<u8>>,
    w: int,
    h: int,
    em: MaskGrid,
)
    requires
        em.is_neutral(),
        em.w as int == w,
        em.h as int == h,
    ensures
        line_emph_sum(px, cells, w, h, em) == 100 * line_res_sum(px, cells, w, h),
    decreases px.len(),
{
    if px.len() == 0 {
    } else {
        lemma_emph_sum_neutral(px.skip(1), cells, w, h, em);
        if in_bounds(px[0], w, h) {
            let y = px[0].y as int;
            let x = px[0].x as int;
            assert(em.at(y, x) == 100);
            assert((cells[y][x] as int) * 100 == 100 * (cells[y][x] as int)) by (nonlinear_arith);
        }
    }
}

/// With an all-zero protection mask the protection sum is zero.
proof fn lemma_prot_sum_zero(px: Seq<Coord>, pm: MaskGrid)
    requires
        forall|y: int, x: int| 0 <= y < pm.h && 0 <= x < pm.w ==> #[trigger] pm.at(y, x) == 0,
    ensures
        line_prot_sum(px, pm) == 0,
    decreases px.len(),
{
    if px.len() == 0 {
    } else {
        lemma_prot_sum_zero(px.skip(1), pm);
    }
}

/// With a neutral emphasis mask and no protection in play, the score is
/// exactly the average residual brightness along the line\'s in-bounds
/// pixels, in fixed point scaled by 100.
pub proof fn lemma_score_neutral_masks(
    px: Seq<Coord>,
    cells: Seq<Seq<u8>>,
    w: int,
    h: int,
    em: MaskGrid,
    pm: MaskGrid,
    penalty: int,
)
    requires
        em.is_neutral(),
        em.w as int == w,
        em.h as int == h,
        penalty >= 0,
        penalty == 0 || (forall|y: int, x: int|
            0 <= y < pm.h && 0 <= x < pm.w ==> #[trigger] pm.at(y, x) == 0),
    ensures
        score_spec(px, cells, w, h, em, pm, penalty) == (if line_count(px, w, h) == 0 {
            0int
        } else {
            (100 * line_res_sum(px, cells, w, h)) / line_count(px, w, h)
        }),
{
    lemma_sums_nonneg(px, cells, w, h, em, pm);
    lemma_emph_sum_neutral(px, cells, w, h, em);
    let c = line_count(px, w, h);
    if c != 0 {
        let e_avg = line_emph_sum(px, cells, w, h, em) / c;
        let p_avg = line_prot_sum(px, pm) / c;
        vstd::arithmetic::div_mod::lemma_div_pos_is_pos(line_emph_sum(px, cells, w, h, em), c);
        vstd::arithmetic::div_mod::lemma_div_pos_is_pos(line_prot_sum(px, pm), c);
        if penalty == 0 {
            assert(penalty * p_avg == 0) by (nonlinear_arith)
                requires
                    penalty == 0,
            ;
            assert((0int) / 100 == 0);
        } else {
            lemma_prot_sum_zero(px, pm);
            assert((0int) / c == 0) by {
                vstd::arithmetic::div_mod::lemma_div_of0(c);
            }
            assert(penalty * 0 == 0) by (nonlinear_arith);
            assert((0int) / 100 == 0);
        }
    }
}

/// Over an all-zero residual image every line scores zero, whatever the
/// masks and the penalty weight.
pub proof fn lemma_score_zero_residual(
    px: Seq<Coord>,
    cells: Seq<Seq<u8>>,
    w: int,
    h: int,
    em: MaskGrid,
    pm: MaskGrid,
    penalty: int,
)
    requires
        forall|y: int, x: int| 0 <= y < h && 0 <= x < w ==> #[trigger] cells[y][x] as int == 0,
        penalty >= 0,
    ensures
        score_spec(px, cells, w, h, em, pm, penalty) == 0,
{
    lemma_sums_nonneg(px, cells, w, h, em, pm);
    assert(line_emph_sum(px, cells, w, h, em) == 0) by {
        lemma_emph_sum_zero_res(px, cells, w, h, em);
    }
    let c = line_count(px, w, h);
    if c != 0 {
        assert((0int) / c == 0) by {
            vstd::arithmetic::div_mod::lemma_div_of0(c);
        }
        let p_avg = line_prot_sum(px, pm) / c;
        vstd::arithmetic::div_mod::lemma_div_pos_is_pos(line_prot_sum(px, pm), c);
        assert(penalty * p_avg >= 0) by (nonlinear_arith)
            requires
                penalty >= 0,
                p_avg >= 0,
        ;
        vstd::arithmetic::div_mod::lemma_div_pos_is_pos(penalty * p_avg, 100);
    }
}

/// Over an all-zero residual image the emphasis sum is zero.
proof fn lemma_emph_sum_zero_res(
    px: Seq<Coord>,
    cells: Seq<Seq<u8>>,
    w: int,
    h: int,
    em: MaskGrid,
)
    requires
        forall|y: int, x: int| 0 <= y < h && 0 <= x < w ==> #[trigger] cells[y][x] as int == 0,
    ensures
        line_emph_sum(px, cells, w, h, em) == 0,
    decreases px.len(),
{
    if px.len() == 0 {
    } else {
        lemma_emph_sum_zero_res(px.skip(1), cells, w, h, em);
        if in_bounds(px[0], w, h) {
            let y = px[0].y as int;
            let x = px[0].x as int;
            assert((cells[y][x] as int) * em.at(y, x) == 0) by (nonlinear_arith)
                requires
                    cells[y][x] as int == 0,
            ;
        }
    }
}

} // verus!
