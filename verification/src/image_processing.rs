//! Image-derived data for the engine: the most frequent brightness of
//! an image, a simple dark-circular-region detector for eye emphasis,
//! the eye-enhancement mask, and the negative-space protection mask
//! with flood fill, morphological closing and radial falloff. All of it
//! works in integer (fixed-point) arithmetic.

use vstd::prelude::*;
use vstd::string::StringExecFns;
use crate::error::StringArtError;
use crate::grid::{MaskGrid, PixelGrid};
use crate::state::EyeRegion;

verus! {

/// How many cells of a row hold the value `v`.
pub open spec fn row_count(row: Seq<u8>, v: u8) -> int
    decreases row.len(),
{
    if row.len() == 0 {
        0
    } else {
        (if row[0] == v {
            1int
        } else {
            0int
        }) + row_count(row.skip(1), v)
    }
}

/// How many cells of a grid hold the value `v`.
pub open spec fn grid_count(cells: Seq<Seq<u8>>, v: u8) -> int
    decreases cells.len(),
{
    if cells.len() == 0 {
        0
    } else {
        row_count(cells[0], v) + grid_count(cells.skip(1), v)
    }
}

/// Row counts are nonnegative and bounded by the row's length.
proof fn lemma_row_count_bounds(row: Seq<u8>, v: u8)
    ensures
        0 <= row_count(row, v) <= row.len(),
    decreases row.len(),
{
    if row.len() == 0 {
    } else {
        lemma_row_count_bounds(row.skip(1), v);
    }
}

/// Grid counts are nonnegative and bounded by the number of cells.
proof fn lemma_grid_count_bounds(cells: Seq<Seq<u8>>, v: u8, w: int)
    requires
        forall|y: int| 0 <= y < cells.len() ==> (#[trigger] cells[y]).len() == w,
        w >= 0,
    ensures
        0 <= grid_count(cells, v) <= cells.len() * w,
    decreases cells.len(),
{
    if cells.len() == 0 {
        assert(cells.len() * w == 0) by (nonlinear_arith)
            requires
                cells.len() == 0,
        ;
    } else {
        assert forall|y: int| 0 <= y < cells.skip(1).len() implies (#[trigger] cells.skip(1)[y]).len()
            == w by {
            assert(cells.skip(1)[y] == cells[y + 1]);
        }
        lemma_grid_count_bounds(cells.skip(1), v, w);
        lemma_row_count_bounds(cells[0], v);
        assert(cells.len() * w == (cells.len() - 1) * w + w) by (nonlinear_arith)
            requires
                cells.len() >= 1,
        ;
    }
}

/// Find the most common pixel value in the image.
///
/// Fails exactly on an empty image; on success the returned brightness
/// occurs at least as often as every other value, and more often than
/// every smaller value (ties resolve to the smallest value).
pub fn get_most_common_color(img: &PixelGrid) -> (r: Result<u8, StringArtError>)
    requires
        img.wf(),
        img.w <= 100000,
        img.h <= 100000,
    ensures
        (r is Err) <==> (img.w == 0 || img.h == 0),
        (match r {
            Result::Ok(c) => (forall|v: u8|
                grid_count(img.cells(), v) <= grid_count(img.cells(), c)) && (forall|v: u8|
                v < c ==> grid_count(img.cells(), v) < grid_count(img.cells(), c)),
            Result::Err(e) => e is InvalidParameter,
        }),
{
    let w = img.w;
    let h = img.h;
    if w == 0 || h == 0 {
        proof {
            if h == 0 {
            } else {
                assert(img.cells()[0].len() == 0);
            }
        }
        return Err(
            StringArtError::InvalidParameter { message: String::from_str("empty image") },
        );
    }
    let ghost cells = img.cells();
    let mut counts: Vec<u64> = Vec::new();
    let mut ci: usize = 0;
    while ci < 256
        invariant
            counts@.len() == ci,
            ci <= 256,
            forall|k: int| 0 <= k < ci ==> counts@[k] == 0,
        decreases 256 - ci,
    {
        counts.push(0);
        ci = ci + 1;
    }
    let mut y: usize = 0;
    proof {
        assert(cells.skip(0) =~= cells);
        assert forall|v: u8| #[trigger] grid_count(cells, v) >= 0 by {
            lemma_grid_count_bounds(cells, v, w as int);
        }
        assert forall|v: u8| #[trigger] grid_count(cells, v) <= 10000000000int by {
            lemma_grid_count_bounds(cells, v, w as int);
            assert((h as int) * (w as int) <= 10000000000int) by (nonlinear_arith)
                requires
                    0 <= h <= 100000,
                    0 <= w <= 100000,
            ;
        }
    }
    while y < h
        invariant
            img.wf(),
            w == img.w,
            h == img.h,
            cells == img.cells(),
            y <= h,
            counts@.len() == 256,
            forall|v: u8|
                #[trigger] counts@[v as int] + grid_count(cells.skip(y as int), v) == grid_count(
                    cells,
                    v,
                ),
            forall|v: u8| #[trigger] grid_count(cells, v) <= 10000000000int,
        decreases h - y,
    {
        let mut x: usize = 0;
        let ghost row = img.cells()[y as int];
        proof {
            assert(cells.skip(y as int)[0] == cells[y as int]);
            assert(cells.skip(y as int).skip(1) =~= cells.skip(y as int + 1));
            assert(row.skip(0) =~= row);
            assert forall|v: u8| 0 <= #[trigger] row_count(row.skip(0), v) by {
                lemma_row_count_bounds(row, v);
            }
            assert(forall|v: u8|
                #[trigger] grid_count(cells.skip(y as int), v) == row_count(row, v) + grid_count(
                    cells.skip(y as int + 1),
                    v,
                ));
        }
        while x < w
            invariant
                img.wf(),
                w == img.w,
                h == img.h,
                y < h,
                cells == img.cells(),
                row == cells[y as int],
                x <= w,
                counts@.len() == 256,
                forall|v: u8|
                    #[trigger] counts@[v as int] + row_count(row.skip(x as int), v) + grid_count(
                        cells.skip(y as int + 1),
                        v,
                    ) == grid_count(cells, v),
                forall|v: u8| #[trigger] grid_count(cells, v) <= 10000000000int,
            decreases w - x,
        {
            let pv: u8 = img.get(y, x);
            proof {
                assert(row.len() == w) by {
                    assert(cells[y as int] == img.rows@[y as int]@);
                }
                assert(row.skip(x as int)[0] == row[x as int]);
                assert(row.skip(x as int).skip(1) =~= row.skip(x as int + 1));
                assert(row[x as int] == pv);
                assert forall|v: u8| 0 <= #[trigger] row_count(row.skip(x as int + 1), v)
                    && 0 <= grid_count(cells.skip(y as int + 1), v) by {
                    assert forall|q: int|
                        0 <= q < cells.skip(y as int + 1).len() implies (#[trigger] cells.skip(
                        y as int + 1,
                    )[q]).len() == w by {
                        assert(cells.skip(y as int + 1)[q] == cells[y as int + 1 + q]);
                        assert(cells[y as int + 1 + q] == img.rows@[y as int + 1 + q]@);
                    }
                    lemma_row_count_bounds(row.skip(x as int + 1), v);
                    lemma_grid_count_bounds(
                        cells.skip(y as int + 1),
                        v,
                        w as int,
                    );
                }
                assert(row.skip(x as int).len() > 0);
                assert(row_count(row.skip(x as int), pv) == (if row.skip(x as int)[0] == pv {
                    1int
                } else {
                    0int
                }) + row_count(row.skip(x as int).skip(1), pv));
                assert(row_count(row.skip(x as int).skip(1), pv) == row_count(
                    row.skip(x as int + 1),
                    pv,
                ));
                assert(row_count(row.skip(x as int), pv) >= 1);
                assert(counts@[pv as int] < 10000000000int);
            }
            let old_count: u64 = counts[pv as usize];
            counts.set(pv as usize, old_count + 1);
            x = x + 1;
        }
        proof {
            assert(row.skip(w as int) =~= Seq::<u8>::empty());
        }
        y = y + 1;
    }
    proof {
        assert(cells.skip(h as int) =~= Seq::<Seq<u8>>::empty());
    }
    let mut best: usize = 0;
    let mut best_count: u64 = counts[0];
    let mut v: usize = 1;
    while v < 256
        invariant
            counts@.len() == 256,
            1 <= v <= 256,
            best < v,
            best_count == counts@[best as int],
            forall|q: int| 0 <= q < v ==> counts@[q] <= best_count,
            forall|q: int| 0 <= q < best ==> counts@[q] < best_count,
        decreases 256 - v,
    {
        let c = counts[v];
        if c > best_count {
            best = v;
            best_count = c;
        }
        v = v + 1;
    }
    proof {
        assert forall|q: u8| #[trigger] grid_count(cells, q) <= grid_count(cells, best as u8) by {
            assert(counts@[q as int] == grid_count(cells, q));
        }
        assert forall|q: u8| q < best as u8 implies #[trigger] grid_count(cells, q) < grid_count(
            cells,
            best as u8,
        ) by {
            assert(counts@[q as int] == grid_count(cells, q));
        }
    }
    Ok(best as u8)
}


/// The overlap of two regions is significant: more than three tenths
/// of the new region's area is shared.
pub open spec fn sig_overlap(a: EyeRegion, b: EyeRegion) -> bool {
    let ox1 = if a.x >= b.x {
        a.x as int
    } else {
        b.x as int
    };
    let ox2 = if a.x + a.width <= b.x + b.width {
        a.x + a.width
    } else {
        b.x + b.width
    };
    let oy1 = if a.y >= b.y {
        a.y as int
    } else {
        b.y as int
    };
    let oy2 = if a.y + a.height <= b.y + b.height {
        a.y + a.height
    } else {
        b.y + b.height
    };
    ox2 > ox1 && oy2 > oy1 && 10 * ((ox2 - ox1) * (oy2 - oy1)) > 3 * ((a.width as int) * (
    a.height as int))
}

/// Check if a region overlaps significantly with any existing region.
fn overlaps_significantly(new_region: &EyeRegion, existing_regions: &Vec<EyeRegion>) -> (r: bool)
    ensures
        r == exists|i: int|
            0 <= i < existing_regions@.len() && sig_overlap(*new_region, existing_regions@[i]),
{
    let mut i: usize = 0;
    let n = existing_regions.len();
    while i < n
        invariant
            n == existing_regions@.len(),
            i <= n,
            forall|k: int| 0 <= k < i ==> !sig_overlap(*new_region, #[trigger] existing_regions@[k]),
        decreases n - i,
    {
        let e = existing_regions[i];
        let a = *new_region;
        let ox1: i64 = if a.x >= e.x {
            a.x as i64
        } else {
            e.x as i64
        };
        let ox2: i64 = {
            let a2: i64 = a.x as i64 + a.width as i64;
            let b2: i64 = e.x as i64 + e.width as i64;
            if a2 <= b2 {
                a2
            } else {
                b2
            }
        };
        let oy1: i64 = if a.y >= e.y {
            a.y as i64
        } else {
            e.y as i64
        };
        let oy2: i64 = {
            let a2: i64 = a.y as i64 + a.height as i64;
            let b2: i64 = e.y as i64 + e.height as i64;
            if a2 <= b2 {
                a2
            } else {
                b2
            }
        };
        if ox2 > ox1 && oy2 > oy1 {
            proof {
                assert((ox2 - ox1) * (oy2 - oy1) <= 17179869184int * 17179869184) by (
                nonlinear_arith)
                    requires
                        0 < ox2 - ox1 <= 17179869184int,
                        0 < oy2 - oy1 <= 17179869184int,
                ;
                assert((a.width as int) * (a.height as int) <= 2147483648int * 2147483648) by (
                nonlinear_arith)
                    requires
                        -2147483648 <= a.width <= 2147483647,
                        -2147483648 <= a.height <= 2147483647,
                ;
                assert((a.width as int) * (a.height as int) >= -(2147483648int * 2147483648)) by (
                nonlinear_arith)
                    requires
                        -2147483648 <= a.width <= 2147483647,
                        -2147483648 <= a.height <= 2147483647,
                ;
            }
            let overlap_area: i128 = (ox2 - ox1) as i128 * (oy2 - oy1) as i128;
            let new_area: i128 = a.width as i128 * a.height as i128;
            if 10 * overlap_area > 3 * new_area {
                return true;
            }
        }
        i = i + 1;
    }
    false
}

/// Validate whether a point could be the center of an eye region: some
/// radius between 8 and 40 has a circle around the point that is mostly
/// dark.
fn validate_eye_region(
    img: &PixelGrid,
    center_x: usize,
    center_y: usize,
    dark_threshold: u8,
    width: usize,
    height: usize,
) -> (r: Option<EyeRegion>)
    requires
        img.wf(),
        width <= img.w,
        height <= img.h,
        center_x < width,
        center_y < height,
        img.w <= 100000,
        img.h <= 100000,
    ensures
        (match r {
            Option::Some(reg) => reg.x >= 0 && reg.y >= 0 && reg.x <= center_x && reg.y
                <= center_y && 16 <= reg.width <= 80 && reg.height == reg.width,
            Option::None => true,
        }),
{
    let mut radius: usize = 8;
    while radius <= 40
        invariant
            img.wf(),
            width <= img.w,
            height <= img.h,
            center_x < width,
            center_y < height,
            img.w <= 100000,
            img.h <= 100000,
            8 <= radius <= 41,
        decreases 41 - radius,
    {
        let mut dark_pixels: u32 = 0;
        let mut total_pixels: u32 = 0;
        let r64: i64 = radius as i64;
        let mut dy: i64 = -r64;
        while dy <= r64
            invariant
                img.wf(),
                width <= img.w,
                height <= img.h,
                center_x < width,
                center_y < height,
                img.w <= 100000,
                img.h <= 100000,
                r64 == radius,
                8 <= radius <= 41,
                -r64 <= dy <= r64 + 1,
                total_pixels <= 83 * (dy + 42),
                dark_pixels <= total_pixels,
            decreases r64 - dy + 1,
        {
            let mut dx: i64 = -r64;
            while dx <= r64
                invariant
                    img.wf(),
                    width <= img.w,
                    height <= img.h,
                    center_x < width,
                    center_y < height,
                    img.w <= 100000,
                    img.h <= 100000,
                    r64 == radius,
                    8 <= radius <= 41,
                    -r64 <= dy <= r64,
                    -r64 <= dx <= r64 + 1,
                    total_pixels <= 83 * (dy + 42) + (dx + r64),
                    dark_pixels <= total_pixels,
                decreases r64 - dx + 1,
            {
                proof {
                    assert(0 <= dx * dx <= 1764 && 0 <= dy * dy <= 1764 && 0 <= r64 * r64 <= 1764)
                        by (nonlinear_arith)
                        requires
                            -42 <= dx <= 42,
                            -42 <= dy <= 42,
                            0 <= r64 <= 42,
                    ;
                }
                if dx * dx + dy * dy <= r64 * r64 {
                    let px: i64 = center_x as i64 + dx;
                    let py: i64 = center_y as i64 + dy;
                    if px >= 0 && px < width as i64 && py >= 0 && py < height as i64 {
                        total_pixels = total_pixels + 1;
                        if img.get(py as usize, px as usize) < dark_threshold {
                            dark_pixels = dark_pixels + 1;
                        }
                    }
                }
                dx = dx + 1;
            }
            dy = dy + 1;
        }
        // at least two fifths of at least fifty pixels are dark
        if total_pixels > 50 && 5 * (dark_pixels as u64) > 2 * (total_pixels as u64) {
            let rx: i64 = center_x as i64 - r64;
            let ry: i64 = center_y as i64 - r64;
            return Some(
                EyeRegion {
                    x: if rx >= 0 {
                        rx as i32
                    } else {
                        0
                    },
                    y: if ry >= 0 {
                        ry as i32
                    } else {
                        0
                    },
                    width: (2 * radius) as i32,
                    height: (2 * radius) as i32,
                },
            );
        }
        radius = radius + 1;
    }
    None
}


/// Scan the upper part of the image for dark, mostly-circular regions,
/// dropping candidates that overlap an already accepted region.
fn find_dark_circular_regions(img: &PixelGrid, search_height: usize, width: usize) -> (r: Vec<
    EyeRegion,
>)
    requires
        img.wf(),
        search_height <= img.h,
        width == img.w,
        img.w <= 100000,
        img.h <= 100000,
    ensures
        forall|i: int|
            0 <= i < r@.len() ==> (#[trigger] r@[i]).x >= 0 && r@[i].y >= 0 && 16 <= r@[i].width
                <= 80 && r@[i].height == r@[i].width,
{
    let mut regions: Vec<EyeRegion> = Vec::new();
    if search_height == 0 || width == 0 {
        return regions;
    }
    // average brightness over the searched rows
    let mut total_brightness: u64 = 0;
    let mut y: usize = 0;
    while y < search_height
        invariant
            img.wf(),
            width == img.w,
            search_height <= img.h,
            img.w <= 100000,
            img.h <= 100000,
            y <= search_height,
            total_brightness <= 25500000 * y,
        decreases search_height - y,
    {
        let mut x: usize = 0;
        while x < width
            invariant
                img.wf(),
                width == img.w,
                search_height <= img.h,
                img.w <= 100000,
                img.h <= 100000,
                y < search_height,
                x <= width,
                total_brightness <= 25500000 * y + 255 * x,
            decreases width - x,
        {
            total_brightness = total_brightness + img.get(y, x) as u64;
            x = x + 1;
        }
        y = y + 1;
    }
    proof {
        assert(1 <= (search_height as int) * (width as int) <= 10000000000int) by (
        nonlinear_arith)
            requires
                1 <= search_height <= 100000,
                1 <= width <= 100000,
        ;
    }
    let pixel_count: u64 = (search_height as u64) * (width as u64);
    let avg_brightness: u64 = total_brightness / pixel_count;
    // seven tenths of the average, rounded down
    let dark_threshold64: u64 = avg_brightness * 7 / 10;
    let dark_threshold: u8 = if dark_threshold64 >= 255 {
        255
    } else {
        dark_threshold64 as u8
    };
    let step_size: usize = 10;
    if search_height <= 2 * step_size || width <= 2 * step_size {
        return regions;
    }
    let mut cy: usize = step_size;
    while cy < search_height - step_size
        invariant
            img.wf(),
            width == img.w,
            search_height <= img.h,
            img.w <= 100000,
            img.h <= 100000,
            2 * step_size < search_height,
            2 * step_size < width,
            step_size == 10,
            step_size <= cy <= search_height - step_size,
            forall|i: int|
                0 <= i < regions@.len() ==> (#[trigger] regions@[i]).x >= 0 && regions@[i].y >= 0
                    && 16 <= regions@[i].width <= 80 && regions@[i].height == regions@[i].width,
        decreases search_height - cy,
    {
        let mut cx: usize = step_size;
        while cx < width - step_size
            invariant
                img.wf(),
                width == img.w,
                search_height <= img.h,
                img.w <= 100000,
                img.h <= 100000,
                2 * step_size < search_height,
                2 * step_size < width,
                step_size == 10,
                step_size <= cy < search_height - step_size,
                step_size <= cx <= width - step_size,
                forall|i: int|
                    0 <= i < regions@.len() ==> (#[trigger] regions@[i]).x >= 0 && regions@[i].y
                        >= 0 && 16 <= regions@[i].width <= 80 && regions@[i].height
                        == regions@[i].width,
            decreases width - cx,
        {
            if img.get(cy, cx) < dark_threshold {
                match validate_eye_region(img, cx, cy, dark_threshold, width, search_height) {
                    Some(region) => {
                        if !overlaps_significantly(&region, &regions) {
                            regions.push(region);
                        }
                    },
                    None => {},
                }
            }
            cx = cx + 1;
        }
        cy = cy + 1;
    }
    regions
}

/// Simple eye detection: look for dark circular regions in the upper
/// three fifths of the image, keep those of a plausible eye size, and
/// return at most the two highest ones.
fn detect_eyes_simple(img: &PixelGrid) -> (r: Result<Vec<EyeRegion>, StringArtError>)
    requires
        img.wf(),
        img.w <= 100000,
        img.h <= 100000,
    ensures
        r is Ok,
        (match r {
            Result::Ok(v) => v@.len() <= 2 && forall|i: int|
                0 <= i < v@.len() ==> (#[trigger] v@[i]).x >= 0 && v@[i].y >= 0 && 16
                    <= v@[i].width <= 80 && v@[i].height == v@[i].width,
            Result::Err(_) => false,
        }),
{
    let h = img.h;
    let w = img.w;
    let search_height: usize = h * 6 / 10;
    let candidates = find_dark_circular_regions(img, search_height, w);
    let smaller: usize = if w <= h {
        w
    } else {
        h
    };
    let min_size: i64 = (smaller as i64) * 3 / 100;
    let max_size: i64 = (smaller as i64) * 15 / 100;
    let mut kept: Vec<EyeRegion> = Vec::new();
    let mut i: usize = 0;
    while i < candidates.len()
        invariant
            i <= candidates@.len(),
            forall|q: int|
                0 <= q < candidates@.len() ==> (#[trigger] candidates@[q]).x >= 0
                    && candidates@[q].y >= 0 && 16 <= candidates@[q].width <= 80
                    && candidates@[q].height == candidates@[q].width,
            forall|q: int|
                0 <= q < kept@.len() ==> (#[trigger] kept@[q]).x >= 0 && kept@[q].y >= 0 && 16
                    <= kept@[q].width <= 80 && kept@[q].height == kept@[q].width,
        decreases candidates@.len() - i,
    {
        let c = candidates[i];
        if c.width as i64 >= min_size && c.width as i64 <= max_size && c.height as i64 >= min_size
            && c.height as i64 <= max_size {
            kept.push(c);
        }
        i = i + 1;
    }
    // keep the two regions highest in the image (smallest y first)
    let mut eye_regions: Vec<EyeRegion> = Vec::new();
    if kept.len() > 0 {
        let mut first: usize = 0;
        let mut j: usize = 1;
        while j < kept.len()
            invariant
                kept@.len() > 0,
                j <= kept@.len(),
                first < j,
            decreases kept@.len() - j,
        {
            if kept[j].y < kept[first].y {
                first = j;
            }
            j = j + 1;
        }
        eye_regions.push(kept[first]);
        if kept.len() > 1 {
            let mut second: usize = if first == 0 {
                1
            } else {
                0
            };
            let mut q: usize = 0;
            while q < kept.len()
                invariant
                    kept@.len() > 1,
                    q <= kept@.len(),
                    second < kept@.len(),
                    first < kept@.len(),
                    second != first,
                decreases kept@.len() - q,
            {
                if q != first && kept[q].y < kept[second].y {
                    second = q;
                }
                q = q + 1;
            }
            eye_regions.push(kept[second]);
        }
    }
    Ok(eye_regions)
}

/// Detect eyes in the image: dark circular regions in the upper part,
/// at most two, each of a plausible eye size.
pub fn detect_eyes(img: &PixelGrid) -> (r: Result<Vec<EyeRegion>, StringArtError>)
    requires
        img.wf(),
        img.w <= 100000,
        img.h <= 100000,
    ensures
        r is Ok,
        (match r {
            Result::Ok(v) => v@.len() <= 2 && forall|i: int|
                0 <= i < v@.len() ==> (#[trigger] v@[i]).x >= 0 && v@[i].y >= 0 && 16
                    <= v@[i].width <= 80 && v@[i].height == v@[i].width,
            Result::Err(_) => false,
        }),
{
    detect_eyes_simple(img)
}

/// A pixel lies inside a region's bounding rectangle.
pub open spec fn in_region_rect(reg: EyeRegion, x: int, y: int) -> bool {
    reg.x <= x < reg.x + reg.width && reg.y <= y < reg.y + reg.height
}

/// The lowest row of a region clipped to the canvas.
pub open spec fn region_y_lo(eye: EyeRegion) -> int {
    if eye.y >= 0 {
        eye.y as int
    } else {
        0
    }
}

/// One past the highest row of a region clipped to the canvas.
pub open spec fn region_y_hi(eye: EyeRegion, size: int) -> int {
    if eye.y + eye.height <= size {
        eye.y + eye.height
    } else {
        size
    }
}

/// The leftmost column of a region clipped to the canvas.
pub open spec fn region_x_lo(eye: EyeRegion) -> int {
    if eye.x >= 0 {
        eye.x as int
    } else {
        0
    }
}

/// One past the rightmost column of a region clipped to the canvas.
pub open spec fn region_x_hi(eye: EyeRegion, size: int) -> int {
    if eye.x + eye.width <= size {
        eye.x + eye.width
    } else {
        size
    }
}

/// A region takes part in the mask: it has positive extent and its
/// clipped rectangle is nonempty.
pub open spec fn region_active(eye: EyeRegion, size: int) -> bool {
    region_y_lo(eye) < region_y_hi(eye, size) && region_x_lo(eye) < region_x_hi(eye, size)
        && eye.width > 0 && eye.height > 0
}

/// Sum of brightness over one row of a rectangle.
pub open spec fn rect_row_sum(cells: Seq<Seq<u8>>, y: int, x_lo: int, x_hi: int) -> int
    decreases x_hi - x_lo,
{
    if x_lo >= x_hi {
        0
    } else {
        (cells[y][x_lo] as int) + rect_row_sum(cells, y, x_lo + 1, x_hi)
    }
}

/// Sum of brightness over a rectangle.
pub open spec fn rect_sum(cells: Seq<Seq<u8>>, y_lo: int, y_hi: int, x_lo: int, x_hi: int) -> int
    decreases y_hi - y_lo,
{
    if y_lo >= y_hi {
        0
    } else {
        rect_row_sum(cells, y_lo, x_lo, x_hi) + rect_sum(cells, y_lo + 1, y_hi, x_lo, x_hi)
    }
}

/// The mean brightness of a region's clipped rectangle.
pub open spec fn region_avg(cells: Seq<Seq<u8>>, eye: EyeRegion, size: int) -> int {
    rect_sum(cells, region_y_lo(eye), region_y_hi(eye, size), region_x_lo(eye), region_x_hi(
        eye,
        size,
    )) / ((region_y_hi(eye, size) - region_y_lo(eye)) * (region_x_hi(eye, size) - region_x_lo(
        eye,
    )))
}

/// The pixel lies inside the region's elliptical footprint.
pub open spec fn in_ellipse(eye: EyeRegion, x: int, y: int) -> bool {
    let cx = eye.x + eye.width as int / 2;
    let cy = eye.y + eye.height as int / 2;
    let dxm = if x >= cx {
        x - cx
    } else {
        cx - x
    };
    let dym = if y >= cy {
        y - cy
    } else {
        cy - y
    };
    let hw2 = (eye.width as int) * (eye.width as int);
    let hh2 = (eye.height as int) * (eye.height as int);
    4 * ((dxm * dxm) * hh2 + (dym * dym) * hw2) <= hw2 * hh2
}

/// What one region makes of a pixel, given the value `prev` the pixel
/// held before: inside the clipped rectangle and the elliptical
/// footprint, a pixel well below the region's mean brightness is
/// boosted up to four times neutral, a bright highlight is damped to
/// seven tenths, and anything else keeps its previous value.
pub open spec fn eye_pixel_value(
    cells: Seq<Seq<u8>>,
    eye: EyeRegion,
    size: int,
    x: int,
    y: int,
    prev: int,
) -> int {
    if region_active(eye, size) && region_y_lo(eye) <= y < region_y_hi(eye, size) && region_x_lo(
        eye,
    ) <= x < region_x_hi(eye, size) && in_ellipse(eye, x, y) {
        let avg = region_avg(cells, eye, size);
        let b = cells[y][x] as int;
        if 10 * b < 8 * avg {
            100 + (300 * (avg - b)) / avg
        } else if 10 * b > 12 * avg {
            70
        } else {
            prev
        }
    } else {
        prev
    }
}

/// The enhancement multiplier of a pixel: the regions applied in
/// order, each overriding what earlier regions left, over a neutral
/// start.
pub open spec fn eye_mask_at(
    cells: Seq<Seq<u8>>,
    regions: Seq<EyeRegion>,
    size: int,
    x: int,
    y: int,
) -> int
    decreases regions.len(),
{
    if regions.len() == 0 {
        100
    } else {
        eye_pixel_value(
            cells,
            regions.last(),
            size,
            x,
            y,
            eye_mask_at(cells, regions.drop_last(), size, x, y),
        )
    }
}

/// Create an eye enhancement mask that boosts scores for dark areas in
/// eye regions: every pixel holds exactly the value of the regions
/// applied in order (see [`eye_mask_at`]) -- inside a region's
/// elliptical footprint, pixels well below the region's mean
/// brightness get a multiplier up to four times neutral, bright
/// highlights get seven tenths, and everything outside every region
/// stays neutral.
pub fn create_eye_enhancement_mask(
    image_size: usize,
    eye_regions: &Vec<EyeRegion>,
    target_image: &PixelGrid,
) -> (r: MaskGrid)
    requires
        target_image.wf(),
        target_image.w == image_size,
        target_image.h == image_size,
        image_size <= 100000,
    ensures
        r.wf(),
        r.w == image_size,
        r.h == image_size,
        forall|y: int, x: int|
            0 <= y < image_size && 0 <= x < image_size ==> #[trigger] r.at(y, x) == eye_mask_at(
                target_image.cells(),
                eye_regions@,
                image_size as int,
                x,
                y,
            ),
        forall|y: int, x: int|
            0 <= y < image_size && 0 <= x < image_size ==> 70 <= #[trigger] r.at(y, x) <= 400,
        forall|y: int, x: int|
            0 <= y < image_size && 0 <= x < image_size && (forall|k: int|
                0 <= k < eye_regions@.len() ==> !in_region_rect(#[trigger] eye_regions@[k], x, y))
                ==> #[trigger] r.at(y, x) == 100,
        eye_regions@.len() == 0 ==> r.is_neutral(),
{
    let ghost cells = target_image.cells();
    let ghost size = image_size as int;
    let mut mask = MaskGrid::neutral(image_size, image_size);
    proof {
        assert(eye_regions@.take(0) =~= Seq::<EyeRegion>::empty());
    }
    let mut e: usize = 0;
    while e < eye_regions.len()
        invariant
            target_image.wf(),
            target_image.w == image_size,
            target_image.h == image_size,
            image_size <= 100000,
            cells == target_image.cells(),
            size == image_size as int,
            e <= eye_regions@.len(),
            mask.wf(),
            mask.w == image_size,
            mask.h == image_size,
            forall|y: int, x: int|
                0 <= y < image_size && 0 <= x < image_size ==> #[trigger] mask.at(y, x)
                    == eye_mask_at(cells, eye_regions@.take(e as int), size, x, y),
            forall|y: int, x: int|
                0 <= y < image_size && 0 <= x < image_size ==> 70 <= #[trigger] mask.at(y, x)
                    <= 400,
            forall|y: int, x: int|
                0 <= y < image_size && 0 <= x < image_size && (forall|k: int|
                    0 <= k < e ==> !in_region_rect(#[trigger] eye_regions@[k], x, y))
                    ==> #[trigger] mask.at(y, x) == 100,
        decreases eye_regions@.len() - e,
    {
        let eye = eye_regions[e];
        let ghost prev_mask = mask;
        proof {
            assert(eye_regions@.take(e as int + 1).drop_last() =~= eye_regions@.take(e as int));
            assert(eye_regions@.take(e as int + 1).last() == eye);
        }
        let y_lo: i64 = if eye.y as i64 >= 0 {
            eye.y as i64
        } else {
            0
        };
        let y_hi: i64 = {
            let edge: i64 = eye.y as i64 + eye.height as i64;
            if edge <= image_size as i64 {
                edge
            } else {
                image_size as i64
            }
        };
        let x_lo: i64 = if eye.x as i64 >= 0 {
            eye.x as i64
        } else {
            0
        };
        let x_hi: i64 = {
            let edge: i64 = eye.x as i64 + eye.width as i64;
            if edge <= image_size as i64 {
                edge
            } else {
                image_size as i64
            }
        };
        proof {
            assert(y_lo as int == region_y_lo(eye));
            assert(y_hi as int == region_y_hi(eye, size));
            assert(x_lo as int == region_x_lo(eye));
            assert(x_hi as int == region_x_hi(eye, size));
        }
        if y_lo < y_hi && x_lo < x_hi && eye.width > 0 && eye.height > 0 {
            // mean brightness of the clipped rectangle
            let mut total_brightness: u64 = 0;
            let mut pixel_count: u64 = 0;
            let mut yy: i64 = y_lo;
            proof {
                assert(0 * (x_hi as int - x_lo as int) == 0) by (nonlinear_arith);
            }
            while yy < y_hi
                invariant
                    target_image.wf(),
                    target_image.w == image_size,
                    target_image.h == image_size,
                    image_size <= 100000,
                    cells == target_image.cells(),
                    0 <= y_lo <= yy <= y_hi <= image_size,
                    0 <= x_lo < x_hi <= image_size,
                    pixel_count == (yy - y_lo) * (x_hi - x_lo),
                    pixel_count <= 10000000000,
                    total_brightness <= 255 * pixel_count,
                    total_brightness as int + rect_sum(
                        cells,
                        yy as int,
                        y_hi as int,
                        x_lo as int,
                        x_hi as int,
                    ) == rect_sum(cells, y_lo as int, y_hi as int, x_lo as int, x_hi as int),
                decreases y_hi - yy,
            {
                let mut xx: i64 = x_lo;
                while xx < x_hi
                    invariant
                        target_image.wf(),
                        target_image.w == image_size,
                        target_image.h == image_size,
                        image_size <= 100000,
                        cells == target_image.cells(),
                        0 <= y_lo <= yy < y_hi <= image_size,
                        0 <= x_lo <= xx <= x_hi <= image_size,
                        pixel_count == (yy - y_lo) * (x_hi - x_lo) + (xx - x_lo),
                        pixel_count <= 10000000000,
                        total_brightness <= 255 * pixel_count,
                        total_brightness as int + rect_row_sum(
                            cells,
                            yy as int,
                            xx as int,
                            x_hi as int,
                        ) + rect_sum(
                            cells,
                            yy as int + 1,
                            y_hi as int,
                            x_lo as int,
                            x_hi as int,
                        ) == rect_sum(cells, y_lo as int, y_hi as int, x_lo as int, x_hi as int),
                    decreases x_hi - xx,
                {
                    let v = target_image.get(yy as usize, xx as usize);
                    proof {
                        assert(cells[yy as int] == target_image.rows@[yy as int]@);
                        assert((yy as int - y_lo) * (x_hi as int - x_lo) + (xx as int - x_lo)
                            < 10000000000int) by (nonlinear_arith)
                            requires
                                0 <= yy as int - y_lo <= 99999,
                                0 <= x_hi as int - x_lo <= 100000,
                                0 <= xx as int - x_lo < 100000,
                        ;
                    }
                    total_brightness = total_brightness + v as u64;
                    pixel_count = pixel_count + 1;
                    xx = xx + 1;
                }
                proof {
                    assert((yy as int - y_lo) * (x_hi as int - x_lo) + (x_hi as int - x_lo) == (yy
                        as int + 1 - y_lo) * (x_hi as int - x_lo)) by (nonlinear_arith);
                    assert((yy as int + 1 - y_lo) * (x_hi as int - x_lo) <= 10000000000int) by (
                    nonlinear_arith)
                        requires
                            0 <= yy as int + 1 - y_lo <= 100000,
                            0 <= x_hi as int - x_lo <= 100000,
                    ;
                }
                yy = yy + 1;
            }
            proof {
                assert(pixel_count > 0) by {
                    assert((y_hi as int - y_lo) * (x_hi as int - x_lo) >= 1) by (nonlinear_arith)
                        requires
                            y_hi as int - y_lo >= 1,
                            x_hi as int - x_lo >= 1,
                    ;
                }
            }
            let avg_brightness: u64 = total_brightness / pixel_count;
            proof {
                vstd::arithmetic::div_mod::lemma_div_is_ordered(
                    total_brightness as int,
                    255 * (pixel_count as int),
                    pixel_count as int,
                );
                vstd::arithmetic::div_mod::lemma_div_multiples_vanish(255, pixel_count as int);
                assert(255 * (pixel_count as int) == (pixel_count as int) * 255);
                assert(avg_brightness as int == region_avg(cells, eye, size));
            }
            let center_x: i64 = eye.x as i64 + eye.width as i64 / 2;
            let center_y: i64 = eye.y as i64 + eye.height as i64 / 2;
            let half_w: i64 = eye.width as i64;
            let half_h: i64 = eye.height as i64;
            proof {
                assert(0 <= (eye.width as i64) / 2 <= eye.width as int);
                assert(0 <= (eye.height as i64) / 2 <= eye.height as int);
            }
            let mut yy: i64 = y_lo;
            while yy < y_hi
                invariant
                    target_image.wf(),
                    target_image.w == image_size,
                    target_image.h == image_size,
                    image_size <= 100000,
                    cells == target_image.cells(),
                    size == image_size as int,
                    e < eye_regions@.len(),
                    eye == eye_regions@[e as int],
                    region_active(eye, size),
                    y_lo as int == region_y_lo(eye),
                    y_hi as int == region_y_hi(eye, size),
                    x_lo as int == region_x_lo(eye),
                    x_hi as int == region_x_hi(eye, size),
                    0 <= y_lo <= yy <= y_hi <= image_size,
                    0 <= x_lo < x_hi <= image_size,
                    avg_brightness <= 255,
                    avg_brightness as int == region_avg(cells, eye, size),
                    half_w == eye.width as int,
                    half_h == eye.height as int,
                    1 <= half_w <= 2147483647,
                    1 <= half_h <= 2147483647,
                    center_x == eye.x + eye.width as int / 2,
                    center_y == eye.y + eye.height as int / 2,
                    eye.x <= center_x <= eye.x + eye.width,
                    eye.y <= center_y <= eye.y + eye.height,
                    mask.wf(),
                    mask.w == image_size,
                    mask.h == image_size,
                    forall|y: int, x: int|
                        0 <= y < image_size && 0 <= x < image_size ==> 70 <= #[trigger] mask.at(
                            y,
                            x,
                        ) <= 400,
                    forall|y: int, x: int|
                        0 <= y < image_size && 0 <= x < image_size ==> #[trigger] mask.at(y, x)
                            == (if y_lo <= y < y_hi && x_lo <= x < x_hi && y < yy {
                            eye_pixel_value(
                                cells,
                                eye,
                                size,
                                x,
                                y,
                                prev_mask.at(y, x),
                            )
                        } else {
                            prev_mask.at(y, x)
                        }),
                    forall|y: int, x: int|
                        0 <= y < image_size && 0 <= x < image_size ==> #[trigger] prev_mask.at(
                            y,
                            x,
                        ) == eye_mask_at(cells, eye_regions@.take(e as int), size, x, y),
                    forall|y: int, x: int|
                        0 <= y < image_size && 0 <= x < image_size ==> 70
                            <= #[trigger] prev_mask.at(y, x) <= 400,
                decreases y_hi - yy,
            {
                let mut xx: i64 = x_lo;
                while xx < x_hi
                    invariant
                        target_image.wf(),
                        target_image.w == image_size,
                        target_image.h == image_size,
                        image_size <= 100000,
                        cells == target_image.cells(),
                        size == image_size as int,
                        e < eye_regions@.len(),
                        eye == eye_regions@[e as int],
                        region_active(eye, size),
                        y_lo as int == region_y_lo(eye),
                        y_hi as int == region_y_hi(eye, size),
                        x_lo as int == region_x_lo(eye),
                        x_hi as int == region_x_hi(eye, size),
                        0 <= y_lo <= yy < y_hi <= image_size,
                        0 <= x_lo <= xx <= x_hi <= image_size,
                        avg_brightness <= 255,
                        avg_brightness as int == region_avg(cells, eye, size),
                        half_w == eye.width as int,
                        half_h == eye.height as int,
                        1 <= half_w <= 2147483647,
                        1 <= half_h <= 2147483647,
                        center_x == eye.x + eye.width as int / 2,
                        center_y == eye.y + eye.height as int / 2,
                        eye.x <= center_x <= eye.x + eye.width,
                        eye.y <= center_y <= eye.y + eye.height,
                        mask.wf(),
                        mask.w == image_size,
                        mask.h == image_size,
                        forall|y: int, x: int|
                            0 <= y < image_size && 0 <= x < image_size ==> 70
                                <= #[trigger] mask.at(y, x) <= 400,
                        forall|y: int, x: int|
                            0 <= y < image_size && 0 <= x < image_size ==> #[trigger] mask.at(
                                y,
                                x,
                            ) == (if y_lo <= y < y_hi && x_lo <= x < x_hi && (y < yy || (y == yy
                                && x < xx)) {
                                eye_pixel_value(
                                    cells,
                                    eye,
                                    size,
                                    x,
                                    y,
                                    prev_mask.at(y, x),
                                )
                            } else {
                                prev_mask.at(y, x)
                            }),
                        forall|y: int, x: int|
                            0 <= y < image_size && 0 <= x < image_size ==> #[trigger] prev_mask.at(
                                y,
                                x,
                            ) == eye_mask_at(cells, eye_regions@.take(e as int), size, x, y),
                        forall|y: int, x: int|
                            0 <= y < image_size && 0 <= x < image_size ==> 70
                                <= #[trigger] prev_mask.at(y, x) <= 400,
                    decreases x_hi - xx,
                {
                    let dxm: i64 = if xx >= center_x {
                        xx - center_x
                    } else {
                        center_x - xx
                    };
                    let dym: i64 = if yy >= center_y {
                        yy - center_y
                    } else {
                        center_y - yy
                    };
                    proof {
                        assert(0 <= dxm <= half_w && 0 <= dym <= half_h);
                        assert(0 <= (dxm as int) * (dxm as int) <= 4611686014132420609int && 0
                            <= (dym as int) * (dym as int) <= 4611686014132420609int && 0 <= (
                        half_w as int) * (half_w as int) <= 4611686014132420609int && 0 <= (
                        half_h as int) * (half_h as int) <= 4611686014132420609int) by (
                        nonlinear_arith)
                            requires
                                0 <= dxm <= 2147483647,
                                0 <= dym <= 2147483647,
                                0 <= half_w <= 2147483647,
                                0 <= half_h <= 2147483647,
                        ;
                    }
                    let dx2: i128 = (dxm as i128) * (dxm as i128);
                    let dy2: i128 = (dym as i128) * (dym as i128);
                    let hw2: i128 = (half_w as i128) * (half_w as i128);
                    let hh2: i128 = (half_h as i128) * (half_h as i128);
                    proof {
                        assert(0 <= (dx2 as int) * (hh2 as int)
                            <= 21267647892944572736998860269687930881int && 0 <= (dy2 as int) * (
                        hw2 as int) <= 21267647892944572736998860269687930881int && 0 <= (
                        hw2 as int) * (hh2 as int)
                            <= 21267647892944572736998860269687930881int) by (nonlinear_arith)
                            requires
                                0 <= dx2 as int <= 4611686014132420609int,
                                0 <= dy2 as int <= 4611686014132420609int,
                                0 <= hw2 as int <= 4611686014132420609int,
                                0 <= hh2 as int <= 4611686014132420609int,
                        ;
                    }
                    // inside the elliptical footprint:
                    // (2 dx / w)^2 + (2 dy / h)^2 <= 1
                    let lhs: i128 = 4 * (dx2 * hh2 + dy2 * hw2);
                    let rhs: i128 = hw2 * hh2;
                    let ghost ghost_prev = mask.at(yy as int, xx as int);
                    proof {
                        assert((lhs <= rhs) == in_ellipse(eye, xx as int, yy as int));
                    }
                    if lhs <= rhs {
                        let pb: u64 = target_image.get(yy as usize, xx as usize) as u64;
                        proof {
                            assert(cells[yy as int] == target_image.rows@[yy as int]@);
                            assert(pb as int == cells[yy as int][xx as int] as int);
                        }
                        if 10 * pb < 8 * avg_brightness {
                            // boost dark pixels up to four times neutral
                            let boost: u64 = 100 + (300 * (avg_brightness - pb))
                                / avg_brightness;
                            proof {
                                vstd::arithmetic::div_mod::lemma_div_is_ordered(
                                    300 * (avg_brightness - pb) as int,
                                    300 * avg_brightness as int,
                                    avg_brightness as int,
                                );
                                vstd::arithmetic::div_mod::lemma_div_multiples_vanish(
                                    300,
                                    avg_brightness as int,
                                );
                                assert(300 * (avg_brightness as int) == (avg_brightness as int)
                                    * 300);
                                vstd::arithmetic::div_mod::lemma_div_pos_is_pos(
                                    300 * (avg_brightness - pb) as int,
                                    avg_brightness as int,
                                );
                                assert(boost as int == eye_pixel_value(
                                    cells,
                                    eye,
                                    size,
                                    xx as int,
                                    yy as int,
                                    ghost_prev,
                                ));
                            }
                            let ghost before = mask;
                            mask.set(yy as usize, xx as usize, boost as u32);
                            proof {
                                lemma_mask_paint_step(
                                    before,
                                    mask,
                                    prev_mask,
                                    cells,
                                    eye,
                                    size,
                                    image_size as int,
                                    y_lo as int,
                                    y_hi as int,
                                    x_lo as int,
                                    x_hi as int,
                                    yy as int,
                                    xx as int,
                                );
                            }
                        } else if 10 * pb > 12 * avg_brightness {
                            // damp bright highlights
                            proof {
                                assert(70int == eye_pixel_value(
                                    cells,
                                    eye,
                                    size,
                                    xx as int,
                                    yy as int,
                                    ghost_prev,
                                ));
                            }
                            let ghost before = mask;
                            mask.set(yy as usize, xx as usize, 70);
                            proof {
                                lemma_mask_paint_step(
                                    before,
                                    mask,
                                    prev_mask,
                                    cells,
                                    eye,
                                    size,
                                    image_size as int,
                                    y_lo as int,
                                    y_hi as int,
                                    x_lo as int,
                                    x_hi as int,
                                    yy as int,
                                    xx as int,
                                );
                            }
                        } else {
                            proof {
                                assert(mask.at(yy as int, xx as int) == eye_pixel_value(
                                    cells,
                                    eye,
                                    size,
                                    xx as int,
                                    yy as int,
                                    prev_mask.at(yy as int, xx as int),
                                ));
                            }
                        }
                    } else {
                        proof {
                            assert(mask.at(yy as int, xx as int) == eye_pixel_value(
                                cells,
                                eye,
                                size,
                                xx as int,
                                yy as int,
                                prev_mask.at(yy as int, xx as int),
                            ));
                        }
                    }
                    xx = xx + 1;
                }
                yy = yy + 1;
            }
            proof {
                assert forall|y: int, x: int|
                    0 <= y < image_size && 0 <= x < image_size implies #[trigger] mask.at(y, x)
                    == eye_mask_at(cells, eye_regions@.take(e as int + 1), size, x, y) by {
                    if !(y_lo <= y < y_hi && x_lo <= x < x_hi) {
                        assert(!(region_y_lo(eye) <= y < region_y_hi(eye, size) && region_x_lo(
                            eye,
                        ) <= x < region_x_hi(eye, size)));
                    }
                }
                assert forall|y: int, x: int|
                    0 <= y < image_size && 0 <= x < image_size && (forall|k: int|
                        0 <= k < e + 1 ==> !in_region_rect(
                            #[trigger] eye_regions@[k],
                            x,
                            y,
                        )) implies #[trigger] mask.at(y, x) == 100 by {
                    assert(!in_region_rect(eye, x, y));
                    assert(!(y_lo <= y < y_hi && x_lo <= x < x_hi));
                    assert(prev_mask.at(y, x) == 100);
                }
            }
        } else {
            proof {
                assert forall|y: int, x: int|
                    0 <= y < image_size && 0 <= x < image_size implies #[trigger] mask.at(y, x)
                    == eye_mask_at(cells, eye_regions@.take(e as int + 1), size, x, y) by {
                    assert(!region_active(eye, size));
                }
            }
        }
        e = e + 1;
    }
    proof {
        assert(eye_regions@.take(eye_regions@.len() as int) =~= eye_regions@);
        if eye_regions@.len() == 0 {
        }
    }
    mask
}

/// One painted pixel extends the processed prefix of the region scan
/// by one cell, leaving every other cell as it was.
proof fn lemma_mask_paint_step(
    before: MaskGrid,
    after: MaskGrid,
    prev_mask: MaskGrid,
    cells: Seq<Seq<u8>>,
    eye: EyeRegion,
    size: int,
    n: int,
    y_lo: int,
    y_hi: int,
    x_lo: int,
    x_hi: int,
    yy: int,
    xx: int,
)
    requires
        after.w == before.w,
        after.h == before.h,
        before.w == n,
        before.h == n,
        0 <= yy < n,
        0 <= xx < n,
        after.at(yy, xx) == eye_pixel_value(cells, eye, size, xx, yy, prev_mask.at(yy, xx)),
        forall|y: int, x: int|
            0 <= y < n && 0 <= x < n && !(y == yy && x == xx) ==> #[trigger] after.at(y, x)
                == before.at(y, x),
        forall|y: int, x: int|
            0 <= y < n && 0 <= x < n ==> #[trigger] before.at(y, x) == (if y_lo <= y < y_hi
                && x_lo <= x < x_hi && (y < yy || (y == yy && x < xx)) {
                eye_pixel_value(cells, eye, size, x, y, prev_mask.at(y, x))
            } else {
                prev_mask.at(y, x)
            }),
        y_lo <= yy < y_hi,
        x_lo <= xx < x_hi,
    ensures
        forall|y: int, x: int|
            0 <= y < n && 0 <= x < n ==> #[trigger] after.at(y, x) == (if y_lo <= y < y_hi && x_lo
                <= x < x_hi && (y < yy || (y == yy && x < xx + 1)) {
                eye_pixel_value(cells, eye, size, x, y, prev_mask.at(y, x))
            } else {
                prev_mask.at(y, x)
            }),
{
    assert forall|y: int, x: int| 0 <= y < n && 0 <= x < n implies #[trigger] after.at(y, x) == (
    if y_lo <= y < y_hi && x_lo <= x < x_hi && (y < yy || (y == yy && x < xx + 1)) {
        eye_pixel_value(cells, eye, size, x, y, prev_mask.at(y, x))
    } else {
        prev_mask.at(y, x)
    }) by {
        if !(y == yy && x == xx) {
            assert(after.at(y, x) == before.at(y, x));
        }
    }
}

/// A neutral mask of the session's size; eye emphasis needs the target
/// image, so this legacy entry point no longer protects anything.
pub fn create_eye_protection_mask(image_size: usize, _eye_regions: &Vec<EyeRegion>) -> (r:
    MaskGrid)
    ensures
        r.wf(),
        r.w == image_size,
        r.h == image_size,
        r.is_neutral(),
{
    MaskGrid::neutral(image_size, image_size)
}


/// The larger of two integers.
pub open spec fn imax(a: int, b: int) -> int {
    if a >= b {
        a
    } else {
        b
    }
}

/// The smaller of two integers.
pub open spec fn imin(a: int, b: int) -> int {
    if a <= b {
        a
    } else {
        b
    }
}

/// The maximum of the mask over the square window with corner
/// `(y0, x0)` and side `side`, folded in row-major order from the
/// offset `(dy, dx)` on, starting from zero.
pub open spec fn win_max_from(
    m: MaskGrid,
    y0: int,
    x0: int,
    side: int,
    dy: int,
    dx: int,
) -> int
    decreases side - dy, side - dx,
{
    if dy >= side || side < 0 {
        0
    } else if dx >= side {
        win_max_from(m, y0, x0, side, dy + 1, 0)
    } else {
        imax(m.at(y0 + dy, x0 + dx), win_max_from(m, y0, x0, side, dy, dx + 1))
    }
}

/// The minimum of the mask over the square window with corner
/// `(y0, x0)` and side `side`, folded in row-major order from the
/// offset `(dy, dx)` on, starting from the neutral multiplier.
pub open spec fn win_min_from(
    m: MaskGrid,
    y0: int,
    x0: int,
    side: int,
    dy: int,
    dx: int,
) -> int
    decreases side - dy, side - dx,
{
    if dy >= side || side < 0 {
        100
    } else if dx >= side {
        win_min_from(m, y0, x0, side, dy + 1, 0)
    } else {
        imin(m.at(y0 + dy, x0 + dx), win_min_from(m, y0, x0, side, dy, dx + 1))
    }
}

/// The window maximum of an all-zero mask is zero.
pub proof fn lemma_win_max_zero(m: MaskGrid, y0: int, x0: int, side: int, dy: int, dx: int)
    requires
        forall|y: int, x: int| 0 <= y < m.h && 0 <= x < m.w ==> #[trigger] m.at(y, x) == 0,
        0 <= y0,
        0 <= x0,
        y0 + side <= m.h,
        x0 + side <= m.w,
        0 <= dy,
        0 <= dx,
    ensures
        win_max_from(m, y0, x0, side, dy, dx) == 0,
    decreases side - dy, side - dx,
{
    if dy >= side || side < 0 {
    } else if dx >= side {
        lemma_win_max_zero(m, y0, x0, side, dy + 1, 0);
    } else {
        lemma_win_max_zero(m, y0, x0, side, dy, dx + 1);
    }
}

/// A positive window maximum is attained by some cell of the window.
pub proof fn lemma_win_max_attained(m: MaskGrid, y0: int, x0: int, side: int, dy: int, dx: int)
    requires
        0 <= dy,
        0 <= dx,
        win_max_from(m, y0, x0, side, dy, dx) != 0,
    ensures
        exists|qy: int, qx: int|
            dy <= qy < side && 0 <= qx < side && #[trigger] m.at(y0 + qy, x0 + qx) == win_max_from(
                m,
                y0,
                x0,
                side,
                dy,
                dx,
            ),
    decreases side - dy, side - dx,
{
    if dy >= side || side < 0 {
    } else if dx >= side {
        lemma_win_max_attained(m, y0, x0, side, dy + 1, 0);
    } else {
        let v = win_max_from(m, y0, x0, side, dy, dx);
        if m.at(y0 + dy, x0 + dx) == v {
        } else {
            lemma_win_max_attained(m, y0, x0, side, dy, dx + 1);
        }
    }
}

/// The window minimum is a lower bound on every cell of the window.
pub proof fn lemma_win_min_bound(
    m: MaskGrid,
    y0: int,
    x0: int,
    side: int,
    dy: int,
    dx: int,
    qy: int,
    qx: int,
)
    requires
        0 <= dy,
        0 <= dx,
        dy <= qy < side,
        0 <= qx < side,
        qy > dy || qx >= dx,
    ensures
        win_min_from(m, y0, x0, side, dy, dx) <= m.at(y0 + qy, x0 + qx),
    decreases side - dy, side - dx,
{
    if dy >= side || side < 0 {
    } else if dx >= side {
        lemma_win_min_bound(m, y0, x0, side, dy + 1, 0, qy, qx);
    } else {
        if qy == dy && qx == dx {
        } else {
            lemma_win_min_bound(m, y0, x0, side, dy, dx + 1, qy, qx);
        }
    }
}

/// The window minimum is never negative.
pub proof fn lemma_win_min_nonneg(m: MaskGrid, y0: int, x0: int, side: int, dy: int, dx: int)
    ensures
        win_min_from(m, y0, x0, side, dy, dx) >= 0,
    decreases side - dy, side - dx,
{
    if dy >= side || side < 0 {
    } else if dx >= side {
        lemma_win_min_nonneg(m, y0, x0, side, dy + 1, 0);
    } else {
        lemma_win_min_nonneg(m, y0, x0, side, dy, dx + 1);
    }
}

/// Every cell of the mask is either unprotected or fully marked.
pub open spec fn mask_binary(m: MaskGrid) -> bool {
    forall|y: int, x: int|
        0 <= y < m.h && 0 <= x < m.w ==> #[trigger] m.at(y, x) == 0 || m.at(y, x) == 100
}

/// Flood fill to size a connected bright region, marking every visited
/// pixel; the walk carries a budget that covers every pixel and its
/// four neighbours.
fn flood_fill_region(
    img: &PixelGrid,
    visited: &mut Vec<Vec<bool>>,
    start_x: usize,
    start_y: usize,
    threshold: u8,
) -> (count: u64)
    requires
        img.wf(),
        img.w <= 100000,
        img.h <= 100000,
        old(visited)@.len() == img.h,
        forall|y: int| 0 <= y < img.h ==> (#[trigger] old(visited)@[y])@.len() == img.w,
    ensures
        final(visited)@.len() == img.h,
        forall|y: int| 0 <= y < img.h ==> (#[trigger] final(visited)@[y])@.len() == img.w,
        forall|y: int, x: int|
            0 <= y < img.h && 0 <= x < img.w && old(visited)@[y]@[x] ==> #[trigger] final(
                visited
            )@[y]@[x],
        forall|y: int, x: int|
            0 <= y < img.h && 0 <= x < img.w && #[trigger] final(visited)@[y]@[x] && !old(
                visited
            )@[y]@[x] ==> img.at(y, x) >= threshold,
{
    let w = img.w;
    let h = img.h;
    let mut stack: Vec<(usize, usize)> = Vec::new();
    stack.push((start_x, start_y));
    let mut count: u64 = 0;
    proof {
        assert(0 <= 5 * (w as int) * (h as int) <= 50000000000int) by (nonlinear_arith)
            requires
                0 <= w <= 100000,
                0 <= h <= 100000,
        ;
    }
    let budget: u64 = 5 * (w as u64) * (h as u64) + 5;
    let mut steps: u64 = 0;
    while steps < budget && stack.len() > 0
        invariant
            img.wf(),
            w == img.w,
            h == img.h,
            steps <= budget,
            count <= steps,
            visited@.len() == h,
            forall|y: int| 0 <= y < h ==> (#[trigger] visited@[y])@.len() == w,
            forall|yy: int, xx: int|
                0 <= yy < h && 0 <= xx < w && old(visited)@[yy]@[xx]
                    ==> #[trigger] visited@[yy]@[xx],
            forall|yy: int, xx: int|
                0 <= yy < h && 0 <= xx < w && #[trigger] visited@[yy]@[xx] && !old(
                    visited
                )@[yy]@[xx] ==> img.at(yy, xx) >= threshold,
        decreases budget - steps,
    {
        steps = steps + 1;
        let top = stack.pop().unwrap();
        let x = top.0;
        let y = top.1;
        if x < w && y < h {
            let seen: bool = visited[y][x];
            if !seen && img.get(y, x) >= threshold {
                let row: &mut Vec<bool> = &mut visited[y];
                row.set(x, true);
                count = count + 1;
                if x > 0 {
                    stack.push((x - 1, y));
                }
                if x + 1 < w {
                    stack.push((x + 1, y));
                }
                if y > 0 {
                    stack.push((x, y - 1));
                }
                if y + 1 < h {
                    stack.push((x, y + 1));
                }
            }
        }
    }
    count
}

/// Mark a connected bright region in the protection mask, with the
/// same budgeted walk as the sizing pass.
fn mark_negative_space_region(
    img: &PixelGrid,
    mask: &mut MaskGrid,
    start_x: usize,
    start_y: usize,
    threshold: u8,
)
    requires
        img.wf(),
        img.w <= 100000,
        img.h <= 100000,
        old(mask).wf(),
        old(mask).w == img.w,
        old(mask).h == img.h,
        mask_binary(*old(mask)),
    ensures
        final(mask).wf(),
        final(mask).w == img.w,
        final(mask).h == img.h,
        mask_binary(*final(mask)),
        forall|y: int, x: int|
            0 <= y < img.h && 0 <= x < img.w && #[trigger] final(mask).at(y, x) == 100 ==> old(
                mask,
            ).at(y, x) == 100 || img.at(y, x) >= threshold,
        start_y < img.h && start_x < img.w && img.at(start_y as int, start_x as int) >= threshold
            ==> final(mask).at(start_y as int, start_x as int) == 100,
{
    let w = img.w;
    let h = img.h;
    let mut visited: Vec<Vec<bool>> = Vec::new();
    let mut vy: usize = 0;
    while vy < h
        invariant
            vy <= h,
            visited@.len() == vy,
            forall|y: int| 0 <= y < vy ==> (#[trigger] visited@[y])@.len() == w,
            forall|y: int, x: int| 0 <= y < vy && 0 <= x < w ==> !(#[trigger] visited@[y]@[x]),
        decreases h - vy,
    {
        let mut row: Vec<bool> = Vec::new();
        let mut vx: usize = 0;
        while vx < w
            invariant
                vx <= w,
                row@.len() == vx,
                forall|x: int| 0 <= x < vx ==> !(#[trigger] row@[x]),
            decreases w - vx,
        {
            row.push(false);
            vx = vx + 1;
        }
        visited.push(row);
        vy = vy + 1;
    }
    let mut stack: Vec<(usize, usize)> = Vec::new();
    stack.push((start_x, start_y));
    proof {
        assert(0 <= 5 * (w as int) * (h as int) <= 50000000000int) by (nonlinear_arith)
            requires
                0 <= w <= 100000,
                0 <= h <= 100000,
        ;
    }
    let budget: u64 = 5 * (w as u64) * (h as u64) + 5;
    let mut steps: u64 = 0;
    while steps < budget && stack.len() > 0
        invariant
            img.wf(),
            w == img.w,
            h == img.h,
            steps <= budget,
            visited@.len() == h,
            forall|y: int| 0 <= y < h ==> (#[trigger] visited@[y])@.len() == w,
            mask.wf(),
            mask.w == w,
            mask.h == h,
            mask_binary(*mask),
            forall|yy: int, xx: int|
                0 <= yy < h && 0 <= xx < w && #[trigger] mask.at(yy, xx) == 100 ==> old(mask).at(
                    yy,
                    xx,
                ) == 100 || img.at(yy, xx) >= threshold,
            (start_y < h && start_x < w && img.at(start_y as int, start_x as int) >= threshold)
                ==> (mask.at(start_y as int, start_x as int) == 100 || (steps == 0
                && stack@ =~= seq![(start_x, start_y)] && !visited@[start_y as int]@[start_x as int])),
        decreases budget - steps,
    {
        steps = steps + 1;
        let top = stack.pop().unwrap();
        let x = top.0;
        let y = top.1;
        if x < w && y < h {
            let seen: bool = visited[y][x];
            if !seen && img.get(y, x) >= threshold {
                let row: &mut Vec<bool> = &mut visited[y];
                row.set(x, true);
                let ghost before = *mask;
                mask.set(y, x, 100);
                proof {
                    assert forall|yy: int, xx: int|
                        0 <= yy < mask.h && 0 <= xx < mask.w implies (#[trigger] mask.at(yy, xx)
                        == 0 || mask.at(yy, xx) == 100) && (mask.at(yy, xx) == 100 ==> old(
                        mask,
                    ).at(yy, xx) == 100 || img.at(yy, xx) >= threshold) by {
                        if !(yy == y as int && xx == x as int) {
                            assert(mask.at(yy, xx) == before.at(yy, xx));
                        }
                    }
                }
                if x > 0 {
                    stack.push((x - 1, y));
                }
                if x + 1 < w {
                    stack.push((x + 1, y));
                }
                if y > 0 {
                    stack.push((x, y - 1));
                }
                if y + 1 < h {
                    stack.push((x, y + 1));
                }
            }
        }
    }
}

/// A fresh mask with the same cells as the given one.
fn mask_copy(src_mask: &MaskGrid) -> (r: MaskGrid)
    requires
        src_mask.wf(),
    ensures
        r.wf(),
        r.w == src_mask.w,
        r.h == src_mask.h,
        forall|y: int, x: int|
            0 <= y < src_mask.h && 0 <= x < src_mask.w ==> #[trigger] r.at(y, x) == src_mask.at(
                y,
                x,
            ),
{
    let w = src_mask.w;
    let h = src_mask.h;
    let mut out = MaskGrid::new_fill(w, h, 0);
    let mut y: usize = 0;
    while y < h
        invariant
            src_mask.wf(),
            w == src_mask.w,
            h == src_mask.h,
            y <= h,
            out.wf(),
            out.w == w,
            out.h == h,
            forall|yy: int, xx: int|
                0 <= yy < y && 0 <= xx < w ==> #[trigger] out.at(yy, xx) == src_mask.at(yy, xx),
        decreases h - y,
    {
        let mut x: usize = 0;
        while x < w
            invariant
                src_mask.wf(),
                w == src_mask.w,
                h == src_mask.h,
                y < h,
                x <= w,
                out.wf(),
                out.w == w,
                out.h == h,
                forall|yy: int, xx: int|
                    0 <= yy < y && 0 <= xx < w ==> #[trigger] out.at(yy, xx) == src_mask.at(
                        yy,
                        xx,
                    ),
                forall|xx: int|
                    0 <= xx < x ==> #[trigger] out.at(y as int, xx) == src_mask.at(y as int, xx),
            decreases w - x,
        {
            let v = src_mask.get(y, x);
            out.set(y, x, v);
            x = x + 1;
        }
        y = y + 1;
    }
    out
}

/// A cell on which the morphological window operators act: inside the
/// border of the given radius.
pub open spec fn win_interior(y: int, x: int, radius: int, w: int, h: int) -> bool {
    radius <= y < h - radius && radius <= x < w - radius
}

/// Simple morphological dilation: each interior cell becomes the
/// maximum of its window; border cells keep their value.
fn morphological_dilate(src_mask: &MaskGrid, radius: usize) -> (r: MaskGrid)
    requires
        src_mask.wf(),
        mask_binary(*src_mask),
        radius <= 10,
    ensures
        r.wf(),
        r.w == src_mask.w,
        r.h == src_mask.h,
        mask_binary(r),
        forall|y: int, x: int|
            0 <= y < src_mask.h && 0 <= x < src_mask.w ==> #[trigger] r.at(y, x) == (
            if win_interior(y, x, radius as int, src_mask.w as int, src_mask.h as int) {
                win_max_from(
                    *src_mask,
                    y - radius,
                    x - radius,
                    2 * radius + 1,
                    0,
                    0,
                )
            } else {
                src_mask.at(y, x)
            }),
{
    let w = src_mask.w;
    let h = src_mask.h;
    let ghost rad = radius as int;
    let ghost side = 2 * rad + 1;
    let mut out = mask_copy(src_mask);
    if h <= 2 * radius || w <= 2 * radius {
        return out;
    }
    let mut y: usize = radius;
    while y < h - radius
        invariant
            src_mask.wf(),
            mask_binary(*src_mask),
            w == src_mask.w,
            h == src_mask.h,
            2 * radius < h,
            2 * radius < w,
            radius <= 10,
            rad == radius,
            side == 2 * rad + 1,
            radius <= y <= h - radius,
            out.wf(),
            out.w == w,
            out.h == h,
            mask_binary(out),
            forall|yy: int, xx: int|
                0 <= yy < h && 0 <= xx < w ==> #[trigger] out.at(yy, xx) == (
                if win_interior(yy, xx, rad, w as int, h as int) && yy < y {
                    win_max_from(*src_mask, yy - rad, xx - rad, side, 0, 0)
                } else {
                    src_mask.at(yy, xx)
                }),
        decreases h - radius - y,
    {
        let mut x: usize = radius;
        while x < w - radius
            invariant
                src_mask.wf(),
                mask_binary(*src_mask),
                w == src_mask.w,
                h == src_mask.h,
                2 * radius < h,
                2 * radius < w,
                radius <= 10,
                rad == radius,
                side == 2 * rad + 1,
                radius <= y < h - radius,
                radius <= x <= w - radius,
                out.wf(),
                out.w == w,
                out.h == h,
                mask_binary(out),
                forall|yy: int, xx: int|
                    0 <= yy < h && 0 <= xx < w ==> #[trigger] out.at(yy, xx) == (
                    if win_interior(yy, xx, rad, w as int, h as int) && (yy < y || (yy == y && xx
                        < x)) {
                        win_max_from(*src_mask, yy - rad, xx - rad, side, 0, 0)
                    } else {
                        src_mask.at(yy, xx)
                    }),
            decreases w - radius - x,
        {
            let mut max_val: u32 = 0;
            let mut dy: usize = 0;
            while dy < 2 * radius + 1
                invariant
                    src_mask.wf(),
                    mask_binary(*src_mask),
                    w == src_mask.w,
                    h == src_mask.h,
                    radius <= y < h - radius,
                    radius <= x < w - radius,
                    radius <= 10,
                    rad == radius,
                    side == 2 * rad + 1,
                    dy <= 2 * radius + 1,
                    max_val == 0 || max_val == 100,
                    imax(
                        max_val as int,
                        win_max_from(*src_mask, y - rad, x - rad, side, dy as int, 0),
                    ) == win_max_from(*src_mask, y - rad, x - rad, side, 0, 0),
                decreases 2 * radius - dy + 1,
            {
                let mut dx: usize = 0;
                while dx < 2 * radius + 1
                    invariant
                        src_mask.wf(),
                        mask_binary(*src_mask),
                        w == src_mask.w,
                        h == src_mask.h,
                        radius <= y < h - radius,
                        radius <= x < w - radius,
                        radius <= 10,
                        rad == radius,
                        side == 2 * rad + 1,
                        dy < 2 * radius + 1,
                        dx <= 2 * radius + 1,
                        max_val == 0 || max_val == 100,
                        imax(
                            max_val as int,
                            win_max_from(*src_mask, y - rad, x - rad, side, dy as int, dx as int),
                        ) == win_max_from(*src_mask, y - rad, x - rad, side, 0, 0),
                    decreases 2 * radius - dx + 1,
                {
                    let ny = y - radius + dy;
                    let nx = x - radius + dx;
                    let v = src_mask.get(ny, nx);
                    if v > max_val {
                        max_val = v;
                    }
                    dx = dx + 1;
                }
                dy = dy + 1;
            }
            let ghost before = out;
            out.set(y, x, max_val);
            proof {
                assert(max_val as int == win_max_from(*src_mask, y - rad, x - rad, side, 0, 0));
                assert forall|yy: int, xx: int|
                    0 <= yy < h && 0 <= xx < w implies #[trigger] out.at(yy, xx) == (
                if win_interior(yy, xx, rad, w as int, h as int) && (yy < y || (yy == y && xx < x
                    + 1)) {
                    win_max_from(*src_mask, yy - rad, xx - rad, side, 0, 0)
                } else {
                    src_mask.at(yy, xx)
                }) by {
                    if !(yy == y as int && xx == x as int) {
                        assert(out.at(yy, xx) == before.at(yy, xx));
                    }
                }
            }
            x = x + 1;
        }
        y = y + 1;
    }
    out
}

/// Simple morphological erosion: each interior cell becomes the
/// minimum of its window (capped at the neutral value); border cells
/// keep their value.
fn morphological_erode(src_mask: &MaskGrid, radius: usize) -> (r: MaskGrid)
    requires
        src_mask.wf(),
        mask_binary(*src_mask),
        radius <= 10,
    ensures
        r.wf(),
        r.w == src_mask.w,
        r.h == src_mask.h,
        mask_binary(r),
        forall|y: int, x: int|
            0 <= y < src_mask.h && 0 <= x < src_mask.w ==> #[trigger] r.at(y, x) == (
            if win_interior(y, x, radius as int, src_mask.w as int, src_mask.h as int) {
                win_min_from(
                    *src_mask,
                    y - radius,
                    x - radius,
                    2 * radius + 1,
                    0,
                    0,
                )
            } else {
                src_mask.at(y, x)
            }),
{
    let w = src_mask.w;
    let h = src_mask.h;
    let ghost rad = radius as int;
    let ghost side = 2 * rad + 1;
    let mut out = mask_copy(src_mask);
    if h <= 2 * radius || w <= 2 * radius {
        return out;
    }
    let mut y: usize = radius;
    while y < h - radius
        invariant
            src_mask.wf(),
            mask_binary(*src_mask),
            w == src_mask.w,
            h == src_mask.h,
            2 * radius < h,
            2 * radius < w,
            radius <= 10,
            rad == radius,
            side == 2 * rad + 1,
            radius <= y <= h - radius,
            out.wf(),
            out.w == w,
            out.h == h,
            mask_binary(out),
            forall|yy: int, xx: int|
                0 <= yy < h && 0 <= xx < w ==> #[trigger] out.at(yy, xx) == (
                if win_interior(yy, xx, rad, w as int, h as int) && yy < y {
                    win_min_from(*src_mask, yy - rad, xx - rad, side, 0, 0)
                } else {
                    src_mask.at(yy, xx)
                }),
        decreases h - radius - y,
    {
        let mut x: usize = radius;
        while x < w - radius
            invariant
                src_mask.wf(),
                mask_binary(*src_mask),
                w == src_mask.w,
                h == src_mask.h,
                2 * radius < h,
                2 * radius < w,
                radius <= 10,
                rad == radius,
                side == 2 * rad + 1,
                radius <= y < h - radius,
                radius <= x <= w - radius,
                out.wf(),
                out.w == w,
                out.h == h,
                mask_binary(out),
                forall|yy: int, xx: int|
                    0 <= yy < h && 0 <= xx < w ==> #[trigger] out.at(yy, xx) == (
                    if win_interior(yy, xx, rad, w as int, h as int) && (yy < y || (yy == y && xx
                        < x)) {
                        win_min_from(*src_mask, yy - rad, xx - rad, side, 0, 0)
                    } else {
                        src_mask.at(yy, xx)
                    }),
            decreases w - radius - x,
        {
            let mut min_val: u32 = 100;
            let mut dy: usize = 0;
            while dy < 2 * radius + 1
                invariant
                    src_mask.wf(),
                    mask_binary(*src_mask),
                    w == src_mask.w,
                    h == src_mask.h,
                    radius <= y < h - radius,
                    radius <= x < w - radius,
                    radius <= 10,
                    rad == radius,
                    side == 2 * rad + 1,
                    dy <= 2 * radius + 1,
                    min_val == 0 || min_val == 100,
                    imin(
                        min_val as int,
                        win_min_from(*src_mask, y - rad, x - rad, side, dy as int, 0),
                    ) == win_min_from(*src_mask, y - rad, x - rad, side, 0, 0),
                decreases 2 * radius - dy + 1,
            {
                let mut dx: usize = 0;
                while dx < 2 * radius + 1
                    invariant
                        src_mask.wf(),
                        mask_binary(*src_mask),
                        w == src_mask.w,
                        h == src_mask.h,
                        radius <= y < h - radius,
                        radius <= x < w - radius,
                        radius <= 10,
                        rad == radius,
                        side == 2 * rad + 1,
                        dy < 2 * radius + 1,
                        dx <= 2 * radius + 1,
                        min_val == 0 || min_val == 100,
                        imin(
                            min_val as int,
                            win_min_from(*src_mask, y - rad, x - rad, side, dy as int, dx as int),
                        ) == win_min_from(*src_mask, y - rad, x - rad, side, 0, 0),
                    decreases 2 * radius - dx + 1,
                {
                    let ny = y - radius + dy;
                    let nx = x - radius + dx;
                    let v = src_mask.get(ny, nx);
                    if v < min_val {
                        min_val = v;
                    }
                    dx = dx + 1;
                }
                dy = dy + 1;
            }
            let ghost before = out;
            out.set(y, x, min_val);
            proof {
                assert(min_val as int == win_min_from(*src_mask, y - rad, x - rad, side, 0, 0));
                assert forall|yy: int, xx: int|
                    0 <= yy < h && 0 <= xx < w implies #[trigger] out.at(yy, xx) == (
                if win_interior(yy, xx, rad, w as int, h as int) && (yy < y || (yy == y && xx < x
                    + 1)) {
                    win_min_from(*src_mask, yy - rad, xx - rad, side, 0, 0)
                } else {
                    src_mask.at(yy, xx)
                }) by {
                    if !(yy == y as int && xx == x as int) {
                        assert(out.at(yy, xx) == before.at(yy, xx));
                    }
                }
            }
            x = x + 1;
        }
        y = y + 1;
    }
    out
}

/// Detect negative spaces: connected bright regions covering at least a
/// four-hundredth of the image are marked, then small gaps are closed
/// by a dilation followed by an erosion (radius 3).
///
/// Every protected cell of the result lies within distance 3 of a
/// pixel at or above the brightness threshold, and an image with no
/// such pixel yields the all-zero mask.
pub fn detect_negative_spaces(img: &PixelGrid, threshold: u8) -> (r: Result<
    MaskGrid,
    StringArtError,
>)
    requires
        img.wf(),
        img.w <= 100000,
        img.h <= 100000,
    ensures
        r is Ok,
        (match r {
            Result::Ok(m) => {
                &&& m.wf()
                &&& m.w == img.w
                &&& m.h == img.h
                &&& mask_binary(m)
                &&& (forall|y: int, x: int|
                    0 <= y < img.h && 0 <= x < img.w && #[trigger] m.at(y, x) == 100 ==> (exists|
                        yy: int,
                        xx: int,
                    |
                        0 <= yy < img.h && 0 <= xx < img.w && y - 3 <= yy <= y + 3 && x - 3 <= xx
                            <= x + 3 && #[trigger] img.at(yy, xx) >= threshold))
                &&& ((forall|y: int, x: int|
                    0 <= y < img.h && 0 <= x < img.w ==> #[trigger] img.at(y, x) < threshold)
                    ==> (forall|y: int, x: int|
                    0 <= y < img.h && 0 <= x < img.w ==> #[trigger] m.at(y, x) == 0))
            },
            Result::Err(_) => false,
        }),
{
    let w = img.w;
    let h = img.h;
    let mut mask = MaskGrid::new_fill(w, h, 0);
    let mut visited: Vec<Vec<bool>> = Vec::new();
    let mut vy: usize = 0;
    while vy < h
        invariant
            vy <= h,
            visited@.len() == vy,
            forall|y: int| 0 <= y < vy ==> (#[trigger] visited@[y])@.len() == w,
        decreases h - vy,
    {
        let mut row: Vec<bool> = Vec::new();
        let mut vx: usize = 0;
        while vx < w
            invariant
                vx <= w,
                row@.len() == vx,
            decreases w - vx,
        {
            row.push(false);
            vx = vx + 1;
        }
        visited.push(row);
        vy = vy + 1;
    }
    proof {
        assert(0 <= (w as int) * (h as int) <= 10000000000int) by (nonlinear_arith)
            requires
                0 <= w <= 100000,
                0 <= h <= 100000,
        ;
    }
    let min_region_size: u64 = ((w as u64) * (h as u64)) / 400;
    let mut y: usize = 0;
    while y < h
        invariant
            img.wf(),
            w == img.w,
            h == img.h,
            img.w <= 100000,
            img.h <= 100000,
            y <= h,
            visited@.len() == h,
            forall|q: int| 0 <= q < h ==> (#[trigger] visited@[q])@.len() == w,
            mask.wf(),
            mask.w == w,
            mask.h == h,
            mask_binary(mask),
            forall|yy: int, xx: int|
                0 <= yy < h && 0 <= xx < w && #[trigger] mask.at(yy, xx) == 100 ==> img.at(yy, xx)
                    >= threshold,
        decreases h - y,
    {
        let mut x: usize = 0;
        while x < w
            invariant
                img.wf(),
                w == img.w,
                h == img.h,
                img.w <= 100000,
                img.h <= 100000,
                y < h,
                x <= w,
                visited@.len() == h,
                forall|q: int| 0 <= q < h ==> (#[trigger] visited@[q])@.len() == w,
                mask.wf(),
                mask.w == w,
                mask.h == h,
                mask_binary(mask),
                forall|yy: int, xx: int|
                    0 <= yy < h && 0 <= xx < w && #[trigger] mask.at(yy, xx) == 100 ==> img.at(
                        yy,
                        xx,
                    ) >= threshold,
            decreases w - x,
        {
            let seen: bool = visited[y][x];
            if !seen && img.get(y, x) >= threshold {
                let region_size = flood_fill_region(img, &mut visited, x, y, threshold);
                if region_size >= min_region_size {
                    mark_negative_space_region(img, &mut mask, x, y, threshold);
                }
            }
            x = x + 1;
        }
        y = y + 1;
    }
    let dilated = morphological_dilate(&mask, 3);
    let closed = morphological_erode(&dilated, 3);
    proof {
        assert forall|cy: int, cx: int|
            0 <= cy < h && 0 <= cx < w && #[trigger] closed.at(cy, cx) == 100 implies (exists|
            yy: int,
            xx: int,
        |
            0 <= yy < h && 0 <= xx < w && cy - 3 <= yy <= cy + 3 && cx - 3 <= xx <= cx + 3
                && #[trigger] img.at(yy, xx) >= threshold) by {
            if win_interior(cy, cx, 3, w as int, h as int) {
                lemma_win_min_bound(dilated, cy - 3, cx - 3, 7, 0, 0, 3, 3);
            }
            assert(dilated.at(cy, cx) == 100);
            if win_interior(cy, cx, 3, w as int, h as int) {
                lemma_win_max_attained(mask, cy - 3, cx - 3, 7, 0, 0);
                let (qy, qx) = choose|qy: int, qx: int|
                    0 <= qy < 7 && 0 <= qx < 7 && #[trigger] mask.at(cy - 3 + qy, cx - 3 + qx)
                        == win_max_from(mask, cy - 3, cx - 3, 7, 0, 0);
                assert(img.at(cy - 3 + qy, cx - 3 + qx) >= threshold);
            } else {
                assert(mask.at(cy, cx) == 100);
                assert(img.at(cy, cx) >= threshold);
            }
        }
        if forall|y: int, x: int|
            0 <= y < h && 0 <= x < w ==> #[trigger] img.at(y, x) < threshold {
            assert forall|y: int, x: int| 0 <= y < h && 0 <= x < w implies #[trigger] mask.at(
                y,
                x,
            ) == 0 by {
                assert(img.at(y, x) < threshold);
            }
            assert forall|y: int, x: int| 0 <= y < h && 0 <= x < w implies #[trigger] dilated.at(
                y,
                x,
            ) == 0 by {
                if win_interior(y, x, 3, w as int, h as int) {
                    lemma_win_max_zero(mask, y - 3, x - 3, 7, 0, 0);
                }
            }
            assert forall|y: int, x: int| 0 <= y < h && 0 <= x < w implies #[trigger] closed.at(
                y,
                x,
            ) == 0 by {
                if win_interior(y, x, 3, w as int, h as int) {
                    lemma_win_min_bound(dilated, y - 3, x - 3, 7, 0, 0, 3, 3);
                    lemma_win_min_nonneg(dilated, y - 3, x - 3, 7, 0, 0);
                }
            }
        }
    }
    Ok(closed)
}

/// The smallest squared distance from `(x, y)` to a protected cell of
/// the detected mask within the falloff window (radius 5), folded in
/// row-major order from the offset `(dy, dx)` on; 26 when none is near.
pub open spec fn nearest_protected_from(
    detected: MaskGrid,
    x: int,
    y: int,
    dy: int,
    dx: int,
) -> int
    decreases 6 - dy, 6 - dx,
{
    if dy > 5 {
        26
    } else if dx > 5 {
        nearest_protected_from(detected, x, y, dy + 1, -5)
    } else {
        let ds = dx * dx + dy * dy;
        let ny = y + dy;
        let nx = x + dx;
        let here: int = if ds <= 25 && 0 <= ny < detected.h && 0 <= nx < detected.w
            && detected.at(ny, nx) > 0 {
            ds
        } else {
            26
        };
        imin(here, nearest_protected_from(detected, x, y, dy, dx + 1))
    }
}

/// The protection strength at squared distance `d` from the nearest
/// protected cell: three tenths at the cell itself, rising to full
/// strength at the falloff radius, zero beyond it.
pub open spec fn falloff_value(d: int) -> int {
    if d <= 25 {
        30 + (70 * d) / 25
    } else {
        0
    }
}

/// A mask with no protected cell has nothing near any pixel.
proof fn lemma_nearest_unprotected(detected: MaskGrid, x: int, y: int, dy: int, dx: int)
    requires
        forall|qy: int, qx: int|
            0 <= qy < detected.h && 0 <= qx < detected.w ==> #[trigger] detected.at(qy, qx) == 0,
    ensures
        nearest_protected_from(detected, x, y, dy, dx) == 26,
    decreases 6 - dy, 6 - dx,
{
    if dy > 5 {
    } else if dx > 5 {
        lemma_nearest_unprotected(detected, x, y, dy + 1, -5);
    } else {
        lemma_nearest_unprotected(detected, x, y, dy, dx + 1);
    }
}

/// Spread the radial falloff around a detected protection mask: every
/// cell takes the strength of its distance to the nearest protected
/// cell within the falloff radius, and cells with none near stay
/// unprotected.
pub fn apply_protection_falloff(detected: &MaskGrid) -> (r: MaskGrid)
    requires
        detected.wf(),
        detected.w <= 100000,
        detected.h <= 100000,
    ensures
        r.wf(),
        r.w == detected.w,
        r.h == detected.h,
        forall|y: int, x: int|
            0 <= y < detected.h && 0 <= x < detected.w ==> #[trigger] r.at(y, x) == falloff_value(
                nearest_protected_from(*detected, x, y, -5, -5),
            ),
        forall|y: int, x: int|
            0 <= y < detected.h && 0 <= x < detected.w ==> #[trigger] r.at(y, x) == 0 || (30
                <= r.at(y, x) <= 100),
{
    let w = detected.w;
    let h = detected.h;
    let mut out = MaskGrid::new_fill(w, h, 0);
    let mut y: usize = 0;
    while y < h
        invariant
            detected.wf(),
            detected.w == w,
            detected.h == h,
            w <= 100000,
            h <= 100000,
            y <= h,
            out.wf(),
            out.w == w,
            out.h == h,
            forall|yy: int, xx: int|
                0 <= yy < h && 0 <= xx < w ==> #[trigger] out.at(yy, xx) == 0 || (30 <= out.at(
                    yy,
                    xx,
                ) <= 100),
            forall|yy: int, xx: int|
                0 <= yy < h && 0 <= xx < w && yy < y ==> #[trigger] out.at(yy, xx)
                    == falloff_value(nearest_protected_from(*detected, xx, yy, -5, -5)),
            forall|yy: int, xx: int|
                0 <= yy < h && 0 <= xx < w && yy >= y ==> #[trigger] out.at(yy, xx) == 0,
        decreases h - y,
    {
        let mut x: usize = 0;
        while x < w
            invariant
                detected.wf(),
                detected.w == w,
                detected.h == h,
                w <= 100000,
                h <= 100000,
                y < h,
                x <= w,
                out.wf(),
                out.w == w,
                out.h == h,
                forall|yy: int, xx: int|
                    0 <= yy < h && 0 <= xx < w ==> #[trigger] out.at(yy, xx) == 0 || (30
                        <= out.at(yy, xx) <= 100),
                forall|yy: int, xx: int|
                    0 <= yy < h && 0 <= xx < w && (yy < y || (yy == y && xx < x))
                        ==> #[trigger] out.at(yy, xx) == falloff_value(
                        nearest_protected_from(*detected, xx, yy, -5, -5),
                    ),
                forall|yy: int, xx: int|
                    0 <= yy < h && 0 <= xx < w && (yy > y || (yy == y && xx >= x))
                        ==> #[trigger] out.at(yy, xx) == 0,
            decreases w - x,
        {
            // the squared distance to the nearest protected pixel in
            // the falloff window, if any
            let mut best: u64 = 26;
            let mut dy: i64 = -5;
            while dy <= 5
                invariant
                    detected.wf(),
                    detected.w == w,
                    detected.h == h,
                    w <= 100000,
                    h <= 100000,
                    y < h,
                    x < w,
                    -5 <= dy <= 6,
                    best <= 26,
                    imin(best as int, nearest_protected_from(*detected, x as int, y as int, dy as int, -5))
                        == nearest_protected_from(*detected, x as int, y as int, -5, -5),
                decreases 6 - dy,
            {
                let mut dx: i64 = -5;
                while dx <= 5
                    invariant
                        detected.wf(),
                        detected.w == w,
                        detected.h == h,
                        w <= 100000,
                        h <= 100000,
                        y < h,
                        x < w,
                        -5 <= dy <= 5,
                        -5 <= dx <= 6,
                        best <= 26,
                        imin(
                            best as int,
                            nearest_protected_from(*detected, x as int, y as int, dy as int, dx as int),
                        ) == nearest_protected_from(*detected, x as int, y as int, -5, -5),
                    decreases 6 - dx,
                {
                    proof {
                        assert(0 <= dx * dx <= 36 && 0 <= dy * dy <= 36) by (nonlinear_arith)
                            requires
                                -6 <= dx <= 6,
                                -6 <= dy <= 6,
                        ;
                    }
                    let ds: i64 = dx * dx + dy * dy;
                    if ds <= 25 {
                        let ny: i64 = y as i64 + dy;
                        let nx: i64 = x as i64 + dx;
                        if ny >= 0 && ny < h as i64 && nx >= 0 && nx < w as i64 {
                            if detected.get(ny as usize, nx as usize) > 0 {
                                if (ds as u64) < best {
                                    best = ds as u64;
                                }
                            }
                        }
                    }
                    dx = dx + 1;
                }
                dy = dy + 1;
            }
            if best <= 25 {
                let strength: u32 = 30 + ((70 * best) / 25) as u32;
                let ghost before = out;
                out.set(y, x, strength);
                proof {
                    assert forall|yy: int, xx: int|
                        0 <= yy < h && 0 <= xx < w implies (#[trigger] out.at(yy, xx) == 0 || (30
                        <= out.at(yy, xx) <= 100)) && ((yy < y || (yy == y && xx < x + 1))
                        ==> out.at(yy, xx) == falloff_value(
                        nearest_protected_from(*detected, xx, yy, -5, -5),
                    )) && ((yy > y || (yy == y && xx >= x + 1)) ==> out.at(yy, xx) == 0) by {
                        if !(yy == y as int && xx == x as int) {
                            assert(out.at(yy, xx) == before.at(yy, xx));
                        }
                    }
                }
            } else {
                proof {
                    assert(out.at(y as int, x as int) == 0);
                    assert(falloff_value(nearest_protected_from(*detected, x as int, y as int, -5, -5))
                        == 0);
                }
            }
            x = x + 1;
        }
        y = y + 1;
    }
    out
}

/// Create the negative-space protection mask with a radial falloff:
/// detect the large bright regions, then give every cell the strength
/// of its distance to the nearest detected cell -- three tenths at a
/// detected cell itself, rising to full strength at the falloff
/// radius, zero beyond it. An image with no pixel at or above the
/// threshold yields the all-zero mask.
pub fn create_negative_space_mask(img: &PixelGrid, threshold: u8) -> (r: Result<
    MaskGrid,
    StringArtError,
>)
    requires
        img.wf(),
        img.w <= 100000,
        img.h <= 100000,
    ensures
        r is Ok,
        (match r {
            Result::Ok(m) => {
                &&& m.wf()
                &&& m.w == img.w
                &&& m.h == img.h
                &&& (forall|y: int, x: int|
                    0 <= y < img.h && 0 <= x < img.w ==> #[trigger] m.at(y, x) == 0 || (30
                        <= m.at(y, x) <= 100))
                &&& ((forall|y: int, x: int|
                    0 <= y < img.h && 0 <= x < img.w ==> #[trigger] img.at(y, x) < threshold)
                    ==> (forall|y: int, x: int|
                    0 <= y < img.h && 0 <= x < img.w ==> #[trigger] m.at(y, x) == 0))
            },
            Result::Err(_) => false,
        }),
{
    let detected = match detect_negative_spaces(img, threshold) {
        Ok(m) => m,
        Err(e) => {
            return Err(e);
        },
    };
    let out = apply_protection_falloff(&detected);
    proof {
        if forall|y: int, x: int|
            0 <= y < img.h && 0 <= x < img.w ==> #[trigger] img.at(y, x) < threshold {
            assert forall|y: int, x: int| 0 <= y < img.h && 0 <= x < img.w implies #[trigger] out.at(
                y,
                x,
            ) == 0 by {
                lemma_nearest_unprotected(detected, x, y, -5, -5);
            }
        }
    }
    Ok(out)
}

} // verus!
