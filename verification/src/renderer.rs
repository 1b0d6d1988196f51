//! Rendering the accumulated path onto a fresh canvas: every pixel
//! covered by some thread segment gets the line color, every other
//! pixel stays white.

use vstd::prelude::*;
use crate::cache::LinePixelCache;
use crate::error::StringArtError;
use crate::grid::RgbGrid;
use crate::state::StringArtState;
use crate::utils::Coord;

verus! {

/// The `k`-th thread segment of the session's path covers the pixel
/// `(x, y)`.
pub open spec fn segment_covers(s: StringArtState, k: int, x: int, y: int) -> bool {
    s.line_pixel_cache.entry(s.path@[k] as int, s.path@[k + 1] as int).contains((x, y))
}

/// Some thread segment of the session's path covers the pixel
/// `(x, y)`.
pub open spec fn path_covers(s: StringArtState, x: int, y: int) -> bool {
    exists|k: int| 0 <= k < s.path@.len() - 1 && #[trigger] segment_covers(s, k, x, y)
}

/// Struct responsible for rendering the string art path to an image.
pub struct ImageRenderer {}

impl ImageRenderer {
    /// Creates a new renderer.
    pub fn new() -> (r: Self) {
        Self {  }
    }

    /// Paint every in-bounds pixel of the list with the given color,
    /// leaving every other pixel of the canvas as it was.
    fn draw_line(&self, img: &mut RgbGrid, pixels: &Vec<Coord>, color: (u8, u8, u8))
        requires
            old(img).wf(),
            old(img).w <= 100000,
            old(img).h <= 100000,
        ensures
            final(img).wf(),
            final(img).w == old(img).w,
            final(img).h == old(img).h,
            forall|y: int, x: int|
                0 <= y < old(img).h && 0 <= x < old(img).w ==> #[trigger] final(img).at(y, x) == (
                if pixels@.contains(Coord { x: x as i32, y: y as i32 }) {
                    color
                } else {
                    old(img).at(y, x)
                }),
    {
        let mut i: usize = 0;
        let n = pixels.len();
        while i < n
            invariant
                img.wf(),
                img.w == old(img).w,
                img.h == old(img).h,
                old(img).w <= 100000,
                old(img).h <= 100000,
                n == pixels@.len(),
                i <= n,
                forall|y: int, x: int|
                    0 <= y < old(img).h && 0 <= x < old(img).w ==> #[trigger] img.at(y, x) == (
                    if pixels@.take(i as int).contains(Coord { x: x as i32, y: y as i32 }) {
                        color
                    } else {
                        old(img).at(y, x)
                    }),
            decreases n - i,
        {
            let p = pixels[i];
            let ghost before = *img;
            if p.x >= 0 && p.y >= 0 && (p.x as usize) < img.w && (p.y as usize) < img.h {
                img.set(p.y as usize, p.x as usize, color);
            }
            proof {
                assert forall|y: int, x: int|
                    0 <= y < old(img).h && 0 <= x < old(img).w implies #[trigger] img.at(y, x) == (
                if pixels@.take(i as int + 1).contains(Coord { x: x as i32, y: y as i32 }) {
                    color
                } else {
                    old(img).at(y, x)
                }) by {
                    let c = Coord { x: x as i32, y: y as i32 };
                    if pixels@.take(i as int + 1).contains(c) {
                        let j = choose|j: int|
                            0 <= j < pixels@.take(i as int + 1).len() && #[trigger] pixels@.take(
                                i as int + 1,
                            )[j] == c;
                        if j < i {
                            assert(pixels@.take(i as int)[j] == c);
                            assert(pixels@.take(i as int).contains(c));
                        } else {
                            assert(pixels@[i as int] == c);
                        }
                    } else {
                        assert(!pixels@.take(i as int).contains(c)) by {
                            if pixels@.take(i as int).contains(c) {
                                let j = choose|j: int|
                                    0 <= j < pixels@.take(i as int).len() && #[trigger] pixels@.take(
                                        i as int,
                                    )[j] == c;
                                assert(pixels@.take(i as int + 1)[j] == c);
                            }
                        }
                        if p == c {
                            assert(pixels@.take(i as int + 1)[i as int] == c);
                            assert(pixels@.take(i as int + 1).contains(c));
                        }
                        assert(!(p == c));
                    }
                }
            }
            i = i + 1;
        }
        proof {
            assert(pixels@.take(n as int) =~= pixels@);
        }
    }

    /// Renders the current path to an image: a white canvas of the
    /// session's size where exactly the pixels covered by some thread
    /// segment carry the line color (black when none is given). An
    /// empty or single-element path yields the untouched blank canvas.
    pub fn render_to_image(&self, state: &StringArtState, line_color: Option<(u8, u8, u8)>) -> (r:
        Result<RgbGrid, StringArtError>)
        requires
            state.wf(),
            state.config.image_size <= 100000,
        ensures
            r is Ok,
            (match r {
                Result::Ok(canvas) => {
                    let color = (match line_color {
                        Option::Some(c) => c,
                        Option::None => (0u8, 0u8, 0u8),
                    });
                    &&& canvas.wf()
                    &&& canvas.w == state.config.image_size
                    &&& canvas.h == state.config.image_size
                    &&& (forall|y: int, x: int|
                        0 <= y < canvas.h && 0 <= x < canvas.w ==> #[trigger] canvas.at(y, x) == (
                        if path_covers(*state, x, y) {
                            color
                        } else {
                            (255u8, 255u8, 255u8)
                        }))
                },
                Result::Err(_) => false,
            }),
    {
        let size = state.config.image_size;
        let color: (u8, u8, u8) = match line_color {
            Some(c) => c,
            None => (0, 0, 0),
        };
        let mut img = RgbGrid::new_fill(size, size, (255, 255, 255));
        let mut k: usize = 0;
        let segments = if state.path.len() >= 1 {
            state.path.len() - 1
        } else {
            0
        };
        while k < segments
            invariant
                state.wf(),
                size == state.config.image_size,
                size <= 100000,
                segments as int == (if state.path@.len() >= 1 {
                    state.path@.len() - 1
                } else {
                    0int
                }),
                k <= segments,
                img.wf(),
                img.w == size,
                img.h == size,
                forall|y: int, x: int|
                    0 <= y < size && 0 <= x < size ==> #[trigger] img.at(y, x) == (
                    if (exists|q: int| 0 <= q < k && #[trigger] segment_covers(*state, q, x, y)) {
                        color
                    } else {
                        (255u8, 255u8, 255u8)
                    }),
            decreases segments - k,
        {
            let a = state.path[k];
            let b = state.path[k + 1];
            let pixels = state.line_pixel_cache.get(a, b);
            let ghost before = img;
            self.draw_line(&mut img, pixels, color);
            proof {
                assert forall|y: int, x: int|
                    0 <= y < size && 0 <= x < size implies #[trigger] img.at(y, x) == (
                if (exists|q: int|
                    0 <= q < k + 1 && #[trigger] segment_covers(*state, q, x, y)) {
                    color
                } else {
                    (255u8, 255u8, 255u8)
                }) by {
                    let c = Coord { x: x as i32, y: y as i32 };
                    let entry = state.line_pixel_cache.entry(a as int, b as int);
                    assert(crate::raster::pts_view(pixels@) == entry);
                    if pixels@.contains(c) {
                        let j = choose|j: int| 0 <= j < pixels@.len() && #[trigger] pixels@[j] == c;
                        assert(entry[j] == crate::raster::pt(pixels@[j]));
                        assert(entry.contains((x, y)));
                        assert(segment_covers(*state, k as int, x, y));
                    } else {
                        if segment_covers(*state, k as int, x, y) {
                            let j = choose|j: int| 0 <= j < entry.len() && #[trigger] entry[j] == (x, y);
                            assert(entry[j] == crate::raster::pt(pixels@[j]));
                            assert(pixels@[j].x == x && pixels@[j].y == y);
                            assert(pixels@[j] == c);
                            assert(pixels@.contains(c));
                        }
                    }
                    if (exists|q: int|
                        0 <= q < k + 1 && #[trigger] segment_covers(*state, q, x, y)) {
                        let q = choose|q: int|
                            0 <= q < k + 1 && #[trigger] segment_covers(*state, q, x, y);
                        if q < k {
                            assert(before.at(y, x) == color);
                            if !pixels@.contains(c) {
                                assert(img.at(y, x) == before.at(y, x));
                            }
                        } else {
                            assert(segment_covers(*state, k as int, x, y));
                        }
                    }
                }
            }
            k = k + 1;
        }
        proof {
            assert forall|y: int, x: int|
                0 <= y < size && 0 <= x < size implies #[trigger] img.at(y, x) == (
            if path_covers(*state, x, y) {
                color
            } else {
                (255u8, 255u8, 255u8)
            }) by {
                if path_covers(*state, x, y) {
                    let q = choose|q: int|
                        0 <= q < state.path@.len() - 1 && #[trigger] segment_covers(
                            *state,
                            q,
                            x,
                            y,
                        );
                    assert(state.path@.len() >= 1);
                    assert(exists|q2: int|
                        0 <= q2 < segments && #[trigger] segment_covers(*state, q2, x, y));
                }
                if exists|q: int| 0 <= q < segments && #[trigger] segment_covers(*state, q, x, y) {
                    let q = choose|q: int|
                        0 <= q < segments && #[trigger] segment_covers(*state, q, x, y);
                    assert(path_covers(*state, x, y));
                }
            }
        }
        Ok(img)
    }
}

} // verus!
