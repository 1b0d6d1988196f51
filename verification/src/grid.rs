//! Dense row-major grids: brightness images (one byte per pixel) and
//! mask images (one fixed-point multiplier per pixel, scaled by 100).

use vstd::prelude::*;

verus! {

/// Multipliers in masks are scaled by this factor: a stored value of
/// 100 means a neutral multiplier of one.
pub const MASK_SCALE: u32 = 100;

/// Largest multiplier a mask cell may hold (10000 times neutral), so
/// that score accumulation cannot overflow.
pub const MASK_LIMIT: u32 = 1000000;

/// An H x W grid of brightness values in `[0, 255]`.
#[derive(Debug, Clone)]
pub struct PixelGrid {
    pub w: usize,
    pub h: usize,
    pub rows: Vec<Vec<u8>>,
}

impl PixelGrid {
    /// Every row is present and has the grid's width.
    pub open spec fn wf(self) -> bool {
        self.rows@.len() == self.h && forall|y: int|
            0 <= y < self.h ==> (#[trigger] self.rows@[y])@.len() == self.w
    }

    /// The brightness at row `y`, column `x`.
    pub open spec fn at(self, y: int, x: int) -> int {
        self.rows@[y]@[x] as int
    }

    /// The grid's contents as a sequence of rows of bytes.
    pub open spec fn cells(self) -> Seq<Seq<u8>> {
        self.rows@.map_values(|r: Vec<u8>| r@)
    }

    /// A grid of the given size with every cell set to `v`.
    pub fn new_fill(w: usize, h: usize, v: u8) -> (r: Self)
        ensures
            r.wf(),
            r.w == w,
            r.h == h,
            forall|y: int, x: int| 0 <= y < h && 0 <= x < w ==> r.at(y, x) == v as int,
    {
        let mut rows: Vec<Vec<u8>> = Vec::new();
        let mut y: usize = 0;
        while y < h
            invariant
                y <= h,
                rows@.len() == y,
                forall|i: int| 0 <= i < y ==> (#[trigger] rows@[i])@.len() == w,
                forall|i: int, j: int|
                    0 <= i < y && 0 <= j < w ==> #[trigger] rows@[i]@[j] == v,
            decreases h - y,
        {
            let mut row: Vec<u8> = Vec::new();
            let mut x: usize = 0;
            while x < w
                invariant
                    x <= w,
                    row@.len() == x,
                    forall|j: int| 0 <= j < x ==> row@[j] == v,
                decreases w - x,
            {
                row.push(v);
                x = x + 1;
            }
            rows.push(row);
            y = y + 1;
        }
        PixelGrid { w, h, rows }
    }

    /// Read the cell at `(y, x)`.
    pub fn get(&self, y: usize, x: usize) -> (r: u8)
        requires
            self.wf(),
            y < self.h,
            x < self.w,
        ensures
            r as int == self.at(y as int, x as int),
    {
        self.rows[y][x]
    }

    /// Write `v` into the cell at `(y, x)`, leaving every other cell as
    /// it was.
    pub fn set(&mut self, y: usize, x: usize, v: u8)
        requires
            old(self).wf(),
            y < old(self).h,
            x < old(self).w,
        ensures
            final(self).wf(),
            final(self).w == old(self).w,
            final(self).h == old(self).h,
            final(self).at(y as int, x as int) == v as int,
            forall|i: int, j: int|
                0 <= i < old(self).h && 0 <= j < old(self).w && !(i == y && j == x)
                    ==> final(self).at(i, j) == old(self).at(i, j),
            final(self).cells() == old(self).cells().update(
                y as int,
                old(self).cells()[y as int].update(x as int, v),
            ),
    {
        let row: &mut Vec<u8> = &mut self.rows[y];
        row.set(x, v);
        proof {
            assert(self.cells() =~= old(self).cells().update(
                y as int,
                old(self).cells()[y as int].update(x as int, v),
            ));
        }
    }

    /// The grid whose every cell is 255 minus this grid's cell: the
    /// initial residual darkness budget of a target image.
    pub fn inverted(&self) -> (r: Self)
        requires
            self.wf(),
        ensures
            r.wf(),
            r.w == self.w,
            r.h == self.h,
            forall|y: int, x: int|
                0 <= y < self.h && 0 <= x < self.w ==> r.at(y, x) == 255 - self.at(y, x),
    {
        let mut rows: Vec<Vec<u8>> = Vec::new();
        let mut y: usize = 0;
        while y < self.h
            invariant
                self.wf(),
                y <= self.h,
                rows@.len() == y,
                forall|i: int| 0 <= i < y ==> (#[trigger] rows@[i])@.len() == self.w,
                forall|i: int, j: int|
                    0 <= i < y && 0 <= j < self.w ==> #[trigger] rows@[i]@[j] as int == 255 - self.at(
                        i,
                        j,
                    ),
            decreases self.h - y,
        {
            let mut row: Vec<u8> = Vec::new();
            let mut x: usize = 0;
            while x < self.w
                invariant
                    self.wf(),
                    y < self.h,
                    x <= self.w,
                    row@.len() == x,
                    forall|j: int| 0 <= j < x ==> row@[j] as int == 255 - self.at(y as int, j),
                decreases self.w - x,
            {
                let v: u8 = self.rows[y][x];
                row.push(255 - v);
                x = x + 1;
            }
            rows.push(row);
            y = y + 1;
        }
        PixelGrid { w: self.w, h: self.h, rows }
    }
}

/// An H x W grid of fixed-point multipliers, each within
/// `[0, MASK_LIMIT]`.
#[derive(Debug, Clone)]
pub struct MaskGrid {
    pub w: usize,
    pub h: usize,
    pub rows: Vec<Vec<u32>>,
}

impl MaskGrid {
    /// Every row is present with the grid's width and every multiplier
    /// is within the mask limit.
    pub open spec fn wf(self) -> bool {
        self.rows@.len() == self.h && (forall|y: int|
            0 <= y < self.h ==> (#[trigger] self.rows@[y])@.len() == self.w) && (forall|
            y: int,
            x: int,
        |
            0 <= y < self.h && 0 <= x < self.w ==> 0 <= #[trigger] self.at(y, x)
                <= MASK_LIMIT as int)
    }

    /// The multiplier at row `y`, column `x`.
    pub open spec fn at(self, y: int, x: int) -> int {
        self.rows@[y]@[x] as int
    }

    /// True when every cell holds the neutral multiplier.
    pub open spec fn is_neutral(self) -> bool {
        forall|y: int, x: int|
            0 <= y < self.h && 0 <= x < self.w ==> #[trigger] self.at(y, x) == MASK_SCALE as int
    }

    /// A mask of the given size with every cell set to `v`.
    pub fn new_fill(w: usize, h: usize, v: u32) -> (r: Self)
        requires
            v <= MASK_LIMIT,
        ensures
            r.wf(),
            r.w == w,
            r.h == h,
            forall|y: int, x: int| 0 <= y < h && 0 <= x < w ==> r.at(y, x) == v as int,
    {
        let mut rows: Vec<Vec<u32>> = Vec::new();
        let mut y: usize = 0;
        while y < h
            invariant
                y <= h,
                rows@.len() == y,
                forall|i: int| 0 <= i < y ==> (#[trigger] rows@[i])@.len() == w,
                forall|i: int, j: int|
                    0 <= i < y && 0 <= j < w ==> #[trigger] rows@[i]@[j] == v,
            decreases h - y,
        {
            let mut row: Vec<u32> = Vec::new();
            let mut x: usize = 0;
            while x < w
                invariant
                    x <= w,
                    row@.len() == x,
                    forall|j: int| 0 <= j < x ==> row@[j] == v,
                decreases w - x,
            {
                row.push(v);
                x = x + 1;
            }
            rows.push(row);
            y = y + 1;
        }
        MaskGrid { w, h, rows }
    }

    /// A neutral mask: every multiplier is one.
    pub fn neutral(w: usize, h: usize) -> (r: Self)
        ensures
            r.wf(),
            r.w == w,
            r.h == h,
            r.is_neutral(),
    {
        Self::new_fill(w, h, MASK_SCALE)
    }

    /// Read the multiplier at `(y, x)`.
    pub fn get(&self, y: usize, x: usize) -> (r: u32)
        requires
            self.wf(),
            y < self.h,
            x < self.w,
        ensures
            r as int == self.at(y as int, x as int),
            r <= MASK_LIMIT,
    {
        self.rows[y][x]
    }

    /// Write `v` into the multiplier at `(y, x)`, leaving every other
    /// cell as it was.
    pub fn set(&mut self, y: usize, x: usize, v: u32)
        requires
            old(self).wf(),
            y < old(self).h,
            x < old(self).w,
            v <= MASK_LIMIT,
        ensures
            final(self).wf(),
            final(self).w == old(self).w,
            final(self).h == old(self).h,
            final(self).at(y as int, x as int) == v as int,
            forall|i: int, j: int|
                0 <= i < old(self).h && 0 <= j < old(self).w && !(i == y && j == x)
                    ==> final(self).at(i, j) == old(self).at(i, j),
    {
        let row: &mut Vec<u32> = &mut self.rows[y];
        row.set(x, v);
        proof {
            assert forall|i: int, j: int|
                0 <= i < self.h && 0 <= j < self.w implies 0 <= #[trigger] self.at(i, j)
                <= MASK_LIMIT as int by {
                if !(i == y as int && j == x as int) {
                    assert(self.at(i, j) == old(self).at(i, j));
                }
            }
        }
    }
}


/// An H x W grid of RGB pixels.
#[derive(Debug, Clone)]
pub struct RgbGrid {
    pub w: usize,
    pub h: usize,
    pub rows: Vec<Vec<(u8, u8, u8)>>,
}

impl RgbGrid {
    /// Every row is present and has the grid's width.
    pub open spec fn wf(self) -> bool {
        self.rows@.len() == self.h && forall|y: int|
            0 <= y < self.h ==> (#[trigger] self.rows@[y])@.len() == self.w
    }

    /// The pixel at row `y`, column `x`.
    pub open spec fn at(self, y: int, x: int) -> (u8, u8, u8) {
        self.rows@[y]@[x]
    }

    /// A canvas of the given size with every pixel set to `v`.
    pub fn new_fill(w: usize, h: usize, v: (u8, u8, u8)) -> (r: Self)
        ensures
            r.wf(),
            r.w == w,
            r.h == h,
            forall|y: int, x: int| 0 <= y < h && 0 <= x < w ==> r.at(y, x) == v,
    {
        let mut rows: Vec<Vec<(u8, u8, u8)>> = Vec::new();
        let mut y: usize = 0;
        while y < h
            invariant
                y <= h,
                rows@.len() == y,
                forall|i: int| 0 <= i < y ==> (#[trigger] rows@[i])@.len() == w,
                forall|i: int, j: int|
                    0 <= i < y && 0 <= j < w ==> #[trigger] rows@[i]@[j] == v,
            decreases h - y,
        {
            let mut row: Vec<(u8, u8, u8)> = Vec::new();
            let mut x: usize = 0;
            while x < w
                invariant
                    x <= w,
                    row@.len() == x,
                    forall|j: int| 0 <= j < x ==> row@[j] == v,
                decreases w - x,
            {
                row.push(v);
                x = x + 1;
            }
            rows.push(row);
            y = y + 1;
        }
        RgbGrid { w, h, rows }
    }

    /// Read the pixel at `(y, x)`.
    pub fn get(&self, y: usize, x: usize) -> (r: (u8, u8, u8))
        requires
            self.wf(),
            y < self.h,
            x < self.w,
        ensures
            r == self.at(y as int, x as int),
    {
        self.rows[y][x]
    }

    /// Write `v` into the pixel at `(y, x)`, leaving every other pixel
    /// as it was.
    pub fn set(&mut self, y: usize, x: usize, v: (u8, u8, u8))
        requires
            old(self).wf(),
            y < old(self).h,
            x < old(self).w,
        ensures
            final(self).wf(),
            final(self).w == old(self).w,
            final(self).h == old(self).h,
            final(self).at(y as int, x as int) == v,
            forall|i: int, j: int|
                0 <= i < old(self).h && 0 <= j < old(self).w && !(i == y && j == x)
                    ==> final(self).at(i, j) == old(self).at(i, j),
    {
        let row: &mut Vec<(u8, u8, u8)> = &mut self.rows[y];
        row.set(x, v);
    }
}

} // verus!
