//! The session state: target and residual images, nail layout, masks,
//! the line-pixel cache, and the growing path, owned by one writer.

use vstd::prelude::*;
use crate::cache::BasicLinePixelCache;
use crate::config::StringArtConfig;
use crate::grid::{MaskGrid, PixelGrid};
use crate::utils::Coord;

verus! {

/// A rectangular region of emphasis, such as a detected eye.
#[derive(Debug, Clone, Copy, PartialEq, Eq, Structural)]
pub struct EyeRegion {
    pub x: i32,
    pub y: i32,
    pub width: i32,
    pub height: i32,
}

/// Holds the shared state for the string art generation process:
/// the images, masks, nail layout, pixel cache and the generated path.
pub struct StringArtState {
    pub config: StringArtConfig,
    pub target_image: PixelGrid,
    pub residual_image: PixelGrid,
    pub nail_coords: Vec<Coord>,
    pub eye_regions: Vec<EyeRegion>,
    pub eye_protection_mask: MaskGrid,
    pub negative_space_mask: MaskGrid,
    pub path: Vec<usize>,
    pub line_pixel_cache: BasicLinePixelCache,
}

impl StringArtState {
    /// Every nail coordinate is small enough that any line between two
    /// nails covers a bounded number of pixels.
    pub open spec fn coords_small(self) -> bool {
        forall|k: int|
            0 <= k < self.nail_coords@.len() ==> -16777216 <= (#[trigger] self.nail_coords@[k]).x
                <= 16777216 && -16777216 <= self.nail_coords@[k].y <= 16777216
    }

    /// The path starts at nail 0, every entry is a valid nail index,
    /// and no two consecutive entries are equal.
    pub open spec fn path_wf(self) -> bool {
        (self.path@.len() > 0 ==> self.path@[0] == 0) && (forall|k: int|
            0 <= k < self.path@.len() ==> (#[trigger] self.path@[k]) < self.config.num_nails) && (
        forall|k: int|
            0 <= k && k + 1 < self.path@.len() ==> self.path@[k + 1] != #[trigger] self.path@[k])
    }

    /// All grids are square with the configured size, the nail layout
    /// matches the configuration, and the cache holds the rasterized
    /// line of every nail pair.
    pub open spec fn wf(self) -> bool {
        &&& self.config.num_nails == self.nail_coords@.len()
        &&& self.config.num_nails <= 46340
        &&& self.target_image.wf()
        &&& self.target_image.w == self.config.image_size
        &&& self.target_image.h == self.config.image_size
        &&& self.residual_image.wf()
        &&& self.residual_image.w == self.config.image_size
        &&& self.residual_image.h == self.config.image_size
        &&& self.eye_protection_mask.wf()
        &&& self.eye_protection_mask.w == self.config.image_size
        &&& self.eye_protection_mask.h == self.config.image_size
        &&& self.negative_space_mask.wf()
        &&& self.negative_space_mask.w == self.config.image_size
        &&& self.negative_space_mask.h == self.config.image_size
        &&& self.line_pixel_cache.wf()
        &&& self.line_pixel_cache.wf_for(self.nail_coords@)
        &&& self.coords_small()
        &&& self.path_wf()
    }

    /// Assemble a fresh session: neutral emphasis, no protected
    /// regions, an empty path, and the line cache built for the nail
    /// layout.
    pub fn new(
        config: StringArtConfig,
        target_image: PixelGrid,
        residual_image: PixelGrid,
        nail_coords: Vec<Coord>,
    ) -> (r: Self)
        requires
            target_image.wf(),
            target_image.w == config.image_size,
            target_image.h == config.image_size,
            residual_image.wf(),
            residual_image.w == config.image_size,
            residual_image.h == config.image_size,
            nail_coords@.len() == config.num_nails,
            config.num_nails <= 46340,
            forall|k: int|
                0 <= k < nail_coords@.len() ==> -16777216 <= (#[trigger] nail_coords@[k]).x
                    <= 16777216 && -16777216 <= nail_coords@[k].y <= 16777216,
        ensures
            r.wf(),
            r.config == config,
            r.target_image == target_image,
            r.residual_image == residual_image,
            r.nail_coords == nail_coords,
            r.eye_regions@.len() == 0,
            r.eye_protection_mask.is_neutral(),
            forall|y: int, x: int|
                0 <= y < config.image_size && 0 <= x < config.image_size
                    ==> #[trigger] r.negative_space_mask.at(y, x) == 0,
            r.path@.len() == 0,
    {
        let image_size = config.image_size;
        let cache = BasicLinePixelCache::new(&nail_coords);
        Self {
            config,
            target_image,
            residual_image,
            nail_coords,
            eye_regions: Vec::new(),
            eye_protection_mask: MaskGrid::neutral(image_size, image_size),
            negative_space_mask: MaskGrid::new_fill(image_size, image_size, 0),
            path: Vec::new(),
            line_pixel_cache: cache,
        }
    }
}

} // verus!
