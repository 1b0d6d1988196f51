//! Factory for assembling a string art session from a preprocessed
//! target image: residual initialization, nail placement, cache
//! construction, and mask application.

use vstd::prelude::*;
use crate::config::StringArtConfig;
use crate::error::StringArtError;
use crate::greedy::GreedyGenerator;
use crate::grid::PixelGrid;
use crate::masking::{EyeEnhancementMask, MaskApplicator, NegativeSpaceMask};
use crate::renderer::ImageRenderer;
use crate::state::StringArtState;
use crate::utils::{calculate_nail_coords, Coord};

verus! {

/// Factory for creating and initializing the string art generator and
/// its components.
pub struct StringArtFactory {}

impl StringArtFactory {
    /// Creates a new string art session from a preprocessed square
    /// grayscale target image and a configuration: the residual image
    /// starts as the inverse of the target, the nails sit evenly on a
    /// circle slightly inset from the canvas edge, the line cache is
    /// built for every nail pair, and the configured masks are
    /// installed.
    pub fn create_from_target(target_image: PixelGrid, config: StringArtConfig) -> (r: Result<
        (GreedyGenerator, ImageRenderer),
        StringArtError,
    >)
        requires
            target_image.wf(),
            target_image.w == config.image_size,
            target_image.h == config.image_size,
            config.image_size <= 100000,
            config.num_nails <= 46340,
        ensures
            r is Ok,
            (match r {
                Result::Ok((generator, _renderer)) => {
                    &&& generator.state.wf()
                    &&& generator.state.config == config
                    &&& generator.state.target_image == target_image
                    &&& generator.state.path@.len() == 0
                    &&& generator.state.nail_coords@.len() == config.num_nails
                    &&& (forall|i: int|
                        0 <= i < config.num_nails ==> ((
                        #[trigger] generator.state.nail_coords@[i]).x as int,
                        generator.state.nail_coords@[i].y as int) == crate::utils::nail_coord(
                            i,
                            config.num_nails as int,
                            config.image_size as int / 2,
                            config.image_size as int / 2,
                            (if config.image_size as int / 2 >= 5 {
                                config.image_size as int / 2 - 5
                            } else {
                                0int
                            }),
                        ))
                    &&& (forall|y: int, x: int|
                        0 <= y < config.image_size && 0 <= x < config.image_size
                            ==> #[trigger] generator.state.residual_image.at(y, x) == 255
                            - target_image.at(y, x))
                    &&& (!config.preserve_eyes
                        ==> generator.state.eye_protection_mask.is_neutral())
                    &&& (!config.preserve_negative_space ==> (forall|y: int, x: int|
                        0 <= y < config.image_size && 0 <= x < config.image_size
                            ==> #[trigger] generator.state.negative_space_mask.at(y, x) == 0))
                },
                Result::Err(_) => false,
            }),
    {
        let residual_image = target_image.inverted();
        let half: usize = config.image_size / 2;
        let center = Coord::new(half as i32, half as i32);
        let radius: i32 = if half >= 5 {
            (half - 5) as i32
        } else {
            0
        };
        let nail_coords = calculate_nail_coords(config.num_nails, center, radius);
        proof {
            assert forall|k: int| 0 <= k < nail_coords@.len() implies -16777216
                <= (#[trigger] nail_coords@[k]).x <= 16777216 && -16777216 <= nail_coords@[k].y
                <= 16777216 by {
                assert(center.x - radius <= nail_coords@[k].x <= center.x + radius);
            }
        }
        let mut state = StringArtState::new(config, target_image, residual_image, nail_coords);
        if state.config.preserve_eyes {
            let eye_mask = EyeEnhancementMask::new();
            let _ = eye_mask.apply(&mut state);
        }
        if state.config.preserve_negative_space {
            let negative_space_mask = NegativeSpaceMask::new();
            let _ = negative_space_mask.apply(&mut state);
        }
        let generator = GreedyGenerator::new(state);
        let renderer = ImageRenderer::new();
        Ok((generator, renderer))
    }
}

} // verus!
