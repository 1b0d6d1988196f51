//! Mask applicators: each one computes its weighting image from the
//! session's target image and installs it in the session state; when
//! its feature is disabled the state is left untouched.

use vstd::prelude::*;
use crate::error::StringArtError;
use crate::image_processing::{
    create_eye_enhancement_mask,
    create_negative_space_mask,
    detect_eyes,
};
use crate::state::StringArtState;

verus! {


/// Trait for applying a mask to the string art state: an applicator
/// computes its weighting image from the session and installs it,
/// leaving the session well formed.
pub trait MaskApplicator: Sized {
    /// Applies the mask to the given string art state.
    fn apply(&self, state: &mut StringArtState) -> (r: Result<(), StringArtError>)
        requires
            old(state).wf(),
            old(state).config.image_size <= 100000,
        ensures
            r is Ok,
            final(state).wf(),
            final(state).config == old(state).config,
            final(state).target_image == old(state).target_image,
            final(state).residual_image == old(state).residual_image,
            final(state).nail_coords == old(state).nail_coords,
            final(state).path == old(state).path,
            final(state).line_pixel_cache == old(state).line_pixel_cache,
    ;
}

/// Mask applicator for enhancing eye regions.
pub struct EyeEnhancementMask {}

impl EyeEnhancementMask {
    pub fn new() -> (r: Self) {
        Self {  }
    }
}

impl MaskApplicator for EyeEnhancementMask {
    /// When eye emphasis is enabled, detect eye regions in the target
    /// image and install the enhancement mask; everything else of the
    /// state stays as it was.
    fn apply(&self, state: &mut StringArtState) -> (r: Result<(), StringArtError>)
        ensures
            final(state).negative_space_mask == old(state).negative_space_mask,
            final(state).path == old(state).path,
            final(state).line_pixel_cache == old(state).line_pixel_cache,
            !old(state).config.preserve_eyes ==> *final(state) == *old(state),
            final(state).config.preserve_eyes ==> (forall|y: int, x: int|
                0 <= y < final(state).config.image_size && 0 <= x
                    < final(state).config.image_size ==> 70 <= #[trigger] final(
                    state
                ).eye_protection_mask.at(y, x) <= 400),
            final(state).config.preserve_eyes ==> (forall|y: int, x: int|
                0 <= y < final(state).config.image_size && 0 <= x
                    < final(state).config.image_size ==> #[trigger] final(
                    state
                ).eye_protection_mask.at(y, x) == crate::image_processing::eye_mask_at(
                    final(state).target_image.cells(),
                    final(state).eye_regions@,
                    final(state).config.image_size as int,
                    x,
                    y,
                )),
            final(state).config.preserve_eyes && final(state).eye_regions@.len() == 0 ==> final(
                state
            ).eye_protection_mask.is_neutral(),
            final(state).config.preserve_eyes ==> final(state).eye_regions@.len() <= 2,
    {
        if state.config.preserve_eyes {
            let eyes = match detect_eyes(&state.target_image) {
                Ok(v) => v,
                Err(_) => Vec::new(),
            };
            let mask = create_eye_enhancement_mask(
                state.config.image_size,
                &eyes,
                &state.target_image,
            );
            state.eye_regions = eyes;
            state.eye_protection_mask = mask;
        }
        Ok(())
    }
}

/// Mask applicator for preserving negative space.
pub struct NegativeSpaceMask {}

impl NegativeSpaceMask {
    pub fn new() -> (r: Self) {
        Self {  }
    }
}

impl MaskApplicator for NegativeSpaceMask {
    /// When negative-space preservation is enabled, detect the bright
    /// regions of the target image and install the protection mask;
    /// everything else of the state stays as it was.
    fn apply(&self, state: &mut StringArtState) -> (r: Result<(), StringArtError>)
        ensures
            final(state).eye_regions == old(state).eye_regions,
            final(state).eye_protection_mask == old(state).eye_protection_mask,
            final(state).path == old(state).path,
            final(state).line_pixel_cache == old(state).line_pixel_cache,
            !old(state).config.preserve_negative_space ==> *final(state) == *old(state),
            final(state).config.preserve_negative_space ==> (forall|y: int, x: int|
                0 <= y < final(state).config.image_size && 0 <= x
                    < final(state).config.image_size ==> #[trigger] final(
                    state
                ).negative_space_mask.at(y, x) == 0 || (30 <= final(state).negative_space_mask.at(
                    y,
                    x,
                ) <= 100)),
            final(state).config.preserve_negative_space && (forall|y: int, x: int|
                0 <= y < final(state).config.image_size && 0 <= x
                    < final(state).config.image_size ==> #[trigger] final(
                    state
                ).target_image.at(y, x) < final(state).config.negative_space_threshold) ==> (forall|
                y: int,
                x: int,
            |
                0 <= y < final(state).config.image_size && 0 <= x
                    < final(state).config.image_size ==> #[trigger] final(
                    state
                ).negative_space_mask.at(y, x) == 0),
    {
        if state.config.preserve_negative_space {
            match create_negative_space_mask(
                &state.target_image,
                state.config.negative_space_threshold,
            ) {
                Ok(mask) => {
                    state.negative_space_mask = mask;
                },
                Err(_) => {},
            }
        }
        Ok(())
    }
}

} // verus!
