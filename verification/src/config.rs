//! Session configuration for string art generation.

use vstd::prelude::*;

verus! {

/// Configuration for string art generation.
///
/// The negative-space penalty is a fixed-point weight scaled by 100
/// (50 means one half); the threshold is a brightness in `[0, 255]`.
#[derive(Debug, Clone)]
pub struct StringArtConfig {
    pub num_nails: usize,
    pub image_size: usize,
    pub extract_subject: bool,
    pub remove_shadows: bool,
    pub preserve_eyes: bool,
    pub preserve_negative_space: bool,
    pub negative_space_penalty: u32,
    pub negative_space_threshold: u8,
}

impl Default for StringArtConfig {
    /// Two nails per degree on a 500-pixel canvas, with subject
    /// extraction, shadow removal and eye emphasis on, and negative
    /// space preservation off.
    fn default() -> (r: Self)
        ensures
            r.num_nails == 720,
            r.image_size == 500,
            r.extract_subject,
            r.remove_shadows,
            r.preserve_eyes,
            !r.preserve_negative_space,
            r.negative_space_penalty == 50,
            r.negative_space_threshold == 200,
    {
        Self {
            num_nails: 720,
            image_size: 500,
            extract_subject: true,
            remove_shadows: true,
            preserve_eyes: true,
            preserve_negative_space: false,
            negative_space_penalty: 50,
            negative_space_threshold: 200,
        }
    }
}

/// Default configuration for string art generation.
pub fn default_config() -> (r: StringArtConfig)
    ensures
        r.num_nails == 720,
        r.image_size == 500,
        r.extract_subject,
        r.remove_shadows,
        r.preserve_eyes,
        !r.preserve_negative_space,
        r.negative_space_penalty == 50,
        r.negative_space_threshold == 200,
{
    StringArtConfig::default()
}

} // verus!
