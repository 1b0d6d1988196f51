use string_art::cache::{BasicLinePixelCache, LinePixelCache};
use string_art::config::{default_config, StringArtConfig};
use string_art::error::StringArtError;
use string_art::factory::StringArtFactory;
use string_art::greedy::StringArtGenerator;
use string_art::grid::{MaskGrid, PixelGrid};
use string_art::image_processing::{
    create_eye_enhancement_mask, create_eye_protection_mask, create_negative_space_mask,
    detect_eyes, detect_negative_spaces, get_most_common_color,
};
use string_art::raster::rasterize;
use string_art::utils::{
    apply_line_darkness_from_pixels, calculate_line_score_from_pixels, calculate_nail_coords,
    Coord,
};

fn square_target(size: usize, background: u8, center_value: u8, lo: usize, hi: usize) -> PixelGrid {
    let mut target = PixelGrid::new_fill(size, size, background);
    for y in lo..hi {
        for x in lo..hi {
            target.set(y, x, center_value);
        }
    }
    target
}

#[test]
fn test_string_art_config_default() {
    let config = StringArtConfig::default();
    assert_eq!(config.num_nails, 720);
    assert_eq!(config.image_size, 500);
    assert!(config.extract_subject);
    assert!(config.remove_shadows);
    assert!(config.preserve_eyes);
}

#[test]
fn test_nail_coordinates_calculation() {
    let center = Coord::new(100, 100);
    let radius = 95;
    let coords = calculate_nail_coords(4, center, radius);

    assert_eq!(coords.len(), 4);
    // First nail should be at (195, 100) - to the right
    assert_eq!(coords[0], Coord::new(195, 100));
}

#[test]
fn test_default_config() {
    let config = default_config();
    assert_eq!(config.num_nails, 720);
    assert_eq!(config.image_size, 500);
    assert!(config.preserve_eyes);
}

#[test]
fn test_get_most_common_color() {
    let img = PixelGrid::new_fill(10, 10, 128);
    let color = get_most_common_color(&img).unwrap();
    assert_eq!(color, 128);
}

#[test]
fn test_get_most_common_color_majority() {
    let mut img = PixelGrid::new_fill(4, 4, 200);
    img.set(0, 0, 7);
    img.set(1, 1, 7);
    let color = get_most_common_color(&img).unwrap();
    assert_eq!(color, 200);
}

#[test]
fn test_get_most_common_color_empty() {
    let img = PixelGrid::new_fill(0, 0, 0);
    let r = get_most_common_color(&img);
    assert!(matches!(r, Err(StringArtError::InvalidParameter { .. })));
}

#[test]
fn test_rasterize_symmetric_set() {
    let a = Coord::new(2, 3);
    let b = Coord::new(11, 7);
    let fwd = rasterize(a, b);
    let bwd = rasterize(b, a);
    let mut fwd_pts: Vec<(i32, i32)> = fwd.iter().map(|c| (c.x, c.y)).collect();
    let mut bwd_pts: Vec<(i32, i32)> = bwd.iter().map(|c| (c.x, c.y)).collect();
    fwd_pts.sort();
    bwd_pts.sort();
    assert_eq!(fwd_pts, bwd_pts);
    assert_eq!(fwd[0], a);
    assert_eq!(fwd[fwd.len() - 1], b);
    assert!(fwd.contains(&a) && fwd.contains(&b));
    assert!(bwd.contains(&a) && bwd.contains(&b));
}

#[test]
fn test_rasterize_degenerate() {
    let a = Coord::new(5, 5);
    let r = rasterize(a, a);
    assert_eq!(r.len(), 1);
    assert_eq!(r[0], a);
}

#[test]
fn test_rasterize_no_duplicates() {
    let a = Coord::new(0, 0);
    let b = Coord::new(9, 4);
    let r = rasterize(a, b);
    for i in 0..r.len() {
        for j in (i + 1)..r.len() {
            assert_ne!(r[i], r[j]);
        }
    }
}

#[test]
fn test_cache_lookup_symmetric() {
    let coords = calculate_nail_coords(6, Coord::new(50, 50), 40);
    let cache = BasicLinePixelCache::new(&coords);
    for i in 0..6usize {
        for j in 0..6usize {
            if i != j {
                assert_eq!(cache.get(i, j), cache.get(j, i));
            }
        }
    }
}

#[test]
fn test_cache_matches_rasterizer() {
    let coords = calculate_nail_coords(5, Coord::new(20, 20), 15);
    let cache = BasicLinePixelCache::new(&coords);
    let direct = BasicLinePixelCache::get_line_pixels(coords[1], coords[3]);
    assert_eq!(cache.get(1, 3), &direct);
}

#[test]
fn test_generate_filename() {
    let coords = vec![Coord::new(1, 2), Coord::new(3, 4)];
    let name = BasicLinePixelCache::generate_filename(&coords);
    assert_eq!(name, "1,2|3,4.json");
}

#[test]
fn test_generate_filename_negative_and_single() {
    let coords = vec![Coord::new(-5, 7)];
    let name = BasicLinePixelCache::generate_filename(&coords);
    assert_eq!(name, "-5,7|-5,7.json");
    let empty: Vec<Coord> = Vec::new();
    assert_eq!(BasicLinePixelCache::generate_filename(&empty), "empty_nails.json");
}

#[test]
fn test_residual_update_monotone_and_drains() {
    let mut residual = PixelGrid::new_fill(4, 4, 200);
    let pixels = vec![Coord::new(0, 0), Coord::new(1, 1), Coord::new(9, 9)];
    apply_line_darkness_from_pixels(&mut residual, &pixels, 90);
    assert_eq!(residual.get(0, 0), 110);
    assert_eq!(residual.get(1, 1), 110);
    assert_eq!(residual.get(2, 2), 200);
    apply_line_darkness_from_pixels(&mut residual, &pixels, 90);
    assert_eq!(residual.get(0, 0), 20);
    apply_line_darkness_from_pixels(&mut residual, &pixels, 90);
    assert_eq!(residual.get(0, 0), 0);
    assert_eq!(residual.get(1, 1), 0);
    // a further application stays at zero, never negative
    apply_line_darkness_from_pixels(&mut residual, &pixels, 90);
    assert_eq!(residual.get(0, 0), 0);
}

#[test]
fn test_score_neutral_masks_is_plain_average() {
    let mut residual = PixelGrid::new_fill(4, 4, 0);
    residual.set(0, 0, 10);
    residual.set(0, 1, 20);
    residual.set(0, 2, 30);
    let pixels = vec![Coord::new(0, 0), Coord::new(1, 0), Coord::new(2, 0)];
    let neutral = MaskGrid::neutral(4, 4);
    let no_protection = MaskGrid::new_fill(4, 4, 0);
    let score = calculate_line_score_from_pixels(&residual, &pixels, &neutral, &no_protection, 50);
    // the fixed-point average of 10, 20 and 30, scaled by 100
    assert_eq!(score, 2000);
}

#[test]
fn test_score_skips_out_of_bounds_pixels() {
    let residual = PixelGrid::new_fill(4, 4, 120);
    let pixels = vec![Coord::new(0, 0), Coord::new(-1, 0), Coord::new(0, 99)];
    let neutral = MaskGrid::neutral(4, 4);
    let no_protection = MaskGrid::new_fill(4, 4, 0);
    let score = calculate_line_score_from_pixels(&residual, &pixels, &neutral, &no_protection, 0);
    assert_eq!(score, 12000);
}

#[test]
fn test_score_empty_line_is_zero() {
    let residual = PixelGrid::new_fill(4, 4, 120);
    let pixels: Vec<Coord> = Vec::new();
    let neutral = MaskGrid::neutral(4, 4);
    let no_protection = MaskGrid::new_fill(4, 4, 0);
    assert_eq!(
        calculate_line_score_from_pixels(&residual, &pixels, &neutral, &no_protection, 50),
        0
    );
}

#[test]
fn test_score_protection_penalty() {
    let residual = PixelGrid::new_fill(4, 4, 100);
    let pixels = vec![Coord::new(0, 0), Coord::new(1, 0)];
    let neutral = MaskGrid::neutral(4, 4);
    let protection = MaskGrid::new_fill(4, 4, 100);
    // average brightness 100 (10000 in fixed point), penalty weight one
    // on a fully protected line removes one brightness unit scale
    let score = calculate_line_score_from_pixels(&residual, &pixels, &neutral, &protection, 100);
    assert_eq!(score, 10000 - 100);
}

fn small_config(num_nails: usize, image_size: usize) -> StringArtConfig {
    StringArtConfig {
        num_nails,
        image_size,
        extract_subject: false,
        remove_shadows: false,
        preserve_eyes: false,
        preserve_negative_space: false,
        negative_space_penalty: 50,
        negative_space_threshold: 200,
    }
}

#[test]
fn test_greedy_generator_creation() {
    let target = square_target(100, 255, 0, 25, 75);
    let (generator, _renderer) =
        StringArtFactory::create_from_target(target, small_config(10, 100)).unwrap();
    assert_eq!(generator.get_nail_coords().len(), 10);
    assert_eq!(generator.get_path().len(), 0); // No path generated yet
}

#[test]
fn test_invalid_parameters() {
    let target = square_target(100, 200, 50, 25, 75);
    let (mut generator, _renderer) =
        StringArtFactory::create_from_target(target, small_config(8, 100)).unwrap();

    // Test invalid num_lines
    let result = generator.generate_path(0, 25, 100);
    assert!(result.is_err());
    assert!(matches!(result, Err(StringArtError::InvalidParameter { .. })));

    // Test invalid line_darkness
    let result = generator.generate_path(10, 0, 100);
    assert!(result.is_err());
    assert!(matches!(result, Err(StringArtError::InvalidParameter { .. })));

    // the path stays in its initial state
    assert_eq!(generator.get_path().len(), 0);
}

#[test]
fn test_greedy_path_generation() {
    // an 8-nail circle around a 100x100 image with a uniform dark
    // center square on a light background
    let target = square_target(100, 230, 25, 25, 75);
    let (mut generator, renderer) =
        StringArtFactory::create_from_target(target, small_config(8, 100)).unwrap();
    let result = generator.generate_path(5, 25, 100);
    assert!(result.is_ok());
    let path = result.unwrap();
    assert!(path.len() >= 2);
    assert_eq!(path[0], 0);
    for k in 0..path.len() - 1 {
        assert_ne!(path[k], path[k + 1]);
        assert!(path[k] < 8);
    }

    // the rendered canvas is not entirely white
    let canvas = renderer.render_to_image(&generator.state, None).unwrap();
    let mut any_dark = false;
    for y in 0..canvas.h {
        for x in 0..canvas.w {
            if canvas.get(y, x) != (255, 255, 255) {
                any_dark = true;
            }
        }
    }
    assert!(any_dark);
}

#[test]
fn test_stall_on_flat_image() {
    // an entirely white image has zero residual everywhere: every
    // candidate scores zero and the engine stalls with a single nail
    let target = PixelGrid::new_fill(100, 100, 255);
    let (mut generator, _renderer) =
        StringArtFactory::create_from_target(target, small_config(8, 100)).unwrap();
    let result = generator.generate_path(100, 25, 100);
    assert!(matches!(result, Err(StringArtError::PathGenerationFailed { .. })));
    assert_eq!(generator.get_path().len(), 1);
    assert_eq!(generator.get_path()[0], 0);
}

#[test]
fn test_flat_image_candidate_scores_are_zero() {
    let target = PixelGrid::new_fill(100, 100, 255);
    let residual = target.inverted();
    let pixels = rasterize(Coord::new(5, 50), Coord::new(95, 50));
    let neutral = MaskGrid::neutral(100, 100);
    let no_protection = MaskGrid::new_fill(100, 100, 0);
    assert_eq!(
        calculate_line_score_from_pixels(&residual, &pixels, &neutral, &no_protection, 50),
        0
    );
}

#[test]
fn test_engine_single_step() {
    let target = square_target(100, 230, 25, 25, 75);
    let (mut generator, _renderer) =
        StringArtFactory::create_from_target(target, small_config(8, 100)).unwrap();
    generator.begin_path();
    assert_eq!(generator.get_path().len(), 1);
    let step = generator.step(25, 100);
    assert!(step.is_some());
    let (next_nail, score) = step.unwrap();
    assert!(next_nail < 8 && next_nail != 0);
    assert!(score >= 100);
    assert_eq!(generator.get_path().len(), 2);
    assert_eq!(generator.get_path()[1], next_nail);
}

#[test]
fn test_renderer_tolerates_empty_path() {
    let target = PixelGrid::new_fill(50, 50, 128);
    let (generator, renderer) =
        StringArtFactory::create_from_target(target, small_config(4, 50)).unwrap();
    // an empty path yields an untouched blank canvas without error
    let canvas = renderer.render_to_image(&generator.state, Some((0, 0, 0))).unwrap();
    for y in 0..canvas.h {
        for x in 0..canvas.w {
            assert_eq!(canvas.get(y, x), (255, 255, 255));
        }
    }
}

#[test]
fn test_eye_protection_mask_is_neutral() {
    let regions = Vec::new();
    let mask = create_eye_protection_mask(20, &regions);
    for y in 0..20 {
        for x in 0..20 {
            assert_eq!(mask.get(y, x), 100);
        }
    }
}

#[test]
fn test_eye_enhancement_mask_without_regions_is_neutral() {
    let target = PixelGrid::new_fill(20, 20, 100);
    let regions = Vec::new();
    let mask = create_eye_enhancement_mask(20, &regions, &target);
    for y in 0..20 {
        for x in 0..20 {
            assert_eq!(mask.get(y, x), 100);
        }
    }
}

#[test]
fn test_eye_enhancement_mask_boosts_dark_pixels() {
    let mut target = PixelGrid::new_fill(40, 40, 200);
    // a dark pupil inside the region
    target.set(10, 10, 0);
    let regions = vec![string_art::state::EyeRegion { x: 5, y: 5, width: 10, height: 10 }];
    let mask = create_eye_enhancement_mask(40, &regions, &target);
    // region mean is 198, so a black pupil gets the full boost:
    // 100 + 300 * (198 - 0) / 198 = 400
    let boosted = mask.get(10, 10);
    assert_eq!(boosted, 400);
    // far away from the region the mask stays neutral
    assert_eq!(mask.get(30, 30), 100);
}

#[test]
fn test_detect_eyes_on_flat_image() {
    let img = PixelGrid::new_fill(60, 60, 128);
    let eyes = detect_eyes(&img).unwrap();
    assert!(eyes.len() <= 2);
}

#[test]
fn test_negative_space_masks_ranges() {
    let mut img = PixelGrid::new_fill(40, 40, 50);
    // a large bright region that should be protected
    for y in 0..40 {
        for x in 20..40 {
            img.set(y, x, 250);
        }
    }
    let detected = detect_negative_spaces(&img, 200).unwrap();
    let mut any_marked = false;
    for y in 0..40 {
        for x in 0..40 {
            let v = detected.get(y, x);
            assert!(v == 0 || v == 100);
            if v == 100 {
                any_marked = true;
            }
        }
    }
    assert!(any_marked);

    let mask = create_negative_space_mask(&img, 200).unwrap();
    let mut any_protected = false;
    for y in 0..40 {
        for x in 0..40 {
            let v = mask.get(y, x);
            assert!(v == 0 || (30 <= v && v <= 100));
            if v > 0 {
                any_protected = true;
            }
        }
    }
    assert!(any_protected);
    // a cell deep inside the protected region holds the base strength
    assert_eq!(mask.get(20, 30), 30);
    // far on the dark side, outside the falloff radius, nothing is protected
    assert_eq!(mask.get(20, 5), 0);
}

#[test]
fn test_negative_space_mask_on_dark_image_is_empty() {
    let img = PixelGrid::new_fill(30, 30, 10);
    let mask = create_negative_space_mask(&img, 200).unwrap();
    for y in 0..30 {
        for x in 0..30 {
            assert_eq!(mask.get(y, x), 0);
        }
    }
}

#[test]
fn test_error_messages() {
    let e = StringArtError::InvalidParameter { message: "bad".to_string() };
    assert_eq!(e.message(), "bad");
    let e = StringArtError::PathGenerationFailed { reason: "why".to_string() };
    assert_eq!(e.message(), "why");
    let e = StringArtError::StateLock { message: "locked".to_string() };
    assert_eq!(e.message(), "locked");
    let e = StringArtError::ImageProcessingError { message: "img".to_string() };
    assert_eq!(e.message(), "img");
    let e = StringArtError::SerializationError { message: "ser".to_string() };
    assert_eq!(e.message(), "ser");
    let e = StringArtError::NoImprovementFound { iterations: 3 };
    assert_eq!(e.message(), "no improvement found after repeated iterations");
}

#[test]
fn test_residual_is_inverse_of_target() {
    let target = square_target(10, 240, 15, 2, 8);
    let (generator, _renderer) =
        StringArtFactory::create_from_target(target, small_config(4, 10)).unwrap();
    assert_eq!(generator.state.residual_image.get(0, 0), 15);
    assert_eq!(generator.state.residual_image.get(5, 5), 240);
}
