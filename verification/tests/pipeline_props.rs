use shootadoc::buffer::GrayscaleBuffer;
use shootadoc::imageops::{
    center_and_stretch, local_equalize, replace_with_surrounding_extreme, subtract, Extreme,
};
use shootadoc::pipeline::{process, PipelineError};

fn buf(width: usize, height: usize, data: Vec<u8>) -> GrayscaleBuffer {
    assert_eq!(data.len(), width * height);
    GrayscaleBuffer { width, height, data }
}

fn patterned(width: usize, height: usize) -> GrayscaleBuffer {
    let mut data = Vec::new();
    for y in 0..height {
        for x in 0..width {
            data.push(((x * 37 + y * 101 + (x * y) % 53) % 256) as u8);
        }
    }
    buf(width, height, data)
}

#[test]
fn min_round_never_brightens() {
    let original = patterned(16, 12);
    let mut darkened = original.duplicate();
    replace_with_surrounding_extreme(&mut darkened, 2, Extreme::Darker);
    for i in 0..original.data.len() {
        assert!(darkened.data[i] <= original.data[i]);
    }
}

#[test]
fn max_round_never_darkens() {
    let original = patterned(16, 12);
    let mut brightened = original.duplicate();
    replace_with_surrounding_extreme(&mut brightened, 2, Extreme::Brighter);
    for i in 0..original.data.len() {
        assert!(brightened.data[i] >= original.data[i]);
    }
}

#[test]
fn max_round_idempotent_once_saturated() {
    // a uniform field with one bright outlier: once the maximum has spread
    // everywhere it can reach, re-running the round changes no pixel
    let mut field = buf(8, 8, vec![10u8; 64]);
    field.set(7, 7, 200);
    for _ in 0..14 {
        replace_with_surrounding_extreme(&mut field, 1, Extreme::Brighter);
    }
    assert!(field.data.iter().all(|&v| v == 200));
    let saturated = field.duplicate();
    replace_with_surrounding_extreme(&mut field, 1, Extreme::Brighter);
    assert_eq!(field.data, saturated.data);
}

#[test]
fn range_map_stays_within_intensity_interval() {
    let white = patterned(16, 16);
    let mut range = white.duplicate();
    let mut black = white.duplicate();
    replace_with_surrounding_extreme(&mut black, 1, Extreme::Darker);
    subtract(&mut range, &black);
    for i in 0..range.data.len() {
        // u8 arithmetic saturated at 0: 0 <= white - black <= 255
        assert!(range.data[i] as i32 >= 0 && range.data[i] as i32 <= 255);
        assert_eq!(
            range.data[i],
            white.data[i].saturating_sub(black.data[i])
        );
    }
}

#[test]
fn contrast_output_stays_within_intensity_interval() {
    for v in [0u8, 1, 20, 100, 254, 255] {
        for b in [0u8, 20, 255] {
            for r in [0u8, 1, 160, 255] {
                let out = shootadoc::pixelops::equalize(v, b, r);
                assert!(out as i32 >= 0 && out as i32 <= 255);
            }
        }
    }
}

#[test]
fn end_to_end_block_on_background() {
    // 64x64 background 180 with an 8x8 block of 20 in the corner;
    // 5 pyramid rounds are derived from the dimensions
    let mut data = vec![180u8; 64 * 64];
    for y in 0..8 {
        for x in 0..8 {
            data[y * 64 + x] = 20;
        }
    }
    let img = buf(64, 64, data);
    let (out, frames) = process(&img, false).unwrap();
    assert_eq!(out.width, 64);
    assert_eq!(out.height, 64);
    assert_eq!(frames.len(), 0);
    // the dark block maps to black
    for y in 0..8 {
        for x in 0..8 {
            assert_eq!(out.get(x, y), 0);
        }
    }
    // background whose local window sees both tones maps to white
    assert_eq!(out.get(8, 8), 255);
    assert_eq!(out.get(20, 20), 255);
    assert_eq!(out.get(20, 0), 255);
    assert_eq!(out.get(0, 20), 255);
    // background far from the block is perfectly flat and collapses
    // through the zero-range fallback
    assert_eq!(out.get(32, 32), 0);
}

#[test]
fn flat_image_stays_uniform() {
    let img = buf(32, 32, vec![100u8; 32 * 32]);
    let (out, _) = process(&img, false).unwrap();
    let first = out.data[0];
    assert!(out.data.iter().all(|&v| v == first));
}

#[test]
fn flat_image_uniform_at_other_values() {
    for v in [0u8, 1, 255] {
        let img = buf(16, 16, vec![v; 256]);
        let (out, _) = process(&img, false).unwrap();
        let first = out.data[0];
        assert!(out.data.iter().all(|&p| p == first));
    }
}

#[test]
fn gradient_leaves_global_stage_inactive() {
    // a smooth linear gradient: the derived global points degenerate to the
    // no-op pair, so the end-to-end result equals the locally equalized one
    let mut data = Vec::new();
    for _y in 0..64usize {
        for x in 0..64usize {
            data.push((x * 4) as u8);
        }
    }
    let img = buf(64, 64, data);
    let (out, _) = process(&img, false).unwrap();

    // the local stage alone, composed by hand from the public stages
    let mut black = img.duplicate();
    replace_with_surrounding_extreme(&mut black, 1, Extreme::Darker);
    let mut white = black.duplicate();
    for round in 1..5u32 {
        let distance = 1usize << round;
        if round < 3 {
            replace_with_surrounding_extreme(&mut white, distance, Extreme::Brighter);
        }
        replace_with_surrounding_extreme(&mut black, distance, Extreme::Darker);
    }
    center_and_stretch(&mut black, 16);
    center_and_stretch(&mut white, 4);
    let mut range = white;
    subtract(&mut range, &black);
    let mut corrected = img.duplicate();
    local_equalize(&mut corrected, &black, &range);

    assert_eq!(out.data, corrected.data);
}

#[test]
fn too_small_image_fails_fast() {
    let img = buf(8, 8, vec![50u8; 64]);
    assert!(matches!(
        process(&img, false),
        Err(PipelineError::DimensionTooSmall)
    ));
    let narrow = buf(15, 64, vec![50u8; 15 * 64]);
    assert!(matches!(
        process(&narrow, false),
        Err(PipelineError::DimensionTooSmall)
    ));
    let tall_enough = buf(16, 16, vec![50u8; 256]);
    assert!(process(&tall_enough, false).is_ok());
}

#[test]
fn debug_frames_do_not_alter_the_result() {
    let img = patterned(64, 48);
    let (plain, plain_frames) = process(&img, false).unwrap();
    let (traced, traced_frames) = process(&img, true).unwrap();
    assert_eq!(plain.data, traced.data);
    assert_eq!(plain_frames.len(), 0);
    assert!(!traced_frames.is_empty());
    for frame in &traced_frames {
        assert_eq!(frame.image.width, 64);
        assert_eq!(frame.image.height, 48);
    }
}
