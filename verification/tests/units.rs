use shootadoc::buffer::GrayscaleBuffer;
use shootadoc::cli::get_out_fname;
use shootadoc::global_equalization::{
    derive_global_points, get_distribution, get_distribution_local_extrema, log_compress,
    smooth_and_get_distribution_local_extrema,
};
use shootadoc::imageops::{center_and_stretch, subtract};
use shootadoc::math::{log_2, pow2_u32};
use shootadoc::pixelops::{brighter, darker, equalize};

fn buf(width: usize, height: usize, data: Vec<u8>) -> GrayscaleBuffer {
    assert_eq!(data.len(), width * height);
    GrayscaleBuffer { width, height, data }
}

#[test]
fn equalize_exact_values() {
    // full-range stretch: (180 - 20) / 160 of the way -> 255
    assert_eq!(equalize(180, 20, 160), 255);
    // value at the black point -> 0
    assert_eq!(equalize(20, 20, 160), 0);
    // below the black point saturates to 0 instead of wrapping
    assert_eq!(equalize(10, 20, 160), 0);
    // halfway up the range
    assert_eq!(equalize(100, 20, 160), 127);
    // clamped at 255 when the value exceeds black + range
    assert_eq!(equalize(250, 20, 100), 255);
}

#[test]
fn equalize_zero_range_is_defined() {
    // a perfectly flat neighborhood: divisor becomes 1, no division by zero
    assert_eq!(equalize(100, 100, 0), 0);
    assert_eq!(equalize(0, 0, 0), 0);
    assert_eq!(equalize(255, 255, 0), 0);
    // value above black with zero range clamps to 255
    assert_eq!(equalize(101, 100, 0), 255);
}

#[test]
fn brighter_darker_basic() {
    assert_eq!(brighter(3, 200), 200);
    assert_eq!(brighter(200, 3), 200);
    assert_eq!(darker(3, 200), 3);
    assert_eq!(darker(200, 3), 3);
    assert_eq!(brighter(7, 7), 7);
    assert_eq!(darker(7, 7), 7);
}

#[test]
fn log2_exact_values() {
    assert_eq!(log_2(1), 0);
    assert_eq!(log_2(2), 1);
    assert_eq!(log_2(15), 3);
    assert_eq!(log_2(16), 4);
    assert_eq!(log_2(17), 4);
    assert_eq!(log_2(64), 6);
    assert_eq!(log_2(u32::MAX), 31);
}

#[test]
fn pow2_exact_values() {
    assert_eq!(pow2_u32(0), 1);
    assert_eq!(pow2_u32(5), 32);
    assert_eq!(pow2_u32(31), 0x8000_0000);
}

#[test]
fn log_compress_values() {
    // integer fixed-point form of log base 1.1 of (1 + count)
    assert_eq!(log_compress(0), 0);
    assert_eq!(log_compress(1), 7);
    assert_eq!(log_compress(2), 11);
    assert_eq!(log_compress(255), 58);
    assert_eq!(log_compress(256), 58);
    assert_eq!(log_compress(1000), 72);
    assert_eq!(log_compress(400_000_000), 207);
}

#[test]
fn out_fname_inserts_marker() {
    assert_eq!(
        get_out_fname(b"photo.jpg"),
        Some(b"photo.fixed.jpg".to_vec())
    );
}

#[test]
fn out_fname_uses_last_dot() {
    assert_eq!(
        get_out_fname(b"archive.tar.gz"),
        Some(b"archive.tar.fixed.gz".to_vec())
    );
}

#[test]
fn out_fname_without_extension_is_none() {
    assert_eq!(get_out_fname(b"noext"), None);
    assert_eq!(get_out_fname(b""), None);
    // a leading dot alone does not begin an extension
    assert_eq!(get_out_fname(b".bashrc"), None);
}

#[test]
fn buffer_new_get_set() {
    let mut b = GrayscaleBuffer::new_filled(4, 3, 9);
    assert_eq!(b.width, 4);
    assert_eq!(b.height, 3);
    assert_eq!(b.data.len(), 12);
    assert_eq!(b.get(2, 1), 9);
    b.set(2, 1, 77);
    assert_eq!(b.get(2, 1), 77);
    assert_eq!(b.get(1, 2), 9);
}

#[test]
fn buffer_duplicate_independent() {
    let b = buf(2, 2, vec![1, 2, 3, 4]);
    let mut c = b.duplicate();
    assert_eq!(c.data, vec![1, 2, 3, 4]);
    c.set(0, 0, 99);
    assert_eq!(b.get(0, 0), 1);
    assert_eq!(c.get(0, 0), 99);
}

#[test]
fn distribution_of_uniform_image() {
    let b = buf(16, 16, vec![7u8; 256]);
    let d = get_distribution(&b);
    assert_eq!(d.len(), 256);
    assert_eq!(d[7], log_compress(256));
    assert_eq!(d[7], 58);
    assert_eq!(d[0], 0);
    assert_eq!(d[255], 0);
}

#[test]
fn sweep_finds_spike_turning_point_ltr() {
    let mut d = vec![0u32; 256];
    d[128] = 1000;
    let ex = smooth_and_get_distribution_local_extrema(&mut d, false);
    assert_eq!(ex, vec![129]);
    assert_eq!(d[127], 500);
    assert_eq!(d[128], 500);
    assert_eq!(d[129], 0);
}

#[test]
fn sweep_finds_spike_turning_point_rtl() {
    let mut d = vec![0u32; 256];
    d[128] = 1000;
    let ex = smooth_and_get_distribution_local_extrema(&mut d, true);
    assert_eq!(ex, vec![127]);
    assert_eq!(d[128], 500);
    assert_eq!(d[129], 500);
}

#[test]
fn derive_points_fallback_below_two() {
    assert_eq!(derive_global_points(&vec![]), (0, 255));
    assert_eq!(derive_global_points(&vec![100]), (0, 255));
}

#[test]
fn derive_points_ordered_pair() {
    // dark = 2 * 30, light = 255 - 2 * (255 - 200)
    assert_eq!(derive_global_points(&vec![30, 200]), (60, 145));
}

#[test]
fn derive_points_degenerate_ordering_falls_back() {
    // extrapolated black would exceed extrapolated white
    assert_eq!(derive_global_points(&vec![234, 251]), (0, 255));
}

#[test]
fn smoothing_terminates_on_all_zero_histogram() {
    let mut d = vec![0u32; 256];
    let points = get_distribution_local_extrema(&mut d);
    assert_eq!(points, (0, 255));
}

#[test]
fn smoothing_terminates_on_single_spike_histogram() {
    let mut d = vec![0u32; 256];
    d[128] = 1_000_000;
    let points = get_distribution_local_extrema(&mut d);
    // one turning point survives: fewer than 2, so the no-op pair
    assert_eq!(points, (0, 255));
}

#[test]
fn smoothing_terminates_on_adversarial_histogram() {
    // alternating full-scale comb: many turning points every round
    let mut d: Vec<u32> = (0..256u32).map(|i| if i % 2 == 0 { 0 } else { u32::MAX }).collect();
    let _ = get_distribution_local_extrema(&mut d);
}

#[test]
fn subtract_is_saturating() {
    let mut white = buf(2, 2, vec![200, 50, 255, 0]);
    let black = buf(2, 2, vec![50, 200, 0, 255]);
    subtract(&mut white, &black);
    assert_eq!(white.data, vec![150, 0, 255, 0]);
}

#[test]
fn center_stretch_replicates_edges() {
    let mut b = buf(5, 5, (0..25u8).collect());
    center_and_stretch(&mut b, 1);
    assert_eq!(
        b.data,
        vec![
            0, 0, 1, 2, 2, //
            0, 0, 1, 2, 2, //
            5, 5, 6, 7, 7, //
            10, 10, 11, 12, 12, //
            10, 10, 11, 12, 12
        ]
    );
}
