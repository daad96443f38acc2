use psd_great::composite::{composite_pixels, sample_to_u8, samples_of_plane};
use psd_great::types::ColorMode;

#[test]
fn samples_take_high_byte_at_16_bits() {
    assert_eq!(sample_to_u8(&[1, 2, 3, 4], 1, 16), 3);
    assert_eq!(sample_to_u8(&[1, 2], 5, 8), 0);
    assert_eq!(samples_of_plane(&[9, 8, 7], 2, 8), vec![9, 8]);
}

#[test]
fn rgb_composite_is_opaque_without_alpha() {
    let samples = vec![vec![1, 2], vec![3, 4], vec![5, 6]];
    let px = composite_pixels(&samples, &samples, ColorMode::RGB, 3, 2, 1);
    assert_eq!(px.data, vec![1, 3, 5, 255, 2, 4, 6, 255]);
}

#[test]
fn rgba_composite_takes_alpha_channel() {
    let samples = vec![vec![1], vec![3], vec![5], vec![7]];
    let px = composite_pixels(&samples, &samples, ColorMode::RGB, 4, 1, 1);
    assert_eq!(px.data, vec![1, 3, 5, 7]);
}

#[test]
fn gray_composite_fills_all_colors() {
    let samples = vec![vec![40]];
    let px = composite_pixels(&samples, &samples, ColorMode::Grayscale, 1, 1, 1);
    assert_eq!(px.data, vec![40, 40, 40, 255]);
}

#[test]
fn cmyk_composite_converts_inks() {
    let planes = vec![vec![0], vec![255], vec![0], vec![0]];
    let px = composite_pixels(&planes, &planes, ColorMode::CMYK, 4, 1, 1);
    assert_eq!(px.data, vec![255, 0, 255, 255]);
    let planes = vec![vec![0], vec![0], vec![0], vec![0], vec![55]];
    let px = composite_pixels(&planes, &planes, ColorMode::CMYK, 5, 1, 1);
    assert_eq!(px.data, vec![255, 255, 255, 200]);
}
