use pixel_engine::image_handler::{ColorType, Image, Pixels};
use pixel_engine::linear_function::apply_linear_function;

fn luma8(pixels: Vec<u8>) -> Image {
    let n = pixels.len() as u32;
    Image::new_u8(n, 1, 1, 8, ColorType::Luma8, pixels)
}

fn luma16(pixels: Vec<u16>) -> Image {
    let n = pixels.len() as u32;
    Image::new_u16(n, 1, 1, 16, ColorType::Luma16, pixels)
}

fn data_u8(img: &Image) -> Vec<u8> {
    match &img.pixels {
        Pixels::U8(d) => d.clone(),
        _ => panic!("expected 8-bit data"),
    }
}

fn data_u16(img: &Image) -> Vec<u16> {
    match &img.pixels {
        Pixels::U16(d) => d.clone(),
        _ => panic!("expected 16-bit data"),
    }
}

#[test]
fn identity_coefficients_change_nothing() {
    let mut img = luma8(vec![0, 1, 100, 254, 255]);
    assert_eq!(apply_linear_function(&mut img, 1, 0, 1), Ok(()));
    assert_eq!(data_u8(&img), vec![0, 1, 100, 254, 255]);

    let mut img16 = luma16(vec![0, 7, 40000, 65535]);
    assert_eq!(apply_linear_function(&mut img16, 1, 0, 1), Ok(()));
    assert_eq!(data_u16(&img16), vec![0, 7, 40000, 65535]);
}

#[test]
fn extreme_coefficients_saturate_without_wrapping() {
    let mut img = luma8(vec![0, 1, 128, 255]);
    // a = 1000000: everything nonzero overflows the depth and clamps high.
    assert_eq!(apply_linear_function(&mut img, 1000000, 0, 1), Ok(()));
    assert_eq!(data_u8(&img), vec![0, 255, 255, 255]);

    let mut img = luma8(vec![0, 1, 128, 255]);
    // b = -1000000: everything clamps low, never wraps.
    assert_eq!(apply_linear_function(&mut img, 1, -1000000, 1), Ok(()));
    assert_eq!(data_u8(&img), vec![0, 0, 0, 0]);

    let mut img16 = luma16(vec![40000]);
    assert_eq!(apply_linear_function(&mut img16, 2, 0, 1), Ok(()));
    assert_eq!(data_u16(&img16), vec![65535]);
}

#[test]
fn rounding_is_to_nearest_ties_away_from_zero() {
    // a = 1/2: 3 -> 1.5 -> 2, 5 -> 2.5 -> 3, 4 -> 2.
    let mut img = luma8(vec![3, 5, 4]);
    assert_eq!(apply_linear_function(&mut img, 1, 0, 2), Ok(()));
    assert_eq!(data_u8(&img), vec![2, 3, 2]);

    // a = 1, b = -1/2: 0 -> -0.5 -> -1 (away from zero) -> clamps to 0;
    // 1 -> 0.5 -> 1.
    let mut img = luma8(vec![0, 1]);
    assert_eq!(apply_linear_function(&mut img, 2, -1, 2), Ok(()));
    assert_eq!(data_u8(&img), vec![0, 1]);
}

#[test]
fn affine_contrast_stretch() {
    // v := round(2v + 10)
    let mut img = luma8(vec![0, 10, 100, 200]);
    assert_eq!(apply_linear_function(&mut img, 2, 10, 1), Ok(()));
    assert_eq!(data_u8(&img), vec![10, 30, 210, 255]);
}

#[test]
fn fractional_coefficients_over_a_shared_denominator() {
    // a = 3/2, b = 5/2: v -> round((3v + 5)/2)
    let mut img16 = luma16(vec![0, 1, 2, 3]);
    assert_eq!(apply_linear_function(&mut img16, 3, 5, 2), Ok(()));
    // 0 -> 2.5 -> 3, 1 -> 4 -> 4, 2 -> 5.5 -> 6, 3 -> 7 -> 7
    assert_eq!(data_u16(&img16), vec![3, 4, 6, 7]);
}
