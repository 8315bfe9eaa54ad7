use pixel_engine::image_handler::{ColorType, Image, ImageError, Pixels};
use pixel_engine::median_blur::median_blur_image;

fn luma8(width: u32, height: u32, pixels: Vec<u8>) -> Image {
    assert_eq!(pixels.len(), (width * height) as usize);
    Image::new_u8(width, height, 1, 8, ColorType::Luma8, pixels)
}

fn luma16(width: u32, height: u32, pixels: Vec<u16>) -> Image {
    assert_eq!(pixels.len(), (width * height) as usize);
    Image::new_u16(width, height, 1, 16, ColorType::Luma16, pixels)
}

fn data_u8(img: &Image) -> Vec<u8> {
    match &img.pixels {
        Pixels::U8(d) => d.clone(),
        _ => panic!("expected 8-bit data"),
    }
}

fn data_u16(img: &Image) -> Vec<u16> {
    match &img.pixels {
        Pixels::U16(d) => d.clone(),
        _ => panic!("expected 16-bit data"),
    }
}

#[test]
fn zero_radius_is_rejected_without_mutation() {
    let mut img = luma8(2, 2, vec![1, 2, 3, 4]);
    assert_eq!(median_blur_image(&mut img, 0), Err(ImageError::InvalidArgument));
    assert_eq!(data_u8(&img), vec![1, 2, 3, 4]);
}

#[test]
fn unsupported_layout_is_rejected_bit_for_bit_unchanged() {
    // 16-bit samples under an 8-bit RGB tag cannot be processed.
    let mut img = Image::new_u16(2, 2, 1, 16, ColorType::Rgb8, vec![1, 2, 3, 4]);
    assert_eq!(median_blur_image(&mut img, 1), Err(ImageError::UnsupportedLayout));
    assert_eq!(data_u16(&img), vec![1, 2, 3, 4]);
    assert_eq!(img.horizontal_length(), 2);
    assert_eq!(img.vertical_length(), 2);
    assert_eq!(img.color_type(), ColorType::Rgb8);

    // 8-bit samples under the 16-bit grayscale tag fail the same way.
    let mut img8 = Image::new_u8(2, 2, 1, 8, ColorType::Luma16, vec![9, 8, 7, 6]);
    assert_eq!(median_blur_image(&mut img8, 1), Err(ImageError::UnsupportedLayout));
    assert_eq!(data_u8(&img8), vec![9, 8, 7, 6]);
}

#[test]
fn mismatched_sample_count_is_rejected() {
    // Four samples cannot form a 2x2 RGB image (which needs twelve).
    let mut img = Image::new_u8(2, 2, 1, 8, ColorType::Rgb8, vec![1, 2, 3, 4]);
    assert_eq!(
        median_blur_image(&mut img, 1),
        Err(ImageError::BufferConstructionFailure)
    );
    assert_eq!(data_u8(&img), vec![1, 2, 3, 4]);
}

#[test]
fn border_policy_on_distinct_three_by_three() {
    // All nine values distinct; radius 1 keeps the nominal rank threshold
    // floor(9/2)+1 = 5 also at clamped windows:
    // - the center sees all nine values, so it gets the true median 5;
    // - a corner sees only four values, the running count never reaches 5,
    //   and the scan falls through to 0;
    // - an edge sees six values and gets the fifth smallest.
    let mut img = luma8(3, 3, vec![1, 2, 3, 4, 5, 6, 7, 8, 9]);
    assert_eq!(median_blur_image(&mut img, 1), Ok(()));
    assert_eq!(data_u8(&img), vec![0, 5, 0, 7, 5, 8, 0, 8, 0]);
}

#[test]
fn sixteen_bit_median_matches_the_same_policy() {
    let mut img = luma16(3, 3, vec![10, 20, 30, 40, 50, 60, 70, 80, 90]);
    assert_eq!(median_blur_image(&mut img, 1), Ok(()));
    assert_eq!(data_u16(&img), vec![0, 50, 0, 70, 50, 80, 0, 80, 0]);
}

#[test]
fn rgb_channels_are_filtered_independently() {
    // 3x3 RGB: red holds 1..=9, green 10..=90, blue a constant 7.
    let mut pixels: Vec<u8> = Vec::new();
    for i in 0..9u8 {
        pixels.push(i + 1);
        pixels.push((i + 1) * 10);
        pixels.push(7);
    }
    let mut img = Image::new_u8(3, 3, 3, 8, ColorType::Rgb8, pixels);
    assert_eq!(median_blur_image(&mut img, 1), Ok(()));
    let red = vec![0, 5, 0, 7, 5, 8, 0, 8, 0];
    let green = vec![0, 50, 0, 70, 50, 80, 0, 80, 0];
    // Blue is constant 7, but corner windows hold only four samples and the
    // unshrunk rank threshold of 5 is never reached there.
    let blue = vec![0, 7, 0, 7, 7, 7, 0, 7, 0];
    let out = data_u8(&img);
    for i in 0..9 {
        assert_eq!(out[3 * i], red[i], "red at {i}");
        assert_eq!(out[3 * i + 1], green[i], "green at {i}");
        assert_eq!(out[3 * i + 2], blue[i], "blue at {i}");
    }
}

#[test]
fn large_window_keeps_fully_covered_pixels_exact() {
    // 5x5, radius 1: the inner 3x3 windows are never clamped.
    let values: Vec<u8> = (1..=25).collect();
    let mut img = luma8(5, 5, values.clone());
    assert_eq!(median_blur_image(&mut img, 1), Ok(()));
    let out = data_u8(&img);
    for y in 1..4usize {
        for x in 1..4usize {
            let mut window: Vec<u8> = Vec::new();
            for ky in (y - 1)..=(y + 1) {
                for kx in (x - 1)..=(x + 1) {
                    window.push(values[ky * 5 + kx]);
                }
            }
            window.sort();
            assert_eq!(out[y * 5 + x], window[4], "pixel ({x},{y})");
        }
    }
}

#[test]
fn radius_covering_the_whole_image_gives_the_global_median() {
    // radius 2 over 3x3: every window is the whole image, but the rank
    // threshold is floor(25/2)+1 = 13 > 9, so the scan falls through to 0.
    let mut img = luma8(3, 3, vec![1, 2, 3, 4, 5, 6, 7, 8, 9]);
    assert_eq!(median_blur_image(&mut img, 2), Ok(()));
    assert_eq!(data_u8(&img), vec![0; 9]);
}

#[test]
fn single_pixel_image() {
    // One pixel, radius 1: the window is that pixel, threshold 5 > 1 -> 0.
    let mut img = luma8(1, 1, vec![200]);
    assert_eq!(median_blur_image(&mut img, 1), Ok(()));
    assert_eq!(data_u8(&img), vec![0]);
}
