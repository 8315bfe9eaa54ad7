use pixel_engine::hot_pixel_removal::{
    clip_pixels_with_percentiles, percentile_cutoff_u16, percentile_cutoff_u8,
};
use pixel_engine::image_handler::{ColorType, Image, ImageError, Pixels};

fn luma8(width: u32, height: u32, pixels: Vec<u8>) -> Image {
    assert_eq!(pixels.len(), (width * height) as usize);
    Image::new_u8(width, height, 1, 8, ColorType::Luma8, pixels)
}

fn luma16(width: u32, height: u32, pixels: Vec<u16>) -> Image {
    assert_eq!(pixels.len(), (width * height) as usize);
    Image::new_u16(width, height, 1, 16, ColorType::Luma16, pixels)
}

fn data_u8(img: &Image) -> Vec<u8> {
    match &img.pixels {
        Pixels::U8(d) => d.clone(),
        _ => panic!("expected 8-bit data"),
    }
}

fn data_u16(img: &Image) -> Vec<u16> {
    match &img.pixels {
        Pixels::U16(d) => d.clone(),
        _ => panic!("expected 16-bit data"),
    }
}

#[test]
fn cutoff_picks_the_rank_the_percentile_names() {
    // ranks: floor(p/100 * 3), clamped to 2
    assert_eq!(percentile_cutoff_u8(&vec![5, 1, 3], Some(0)), Some(1));
    assert_eq!(percentile_cutoff_u8(&vec![5, 1, 3], Some(50)), Some(3));
    assert_eq!(percentile_cutoff_u8(&vec![5, 1, 3], Some(100)), Some(5));
    assert_eq!(percentile_cutoff_u8(&vec![5, 1, 3], None), None);
    assert_eq!(percentile_cutoff_u16(&vec![500, 1, 30000], Some(100)), Some(30000));
    assert_eq!(percentile_cutoff_u16(&vec![500, 1, 30000], None), None);
}

#[test]
fn cutoff_on_empty_data_reports_zero() {
    assert_eq!(percentile_cutoff_u8(&Vec::new(), Some(50)), Some(0));
    assert_eq!(percentile_cutoff_u16(&Vec::new(), Some(50)), Some(0));
}

#[test]
fn clip_rejects_percentile_above_hundred() {
    let mut img = luma8(2, 2, vec![1, 2, 3, 4]);
    assert_eq!(
        clip_pixels_with_percentiles(&mut img, Some(101), None),
        Err(ImageError::InvalidArgument)
    );
    assert_eq!(
        clip_pixels_with_percentiles(&mut img, None, Some(200)),
        Err(ImageError::InvalidArgument)
    );
    assert_eq!(data_u8(&img), vec![1, 2, 3, 4]);
}

#[test]
fn clip_rejects_low_above_high() {
    let mut img = luma8(2, 2, vec![1, 2, 3, 4]);
    assert_eq!(
        clip_pixels_with_percentiles(&mut img, Some(60), Some(40)),
        Err(ImageError::InvalidArgument)
    );
    assert_eq!(data_u8(&img), vec![1, 2, 3, 4]);
}

#[test]
fn clip_rejects_empty_buffer() {
    let mut img = luma8(0, 0, Vec::new());
    assert_eq!(
        clip_pixels_with_percentiles(&mut img, Some(10), Some(90)),
        Err(ImageError::EmptyBuffer)
    );
    let mut img16 = luma16(0, 3, Vec::new());
    assert_eq!(
        clip_pixels_with_percentiles(&mut img16, None, None),
        Err(ImageError::EmptyBuffer)
    );
}

#[test]
fn clip_clamps_into_the_cutoff_range() {
    // sorted: [1,2,3,4,5,6,7,8,9,10]; low rank floor(0.2*10)=2 -> 3,
    // high rank floor(0.8*10)=8 -> 9
    let mut img = luma8(5, 2, vec![10, 3, 7, 1, 9, 2, 8, 5, 4, 6]);
    assert_eq!(clip_pixels_with_percentiles(&mut img, Some(20), Some(80)), Ok(()));
    assert_eq!(data_u8(&img), vec![9, 3, 7, 3, 9, 3, 8, 5, 4, 6]);
}

#[test]
fn clip_with_absent_bounds_uses_depth_extremes() {
    let mut img = luma8(2, 2, vec![0, 10, 200, 255]);
    assert_eq!(clip_pixels_with_percentiles(&mut img, None, None), Ok(()));
    assert_eq!(data_u8(&img), vec![0, 10, 200, 255]);

    // Only a low bound: floor(0.5*4)=2 -> sorted[2]=200 raises the low tail.
    let mut img = luma8(2, 2, vec![0, 10, 200, 255]);
    assert_eq!(clip_pixels_with_percentiles(&mut img, Some(50), None), Ok(()));
    assert_eq!(data_u8(&img), vec![200, 200, 200, 255]);
}

#[test]
fn clip_sixteen_bit_pool() {
    let mut img = luma16(2, 2, vec![0, 1000, 40000, 65535]);
    assert_eq!(clip_pixels_with_percentiles(&mut img, Some(25), Some(75)), Ok(()));
    // sorted: [0,1000,40000,65535]; low rank 1 -> 1000, high rank 3 -> 65535
    assert_eq!(data_u16(&img), vec![1000, 1000, 40000, 65535]);
}

#[test]
fn clip_twice_equals_clip_once() {
    let base: Vec<u8> = vec![10, 3, 7, 1, 9, 2, 8, 5, 4, 6];
    let mut once = luma8(5, 2, base.clone());
    clip_pixels_with_percentiles(&mut once, Some(20), Some(80)).unwrap();
    let mut twice = luma8(5, 2, base);
    clip_pixels_with_percentiles(&mut twice, Some(20), Some(80)).unwrap();
    clip_pixels_with_percentiles(&mut twice, Some(20), Some(80)).unwrap();
    assert_eq!(data_u8(&once), data_u8(&twice));

    let base16: Vec<u16> = vec![0, 9000, 40000, 65535, 123, 456];
    let mut once16 = luma16(3, 2, base16.clone());
    clip_pixels_with_percentiles(&mut once16, Some(10), Some(90)).unwrap();
    let mut twice16 = luma16(3, 2, base16);
    clip_pixels_with_percentiles(&mut twice16, Some(10), Some(90)).unwrap();
    clip_pixels_with_percentiles(&mut twice16, Some(10), Some(90)).unwrap();
    assert_eq!(data_u16(&once16), data_u16(&twice16));
}

#[test]
fn clip_keeps_in_range_samples_and_bounds_the_rest() {
    let base: Vec<u8> = vec![10, 3, 7, 1, 9, 2, 8, 5, 4, 6];
    let low = percentile_cutoff_u8(&base, Some(20)).unwrap();
    let high = percentile_cutoff_u8(&base, Some(80)).unwrap();
    let mut img = luma8(5, 2, base.clone());
    clip_pixels_with_percentiles(&mut img, Some(20), Some(80)).unwrap();
    let out = data_u8(&img);
    for (before, after) in base.iter().zip(out.iter()) {
        assert!(low <= *after && *after <= high);
        if low <= *before && *before <= high {
            assert_eq!(before, after);
        }
    }
}

#[test]
fn depth_boundary_zero_and_full_percentiles_leave_extremes() {
    let mut img = luma8(2, 2, vec![0, 255, 0, 255]);
    assert_eq!(clip_pixels_with_percentiles(&mut img, Some(0), Some(100)), Ok(()));
    assert_eq!(data_u8(&img), vec![0, 255, 0, 255]);
}

#[test]
fn depth_boundary_equal_percentiles_collapse_to_one_cutoff() {
    let mut img = luma8(2, 2, vec![0, 255, 0, 255]);
    assert_eq!(clip_pixels_with_percentiles(&mut img, Some(50), Some(50)), Ok(()));
    // rank floor(0.5*4)=2 -> sorted[2]=255: everything is raised there.
    assert_eq!(data_u8(&img), vec![255, 255, 255, 255]);
}

#[test]
fn clip_works_on_rgb_as_one_flat_pool() {
    // 1x2 RGB: six samples pooled together, no per-channel statistics.
    let pixels: Vec<u8> = vec![0, 50, 100, 150, 200, 250];
    let mut img = Image::new_u8(2, 1, 3, 8, ColorType::Rgb8, pixels);
    assert_eq!(clip_pixels_with_percentiles(&mut img, Some(34), Some(67)), Ok(()));
    // ranks: floor(0.34*6)=2 -> 100, floor(0.67*6)=4 -> 200
    assert_eq!(data_u8(&img), vec![100, 100, 100, 150, 200, 200]);
}
