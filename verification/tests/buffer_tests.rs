use pixel_engine::image_handler::{
    copy_vec_u16, copy_vec_u8, narrow_samples, widen_samples, ColorType, Image,
};
use pixel_engine::ping_pong_buffer::PingPongBuffers;

#[test]
fn constructors_and_getters_report_the_declared_shape() {
    let img = Image::new_u8(4, 3, 3, 8, ColorType::Rgb8, vec![0; 36]);
    assert_eq!(img.horizontal_length(), 4);
    assert_eq!(img.vertical_length(), 3);
    assert_eq!(img.channels(), 3);
    assert_eq!(img.bits_per_sample(), 8);
    assert_eq!(img.color_type(), ColorType::Rgb8);

    let img16 = Image::new_u16(2, 2, 1, 16, ColorType::Luma16, vec![1, 2, 3, 4]);
    assert_eq!(img16.bits_per_sample(), 16);
    assert_eq!(img16.color_type(), ColorType::Luma16);
}

#[test]
fn pixel_accessors_match_the_stored_depth() {
    let img = Image::new_u8(2, 1, 1, 8, ColorType::Luma8, vec![7, 9]);
    assert_eq!(img.pixels_u8(), Some(vec![7, 9]));
    assert_eq!(img.pixels_u16(), None);

    let img16 = Image::new_u16(2, 1, 1, 16, ColorType::Luma16, vec![700, 900]);
    assert_eq!(img16.pixels_u16(), Some(vec![700, 900]));
    assert_eq!(img16.pixels_u8(), None);
}

#[test]
fn sample_width_conversions_are_value_for_value() {
    assert_eq!(widen_samples(&vec![0u8, 5, 255]), vec![0u16, 5, 255]);
    assert_eq!(narrow_samples(&vec![0u16, 5, 255]), vec![0u8, 5, 255]);
    assert_eq!(copy_vec_u8(&vec![1u8, 2, 3]), vec![1u8, 2, 3]);
    assert_eq!(copy_vec_u16(&vec![1u16, 2, 3]), vec![1u16, 2, 3]);
}

#[test]
fn ping_pong_buffers_are_sized_by_the_image() {
    let buffers: PingPongBuffers<u16> = PingPongBuffers::new(4, 3, 3);
    assert_eq!(buffers.len(), 36);
    assert_eq!(buffers.active_slice().len(), 36);
    assert_eq!(buffers.width, 4);
    assert_eq!(buffers.height, 3);
    assert_eq!(buffers.channels, 3);
}

#[test]
fn ping_pong_swap_publishes_the_scratch_buffer() {
    let mut buffers: PingPongBuffers<u8> = PingPongBuffers::new(2, 1, 1);
    {
        let active = buffers.active_slice_mut();
        active[0] = 11;
        active[1] = 12;
    }
    {
        let scratch = buffers.scratch_slice_mut();
        scratch[0] = 21;
        scratch[1] = 22;
    }
    assert_eq!(buffers.active_slice(), &[11, 12]);
    buffers.swap();
    assert_eq!(buffers.active_slice(), &[21, 22]);
    buffers.swap();
    assert_eq!(buffers.active_slice(), &[11, 12]);
}
