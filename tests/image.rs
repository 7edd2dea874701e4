use rusterizer::convert::cast_usize;
use rusterizer::image::Image;

const RED: [u8; 4] = [255, 0, 0, 255];
const GREEN: [u8; 4] = [0, 255, 0, 255];
const BLUE: [u8; 4] = [0, 0, 255, 255];
const WHITE: [u8; 4] = [255, 255, 255, 255];

fn texture_2x2() -> Image {
    let mut image = Image::new(2, 2);
    image.set_pixel_rgba(0, 0, RED);
    image.set_pixel_rgba(1, 0, GREEN);
    image.set_pixel_rgba(0, 1, BLUE);
    image.set_pixel_rgba(1, 1, WHITE);
    image
}

#[test]
fn cast_usize_keeps_value() {
    assert_eq!(cast_usize(0), 0usize);
    assert_eq!(cast_usize(u32::MAX), u32::MAX as usize);
}

#[test]
fn new_image_is_zeroed() {
    let image = Image::new(3, 2);
    assert_eq!(image.dimensions(), (3, 2));
    assert_eq!(image.width(), 3);
    assert_eq!(image.height(), 2);
    assert_eq!(image.into_raw(), vec![0u32; 6]);
}

#[test]
fn new_empty_image() {
    let image = Image::new(0, 5);
    assert_eq!(image.dimensions(), (0, 5));
    assert!(image.into_raw().is_empty());
}

#[test]
fn from_pixel_rgba_fills_every_pixel() {
    let image = Image::from_pixel_rgba(3, 3, [1, 2, 3, 4]);
    for y in 0..3 {
        for x in 0..3 {
            assert_eq!(image.pixel_rgba(x, y), [1, 2, 3, 4]);
        }
    }
}

#[test]
fn colour_words_are_little_endian() {
    let image = Image::from_pixel_rgba(1, 1, [0x01, 0x02, 0x03, 0x04]);
    assert_eq!(image.into_raw(), vec![0x0403_0201]);
}

#[test]
fn from_pixel_bits_fills_every_word() {
    let image = Image::from_pixel_bits(2, 3, 1.0f32.to_bits());
    assert_eq!(image.into_raw(), vec![0x3f80_0000; 6]);
}

#[test]
fn from_raw_accepts_exact_buffer() {
    let image = Image::from_raw(vec![1, 2, 3, 4, 5, 6], 3, 2).unwrap();
    assert_eq!(image.dimensions(), (3, 2));
    assert_eq!(image.pixel_bits(2, 0), 3);
    assert_eq!(image.pixel_bits(0, 1), 4);
}

#[test]
fn from_raw_accepts_longer_buffer() {
    let image = Image::from_raw(vec![7; 10], 2, 2).unwrap();
    assert_eq!(image.into_raw(), vec![7; 10]);
}

#[test]
fn from_raw_rejects_short_buffer() {
    assert!(Image::from_raw(vec![0; 5], 3, 2).is_none());
    assert!(Image::from_raw(Vec::new(), 1, 1).is_none());
}

#[test]
fn set_pixel_rgba_then_read_back() {
    let mut image = Image::new(4, 3);
    image.set_pixel_rgba(3, 2, [9, 8, 7, 6]);
    assert_eq!(image.pixel_rgba(3, 2), [9, 8, 7, 6]);
    assert_eq!(image.pixel_rgba(2, 2), [0, 0, 0, 0]);
    let raw = image.into_raw();
    assert_eq!(raw[2 * 4 + 3], 0x0607_0809);
}

#[test]
fn set_pixel_bits_addresses_row_major() {
    let mut image = Image::new(3, 2);
    image.set_pixel_bits(1, 1, 42);
    assert_eq!(image.pixel_bits(1, 1), 42);
    assert_eq!(image.into_raw(), vec![0, 0, 0, 0, 42, 0]);
}

#[test]
fn last_write_wins_over_sets_and_clears() {
    let mut image = Image::from_pixel_bits(3, 2, 5);
    image.set_pixel_bits(0, 0, 1);
    image.set_pixel_bits(2, 1, 2);
    image.set_pixel_bits(0, 0, 3);
    assert_eq!(image.pixel_bits(0, 0), 3);
    assert_eq!(image.pixel_bits(2, 1), 2);
    assert_eq!(image.pixel_bits(1, 0), 5);
    image.clear_bits(9);
    image.set_pixel_bits(1, 1, 4);
    for y in 0..2 {
        for x in 0..3 {
            let expected = if (x, y) == (1, 1) { 4 } else { 9 };
            assert_eq!(image.pixel_bits(x, y), expected);
        }
    }
}

#[test]
fn clear_twice_equals_clear_once() {
    let mut once = Image::from_raw(vec![1, 2, 3, 4, 5, 6], 3, 2).unwrap();
    let mut twice = Image::from_raw(vec![1, 2, 3, 4, 5, 6], 3, 2).unwrap();
    once.clear_rgba([10, 20, 30, 40]);
    twice.clear_rgba([10, 20, 30, 40]);
    twice.clear_rgba([10, 20, 30, 40]);
    assert_eq!(once.into_raw(), twice.into_raw());
}

#[test]
fn clear_covers_whole_buffer() {
    let mut image = Image::from_raw(vec![1; 7], 2, 3).unwrap();
    image.clear_bits(0);
    assert_eq!(image.into_raw(), vec![0; 7]);
}

#[test]
fn as_ref_gives_the_words() {
    let image = Image::from_raw(vec![1, 2, 3, 4], 2, 2).unwrap();
    let words: &[u32] = image.as_ref();
    assert_eq!(words, &[1, 2, 3, 4]);
}

#[test]
fn nearest_texel_reads_corners() {
    let texture = texture_2x2();
    assert_eq!(texture.nearest_texel(0, 0), RED);
    assert_eq!(texture.nearest_texel(1, 0), GREEN);
    assert_eq!(texture.nearest_texel(0, 1), BLUE);
    assert_eq!(texture.nearest_texel(1, 1), WHITE);
}

#[test]
fn nearest_texel_clamps_past_the_edge() {
    let texture = texture_2x2();
    assert_eq!(texture.nearest_texel(5, 0), GREEN);
    assert_eq!(texture.nearest_texel(0, u32::MAX), texture.nearest_texel(0, 1));
    assert_eq!(texture.nearest_texel(u32::MAX, u32::MAX), WHITE);
}

#[test]
fn nearest_texel_of_empty_image_is_zero() {
    assert_eq!(Image::new(0, 0).nearest_texel(0, 0), [0, 0, 0, 0]);
    assert_eq!(Image::new(3, 0).nearest_texel(1, 1), [0, 0, 0, 0]);
    assert_eq!(Image::new(0, 3).nearest_texel(0, 2), [0, 0, 0, 0]);
}
