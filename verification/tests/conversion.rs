use img2ascii::error::AsciiError;
use img2ascii::pixel::{pixel_intensity, PixelBuffer, Rgb};
use img2ascii::processing::{brigtness_to_ascii, render, AsciiConverter};
use img2ascii::scale::{calculate_block_sizes, ScaleFactor};

const RAMP: &str = "$@B%8&WM#*oahkbdpqwmZO0QLCJUYXzcvunxrjft/\\|()1{}[]?-_+~<>i!lI;:,\"^`'. ";

fn solid_image(width: u32, height: u32, p: Rgb) -> PixelBuffer {
    let n: usize = (width as usize) * (height as usize);
    let mut pixels = Vec::new();
    for _ in 0..n {
        pixels.push(p);
    }
    PixelBuffer::new(width, height, pixels).unwrap()
}

#[test]
fn four_by_four_black_renders_dollar_grid() {
    let img = solid_image(4, 4, Rgb { r: 0, g: 0, b: 0 });
    let out = render(&img, (2, 2)).unwrap();
    assert_eq!(out, "$$ \n$$ \n");
}

#[test]
fn one_white_pixel_renders_blank() {
    let img = solid_image(1, 1, Rgb { r: 255, g: 255, b: 255 });
    let out = render(&img, (1, 1)).unwrap();
    assert_eq!(out, "  \n");
}

#[test]
fn block_sizes_for_quarter_scale() {
    let r = calculate_block_sizes(ScaleFactor::new(1, 4));
    assert_eq!(r, (4, 8));
}

#[test]
fn block_sizes_fall_back_at_one() {
    let r = calculate_block_sizes(ScaleFactor::new(1, 1));
    assert_eq!(r, (1, 2));
}

#[test]
fn block_sizes_fall_back_below_zero() {
    let r = calculate_block_sizes(ScaleFactor::new(-1, 10));
    assert_eq!(r, (1, 2));
}

#[test]
fn block_sizes_fall_back_above_one() {
    let r = calculate_block_sizes(ScaleFactor::new(3, 2));
    assert_eq!(r, (1, 2));
}

#[test]
fn block_sizes_stay_positive_in_range() {
    // The narrowest blocks the formula can yield.
    let r = calculate_block_sizes(ScaleFactor::new(999, 1000));
    assert_eq!(r, (1, 2));
    let r = calculate_block_sizes(ScaleFactor::new(1, 2));
    assert_eq!(r, (2, 4));
}

#[test]
fn intensity_truncates_each_channel() {
    assert_eq!(pixel_intensity(Rgb { r: 9, g: 9, b: 9 }), 9);
    // Truncating per channel gives 0 + 0 + 1; a combined (1 + 1 + 4) / 3
    // would give 2 instead.
    assert_eq!(pixel_intensity(Rgb { r: 1, g: 1, b: 4 }), 1);
}

#[test]
fn brightness_maps_to_ramp_ends() {
    assert_eq!(brigtness_to_ascii(0).unwrap(), '$');
    assert_eq!(brigtness_to_ascii(255).unwrap(), ' ');
    assert_eq!(brigtness_to_ascii(9).unwrap(), 'B');
}

#[test]
fn brightness_mapping_is_monotone() {
    let mut last: usize = 0;
    for b in 0..=255u8 {
        let c = brigtness_to_ascii(b).unwrap();
        let idx: usize = RAMP.chars().position(|r| r == c).unwrap();
        assert!(idx >= last, "ramp index went backwards at brightness {}", b);
        last = idx;
    }
    assert_eq!(last, RAMP.chars().count() - 1);
}

#[test]
fn rendering_is_deterministic() {
    let pixels: Vec<Rgb> = (0..35u32)
        .map(|i| Rgb { r: (i * 7 % 256) as u8, g: (i * 13 % 256) as u8, b: (i * 29 % 256) as u8 })
        .collect();
    let img1 = PixelBuffer::new(5, 7, pixels.clone()).unwrap();
    let img2 = PixelBuffer::new(5, 7, pixels).unwrap();
    let out1 = render(&img1, (2, 3)).unwrap();
    let out2 = render(&img2, (2, 3)).unwrap();
    assert_eq!(out1, out2);
}

#[test]
fn output_shape_matches_block_grid() {
    let pixels: Vec<Rgb> = (0..35u32)
        .map(|i| Rgb { r: (i * 11 % 256) as u8, g: (i * 3 % 256) as u8, b: (i * 17 % 256) as u8 })
        .collect();
    let img = PixelBuffer::new(5, 7, pixels).unwrap();
    let out = render(&img, (2, 3)).unwrap();
    // floor(7 / 3) = 2 lines, each floor(5 / 2) = 2 glyphs plus " \n".
    let lines: Vec<&str> = out.split_terminator('\n').collect();
    assert_eq!(lines.len(), 2);
    for line in lines {
        assert_eq!(line.chars().count(), 3);
        assert!(line.ends_with(' '));
    }
}

#[test]
fn average_rounds_half_away_from_zero() {
    // Intensities 3 and 4 average to 3.5, which rounds to 4: the first
    // brightness whose ramp index is 1, so the glyph is '@' and not '$'.
    let pixels = vec![Rgb { r: 9, g: 0, b: 0 }, Rgb { r: 12, g: 0, b: 0 }];
    let img = PixelBuffer::new(2, 1, pixels).unwrap();
    let out = render(&img, (2, 1)).unwrap();
    assert_eq!(out, "@ \n");
}

#[test]
fn remainder_pixels_do_not_make_extra_blocks() {
    // A 5x5 image whose fifth column and row are white, the rest black:
    // with 2x2 blocks only the black 4x4 core is rendered.
    let mut pixels = Vec::new();
    for y in 0..5u32 {
        for x in 0..5u32 {
            let v: u8 = if x == 4 || y == 4 { 255 } else { 0 };
            pixels.push(Rgb { r: v, g: v, b: v });
        }
    }
    let img = PixelBuffer::new(5, 5, pixels).unwrap();
    let out = render(&img, (2, 2)).unwrap();
    assert_eq!(out, "$$ \n$$ \n");
}

#[test]
fn image_smaller_than_block_renders_nothing() {
    let img = solid_image(1, 1, Rgb { r: 0, g: 0, b: 0 });
    let out = render(&img, (2, 2)).unwrap();
    assert_eq!(out, "");
}

#[test]
fn zero_block_is_a_conversion_error() {
    let img = solid_image(2, 2, Rgb { r: 0, g: 0, b: 0 });
    assert_eq!(render(&img, (0, 2)).unwrap_err(), AsciiError::ConversionError);
    assert_eq!(render(&img, (2, 0)).unwrap_err(), AsciiError::ConversionError);
}

#[test]
fn wrong_pixel_count_is_an_image_error() {
    let pixels = vec![Rgb { r: 0, g: 0, b: 0 }; 3];
    let err = PixelBuffer::new(2, 2, pixels).unwrap_err();
    assert_eq!(err, AsciiError::ImageError);
}

#[test]
fn converter_renders_through_scale() {
    // Scale 1/2 gives 2x4 blocks: an 4x8 black image becomes 2x2 glyphs.
    let img = solid_image(4, 8, Rgb { r: 0, g: 0, b: 0 });
    let conv = AsciiConverter::new(img, ScaleFactor::new(1, 2));
    let out = conv.convert().unwrap();
    assert_eq!(out, "$$ \n$$ \n");
}

#[test]
fn get_string_matches_convert() {
    let img1 = solid_image(3, 3, Rgb { r: 200, g: 100, b: 50 });
    let img2 = solid_image(3, 3, Rgb { r: 200, g: 100, b: 50 });
    let a = AsciiConverter::with_block_size(img1, (1, 1)).convert().unwrap();
    let b = AsciiConverter::with_block_size(img2, (1, 1)).get_string().unwrap();
    assert_eq!(a, b);
}

#[test]
fn uniform_block_keeps_pixel_intensity() {
    let p = Rgb { r: 120, g: 80, b: 40 };
    let img = solid_image(3, 3, p);
    let out = render(&img, (3, 3)).unwrap();
    let expected = brigtness_to_ascii(pixel_intensity(p)).unwrap();
    assert_eq!(out, format!("{} \n", expected));
}

#[test]
fn error_messages_name_the_failure() {
    assert_eq!(AsciiError::ImageError.message(), "Failed to import image");
    assert_eq!(AsciiError::ConversionError.message(), "Failed to convert image");
    assert_eq!(
        AsciiError::CharLookupError.message(),
        "Failed to lookup ASCII representation for a pixel/pixel group"
    );
}
