use sbrx::color::Color;
use sbrx::data::Character;
use sbrx::error::CodecError;
use sbrx::raster::RasterImage;
use sbrx::sprite::{Animation, Frame, Spritesheet};

fn marker_even() -> Color {
    Color { r: 255, g: 0, b: 255 }
}

fn marker_odd() -> Color {
    Color { r: 185, g: 0, b: 255 }
}

fn marker_blank() -> Color {
    Color { r: 185, g: 0, b: 185 }
}

fn base() -> Color {
    Color { r: 0, g: 248, b: 248 }
}

fn black() -> Color {
    Color { r: 0, g: 0, b: 0 }
}

fn character(frames: Vec<i32>) -> Character {
    Character {
        name: String::from("Sonic"),
        palette_offset: 0,
        text_offsets: (0, 0),
        sprite_offset: 0,
        sprite_frames: frames,
    }
}

fn test_palette() -> Vec<Color> {
    let mut palette = vec![black(); 16];
    palette[1] = Color { r: 200, g: 10, b: 10 };
    palette[2] = Color { r: 10, g: 200, b: 10 };
    palette[3] = Color { r: 10, g: 10, b: 200 };
    palette
}

#[test]
fn blank_frame_renders_as_even_checker_marker() {
    let mut sheet = Spritesheet::new();
    let mut animation = Animation::new();
    animation.frames.push(Frame::new());
    sheet.animations.push(animation);
    let img = sheet.to_img(&test_palette());
    assert_eq!(img.width(), 48);
    assert_eq!(img.height(), 48);
    for y in 0..48 {
        for x in 0..48 {
            assert_eq!(img.get_pixel(x, y), marker_even());
        }
    }
}

#[test]
fn nonzero_pixels_render_their_palette_color() {
    let mut sheet = Spritesheet::new();
    let mut animation = Animation::new();
    let mut frame = Frame::new();
    // section 0, pixel (row 2, column 5)
    frame.sections[0].bytes[2 * 8 + 5] = 3;
    // section 8 (grid row 1, column 2), pixel (row 0, column 0)
    frame.sections[8].bytes[0] = 1;
    animation.frames.push(frame);
    sheet.animations.push(animation);
    let palette = test_palette();
    let img = sheet.to_img(&palette);
    assert_eq!(img.get_pixel(5, 2), palette[3]);
    assert_eq!(img.get_pixel(2 * 8, 8), palette[1]);
    assert_eq!(img.get_pixel(0, 0), marker_even());
}

#[test]
fn short_animations_leave_the_blank_marker_below() {
    let mut sheet = Spritesheet::new();
    let mut first = Animation::new();
    first.frames.push(Frame::new());
    let mut second = Animation::new();
    second.frames.push(Frame::new());
    second.frames.push(Frame::new());
    sheet.animations.push(first);
    sheet.animations.push(second);
    let img = sheet.to_img(&test_palette());
    assert_eq!(img.width(), 96);
    assert_eq!(img.height(), 96);
    // animation 0 has one frame: its second band is unused canvas
    assert_eq!(img.get_pixel(10, 50), marker_blank());
    // animation 1, frame 0: odd animation, even frame parity -> odd marker
    assert_eq!(img.get_pixel(50, 10), marker_odd());
    // animation 1, frame 1: matching parity -> even marker
    assert_eq!(img.get_pixel(50, 50), marker_even());
}

#[test]
fn frame_to_image_maps_every_index_through_the_palette() {
    let mut frame = Frame::new();
    frame.sections[7].bytes[10] = 2;
    let palette = test_palette();
    let img = frame.to_image(&palette);
    assert_eq!(img.width(), 48);
    assert_eq!(img.height(), 48);
    // index 0 maps through the palette too, not to a marker
    assert_eq!(img.get_pixel(0, 0), palette[0]);
    // section 7 = grid (row 1, column 1); pixel 10 = (row 1, column 2)
    assert_eq!(img.get_pixel(8 + 2, 8 + 1), palette[2]);
}

#[test]
fn get_frames_renders_one_image_per_frame() {
    let mut animation = Animation::new();
    animation.frames.push(Frame::new());
    let mut second = Frame::new();
    second.sections[0].bytes[0] = 1;
    animation.frames.push(second);
    let palette = test_palette();
    let imgs = animation.get_frames(&palette);
    assert_eq!(imgs.len(), 2);
    assert_eq!(imgs[0].get_pixel(0, 0), palette[0]);
    assert_eq!(imgs[1].get_pixel(0, 0), palette[1]);
}

#[test]
fn image_round_trip_reproduces_index_grids() {
    let mut sheet = Spritesheet::new();
    let mut animation = Animation::new();
    let mut frame = Frame::new();
    // first-seen order: index 1 appears before index 2 in scan order
    frame.sections[0].bytes[0] = 1;
    frame.sections[0].bytes[1] = 2;
    frame.sections[5].bytes[63] = 1;
    animation.frames.push(frame);
    sheet.animations.push(animation);
    let palette = test_palette();
    let img = sheet.to_img(&palette);
    let (rebuilt, new_palette) = Spritesheet::from_img(&img, &character(vec![1])).unwrap();
    assert_eq!(rebuilt.animations.len(), 1);
    assert_eq!(rebuilt.animations[0].frames.len(), 1);
    for s in 0..36 {
        for p in 0..64 {
            assert_eq!(
                rebuilt.animations[0].frames[0].sections[s].bytes[p],
                sheet.animations[0].frames[0].sections[s].bytes[p],
                "section {} pixel {}",
                s,
                p
            );
        }
    }
    assert_eq!(new_palette.len(), 16);
    assert_eq!(new_palette[0], base());
    assert_eq!(new_palette[1], palette[1]);
    assert_eq!(new_palette[2], palette[2]);
    for i in 3..16 {
        assert_eq!(new_palette[i], black());
    }
}

#[test]
fn seventeen_distinct_colors_overflow_the_palette() {
    // fill a 48x48 one-frame canvas with the first color, then lay 17
    // distinct colors along the scan order of section 0
    let mut pixels = vec![Color { r: 1, g: 0, b: 0 }; 48 * 48];
    for i in 0..17usize {
        let x = i % 8;
        let y = i / 8;
        pixels[y * 48 + x] = Color { r: 1 + i as i32, g: 0, b: 0 };
    }
    let img = RasterImage::from_pixels(48, 48, pixels);
    let result = Spritesheet::from_img(&img, &character(vec![1]));
    // the palette holds the seeded base color plus 15 new colors; the
    // sixteenth new color cannot be added, at scan position 15 = (7, 1)
    assert_eq!(result.err(), Some(CodecError::PaletteOverflow { x: 7, y: 1 }));
}

#[test]
fn marker_pixels_import_as_the_transparent_index() {
    let mut pixels = vec![marker_even(); 48 * 48];
    pixels[0] = marker_odd();
    pixels[1] = marker_blank();
    pixels[2] = Color { r: 99, g: 88, b: 77 };
    let img = RasterImage::from_pixels(48, 48, pixels);
    let (sheet, palette) = Spritesheet::from_img(&img, &character(vec![1])).unwrap();
    let frame = &sheet.animations[0].frames[0];
    assert_eq!(frame.sections[0].bytes[0], 0);
    assert_eq!(frame.sections[0].bytes[1], 0);
    assert_eq!(frame.sections[0].bytes[2], 1);
    assert_eq!(frame.sections[0].bytes[3], 0);
    assert_eq!(palette[0], base());
    assert_eq!(palette[1], Color { r: 99, g: 88, b: 77 });
}
