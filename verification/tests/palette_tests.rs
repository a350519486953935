use sbrx::color::Color;
use sbrx::error::CodecError;
use sbrx::palette::{decode_raw, encode_raw, PaletteManager};

#[test]
fn decode_raw_reassembles_byte_pairs_high_second() {
    let mut bytes = vec![0u8; 32];
    bytes[0] = 0x34;
    bytes[1] = 0x12;
    bytes[30] = 0xCD;
    bytes[31] = 0x2B;
    let colors = decode_raw(&bytes);
    assert_eq!(colors.len(), 16);
    assert_eq!(colors[0], 0x1234);
    assert_eq!(colors[15], 0x2BCD);
    assert_eq!(colors[1], 0x0000);
}

#[test]
fn encode_raw_keeps_the_historical_nibble_split() {
    let mut colors = vec![0i32; 16];
    colors[0] = 0x1234;
    let bytes = encode_raw(&colors);
    assert_eq!(bytes.len(), 32);
    // the write path emits (value & 0xF0, value & 0x0F), which does not
    // invert decode_raw
    assert_eq!(bytes[0], 0x30);
    assert_eq!(bytes[1], 0x04);
}

#[test]
fn store_and_load_packed_palette() {
    let mut manager = PaletteManager::new();
    let palette: Vec<i32> = (0..16).collect();
    manager.store_palette_i32(String::from("Sonic"), palette.clone());
    assert_eq!(manager.load_palette_i32(String::from("Sonic")), Ok(palette));
}

#[test]
fn load_missing_palette_reports_not_found() {
    let manager = PaletteManager::new();
    assert_eq!(
        manager.load_palette_i32(String::from("Shadow")),
        Err(CodecError::PaletteNotFound)
    );
}

#[test]
fn store_overwrites_only_the_named_palette() {
    let mut manager = PaletteManager::new();
    manager.store_palette_i32(String::from("Sonic"), vec![1; 16]);
    manager.store_palette_i32(String::from("Tails"), vec![2; 16]);
    manager.store_palette_i32(String::from("Sonic"), vec![3; 16]);
    assert_eq!(manager.load_palette_i32(String::from("Sonic")), Ok(vec![3; 16]));
    assert_eq!(manager.load_palette_i32(String::from("Tails")), Ok(vec![2; 16]));
}

#[test]
fn color_palettes_convert_through_the_gba_format() {
    let mut manager = PaletteManager::new();
    let mut colors = vec![Color { r: 0, g: 0, b: 0 }; 16];
    colors[1] = Color { r: 255, g: 255, b: 255 };
    colors[2] = Color { r: 16, g: 104, b: 200 };
    manager.store_palette_colors(String::from("Amy"), colors);
    let packed = manager.load_palette_i32(String::from("Amy")).unwrap();
    assert_eq!(packed[0], 0x0000);
    assert_eq!(packed[1], 0x7FFF);
    assert_eq!(packed[2], 25 * 0x400 + 13 * 0x20 + 2);
    let loaded = manager.load_palette_colors(String::from("Amy")).unwrap();
    assert_eq!(loaded[1], Color { r: 248, g: 248, b: 248 });
    assert_eq!(loaded[2], Color { r: 16, g: 104, b: 200 });
}

#[test]
fn loading_missing_colors_reports_not_found() {
    let mut manager = PaletteManager::new();
    assert_eq!(
        manager.load_palette_colors(String::from("Cream")),
        Err(CodecError::PaletteNotFound)
    );
}
