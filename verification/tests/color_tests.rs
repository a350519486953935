use sbrx::color::{Color, GBAColorCache};

#[test]
fn packed_zero_decodes_to_black() {
    let mut cache = GBAColorCache::new();
    assert_eq!(cache.from_gba(0x0000), Color { r: 0, g: 0, b: 0 });
}

#[test]
fn packed_max_decodes_to_248() {
    let mut cache = GBAColorCache::new();
    assert_eq!(cache.from_gba(0x7FFF), Color { r: 248, g: 248, b: 248 });
}

#[test]
fn white_encodes_to_packed_max() {
    let mut cache = GBAColorCache::new();
    assert_eq!(cache.to_gba(Color { r: 255, g: 255, b: 255 }), 0x7FFF);
}

#[test]
fn decode_extracts_five_bit_fields() {
    let mut cache = GBAColorCache::new();
    // fields: r = 0b10001 = 17, g = 0b01010 = 10, b = 0b00111 = 7
    let packed = (7 << 10) | (10 << 5) | 17;
    assert_eq!(
        cache.from_gba(packed),
        Color { r: 17 * 8, g: 10 * 8, b: 7 * 8 }
    );
}

#[test]
fn encode_rounds_each_channel_up() {
    let mut cache = GBAColorCache::new();
    // ceil(10/8) = 2, ceil(100/8) = 13, ceil(200/8) = 25
    let packed = cache.to_gba(Color { r: 10, g: 100, b: 200 });
    assert_eq!(packed, 25 * 0x400 + 13 * 0x20 + 2);
}

#[test]
fn encode_then_decode_rounds_to_representable() {
    let mut cache = GBAColorCache::new();
    let packed = cache.to_gba(Color { r: 10, g: 100, b: 200 });
    assert_eq!(cache.from_gba(packed), Color { r: 16, g: 104, b: 200 });
}

#[test]
fn decode_then_encode_is_identity_on_packed_values() {
    let mut cache = GBAColorCache::new();
    for &p in &[0x0000, 0x0001, 0x1234, 0x7FFF, 0x03E0, 0x7C00] {
        let color = cache.from_gba(p);
        assert_eq!(cache.to_gba(color), p);
    }
}

#[test]
fn memoized_conversions_are_stable() {
    let mut cache = GBAColorCache::new();
    let first = cache.from_gba(0x1234);
    let second = cache.from_gba(0x1234);
    assert_eq!(first, second);
    let c = Color { r: 12, g: 34, b: 56 };
    let p1 = cache.to_gba(c);
    let p2 = cache.to_gba(c);
    assert_eq!(p1, p2);
}
