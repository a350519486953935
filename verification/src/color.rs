use std::collections::HashMap;
use vstd::prelude::*;

verus! {

broadcast use vstd::std_specs::hash::group_hash_axioms;

/// An RGB color. Channels are semantically bounded to 0..=255; values are
/// compared and hashed by the exact (r, g, b) triple.
#[derive(Eq, PartialEq, Hash, Copy, Clone, Debug, Structural)]
pub struct Color {
    pub r: i32,
    pub g: i32,
    pub b: i32,
}

/// All three channels lie in the 8-bit range.
pub open spec fn in_rgb24_range(c: Color) -> bool {
    &&& 0 <= c.r <= 255
    &&& 0 <= c.g <= 255
    &&& 0 <= c.b <= 255
}

/// Decoding a 15-bit packed color: each 5-bit field is scaled by 8. The
/// hardware's nominal scale constant of 24/15 truncates to 1 under integer
/// arithmetic, so the effective factor is 8 per step; that lossy behavior
/// is kept deliberately.
pub open spec fn spec_from_gba(value: i32) -> Color {
    Color {
        r: ((value & 0x001f) * 8) as i32,
        g: (((value & 0x03e0) >> 5) * 8) as i32,
        b: (((value & 0x7c00) >> 10) * 8) as i32,
    }
}

/// Encoding one channel: the ceiling of an eighth, clamped to the 5-bit maximum.
pub open spec fn spec_channel_to_5bit(c: i32) -> int {
    if (c + 7) / 8 > 31 {
        31
    } else {
        (c + 7) / 8
    }
}

/// Encoding a color: the three 5-bit fields are composed low-to-high as
/// red, green, blue, and the result is clamped to 15 bits.
pub open spec fn spec_to_gba(c: Color) -> i32 {
    let dr = spec_channel_to_5bit(c.r);
    let dg = spec_channel_to_5bit(c.g);
    let db = spec_channel_to_5bit(c.b);
    let packed = db * 0x400 + dg * 0x20 + dr;
    if packed > 0x7fff {
        0x7fff
    } else {
        packed as i32
    }
}

/// The integer key under which a color is memoized: the channels packed
/// as three bytes. Injective on colors within the 8-bit channel range.
pub open spec fn spec_color_key(c: Color) -> i32 {
    (c.r * 0x10000 + c.g * 0x100 + c.b) as i32
}

proof fn lemma_color_key_injective(c1: Color, c2: Color)
    requires
        in_rgb24_range(c1),
        in_rgb24_range(c2),
        spec_color_key(c1) == spec_color_key(c2),
    ensures
        c1 == c2,
{
    assert(c1.r * 0x10000 + c1.g * 0x100 + c1.b == c2.r * 0x10000 + c2.g * 0x100 + c2.b);
    assert(c1.r == c2.r && c1.g == c2.g && c1.b == c2.b) by (nonlinear_arith)
        requires
            0 <= c1.r <= 255,
            0 <= c1.g <= 255,
            0 <= c1.b <= 255,
            0 <= c2.r <= 255,
            0 <= c2.g <= 255,
            0 <= c2.b <= 255,
            c1.r * 0x10000 + c1.g * 0x100 + c1.b == c2.r * 0x10000 + c2.g * 0x100 + c2.b,
    ;
}

/// Bidirectional converter between 15-bit packed colors and RGB colors,
/// memoizing each direction so that repeated palette entries are converted
/// only once.
pub struct GBAColorCache {
    from_cache: HashMap<i32, Color>,
    to_cache: HashMap<i32, i32>,
}

impl GBAColorCache {
    /// Every memoized entry agrees with the corresponding conversion.
    pub closed spec fn wf(self) -> bool {
        &&& forall|k: i32| #[trigger]
            self.from_cache@.contains_key(k) ==> self.from_cache@[k] == spec_from_gba(k)
        &&& forall|c: Color|
            in_rgb24_range(c) && #[trigger] self.to_cache@.contains_key(spec_color_key(c))
                ==> self.to_cache@[spec_color_key(c)] == spec_to_gba(c)
    }

    pub fn new() -> (cache: GBAColorCache)
        ensures
            cache.wf(),
    {
        GBAColorCache { from_cache: HashMap::new(), to_cache: HashMap::new() }
    }

    /// Decode a packed color. Only the low 15 bits of `value` are meaningful;
    /// higher bits are ignored by the field masks.
    pub fn from_gba(&mut self, value: i32) -> (color: Color)
        requires
            old(self).wf(),
        ensures
            final(self).wf(),
            color == spec_from_gba(value),
    {
        if let Some(color) = self.from_cache.get(&value) {
            return *color;
        }
        assert(0 <= (value & 0x001f) < 32) by (bit_vector);
        assert(0 <= ((value & 0x03e0) >> 5) < 32) by (bit_vector);
        assert(0 <= ((value & 0x7c00) >> 10) < 32) by (bit_vector);

        let r: i32 = (value & 0x001f) * 8;
        let g: i32 = ((value & 0x03e0) >> 5) * 8;
        let b: i32 = ((value & 0x7c00) >> 10) * 8;

        let color = Color { r, g, b };
        self.from_cache.insert(value, color);
        color
    }

    /// Encode a color into the 15-bit packed form.
    pub fn to_gba(&mut self, color: Color) -> (value: i32)
        requires
            old(self).wf(),
            in_rgb24_range(color),
        ensures
            final(self).wf(),
            value == spec_to_gba(color),
    {
        let key: i32 = color.r * 0x10000 + color.g * 0x100 + color.b;
        assert(key == spec_color_key(color));
        if let Some(value) = self.to_cache.get(&key) {
            return *value;
        }

        let dr: i32 = Self::channel_to_5bit(color.r);
        let dg: i32 = Self::channel_to_5bit(color.g);
        let db: i32 = Self::channel_to_5bit(color.b);

        let packed: i32 = db * 0x400 + dg * 0x20 + dr;
        let value: i32 = if packed > 0x7fff {
            0x7fff
        } else {
            packed
        };
        self.to_cache.insert(key, value);
        proof {
            assert forall|c: Color|
                in_rgb24_range(c) && #[trigger] self.to_cache@.contains_key(
                    spec_color_key(c),
                ) implies self.to_cache@[spec_color_key(c)] == spec_to_gba(c) by {
                if spec_color_key(c) == key {
                    lemma_color_key_injective(c, color);
                } else {
                    assert(old(self).to_cache@.contains_key(spec_color_key(c)));
                }
            }
        }
        value
    }

    /// Scale one 8-bit channel down to 5 bits, rounding up and clamping to 31.
    fn channel_to_5bit(c: i32) -> (d: i32)
        requires
            0 <= c <= 255,
        ensures
            d == spec_channel_to_5bit(c),
            0 <= d <= 31,
    {
        let q: u32 = ((c as u32) + 7) / 8;
        if q > 31 {
            31
        } else {
            q as i32
        }
    }
}

/// Decoding and then re-encoding a valid 15-bit packed value is the identity:
/// each decoded channel is an exact multiple of 8, so the rounded-up division
/// by 8 recovers the original 5-bit field.
pub proof fn lemma_gba_round_trip(value: i32)
    requires
        0 <= value <= 0x7fff,
    ensures
        spec_to_gba(spec_from_gba(value)) == value,
{
    let a = value & 0x001f;
    let g = (value & 0x03e0) >> 5;
    let b = (value & 0x7c00) >> 10;
    assert(0 <= (value & 0x001f) < 32 && 0 <= ((value & 0x03e0) >> 5) < 32 && 0 <= ((value
        & 0x7c00) >> 10) < 32) by (bit_vector);
    assert((8 * a + 7) / 8 == a && (8 * g + 7) / 8 == g && (8 * b + 7) / 8 == b);
    assert(b * 0x400 + g * 0x20 + a == value) by (bit_vector)
        requires
            0 <= value <= 0x7fff,
            a == (value & 0x001f),
            g == ((value & 0x03e0) >> 5),
            b == ((value & 0x7c00) >> 10),
    ;
}

/// Encoding and then decoding a color in the 8-bit range reproduces it
/// rounded to the nearest representable value: each channel becomes eight
/// times its rounded-up eighth, clamped to the 5-bit maximum.
pub proof fn lemma_rgb_round_trip(c: Color)
    requires
        in_rgb24_range(c),
    ensures
        spec_from_gba(spec_to_gba(c)) == (Color {
            r: (8 * spec_channel_to_5bit(c.r)) as i32,
            g: (8 * spec_channel_to_5bit(c.g)) as i32,
            b: (8 * spec_channel_to_5bit(c.b)) as i32,
        }),
{
    let dri = spec_channel_to_5bit(c.r) as i32;
    let dgi = spec_channel_to_5bit(c.g) as i32;
    let dbi = spec_channel_to_5bit(c.b) as i32;
    assert(0 <= dri <= 31 && 0 <= dgi <= 31 && 0 <= dbi <= 31);
    let v: i32 = spec_to_gba(c);
    assert(v == dbi * 0x400 + dgi * 0x20 + dri);
    assert(v & 0x001f == dri && (v & 0x03e0) >> 5 == dgi && (v & 0x7c00) >> 10 == dbi)
        by (bit_vector)
        requires
            0 <= dri <= 31,
            0 <= dgi <= 31,
            0 <= dbi <= 31,
            v == dbi * 0x400 + dgi * 0x20 + dri,
    ;
}

} // verus!
