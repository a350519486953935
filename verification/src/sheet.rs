use crate::color::Color;
use crate::data::{frame_count_prefix, nonnegative_counts, Character};
use crate::error::CodecError;
use crate::raster::{lemma_row_major_bounds, RasterImage};
use crate::sprite::{
    animation_wf, frame_wf, section_wf, sheet_wf, Animation, Frame, Section, Spritesheet,
};
use vstd::arithmetic::div_mod::lemma_fundamental_div_mod_converse;
use vstd::prelude::*;

verus! {

/// The checkerboard background cue drawn for transparent pixels of frames
/// whose animation and frame index have matching parity.
pub open spec fn spec_marker_even() -> Color {
    Color { r: 255, g: 0, b: 255 }
}

/// The checkerboard background cue for mismatching parity.
pub open spec fn spec_marker_odd() -> Color {
    Color { r: 185, g: 0, b: 255 }
}

/// The fill for canvas regions that no frame covers.
pub open spec fn spec_marker_blank() -> Color {
    Color { r: 185, g: 0, b: 185 }
}

/// The color seeded at palette index 0 when a raster image is imported.
pub open spec fn spec_default_base() -> Color {
    Color { r: 0, g: 248, b: 248 }
}

/// A reserved marker color: never stored as palette data, always read back
/// as the transparent index.
pub open spec fn is_marker(c: Color) -> bool {
    c == spec_marker_even() || c == spec_marker_odd() || c == spec_marker_blank()
}

pub fn marker_even() -> (c: Color)
    ensures
        c == spec_marker_even(),
{
    Color { r: 255, g: 0, b: 255 }
}

pub fn marker_odd() -> (c: Color)
    ensures
        c == spec_marker_odd(),
{
    Color { r: 185, g: 0, b: 255 }
}

pub fn marker_blank() -> (c: Color)
    ensures
        c == spec_marker_blank(),
{
    Color { r: 185, g: 0, b: 185 }
}

pub fn default_base() -> (c: Color)
    ensures
        c == spec_default_base(),
{
    Color { r: 0, g: 248, b: 248 }
}

/// The largest frame count over all animations of a sheet.
pub open spec fn spec_max_frames(s: Seq<Seq<Seq<Seq<u8>>>>) -> int
    decreases s.len(),
{
    if s.len() == 0 {
        0
    } else {
        let rest = spec_max_frames(s.drop_last());
        if s.last().len() > rest {
            s.last().len() as int
        } else {
            rest
        }
    }
}

/// No animation is longer than the maximum.
pub proof fn lemma_max_frames_bound(s: Seq<Seq<Seq<Seq<u8>>>>, a: int)
    requires
        0 <= a < s.len(),
    ensures
        s[a].len() <= spec_max_frames(s),
        spec_max_frames(s) >= 0,
    decreases s.len(),
{
    if a < s.len() - 1 {
        lemma_max_frames_bound(s.drop_last(), a);
    }
    if s.len() > 1 {
        lemma_max_frames_bound(s.drop_last(), 0);
    }
}

/// The color a spritesheet image shows at a coordinate: inside a frame's
/// 48 by 48 block, transparent pixels show the parity checkerboard cue and
/// other pixels show their palette color; outside every frame, the blank
/// fill.
pub open spec fn spec_sheet_pixel(
    s: Seq<Seq<Seq<Seq<u8>>>>,
    palette: Seq<Color>,
    ix: int,
    iy: int,
) -> Color {
    let a = ix / 48;
    let f = iy / 48;
    if f < s[a].len() {
        let sec = ((iy % 48) / 8) * 6 + (ix % 48) / 8;
        let p = (iy % 8) * 8 + ix % 8;
        let b = s[a][f][sec][p];
        if b == 0 {
            if (a % 2 == 0) == (f % 2 == 0) {
                spec_marker_even()
            } else {
                spec_marker_odd()
            }
        } else {
            palette[b as int]
        }
    } else {
        spec_marker_blank()
    }
}

impl Spritesheet {
    /// Exec form of `spec_max_frames`.
    pub fn max_frames(&self) -> (m: usize)
        ensures
            m == spec_max_frames(self@),
    {
        let mut m: usize = 0;
        let n = self.animations.len();
        for a in 0..n
            invariant
                n == self@.len(),
                m == spec_max_frames(self@.take(a as int)),
        {
            let l = self.animations[a].frames.len();
            proof {
                assert(self@[a as int] == self.animations@[a as int]@);
                assert(self@.take(a + 1).drop_last() =~= self@.take(a as int));
                assert(self@.take(a + 1).last() == self@[a as int]);
            }
            if l > m {
                m = l;
            }
        }
        proof {
            assert(self@.take(n as int) =~= self@);
        }
        m
    }

    /// Render the whole spritesheet into one raster image: one horizontal
    /// 48-pixel band of columns per animation, one vertical 48-pixel band
    /// per frame.
    #[verifier::rlimit(60)]
    pub fn to_img(&self, palette: &[Color]) -> (img: RasterImage)
        requires
            sheet_wf(self@),
            self@.len() >= 1,
            palette@.len() == 16,
            48 * self@.len() <= usize::MAX,
            48 * spec_max_frames(self@) <= usize::MAX,
            48 * self@.len() * (48 * spec_max_frames(self@)) <= usize::MAX,
        ensures
            img.wf(),
            img.spec_width() == 48 * self@.len(),
            img.spec_height() == 48 * spec_max_frames(self@),
            forall|ix: int, iy: int|
                0 <= ix < img.spec_width() && 0 <= iy < img.spec_height()
                    ==> #[trigger] img.pixel(ix, iy) == spec_sheet_pixel(self@, palette@, ix, iy),
    {
        let n = self.animations.len();
        let maxf = self.max_frames();
        let w: usize = 48 * n;
        let h: usize = 48 * maxf;
        let mut pixels: Vec<Color> = Vec::new();
        proof {
            assert(0 * (w as int) == 0) by (nonlinear_arith);
        }
        for iy in 0..h
            invariant
                sheet_wf(self@),
                n == self@.len(),
                n >= 1,
                palette@.len() == 16,
                w == 48 * n,
                h == 48 * maxf,
                maxf == spec_max_frames(self@),
                w * h <= usize::MAX,
                pixels@.len() == iy * w,
                forall|q: int|
                    0 <= q < iy * w ==> #[trigger] pixels@[q] == spec_sheet_pixel(
                        self@,
                        palette@,
                        q % (w as int),
                        q / (w as int),
                    ),
        {
            for ix in 0..w
                invariant
                    sheet_wf(self@),
                    n == self@.len(),
                    n >= 1,
                    palette@.len() == 16,
                    w == 48 * n,
                    h == 48 * maxf,
                    iy < h,
                    maxf == spec_max_frames(self@),
                    w * h <= usize::MAX,
                    pixels@.len() == iy * w + ix,
                    forall|q: int|
                        0 <= q < iy * w + ix ==> #[trigger] pixels@[q] == spec_sheet_pixel(
                            self@,
                            palette@,
                            q % (w as int),
                            q / (w as int),
                        ),
            {
                proof {
                    lemma_row_major_bounds(ix as int, iy as int, w as int, h as int);
                    assert(48 * (ix / 48) <= ix < 48 * n);
                    assert(ix / 48 < n);
                }
                let a = ix / 48;
                let f = iy / 48;
                proof {
                    assert(self@[a as int] == self.animations@[a as int]@);
                }
                let c = if f < self.animations[a].frames.len() {
                    let sy = (iy % 48) / 8;
                    let sx = (ix % 48) / 8;
                    let sec = sy * 6 + sx;
                    let py = iy % 8;
                    let px = ix % 8;
                    let p = py * 8 + px;
                    proof {
                        assert(sy <= 5 && sx <= 5 && py <= 7 && px <= 7);
                        assert(self@[a as int][f as int] == self.animations@[a as int].frames@[f as int]@);
                        assert(frame_wf(self@[a as int][f as int]));
                        assert(self@[a as int][f as int][sec as int]
                            == self.animations@[a as int].frames@[f as int].sections@[sec as int]@);
                    }
                    let b = self.animations[a].frames[f].sections[sec].bytes[p];
                    if b == 0 {
                        if (a % 2 == 0) == (f % 2 == 0) {
                            marker_even()
                        } else {
                            marker_odd()
                        }
                    } else {
                        palette[b as usize]
                    }
                } else {
                    marker_blank()
                };
                pixels.push(c);
                proof {
                    lemma_fundamental_div_mod_converse(
                        iy * (w as int) + ix,
                        w as int,
                        iy as int,
                        ix as int,
                    );
                    assert(c == spec_sheet_pixel(self@, palette@, ix as int, iy as int));
                }
            }
            proof {
                assert((iy + 1) * (w as int) == iy * (w as int) + w) by (nonlinear_arith);
            }
        }
        proof {
            assert((h * w) as int == (w * h) as int) by (nonlinear_arith);
        }
        let img = RasterImage::from_pixels(w, h, pixels);
        proof {
            assert forall|ix: int, iy: int|
                0 <= ix < img.spec_width() && 0 <= iy < img.spec_height()
                    implies #[trigger] img.pixel(ix, iy) == spec_sheet_pixel(
                self@,
                palette@,
                ix,
                iy,
            ) by {
                lemma_row_major_bounds(ix, iy, w as int, h as int);
                lemma_fundamental_div_mod_converse(iy * (w as int) + ix, w as int, iy, ix);
            }
        }
        img
    }
}

/// The color a single-frame image shows at a coordinate: every pixel shows
/// its palette color, the transparent index included.
pub open spec fn spec_frame_pixel(fv: Seq<Seq<u8>>, palette: Seq<Color>, ix: int, iy: int) -> Color {
    palette[fv[(iy / 8) * 6 + ix / 8][(iy % 8) * 8 + ix % 8] as int]
}

impl Frame {
    /// Render this frame alone as a 48 by 48 raster image, mapping every
    /// palette index (the transparent index included) through the palette.
    pub fn to_image(&self, palette: &[Color]) -> (img: RasterImage)
        requires
            frame_wf(self@),
            palette@.len() == 16,
        ensures
            img.wf(),
            img.spec_width() == 48,
            img.spec_height() == 48,
            forall|ix: int, iy: int|
                0 <= ix < 48 && 0 <= iy < 48 ==> #[trigger] img.pixel(ix, iy) == spec_frame_pixel(
                    self@,
                    palette@,
                    ix,
                    iy,
                ),
    {
        let mut pixels: Vec<Color> = Vec::new();
        for iy in 0..48usize
            invariant
                frame_wf(self@),
                palette@.len() == 16,
                pixels@.len() == iy * 48,
                forall|q: int|
                    0 <= q < iy * 48 ==> #[trigger] pixels@[q] == spec_frame_pixel(
                        self@,
                        palette@,
                        q % 48,
                        q / 48,
                    ),
        {
            for ix in 0..48usize
                invariant
                    frame_wf(self@),
                    palette@.len() == 16,
                    iy < 48,
                    pixels@.len() == iy * 48 + ix,
                    forall|q: int|
                        0 <= q < iy * 48 + ix ==> #[trigger] pixels@[q] == spec_frame_pixel(
                            self@,
                            palette@,
                            q % 48,
                            q / 48,
                        ),
            {
                let sec = (iy / 8) * 6 + ix / 8;
                let p = (iy % 8) * 8 + ix % 8;
                proof {
                    assert(self@[sec as int] == self.sections@[sec as int]@);
                }
                let b = self.sections[sec].bytes[p];
                pixels.push(palette[b as usize]);
                proof {
                    lemma_fundamental_div_mod_converse(iy * 48 + ix, 48, iy as int, ix as int);
                }
            }
        }
        let img = RasterImage::from_pixels(48, 48, pixels);
        proof {
            assert forall|ix: int, iy: int|
                0 <= ix < 48 && 0 <= iy < 48 implies #[trigger] img.pixel(ix, iy)
                == spec_frame_pixel(self@, palette@, ix, iy) by {
                lemma_row_major_bounds(ix, iy, 48, 48);
                lemma_fundamental_div_mod_converse(iy * 48 + ix, 48, iy, ix);
            }
        }
        img
    }
}

/// Image column of pixel `u` (section-major order, row-major within a
/// section) of the frame at animation `a`.
pub open spec fn spec_cell_ix(a: int, u: int) -> int {
    ((u / 64) % 6) * 8 + (u % 64) % 8 + 48 * a
}

/// Image row of pixel `u` of frame `f` of its animation.
pub open spec fn spec_cell_iy(f: int, u: int) -> int {
    ((u / 64) / 6) * 8 + (u % 64) / 8 + 48 * f
}

/// The 2304 colors of one frame block, in import scan order.
pub open spec fn spec_frame_scan(img: RasterImage, a: int, f: int) -> Seq<Color> {
    Seq::new(2304, |u: int| img.pixel(spec_cell_ix(a, u), spec_cell_iy(f, u)))
}

/// The colors of the first `n` frame blocks of animation `a`, in order.
pub open spec fn spec_anim_scan(img: RasterImage, a: int, n: int) -> Seq<Color>
    decreases n,
{
    if n <= 0 {
        Seq::empty()
    } else {
        spec_anim_scan(img, a, n - 1) + spec_frame_scan(img, a, n - 1)
    }
}

/// The colors of the first `k` animations' frame blocks, in import scan
/// order.
pub open spec fn spec_sheet_scan(img: RasterImage, counts: Seq<i32>, k: int) -> Seq<Color>
    decreases k,
{
    if k <= 0 {
        Seq::empty()
    } else {
        spec_sheet_scan(img, counts, k - 1) + spec_anim_scan(img, k - 1, counts[k - 1] as int)
    }
}

/// The scan position of pixel `u` of frame `f` of animation `a`.
pub open spec fn spec_scan_index(counts: Seq<i32>, a: int, f: int, u: int) -> int {
    2304 * (crate::data::frame_count_prefix(counts, a) + f) + u
}

/// The palette the import builds from a color sequence: the seeded base
/// color, then each distinct non-marker color in order of first
/// appearance.
pub open spec fn spec_fold_palette(cs: Seq<Color>) -> Seq<Color>
    decreases cs.len(),
{
    if cs.len() == 0 {
        seq![spec_default_base()]
    } else {
        let p = spec_fold_palette(cs.drop_last());
        if is_marker(cs.last()) || p.contains(cs.last()) {
            p
        } else {
            p.push(cs.last())
        }
    }
}

/// The first position of `c` in `p` (its length if absent).
pub open spec fn spec_color_index(p: Seq<Color>, c: Color) -> int
    decreases p.len(),
{
    if p.len() == 0 {
        0
    } else if p[0] == c {
        0
    } else {
        1 + spec_color_index(p.subrange(1, p.len() as int), c)
    }
}

/// The palette index the import assigns to a pixel of color `c`: marker
/// colors become the transparent index, everything else its first palette
/// position.
pub open spec fn spec_pixel_index(p: Seq<Color>, c: Color) -> int {
    if is_marker(c) {
        0
    } else {
        spec_color_index(p, c)
    }
}

/// The color at scan position `t` is new and the palette is already full.
pub open spec fn spec_overflow_at(cs: Seq<Color>, t: int) -> bool {
    &&& 0 <= t < cs.len()
    &&& !is_marker(cs[t])
    &&& !spec_fold_palette(cs.take(t)).contains(cs[t])
    &&& spec_fold_palette(cs.take(t)).len() >= 16
}

pub open spec fn spec_has_overflow(cs: Seq<Color>) -> bool {
    exists|t: int| spec_overflow_at(cs, t)
}

/// A palette padded with black to its full 16 entries.
pub open spec fn spec_pad_black(p: Seq<Color>) -> Seq<Color>
    recommends
        p.len() <= 16,
{
    p + Seq::new((16 - p.len()) as nat, |i: int| Color { r: 0, g: 0, b: 0 })
}

pub proof fn lemma_anim_scan_len(img: RasterImage, a: int, n: int)
    requires
        n >= 0,
    ensures
        spec_anim_scan(img, a, n).len() == 2304 * n,
    decreases n,
{
    if n > 0 {
        lemma_anim_scan_len(img, a, n - 1);
    }
}

pub proof fn lemma_sheet_scan_len(img: RasterImage, counts: Seq<i32>, k: int)
    requires
        0 <= k <= counts.len(),
        crate::data::nonnegative_counts(counts),
    ensures
        spec_sheet_scan(img, counts, k).len() == 2304 * crate::data::frame_count_prefix(counts, k),
    decreases k,
{
    if k > 0 {
        lemma_sheet_scan_len(img, counts, k - 1);
        lemma_anim_scan_len(img, k - 1, counts[k - 1] as int);
    }
}

/// Scan position `spec_scan_index(counts, a, f, u)` holds the image pixel
/// of cell `u` of frame `f` of animation `a`.
pub proof fn lemma_anim_scan_lookup(img: RasterImage, a: int, n: int, f: int, u: int)
    requires
        0 <= f < n,
        0 <= u < 2304,
    ensures
        spec_anim_scan(img, a, n)[2304 * f + u] == img.pixel(spec_cell_ix(a, u), spec_cell_iy(f, u)),
    decreases n,
{
    lemma_anim_scan_len(img, a, n - 1);
    if f < n - 1 {
        lemma_anim_scan_lookup(img, a, n - 1, f, u);
    }
}

pub proof fn lemma_sheet_scan_lookup(img: RasterImage, counts: Seq<i32>, k: int, a: int, f: int, u: int)
    requires
        crate::data::nonnegative_counts(counts),
        0 <= a < k <= counts.len(),
        0 <= f < counts[a],
        0 <= u < 2304,
    ensures
        ({
            let t = spec_scan_index(counts, a, f, u);
            &&& 0 <= t < spec_sheet_scan(img, counts, k).len()
            &&& spec_sheet_scan(img, counts, k)[t] == img.pixel(
                spec_cell_ix(a, u),
                spec_cell_iy(f, u),
            )
        }),
    decreases k,
{
    lemma_sheet_scan_len(img, counts, k);
    lemma_sheet_scan_len(img, counts, k - 1);
    lemma_anim_scan_len(img, k - 1, counts[k - 1] as int);
    crate::data::lemma_frame_count_prefix_monotonic(counts, a + 1, k);
    if a < k - 1 {
        lemma_sheet_scan_lookup(img, counts, k - 1, a, f, u);
        crate::data::lemma_frame_count_prefix_monotonic(counts, a + 1, k - 1);
    } else {
        lemma_anim_scan_lookup(img, a, counts[a] as int, f, u);
    }
}

/// First-position facts about `spec_color_index`.
pub proof fn lemma_color_index_of_contained(p: Seq<Color>, c: Color)
    requires
        p.contains(c),
    ensures
        0 <= spec_color_index(p, c) < p.len(),
        p[spec_color_index(p, c)] == c,
        forall|j: int| 0 <= j < spec_color_index(p, c) ==> p[j] != c,
    decreases p.len(),
{
    if p[0] == c {
    } else {
        let rest = p.subrange(1, p.len() as int);
        let w = choose|w: int| 0 <= w < p.len() && p[w] == c;
        assert(rest[w - 1] == c);
        assert(rest.contains(c));
        lemma_color_index_of_contained(rest, c);
        assert forall|j: int| 0 <= j < spec_color_index(p, c) implies p[j] != c by {
            if j > 0 {
                assert(rest[j - 1] == p[j]);
                assert(rest[j - 1] != c);
            }
        }
    }
}

/// A color's first position is its position when nothing before it holds
/// the same color.
pub proof fn lemma_color_index_first(p: Seq<Color>, c: Color, i: int)
    requires
        0 <= i < p.len(),
        p[i] == c,
        forall|j: int| 0 <= j < i ==> p[j] != c,
    ensures
        spec_color_index(p, c) == i,
    decreases i,
{
    if i > 0 {
        let rest = p.subrange(1, p.len() as int);
        assert(rest[i - 1] == c);
        assert(forall|j: int| 0 <= j < i - 1 ==> rest[j] == p[j + 1] && p[j + 1] != c);
        lemma_color_index_first(rest, c, i - 1);
    }
}

/// Appending a new color does not move the first position of a contained
/// color.
pub proof fn lemma_color_index_push(p: Seq<Color>, c: Color, c2: Color)
    requires
        p.contains(c),
    ensures
        spec_color_index(p.push(c2), c) == spec_color_index(p, c),
    decreases p.len(),
{
    lemma_color_index_of_contained(p, c);
    let i = spec_color_index(p, c);
    assert(p.push(c2)[i] == c);
    assert(forall|j: int| 0 <= j < i ==> p.push(c2)[j] == p[j] && p[j] != c);
    lemma_color_index_first(p.push(c2), c, i);
}

/// A color appended to a palette that lacks it lands at the old length.
pub proof fn lemma_color_index_append_new(p: Seq<Color>, c: Color)
    requires
        !p.contains(c),
    ensures
        spec_color_index(p.push(c), c) == p.len(),
{
    assert(p.push(c)[p.len() as int] == c);
    assert(forall|j: int| 0 <= j < p.len() ==> p.push(c)[j] == p[j] && p[j] != c);
    lemma_color_index_first(p.push(c), c, p.len() as int);
}

/// The coordinate pair recorded for scan position `t` is the image
/// position of some cell `u` of some frame `(a, f)` whose scan index is
/// `t`.
spec fn coord_at_ok(counts: Seq<i32>, xy: (usize, usize), t: int) -> bool {
    exists|a: int, f: int, u: int|
        {
            &&& 0 <= a < counts.len()
            &&& 0 <= f < counts[a]
            &&& 0 <= u < 2304
            &&& t == #[trigger] spec_scan_index(counts, a, f, u)
            &&& xy.0 == spec_cell_ix(a, u)
            &&& xy.1 == spec_cell_iy(f, u)
        }
}

/// Every index assigned to the first `t` scan positions is consistent
/// with `palette`: markers map to the transparent index, every other color
/// to its first palette position.
spec fn idxs_ok(scan: Seq<Color>, palette: Seq<Color>, idxs: Seq<u8>, t: int) -> bool {
    forall|t2: int|
        0 <= t2 < t ==> {
            &&& #[trigger] idxs[t2] < 16
            &&& (is_marker(scan[t2]) ==> idxs[t2] == 0)
            &&& (!is_marker(scan[t2]) ==> palette.contains(scan[t2]) && idxs[t2]
                == spec_color_index(palette, scan[t2]))
        }
}

/// One import step that leaves the palette unchanged (a marker pixel or
/// an already-known color) keeps every assigned index consistent with the
/// palette.
proof fn lemma_fold_step_kept(
    scan: Seq<Color>,
    palette: Seq<Color>,
    pre_idxs: Seq<u8>,
    new_idxs: Seq<u8>,
    t: int,
)
    requires
        0 <= t < scan.len(),
        pre_idxs.len() == t,
        new_idxs.len() == t + 1,
        forall|j: int| 0 <= j < t ==> new_idxs[j] == pre_idxs[j],
        is_marker(scan[t]) ==> new_idxs[t] == 0,
        !is_marker(scan[t]) ==> palette.contains(scan[t]) && new_idxs[t] == spec_color_index(
            palette,
            scan[t],
        ) && new_idxs[t] < 16,
        idxs_ok(scan, palette, pre_idxs, t),
    ensures
        idxs_ok(scan, palette, new_idxs, t + 1),
{
    assert forall|t2: int| 0 <= t2 < t + 1 implies {
        &&& #[trigger] new_idxs[t2] < 16
        &&& (is_marker(scan[t2]) ==> new_idxs[t2] == 0)
        &&& (!is_marker(scan[t2]) ==> palette.contains(scan[t2]) && new_idxs[t2]
            == spec_color_index(palette, scan[t2]))
    } by {
        if t2 < t {
            assert(new_idxs[t2] == pre_idxs[t2]);
            assert(pre_idxs[t2] < 16);
        }
    }
}

/// The first position of `c` in `palette`, searched front to back.
fn find_color(palette: &Vec<Color>, c: Color) -> (r: Option<usize>)
    ensures
        match r {
            Some(i) => palette@.contains(c) && i == spec_color_index(palette@, c) && i
                < palette@.len(),
            None => !palette@.contains(c),
        },
{
    let n = palette.len();
    let mut i: usize = 0;
    while i < n
        invariant
            i <= n,
            n == palette@.len(),
            forall|j: int| 0 <= j < i ==> palette@[j] != c,
        decreases n - i,
    {
        if palette[i] == c {
            proof {
                lemma_color_index_first(palette@, c, i as int);
            }
            return Some(i);
        }
        i = i + 1;
    }
    proof {
        assert forall|j: int| 0 <= j < palette@.len() implies palette@[j] != c by {}
    }
    None
}

/// One frame's 2304 palette indexes, taken in scan order from `base`.
fn build_frame(idxs: &Vec<u8>, base: usize) -> (frame: Frame)
    requires
        base + 2304 <= idxs@.len(),
        forall|t: int| 0 <= t < idxs@.len() ==> idxs@[t] < 16,
    ensures
        frame_wf(frame@),
        forall|sec: int, p: int|
            0 <= sec < 36 && 0 <= p < 64 ==> #[trigger] frame@[sec][p] == idxs@[base + sec * 64
                + p],
{
    proof {
        assert(idxs.len() == idxs@.len());
    }
    let mut sections: Vec<Section> = Vec::new();
    for sec in 0..36usize
        invariant
            base + 2304 <= idxs@.len(),
            idxs@.len() <= usize::MAX,
            forall|t: int| 0 <= t < idxs@.len() ==> idxs@[t] < 16,
            sections@.len() == sec,
            forall|s2: int|
                0 <= s2 < sec ==> (#[trigger] sections@[s2]@).len() == 64 && forall|p: int|
                    0 <= p < 64 ==> sections@[s2]@[p] == idxs@[base + s2 * 64 + p],
    {
        let mut bytes: Vec<u8> = Vec::new();
        for p in 0..64usize
            invariant
                base + 2304 <= idxs@.len(),
                idxs@.len() <= usize::MAX,
                sec < 36,
                bytes@.len() == p,
                forall|p2: int| 0 <= p2 < p ==> bytes@[p2] == idxs@[base + sec * 64 + p2],
        {
            bytes.push(idxs[base + sec * 64 + p]);
        }
        sections.push(Section { bytes });
    }
    let frame = Frame { sections };
    proof {
        assert forall|sec: int, p: int|
            0 <= sec < 36 && 0 <= p < 64 implies #[trigger] frame@[sec][p] == idxs@[base + sec
            * 64 + p] by {
            assert(frame@[sec] == sections@[sec]@);
        }
        assert forall|sec: int| 0 <= sec < 36 implies section_wf(#[trigger] frame@[sec]) by {
            assert(frame@[sec] == sections@[sec]@);
            assert forall|p: int| 0 <= p < 64 implies frame@[sec][p] < 16 by {
                assert(frame@[sec][p] == idxs@[base + sec * 64 + p]);
            }
        }
    }
    frame
}

impl Spritesheet {
    /// Import a raster image back into a spritesheet and its palette,
    /// walking the same frame-block geometry that `to_img` writes.
    ///
    /// Marker-colored pixels become the transparent index. Every other
    /// color is assigned its position in a palette grown in first-seen
    /// order from the seeded base color; importing a seventeenth distinct
    /// color fails with `PaletteOverflow` at that pixel's coordinates.
    /// Unused palette entries are padded with black.
    #[verifier::rlimit(60)]
    pub fn from_img(image: &RasterImage, character: &Character) -> (r: Result<
        (Spritesheet, Vec<Color>),
        CodecError,
    >)
        requires
            image.wf(),
            nonnegative_counts(character.sprite_frames@),
            2304 * frame_count_prefix(
                character.sprite_frames@,
                character.sprite_frames@.len() as int,
            ) <= usize::MAX,
            image.spec_width() >= 48 * character.sprite_frames@.len(),
            forall|a: int|
                0 <= a < character.sprite_frames@.len() ==> image.spec_height() >= 48
                    * character.sprite_frames@[a],
        ensures
            ({
                let counts = character.sprite_frames@;
                let scan = spec_sheet_scan(*image, counts, counts.len() as int);
                match r {
                    Ok(out) => {
                        &&& !spec_has_overflow(scan)
                        &&& out.0@.len() == counts.len()
                        &&& sheet_wf(out.0@)
                        &&& forall|a: int|
                            0 <= a < counts.len() ==> (#[trigger] out.0@[a]).len() == counts[a]
                        &&& out.1@.len() == 16
                        &&& out.1@ == spec_pad_black(spec_fold_palette(scan))
                        &&& forall|a: int, f: int, sec: int, p: int|
                            0 <= a < counts.len() && 0 <= f < counts[a] && 0 <= sec < 36 && 0 <= p
                                < 64 ==> #[trigger] out.0@[a][f][sec][p] == spec_pixel_index(
                                spec_fold_palette(scan),
                                image.pixel(
                                    spec_cell_ix(a, sec * 64 + p),
                                    spec_cell_iy(f, sec * 64 + p),
                                ),
                            )
                    },
                    Err(e) => {
                        &&& spec_has_overflow(scan)
                        &&& exists|a: int, f: int, u: int|
                            {
                                &&& 0 <= a < counts.len()
                                &&& 0 <= f < counts[a]
                                &&& 0 <= u < 2304
                                &&& spec_overflow_at(
                                    scan,
                                    #[trigger] spec_scan_index(counts, a, f, u),
                                )
                                &&& forall|t2: int|
                                    0 <= t2 < spec_scan_index(counts, a, f, u)
                                        ==> !spec_overflow_at(scan, t2)
                                &&& (e matches CodecError::PaletteOverflow { x, y } && x
                                    == spec_cell_ix(a, u) && y == spec_cell_iy(f, u))
                            }
                    },
                }
            }),
    {
        let ghost counts = character.sprite_frames@;
        let n = character.sprite_frames.len();

        // Walk the frame blocks and record every pixel color with its
        // image coordinates, in scan order.
        let mut colors: Vec<Color> = Vec::new();
        let mut coords: Vec<(usize, usize)> = Vec::new();
        for a in 0..n
            invariant
                image.wf(),
                counts == character.sprite_frames@,
                n == counts.len(),
                nonnegative_counts(counts),
                2304 * frame_count_prefix(counts, n as int) <= usize::MAX,
                image.spec_width() >= 48 * counts.len(),
                forall|a2: int|
                    0 <= a2 < counts.len() ==> image.spec_height() >= 48 * counts[a2],
                colors@ == spec_sheet_scan(*image, counts, a as int),
                coords@.len() == colors@.len(),
                forall|t: int| 0 <= t < coords@.len() ==> coord_at_ok(counts, #[trigger] coords@[t], t),
        {
            let count = character.sprite_frames[a];
            let count_usize: usize = count as usize;
            let mut f: usize = 0;
            while f < count_usize
                invariant
                    image.wf(),
                    counts == character.sprite_frames@,
                    n == counts.len(),
                    a < n,
                    nonnegative_counts(counts),
                    2304 * frame_count_prefix(counts, n as int) <= usize::MAX,
                    image.spec_width() >= 48 * counts.len(),
                    forall|a2: int|
                        0 <= a2 < counts.len() ==> image.spec_height() >= 48 * counts[a2],
                    count_usize == counts[a as int],
                    f <= count_usize,
                    colors@ == spec_sheet_scan(*image, counts, a as int) + spec_anim_scan(
                        *image,
                        a as int,
                        f as int,
                    ),
                    coords@.len() == colors@.len(),
                    forall|t: int|
                        0 <= t < coords@.len() ==> coord_at_ok(counts, #[trigger] coords@[t], t),
                decreases count_usize - f,
            {
                for u in 0..2304usize
                    invariant
                        image.wf(),
                        counts == character.sprite_frames@,
                        n == counts.len(),
                        a < n,
                        nonnegative_counts(counts),
                        2304 * frame_count_prefix(counts, n as int) <= usize::MAX,
                        image.spec_width() >= 48 * counts.len(),
                        forall|a2: int|
                            0 <= a2 < counts.len() ==> image.spec_height() >= 48 * counts[a2],
                        count_usize == counts[a as int],
                        f < count_usize,
                        colors@ == spec_sheet_scan(*image, counts, a as int) + spec_anim_scan(
                            *image,
                            a as int,
                            f as int,
                        ) + spec_frame_scan(*image, a as int, f as int).take(u as int),
                        coords@.len() == colors@.len(),
                        forall|t: int|
                            0 <= t < coords@.len() ==> coord_at_ok(
                                counts,
                                #[trigger] coords@[t],
                                t,
                            ),
                {
                    let sx = (u / 64) % 6;
                    let sy = (u / 64) / 6;
                    let px = (u % 64) % 8;
                    let py = (u % 64) / 8;
                    proof {
                        image.lemma_dims_bounded();
                        assert(sx <= 5 && sy <= 5 && px <= 7 && py <= 7);
                        assert(48 * a + 48 <= 48 * counts.len());
                        assert(48 * f + 48 <= 48 * counts[a as int]);
                    }
                    let ix = sx * 8 + px + 48 * a;
                    let iy = sy * 8 + py + 48 * f;
                    let c = image.get_pixel(ix, iy);
                    let ghost t_new = colors@.len() as int;
                    colors.push(c);
                    coords.push((ix, iy));
                    proof {
                        lemma_sheet_scan_len(*image, counts, a as int);
                        lemma_anim_scan_len(*image, a as int, f as int);
                        assert(ix == spec_cell_ix(a as int, u as int));
                        assert(iy == spec_cell_iy(f as int, u as int));
                        assert(spec_frame_scan(*image, a as int, f as int)[u as int] == c);
                        assert(spec_frame_scan(*image, a as int, f as int).take(u + 1)
                            =~= spec_frame_scan(*image, a as int, f as int).take(u as int).push(c));
                        assert(colors@ == spec_sheet_scan(*image, counts, a as int)
                            + spec_anim_scan(*image, a as int, f as int) + spec_frame_scan(
                            *image,
                            a as int,
                            f as int,
                        ).take(u + 1));
                        assert(t_new == spec_scan_index(counts, a as int, f as int, u as int));
                        assert(coord_at_ok(counts, (ix, iy), t_new));
                    }
                }
                proof {
                    assert(spec_frame_scan(*image, a as int, f as int).take(2304)
                        =~= spec_frame_scan(*image, a as int, f as int));
                    assert(spec_anim_scan(*image, a as int, f + 1) == spec_anim_scan(
                        *image,
                        a as int,
                        f as int,
                    ) + spec_frame_scan(*image, a as int, f as int));
                }
                f = f + 1;
            }
            proof {
                assert(spec_sheet_scan(*image, counts, a + 1) == spec_sheet_scan(
                    *image,
                    counts,
                    a as int,
                ) + spec_anim_scan(*image, a as int, counts[a as int] as int));
            }
        }
        let ghost scan = colors@;
        proof {
            assert(scan == spec_sheet_scan(*image, counts, counts.len() as int));
            lemma_sheet_scan_len(*image, counts, n as int);
        }

        // Fold the colors into a growing palette, assigning each pixel its
        // first-seen palette position.
        let total = colors.len();
        let mut palette: Vec<Color> = Vec::new();
        palette.push(default_base());
        proof {
            assert(scan.take(0) =~= Seq::<Color>::empty());
            assert(palette@ =~= spec_fold_palette(scan.take(0)));
        }
        let mut idxs: Vec<u8> = Vec::new();
        for t in 0..total
            invariant
                total == scan.len(),
                colors@ == scan,
                counts == character.sprite_frames@,
                scan == spec_sheet_scan(*image, counts, counts.len() as int),
                coords@.len() == total,
                forall|t2: int|
                    0 <= t2 < coords@.len() ==> coord_at_ok(counts, #[trigger] coords@[t2], t2),
                palette@ == spec_fold_palette(scan.take(t as int)),
                1 <= palette@.len() <= 16,
                forall|t2: int| 0 <= t2 < t ==> !spec_overflow_at(scan, t2),
                idxs@.len() == t,
                idxs_ok(scan, palette@, idxs@, t as int),
        {
            let c = colors[t];
            let ghost pre_palette = palette@;
            let ghost pre_idxs = idxs@;
            proof {
                assert(scan.take(t + 1).drop_last() =~= scan.take(t as int));
                assert(scan.take(t + 1).last() == scan[t as int]);
            }
            if c == marker_even() || c == marker_odd() || c == marker_blank() {
                idxs.push(0);
                proof {
                    lemma_fold_step_kept(scan, pre_palette, pre_idxs, idxs@, t as int);
                }
            } else {
                match find_color(&palette, c) {
                    Some(i) => {
                        idxs.push(i as u8);
                        proof {
                            lemma_fold_step_kept(scan, pre_palette, pre_idxs, idxs@, t as int);
                        }
                    },
                    None => {
                        if palette.len() < 16 {
                            let i = palette.len();
                            proof {
                                lemma_color_index_append_new(palette@, c);
                            }
                            palette.push(c);
                            idxs.push(i as u8);
                            proof {
                                assert forall|t2: int| 0 <= t2 < t + 1 implies {
                                    &&& #[trigger] idxs@[t2] < 16
                                    &&& (is_marker(scan[t2]) ==> idxs@[t2] == 0)
                                    &&& (!is_marker(scan[t2]) ==> palette@.contains(scan[t2])
                                        && idxs@[t2] == spec_color_index(palette@, scan[t2]))
                                } by {
                                    if t2 < t {
                                        assert(idxs@[t2] == pre_idxs[t2]);
                                        assert(pre_idxs[t2] < 16);
                                        if !is_marker(scan[t2]) {
                                            assert(pre_palette.contains(scan[t2]));
                                            let k = choose|k: int|
                                                0 <= k < pre_palette.len() && pre_palette[k]
                                                    == scan[t2];
                                            assert(palette@[k] == scan[t2]);
                                            assert(palette@.contains(scan[t2]));
                                            lemma_color_index_push(pre_palette, scan[t2], c);
                                        }
                                    } else {
                                        assert(idxs@[t2] == i as u8);
                                        assert(palette@ == pre_palette.push(c));
                                        assert(palette@[i as int] == c);
                                        assert(palette@.contains(scan[t2]));
                                    }
                                }
                                assert(idxs_ok(scan, palette@, idxs@, t + 1));
                            }
                        } else {
                            proof {
                                assert(spec_overflow_at(scan, t as int));
                                assert(coord_at_ok(counts, coords@[t as int], t as int));
                            }
                            let xy = coords[t];
                            proof {
                                let (a2, f2, u2) = choose|a2: int, f2: int, u2: int|
                                    {
                                        &&& 0 <= a2 < counts.len()
                                        &&& 0 <= f2 < counts[a2]
                                        &&& 0 <= u2 < 2304
                                        &&& t as int == #[trigger] spec_scan_index(
                                            counts,
                                            a2,
                                            f2,
                                            u2,
                                        )
                                        &&& xy.0 == spec_cell_ix(a2, u2)
                                        &&& xy.1 == spec_cell_iy(f2, u2)
                                    };
                                assert(spec_overflow_at(scan, spec_scan_index(counts, a2, f2, u2)));
                            }
                            return Err(CodecError::PaletteOverflow { x: xy.0, y: xy.1 });
                        }
                    },
                }
            }
        }
        proof {
            assert(scan.take(total as int) =~= scan);
            assert forall|t2: int| 0 <= t2 < scan.len() implies !spec_overflow_at(scan, t2) by {}
            assert(!spec_has_overflow(scan));
        }

        // Pad the palette out to its fixed 16 entries.
        let ghost base_pal = spec_fold_palette(scan);
        proof {
            assert(palette@ == base_pal);
            assert(idxs_ok(scan, base_pal, idxs@, total as int));
            assert forall|t2: int| 0 <= t2 < idxs@.len() implies #[trigger] idxs@[t2] < 16 by {}
        }
        while palette.len() < 16
            invariant
                base_pal.len() <= palette@.len() <= 16,
                forall|i: int| 0 <= i < base_pal.len() ==> #[trigger] palette@[i] == base_pal[i],
                forall|i: int|
                    base_pal.len() <= i < palette@.len() ==> #[trigger] palette@[i] == (Color {
                        r: 0,
                        g: 0,
                        b: 0,
                    }),
            decreases 16 - palette@.len(),
        {
            palette.push(Color { r: 0, g: 0, b: 0 });
        }
        proof {
            assert(palette@ =~= spec_pad_black(base_pal));
        }

        // Reshape the assigned indexes into the animation and frame
        // structure the character's frame counts describe.
        let mut sheet = Spritesheet::new();
        let mut g: usize = 0;
        for a in 0..n
            invariant
                counts == character.sprite_frames@,
                n == counts.len(),
                nonnegative_counts(counts),
                total == 2304 * frame_count_prefix(counts, n as int),
                idxs@.len() == total,
                forall|t2: int| 0 <= t2 < idxs@.len() ==> #[trigger] idxs@[t2] < 16,
                g == frame_count_prefix(counts, a as int),
                sheet@.len() == a,
                sheet_wf(sheet@),
                forall|a2: int| 0 <= a2 < a ==> (#[trigger] sheet@[a2]).len() == counts[a2],
                forall|a2: int, f2: int, sec: int, p: int|
                    0 <= a2 < a && 0 <= f2 < counts[a2] && 0 <= sec < 36 && 0 <= p < 64
                        ==> #[trigger] sheet@[a2][f2][sec][p] == idxs@[spec_scan_index(
                        counts,
                        a2,
                        f2,
                        sec * 64 + p,
                    )],
        {
            proof {
                crate::data::lemma_frame_count_prefix_monotonic(counts, a + 1, n as int);
            }
            let count = character.sprite_frames[a];
            let count_usize: usize = count as usize;
            let ghost base_g = g as int;
            let mut animation = Animation::new();
            let mut f: usize = 0;
            while f < count_usize
                invariant
                    counts == character.sprite_frames@,
                    n == counts.len(),
                    a < n,
                    nonnegative_counts(counts),
                    total == 2304 * frame_count_prefix(counts, n as int),
                    idxs@.len() == total,
                    forall|t2: int| 0 <= t2 < idxs@.len() ==> #[trigger] idxs@[t2] < 16,
                    count_usize == counts[a as int],
                    f <= count_usize,
                    base_g == frame_count_prefix(counts, a as int),
                    base_g + count_usize <= frame_count_prefix(counts, n as int),
                    g == base_g + f,
                    animation@.len() == f,
                    animation_wf(animation@),
                    forall|f2: int, sec: int, p: int|
                        0 <= f2 < f && 0 <= sec < 36 && 0 <= p < 64 ==> #[trigger] animation@[f2][sec][p]
                            == idxs@[spec_scan_index(counts, a as int, f2, sec * 64 + p)],
                decreases count_usize - f,
            {
                proof {
                    assert((g + 1) * 2304 <= total) by (nonlinear_arith)
                        requires
                            g + 1 <= frame_count_prefix(counts, n as int),
                            total == 2304 * frame_count_prefix(counts, n as int),
                    ;
                    assert(g * 2304 + 2304 == (g + 1) * 2304) by (nonlinear_arith);
                }
                let base = g * 2304;
                let frame = build_frame(&idxs, base);
                let ghost pre_anim = animation@;
                animation.frames.push(frame);
                proof {
                    assert(animation@ =~= pre_anim.push(frame@));
                    assert forall|f2: int, sec: int, p: int|
                        0 <= f2 < f + 1 && 0 <= sec < 36 && 0 <= p < 64 implies #[trigger] animation@[f2][sec][p]
                        == idxs@[spec_scan_index(counts, a as int, f2, sec * 64 + p)] by {
                        if f2 == f {
                            assert(animation@[f2] == frame@);
                            assert(frame@[sec][p] == idxs@[base + sec * 64 + p]);
                        }
                    }
                }
                g = g + 1;
                f = f + 1;
            }
            let ghost pre_sheet = sheet@;
            sheet.animations.push(animation);
            proof {
                assert(sheet@ =~= pre_sheet.push(animation@));
            }
        }

        // Tie each reshaped index back to the image pixel it came from.
        proof {
            assert forall|a: int, f: int, sec: int, p: int|
                0 <= a < counts.len() && 0 <= f < counts[a] && 0 <= sec < 36 && 0 <= p < 64
                    implies #[trigger] sheet@[a][f][sec][p] == spec_pixel_index(
                spec_fold_palette(scan),
                image.pixel(spec_cell_ix(a, sec * 64 + p), spec_cell_iy(f, sec * 64 + p)),
            ) by {
                lemma_sheet_scan_lookup(*image, counts, counts.len() as int, a, f, sec * 64 + p);
                let t = spec_scan_index(counts, a, f, sec * 64 + p);
                assert(scan[t] == image.pixel(
                    spec_cell_ix(a, sec * 64 + p),
                    spec_cell_iy(f, sec * 64 + p),
                ));
                assert(sheet@[a][f][sec][p] == idxs@[t]);
                assert(idxs@[t] < 16);
                assert(idxs_ok(scan, base_pal, idxs@, total as int));
            }
        }
        Ok((sheet, palette))
    }
}

impl Animation {
    /// Render each frame of this animation as its own image.
    pub fn get_frames(&self, palette: &[Color]) -> (imgs: Vec<RasterImage>)
        requires
            animation_wf(self@),
            palette@.len() == 16,
        ensures
            imgs@.len() == self@.len(),
            forall|f: int|
                0 <= f < self@.len() ==> {
                    &&& (#[trigger] imgs@[f]).wf()
                    &&& imgs@[f].spec_width() == 48
                    &&& imgs@[f].spec_height() == 48
                    &&& forall|ix: int, iy: int|
                        0 <= ix < 48 && 0 <= iy < 48 ==> #[trigger] imgs@[f].pixel(ix, iy)
                            == spec_frame_pixel(self@[f], palette@, ix, iy)
                },
    {
        let n = self.frames.len();
        let mut imgs: Vec<RasterImage> = Vec::new();
        for f in 0..n
            invariant
                animation_wf(self@),
                palette@.len() == 16,
                n == self@.len(),
                imgs@.len() == f,
                forall|f2: int|
                    0 <= f2 < f ==> {
                        &&& (#[trigger] imgs@[f2]).wf()
                        &&& imgs@[f2].spec_width() == 48
                        &&& imgs@[f2].spec_height() == 48
                        &&& forall|ix: int, iy: int|
                            0 <= ix < 48 && 0 <= iy < 48 ==> #[trigger] imgs@[f2].pixel(ix, iy)
                                == spec_frame_pixel(self@[f2], palette@, ix, iy)
                    },
        {
            proof {
                assert(self@[f as int] == self.frames@[f as int]@);
            }
            let img = self.frames[f].to_image(palette);
            imgs.push(img);
        }
        imgs
    }
}

} // verus!
