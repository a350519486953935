use crate::color::Color;
use crate::raster::RasterImage;
use crate::sheet::{
    is_marker, lemma_color_index_first, lemma_max_frames_bound, lemma_sheet_scan_lookup,
    spec_cell_ix, spec_cell_iy, spec_default_base, spec_fold_palette,
    spec_frame_scan, spec_anim_scan, spec_has_overflow, spec_max_frames, spec_overflow_at,
    spec_pixel_index, spec_scan_index, spec_sheet_pixel, spec_sheet_scan,
};
use crate::sprite::{frame_wf, section_wf, sheet_wf};
use vstd::arithmetic::div_mod::lemma_fundamental_div_mod_converse;
use vstd::prelude::*;

verus! {

/// The palette indexes of one frame, in the import scan order.
pub open spec fn spec_frame_idx_scan(fv: Seq<Seq<u8>>) -> Seq<u8> {
    Seq::new(2304, |u: int| fv[u / 64][u % 64])
}

/// The indexes of the first `n` frames of an animation, in order.
pub open spec fn spec_anim_idx_scan(av: Seq<Seq<Seq<u8>>>, n: int) -> Seq<u8>
    decreases n,
{
    if n <= 0 {
        Seq::empty()
    } else {
        spec_anim_idx_scan(av, n - 1) + spec_frame_idx_scan(av[n - 1])
    }
}

/// The indexes of the first `k` animations of a sheet, in scan order.
pub open spec fn spec_sheet_idx_scan(sv: Seq<Seq<Seq<Seq<u8>>>>, k: int) -> Seq<u8>
    decreases k,
{
    if k <= 0 {
        Seq::empty()
    } else {
        spec_sheet_idx_scan(sv, k - 1) + spec_anim_idx_scan(sv[k - 1], sv[k - 1].len() as int)
    }
}

/// The largest index in a sequence of palette indexes (zero if empty).
pub open spec fn spec_max_label(ids: Seq<u8>) -> int
    decreases ids.len(),
{
    if ids.len() == 0 {
        0
    } else {
        let rest = spec_max_label(ids.drop_last());
        if ids.last() as int > rest {
            ids.last() as int
        } else {
            rest
        }
    }
}

/// Nonzero indexes appear in first-use order: each one is at most one past
/// the largest index already seen.
pub open spec fn labels_in_first_use_order(ids: Seq<u8>) -> bool {
    forall|t: int|
        0 <= t < ids.len() && ids[t] != 0 ==> #[trigger] ids[t] <= spec_max_label(ids.take(t)) + 1
}

/// The color at a scan position carries the index at that position: the
/// transparent index shows as a marker color, every other index as its
/// palette color.
pub open spec fn scan_rel(pal: Seq<Color>, c: Color, b: u8) -> bool {
    &&& (b == 0 ==> is_marker(c))
    &&& (b != 0 ==> c == pal[b as int])
}

pub proof fn lemma_max_label_nonneg(ids: Seq<u8>)
    ensures
        spec_max_label(ids) >= 0,
    decreases ids.len(),
{
    if ids.len() > 0 {
        lemma_max_label_nonneg(ids.drop_last());
    }
}

/// Every element is at most the largest.
pub proof fn lemma_max_label_ge(ids: Seq<u8>, t: int)
    requires
        0 <= t < ids.len(),
    ensures
        ids[t] <= spec_max_label(ids),
    decreases ids.len(),
{
    lemma_max_label_nonneg(ids.drop_last());
    if t < ids.len() - 1 {
        lemma_max_label_ge(ids.drop_last(), t);
    }
}

/// With every element below 16, the largest is at most 15.
pub proof fn lemma_max_label_bounded(ids: Seq<u8>)
    requires
        forall|t: int| 0 <= t < ids.len() ==> #[trigger] ids[t] < 16,
    ensures
        spec_max_label(ids) <= 15,
    decreases ids.len(),
{
    if ids.len() > 0 {
        lemma_max_label_bounded(ids.drop_last());
    }
}

/// Dropping the last element preserves the first-use order.
proof fn lemma_order_drop_last(ids: Seq<u8>)
    requires
        labels_in_first_use_order(ids),
        ids.len() > 0,
    ensures
        labels_in_first_use_order(ids.drop_last()),
{
    let rest = ids.drop_last();
    assert forall|t: int|
        0 <= t < rest.len() && rest[t] != 0 implies #[trigger] rest[t] <= spec_max_label(
        rest.take(t),
    ) + 1 by {
        assert(rest[t] == ids[t]);
        assert(rest.take(t) =~= ids.take(t));
    }
}

/// In first-use order, every index up to the largest occurs.
proof fn lemma_labels_contiguous(ids: Seq<u8>, b: int)
    requires
        labels_in_first_use_order(ids),
        1 <= b <= spec_max_label(ids),
    ensures
        ids.contains(b as u8),
    decreases ids.len(),
{
    let rest = ids.drop_last();
    let last = ids.last();
    lemma_max_label_nonneg(rest);
    lemma_order_drop_last(ids);
    assert(ids.take(ids.len() - 1) =~= rest);
    if last as int > spec_max_label(rest) {
        // the last element is a fresh index one past the previous largest
        assert(last != 0);
        assert(last as int <= spec_max_label(rest) + 1);
        if b == last as int {
            assert(ids[ids.len() - 1] == b as u8);
        } else {
            assert(b <= spec_max_label(rest));
            lemma_labels_contiguous(rest, b);
            let w = choose|w: int| 0 <= w < rest.len() && rest[w] == b as u8;
            assert(ids[w] == b as u8);
        }
    } else {
        assert(spec_max_label(ids) == spec_max_label(rest));
        lemma_labels_contiguous(rest, b);
        let w = choose|w: int| 0 <= w < rest.len() && rest[w] == b as u8;
        assert(ids[w] == b as u8);
    }
}

/// The palette the import fold builds from a labeled color sequence is the
/// seeded base color followed by the palette colors of the labels 1, 2, ...
/// up to the largest label used, and the fold never overflows.
#[verifier::rlimit(60)]
proof fn lemma_fold_reconstructs_palette(cs: Seq<Color>, ids: Seq<u8>, pal: Seq<Color>)
    requires
        pal.len() == 16,
        cs.len() == ids.len(),
        forall|t: int| 0 <= t < ids.len() ==> #[trigger] ids[t] < 16,
        forall|t: int| 0 <= t < cs.len() ==> scan_rel(pal, #[trigger] cs[t], ids[t]),
        forall|b1: u8, b2: u8|
            #[trigger] ids.contains(b1) && #[trigger] ids.contains(b2) && 1 <= b1 < 16 && 1 <= b2
                < 16 && b1 != b2 ==> pal[b1 as int] != pal[b2 as int],
        forall|b: u8|
            #[trigger] ids.contains(b) && 1 <= b < 16 ==> !is_marker(pal[b as int]) && pal[
                b as int
            ] != spec_default_base(),
        labels_in_first_use_order(ids),
    ensures
        spec_fold_palette(cs) == seq![spec_default_base()] + Seq::new(
            spec_max_label(ids) as nat,
            |i: int| pal[i + 1],
        ),
        forall|t: int| 0 <= t < cs.len() ==> !spec_overflow_at(cs, t),
    decreases cs.len(),
{
    lemma_max_label_nonneg(ids);
    if cs.len() == 0 {
        assert(spec_fold_palette(cs) =~= seq![spec_default_base()] + Seq::new(
            spec_max_label(ids) as nat,
            |i: int| pal[i + 1],
        ));
    } else {
        let cs2 = cs.drop_last();
        let ids2 = ids.drop_last();
        let c = cs.last();
        let b = ids.last();
        lemma_order_drop_last(ids);
        assert forall|b2: u8| #[trigger] ids2.contains(b2) implies ids.contains(b2) by {
            let w = choose|w: int| 0 <= w < ids2.len() && ids2[w] == b2;
            assert(ids[w] == b2);
        }
        assert forall|t: int| 0 <= t < cs2.len() implies scan_rel(pal, #[trigger] cs2[t], ids2[t]) by {
            assert(cs2[t] == cs[t] && ids2[t] == ids[t]);
        }
        lemma_fold_reconstructs_palette(cs2, ids2, pal);
        let m2 = spec_max_label(ids2);
        let fold2 = spec_fold_palette(cs2);
        lemma_max_label_nonneg(ids2);
        lemma_max_label_bounded(ids2);
        assert(ids.contains(b)) by {
            assert(ids[ids.len() - 1] == b);
        }
        assert(scan_rel(pal, cs[cs.len() - 1], ids[ids.len() - 1]));

        if b == 0 {
            assert(is_marker(c));
            assert(spec_fold_palette(cs) == fold2);
            assert(spec_max_label(ids) == m2);
        } else {
            assert(c == pal[b as int]);
            assert(!is_marker(c) && c != spec_default_base());
            assert(ids.take(ids.len() - 1) =~= ids2);
            assert(b as int <= m2 + 1);
            if b as int <= m2 {
                assert(fold2[b as int] == pal[b as int]);
                assert(fold2.contains(c));
                assert(spec_fold_palette(cs) == fold2);
                assert(spec_max_label(ids) == m2);
            } else {
                // a fresh index: its color is new to the palette
                assert(b as int == m2 + 1);
                assert(!fold2.contains(c)) by {
                    if fold2.contains(c) {
                        let j = choose|j: int| 0 <= j < fold2.len() && fold2[j] == c;
                        if j == 0 {
                            assert(fold2[0] == spec_default_base());
                        } else {
                            assert(fold2[j] == pal[j]);
                            lemma_labels_contiguous(ids2, j);
                            let w = choose|w: int| 0 <= w < ids2.len() && ids2[w] == j as u8;
                            assert(ids[w] == j as u8);
                            assert(ids.contains(j as u8));
                            assert(pal[j] != pal[b as int]);
                        }
                    }
                }
                assert(spec_fold_palette(cs) == fold2.push(c));
                assert(spec_max_label(ids) == b as int);
                assert(spec_fold_palette(cs) =~= seq![spec_default_base()] + Seq::new(
                    spec_max_label(ids) as nat,
                    |i: int| pal[i + 1],
                ));
            }
        }

        // no prefix overflows: the palette never exceeds its 16 entries
        assert forall|t: int| 0 <= t < cs.len() implies !spec_overflow_at(cs, t) by {
            if t < cs.len() - 1 {
                assert(cs.take(t) =~= cs2.take(t));
                assert(cs[t] == cs2[t]);
                assert(!spec_overflow_at(cs2, t));
            } else {
                assert(cs.take(t) =~= cs2);
                if b == 0 {
                    assert(is_marker(cs[t]));
                } else if b as int <= m2 {
                    assert(fold2.contains(cs[t]));
                } else {
                    assert(fold2.len() == 1 + m2);
                    assert(b < 16);
                    assert(fold2.len() < 16);
                }
            }
        }
    }
}

/// The image shows the sheet exactly as `Spritesheet::to_img` renders it.
pub open spec fn renders_sheet(
    img: RasterImage,
    sv: Seq<Seq<Seq<Seq<u8>>>>,
    pal: Seq<Color>,
) -> bool {
    &&& img.spec_width() == 48 * sv.len()
    &&& img.spec_height() == 48 * spec_max_frames(sv)
    &&& forall|ix: int, iy: int|
        0 <= ix < img.spec_width() && 0 <= iy < img.spec_height() ==> #[trigger] img.pixel(ix, iy)
            == spec_sheet_pixel(sv, pal, ix, iy)
}

pub proof fn lemma_anim_idx_len(av: Seq<Seq<Seq<u8>>>, n: int)
    requires
        n >= 0,
    ensures
        spec_anim_idx_scan(av, n).len() == 2304 * n,
    decreases n,
{
    if n > 0 {
        lemma_anim_idx_len(av, n - 1);
    }
}

pub proof fn lemma_sheet_idx_len(sv: Seq<Seq<Seq<Seq<u8>>>>, counts: Seq<i32>, k: int)
    requires
        0 <= k <= sv.len(),
        counts.len() == sv.len(),
        forall|a: int| 0 <= a < sv.len() ==> #[trigger] counts[a] == sv[a].len(),
    ensures
        spec_sheet_idx_scan(sv, k).len() == 2304 * crate::data::frame_count_prefix(counts, k),
    decreases k,
{
    if k > 0 {
        lemma_sheet_idx_len(sv, counts, k - 1);
        lemma_anim_idx_len(sv[k - 1], sv[k - 1].len() as int);
    }
}

/// Every index in a well-formed sheet's scan is below 16.
proof fn lemma_frame_idx_values(fv: Seq<Seq<u8>>)
    requires
        frame_wf(fv),
    ensures
        forall|u: int| 0 <= u < 2304 ==> #[trigger] spec_frame_idx_scan(fv)[u] < 16,
{
    assert forall|u: int| 0 <= u < 2304 implies #[trigger] spec_frame_idx_scan(fv)[u] < 16 by {
        assert(64 * (u / 64) <= u < 64 * 36);
        assert(0 <= u / 64 < 36);
        assert(section_wf(fv[u / 64]));
    }
}

proof fn lemma_anim_idx_values(av: Seq<Seq<Seq<u8>>>, n: int)
    requires
        0 <= n <= av.len(),
        forall|f: int| 0 <= f < av.len() ==> frame_wf(#[trigger] av[f]),
    ensures
        forall|t: int|
            0 <= t < spec_anim_idx_scan(av, n).len() ==> #[trigger] spec_anim_idx_scan(av, n)[t]
                < 16,
    decreases n,
{
    if n > 0 {
        lemma_anim_idx_values(av, n - 1);
        lemma_anim_idx_len(av, n - 1);
        lemma_anim_idx_len(av, n);
        lemma_frame_idx_values(av[n - 1]);
        let left = spec_anim_idx_scan(av, n - 1);
        let right = spec_frame_idx_scan(av[n - 1]);
        assert forall|t: int|
            0 <= t < spec_anim_idx_scan(av, n).len() implies #[trigger] spec_anim_idx_scan(
            av,
            n,
        )[t] < 16 by {
            if t < left.len() {
                assert(spec_anim_idx_scan(av, n)[t] == left[t]);
            } else {
                assert(spec_anim_idx_scan(av, n)[t] == right[t - left.len()]);
            }
        }
    }
}

proof fn lemma_sheet_idx_values(sv: Seq<Seq<Seq<Seq<u8>>>>, k: int)
    requires
        0 <= k <= sv.len(),
        sheet_wf(sv),
    ensures
        forall|t: int|
            0 <= t < spec_sheet_idx_scan(sv, k).len() ==> #[trigger] spec_sheet_idx_scan(sv, k)[t]
                < 16,
    decreases k,
{
    if k > 0 {
        lemma_sheet_idx_values(sv, k - 1);
        lemma_anim_idx_values(sv[k - 1], sv[k - 1].len() as int);
        let left = spec_sheet_idx_scan(sv, k - 1);
        let right = spec_anim_idx_scan(sv[k - 1], sv[k - 1].len() as int);
        assert forall|t: int|
            0 <= t < spec_sheet_idx_scan(sv, k).len() implies #[trigger] spec_sheet_idx_scan(
            sv,
            k,
        )[t] < 16 by {
            if t < left.len() {
                assert(spec_sheet_idx_scan(sv, k)[t] == left[t]);
            } else {
                assert(spec_sheet_idx_scan(sv, k)[t] == right[t - left.len()]);
            }
        }
    }
}

/// Index-scan position `spec_scan_index(counts, a, f, u)` holds the
/// sheet's index for cell `u` of frame `f` of animation `a`.
proof fn lemma_anim_idx_lookup(av: Seq<Seq<Seq<u8>>>, n: int, f: int, u: int)
    requires
        0 <= f < n,
        0 <= u < 2304,
    ensures
        spec_anim_idx_scan(av, n)[2304 * f + u] == av[f][u / 64][u % 64],
    decreases n,
{
    lemma_anim_idx_len(av, n - 1);
    if f < n - 1 {
        lemma_anim_idx_lookup(av, n - 1, f, u);
    }
}

proof fn lemma_sheet_idx_lookup(
    sv: Seq<Seq<Seq<Seq<u8>>>>,
    counts: Seq<i32>,
    k: int,
    a: int,
    f: int,
    u: int,
)
    requires
        counts.len() == sv.len(),
        forall|a2: int| 0 <= a2 < sv.len() ==> #[trigger] counts[a2] == sv[a2].len(),
        0 <= a < k <= sv.len(),
        0 <= f < counts[a],
        0 <= u < 2304,
    ensures
        ({
            let t = spec_scan_index(counts, a, f, u);
            &&& 0 <= t < spec_sheet_idx_scan(sv, k).len()
            &&& spec_sheet_idx_scan(sv, k)[t] == sv[a][f][u / 64][u % 64]
        }),
    decreases k,
{
    assert(crate::data::nonnegative_counts(counts));
    lemma_sheet_idx_len(sv, counts, k);
    lemma_sheet_idx_len(sv, counts, k - 1);
    lemma_anim_idx_len(sv[k - 1], sv[k - 1].len() as int);
    crate::data::lemma_frame_count_prefix_monotonic(counts, a + 1, k);
    if a < k - 1 {
        lemma_sheet_idx_lookup(sv, counts, k - 1, a, f, u);
        crate::data::lemma_frame_count_prefix_monotonic(counts, a + 1, k - 1);
    } else {
        lemma_anim_idx_lookup(sv[a], counts[a] as int, f, u);
    }
}

/// Each rendered frame pixel carries its index: transparent pixels show a
/// marker color, every other index its palette color.
#[verifier::rlimit(60)]
proof fn lemma_frame_rel(
    img: RasterImage,
    sv: Seq<Seq<Seq<Seq<u8>>>>,
    pal: Seq<Color>,
    a: int,
    f: int,
)
    requires
        sheet_wf(sv),
        renders_sheet(img, sv, pal),
        0 <= a < sv.len(),
        0 <= f < sv[a].len(),
    ensures
        forall|u: int|
            0 <= u < 2304 ==> scan_rel(
                pal,
                #[trigger] spec_frame_scan(img, a, f)[u],
                spec_frame_idx_scan(sv[a][f])[u],
            ),
{
    assert forall|u: int|
        0 <= u < 2304 implies scan_rel(
        pal,
        #[trigger] spec_frame_scan(img, a, f)[u],
        spec_frame_idx_scan(sv[a][f])[u],
    ) by {
        let su = u / 64;
        let pu = u % 64;
        let sx = su % 6;
        let sy = su / 6;
        let px = pu % 8;
        let py = pu / 8;
        assert(64 * su <= u < 64 * 36);
        assert(0 <= su < 36);
        assert(6 * sy <= su < 6 * 6);
        assert(0 <= sy < 6 && 0 <= sx < 6);
        assert(8 * py <= pu < 8 * 8);
        assert(0 <= py < 8 && 0 <= px < 8);
        let ix = spec_cell_ix(a, u);
        let iy = spec_cell_iy(f, u);
        assert(ix == sx * 8 + px + 48 * a);
        assert(iy == sy * 8 + py + 48 * f);
        lemma_max_frames_bound(sv, a);
        assert(48 * (a + 1) <= 48 * sv.len());
        assert(48 * (f + 1) <= 48 * spec_max_frames(sv));
        assert(0 <= ix < img.spec_width());
        assert(0 <= iy < img.spec_height());
        assert(img.pixel(ix, iy) == spec_sheet_pixel(sv, pal, ix, iy));
        lemma_fundamental_div_mod_converse(ix, 48, a, sx * 8 + px);
        lemma_fundamental_div_mod_converse(ix % 48, 8, sx, px);
        lemma_fundamental_div_mod_converse(ix, 8, 6 * a + sx, px);
        lemma_fundamental_div_mod_converse(iy, 48, f, sy * 8 + py);
        lemma_fundamental_div_mod_converse(iy % 48, 8, sy, py);
        lemma_fundamental_div_mod_converse(iy, 8, 6 * f + sy, py);
        assert(sy * 6 + sx == su);
        assert(py * 8 + px == pu);
        assert(frame_wf(sv[a][f]));
        assert(spec_frame_idx_scan(sv[a][f])[u] == sv[a][f][su][pu]);
        assert(spec_frame_scan(img, a, f)[u] == img.pixel(ix, iy));
    }
}

proof fn lemma_anim_rel(
    img: RasterImage,
    sv: Seq<Seq<Seq<Seq<u8>>>>,
    pal: Seq<Color>,
    a: int,
    n: int,
)
    requires
        sheet_wf(sv),
        renders_sheet(img, sv, pal),
        0 <= a < sv.len(),
        0 <= n <= sv[a].len(),
    ensures
        forall|t: int|
            0 <= t < 2304 * n ==> scan_rel(
                pal,
                #[trigger] spec_anim_scan(img, a, n)[t],
                spec_anim_idx_scan(sv[a], n)[t],
            ),
    decreases n,
{
    if n > 0 {
        lemma_anim_rel(img, sv, pal, a, n - 1);
        crate::sheet::lemma_anim_scan_len(img, a, n - 1);
        lemma_anim_idx_len(sv[a], n - 1);
        lemma_frame_rel(img, sv, pal, a, n - 1);
        assert forall|t: int|
            0 <= t < 2304 * n implies scan_rel(
            pal,
            #[trigger] spec_anim_scan(img, a, n)[t],
            spec_anim_idx_scan(sv[a], n)[t],
        ) by {
            if t < 2304 * (n - 1) {
                assert(spec_anim_scan(img, a, n)[t] == spec_anim_scan(img, a, n - 1)[t]);
                assert(spec_anim_idx_scan(sv[a], n)[t] == spec_anim_idx_scan(sv[a], n - 1)[t]);
            } else {
                let u = t - 2304 * (n - 1);
                assert(spec_anim_scan(img, a, n)[t] == spec_frame_scan(img, a, n - 1)[u]);
                assert(spec_anim_idx_scan(sv[a], n)[t] == spec_frame_idx_scan(sv[a][n - 1])[u]);
            }
        }
    }
}

proof fn lemma_sheet_rel(
    img: RasterImage,
    sv: Seq<Seq<Seq<Seq<u8>>>>,
    pal: Seq<Color>,
    counts: Seq<i32>,
    k: int,
)
    requires
        sheet_wf(sv),
        renders_sheet(img, sv, pal),
        counts.len() == sv.len(),
        forall|a: int| 0 <= a < sv.len() ==> #[trigger] counts[a] == sv[a].len(),
        0 <= k <= sv.len(),
    ensures
        spec_sheet_scan(img, counts, k).len() == spec_sheet_idx_scan(sv, k).len(),
        forall|t: int|
            0 <= t < spec_sheet_scan(img, counts, k).len() ==> scan_rel(
                pal,
                #[trigger] spec_sheet_scan(img, counts, k)[t],
                spec_sheet_idx_scan(sv, k)[t],
            ),
    decreases k,
{
    assert(crate::data::nonnegative_counts(counts));
    crate::sheet::lemma_sheet_scan_len(img, counts, k);
    lemma_sheet_idx_len(sv, counts, k);
    if k > 0 {
        lemma_sheet_rel(img, sv, pal, counts, k - 1);
        crate::sheet::lemma_sheet_scan_len(img, counts, k - 1);
        lemma_sheet_idx_len(sv, counts, k - 1);
        crate::sheet::lemma_anim_scan_len(img, k - 1, counts[k - 1] as int);
        lemma_anim_idx_len(sv[k - 1], sv[k - 1].len() as int);
        lemma_anim_rel(img, sv, pal, k - 1, sv[k - 1].len() as int);
        assert forall|t: int|
            0 <= t < spec_sheet_scan(img, counts, k).len() implies scan_rel(
            pal,
            #[trigger] spec_sheet_scan(img, counts, k)[t],
            spec_sheet_idx_scan(sv, k)[t],
        ) by {
            let left = spec_sheet_scan(img, counts, k - 1).len() as int;
            if t < left {
                assert(spec_sheet_scan(img, counts, k)[t] == spec_sheet_scan(
                    img,
                    counts,
                    k - 1,
                )[t]);
                assert(spec_sheet_idx_scan(sv, k)[t] == spec_sheet_idx_scan(sv, k - 1)[t]);
            } else {
                let u = t - left;
                assert(spec_sheet_scan(img, counts, k)[t] == spec_anim_scan(
                    img,
                    k - 1,
                    counts[k - 1] as int,
                )[u]);
                assert(spec_sheet_idx_scan(sv, k)[t] == spec_anim_idx_scan(
                    sv[k - 1],
                    sv[k - 1].len() as int,
                )[u]);
            }
        }
    }
}

/// Importing a rendered spritesheet image reproduces the sheet.
///
/// When a sheet's nonzero indexes appear in first-use order, and the
/// palette colors of the used indexes are pairwise distinct, no marker
/// color and not the seeded base color, then scanning the rendered image
/// never overflows, the import rebuilds the palette as the base color
/// followed by the used palette colors in index order, and every pixel is
/// assigned exactly its original index. Together with the contracts of
/// `to_img` and `from_img` this makes the import of an export the identity
/// on the index grids.
#[verifier::rlimit(60)]
pub proof fn lemma_image_round_trip(
    sv: Seq<Seq<Seq<Seq<u8>>>>,
    pal: Seq<Color>,
    img: RasterImage,
    counts: Seq<i32>,
)
    requires
        sheet_wf(sv),
        sv.len() >= 1,
        pal.len() == 16,
        counts.len() == sv.len(),
        forall|a: int| 0 <= a < sv.len() ==> #[trigger] counts[a] == sv[a].len(),
        renders_sheet(img, sv, pal),
        forall|b1: u8, b2: u8|
            #[trigger] spec_sheet_idx_scan(sv, sv.len() as int).contains(b1)
                && #[trigger] spec_sheet_idx_scan(sv, sv.len() as int).contains(b2) && 1 <= b1 < 16
                && 1 <= b2 < 16 && b1 != b2 ==> pal[b1 as int] != pal[b2 as int],
        forall|b: u8|
            #[trigger] spec_sheet_idx_scan(sv, sv.len() as int).contains(b) && 1 <= b < 16
                ==> !is_marker(pal[b as int]) && pal[b as int] != spec_default_base(),
        labels_in_first_use_order(spec_sheet_idx_scan(sv, sv.len() as int)),
    ensures
        ({
            let scan = spec_sheet_scan(img, counts, counts.len() as int);
            let ids = spec_sheet_idx_scan(sv, sv.len() as int);
            &&& !spec_has_overflow(scan)
            &&& spec_fold_palette(scan) == seq![spec_default_base()] + Seq::new(
                spec_max_label(ids) as nat,
                |i: int| pal[i + 1],
            )
            &&& forall|a: int, f: int, sec: int, p: int|
                0 <= a < sv.len() && 0 <= f < sv[a].len() && 0 <= sec < 36 && 0 <= p < 64
                    ==> spec_pixel_index(
                    spec_fold_palette(scan),
                    img.pixel(
                        spec_cell_ix(a, sec * 64 + p),
                        #[trigger] spec_cell_iy(f, sec * 64 + p),
                    ),
                ) == #[trigger] sv[a][f][sec][p]
        }),
{
    let k = sv.len() as int;
    let scan = spec_sheet_scan(img, counts, k);
    let ids = spec_sheet_idx_scan(sv, k);
    assert(crate::data::nonnegative_counts(counts));
    lemma_sheet_rel(img, sv, pal, counts, k);
    lemma_sheet_idx_values(sv, k);
    lemma_fold_reconstructs_palette(scan, ids, pal);
    let fold = spec_fold_palette(scan);
    let m = spec_max_label(ids);
    lemma_max_label_nonneg(ids);
    lemma_max_label_bounded(ids);

    assert(!spec_has_overflow(scan)) by {
        if spec_has_overflow(scan) {
            let t = choose|t: int| spec_overflow_at(scan, t);
            assert(!spec_overflow_at(scan, t));
        }
    }

    assert forall|a: int, f: int, sec: int, p: int|
        0 <= a < sv.len() && 0 <= f < sv[a].len() && 0 <= sec < 36 && 0 <= p < 64
            implies spec_pixel_index(
        fold,
        img.pixel(spec_cell_ix(a, sec * 64 + p), #[trigger] spec_cell_iy(f, sec * 64 + p)),
    ) == #[trigger] sv[a][f][sec][p] by {
        let u = sec * 64 + p;
        lemma_fundamental_div_mod_converse(u, 64, sec, p);
        lemma_sheet_scan_lookup(img, counts, k, a, f, u);
        lemma_sheet_idx_lookup(sv, counts, k, a, f, u);
        let t = spec_scan_index(counts, a, f, u);
        let c = scan[t];
        let b = ids[t];
        assert(c == img.pixel(spec_cell_ix(a, u), spec_cell_iy(f, u)));
        assert(b == sv[a][f][sec][p]);
        assert(scan_rel(pal, c, b));
        if b == 0 {
            assert(is_marker(c));
        } else {
            assert(c == pal[b as int]);
            assert(ids.contains(b)) by {
                assert(ids[t] == b);
            }
            assert(!is_marker(c));
            lemma_max_label_ge(ids, t);
            assert(1 <= b as int <= m);
            assert(fold[b as int] == pal[b as int]);
            assert forall|j: int| 0 <= j < b as int implies fold[j] != c by {
                if j == 0 {
                    assert(fold[0] == spec_default_base());
                } else {
                    assert(fold[j] == pal[j]);
                    lemma_labels_contiguous(ids, j);
                    assert(pal[j] != pal[b as int]);
                }
            }
            lemma_color_index_first(fold, c, b as int);
        }
    }
}

} // verus!
