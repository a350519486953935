use vstd::arithmetic::div_mod::lemma_fundamental_div_mod_converse;
use vstd::prelude::*;

verus! {

/// A frame is a square grid of this many sections per side.
pub const FRAME_SIZE: usize = 6;

/// A section is a square tile of this many pixels per side.
pub const SECTION_SIZE: usize = 8;

/// One encoded frame: 36 sections of 64 pixels, two pixels per byte.
pub const FRAME_BYTE_COUNT: usize = FRAME_SIZE * FRAME_SIZE * 32;

/// The smallest addressable image unit: an 8 by 8 tile of 4-bit palette
/// indexes, stored row-major as 64 bytes each holding one index.
pub struct Section {
    pub bytes: Vec<u8>,
}

impl View for Section {
    type V = Seq<u8>;

    open spec fn view(&self) -> Seq<u8> {
        self.bytes@
    }
}

/// A section holds 64 pixel values, each a palette index below 16.
pub open spec fn section_wf(s: Seq<u8>) -> bool {
    &&& s.len() == 64
    &&& forall|i: int| 0 <= i < 64 ==> s[i] < 16
}

impl Section {
    /// A blank section: all pixels hold palette index 0.
    pub fn new() -> (section: Section)
        ensures
            section_wf(section@),
            forall|i: int| 0 <= i < 64 ==> section@[i] == 0,
    {
        let mut bytes: Vec<u8> = Vec::new();
        for i in 0..64usize
            invariant
                bytes@.len() == i,
                forall|j: int| 0 <= j < i ==> bytes@[j] == 0,
        {
            bytes.push(0);
        }
        Section { bytes }
    }

    /// The pixel at row `y`, column `x`.
    pub fn get(&self, y: usize, x: usize) -> (v: u8)
        requires
            self@.len() == 64,
            y < 8,
            x < 8,
        ensures
            v == self@[y * 8 + x],
    {
        self.bytes[y * 8 + x]
    }

    /// Set the pixel at row `y`, column `x`.
    pub fn set(&mut self, y: usize, x: usize, v: u8)
        requires
            old(self)@.len() == 64,
            y < 8,
            x < 8,
        ensures
            final(self)@ == old(self)@.update(y * 8 + x, v),
    {
        self.bytes[y * 8 + x] = v;
    }
}

/// One still image: a 6 by 6 grid of sections, addressed by a linear
/// section index in row-major grid order.
pub struct Frame {
    pub sections: Vec<Section>,
}

impl View for Frame {
    type V = Seq<Seq<u8>>;

    open spec fn view(&self) -> Seq<Seq<u8>> {
        self.sections@.map_values(|s: Section| s@)
    }
}

/// A frame holds exactly 36 well-formed sections.
pub open spec fn frame_wf(f: Seq<Seq<u8>>) -> bool {
    &&& f.len() == 36
    &&& forall|s: int| 0 <= s < 36 ==> section_wf(#[trigger] f[s])
}

/// An ordered run of frames: one movement or action of a character.
pub struct Animation {
    pub frames: Vec<Frame>,
}

impl View for Animation {
    type V = Seq<Seq<Seq<u8>>>;

    open spec fn view(&self) -> Seq<Seq<Seq<u8>>> {
        self.frames@.map_values(|f: Frame| f@)
    }
}

pub open spec fn animation_wf(a: Seq<Seq<Seq<u8>>>) -> bool {
    forall|f: int| 0 <= f < a.len() ==> frame_wf(#[trigger] a[f])
}

/// The full ordered collection of animations for one character.
pub struct Spritesheet {
    pub animations: Vec<Animation>,
}

impl View for Spritesheet {
    type V = Seq<Seq<Seq<Seq<u8>>>>;

    open spec fn view(&self) -> Seq<Seq<Seq<Seq<u8>>>> {
        self.animations@.map_values(|a: Animation| a@)
    }
}

pub open spec fn sheet_wf(s: Seq<Seq<Seq<Seq<u8>>>>) -> bool {
    forall|a: int| 0 <= a < s.len() ==> animation_wf(#[trigger] s[a])
}

impl Spritesheet {
    pub fn new() -> (sheet: Spritesheet)
        ensures
            sheet@.len() == 0,
    {
        Spritesheet { animations: Vec::new() }
    }
}

impl Animation {
    pub fn new() -> (animation: Animation)
        ensures
            animation@.len() == 0,
    {
        Animation { frames: Vec::new() }
    }
}

impl Frame {
    /// A blank frame: 36 blank sections.
    pub fn new() -> (frame: Frame)
        ensures
            frame_wf(frame@),
            forall|s: int, i: int| 0 <= s < 36 && 0 <= i < 64 ==> #[trigger] frame@[s][i] == 0,
    {
        let mut sections: Vec<Section> = Vec::new();
        for k in 0..36usize
            invariant
                sections@.len() == k,
                forall|s: int|
                    0 <= s < k ==> section_wf(#[trigger] sections@[s]@) && forall|i: int|
                        0 <= i < 64 ==> sections@[s]@[i] == 0,
        {
            sections.push(Section::new());
        }
        Frame { sections }
    }
}

/// Where the section at stream position `p` of an encoded frame lands in
/// the frame's row-major grid. The byte stream first walks the left 6x4
/// block of the grid row by row, then the right 6x2 block pair by pair:
///
/// grid index:   00 01 02 03 | 24 25
///               04 05 06 07 | 26 27
///               08 09 10 11 | 28 29
///               12 13 14 15 | 30 31
///               16 17 18 19 | 32 33
///               20 21 22 23 | 34 35   (entries are stream positions)
pub open spec fn spec_stream_to_grid(p: int) -> int {
    if p < 24 {
        (p / 4) * 6 + p % 4
    } else {
        ((p - 24) / 2) * 6 + 4 + (p - 24) % 2
    }
}

/// The inverse direction: the stream position that carries the section at
/// row-major grid index `s`.
pub open spec fn spec_grid_to_stream(s: int) -> int {
    if s % 6 < 4 {
        (s / 6) * 4 + s % 6
    } else {
        24 + (s / 6) * 2 + (s % 6 - 4)
    }
}

/// The section permutation maps stream positions into the grid and back.
pub proof fn lemma_stream_grid_inverse(p: int)
    requires
        0 <= p < 36,
    ensures
        0 <= spec_stream_to_grid(p) < 36,
        spec_grid_to_stream(spec_stream_to_grid(p)) == p,
{
    if p < 24 {
        let s = (p / 4) * 6 + p % 4;
        lemma_fundamental_div_mod_converse(s, 6, p / 4, p % 4);
    } else {
        let q = p - 24;
        let s = (q / 2) * 6 + 4 + q % 2;
        lemma_fundamental_div_mod_converse(s, 6, q / 2, 4 + q % 2);
    }
}

/// The other direction of the same fact.
pub proof fn lemma_grid_stream_inverse(s: int)
    requires
        0 <= s < 36,
    ensures
        0 <= spec_grid_to_stream(s) < 36,
        spec_stream_to_grid(spec_grid_to_stream(s)) == s,
{
    let c = s % 6;
    let r = s / 6;
    if c < 4 {
        let p = r * 4 + c;
        lemma_fundamental_div_mod_converse(p, 4, r, c);
    } else {
        let q = r * 2 + (c - 4);
        lemma_fundamental_div_mod_converse(q, 2, r, c - 4);
    }
}

/// Exec form of `spec_stream_to_grid`.
fn stream_to_grid(p: usize) -> (s: usize)
    requires
        p < 36,
    ensures
        s == spec_stream_to_grid(p as int),
        s < 36,
{
    proof {
        lemma_stream_grid_inverse(p as int);
    }
    if p < 24 {
        (p / 4) * 6 + p % 4
    } else {
        ((p - 24) / 2) * 6 + 4 + (p - 24) % 2
    }
}

/// The decoded form of one encoded frame: byte `j` of the stream carries
/// the pixels at positions `2 * (j % 32)` (low nibble) and `2 * (j % 32) + 1`
/// (high nibble) of the section at stream position `j / 32`.
pub open spec fn spec_decode_frame(buf: Seq<u8>) -> Seq<Seq<u8>> {
    Seq::new(
        36,
        |s: int|
            Seq::new(
                64,
                |p: int|
                    if p % 2 == 0 {
                        buf[spec_grid_to_stream(s) * 32 + p / 2] & 0x0f
                    } else {
                        buf[spec_grid_to_stream(s) * 32 + p / 2] >> 4
                    },
            ),
    )
}

/// The encoded form of a frame: the inverse arrangement, with two pixels
/// packed per byte, low nibble first.
pub open spec fn spec_encode_frame(f: Seq<Seq<u8>>) -> Seq<u8> {
    Seq::new(
        1152,
        |j: int|
            f[spec_stream_to_grid(j / 32)][(j % 32) * 2] | (f[spec_stream_to_grid(j / 32)][(j % 32)
                * 2 + 1] << 4),
    )
}

impl Frame {
    /// Decode one frame's 1152-byte run from the ROM into its 36 sections,
    /// applying the section stream permutation.
    #[verifier::rlimit(60)]
    pub fn decode(buffer: &[u8]) -> (frame: Frame)
        requires
            buffer@.len() == FRAME_BYTE_COUNT,
        ensures
            frame@ == spec_decode_frame(buffer@),
            frame_wf(frame@),
    {
        let mut sections: Vec<Section> = Vec::new();
        for k in 0..36usize
            invariant
                sections@.len() == k,
                forall|s: int| 0 <= s < k ==> (#[trigger] sections@[s]@).len() == 64,
        {
            sections.push(Section::new());
        }
        let mut frame = Frame { sections };
        for k in 0..36usize
            invariant
                buffer@.len() == 1152,
                frame@.len() == 36,
                forall|s: int| 0 <= s < 36 ==> (#[trigger] frame@[s]).len() == 64,
                forall|k2: int|
                    0 <= k2 < k ==> #[trigger] frame@[spec_stream_to_grid(k2)]
                        == spec_decode_frame(buffer@)[spec_stream_to_grid(k2)],
        {
            let mut bytes: Vec<u8> = Vec::new();
            for t in 0..32usize
                invariant
                    buffer@.len() == 1152,
                    k < 36,
                    bytes@.len() == 2 * t,
                    forall|t2: int|
                        0 <= t2 < t ==> #[trigger] bytes@[2 * t2] == (buffer@[k * 32 + t2]
                            & 0x0f) && bytes@[2 * t2 + 1] == (buffer@[k * 32 + t2] >> 4),
            {
                let b = buffer[k * 32 + t];
                let ghost pre = bytes@;
                bytes.push(b & 0x0f);
                bytes.push(b >> 4);
                proof {
                    assert forall|t2: int|
                        0 <= t2 < t + 1 implies #[trigger] bytes@[2 * t2] == (buffer@[k * 32 + t2]
                        & 0x0f) && bytes@[2 * t2 + 1] == (buffer@[k * 32 + t2] >> 4) by {
                        if t2 < t {
                            assert(bytes@[2 * t2] == pre[2 * t2]);
                            assert(bytes@[2 * t2 + 1] == pre[2 * t2 + 1]);
                        } else {
                            assert(bytes@[2 * t2] == (b & 0x0f));
                            assert(bytes@[2 * t2 + 1] == (b >> 4));
                        }
                    }
                }
            }
            let dest = stream_to_grid(k);
            proof {
                lemma_stream_grid_inverse(k as int);
                assert forall|p: int| 0 <= p < 64 implies bytes@[p] == spec_decode_frame(
                    buffer@,
                )[dest as int][p] by {
                    lemma_fundamental_div_mod_converse(p, 2, p / 2, p % 2);
                    assert(bytes@[2 * (p / 2)] == (buffer@[k * 32 + p / 2] & 0x0f));
                    assert(bytes@[2 * (p / 2) + 1] == (buffer@[k * 32 + p / 2] >> 4));
                }
            }
            let section = Section { bytes };
            let ghost pre = frame@;
            let ghost pre_sections = frame.sections@;
            frame.sections[dest] = section;
            proof {
                assert forall|s: int| 0 <= s < 36 && s != dest implies #[trigger] frame@[s]
                    == pre[s] by {
                    assert(frame.sections@[s] == pre_sections[s]);
                }
                assert(frame@[dest as int] == section@);
                assert(frame@[dest as int] =~= spec_decode_frame(buffer@)[dest as int]);
                assert forall|k2: int|
                    0 <= k2 < k + 1 implies #[trigger] frame@[spec_stream_to_grid(k2)]
                    == spec_decode_frame(buffer@)[spec_stream_to_grid(k2)] by {
                    lemma_stream_grid_inverse(k2);
                    if k2 < k {
                        lemma_stream_grid_inverse(k as int);
                        assert(spec_stream_to_grid(k2) != spec_stream_to_grid(k as int));
                        assert(frame@[spec_stream_to_grid(k2)] == pre[spec_stream_to_grid(k2)]);
                    }
                }
                assert forall|s: int| 0 <= s < 36 implies (#[trigger] frame@[s]).len() == 64 by {
                    if s != dest {
                        assert(frame@[s] == pre[s]);
                    }
                }
            }
        }
        proof {
            assert forall|s: int| 0 <= s < 36 implies frame@[s] == spec_decode_frame(
                buffer@,
            )[s] by {
                lemma_grid_stream_inverse(s);
                assert(frame@[spec_stream_to_grid(spec_grid_to_stream(s))] == spec_decode_frame(
                    buffer@,
                )[spec_stream_to_grid(spec_grid_to_stream(s))]);
            }
            assert(frame@ =~= spec_decode_frame(buffer@));
            assert forall|s: int| 0 <= s < 36 implies section_wf(#[trigger] frame@[s]) by {
                assert forall|p: int| 0 <= p < 64 implies frame@[s][p] < 16 by {
                    let b = buffer@[spec_grid_to_stream(s) * 32 + p / 2];
                    assert((b & 0x0f) < 16 && (b >> 4) < 16) by (bit_vector);
                }
            }
        }
        frame
    }

    /// Encode this frame into its 1152-byte ROM run, applying the inverse
    /// section stream permutation and packing two pixels per byte.
    pub fn encode(&self) -> (bytes: Vec<u8>)
        requires
            frame_wf(self@),
        ensures
            bytes@ == spec_encode_frame(self@),
            bytes@.len() == FRAME_BYTE_COUNT,
    {
        let mut bytes: Vec<u8> = Vec::new();
        for k in 0..36usize
            invariant
                frame_wf(self@),
                bytes@.len() == k * 32,
                forall|j: int| 0 <= j < k * 32 ==> #[trigger] bytes@[j] == spec_encode_frame(self@)[j],
        {
            let src = stream_to_grid(k);
            proof {
                lemma_stream_grid_inverse(k as int);
            }
            for t in 0..32usize
                invariant
                    frame_wf(self@),
                    k < 36,
                    src == spec_stream_to_grid(k as int),
                    src < 36,
                    bytes@.len() == k * 32 + t,
                    forall|j: int|
                        0 <= j < k * 32 + t ==> #[trigger] bytes@[j] == spec_encode_frame(self@)[j],
            {
                proof {
                    assert(self@[src as int] == self.sections@[src as int]@);
                    assert(section_wf(self@[src as int]));
                }
                let lo = self.sections[src].bytes[2 * t];
                let hi = self.sections[src].bytes[2 * t + 1];
                proof {
                    let j = k * 32 + t;
                    lemma_fundamental_div_mod_converse(j as int, 32, k as int, t as int);
                    assert(self@[src as int][2 * t] == lo && self@[src as int][2 * t + 1] == hi);
                }
                bytes.push(lo | (hi << 4));
            }
        }
        bytes
    }
}

/// The encoded bytes of an animation: its frames' encodings, in order.
pub open spec fn spec_animation_bytes(a: Seq<Seq<Seq<u8>>>) -> Seq<u8>
    decreases a.len(),
{
    if a.len() == 0 {
        Seq::empty()
    } else {
        spec_animation_bytes(a.drop_last()) + spec_encode_frame(a.last())
    }
}

/// The encoded bytes of a whole spritesheet: its animations' encodings, in
/// order.
pub open spec fn spec_sheet_bytes(s: Seq<Seq<Seq<Seq<u8>>>>) -> Seq<u8>
    decreases s.len(),
{
    if s.len() == 0 {
        Seq::empty()
    } else {
        spec_sheet_bytes(s.drop_last()) + spec_animation_bytes(s.last())
    }
}

impl Spritesheet {
    /// Encode every frame of every animation, in order, into one contiguous
    /// byte run as the ROM stores it.
    pub fn to_bytes(&self) -> (bytes: Vec<u8>)
        requires
            sheet_wf(self@),
        ensures
            bytes@ == spec_sheet_bytes(self@),
    {
        let mut bytes: Vec<u8> = Vec::new();
        let n = self.animations.len();
        for a in 0..n
            invariant
                n == self@.len(),
                sheet_wf(self@),
                bytes@ == spec_sheet_bytes(self@.take(a as int)),
        {
            let m = self.animations[a].frames.len();
            proof {
                assert(self@[a as int] == self.animations@[a as int]@);
            }
            for f in 0..m
                invariant
                    n == self@.len(),
                    a < n,
                    sheet_wf(self@),
                    m == self@[a as int].len(),
                    bytes@ == spec_sheet_bytes(self@.take(a as int)) + spec_animation_bytes(
                        self@[a as int].take(f as int),
                    ),
            {
                proof {
                    assert(self@[a as int] == self.animations@[a as int]@);
                    assert(self@[a as int][f as int] == self.animations@[a as int].frames@[f as int]@);
                    assert(frame_wf(self@[a as int][f as int]));
                }
                let mut fb = self.animations[a].frames[f].encode();
                bytes.append(&mut fb);
                proof {
                    let anim = self@[a as int];
                    assert(anim.take(f + 1).drop_last() =~= anim.take(f as int));
                    assert(anim.take(f + 1).last() == anim[f as int]);
                    assert(spec_animation_bytes(anim.take(f + 1)) == spec_animation_bytes(
                        anim.take(f as int),
                    ) + spec_encode_frame(anim[f as int]));
                }
            }
            proof {
                let anim = self@[a as int];
                assert(anim.take(m as int) =~= anim);
                assert(self@.take(a + 1).drop_last() =~= self@.take(a as int));
                assert(self@.take(a + 1).last() == anim);
                assert(spec_sheet_bytes(self@.take(a + 1)) == spec_sheet_bytes(self@.take(a as int))
                    + spec_animation_bytes(anim));
            }
        }
        proof {
            assert(self@.take(n as int) =~= self@);
        }
        bytes
    }

    /// Build a spritesheet from one decoded frame per 1152-byte buffer,
    /// grouping consecutive frames into animations by the given frame
    /// counts.
    pub fn from_frame_buffers(buffers: &Vec<Vec<u8>>, frame_counts: &Vec<i32>) -> (sheet:
        Spritesheet)
        requires
            crate::data::nonnegative_counts(frame_counts@),
            crate::data::frame_count_prefix(frame_counts@, frame_counts@.len() as int)
                == buffers@.len(),
            forall|i: int|
                0 <= i < buffers@.len() ==> (#[trigger] buffers@[i])@.len() == FRAME_BYTE_COUNT,
        ensures
            sheet@.len() == frame_counts@.len(),
            sheet_wf(sheet@),
            forall|a: int|
                0 <= a < sheet@.len() ==> (#[trigger] sheet@[a]).len() == frame_counts@[a],
            forall|a: int, f: int|
                0 <= a < sheet@.len() && 0 <= f < sheet@[a].len() ==> #[trigger] sheet@[a][f]
                    == spec_decode_frame(
                    buffers@[crate::data::frame_count_prefix(frame_counts@, a) + f]@,
                ),
    {
        let ghost counts = frame_counts@;
        let mut sheet = Spritesheet::new();
        let mut g: usize = 0;
        let n = frame_counts.len();
        for a in 0..n
            invariant
                n == counts.len(),
                counts == frame_counts@,
                crate::data::nonnegative_counts(counts),
                crate::data::frame_count_prefix(counts, n as int) == buffers@.len(),
                forall|i: int|
                    0 <= i < buffers@.len() ==> (#[trigger] buffers@[i])@.len()
                        == FRAME_BYTE_COUNT,
                g == crate::data::frame_count_prefix(counts, a as int),
                g <= buffers@.len(),
                sheet@.len() == a,
                sheet_wf(sheet@),
                forall|a2: int| 0 <= a2 < a ==> (#[trigger] sheet@[a2]).len() == counts[a2],
                forall|a2: int, f: int|
                    0 <= a2 < a && 0 <= f < sheet@[a2].len() ==> #[trigger] sheet@[a2][f]
                        == spec_decode_frame(
                        buffers@[crate::data::frame_count_prefix(counts, a2) + f]@,
                    ),
        {
            proof {
                crate::data::lemma_frame_count_prefix_monotonic(counts, a + 1, n as int);
            }
            let count = frame_counts[a];
            let count_usize: usize = count as usize;
            let ghost base = g as int;
            let mut animation = Animation::new();
            let mut f: usize = 0;
            while f < count_usize
                invariant
                    count_usize == counts[a as int],
                    0 <= a < counts.len(),
                    f <= count_usize,
                    forall|i: int|
                        0 <= i < buffers@.len() ==> (#[trigger] buffers@[i])@.len()
                            == FRAME_BYTE_COUNT,
                    base == crate::data::frame_count_prefix(counts, a as int),
                    base + count_usize <= buffers@.len(),
                    g == base + f,
                    animation@.len() == f,
                    animation_wf(animation@),
                    forall|f2: int|
                        0 <= f2 < f ==> #[trigger] animation@[f2] == spec_decode_frame(
                            buffers@[base + f2]@,
                        ),
                decreases count_usize - f,
            {
                proof {
                    assert(buffers.len() == buffers@.len());
                }
                let frame = Frame::decode(buffers[g].as_slice());
                let ghost pre = animation@;
                animation.frames.push(frame);
                proof {
                    assert(animation@ =~= pre.push(frame@));
                }
                g = g + 1;
                f = f + 1;
            }
            let ghost pre_sheet = sheet@;
            sheet.animations.push(animation);
            proof {
                assert(sheet@ =~= pre_sheet.push(animation@));
            }
        }
        sheet
    }
}

/// Decoding an encoded frame reproduces the frame exactly: the two section
/// permutations are inverse, and each pair of pixel values below 16 is
/// recovered from the byte that packs them.
pub proof fn lemma_frame_round_trip(f: Seq<Seq<u8>>)
    requires
        frame_wf(f),
    ensures
        spec_decode_frame(spec_encode_frame(f)) == f,
{
    let buf = spec_encode_frame(f);
    assert forall|s: int, p: int| 0 <= s < 36 && 0 <= p < 64 implies spec_decode_frame(
        buf,
    )[s][p] == f[s][p] by {
        lemma_grid_stream_inverse(s);
        let e = spec_grid_to_stream(s);
        let j = e * 32 + p / 2;
        lemma_fundamental_div_mod_converse(j, 32, e, p / 2);
        let lo = f[s][2 * (p / 2)];
        let hi = f[s][2 * (p / 2) + 1];
        assert(buf[j] == lo | (hi << 4));
        assert((lo | (hi << 4)) & 0x0f == lo && (lo | (hi << 4)) >> 4 == hi) by (bit_vector)
            requires
                lo < 16,
                hi < 16,
        ;
        lemma_fundamental_div_mod_converse(p, 2, p / 2, p % 2);
    }
    assert forall|s: int| 0 <= s < 36 implies spec_decode_frame(buf)[s] == f[s] by {
        assert(spec_decode_frame(buf)[s] =~= f[s]);
    }
    assert(spec_decode_frame(buf) =~= f);
}

} // verus!
