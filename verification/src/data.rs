use vstd::prelude::*;

verus! {

/// Per-character metadata: a lookup key plus the byte offsets and
/// per-animation frame counts that locate its data inside the ROM image.
/// The codec treats a value of this type as read-only input.
pub struct Character {
    pub name: String,
    pub palette_offset: u64,
    pub text_offsets: (i32, i32),
    pub sprite_offset: i32,
    pub sprite_frames: Vec<i32>,
}

/// The sum of the first `k` frame counts.
pub open spec fn frame_count_prefix(frames: Seq<i32>, k: int) -> int
    decreases k,
{
    if k <= 0 {
        0
    } else {
        frame_count_prefix(frames, k - 1) + frames[k - 1]
    }
}

/// Every frame count is non-negative.
pub open spec fn nonnegative_counts(frames: Seq<i32>) -> bool {
    forall|i: int| 0 <= i < frames.len() ==> frames[i] >= 0
}

/// With non-negative counts, prefix sums grow with their length.
pub proof fn lemma_frame_count_prefix_monotonic(frames: Seq<i32>, k1: int, k2: int)
    requires
        nonnegative_counts(frames),
        0 <= k1 <= k2 <= frames.len(),
    ensures
        frame_count_prefix(frames, k1) <= frame_count_prefix(frames, k2),
    decreases k2 - k1,
{
    if k1 < k2 {
        lemma_frame_count_prefix_monotonic(frames, k1, k2 - 1);
    }
}

/// For each animation of a character, the byte offset where its frames start
/// and its frame count. Each frame occupies 0x480 bytes, so an animation's
/// data begins 0x480 bytes per preceding frame after the character's sprite
/// offset.
pub fn compute_sprite_offsets(character: &Character) -> (data: Vec<(i32, i32)>)
    requires
        nonnegative_counts(character.sprite_frames@),
        character.sprite_offset >= 0,
        character.sprite_offset + 0x480 * frame_count_prefix(
            character.sprite_frames@,
            character.sprite_frames@.len() as int,
        ) <= i32::MAX,
    ensures
        data@.len() == character.sprite_frames@.len(),
        forall|k: int|
            0 <= k < data@.len() ==> #[trigger] data@[k] == (
            (character.sprite_offset + 0x480 * frame_count_prefix(
                character.sprite_frames@,
                k,
            )) as i32,
            character.sprite_frames@[k],
            ),
{
    let mut data: Vec<(i32, i32)> = Vec::new();
    let mut o: i32 = 0;
    let n = character.sprite_frames.len();
    for idx in 0..n
        invariant
            n == character.sprite_frames@.len(),
            nonnegative_counts(character.sprite_frames@),
            character.sprite_offset >= 0,
            character.sprite_offset + 0x480 * frame_count_prefix(
                character.sprite_frames@,
                n as int,
            ) <= i32::MAX,
            o == frame_count_prefix(character.sprite_frames@, idx as int),
            data@.len() == idx,
            forall|k: int|
                0 <= k < idx ==> #[trigger] data@[k] == (
                (character.sprite_offset + 0x480 * frame_count_prefix(
                    character.sprite_frames@,
                    k,
                )) as i32,
                character.sprite_frames@[k],
                ),
    {
        proof {
            lemma_frame_count_prefix_monotonic(character.sprite_frames@, 0, idx as int);
            lemma_frame_count_prefix_monotonic(
                character.sprite_frames@,
                idx as int,
                n as int,
            );
            lemma_frame_count_prefix_monotonic(
                character.sprite_frames@,
                idx + 1,
                n as int,
            );
            assert(frame_count_prefix(character.sprite_frames@, idx + 1)
                == frame_count_prefix(character.sprite_frames@, idx as int)
                + character.sprite_frames@[idx as int]);
        }
        let frame = character.sprite_frames[idx];
        data.push((character.sprite_offset + 0x480 * o, frame));
        o = o + frame;
    }
    data
}

} // verus!
