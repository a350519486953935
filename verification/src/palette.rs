use crate::color::{in_rgb24_range, spec_from_gba, spec_to_gba, Color, GBAColorCache};
use crate::error::CodecError;
use crate::store::{lemma_same_names_same_contains, lemma_unique_lookup};
use vstd::prelude::*;

verus! {

/// Decode a raw 32-byte palette block into 16 packed colors. Each two-byte
/// pair is reassembled with the second byte as the high byte:
/// `(pair[1] << 8) | pair[0]`.
pub fn decode_raw(bytes: &[u8]) -> (colors: Vec<i32>)
    requires
        bytes@.len() == 32,
    ensures
        colors@.len() == 16,
        forall|i: int|
            0 <= i < 16 ==> #[trigger] colors@[i] == bytes@[2 * i + 1] * 256 + bytes@[2 * i],
{
    let mut colors: Vec<i32> = Vec::new();
    for i in 0..16usize
        invariant
            bytes@.len() == 32,
            colors@.len() == i,
            forall|j: int|
                0 <= j < i ==> #[trigger] colors@[j] == bytes@[2 * j + 1] * 256 + bytes@[2 * j],
    {
        let a: i32 = bytes[2 * i] as i32;
        let b: i32 = bytes[2 * i + 1] as i32;
        assert((b << 8) | a == b * 256 + a) by (bit_vector)
            requires
                0 <= a < 256 && 0 <= b < 256,
        ;
        colors.push((b << 8) | a);
    }
    colors
}

/// Encode 16 packed colors into a raw 32-byte palette block.
///
/// Note: this byte split (`value & 0xF0`, `value & 0x0F`) reproduces the
/// ROM writer's historical layout and does not invert `decode_raw`, so a
/// read-modify-write round trip over a palette block is not
/// value-preserving. Which layout is authoritative is deliberately left
/// open; callers relying on a round trip must pick one side.
pub fn encode_raw(colors: &Vec<i32>) -> (bytes: Vec<u8>)
    requires
        colors@.len() == 16,
    ensures
        bytes@.len() == 32,
        forall|i: int|
            0 <= i < 16 ==> #[trigger] bytes@[2 * i] == (colors@[i] & 0xF0) as u8 && bytes@[2 * i
                + 1] == (colors@[i] & 0x0F) as u8,
{
    let mut bytes: Vec<u8> = Vec::new();
    for i in 0..16usize
        invariant
            colors@.len() == 16,
            bytes@.len() == 2 * i,
            forall|j: int|
                0 <= j < i ==> #[trigger] bytes@[2 * j] == (colors@[j] & 0xF0) as u8 && bytes@[2
                    * j + 1] == (colors@[j] & 0x0F) as u8,
    {
        let v: i32 = colors[i];
        assert(0 <= (v & 0xF0) <= 240 && 0 <= (v & 0x0F) <= 15) by (bit_vector);
        bytes.push((v & 0xF0) as u8);
        bytes.push((v & 0x0F) as u8);
    }
    bytes
}

/// Keeper of the per-character palettes, keyed by character name, together
/// with the memoizing color converter used when palettes cross between the
/// packed and the RGB representation.
pub struct PaletteManager {
    color_cache: GBAColorCache,
    palettes: Vec<(String, Vec<i32>)>,
}

impl PaletteManager {
    /// The stored palettes as (name, packed colors) pairs.
    pub closed spec fn entries(self) -> Seq<(Seq<char>, Seq<i32>)> {
        self.palettes@.map_values(|p: (String, Vec<i32>)| (p.0@, p.1@))
    }

    pub closed spec fn cache_wf(self) -> bool {
        self.color_cache.wf()
    }

    /// Names are unique, and the memoized conversions are correct.
    pub open spec fn wf(self) -> bool {
        &&& self.cache_wf()
        &&& forall|i: int, j: int|
            0 <= i < j < self.entries().len() ==> (#[trigger] self.entries()[i]).0 != (
            #[trigger] self.entries()[j]).0
    }

    /// A palette is stored under `name`.
    pub open spec fn spec_contains(self, name: Seq<char>) -> bool {
        exists|i: int|
            0 <= i < self.entries().len() && (#[trigger] self.entries()[i]).0 == name
    }

    /// The packed palette stored under `name`.
    pub open spec fn spec_palette(self, name: Seq<char>) -> Seq<i32> {
        let i = choose|i: int|
            0 <= i < self.entries().len() && (#[trigger] self.entries()[i]).0 == name;
        self.entries()[i].1
    }

    pub fn new() -> (manager: PaletteManager)
        ensures
            manager.wf(),
            manager.entries().len() == 0,
    {
        PaletteManager { color_cache: GBAColorCache::new(), palettes: Vec::new() }
    }

    /// The index at which `name` is stored, if any.
    fn find(&self, name: &String) -> (r: Option<usize>)
        ensures
            match r {
                Some(i) => i < self.entries().len() && self.entries()[i as int].0 == name@,
                None => !self.spec_contains(name@),
            },
    {
        let n = self.palettes.len();
        let mut i: usize = 0;
        while i < n
            invariant
                i <= n,
                n == self.palettes@.len(),
                forall|j: int| 0 <= j < i ==> (#[trigger] self.entries()[j]).0 != name@,
            decreases n - i,
        {
            if self.palettes[i].0 == *name {
                assert(self.entries()[i as int].0 == name@);
                return Some(i);
            }
            assert(self.entries()[i as int].0 != name@);
            i = i + 1;
        }
        None
    }

    /// Store a palette of packed colors under `name`, replacing any palette
    /// already stored there.
    pub fn store_palette_i32(&mut self, name: String, colors: Vec<i32>)
        requires
            old(self).wf(),
        ensures
            final(self).wf(),
            final(self).spec_contains(name@),
            final(self).spec_palette(name@) == colors@,
            forall|n2: Seq<char>|
                n2 != name@ ==> final(self).spec_contains(n2) == old(self).spec_contains(n2),
            forall|n2: Seq<char>|
                n2 != name@ && old(self).spec_contains(n2) ==> final(self).spec_palette(n2) == old(
                    self,
                ).spec_palette(n2),
    {
        let found = self.find(&name);
        match found {
            Some(i) => {
                self.palettes[i] = (name, colors);
                proof {
                    assert(self.entries() =~= old(self).entries().update(
                        i as int,
                        (old(self).entries()[i as int].0, colors@),
                    ));
                    assert forall|j: int| 0 <= j < self.entries().len() implies (
                    #[trigger] self.entries()[j]).0 == old(self).entries()[j].0 by {}
                    lemma_unique_lookup(self.entries(), i as int);
                    assert forall|n2: Seq<char>| n2 != name@ implies self.spec_contains(n2)
                        == old(self).spec_contains(n2) by {
                        lemma_same_names_same_contains(old(self).entries(), self.entries(), n2);
                    }
                    assert forall|n2: Seq<char>|
                        n2 != name@ && old(self).spec_contains(n2) implies self.spec_palette(n2)
                        == old(self).spec_palette(n2) by {
                        let j = choose|j: int|
                            0 <= j < old(self).entries().len() && (#[trigger] old(
                                self,
                            ).entries()[j]).0 == n2;
                        lemma_unique_lookup(old(self).entries(), j);
                        assert(j != i);
                        assert(self.entries()[j] == old(self).entries()[j]);
                        lemma_unique_lookup(self.entries(), j);
                    }
                }
            },
            None => {
                self.palettes.push((name, colors));
                proof {
                    assert(self.entries() =~= old(self).entries().push((name@, colors@)));
                    assert forall|j: int| 0 <= j < old(self).entries().len() implies (
                    #[trigger] self.entries()[j]).0 != name@ by {
                        assert(old(self).entries()[j].0 != name@);
                    }
                    lemma_unique_lookup(self.entries(), old(self).entries().len() as int);
                    assert forall|n2: Seq<char>| n2 != name@ implies self.spec_contains(n2)
                        == old(self).spec_contains(n2) by {
                        if self.spec_contains(n2) {
                            let j = choose|j: int|
                                0 <= j < self.entries().len() && (#[trigger] self.entries()[j]).0
                                    == n2;
                            assert(j < old(self).entries().len());
                            assert(old(self).entries()[j].0 == n2);
                        }
                        if old(self).spec_contains(n2) {
                            let j = choose|j: int|
                                0 <= j < old(self).entries().len() && (#[trigger] old(
                                    self,
                                ).entries()[j]).0 == n2;
                            assert(self.entries()[j].0 == n2);
                        }
                    }
                    assert forall|n2: Seq<char>|
                        n2 != name@ && old(self).spec_contains(n2) implies self.spec_palette(n2)
                        == old(self).spec_palette(n2) by {
                        let j = choose|j: int|
                            0 <= j < old(self).entries().len() && (#[trigger] old(
                                self,
                            ).entries()[j]).0 == n2;
                        lemma_unique_lookup(old(self).entries(), j);
                        assert(self.entries()[j] == old(self).entries()[j]);
                        lemma_unique_lookup(self.entries(), j);
                    }
                }
            },
        }
    }

    /// Convert a palette of RGB colors to packed form and store it.
    pub fn store_palette_colors(&mut self, name: String, colors: Vec<Color>)
        requires
            old(self).wf(),
            forall|i: int| 0 <= i < colors@.len() ==> in_rgb24_range(#[trigger] colors@[i]),
        ensures
            final(self).wf(),
            final(self).spec_contains(name@),
            final(self).spec_palette(name@) == colors@.map_values(|c: Color| spec_to_gba(c)),
            forall|n2: Seq<char>|
                n2 != name@ ==> final(self).spec_contains(n2) == old(self).spec_contains(n2),
            forall|n2: Seq<char>|
                n2 != name@ && old(self).spec_contains(n2) ==> final(self).spec_palette(n2) == old(
                    self,
                ).spec_palette(n2),
    {
        let n = colors.len();
        let mut gba_colors: Vec<i32> = Vec::new();
        let mut i: usize = 0;
        while i < n
            invariant
                i <= n,
                n == colors@.len(),
                self.wf(),
                self.entries() == old(self).entries(),
                forall|j: int| 0 <= j < n ==> in_rgb24_range(#[trigger] colors@[j]),
                gba_colors@.len() == i,
                forall|j: int|
                    0 <= j < i ==> #[trigger] gba_colors@[j] == spec_to_gba(colors@[j]),
            decreases n - i,
        {
            let c = colors[i];
            gba_colors.push(self.color_cache.to_gba(c));
            i = i + 1;
        }
        assert(gba_colors@ =~= colors@.map_values(|c: Color| spec_to_gba(c)));
        self.store_palette_i32(name, gba_colors);
    }

    /// Load the packed palette stored under `name`.
    pub fn load_palette_i32(&self, name: String) -> (r: Result<Vec<i32>, CodecError>)
        requires
            self.wf(),
        ensures
            match r {
                Ok(colors) => self.spec_contains(name@) && colors@ == self.spec_palette(name@),
                Err(e) => !self.spec_contains(name@) && e == CodecError::PaletteNotFound,
            },
    {
        match self.find(&name) {
            Some(i) => {
                proof {
                    lemma_unique_lookup(self.entries(), i as int);
                }
                let stored = &self.palettes[i].1;
                let m = stored.len();
                let mut colors: Vec<i32> = Vec::new();
                let mut j: usize = 0;
                while j < m
                    invariant
                        j <= m,
                        m == stored@.len(),
                        colors@ == stored@.take(j as int),
                    decreases m - j,
                {
                    colors.push(stored[j]);
                    assert(colors@ =~= stored@.take(j + 1));
                    j = j + 1;
                }
                assert(colors@ =~= stored@);
                Ok(colors)
            },
            None => Err(CodecError::PaletteNotFound),
        }
    }

    /// Load the palette stored under `name`, converted to RGB colors.
    pub fn load_palette_colors(&mut self, name: String) -> (r: Result<Vec<Color>, CodecError>)
        requires
            old(self).wf(),
        ensures
            final(self).wf(),
            final(self).entries() == old(self).entries(),
            match r {
                Ok(colors) => old(self).spec_contains(name@) && colors@ == old(self).spec_palette(
                    name@,
                ).map_values(|v: i32| spec_from_gba(v)),
                Err(e) => !old(self).spec_contains(name@) && e == CodecError::PaletteNotFound,
            },
    {
        match self.load_palette_i32(name) {
            Ok(values) => {
                let n = values.len();
                let mut colors: Vec<Color> = Vec::new();
                let mut i: usize = 0;
                while i < n
                    invariant
                        i <= n,
                        n == values@.len(),
                        self.wf(),
                        self.entries() == old(self).entries(),
                        colors@.len() == i,
                        forall|j: int|
                            0 <= j < i ==> #[trigger] colors@[j] == spec_from_gba(values@[j]),
                    decreases n - i,
                {
                    let v = values[i];
                    colors.push(self.color_cache.from_gba(v));
                    i = i + 1;
                }
                assert(colors@ =~= values@.map_values(|v: i32| spec_from_gba(v)));
                Ok(colors)
            },
            Err(e) => Err(e),
        }
    }
}

} // verus!
