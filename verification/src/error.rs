use vstd::prelude::*;

verus! {

/// Errors surfaced by the codec layer.
///
/// `PaletteOverflow` carries the image coordinates of the first pixel whose
/// color would have grown the palette beyond its 16 entries.
#[derive(Copy, Clone, Debug, PartialEq, Eq, Structural)]
pub enum CodecError {
    PaletteNotFound,
    SpritesheetNotFound,
    PaletteOverflow { x: usize, y: usize },
}

} // verus!
