//! Rules about the files that the pipeline reads and writes: which files
//! are meshes, and what happens to a texture on its way to the output.

use vstd::prelude::*;

verus! {

/// The ASCII lower-case form of a byte: `A` to `Z` become `a` to `z`, every
/// other byte stays.
pub open spec fn ascii_lower(b: u8) -> u8 {
    if 0x41 <= b <= 0x5a {
        (b + 0x20) as u8
    } else {
        b
    }
}

/// The bytes are `obj` in any mix of upper and lower case.
pub open spec fn spells_obj(extension: Seq<u8>) -> bool {
    &&& extension.len() == 3
    &&& ascii_lower(extension[0]) == 0x6f
    &&& ascii_lower(extension[1]) == 0x62
    &&& ascii_lower(extension[2]) == 0x6a
}

fn to_ascii_lower(b: u8) -> (lower: u8)
    ensures
        lower == ascii_lower(b),
{
    if 0x41 <= b && b <= 0x5a {
        b + 0x20
    } else {
        b
    }
}

/// True iff `extension`, a file name's part behind its last dot, marks a
/// mesh file: it reads `obj`, whatever the case of its letters.
pub fn is_obj_extension(extension: &[u8]) -> (is_obj: bool)
    ensures
        is_obj == spells_obj(extension@),
{
    extension.len() == 3 && to_ascii_lower(extension[0]) == 0x6f && to_ascii_lower(extension[1])
        == 0x62 && to_ascii_lower(extension[2]) == 0x6a
}

/// What to do with a texture that a written model refers to.
#[derive(Clone, Copy, Debug, PartialEq, Eq, Structural)]
pub enum TextureAction {
    /// The destination exists already: leave it.
    Skip,
    /// Copy the file as it is.
    Copy,
    /// Decode the image, scale it down, and save it.
    Resample,
}

/// Decides what happens to a texture: one whose destination exists is
/// skipped, whatever the factor; else a factor of 1 means a plain copy and
/// any other factor a resampling.
pub fn texture_action(destination_exists: bool, downscale_factor: u32) -> (action: TextureAction)
    ensures
        action == if destination_exists {
            TextureAction::Skip
        } else if downscale_factor == 1 {
            TextureAction::Copy
        } else {
            TextureAction::Resample
        },
{
    if destination_exists {
        TextureAction::Skip
    } else if downscale_factor == 1 {
        TextureAction::Copy
    } else {
        TextureAction::Resample
    }
}

/// The size of an image of `width` by `height` pixels scaled down by
/// `downscale_factor`: each side divided by the factor, rounded down.
pub fn downscaled_size(width: u32, height: u32, downscale_factor: u32) -> (size: (u32, u32))
    requires
        downscale_factor > 0,
    ensures
        size.0 == width / downscale_factor,
        size.1 == height / downscale_factor,
{
    (width / downscale_factor, height / downscale_factor)
}

} // verus!
