use vstd::prelude::*;

verus! {

/// Pixel format of a texture array.
#[derive(Debug, Clone, Copy, PartialEq, Eq, Structural)]
pub enum TextureKind {
    Grayscale,
    RGBA,
}

} // verus!
