use vstd::prelude::*;

verus! {

/// An error that might happen when drawing something.
#[derive(Debug, Clone, Copy, PartialEq, Eq, Structural)]
pub enum SprowlError {
    MissingTextureId(u32),
    MissingFontId(u32),
}

} // verus!
