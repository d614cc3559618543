use vstd::prelude::*;

verus! {

/// Mirroring of a drawn texture.
#[derive(Debug, Clone, Copy, PartialEq, Eq, Structural)]
pub enum Flip {
    Neither,
    Horizontal,
    Vertical,
    Both,
}

impl Default for Flip {
    fn default() -> (f: Flip)
        ensures
            f == Flip::Neither,
    {
        Flip::Neither
    }
}

/// Uniforms of the advanced shader.
#[derive(Debug, Clone, Copy, Hash, PartialEq, Eq, Structural)]
pub enum AdvancedUniformName {
    View,
    Model,
    OutlineColor,
    OutlineThickness,
    BackgroundColor,
    Effect,
    IsGrayscale,
    T,
}

impl AdvancedUniformName {
    /// The uniform's name in the shader source.
    pub fn as_str(&self) -> (r: &'static str)
        ensures
            *self == AdvancedUniformName::View ==> r@ == "view"@,
            *self == AdvancedUniformName::Model ==> r@ == "model"@,
            *self == AdvancedUniformName::OutlineColor ==> r@ == "outline_color"@,
            *self == AdvancedUniformName::OutlineThickness ==> r@ == "outline_thickness"@,
            *self == AdvancedUniformName::Effect ==> r@ == "effect"@,
            *self == AdvancedUniformName::BackgroundColor ==> r@ == "background_color"@,
            *self == AdvancedUniformName::IsGrayscale ==> r@ == "is_grayscale"@,
            *self == AdvancedUniformName::T ==> r@ == "t"@,
    {
        match self {
            AdvancedUniformName::View => "view",
            AdvancedUniformName::Model => "model",
            AdvancedUniformName::OutlineColor => "outline_color",
            AdvancedUniformName::OutlineThickness => "outline_thickness",
            AdvancedUniformName::Effect => "effect",
            AdvancedUniformName::BackgroundColor => "background_color",
            AdvancedUniformName::IsGrayscale => "is_grayscale",
            AdvancedUniformName::T => "t",
        }
    }
}

/// Uniforms of the vanilla shader.
#[derive(Debug, Clone, Copy, Hash, PartialEq, Eq, Structural)]
pub enum VanillaUniformName {
    View,
    Model,
    IsGrayscale,
}

impl VanillaUniformName {
    /// The uniform's name in the shader source.
    pub fn as_str(&self) -> (r: &'static str)
        ensures
            *self == VanillaUniformName::View ==> r@ == "view"@,
            *self == VanillaUniformName::Model ==> r@ == "model"@,
            *self == VanillaUniformName::IsGrayscale ==> r@ == "is_grayscale"@,
    {
        match self {
            VanillaUniformName::View => "view",
            VanillaUniformName::Model => "model",
            VanillaUniformName::IsGrayscale => "is_grayscale",
        }
    }
}

} // verus!
