use vstd::prelude::*;

verus! {

/// A channel type with a fixed range of valid values.
pub trait ColorType: Copy + Sized {
    spec fn spec_max() -> Self;

    spec fn spec_min() -> Self;

    /// The brightest value of a channel.
    fn color_max() -> (r: Self)
        ensures
            r == Self::spec_max(),
    ;

    /// The darkest value of a channel.
    fn color_min() -> (r: Self)
        ensures
            r == Self::spec_min(),
    ;
}

/// Channels from 0 to 255.
impl ColorType for u8 {
    open spec fn spec_max() -> u8 {
        255
    }

    open spec fn spec_min() -> u8 {
        0
    }

    fn color_max() -> (r: u8) {
        255
    }

    fn color_min() -> (r: u8) {
        0
    }
}

/// A color with red, green, blue and alpha channels.
#[derive(Debug, Clone, Copy)]
pub struct Color<T: ColorType> {
    pub r: T,
    pub g: T,
    pub b: T,
    pub a: T,
}

impl<T: ColorType> Color<T> {
    pub fn from_rgba(r: T, g: T, b: T, a: T) -> (c: Color<T>)
        ensures
            c.r == r && c.g == g && c.b == b && c.a == a,
    {
        Color { r, g, b, a }
    }

    /// An opaque color.
    pub fn from_rgb(r: T, g: T, b: T) -> (c: Color<T>)
        ensures
            c.r == r && c.g == g && c.b == b && c.a == T::spec_max(),
    {
        Color { r, g, b, a: T::color_max() }
    }

    pub fn with_alpha(self, a: T) -> (c: Color<T>)
        ensures
            c.r == self.r && c.g == self.g && c.b == self.b && c.a == a,
    {
        Color { a, ..self }
    }

    pub fn with_opaque(self) -> (c: Color<T>)
        ensures
            c.r == self.r && c.g == self.g && c.b == self.b && c.a == T::spec_max(),
    {
        Color { a: T::color_max(), ..self }
    }

    pub fn rgb(self) -> (t: (T, T, T))
        ensures
            t == (self.r, self.g, self.b),
    {
        (self.r, self.g, self.b)
    }

    pub fn rgba(self) -> (t: (T, T, T, T))
        ensures
            t == (self.r, self.g, self.b, self.a),
    {
        (self.r, self.g, self.b, self.a)
    }

    pub fn white() -> (c: Color<T>)
        ensures
            c.r == T::spec_max() && c.g == T::spec_max() && c.b == T::spec_max() && c.a
                == T::spec_max(),
    {
        Color { r: T::color_max(), g: T::color_max(), b: T::color_max(), a: T::color_max() }
    }

    pub fn black() -> (c: Color<T>)
        ensures
            c.r == T::spec_min() && c.g == T::spec_min() && c.b == T::spec_min() && c.a
                == T::spec_max(),
    {
        Color { r: T::color_min(), g: T::color_min(), b: T::color_min(), a: T::color_max() }
    }
}

} // verus!
