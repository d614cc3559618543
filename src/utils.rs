use vstd::prelude::*;

verus! {

/// Where the anchor of something drawn lies, for instance the point it is
/// rotated around.
#[derive(Copy, Clone, Debug, PartialEq, Eq, Structural)]
pub enum Origin {
    Center,
    TopLeft(i32, i32),
}

impl Origin {
    pub fn new() -> (o: Origin)
        ensures
            o == Origin::TopLeft(0, 0),
    {
        Origin::TopLeft(0, 0)
    }

    /// The anchor relative to the top-left corner of something `size` large.
    pub fn compute_relative_origin(&self, size: (u32, u32)) -> (r: (i32, i32))
        ensures
            *self == Origin::Center ==> r == ((size.0 / 2) as i32, (size.1 / 2) as i32),
            self is TopLeft ==> r == (self->TopLeft_0, self->TopLeft_1),
    {
        match self {
            Origin::Center => ((size.0 / 2) as i32, (size.1 / 2) as i32),
            Origin::TopLeft(x, y) => (*x, *y),
        }
    }
}

impl Default for Origin {
    fn default() -> (o: Origin)
        ensures
            o == Origin::TopLeft(0, 0),
    {
        Origin::new()
    }
}

/// A shape drawn without a texture.
#[derive(Debug, Clone, Copy, PartialEq, Eq, Structural)]
pub enum Shape {
    Rect(u32, u32),
    Circle(u32),
}

impl Shape {
    /// Width and height of the box around the shape.
    pub fn max_size(self) -> (r: (u32, u32))
        ensures
            self is Rect ==> r == (self->Rect_0, self->Rect_1),
            self is Circle ==> r == (self->Circle_0, self->Circle_0),
    {
        match self {
            Shape::Rect(w, h) => (w, h),
            Shape::Circle(w) => (w, w),
        }
    }
}

} // verus!
