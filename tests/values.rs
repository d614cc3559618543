use sprowl::bitmap::ByteArray2d;
use sprowl::color::Color;
use sprowl::render_storage::TextureKind;
use sprowl::shader::{AdvancedUniformName, Flip, VanillaUniformName};
use sprowl::utils::{Origin, Shape};
use sprowl::error::SprowlError;

#[test]
fn colors_fill_missing_channels() {
    let c = Color::<u8>::from_rgb(1, 2, 3);
    assert_eq!(c.rgba(), (1, 2, 3, 255));
    assert_eq!(c.with_alpha(9).rgba(), (1, 2, 3, 9));
    assert_eq!(Color::from_rgba(4u8, 5, 6, 7).with_opaque().rgba(), (4, 5, 6, 255));
    assert_eq!(Color::<u8>::white().rgba(), (255, 255, 255, 255));
    assert_eq!(Color::<u8>::black().rgba(), (0, 0, 0, 255));
    assert_eq!(Color::from_rgba(4u8, 5, 6, 7).rgb(), (4, 5, 6));
}

#[test]
fn origins_and_shapes() {
    assert_eq!(Origin::new(), Origin::TopLeft(0, 0));
    assert_eq!(Origin::default(), Origin::TopLeft(0, 0));
    assert_eq!(Origin::Center.compute_relative_origin((9, 20)), (4, 10));
    assert_eq!(Origin::TopLeft(3, -2).compute_relative_origin((9, 20)), (3, -2));
    assert_eq!(Shape::Rect(4, 5).max_size(), (4, 5));
    assert_eq!(Shape::Circle(6).max_size(), (6, 6));
}

#[test]
fn byte_grid_is_row_major() {
    let mut grid = ByteArray2d::zeros(2, 3);
    assert_eq!(grid.as_slice(), &[0u8; 6][..]);
    assert_eq!(grid.get_vec_index(1, 2), 5);
    grid.set(1, 2, 9);
    grid.set(0, 1, 4);
    assert_eq!(grid.index(1, 2), 9);
    assert_eq!(grid.as_slice(), &[0u8, 4, 0, 0, 0, 9][..]);
}

#[test]
fn uniform_names_and_kinds() {
    assert_eq!(AdvancedUniformName::OutlineThickness.as_str(), "outline_thickness");
    assert_eq!(AdvancedUniformName::T.as_str(), "t");
    assert_eq!(VanillaUniformName::IsGrayscale.as_str(), "is_grayscale");
    assert_eq!(Flip::default(), Flip::Neither);
    assert_ne!(TextureKind::Grayscale, TextureKind::RGBA);
    assert_ne!(SprowlError::MissingFontId(1), SprowlError::MissingTextureId(1));
}
