use pathtracer::color::{color_code, Pixel, COLOR_ONE};
use pathtracer::vector_3d::Vector3D;

fn pixel(r: u8, g: u8, b: u8) -> Pixel {
    Pixel { r, g, b }
}

#[test]
fn it_gets_the_correct_color_codes_zeroes() {
    assert_eq!(color_code(&Vector3D::empty(), 1), pixel(0, 0, 0));
}

#[test]
fn gamma_corrected_channels() {
    // 0.01, 0.5 and 0.99 of a full channel: 256 * sqrt of each, truncated.
    let color = Vector3D::new(655, 32768, 64881);
    assert_eq!(color_code(&color, 1), pixel(25, 181, 254));
}

#[test]
fn saturated_and_negative_channels_are_clamped() {
    let color = Vector3D::new(-13107, 32768, 2 * COLOR_ONE);
    assert_eq!(color_code(&color, 1), pixel(0, 181, 255));
    assert_eq!(color_code(&Vector3D::new(COLOR_ONE, COLOR_ONE, COLOR_ONE), 1), pixel(255, 255, 255));
    assert_eq!(color_code(&Vector3D::new(COLOR_ONE - 1, 0, 0), 1), pixel(255, 0, 0));
}

#[test]
fn samples_are_averaged() {
    let color = Vector3D::new(0, COLOR_ONE, 2 * COLOR_ONE);
    assert_eq!(color_code(&color, 2), pixel(0, 181, 255));
    assert_eq!(color_code(&Vector3D::new(4 * 32768, 0, 4), 4), pixel(181, 0, 1));
}
