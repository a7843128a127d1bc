use graphics::colors::Color;
use graphics::frame::Frame;
use graphics::render::Textures;
use graphics::textures::{Texture, TextureFilterMode};

const RED: Color = Color { r: 255, g: 0, b: 0, a: 255 };
const GREEN: Color = Color { r: 0, g: 255, b: 0, a: 255 };
const BLUE: Color = Color { r: 0, g: 0, b: 255, a: 255 };
const WHITE: Color = Color { r: 255, g: 255, b: 255, a: 255 };

fn two_by_two() -> Texture {
    let mut frame = Frame::new(2, 2, WHITE);
    frame.set(0, 0, RED);
    frame.set(1, 0, GREEN);
    frame.set(0, 1, BLUE);
    frame.set(1, 1, WHITE);
    Texture::create(frame)
}

/// A texture whose every pixel tells its own place.
fn numbered(width: usize, height: usize) -> Texture {
    let mut frame = Frame::new(width, height, WHITE);
    for y in 0..height {
        for x in 0..width {
            frame.set(x, y, Color { r: x as u8, g: y as u8, b: 7, a: 255 });
        }
    }
    Texture::create(frame)
}

/// The pixel coordinate of a texture coordinate, as nearest-neighbour
/// sampling takes it.
fn nearest(t: &Texture, u: f32, v: f32) -> Color {
    let tx = (u * t.width() as f32).clamp(0.0, t.width() as f32);
    let ty = (v * t.height() as f32).clamp(0.0, t.height() as f32);
    t.sample_safely(tx as i32, ty as i32)
}

#[test]
fn texture_uv() {
    let t = two_by_two();
    assert_eq!(nearest(&t, 0.25, 0.25), RED);
    assert_eq!(nearest(&t, 0.75, 0.25), GREEN);
    assert_eq!(nearest(&t, 0.75, 0.75), WHITE);
    assert_eq!(nearest(&t, 0.25, 0.75), BLUE);
}

#[test]
fn nearest_sample_at_a_pixel_centre_is_that_pixel() {
    for (w, h) in [(1, 1), (2, 2), (5, 3), (16, 9), (100, 37)] {
        let t = numbered(w, h);
        for j in 0..h {
            for i in 0..w {
                let u = (i as f32 + 0.5) / w as f32;
                let v = (j as f32 + 0.5) / h as f32;
                assert_eq!(nearest(&t, u, v), Color { r: i as u8, g: j as u8, b: 7, a: 255 });
                assert_eq!(
                    t.sample_safely(i as i32, j as i32),
                    Color { r: i as u8, g: j as u8, b: 7, a: 255 }
                );
            }
        }
    }
}

#[test]
fn coordinates_off_the_image_are_brought_onto_it() {
    let t = two_by_two();
    assert_eq!(t.sample_safely(-1, -1), RED);
    assert_eq!(t.sample_safely(i32::MIN, 0), RED);
    assert_eq!(t.sample_safely(2, 0), GREEN);
    assert_eq!(t.sample_safely(i32::MAX, -5), GREEN);
    assert_eq!(t.sample_safely(-3, 9), BLUE);
    assert_eq!(t.sample_safely(2, 2), WHITE);
    assert_eq!(t.sample_safely(i32::MAX, i32::MAX), WHITE);
    assert_eq!(nearest(&t, 1.0, 1.0), WHITE);
    assert_eq!(nearest(&t, -4.0, 7.0), BLUE);
}

#[test]
fn constrain_brings_a_value_into_a_range() {
    assert_eq!(Texture::constrain(5, 0, 9), 5);
    assert_eq!(Texture::constrain(-1, 0, 9), 0);
    assert_eq!(Texture::constrain(10, 0, 9), 9);
    assert_eq!(Texture::constrain(0, 0, 9), 0);
    assert_eq!(Texture::constrain(9, 0, 9), 9);
    assert_eq!(Texture::constrain(i32::MIN, -3, 3), -3);
    assert_eq!(Texture::constrain(i32::MAX, -3, 3), 3);
    // The upper end is tested first.
    assert_eq!(Texture::constrain(5, 7, 2), 2);
    assert_eq!(Texture::constrain(1, 7, 2), 7);
}

#[test]
fn neighbors_are_the_four_pixels_round_a_corner() {
    let t = two_by_two();
    assert_eq!(t.neighbors(1, 1), [RED, GREEN, BLUE, WHITE]);
    assert_eq!(t.neighbors(0, 0), [RED, RED, RED, RED]);
    assert_eq!(t.neighbors(2, 2), [WHITE, WHITE, WHITE, WHITE]);
    assert_eq!(t.neighbors(1, 0), [RED, GREEN, RED, GREEN]);
    assert_eq!(t.neighbors(0, 1), [RED, RED, BLUE, BLUE]);
    assert_eq!(t.neighbors(i32::MIN, i32::MIN), [RED, RED, RED, RED]);
    let n = numbered(4, 4);
    let at = |x: u8, y: u8| Color { r: x, g: y, b: 7, a: 255 };
    assert_eq!(n.neighbors(2, 3), [at(1, 2), at(2, 2), at(1, 3), at(2, 3)]);
}

#[test]
fn texture_keeps_the_size_of_its_frame() {
    let t = numbered(5, 3);
    assert_eq!(t.width(), 5);
    assert_eq!(t.height(), 3);
    let flat = Texture::create(Frame::new(7, 0, WHITE));
    assert_eq!(flat.width(), 7);
    assert_eq!(flat.height(), 0);
}

#[test]
fn filter_modes_are_distinct() {
    assert_ne!(TextureFilterMode::NearestNeighbor, TextureFilterMode::Bilinear);
}

#[test]
fn texture_table_finds_what_was_set() {
    let mut table = Textures::new();
    assert!(table.texture(Some(0)).is_none());
    assert!(table.texture(None).is_none());
    table.set_texture(0, two_by_two());
    table.set_texture(7, numbered(3, 3));
    assert_eq!(table.texture(Some(0)).unwrap().sample_safely(1, 0), GREEN);
    assert_eq!(table.texture(Some(7)).unwrap().width(), 3);
    assert!(table.texture(Some(1)).is_none());
    assert!(table.texture(None).is_none());
}

#[test]
fn texture_table_replaces_a_texture_under_the_same_number() {
    let mut table = Textures::new();
    table.set_texture(3, two_by_two());
    table.set_texture(3, numbered(4, 5));
    let found = table.texture(Some(3)).unwrap();
    assert_eq!(found.width(), 4);
    assert_eq!(found.height(), 5);
    assert_eq!(found.sample_safely(0, 0), Color { r: 0, g: 0, b: 7, a: 255 });
}
