use color_engine::renderer::frame::write_pixels;
use color_engine::{Color, Frame, Renderer};

const RED: Color = Color { r: 255, g: 0, b: 0, a: 255 };
const INK: Color = Color { r: 1, g: 2, b: 3, a: 4 };
const CLEAR: Color = Color { r: 0, g: 0, b: 0, a: 0 };

#[test]
fn new_frame_is_transparent_black() {
    let f = Frame::new(3, 2);
    assert_eq!(f.width(), 3);
    assert_eq!(f.height(), 2);
    assert_eq!(f.as_slice(), &[0u8; 24][..]);
    assert_eq!(f.get_pixel(2, 1), Some(CLEAR));
}

#[test]
fn empty_frame() {
    let f = Frame::new(0, 7);
    assert_eq!(f.as_slice().len(), 0);
    assert_eq!(f.get_pixel(0, 0), None);
    assert!(!f.in_bounds(0, 0));
}

#[test]
fn large_frame() {
    let f = Frame::new(300, 200);
    assert_eq!(f.as_slice().len(), 240000);
    assert_eq!(f.get_pixel(299, 199), Some(CLEAR));
    assert_eq!(f.get_pixel(300, 199), None);
}

#[test]
fn get_pixel_outside() {
    let f = Frame::new(3, 2);
    assert_eq!(f.get_pixel(3, 0), None);
    assert_eq!(f.get_pixel(0, 2), None);
    assert!(f.in_bounds(2, 1));
    assert!(!f.in_bounds(3, 1));
}

#[test]
fn bytes_are_row_major() {
    let mut f = Frame::new(2, 2);
    {
        let b = f.as_bytes_mut();
        let mut i = 0;
        while i < b.len() {
            b[i] = i as u8;
            i += 1;
        }
    }
    assert_eq!(f.get_pixel(0, 0), Some(Color::from_rgba([0, 1, 2, 3])));
    assert_eq!(f.get_pixel(1, 0), Some(Color::from_rgba([4, 5, 6, 7])));
    assert_eq!(f.get_pixel(0, 1), Some(Color::from_rgba([8, 9, 10, 11])));
    assert_eq!(f.get_pixel(1, 1), Some(Color::from_rgba([12, 13, 14, 15])));
}

#[test]
fn frame_clear_sets_every_pixel() {
    let mut f = Frame::new(2, 3);
    f.clear(INK);
    assert_eq!(f.as_slice(), &[1, 2, 3, 4, 1, 2, 3, 4, 1, 2, 3, 4, 1, 2, 3, 4, 1, 2, 3, 4, 1, 2, 3, 4][..]);
}

#[test]
fn write_pixels_leaves_the_rest() {
    let mut b = [9u8; 14];
    write_pixels(&mut b, 1, 2, INK);
    assert_eq!(b, [9, 9, 9, 9, 1, 2, 3, 4, 1, 2, 3, 4, 9, 9]);
    write_pixels(&mut b, 3, 0, RED);
    assert_eq!(b, [9, 9, 9, 9, 1, 2, 3, 4, 1, 2, 3, 4, 9, 9]);
}

#[test]
fn renderer_clear() {
    let mut r = Renderer::new(Vec::new());
    let mut f = Frame::new(2, 1);
    r.clear(&mut f, RED);
    assert_eq!(f.as_slice(), &[255, 0, 0, 255, 255, 0, 0, 255][..]);
}

#[test]
fn renderer_set_pixel() {
    let mut r = Renderer::new(Vec::new());
    let mut f = Frame::new(3, 2);
    r.set_pixel(&mut f, 1, 1, INK);
    assert_eq!(f.get_pixel(1, 1), Some(INK));
    assert_eq!(f.get_pixel(0, 1), Some(CLEAR));
    assert_eq!(f.get_pixel(2, 1), Some(CLEAR));
    assert_eq!(f.get_pixel(1, 0), Some(CLEAR));
    assert_eq!(&f.as_slice()[16..20], &[1, 2, 3, 4][..]);
    r.set_pixel(&mut f, 3, 0, RED);
    r.set_pixel(&mut f, 0, 2, RED);
    let mut expected = [0u8; 24];
    expected[16..20].copy_from_slice(&[1, 2, 3, 4]);
    assert_eq!(f.as_slice(), &expected[..]);
}

#[test]
fn renderer_hspan() {
    let mut r = Renderer::new(Vec::new());
    let mut f = Frame::new(4, 2);
    r.hspan(&mut f, 1, 1, 3, INK);
    assert_eq!(f.get_pixel(0, 1), Some(CLEAR));
    assert_eq!(f.get_pixel(1, 1), Some(INK));
    assert_eq!(f.get_pixel(2, 1), Some(INK));
    assert_eq!(f.get_pixel(3, 1), Some(CLEAR));
    assert_eq!(f.get_pixel(1, 0), Some(CLEAR));
    // the ends may come in either order
    r.hspan(&mut f, 0, 4, 2, RED);
    assert_eq!(f.get_pixel(1, 0), Some(CLEAR));
    assert_eq!(f.get_pixel(2, 0), Some(RED));
    assert_eq!(f.get_pixel(3, 0), Some(RED));
}

#[test]
fn renderer_hspan_outside_changes_nothing() {
    let mut r = Renderer::new(Vec::new());
    let mut f = Frame::new(4, 2);
    r.hspan(&mut f, 2, 0, 4, RED);
    r.hspan(&mut f, 0, 2, 2, RED);
    r.hspan(&mut f, 0, 1, 5, RED);
    r.hspan(&mut f, 1, 7, 9, RED);
    assert_eq!(f.as_slice(), &[0u8; 32][..]);
}

#[test]
fn renderer_rect_draws_one_row() {
    let mut r = Renderer::new(Vec::new());
    let mut f = Frame::new(4, 3);
    r.rect(&mut f, 1, 0, 3, 2, INK);
    assert_eq!(f.get_pixel(1, 0), Some(INK));
    assert_eq!(f.get_pixel(2, 0), Some(INK));
    assert_eq!(f.get_pixel(0, 0), Some(CLEAR));
    assert_eq!(f.get_pixel(3, 0), Some(CLEAR));
    assert_eq!(f.get_pixel(1, 1), Some(CLEAR));
    let mut g = Frame::new(4, 3);
    r.rect(&mut g, 1, 2, 3, 2, INK);
    assert_eq!(g.as_slice(), &[0u8; 48][..]);
}

#[test]
fn renderer_cursor() {
    let mut one = Renderer::new(vec![Frame::new(1, 1)]);
    assert_eq!(one.current().width(), 1);
    let mut two = Renderer::new(vec![Frame::new(1, 1), Frame::new(2, 2)]);
    assert_eq!(two.current().width(), 1);
    two.advance();
    assert_eq!(two.current().width(), 1);
}
