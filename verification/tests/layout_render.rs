use bitscreen::canvas::Screen;
use bitscreen::layout::{flip_exempt, flip_vertical, intensity_on, Glyph};
use bitscreen::transport::{DriverError, HidAdapter};

struct NullAdapter;

impl HidAdapter for NullAdapter {
    fn write(&self, data: &[u8]) -> Result<usize, DriverError> {
        Ok(data.len())
    }
}

fn blank(width: usize, height: usize) -> Screen<NullAdapter> {
    Screen::from_device(NullAdapter, width, height).unwrap()
}

#[test]
fn flip_vertical_reverses_rows() {
    let bitmap = vec![1u8, 2, 3, 4, 5, 6];
    assert_eq!(flip_vertical(&bitmap, 2, 3), vec![5, 6, 3, 4, 1, 2]);
    assert_eq!(flip_vertical(&bitmap, 3, 2), vec![4, 5, 6, 1, 2, 3]);
    assert_eq!(flip_vertical(&bitmap, 6, 1), bitmap);
}

#[test]
fn intensity_threshold_is_half_scale() {
    assert!(!intensity_on(0));
    assert!(!intensity_on(127));
    assert!(intensity_on(128));
    assert!(intensity_on(255));
}

#[test]
fn only_the_full_stop_is_flip_exempt() {
    assert!(flip_exempt('.'));
    assert!(!flip_exempt('a'));
    assert!(!flip_exempt(':'));
    assert!(!flip_exempt(' '));
}

#[test]
fn draw_letter_flips_the_bitmap() {
    let mut s = blank(16, 8);
    // rows top-to-bottom: [255, 0] then [0, 255]
    let glyph = Glyph { ch: 'a', width: 2, height: 2, data: vec![255, 0, 0, 255] };
    s.draw_letter(&glyph, 0, 0);
    // flipped before compositing: row 0 becomes [0, 255], row 1 [255, 0]
    assert!(!s.get_pixel(0, 0));
    assert!(s.get_pixel(1, 0));
    assert!(s.get_pixel(0, 1));
    assert!(!s.get_pixel(1, 1));
}

#[test]
fn draw_letter_full_stop_is_not_flipped() {
    let mut s = blank(16, 8);
    let glyph = Glyph { ch: '.', width: 2, height: 2, data: vec![255, 0, 0, 255] };
    s.draw_letter(&glyph, 4, 0);
    assert!(s.get_pixel(4, 0));
    assert!(!s.get_pixel(5, 0));
    assert!(!s.get_pixel(4, 1));
    assert!(s.get_pixel(5, 1));
}

#[test]
fn draw_letter_overwrites_covered_pixels() {
    let mut s = blank(16, 8);
    s.fill_all();
    let glyph = Glyph { ch: 'a', width: 2, height: 1, data: vec![0, 0] };
    s.draw_letter(&glyph, 0, 0);
    assert!(!s.get_pixel(0, 0));
    assert!(!s.get_pixel(1, 0));
    assert!(s.get_pixel(2, 0));
}

#[test]
fn draw_letter_clips_silently() {
    let mut s = blank(16, 8);
    let glyph = Glyph { ch: 'a', width: 2, height: 2, data: vec![255; 4] };
    s.draw_letter(&glyph, -1, -1);
    assert!(s.get_pixel(0, 0));
    assert!(!s.get_pixel(1, 0));
    assert!(!s.get_pixel(0, 1));
}

#[test]
fn draw_text_advances_by_width_plus_spacing() {
    let mut s = blank(16, 8);
    let a = Glyph { ch: 'a', width: 2, height: 1, data: vec![255, 255] };
    let b = Glyph { ch: 'b', width: 2, height: 1, data: vec![255, 255] };
    s.draw_text(&vec![a, b], 0, 0, 1);
    assert!(s.get_pixel(0, 0));
    assert!(s.get_pixel(1, 0));
    assert!(!s.get_pixel(2, 0)); // the spacing column stays clear
    assert!(s.get_pixel(3, 0));
    assert!(s.get_pixel(4, 0));
    assert!(!s.get_pixel(5, 0));
}

#[test]
fn render_centered_leaves_balanced_margins() {
    let mut s = blank(16, 8);
    let bar = Glyph { ch: 'a', width: 10, height: 1, data: vec![255; 10] };
    s.render_centered(&vec![bar], 0, 0);
    // span of 10 on a width of 16: starts at x = 3, margins 3 and 3
    for x in 0..16usize {
        assert_eq!(s.get_pixel(x, 0), (3..13).contains(&x));
    }
}

#[test]
fn render_centered_clips_spans_wider_than_the_canvas() {
    let mut s = blank(16, 8);
    let bar = Glyph { ch: 'a', width: 20, height: 1, data: vec![255; 20] };
    s.render_centered(&vec![bar], 0, 0);
    // starting x is -2; every canvas pixel of the row is covered
    for x in 0..16usize {
        assert!(s.get_pixel(x, 0));
    }
}
