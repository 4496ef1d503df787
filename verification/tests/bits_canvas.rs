use bitscreen::bits::{get_bit_at_index, set_bit_at_index};
use bitscreen::canvas::Screen;
use bitscreen::transport::{DriverError, HidAdapter};

struct NullAdapter;

impl HidAdapter for NullAdapter {
    fn write(&self, data: &[u8]) -> Result<usize, DriverError> {
        Ok(data.len())
    }
}

fn blank(width: usize, height: usize) -> Screen<NullAdapter> {
    Screen::from_device(NullAdapter, width, height).unwrap()
}

#[test]
fn bit_get_exact_values() {
    // 0b1010_0000: bit 0 (mask 0x80) and bit 2 (mask 0x20) are set.
    assert!(get_bit_at_index(0b1010_0000, 0));
    assert!(!get_bit_at_index(0b1010_0000, 1));
    assert!(get_bit_at_index(0b1010_0000, 2));
    assert!(!get_bit_at_index(0b1010_0000, 7));
    assert!(get_bit_at_index(0b0000_0001, 7));
}

#[test]
fn bit_set_exact_values() {
    assert_eq!(set_bit_at_index(0, 0, true), 0x80);
    assert_eq!(set_bit_at_index(0, 7, true), 0x01);
    assert_eq!(set_bit_at_index(0xFF, 0, false), 0x7F);
    assert_eq!(set_bit_at_index(0xFF, 7, false), 0xFE);
    assert_eq!(set_bit_at_index(0x40, 1, true), 0x40);
}

#[test]
fn bit_set_then_get_round_trip() {
    for i in 0..8u8 {
        assert!(get_bit_at_index(set_bit_at_index(0, i, true), i));
        assert!(!get_bit_at_index(set_bit_at_index(0xFF, i, false), i));
    }
}

#[test]
fn pixel_round_trip_and_isolation() {
    let mut s = blank(16, 8);
    s.set_pixel(3, 2, true);
    assert!(s.get_pixel(3, 2));
    // no other pixel was altered
    for x in 0..16usize {
        for y in 0..8usize {
            if (x, y) != (3, 2) {
                assert!(!s.get_pixel(x, y));
            }
        }
    }
    s.set_pixel(3, 2, false);
    assert!(!s.get_pixel(3, 2));
}

#[test]
fn out_of_range_set_pixel_is_a_no_op() {
    let mut s = blank(16, 8);
    s.set_pixel(2, 5, true);
    let before: Vec<Vec<u8>> = s.to_packets().iter().map(|p| p.to_bytes()).collect();
    s.set_pixel(-1, 0, true);
    s.set_pixel(0, -1, true);
    s.set_pixel(16, 0, true);
    s.set_pixel(0, 8, true);
    s.set_pixel(1000, 1000, false);
    let after: Vec<Vec<u8>> = s.to_packets().iter().map(|p| p.to_bytes()).collect();
    assert_eq!(before, after);
}

#[test]
fn clear_and_fill_all() {
    let mut s = blank(16, 8);
    s.fill_all();
    for x in 0..16usize {
        for y in 0..8usize {
            assert!(s.get_pixel(x, y));
        }
    }
    s.clear();
    for x in 0..16usize {
        for y in 0..8usize {
            assert!(!s.get_pixel(x, y));
        }
    }
}

#[test]
fn paint_region_fills_rectangle_only() {
    let mut s = blank(16, 8);
    s.paint_region(1, 0, 3, 2, true);
    for x in 0..16isize {
        for y in 0..8isize {
            let inside = (1..3).contains(&x) && (0..2).contains(&y);
            assert_eq!(s.get_pixel(x as usize, y as usize), inside);
        }
    }
}

#[test]
fn paint_region_clips_outside_canvas() {
    let mut s = blank(16, 8);
    s.paint_region(-2, -2, 2, 2, true);
    for x in 0..16usize {
        for y in 0..8usize {
            let inside = x < 2 && y < 2;
            assert_eq!(s.get_pixel(x, y), inside);
        }
    }
}

#[test]
fn screen_dimensions() {
    let s = blank(16, 8);
    assert_eq!(s.width(), 16);
    assert_eq!(s.height(), 8);
}
