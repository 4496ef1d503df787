use bitscreen::canvas::Screen;
use bitscreen::layout::Glyph;
use bitscreen::timefmt::format_time_12h;
use bitscreen::transport::{is_my_device, DriverError, HidAdapter};

struct NullAdapter;

impl HidAdapter for NullAdapter {
    fn write(&self, data: &[u8]) -> Result<usize, DriverError> {
        Ok(data.len())
    }
}

fn time_string(hour: u8, minute: u8) -> String {
    format_time_12h(hour, minute).into_iter().collect()
}

#[test]
fn midnight_is_twelve_am() {
    assert_eq!(time_string(0, 5), "12:05 AM");
}

#[test]
fn noon_is_twelve_pm() {
    assert_eq!(time_string(12, 0), "12:00 PM");
}

#[test]
fn afternoon_hours_wrap_and_zero_pad() {
    assert_eq!(time_string(13, 7), "01:07 PM");
}

#[test]
fn last_minute_of_the_day() {
    assert_eq!(time_string(23, 59), "11:59 PM");
}

#[test]
fn morning_hours_keep_their_value() {
    assert_eq!(time_string(9, 30), "09:30 AM");
}

#[test]
fn draw_time_renders_the_formatted_string_centered() {
    let mut s = Screen::from_device(NullAdapter, 64, 16).unwrap();
    let chars = format_time_12h(0, 5);
    let glyphs: Vec<Glyph> = chars
        .iter()
        .map(|c| Glyph { ch: *c, width: 1, height: 1, data: vec![255] })
        .collect();
    s.draw_time(0, 5, &glyphs, 0);
    // eight one-pixel glyphs centered on a width of 64: x = 28, y = 10
    for x in 0..64usize {
        assert_eq!(s.get_pixel(x, 10), (28..36).contains(&x));
    }
    for x in 0..64usize {
        assert!(!s.get_pixel(x, 9));
        assert!(!s.get_pixel(x, 11));
    }
}

#[test]
fn device_eligibility_needs_all_three_identifiers() {
    assert!(is_my_device(0x4B42, 0x6072, 0xFF60));
    assert!(!is_my_device(0x4B43, 0x6072, 0xFF60));
    assert!(!is_my_device(0x4B42, 0x6073, 0xFF60));
    assert!(!is_my_device(0x4B42, 0x6072, 0xFF61));
}
