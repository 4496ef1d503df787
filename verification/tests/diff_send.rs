use std::cell::RefCell;
use std::rc::Rc;

use bitscreen::canvas::{packets_to_send, Screen};
use bitscreen::packet::DataPacket;
use bitscreen::transport::{DriverError, HidAdapter};

struct RecordingAdapter {
    log: Rc<RefCell<Vec<Vec<u8>>>>,
}

impl HidAdapter for RecordingAdapter {
    fn write(&self, data: &[u8]) -> Result<usize, DriverError> {
        self.log.borrow_mut().push(data.to_vec());
        Ok(data.len())
    }
}

struct FailingAdapter;

impl HidAdapter for FailingAdapter {
    fn write(&self, _data: &[u8]) -> Result<usize, DriverError> {
        Err(DriverError::TransportWriteFailure)
    }
}

fn recording(width: usize, height: usize) -> (Screen<RecordingAdapter>, Rc<RefCell<Vec<Vec<u8>>>>) {
    let log = Rc::new(RefCell::new(Vec::new()));
    let adapter = RecordingAdapter { log: Rc::clone(&log) };
    (Screen::from_device(adapter, width, height).unwrap(), log)
}

#[test]
fn first_send_transmits_every_packet() {
    let (mut s, log) = recording(32, 16);
    s.send().unwrap();
    let writes = log.borrow();
    assert_eq!(writes.len(), 3);
    for (i, report) in writes.iter().enumerate() {
        assert_eq!(report.len(), 32);
        assert_eq!(report[0], 1);
        assert_eq!(report[1] as usize, i);
    }
}

#[test]
fn resending_an_unmodified_canvas_transmits_nothing() {
    let (mut s, log) = recording(32, 16);
    s.set_pixel(4, 4, true);
    s.send().unwrap();
    let after_first = log.borrow().len();
    s.send().unwrap();
    assert_eq!(log.borrow().len(), after_first);
}

#[test]
fn one_changed_pixel_retransmits_exactly_its_chunk() {
    // 32x16 canvas: 64 bytes, three chunks. Pixel (16, 7) lives in byte
    // (7*32 + 16) / 8 = 30, the first byte of chunk 1.
    let (mut s, log) = recording(32, 16);
    s.send().unwrap();
    assert_eq!(log.borrow().len(), 3);
    s.set_pixel(16, 7, true);
    s.send().unwrap();
    let writes = log.borrow();
    assert_eq!(writes.len(), 4);
    assert_eq!(writes[3][1], 1); // only the packet with index 1 went out
}

#[test]
fn reverting_a_change_retransmits_its_chunk_again() {
    let (mut s, log) = recording(16, 8);
    s.set_pixel(2, 2, true);
    s.send().unwrap();
    s.set_pixel(2, 2, false);
    s.send().unwrap();
    let writes = log.borrow();
    assert_eq!(writes.len(), 2);
    assert_eq!(writes[1][1], 0);
}

#[test]
fn packets_to_send_filters_by_membership() {
    let (s, _log) = recording(32, 16);
    let current = s.to_packets();
    let previous = s.to_packets();
    assert_eq!(packets_to_send(current, &previous).len(), 0);
    let current = s.to_packets();
    let empty_previous: Vec<DataPacket> = Vec::new();
    assert_eq!(packets_to_send(current, &empty_previous).len(), 3);
}

#[test]
fn write_failure_surfaces_as_transport_write_failure() {
    let mut s = Screen::from_device(FailingAdapter, 16, 8).unwrap();
    assert_eq!(s.send(), Err(DriverError::TransportWriteFailure));
}

#[test]
fn send_after_failure_starts_from_the_stored_baseline() {
    // Even a failed frame becomes the baseline: a second identical frame
    // transmits nothing, so it succeeds trivially.
    let mut s = Screen::from_device(FailingAdapter, 16, 8).unwrap();
    assert!(s.send().is_err());
    assert_eq!(s.send(), Ok(()));
}
