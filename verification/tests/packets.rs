use bitscreen::canvas::Screen;
use bitscreen::packet::{DataPacket, PAYLOAD_SIZE};
use bitscreen::transport::{DriverError, HidAdapter};

struct NullAdapter;

impl HidAdapter for NullAdapter {
    fn write(&self, data: &[u8]) -> Result<usize, DriverError> {
        Ok(data.len())
    }
}

fn blank(width: usize, height: usize) -> Screen<NullAdapter> {
    Screen::from_device(NullAdapter, width, height).unwrap()
}

#[test]
fn report_bytes_layout() {
    let p = DataPacket::new(3, vec![7u8; PAYLOAD_SIZE - 2]);
    let bytes = p.to_bytes();
    assert_eq!(bytes.len(), PAYLOAD_SIZE);
    assert_eq!(bytes[0], 1);
    assert_eq!(bytes[1], 3);
    assert!(bytes[2..].iter().all(|b| *b == 7));
    assert_eq!(p.index(), 3);
}

#[test]
fn packet_equality_is_structural() {
    let a = DataPacket::new(1, vec![5u8; PAYLOAD_SIZE - 2]);
    let b = DataPacket::new(1, vec![5u8; PAYLOAD_SIZE - 2]);
    let c = DataPacket::new(2, vec![5u8; PAYLOAD_SIZE - 2]);
    let mut other = vec![5u8; PAYLOAD_SIZE - 2];
    other[10] = 6;
    let d = DataPacket::new(1, other);
    assert!(a == b);
    assert!(a != c);
    assert!(a != d);
}

#[test]
fn packet_count_is_ceiling_of_bytes_over_payload() {
    // 16x8 canvas: 16 bytes, one 30-byte payload.
    assert_eq!(blank(16, 8).to_packets().len(), 1);
    // 32x16 canvas: 64 bytes -> ceil(64/30) = 3 packets.
    assert_eq!(blank(32, 16).to_packets().len(), 3);
    // 240 bytes exactly fill 8 packets.
    assert_eq!(blank(48, 40).to_packets().len(), 8);
}

#[test]
fn packet_indices_ascend_from_zero() {
    let packets = blank(32, 16).to_packets();
    for (i, p) in packets.iter().enumerate() {
        assert_eq!(p.index() as usize, i);
        assert_eq!(p.to_bytes()[1] as usize, i);
    }
}

#[test]
fn packetization_is_deterministic() {
    let mut s = blank(32, 16);
    s.set_pixel(5, 3, true);
    s.set_pixel(20, 11, true);
    let first = s.to_packets();
    let second = s.to_packets();
    assert!(first == second);
}

#[test]
fn sixteen_byte_canvas_yields_one_zero_padded_packet() {
    // End-to-end: a 16x8 canvas holds 16 bytes; with a 30-byte payload that
    // is exactly one packet of index 0, the 16 real bytes followed by 14
    // zero bytes.
    let mut s = blank(16, 8);
    s.set_pixel(0, 0, true);
    let packets = s.to_packets();
    assert_eq!(packets.len(), 1);
    let bytes = packets[0].to_bytes();
    assert_eq!(bytes.len(), 32);
    assert_eq!(bytes[0], 1); // report type
    assert_eq!(bytes[1], 0); // packet index
    // pixel (0, 0) sits in byte 0 under bit index 7, mask 0x01
    assert_eq!(bytes[2], 0x01);
    assert!(bytes[3..18].iter().all(|b| *b == 0)); // remaining real bytes
    assert!(bytes[18..].iter().all(|b| *b == 0)); // zero padding
}

#[test]
fn fill_all_packets_carry_full_bytes_and_padding() {
    let mut s = blank(16, 8);
    s.fill_all();
    let packets = s.to_packets();
    assert_eq!(packets.len(), 1);
    let bytes = packets[0].to_bytes();
    assert!(bytes[2..18].iter().all(|b| *b == 0xFF));
    assert!(bytes[18..].iter().all(|b| *b == 0));
}
