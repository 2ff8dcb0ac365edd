//! Integers as bytes, low byte first.
use lz4_rs::block::table::low_byte_first;
use lz4_rs::bytes::{read_le32, read_le64, write_le32, write_le64};

#[test]
fn what_is_written_is_read_back() {
    let mut buf = [0xEEu8; 12];
    write_le32(&mut buf, 1, 0x0403_0201);
    assert_eq!(buf[..6], [0xEE, 1, 2, 3, 4, 0xEE]);
    assert_eq!(read_le32(&buf, 1), 0x0403_0201);
    write_le64(&mut buf, 4, 0x1122_3344_5566_7788);
    assert_eq!(buf[4..], [0x88, 0x77, 0x66, 0x55, 0x44, 0x33, 0x22, 0x11]);
    assert_eq!(read_le64(&buf, 4), 0x1122_3344_5566_7788);
}

#[test]
fn the_byte_order_is_told_from_the_layout_of_one() {
    assert!(low_byte_first([1, 0]));
    assert!(!low_byte_first([0, 1]));
    assert_eq!(low_byte_first(1u16.to_ne_bytes()), host_order());
}

fn host_order() -> bool {
    u32::from_ne_bytes([1, 0, 0, 0]) == 1
}
