use rust_kvm_os::le::{from_le, to_le};
use rust_kvm_os::memory::{clear_bytes, read_bytes, read_u16, read_u32, read_u64, write_bytes, write_u64};

#[test]
fn integers_are_least_significant_byte_first() {
    assert_eq!(to_le(0x0102_0304_0506_0708, 8), vec![8, 7, 6, 5, 4, 3, 2, 1]);
    assert_eq!(to_le(0x1234, 2), vec![0x34, 0x12]);
    assert_eq!(to_le(0x1_0000_0001, 4), vec![1, 0, 0, 0]);
    assert_eq!(to_le(7, 0), Vec::<u8>::new());
    assert_eq!(from_le(&[0, 0x34, 0x12, 9], 1, 2), 0x1234);
    assert_eq!(from_le(&[0xff; 8], 0, 8), u64::MAX);
}

#[test]
fn stored_words_read_back_and_leave_neighbours_alone() {
    let mut ram = vec![0xaau8; 64];
    write_u64(&mut ram, 8, 0x1122_3344_5566_7788);
    assert_eq!(read_u64(&ram, 8), 0x1122_3344_5566_7788);
    assert_eq!(read_u32(&ram, 8), 0x5566_7788);
    assert_eq!(read_u16(&ram, 14), 0x1122);
    assert_eq!(ram[7], 0xaa);
    assert_eq!(ram[16], 0xaa);
    write_u64(&mut ram, 56, 1);
    assert_eq!(read_u64(&ram, 8), 0x1122_3344_5566_7788);
    assert_eq!(ram.len(), 64);
}

#[test]
fn bytes_are_copied_and_cleared_in_place() {
    let mut ram = vec![9u8; 10];
    write_bytes(&mut ram, 2, &[1, 2, 3]);
    assert_eq!(ram, vec![9, 9, 1, 2, 3, 9, 9, 9, 9, 9]);
    clear_bytes(&mut ram, 3, 4);
    assert_eq!(ram, vec![9, 9, 1, 0, 0, 0, 0, 9, 9, 9]);
    assert_eq!(read_bytes(&ram, 1, 3), vec![9, 1, 0]);
    write_bytes(&mut ram, 10, &[]);
    assert_eq!(ram.len(), 10);
}

#[test]
fn bytes_survive_decoding_and_encoding() {
    let bytes = [0xde, 0, 0xbe, 0xef, 1];
    assert_eq!(to_le(from_le(&bytes, 0, 5), 5), bytes.to_vec());
}
