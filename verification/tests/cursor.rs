use class_dump::chained::decode_chained_pointer;
use class_dump::consts::{
    DYLD_CHAINED_PTR_64, DYLD_CHAINED_PTR_64_OFFSET, DYLD_CHAINED_PTR_ARM64E, DYLD_CHAINED_PTR_ARM64E_USERLAND,
    DYLD_CHAINED_PTR_ARM64E_USERLAND24,
};
use class_dump::cursor::{cstring_at, ByteOrder, Cursor};
use class_dump::uleb::{read_sleb128, read_uleb128};

#[test]
fn reads_little_endian_integers() {
    let data = [0x01u8, 0x02, 0x03, 0x04, 0x05, 0x06, 0x07, 0x08, 0x09];
    let mut c = Cursor::new(&data, ByteOrder::Little, 8);
    assert_eq!(c.read_u8(), 0x01);
    assert_eq!(c.read_u16(), 0x0302);
    assert_eq!(c.offset(), 3);
    c.set_offset(0);
    assert_eq!(c.read_u32(), 0x04030201);
    c.set_offset(1);
    assert_eq!(c.read_u64(), 0x0908070605040302);
    assert!(c.is_at_end());
    assert_eq!(c.remaining(), 0);
}

#[test]
fn reads_big_endian_integers() {
    let data = [0x01u8, 0x02, 0x03, 0x04, 0x05, 0x06, 0x07, 0x08];
    let mut c = Cursor::new(&data, ByteOrder::Big, 4);
    assert_eq!(c.read_u16(), 0x0102);
    c.set_offset(0);
    assert_eq!(c.read_u32(), 0x01020304);
    c.set_offset(0);
    assert_eq!(c.read_u64(), 0x0102030405060708);
    c.set_offset(0);
    assert_eq!(c.read_ptr(), 0x01020304);
}

#[test]
fn magic_is_read_big_endian_whatever_the_order() {
    let data = [0xCFu8, 0xFA, 0xED, 0xFE];
    let mut c = Cursor::new(&data, ByteOrder::Little, 8);
    assert_eq!(c.read_be_u32(), 0xCFFAEDFE);
}

#[test]
fn pointer_size_selects_width() {
    let data = [0x11u8, 0x22, 0x33, 0x44, 0x55, 0x66, 0x77, 0x88];
    let mut c = Cursor::new(&data, ByteOrder::Little, 8);
    assert_eq!(c.read_ptr(), 0x8877665544332211);
    assert_eq!(c.offset(), 8);
    let mut c4 = Cursor::new(&data, ByteOrder::Little, 4);
    assert_eq!(c4.read_ptr(), 0x44332211);
    assert_eq!(c4.offset(), 4);
}

#[test]
fn reads_past_the_end_give_zero_bytes() {
    let data = [0xAAu8, 0xBB];
    let mut c = Cursor::at(&data, ByteOrder::Little, 8, 1);
    assert_eq!(c.read_u32(), 0xBB);
    assert_eq!(c.offset(), 5);
    assert_eq!(c.read_u8(), 0);
    assert_eq!(c.remaining(), 0);
    let mut d = Cursor::at(&data, ByteOrder::Little, 8, 1);
    assert_eq!(d.read_bytes(4), &[0xBBu8][..]);
}

#[test]
fn advance_moves_the_offset() {
    let data = [0u8; 10];
    let mut c = Cursor::new(&data, ByteOrder::Little, 8);
    c.advance(4);
    assert_eq!(c.offset(), 4);
    assert_eq!(c.remaining(), 6);
    assert!(!c.is_at_end());
}

#[test]
fn fixed_string_stops_at_nul() {
    let data = *b"__TEXT\0\0\0\0\0\0\0\0\0\0rest";
    let mut c = Cursor::new(&data, ByteOrder::Little, 8);
    assert_eq!(c.read_fixed_string(16), b"__TEXT".to_vec());
    assert_eq!(c.offset(), 16);
    let full = *b"0123456789abcdef";
    let mut d = Cursor::new(&full, ByteOrder::Little, 8);
    assert_eq!(d.read_fixed_string(16), b"0123456789abcdef".to_vec());
}

#[test]
fn cstring_reads_to_nul_or_end() {
    let data = b"abc\0def";
    assert_eq!(cstring_at(data, 0), Some(b"abc".to_vec()));
    assert_eq!(cstring_at(data, 4), Some(b"def".to_vec()));
    assert_eq!(cstring_at(data, 3), Some(Vec::new()));
    assert_eq!(cstring_at(data, 7), None);
}

#[test]
fn cstring_replaces_invalid_utf8() {
    let data = [b'a', 0xFF, b'b', 0];
    assert_eq!(cstring_at(&data, 0), Some("a\u{FFFD}b".as_bytes().to_vec()));
}

#[test]
fn uleb128_decodes_and_advances() {
    let data = [0xE5u8, 0x8E, 0x26, 0x7F];
    let mut pos = 0usize;
    assert_eq!(read_uleb128(&data, &mut pos), 624485);
    assert_eq!(pos, 3);
    assert_eq!(read_uleb128(&data, &mut pos), 127);
    assert_eq!(pos, 4);
    assert_eq!(read_uleb128(&data, &mut pos), 0);
    assert_eq!(pos, 4);
}

#[test]
fn uleb128_truncated_reads_what_is_there() {
    let data = [0x80u8, 0x81];
    let mut pos = 0usize;
    assert_eq!(read_uleb128(&data, &mut pos), 1 << 7);
    assert_eq!(pos, 2);
}

#[test]
fn sleb128_decodes_negative_and_positive() {
    let data = [0xC0u8, 0xBB, 0x78, 0x02, 0x7E];
    let mut pos = 0usize;
    assert_eq!(read_sleb128(&data, &mut pos), -123456);
    assert_eq!(pos, 3);
    assert_eq!(read_sleb128(&data, &mut pos), 2);
    assert_eq!(pos, 4);
    assert_eq!(read_sleb128(&data, &mut pos), -2);
    assert_eq!(pos, 5);
}

#[test]
fn chained_pointer_64_rebase_and_bind() {
    let raw: u64 = (5u64 << 51) | 0x1234;
    assert_eq!(decode_chained_pointer(raw, DYLD_CHAINED_PTR_64, 0x1_0000_0000), (5, None, 0x1234));
    assert_eq!(
        decode_chained_pointer(raw, DYLD_CHAINED_PTR_64_OFFSET, 0x1_0000_0000),
        (5, None, 0x1_0000_1234)
    );
    let bind: u64 = (1u64 << 63) | (3u64 << 51) | 0x42;
    assert_eq!(decode_chained_pointer(bind, DYLD_CHAINED_PTR_64, 0), (3, Some(0x42), 0));
}

#[test]
fn chained_pointer_arm64e_variants() {
    let rebase: u64 = (2u64 << 51) | 0x5000;
    assert_eq!(decode_chained_pointer(rebase, DYLD_CHAINED_PTR_ARM64E, 0x1000), (2, None, 0x5000));
    assert_eq!(decode_chained_pointer(rebase, DYLD_CHAINED_PTR_ARM64E_USERLAND, 0x1000), (2, None, 0x6000));
    let auth_rebase: u64 = (1u64 << 63) | (1u64 << 51) | 0x20;
    assert_eq!(decode_chained_pointer(auth_rebase, DYLD_CHAINED_PTR_ARM64E, 0x1000), (1, None, 0x1020));
    let bind: u64 = (1u64 << 62) | 0x12_3456;
    assert_eq!(decode_chained_pointer(bind, DYLD_CHAINED_PTR_ARM64E, 0), (0, Some(0x3456), 0));
    assert_eq!(decode_chained_pointer(bind, DYLD_CHAINED_PTR_ARM64E_USERLAND24, 0), (0, Some(0x12_3456), 0));
}

#[test]
fn uleb_ten_byte_runs_are_cut_to_64_bits() {
    let mut all = vec![0xffu8; 9];
    all.push(0x01);
    let mut pos = 0usize;
    assert_eq!(read_uleb128(&all, &mut pos), u64::MAX);
    assert_eq!(pos, 10);
    let mut high = vec![0x80u8; 9];
    high.push(0x02);
    let mut pos = 0usize;
    assert_eq!(read_uleb128(&high, &mut pos), 0);
    assert_eq!(pos, 10);
}
