use class_dump::macho::MachOFile;

fn put(data: &mut Vec<u8>, off: usize, bytes: &[u8]) {
    if data.len() < off + bytes.len() {
        data.resize(off + bytes.len(), 0);
    }
    data[off..off + bytes.len()].copy_from_slice(bytes);
}

fn put32(data: &mut Vec<u8>, off: usize, v: u32) {
    put(data, off, &v.to_le_bytes());
}

fn put64(data: &mut Vec<u8>, off: usize, v: u64) {
    put(data, off, &v.to_le_bytes());
}

/// A 64-bit header, a `__DATA` segment at 0x1000 mapping the file from
/// offset 0, and one more load command `extra` (of `extra_size` bytes).
fn with_segment(extra: &[u8]) -> Vec<u8> {
    let mut d = vec![0u8; 0x400];
    put32(&mut d, 0, 0xfeed_facf);
    put32(&mut d, 4, 0x0100_000c);
    put32(&mut d, 12, 6);
    put32(&mut d, 16, 2);
    put32(&mut d, 20, 72 + extra.len() as u32);
    put32(&mut d, 32, 0x19);
    put32(&mut d, 36, 72);
    put(&mut d, 40, b"__DATA");
    put64(&mut d, 56, 0x1000);
    put64(&mut d, 64, 0x1000);
    put64(&mut d, 72, 0);
    put64(&mut d, 80, 0x400);
    put(&mut d, 104, extra);
    d
}

#[test]
fn bind_opcodes_name_the_bound_addresses() {
    let mut cmd = Vec::new();
    cmd.extend_from_slice(&0x8000_0022u32.to_le_bytes());
    cmd.extend_from_slice(&48u32.to_le_bytes());
    for v in [0u32, 0, 0x300, 0x40, 0, 0, 0, 0, 0, 0] {
        cmd.extend_from_slice(&v.to_le_bytes());
    }
    let mut d = with_segment(&cmd);
    let mut ops = vec![0x70u8, 0x88, 0x04, 0x40];
    ops.extend_from_slice(b"_OBJC_CLASS_$_NSObject\0");
    ops.extend_from_slice(&[0x90, 0xB1, 0x40]);
    ops.extend_from_slice(b"_other\0");
    ops.extend_from_slice(&[0xC0, 0x02, 0x08, 0x00]);
    put(&mut d, 0x300, &ops);
    let f = MachOFile::parse(d, b"binds".to_vec()).unwrap();
    assert!(f.has_relocation_entry_for_address(0x1208));
    assert!(f.has_relocation_entry_for_address(0x1210));
    assert!(!f.has_relocation_entry_for_address(0x1218));
    assert_eq!(f.external_class_name_for_address(0x1208), Some(b"NSObject".to_vec()));
    assert_eq!(f.external_class_name_for_address(0x1210), Some(b"NSObject".to_vec()));
    assert_eq!(f.external_class_name_for_address(0x1220), Some(b"_other".to_vec()));
    assert_eq!(f.external_class_name_for_address(0x1230), Some(b"_other".to_vec()));
    assert_eq!(f.external_class_name_for_address(0x1240), None);
}

/// An image whose chained-fixups blob names one segment with pointer format
/// `format`: a rebase chained to a bind of `_OBJC_CLASS_$_NSObject`.
fn chained_image(format: u16) -> Vec<u8> {
    let mut cmd = Vec::new();
    cmd.extend_from_slice(&0x8000_0034u32.to_le_bytes());
    cmd.extend_from_slice(&16u32.to_le_bytes());
    cmd.extend_from_slice(&0x300u32.to_le_bytes());
    cmd.extend_from_slice(&0x80u32.to_le_bytes());
    let mut d = with_segment(&cmd);
    put64(&mut d, 0x200, (2u64 << 51) | 0x1234);
    put64(&mut d, 0x208, 1u64 << 63);
    let blob = 0x300;
    put32(&mut d, blob + 4, 0x20);
    put32(&mut d, blob + 8, 0x40);
    put32(&mut d, blob + 12, 0x48);
    put32(&mut d, blob + 16, 1);
    put32(&mut d, blob + 20, 1);
    put32(&mut d, blob + 0x20, 1);
    put32(&mut d, blob + 0x24, 8);
    put32(&mut d, blob + 0x28, 24);
    put(&mut d, blob + 0x2c, &0x1000u16.to_le_bytes());
    put(&mut d, blob + 0x2e, &format.to_le_bytes());
    put64(&mut d, blob + 0x30, 0x1000);
    put(&mut d, blob + 0x3c, &1u16.to_le_bytes());
    put(&mut d, blob + 0x3e, &0x200u16.to_le_bytes());
    put32(&mut d, blob + 0x40, 1);
    put(&mut d, blob + 0x48, b"_OBJC_CLASS_$_NSObject\0");
    d
}

#[test]
fn chained_fixups_rebase_and_bind_in_place() {
    let f = MachOFile::parse(chained_image(2), b"chained".to_vec()).unwrap();
    assert_eq!(&f.data[0x200..0x208], &0x1234u64.to_le_bytes());
    assert_eq!(&f.data[0x208..0x210], &0u64.to_le_bytes());
    assert!(!f.has_relocation_entry_for_address(0x1200));
    assert_eq!(f.external_class_name_for_address(0x1208), Some(b"NSObject".to_vec()));
    assert!(f.unsupported_chain_formats.is_empty());
}

#[test]
fn chained_fixups_skip_unsupported_pointer_format() {
    let original = chained_image(3);
    let f = MachOFile::parse(original.clone(), b"chained".to_vec()).unwrap();
    assert_eq!(f.unsupported_chain_formats, vec![3u16]);
    assert_eq!(f.data, original);
    assert!(!f.has_relocation_entry_for_address(0x1208));
    assert_eq!(f.external_class_name_for_address(0x1208), None);
}
