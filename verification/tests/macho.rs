use class_dump::header::file_comment_block;
use class_dump::macho::MachOFile;
use class_dump::objc::Processor;
use class_dump::output::{dump, Options};

fn le32(v: &mut Vec<u8>, x: u32) {
    v.extend_from_slice(&x.to_le_bytes());
}

fn le64(v: &mut Vec<u8>, x: u64) {
    v.extend_from_slice(&x.to_le_bytes());
}

/// A little-endian arm64 dylib with a UUID, an id, a source version and a
/// run path, and no segments.
fn small_dylib() -> Vec<u8> {
    let mut cmds = Vec::new();
    le32(&mut cmds, 0x1b);
    le32(&mut cmds, 24);
    cmds.extend_from_slice(&[
        0x00, 0x11, 0x22, 0x33, 0x44, 0x55, 0x66, 0x77, 0x88, 0x99, 0xaa, 0xbb, 0xcc, 0xdd, 0xee, 0xff,
    ]);
    le32(&mut cmds, 0xd);
    le32(&mut cmds, 40);
    le32(&mut cmds, 24);
    le32(&mut cmds, 0);
    le32(&mut cmds, 0x0001_0203);
    le32(&mut cmds, 0x0001_0000);
    cmds.extend_from_slice(b"libx.dylib\0\0\0\0\0\0");
    le32(&mut cmds, 0x2a);
    le32(&mut cmds, 16);
    le64(&mut cmds, (1u64 << 40) | (2u64 << 30) | (3u64 << 20) | (4u64 << 10) | 5);
    le32(&mut cmds, 0x8000_001c);
    le32(&mut cmds, 40);
    le32(&mut cmds, 12);
    cmds.extend_from_slice(b"@loader_path/Frameworks\0\0\0\0\0");
    let mut data = Vec::new();
    le32(&mut data, 0xfeed_facf);
    le32(&mut data, 0x0100_000c);
    le32(&mut data, 0);
    le32(&mut data, 6);
    le32(&mut data, 4);
    le32(&mut data, cmds.len() as u32);
    le32(&mut data, 0);
    le32(&mut data, 0);
    data.extend_from_slice(&cmds);
    data
}

const COMMENT_BLOCK: &str = "#pragma mark -\n\n//\n// File: /tmp/libx.dylib\n// UUID: 00112233-4455-6677-8899-AABBCCDDEEFF\n//\n//                           Arch: arm64\n//                Current version: 1.2.3\n//          Compatibility version: 1.0.0\n//                 Source version: 1.2.3.4.5\n//\n//                       Run path: @loader_path/Frameworks\n//                               = /tmp/Frameworks\n//\n";

#[test]
fn parses_header_and_load_commands() {
    let f = MachOFile::parse(small_dylib(), b"/tmp/libx.dylib".to_vec()).unwrap();
    assert!(f.uses64);
    assert_eq!(f.cputype, 0x0100_000c);
    assert_eq!(f.filetype, 6);
    assert_eq!(f.ncmds, 4);
    assert_eq!(f.ptr_size(), 8);
    assert_eq!(
        f.uuid,
        Some(vec![0x00, 0x11, 0x22, 0x33, 0x44, 0x55, 0x66, 0x77, 0x88, 0x99, 0xaa, 0xbb, 0xcc, 0xdd, 0xee, 0xff])
    );
    let id = f.dylib_id.as_ref().unwrap();
    assert_eq!(id.name, b"libx.dylib".to_vec());
    assert_eq!(id.current_version, 0x0001_0203);
    assert_eq!(id.compatibility_version, 0x0001_0000);
    assert_eq!(f.source_version, Some((1u64 << 40) | (2u64 << 30) | (3u64 << 20) | (4u64 << 10) | 5));
    assert_eq!(f.run_paths, vec![b"@loader_path/Frameworks".to_vec()]);
    assert!(f.segments.is_empty());
    assert!(!f.has_objc2_data());
    assert!(!f.has_objc1_data());
    assert!(!f.has_encryption);
}

#[test]
fn rejects_short_data_and_unknown_magic() {
    assert!(MachOFile::parse(vec![0xcf, 0xfa, 0xed], b"x".to_vec()).is_none());
    assert!(MachOFile::parse(vec![0xca, 0xfe, 0xba, 0xbe, 0, 0, 0, 0], b"fat".to_vec()).is_none());
    assert!(MachOFile::parse(vec![0, 0, 0, 0], b"zero".to_vec()).is_none());
}

#[test]
fn big_endian_header_is_recognised() {
    let mut data = Vec::new();
    data.extend_from_slice(&0xfeed_faceu32.to_be_bytes());
    data.extend_from_slice(&18u32.to_be_bytes());
    data.extend_from_slice(&0u32.to_be_bytes());
    data.extend_from_slice(&2u32.to_be_bytes());
    data.extend_from_slice(&0u32.to_be_bytes());
    data.extend_from_slice(&0u32.to_be_bytes());
    data.extend_from_slice(&0u32.to_be_bytes());
    let f = MachOFile::parse(data, b"ppc".to_vec()).unwrap();
    assert!(!f.uses64);
    assert_eq!(f.cputype, 18);
    assert_eq!(f.filetype, 2);
    assert_eq!(f.ptr_size(), 4);
}

#[test]
fn comment_block_lists_versions_and_run_paths() {
    let f = MachOFile::parse(small_dylib(), b"/tmp/libx.dylib".to_vec()).unwrap();
    assert_eq!(String::from_utf8(file_comment_block(&f)).unwrap(), COMMENT_BLOCK);
}

#[test]
fn image_without_objc_metadata_is_empty() {
    let f = MachOFile::parse(small_dylib(), b"/tmp/libx.dylib".to_vec()).unwrap();
    let mut p = Processor::new(&f);
    let image = p.process();
    assert!(image.classes.is_empty());
    assert!(image.categories.is_empty());
    assert!(image.protocols.is_empty());
}

#[test]
fn dump_of_image_without_objc_metadata() {
    let f = MachOFile::parse(small_dylib(), b"/tmp/libx.dylib".to_vec()).unwrap();
    let mut p = Processor::new(&f);
    let image = p.process();
    let out = dump(&f, &image, &Options { sort_methods: false });
    let expected = String::from("//\n//     Generated by class-dump 3.5.1 (64 bit).\n//\n//  Copyright (C) 1997-2019 Steve Nygard.\n//\n\n")
        + COMMENT_BLOCK
        + "\n";
    assert_eq!(String::from_utf8(out).unwrap(), expected);
}
