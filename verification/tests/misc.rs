use class_dump::checksum::sha1_hex;
use class_dump::dict::{Dict, Info};
use class_dump::header::{cpu_name, nibble_version, platform_name, resolve_run_path, source_version_string, tool_name, uuid_string};
use class_dump::order::{bytes_less, sort_indices, sort_names};
use class_dump::table::{has_underscore_capital_prefix, sat_add_exec};
use class_dump::text::{append_decimal, append_hex_padded};
use class_dump::typ::CDType;

fn run(f: impl FnOnce(&mut Vec<u8>)) -> String {
    let mut out = Vec::new();
    f(&mut out);
    String::from_utf8(out).unwrap()
}

#[test]
fn sha1_hex_is_lowercase_digest() {
    assert_eq!(String::from_utf8(sha1_hex(b"abc")).unwrap(), "a9993e364706816aba3e25717850c26c9cd0d89d");
    assert_eq!(String::from_utf8(sha1_hex(b"")).unwrap(), "da39a3ee5e6b4b0d3255bfef95601890afd80709");
}

#[test]
fn dict_reads_back_what_was_written() {
    let mut d = Dict::new();
    d.insert(b"k1".to_vec(), Info::new(CDType::simple(b'i')));
    d.insert(b"k2".to_vec(), Info::new(CDType::simple(b'f')));
    d.insert(b"k1".to_vec(), Info::new(CDType::simple(b'd')));
    assert_eq!(d.get(b"k1").unwrap().ty.prim, b'd');
    assert_eq!(d.get(b"k2").unwrap().ty.prim, b'f');
    assert!(d.get(b"k3").is_none());
    assert_eq!(d.keys(), vec![b"k1".to_vec(), b"k2".to_vec()]);
    assert_eq!(d.values().len(), 2);
    assert!(d.contains_key(b"k2"));
    let removed = d.remove(b"k1").unwrap();
    assert_eq!(removed.ty.prim, b'd');
    assert!(!d.contains_key(b"k1"));
    assert!(d.remove(b"k1").is_none());
    assert_eq!(d.keys(), vec![b"k2".to_vec()]);
}

#[test]
fn byte_order_puts_prefixes_first() {
    assert!(bytes_less(b"ab", b"abc"));
    assert!(!bytes_less(b"abc", b"ab"));
    assert!(bytes_less(b"B", b"a"));
    assert!(!bytes_less(b"same", b"same"));
    assert!(bytes_less(b"", b"x"));
}

#[test]
fn names_sort_and_indices_stay_stable() {
    let v = vec![b"b".to_vec(), b"a".to_vec(), b"c".to_vec(), b"a".to_vec()];
    assert_eq!(sort_names(&v), vec![b"a".to_vec(), b"a".to_vec(), b"b".to_vec(), b"c".to_vec()]);
    assert_eq!(sort_indices(&v), vec![1, 3, 0, 2]);
    assert!(sort_indices(&Vec::new()).is_empty());
}

#[test]
fn versions_and_names() {
    assert_eq!(run(|o| nibble_version(o, 0x000a_0b0c)), "10.11.12");
    assert_eq!(run(|o| nibble_version(o, 0x0001_0000)), "1.0.0");
    let sv = (1u64 << 40) | (2u64 << 30) | (3u64 << 20) | (4u64 << 10) | 5;
    assert_eq!(run(|o| source_version_string(o, sv)), "1.2.3.4.5");
    assert_eq!(run(|o| platform_name(o, 1)), "macOS");
    assert_eq!(run(|o| platform_name(o, 6)), "Mac Catalyst");
    assert_eq!(run(|o| platform_name(o, 0x2a)), "Unknown platform 2a");
    assert_eq!(run(|o| tool_name(o, 3)), "ld");
    assert_eq!(run(|o| tool_name(o, 0xff)), "Unknown tool ff");
}

#[test]
fn cpu_names() {
    assert_eq!(run(|o| cpu_name(o, 0x0100_0007, 3)), "x86_64");
    assert_eq!(run(|o| cpu_name(o, 7, 3)), "i386");
    assert_eq!(run(|o| cpu_name(o, 0x0100_000c, 0)), "arm64");
    assert_eq!(run(|o| cpu_name(o, 0x0100_000c, 0x8000_0002u32 as i32)), "arm64e");
    assert_eq!(run(|o| cpu_name(o, 18, 0)), "ppc");
    assert_eq!(run(|o| cpu_name(o, -1, 3)), "0xffffffff:0x3");
}

#[test]
fn uuid_and_run_paths() {
    let u: Vec<u8> = (0u8..16).collect();
    assert_eq!(run(|o| uuid_string(o, &u)), "00010203-0405-0607-0809-0A0B0C0D0E0F");
    assert_eq!(run(|o| resolve_run_path(o, b"@executable_path/../lib", b"/usr/bin/tool")), "/usr/bin/../lib");
    assert_eq!(run(|o| resolve_run_path(o, b"@loader_path/x", b"lib.dylib")), "./x");
    assert_eq!(run(|o| resolve_run_path(o, b"/abs/path", b"/a/b")), "/abs/path");
}

#[test]
fn numbers_in_text() {
    assert_eq!(run(|o| append_decimal(o, 0)), "0");
    assert_eq!(run(|o| append_decimal(o, 18446744073709551615)), "18446744073709551615");
    assert_eq!(run(|o| append_hex_padded(o, 0x6, false, 8)), "00000006");
    assert_eq!(run(|o| append_hex_padded(o, 0xAB, true, 2)), "AB");
}

#[test]
fn saturating_counts_and_tag_prefixes() {
    assert_eq!(sat_add_exec(2, 3), 5);
    assert_eq!(sat_add_exec(usize::MAX, 1), usize::MAX);
    assert!(has_underscore_capital_prefix(b"_Foo"));
    assert!(!has_underscore_capital_prefix(b"_foo"));
    assert!(!has_underscore_capital_prefix(b"Foo"));
}
