use class_dump::macho::MachOFile;
use class_dump::objc::Processor;
use class_dump::output::{dump, Options};

struct Image {
    data: Vec<u8>,
}

impl Image {
    fn put(&mut self, off: usize, bytes: &[u8]) {
        if self.data.len() < off + bytes.len() {
            self.data.resize(off + bytes.len(), 0);
        }
        self.data[off..off + bytes.len()].copy_from_slice(bytes);
    }
    fn u32(&mut self, off: usize, v: u32) {
        self.put(off, &v.to_le_bytes());
    }
    fn u64(&mut self, off: usize, v: u64) {
        self.put(off, &v.to_le_bytes());
    }
    fn words(&mut self, off: usize, vs: &[u64]) {
        for (i, v) in vs.iter().enumerate() {
            self.u64(off + 8 * i, *v);
        }
    }
    fn name16(&mut self, off: usize, s: &str) {
        let mut b = [0u8; 16];
        b[..s.len()].copy_from_slice(s.as_bytes());
        self.put(off, &b);
    }
    fn section(&mut self, off: usize, sect: &str, seg: &str, addr: u64, size: u64) {
        self.name16(off, sect);
        self.name16(off + 16, seg);
        self.u64(off + 32, addr);
        self.u64(off + 40, size);
        self.u32(off + 48, (addr - 0x1000) as u32);
    }
}

/// One `__DATA` segment at 0x1000 mapping the file from offset 0: a
/// protocol, and a class `Widget` that adopts it, with a metaclass, an
/// instance method, a class method, an instance variable and a property.
fn widget_image() -> Vec<u8> {
    image_with(false)
}

/// `widget_image`, where `Proto` also adopts a protocol `Base` and itself.
fn adopting_image() -> Vec<u8> {
    image_with(true)
}

fn image_with(adopting: bool) -> Vec<u8> {
    let mut im = Image { data: vec![0u8; 0xb00] };
    im.u32(0, 0xfeed_facf);
    im.u32(4, 0x0100_000c);
    im.u32(8, 0);
    im.u32(12, 6);
    im.u32(16, 1);
    im.u32(20, 72 + 3 * 80);
    let lc = 32;
    im.u32(lc, 0x19);
    im.u32(lc + 4, 72 + 3 * 80);
    im.name16(lc + 8, "__DATA");
    im.u64(lc + 24, 0x1000);
    im.u64(lc + 32, 0x1000);
    im.u64(lc + 40, 0);
    im.u64(lc + 48, 0xb00);
    im.u32(lc + 64, 3);
    im.section(lc + 72, "__objc_classlist", "__DATA", 0x1400, 8);
    im.section(lc + 152, "__objc_imageinfo", "__DATA", 0x1408, 8);
    im.section(lc + 232, "__objc_protolist", "__DATA", 0x1410, 8);
    im.u64(0x400, 0x1500);
    im.u64(0x410, 0x1900);
    // class_t and its metaclass
    im.words(0x500, &[0x1580, 0, 0, 0, 0x1600]);
    im.words(0x580, &[0, 0, 0, 0, 0x1680]);
    // class_ro_t: flags, instanceStart, instanceSize, reserved, ivarLayout, then the pointers
    im.words(0x618, &[0x1800, 0x1700, 0x19c0, 0x1740, 0, 0x1780]);
    im.words(0x698, &[0x1800, 0x1720, 0, 0, 0, 0]);
    // method lists
    im.u32(0x700, 24);
    im.u32(0x704, 1);
    im.words(0x708, &[0x1810, 0x1820, 0]);
    im.u32(0x720, 24);
    im.u32(0x724, 1);
    im.words(0x728, &[0x1830, 0x1840, 0]);
    // ivar list
    im.u32(0x740, 32);
    im.u32(0x744, 1);
    im.words(0x748, &[0x17c0, 0x1850, 0x1860]);
    im.u32(0x760, 3);
    im.u32(0x764, 8);
    im.u64(0x7c0, 8);
    // property list
    im.u32(0x780, 16);
    im.u32(0x784, 1);
    im.words(0x788, &[0x1870, 0x1880]);
    // protocol_t, its method list, and the class's protocol list
    im.words(0x900, &[0, 0x1a00, 0, 0x1980, 0, 0, 0, 0]);
    im.u32(0x940, 72);
    im.u32(0x980, 24);
    im.u32(0x984, 1);
    im.words(0x988, &[0x1a10, 0x1a20, 0]);
    im.words(0x9c0, &[1, 0x1900]);
    if adopting {
        im.u64(0x910, 0x19e0);
        im.words(0x9e0, &[2, 0x1a80, 0x1900]);
        im.words(0xa80, &[0, 0x1a30, 0, 0, 0, 0, 0, 0]);
        im.u32(0xac0, 72);
        im.put(0xa30, b"Base");
    }
    for (off, s) in [
        (0x800, "Widget"),
        (0x810, "size"),
        (0x820, "Q16@0:8"),
        (0x830, "shared"),
        (0x840, "@16@0:8"),
        (0x850, "_size"),
        (0x860, "Q"),
        (0x870, "size"),
        (0x880, "TQ,R,N,V_size"),
        (0xa00, "Proto"),
        (0xa10, "ping"),
        (0xa20, "v16@0:8"),
    ] {
        im.put(off, s.as_bytes());
    }
    im.data
}

#[test]
fn reads_the_class_and_protocol_metadata() {
    let f = MachOFile::parse(widget_image(), b"w".to_vec()).unwrap();
    assert!(f.has_objc2_data());
    assert_eq!(f.objc_image_info_flags(), Some(0));
    let mut p = Processor::new(&f);
    let image = p.process();
    assert_eq!(image.protocols.len(), 1);
    let proto = &image.protocols[0];
    assert_eq!(proto.name, b"Proto".to_vec());
    assert_eq!(proto.instance_methods.len(), 1);
    assert_eq!(proto.instance_methods[0].name, b"ping".to_vec());
    assert_eq!(proto.instance_methods[0].type_string, b"v16@0:8".to_vec());
    assert!(proto.adopted_protocols.is_empty());
    assert_eq!(image.classes.len(), 1);
    let c = &image.classes[0];
    assert_eq!(c.name, b"Widget".to_vec());
    assert_eq!(c.superclass_name, None);
    assert!(!c.is_swift);
    assert!(!c.is_exported);
    assert_eq!(c.protocols, vec![b"Proto".to_vec()]);
    assert_eq!(c.instance_methods.len(), 1);
    assert_eq!(c.instance_methods[0].name, b"size".to_vec());
    assert_eq!(c.instance_methods[0].type_string, b"Q16@0:8".to_vec());
    assert_eq!(c.class_methods.len(), 1);
    assert_eq!(c.class_methods[0].name, b"shared".to_vec());
    assert_eq!(c.ivars.len(), 1);
    assert_eq!(c.ivars[0].name, b"_size".to_vec());
    assert_eq!(c.ivars[0].type_string, b"Q".to_vec());
    assert_eq!(c.ivars[0].offset, 8);
    assert_eq!(c.properties.len(), 1);
    assert_eq!(c.properties[0].attributes, b"TQ,R,N,V_size".to_vec());
    assert!(image.categories.is_empty());
}

#[test]
fn dumps_the_class_and_protocol() {
    let f = MachOFile::parse(widget_image(), b"w".to_vec()).unwrap();
    let mut p = Processor::new(&f);
    let image = p.process();
    let out = String::from_utf8(dump(&f, &image, &Options { sort_methods: false })).unwrap();
    let expected = String::from("//\n//     Generated by class-dump 3.5.1 (64 bit).\n//\n//  Copyright (C) 1997-2019 Steve Nygard.\n//\n\n")
        + "#pragma mark -\n\n//\n// File: w\n//\n//                           Arch: arm64\n//\n// Objective-C Garbage Collection: Unsupported\n//\n\n"
        + "@protocol Proto\n- (void)ping;\n@end\n\n"
        + "__attribute__((visibility(\"hidden\")))\n@interface Widget <Proto>\n{\n    unsigned long long _size;\n}\n\n+ (id)shared;\n@property(readonly, nonatomic) unsigned long long size; // @synthesize size=_size;\n\n@end\n\n";
    assert_eq!(out, expected);
}

#[test]
fn adopted_protocols_are_loaded_and_a_cycle_gives_no_name() {
    let f = MachOFile::parse(adopting_image(), b"w".to_vec()).unwrap();
    let mut p = Processor::new(&f);
    let image = p.process();
    assert_eq!(image.protocols.len(), 2);
    assert_eq!(image.protocols[0].name, b"Proto".to_vec());
    assert_eq!(image.protocols[0].adopted_protocols, vec![b"Base".to_vec(), Vec::new()]);
    assert_eq!(image.protocols[1].name, b"Base".to_vec());
    assert!(image.protocols[1].adopted_protocols.is_empty());
    assert_eq!(image.classes[0].protocols, vec![b"Proto".to_vec()]);
}

#[test]
fn a_protocol_listed_twice_is_read_once_and_a_class_listed_twice_twice() {
    let mut im = Image { data: widget_image() };
    // __objc_protolist names Proto twice; __objc_classlist names Widget twice.
    im.u64(32 + 232 + 40, 16);
    im.u64(0x418, 0x1900);
    im.u64(32 + 72 + 40, 16);
    im.u64(0x408, 0x1500);
    im.u64(32 + 152 + 32, 0x1c00);
    im.u32(32 + 152 + 48, 0xc00);
    let f = MachOFile::parse(im.data, b"w".to_vec()).unwrap();
    let mut p = Processor::new(&f);
    let image = p.process();
    assert_eq!(image.protocols.len(), 1);
    assert_eq!(image.protocols[0].name, b"Proto".to_vec());
    assert_eq!(image.classes.len(), 2);
    assert_eq!(image.classes[0].name, b"Widget".to_vec());
    assert_eq!(image.classes[1].name, b"Widget".to_vec());
}

#[test]
fn without_a_protocol_list_no_protocol_is_read_or_named() {
    let mut im = Image { data: widget_image() };
    im.u64(32 + 232 + 40, 0);
    let f = MachOFile::parse(im.data, b"w".to_vec()).unwrap();
    let mut p = Processor::new(&f);
    let image = p.process();
    assert!(image.protocols.is_empty());
    assert_eq!(image.classes.len(), 1);
    assert!(image.classes[0].protocols.is_empty());
}
