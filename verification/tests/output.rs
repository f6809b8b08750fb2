use class_dump::macho::MachOFile;
use class_dump::objc::{Category, Class, Ivar, Method, ObjcImage, Property, Protocol};
use class_dump::output::{dump, format_method, format_property, visit_category, visit_class, visit_protocol, Options};
use class_dump::property::capitalize_first;
use class_dump::typecontroller::TypeController;
use class_dump::visit::{sort_methods, sort_properties, PropertyState};

fn text(v: Vec<u8>) -> String {
    String::from_utf8(v).unwrap()
}

fn method(name: &str, types: &str) -> Method {
    Method { name: name.as_bytes().to_vec(), type_string: types.as_bytes().to_vec() }
}

fn property(name: &str, attributes: &str) -> Property {
    Property { name: name.as_bytes().to_vec(), attributes: attributes.as_bytes().to_vec() }
}

fn names(v: &[&str]) -> Vec<Vec<u8>> {
    v.iter().map(|s| s.as_bytes().to_vec()).collect()
}

fn foo_class() -> Class {
    Class {
        name: b"Foo".to_vec(),
        superclass_name: Some(b"NSObject".to_vec()),
        is_swift: false,
        is_exported: true,
        protocols: names(&["NSCopying"]),
        instance_methods: vec![method("title", "@16@0:8"), method("setTitle:", "v24@0:8@16"), method("doWork", "v16@0:8")],
        class_methods: vec![method("shared", "@16@0:8")],
        ivars: vec![Ivar { name: b"_title".to_vec(), type_string: b"@\"NSString\"".to_vec(), offset: 8 }],
        properties: vec![property("title", "T@\"NSString\",C,N,V_title")],
    }
}

#[test]
fn method_declarations() {
    let tc = TypeController::new();
    let f = |sel: &str, types: &str| text(format_method(&tc, sel.as_bytes(), types.as_bytes()));
    assert_eq!(f("setFrame:", "v48@0:8{CGRect={CGPoint=dd}{CGSize=dd}}16"), "(void)setFrame:(struct CGRect)arg1");
    assert_eq!(f("initWithName:age:", "@32@0:8@16q24"), "(id)initWithName:(id)arg1 age:(long long)arg2");
    assert_eq!(f("isEnabled", "c16@0:8"), "(BOOL)isEnabled");
    assert_eq!(f("description", ""), "(description)");
}

#[test]
fn method_that_runs_out_of_types_says_so() {
    let tc = TypeController::new();
    assert_eq!(
        text(format_method(&tc, b"foo:bar:", b"v20@0:8i16")),
        "(void)foo:(int)arg1 bar: /* Error: Ran out of types for this method. */"
    );
}

#[test]
fn property_declarations() {
    let tc = TypeController::new();
    let f = |name: &str, attrs: &str| text(format_property(&tc, &property(name, attrs)));
    assert_eq!(
        f("title", "T@\"NSString\",C,N,V_title"),
        "@property(copy, nonatomic) NSString *title; // @synthesize title=_title;\n"
    );
    assert_eq!(f("enabled", "TB,R,N,GisEnabled"), "@property(readonly, nonatomic, getter=isEnabled) _Bool enabled;\n");
    assert_eq!(
        f("delegate", "T@,W,N,V_delegate"),
        "@property(nonatomic) __weak id delegate; // @synthesize delegate=_delegate;\n"
    );
    assert_eq!(f("count", "Ti,D"), "@property int count; // @dynamic count;\n");
    assert_eq!(f("value", "Ti,Vvalue"), "@property int value; // @synthesize value;\n");
    assert_eq!(f("obj", "T@,&,SsetThing:"), "@property(retain, setter=setThing:) id obj;\n");
}

#[test]
fn property_with_unknown_attributes_is_flagged() {
    let tc = TypeController::new();
    assert_eq!(
        text(format_property(&tc, &property("q", "Ti,X"))),
        "@property int q;\n// Preceding property had unknown attributes: X\n// Original attribute string: Ti,X\n\n"
    );
}

#[test]
fn capitalize_first_letter() {
    assert_eq!(capitalize_first(b"title"), b"Title".to_vec());
    assert_eq!(capitalize_first(b""), Vec::<u8>::new());
    assert_eq!(capitalize_first("\u{e9}lan".as_bytes()), "\u{c9}lan".as_bytes().to_vec());
    assert_eq!(capitalize_first("\u{df}x".as_bytes()), "SSx".as_bytes().to_vec());
}

#[test]
fn accessor_folds_its_property_once() {
    let props = vec![property("title", "T@\"NSString\",C,N,V_title"), property("enabled", "TB,R,N,GisEnabled")];
    let mut st = PropertyState::new(&props);
    assert!(st.is_accessor(b"title"));
    assert!(st.is_accessor(b"setTitle:"));
    assert!(st.is_accessor(b"isEnabled"));
    assert!(!st.is_accessor(b"setEnabled:"));
    assert!(!st.is_accessor(b"enabled"));
    let p = st.take_for_accessor(b"setTitle:").unwrap();
    assert_eq!(p.name, b"title".to_vec());
    assert!(st.take_for_accessor(b"title").is_none());
    assert!(st.take_for_accessor(b"doWork").is_none());
    let rest = st.remaining_sorted();
    assert_eq!(rest.len(), 1);
    assert_eq!(rest[0].name, b"enabled".to_vec());
}

#[test]
fn sorting_by_name_is_stable() {
    let ms = vec![method("b", "1"), method("a", "2"), method("b", "3"), method("ab", "4")];
    let sorted = sort_methods(&ms);
    let got: Vec<(Vec<u8>, Vec<u8>)> = sorted.into_iter().map(|m| (m.name, m.type_string)).collect();
    assert_eq!(
        got,
        vec![
            (b"a".to_vec(), b"2".to_vec()),
            (b"ab".to_vec(), b"4".to_vec()),
            (b"b".to_vec(), b"1".to_vec()),
            (b"b".to_vec(), b"3".to_vec()),
        ]
    );
    let ps = sort_properties(&vec![property("z", "Ti"), property("y", "Ti")]);
    assert_eq!(ps[0].name, b"y".to_vec());
    assert_eq!(ps[1].name, b"z".to_vec());
}

#[test]
fn class_declaration() {
    let tc = TypeController::new();
    let mut out = Vec::new();
    visit_class(&tc, &mut out, &foo_class(), &Options { sort_methods: false });
    assert_eq!(
        text(out),
        "@interface Foo : NSObject <NSCopying>\n{\n    NSString *_title;\n}\n\n+ (id)shared;\n@property(copy, nonatomic) NSString *title; // @synthesize title=_title;\n- (void)doWork;\n\n@end\n\n"
    );
}

#[test]
fn class_declaration_with_sorted_methods() {
    let tc = TypeController::new();
    let mut out = Vec::new();
    visit_class(&tc, &mut out, &foo_class(), &Options { sort_methods: true });
    assert_eq!(
        text(out),
        "@interface Foo : NSObject <NSCopying>\n{\n    NSString *_title;\n}\n\n+ (id)shared;\n- (void)doWork;\n@property(copy, nonatomic) NSString *title; // @synthesize title=_title;\n\n@end\n\n"
    );
}

#[test]
fn hidden_root_class_without_methods() {
    let tc = TypeController::new();
    let c = Class {
        name: b"Root".to_vec(),
        superclass_name: None,
        is_swift: false,
        is_exported: false,
        protocols: Vec::new(),
        instance_methods: Vec::new(),
        class_methods: Vec::new(),
        ivars: Vec::new(),
        properties: Vec::new(),
    };
    let mut out = Vec::new();
    visit_class(&tc, &mut out, &c, &Options { sort_methods: false });
    assert_eq!(text(out), "__attribute__((visibility(\"hidden\")))\n@interface Root\n{\n}\n\n@end\n\n");
}

#[test]
fn protocol_declaration_with_optional_methods() {
    let tc = TypeController::new();
    let p = Protocol {
        name: b"P".to_vec(),
        adopted_protocols: names(&["NSObject", "Q"]),
        instance_methods: vec![method("m", "v16@0:8")],
        class_methods: Vec::new(),
        optional_instance_methods: vec![method("o", "v16@0:8")],
        optional_class_methods: vec![method("c", "v16@0:8")],
        properties: Vec::new(),
    };
    let mut out = Vec::new();
    visit_protocol(&tc, &mut out, &p, &Options { sort_methods: false });
    assert_eq!(text(out), "@protocol P <NSObject, Q>\n- (void)m;\n\n@optional\n+ (void)c;\n- (void)o;\n@end\n\n");
}

#[test]
fn category_declaration_with_remaining_properties() {
    let tc = TypeController::new();
    let c = Category {
        name: b"Extras".to_vec(),
        class_name: b"Foo".to_vec(),
        instance_methods: vec![method("x", "v16@0:8")],
        class_methods: Vec::new(),
        protocols: Vec::new(),
        properties: vec![property("q", "Ti"), property("p", "Ti")],
    };
    let mut out = Vec::new();
    visit_category(&tc, &mut out, &c, &Options { sort_methods: false });
    assert_eq!(
        text(out),
        "@interface Foo (Extras)\n- (void)x;\n\n// Remaining properties\n@property int p;\n@property int q;\n@end\n\n"
    );
}

fn le32(v: &mut Vec<u8>, x: u32) {
    v.extend_from_slice(&x.to_le_bytes());
}

/// An x86_64 executable with no load commands.
fn bare_executable() -> MachOFile {
    let mut data = Vec::new();
    le32(&mut data, 0xfeed_facf);
    le32(&mut data, 0x0100_0007);
    le32(&mut data, 3);
    le32(&mut data, 2);
    le32(&mut data, 0);
    le32(&mut data, 0);
    le32(&mut data, 0);
    le32(&mut data, 0);
    MachOFile::parse(data, b"a.out".to_vec()).unwrap()
}

fn empty_protocol(name: &str, method_name: &str) -> Protocol {
    Protocol {
        name: name.as_bytes().to_vec(),
        adopted_protocols: Vec::new(),
        instance_methods: vec![method(method_name, "v16@0:8")],
        class_methods: Vec::new(),
        optional_instance_methods: Vec::new(),
        optional_class_methods: Vec::new(),
        properties: Vec::new(),
    }
}

fn bare_class(name: &str) -> Class {
    Class {
        name: name.as_bytes().to_vec(),
        superclass_name: None,
        is_swift: false,
        is_exported: true,
        protocols: Vec::new(),
        instance_methods: Vec::new(),
        class_methods: Vec::new(),
        ivars: Vec::new(),
        properties: Vec::new(),
    }
}

fn bare_category(class_name: &str, name: &str) -> Category {
    Category {
        name: name.as_bytes().to_vec(),
        class_name: class_name.as_bytes().to_vec(),
        instance_methods: Vec::new(),
        class_methods: Vec::new(),
        protocols: Vec::new(),
        properties: Vec::new(),
    }
}

#[test]
fn dump_orders_protocols_classes_and_categories() {
    let f = bare_executable();
    let image = ObjcImage {
        classes: vec![bare_class("Zed"), bare_class("Alpha")],
        categories: vec![bare_category("Zed", "Two"), bare_category("Alpha", "One"), bare_category("Zed", "Three")],
        protocols: vec![empty_protocol("B", "first"), empty_protocol("A", "a"), empty_protocol("B", "second")],
    };
    let out = text(dump(&f, &image, &Options { sort_methods: false }));
    let head = "//\n//     Generated by class-dump 3.5.1 (64 bit).\n//\n//  Copyright (C) 1997-2019 Steve Nygard.\n//\n\n";
    let block = "#pragma mark -\n\n//\n// File: a.out\n//\n//                           Arch: x86_64\n//\n\n";
    let body = "@protocol A\n- (void)a;\n@end\n\n@protocol B\n- (void)first;\n@end\n\n@interface Alpha\n{\n}\n\n@end\n\n@interface Zed\n{\n}\n\n@end\n\n@interface Alpha (One)\n@end\n\n@interface Zed (Two)\n@end\n\n@interface Zed (Three)\n@end\n\n";
    assert_eq!(out, String::from(head) + block + body);
}

#[test]
fn dump_is_deterministic() {
    let f = bare_executable();
    let image = ObjcImage {
        classes: vec![foo_class(), bare_class("Bar")],
        categories: vec![bare_category("Foo", "X")],
        protocols: vec![empty_protocol("P", "m")],
    };
    let opts = Options { sort_methods: true };
    let first = dump(&f, &image, &opts);
    let second = dump(&f, &image, &opts);
    assert_eq!(first, second);
}

#[test]
fn property_accessors_from_the_attribute_string() {
    let i = class_dump::property::parse_property(&property("enabled", "TB,R,GisEnabled,Vx,Z"));
    assert_eq!(i.type_encoding, b"B".to_vec());
    assert!(i.readonly);
    assert_eq!(i.alist, names(&["readonly", "getter=isEnabled"]));
    assert_eq!(i.getter, b"isEnabled".to_vec());
    assert_eq!(i.setter, b"setEnabled:".to_vec());
    assert_eq!(i.backing_var, Some(b"x".to_vec()));
    assert_eq!(i.unknown_attrs, names(&["Z"]));
    assert_eq!(i.attr_string_after_type, b"R,GisEnabled,Vx,Z".to_vec());
    assert!(!i.weak);
    assert!(!i.dynamic);
}

#[test]
fn accessors_fold_into_their_property() {
    let tc = TypeController::new();
    let mut out: Vec<u8> = Vec::new();
    let ms = vec![method("name", "@16@0:8"), method("setName:", "v24@0:8@16")];
    let ps = vec![property("name", "T@\"NSString\",&,N")];
    class_dump::visit::visit_methods(&tc, &mut out, &Vec::new(), &ms, &Vec::new(), &Vec::new(), &ps, &Options { sort_methods: false });
    assert_eq!(text(out), "@property(retain, nonatomic) NSString *name;\n");
}
