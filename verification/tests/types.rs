use class_dump::output::parse_one;
use class_dump::parse::{object_type, parse_method_types, split_bytes, trim_bytes, Parser};
use class_dump::render::FormatterCfg;
use class_dump::typ::{CDType, T_BLOCK, T_FUNCTION_POINTER, T_NAMED_OBJECT};
use class_dump::typecontroller::TypeController;

fn plain() -> FormatterCfg {
    FormatterCfg { should_expand: false, should_auto_expand: false, base_level: 0, is_struct_decl: false }
}

fn text(v: Vec<u8>) -> String {
    String::from_utf8(v).unwrap()
}

#[test]
fn struct_type_strings() {
    let t = parse_one(b"{CGPoint=\"x\"d\"y\"d}");
    assert!(t.is_struct());
    assert_eq!(t.members.len(), 2);
    assert_eq!(t.members[0].variable_name, Some(b"x".to_vec()));
    assert_eq!(text(t.type_string()), "{CGPoint=\"x\"d\"y\"d}");
    assert_eq!(text(t.bare_type_string()), "{CGPoint=dd}");
    assert_eq!(text(t.really_bare_type_string()), "{CGPoint=dd}");
    assert_eq!(text(t.type_name_description()), "CGPoint");
    assert_eq!(t.structure_depth(), 1);
}

#[test]
fn nested_depth_counts_records() {
    let t = parse_one(b"{CGRect={CGPoint=dd}{CGSize=dd}}");
    assert_eq!(t.structure_depth(), 2);
    let p = parse_one(b"^{CGRect={CGPoint=dd}{CGSize=dd}}");
    assert_eq!(p.structure_depth(), 2);
    assert_eq!(parse_one(b"i").structure_depth(), 0);
}

#[test]
fn object_types_show_their_class_unless_really_bare() {
    let t = parse_one(b"@\"NSString\"");
    assert_eq!(t.prim, T_NAMED_OBJECT);
    assert!(t.is_named_object());
    assert_eq!(text(t.type_string()), "@\"NSString\"");
    assert_eq!(text(t.really_bare_type_string()), "@");
    let id = parse_one(b"@");
    assert!(id.is_id_type());
}

#[test]
fn pointers_arrays_bitfields_and_blocks() {
    assert_eq!(text(parse_one(b"^i").type_string()), "^i");
    assert_eq!(text(parse_one(b"[4i]").type_string()), "[4i]");
    assert_eq!(text(parse_one(b"b3").type_string()), "b3");
    assert_eq!(parse_one(b"^?").prim, T_FUNCTION_POINTER);
    assert_eq!(parse_one(b"@?").prim, T_BLOCK);
    assert_eq!(text(parse_one(b"r*").type_string()), "r^c");
    assert!(parse_one(b"(U=\"a\"i\"b\"f)").is_union());
}

#[test]
fn template_tag_is_recognised() {
    let t = parse_one(b"{vector<int, std::allocator<int> >=^i^i}");
    assert!(t.is_template_type());
    assert!(!parse_one(b"{CGPoint=dd}").is_template_type());
}

#[test]
fn method_types_skip_offsets() {
    let types = parse_method_types(b"v24@0:8@16");
    assert_eq!(types.len(), 4);
    assert_eq!(types[0].prim, b'v');
    assert_eq!(types[1].prim, b'@');
    assert_eq!(types[2].prim, b':');
    assert_eq!(types[3].prim, b'@');
    assert!(parse_method_types(b"").is_empty());
}

#[test]
fn parser_reaches_the_end() {
    let s = b"i";
    let mut p = Parser::new(s);
    let t = p.parse_type();
    assert_eq!(t.prim, b'i');
    assert!(p.at_end());
}

#[test]
fn quoted_class_with_protocols_becomes_named_object() {
    let t = object_type(b"NSObject<NSCopying,NSCoding>".to_vec());
    assert_eq!(t.prim, T_NAMED_OBJECT);
    assert_eq!(t.typename, Some(b"NSObject".to_vec()));
    assert_eq!(t.protocols, vec![b"NSCopying".to_vec(), b"NSCoding".to_vec()]);
    let id = object_type(b"<NSCopying>".to_vec());
    assert_eq!(id.prim, b'@');
    assert_eq!(id.protocols, vec![b"NSCopying".to_vec()]);
    let plain_name = object_type(b"NSView".to_vec());
    assert_eq!(plain_name.typename, Some(b"NSView".to_vec()));
    assert!(plain_name.protocols.is_empty());
}

#[test]
fn trim_and_split() {
    assert_eq!(trim_bytes(b"  a b \t\n"), b"a b".to_vec());
    assert_eq!(trim_bytes(b""), Vec::<u8>::new());
    assert_eq!(split_bytes(b"a,,b", b','), vec![b"a".to_vec(), Vec::new(), b"b".to_vec()]);
    assert_eq!(split_bytes(b"", b','), vec![Vec::<u8>::new()]);
}

#[test]
fn can_merge_and_merge_fill_in_names() {
    let mut a = parse_one(b"{S=ii}");
    let b = parse_one(b"{S=\"x\"i\"y\"i}");
    assert!(a.can_merge_with(&b));
    a.merge_with(&b);
    assert_eq!(text(a.type_string()), "{S=\"x\"i\"y\"i}");
    let c = parse_one(b"{S=if}");
    assert!(!b.can_merge_with(&c));
}

#[test]
fn generated_member_names_skip_taken_ones() {
    let mut t = parse_one(b"{S=\"_field1\"ii\"z\"ib2}");
    t.generate_member_names();
    assert_eq!(t.members[0].variable_name, Some(b"_field1".to_vec()));
    assert_eq!(t.members[1].variable_name, Some(b"_field2".to_vec()));
    assert_eq!(t.members[2].variable_name, Some(b"z".to_vec()));
    assert_eq!(t.members[3].variable_name, None);
}

#[test]
fn simple_type_has_no_parts() {
    let t = CDType::simple(b'q');
    assert_eq!(t.prim, b'q');
    assert!(t.members.is_empty());
    assert!(t.subtype.is_none());
}

#[test]
fn variables_are_declared_in_c() {
    let tc = TypeController::new();
    let cfg = plain();
    let decl = |name: &[u8], enc: &[u8]| text(tc.format_variable(Some(name), &parse_one(enc), &cfg));
    assert_eq!(decl(b"flag", b"c"), "BOOL flag");
    assert_eq!(decl(b"delegate", b"@"), "id delegate");
    assert_eq!(decl(b"title", b"@\"NSString\""), "NSString *title");
    assert_eq!(decl(b"p", b"^i"), "int *p");
    assert_eq!(decl(b"a", b"[4i]"), "int a[4]");
    assert_eq!(decl(b"pa", b"^[4i]"), "int (*pa)[4]");
    assert_eq!(decl(b"flags", b"b3"), "unsigned int flags:3");
    assert_eq!(decl(b"fp", b"^?"), "CDUnknownFunctionPointerType fp");
    assert_eq!(decl(b"blk", b"@?"), "CDUnknownBlockType blk");
    assert_eq!(decl(b"s", b"r*"), "const char *s");
    assert_eq!(decl(b"origin", b"{CGPoint=\"x\"d\"y\"d}"), "struct CGPoint origin");
    assert_eq!(decl(b"u", b"(?=if)"), "union u");
    assert_eq!(text(tc.format_variable(None, &parse_one(b"Q"), &cfg)), "unsigned long long");
}

#[test]
fn instance_variable_layout_indents_and_expands() {
    let tc = TypeController::new();
    let cfg = FormatterCfg { should_expand: false, should_auto_expand: true, base_level: 1, is_struct_decl: false };
    let t = parse_one(b"{?=\"a\"i\"b\"i}");
    assert_eq!(
        String::from_utf8(tc.format_variable(Some(b"pair"), &t, &cfg)).unwrap(),
        "    struct {\n        int a;\n        int b;\n    } pair"
    );
}

#[test]
fn block_with_signature_is_written_out() {
    let tc = TypeController::new();
    let t = parse_one(b"@?<v@?@\"NSString\">");
    assert_eq!(text(tc.format_variable(None, &t, &plain())), "void (^)(NSString *)");
}

#[test]
fn anonymous_structure_in_a_method_gets_a_typedef_name() {
    let mut tc = TypeController::new();
    let t = parse_one(b"{?=\"a\"i\"b\"i}");
    tc.register_type(&t, true);
    tc.work_some_magic();
    assert_eq!(text(tc.format_type_no_merge(&t, &plain())), "CDStruct_a1af418b");
}

#[test]
fn structure_declarations_are_grouped() {
    let mut tc = TypeController::new();
    let pt = parse_one(b"{Pt=\"x\"d\"y\"d}");
    tc.register_type(&pt, false);
    tc.register_type(&pt, false);
    tc.register_type(&parse_one(b"{?=\"a\"i\"b\"i}"), true);
    tc.register_type(&parse_one(b"^?"), false);
    tc.work_some_magic();
    let mut out = Vec::new();
    tc.append_structures(&mut out);
    assert_eq!(
        text(out),
        "#pragma mark Function Pointers\n\ntypedef void (*CDUnknownFunctionPointerType)(void); // return type and parameters are unknown\n\n#pragma mark Named Structures\n\nstruct Pt {\n    double x;\n    double y;\n};\n\n#pragma mark Typedef'd Structures\n\ntypedef struct {\n    int a;\n    int b;\n} CDStruct_a1af418b;\n\n"
    );
}

#[test]
fn merging_a_type_with_itself_changes_nothing() {
    let t = parse_one(b"{S=\"a\"i\"p\"^{T=\"b\"c}@\"NSString\"}");
    let mut u = t.clone();
    assert!(u.can_merge_with(&t));
    u.merge_with(&t);
    assert_eq!(text(u.type_string()), text(t.type_string()));
}

#[test]
fn generating_member_names_twice_changes_nothing() {
    let mut t = parse_one(b"{S=i{T=ii}b1^{U=c}}");
    t.generate_member_names();
    let once = text(t.type_string());
    assert_eq!(once, "{S=\"_field1\"i\"_field2\"{T=\"_field1\"i\"_field2\"i}b1\"_field3\"^{U=\"_field1\"c}}");
    t.generate_member_names();
    assert_eq!(text(t.type_string()), once);
}

#[test]
fn walk_visits_records_in_order() {
    let t = parse_one(b"^{A=\"x\"{B=i}\"y\"^{C=c}\"z\"{?}}");
    let mut seen: Vec<String> = Vec::new();
    t.walk_structs(&mut |r: &CDType| seen.push(text(r.type_name_description())));
    assert_eq!(seen, vec!["A".to_string(), "B".to_string(), "C".to_string()]);
}

#[test]
fn quoted_names_inside_records() {
    let t = parse_one(b"{S=\"o\"@\"NSView\"\"n\"i}");
    assert_eq!(t.members.len(), 2);
    assert_eq!(t.members[0].prim, T_NAMED_OBJECT);
    assert_eq!(t.members[0].typename, Some(b"NSView".to_vec()));
    assert_eq!(t.members[1].variable_name, Some(b"n".to_vec()));
    let u = parse_one(b"{S=\"o\"@\"x\"i}");
    assert_eq!(u.members.len(), 2);
    assert_eq!(u.members[0].prim, b'@');
    assert_eq!(u.members[1].variable_name, Some(b"x".to_vec()));
    assert_eq!(u.members[1].prim, b'i');
    let v = parse_one(b"{S=\"o\"@\"lower\"}");
    assert_eq!(v.members.len(), 1);
    assert_eq!(v.members[0].typename, Some(b"lower".to_vec()));
}

#[test]
fn bare_unions_templates_and_unknown_tokens() {
    let u = parse_one(b"(^ic)");
    assert!(u.is_union());
    assert_eq!(u.members.len(), 2);
    assert_eq!(text(u.type_string()), "(^ic)");
    let named = parse_one(b"(ic)");
    assert_eq!(named.typename, Some(b"ic".to_vec()));
    assert!(named.members.is_empty());
    let t = parse_one(b"{vector<int, std::allocator<int> >=^i^i}");
    assert_eq!(t.typename, Some(b"vector<int, std::allocator<int>>".to_vec()));
    assert_eq!(text(t.type_string()), "{vector<int, std::allocator<int>>=^i^i}");
    assert_eq!(text(parse_one(b"Z").type_string()), "@\"MISSING_TYPE\"");
    assert_eq!(text(parse_one(b"").type_string()), "@\"MISSING_TYPE\"");
    assert_eq!(text(parse_one(b"^").type_string()), "^v");
    assert_eq!(text(parse_one(b"{?=b3b5}").bare_type_string()), "{?=b3b5}");
    let types = parse_method_types(b"v@:");
    assert_eq!(types.len(), 3);
    assert_eq!(types[2].prim, b':');
}

#[test]
fn more_declarations() {
    let tc = TypeController::new();
    let cfg = plain();
    let decl = |name: &[u8], enc: &[u8]| text(tc.format_variable(Some(name), &parse_one(enc), &cfg));
    assert_eq!(decl(b"p", b"^{S}"), "struct S *p");
    assert_eq!(decl(b"pp", b"^^i"), "int **pp");
    assert_eq!(decl(b"a", b"[2[3i]]"), "int a[2][3]");
    assert_eq!(decl(b"p", b"r^v"), "const void *p");
    assert_eq!(decl(b"obj", b"@\"<NSCopying>\""), "id <NSCopying> obj");
    assert_eq!(decl(b"arr", b"@\"NSArray<NSString>\""), "NSArray<NSString> *arr");
    assert_eq!(decl(b"sel", b":"), "SEL sel");
    assert_eq!(decl(b"cls", b"#"), "Class cls");
    assert_eq!(text(tc.format_variable(None, &parse_one(b"Vv"), &cfg)), "oneway void");
}

#[test]
fn typedefs_are_declared_in_sorted_order() {
    let mut tc = TypeController::new();
    tc.register_type(&parse_one(b"{?=\"b\"i}"), true);
    tc.register_type(&parse_one(b"{?=\"a\"c}"), true);
    tc.work_some_magic();
    let mut out = Vec::new();
    tc.append_structures(&mut out);
    assert_eq!(
        text(out),
        "#pragma mark Typedef'd Structures\n\ntypedef struct {\n    char a;\n} CDStruct_5a4a91be;\n\ntypedef struct {\n    int b;\n} CDStruct_0cfd6a16;\n\n"
    );
}

#[test]
fn anonymous_records_are_named_by_a_question_mark() {
    assert_eq!(text(parse_one(b"{?=ii}").type_name_description()), "?");
    assert_eq!(text(parse_one(b"(^ic)").type_name_description()), "?");
    assert_eq!(text(parse_one(b"{CGPoint=dd}").type_name_description()), "CGPoint");
}
