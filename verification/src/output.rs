//! The text class-dump prints: the structure declarations, the file's
//! comment block, then every protocol, class and category with its
//! instance variables, methods and properties.

use vstd::prelude::*;
use vstd::string::StringSliceAdditionalSpecFns;
use crate::objc::{method_list, property_list, Category, Class, Ivar, Method, ObjcImage, Property, Protocol};
use crate::visit::{methods_text, visit_methods};
use crate::parse::{join, method_types, p_type, parse_method_types, run_end, write_joined, Parser};
use crate::property::{parse_property, prop_model, PropModel};
use crate::render::{fmt, naming_of, FormatterCfg, Naming};
use crate::text::{append, append_decimal, append_str, bytes_eq, decimal, sub_vec, to_vec};
use crate::typ::{names_of, tys_view, CDType, TypeModel, ENC_CHAR, ENC_SEL};
use crate::typecontroller::{
    controller_expands, controller_typedef, fmt_variable, magic, p0_walk, structures_text, table_order_of,
    ControllerModel, TypeController,
};
use crate::header::{comment_block, file_comment_block};
use crate::macho::MachOFile;
use crate::order::{
    keyed, keyed_at, lemma_sorted_by_name_permutes, lemma_sorted_by_name_sorted, lemma_sorted_by_name_stable, sort_indices,
    sorted_by_name, sorted_names,
};
use crate::table::empty_table;

verus! {

pub struct Options {
    pub sort_methods: bool,
}

/// The layout of instance variables: one level in, records written out
/// when the controller says so.
pub open spec fn ivar_cfg() -> FormatterCfg {
    FormatterCfg { should_expand: false, should_auto_expand: true, base_level: 1, is_struct_decl: false }
}

/// The layout of properties and method types.
pub open spec fn plain_cfg() -> FormatterCfg {
    FormatterCfg { should_expand: false, should_auto_expand: false, base_level: 0, is_struct_decl: false }
}

fn ivar_cfg_exec() -> (r: FormatterCfg)
    ensures
        r == ivar_cfg(),
{
    FormatterCfg { should_expand: false, should_auto_expand: true, base_level: 1, is_struct_decl: false }
}

fn plain_cfg_exec() -> (r: FormatterCfg)
    ensures
        r == plain_cfg(),
{
    FormatterCfg { should_expand: false, should_auto_expand: false, base_level: 0, is_struct_decl: false }
}

/// The type encoded at the start of `s`.
pub open spec fn one_type(s: Seq<u8>) -> TypeModel {
    p_type(s, 0, false).0
}

pub fn parse_one(s: &[u8]) -> (r: CDType)
    ensures
        r@ == one_type(s@),
{
    let mut p = Parser::new(s);
    p.parse_type()
}

/// `@property(attributes) ` (or `@property `), then `__weak ` if weak.
pub open spec fn property_head(i: PropModel) -> Seq<u8> {
    (if i.alist.len() > 0 {
        "@property(".spec_bytes() + join(i.alist, ", ".spec_bytes()) + ") ".spec_bytes()
    } else {
        "@property ".spec_bytes()
    }) + if i.weak {
        "__weak ".spec_bytes()
    } else {
        Seq::empty()
    }
}

/// The comment on how a property is implemented: `@dynamic` or
/// `@synthesize` with the backing ivar when it differs from the name.
pub open spec fn property_how(name: Seq<u8>, i: PropModel) -> Seq<u8> {
    if i.dynamic {
        " // @dynamic ".spec_bytes() + name + ";".spec_bytes()
    } else {
        match i.backing_var {
            Some(bv) => if bv == name {
                " // @synthesize ".spec_bytes() + name + ";".spec_bytes()
            } else {
                " // @synthesize ".spec_bytes() + name + "=".spec_bytes() + bv + ";".spec_bytes()
            },
            None => Seq::empty(),
        }
    }
}

/// The note on unknown attributes, with the attribute string (after the
/// type when the whole string is longer than 80 bytes).
pub open spec fn property_unknown(attributes: Seq<u8>, i: PropModel) -> Seq<u8> {
    if i.unknown_attrs.len() > 0 {
        "// Preceding property had unknown attributes: ".spec_bytes() + join(i.unknown_attrs, ",".spec_bytes())
            + "\n".spec_bytes() + if attributes.len() > 80 {
            "// Original attribute string (following type): ".spec_bytes() + i.attr_string_after_type
                + "\n\n".spec_bytes()
        } else {
            "// Original attribute string: ".spec_bytes() + attributes + "\n\n".spec_bytes()
        }
    } else {
        Seq::empty()
    }
}

/// A property declaration: its head, the typed name, the comment on how it
/// is implemented, and a note on unknown attributes.
pub open spec fn property_text(nm: Naming, c: ControllerModel, name: Seq<u8>, attributes: Seq<u8>) -> Seq<u8> {
    let i = prop_model(name, attributes);
    property_head(i) + fmt_variable(nm, c, Some(name), one_type(i.type_encoding), plain_cfg()) + ";".spec_bytes()
        + property_how(name, i) + "\n".spec_bytes() + property_unknown(attributes, i)
}

fn write_property_head(s: &mut Vec<u8>, info: &crate::property::PropInfo)
    ensures
        final(s)@ == old(s)@ + property_head(info@),
{
    let ghost start = s@;
    if info.alist.len() != 0 {
        append_str(s, "@property(");
        write_joined(s, &info.alist, ", ".as_bytes());
        append_str(s, ") ");
    } else {
        append_str(s, "@property ");
    }
    if info.weak {
        append_str(s, "__weak ");
    }
    assert(s@ =~= start + property_head(info@));
}

fn write_property_how(s: &mut Vec<u8>, name: &[u8], info: &crate::property::PropInfo)
    ensures
        final(s)@ == old(s)@ + property_how(name@, info@),
{
    let ghost start = s@;
    if info.dynamic {
        append_str(s, " // @dynamic ");
        append(s, name);
        append_str(s, ";");
    } else {
        match &info.backing_var {
            Some(bv) => {
                if bytes_eq(bv.as_slice(), name) {
                    append_str(s, " // @synthesize ");
                    append(s, name);
                    append_str(s, ";");
                } else {
                    append_str(s, " // @synthesize ");
                    append(s, name);
                    append_str(s, "=");
                    append(s, bv.as_slice());
                    append_str(s, ";");
                }
            },
            None => {},
        }
    }
    assert(s@ =~= start + property_how(name@, info@));
}

fn write_property_unknown(s: &mut Vec<u8>, attributes: &[u8], info: &crate::property::PropInfo)
    ensures
        final(s)@ == old(s)@ + property_unknown(attributes@, info@),
{
    let ghost start = s@;
    if info.unknown_attrs.len() != 0 {
        append_str(s, "// Preceding property had unknown attributes: ");
        write_joined(s, &info.unknown_attrs, ",".as_bytes());
        append_str(s, "\n");
        if attributes.len() > 80 {
            append_str(s, "// Original attribute string (following type): ");
            append(s, info.attr_string_after_type.as_slice());
            append_str(s, "\n\n");
        } else {
            append_str(s, "// Original attribute string: ");
            append(s, attributes);
            append_str(s, "\n\n");
        }
    }
    assert(s@ =~= start + property_unknown(attributes@, info@));
}

/// See `property_text`.
pub fn format_property(tc: &TypeController, p: &Property) -> (r: Vec<u8>)
    ensures
        r@ == property_text(naming_of(tc), tc@, p.name@, p.attributes@),
{
    let info = parse_property(p);
    let mut s: Vec<u8> = Vec::new();
    write_property_head(&mut s, &info);
    let ty = parse_one(info.type_encoding.as_slice());
    let cfg = plain_cfg_exec();
    let decl = tc.format_variable(Some(p.name.as_slice()), &ty, &cfg);
    append(&mut s, decl.as_slice());
    append_str(&mut s, ";");
    write_property_how(&mut s, p.name.as_slice(), &info);
    append_str(&mut s, "\n");
    write_property_unknown(&mut s, p.attributes.as_slice(), &info);
    assert(s@ =~= property_text(naming_of(tc), tc@, p.name@, p.attributes@));
    s
}

/// A method type as class-dump prints it: `BOOL` for `char`, else the type.
#[verifier::opaque]
pub open spec fn no_merge_text(nm: Naming, t: TypeModel) -> Seq<u8> {
    if t.prim == ENC_CHAR {
        "BOOL".spec_bytes()
    } else {
        fmt(nm, t, None, plain_cfg(), 0)
    }
}

/// See `no_merge_text`.
fn type_text(tc: &TypeController, t: &CDType) -> (r: Vec<u8>)
    ensures
        r@ == no_merge_text(naming_of(tc), t@),
{
    proof {
        reveal(no_merge_text);
    }
    let cfg = plain_cfg_exec();
    tc.format_type_no_merge(t, &cfg)
}

pub open spec fn not_colon(c: u8) -> bool {
    c != ENC_SEL
}

pub open spec fn not_colon_p() -> spec_fn(u8) -> bool {
    |c: u8| not_colon(c)
}

/// The selector from position `i` on, each `:` followed by the next
/// argument type (from `types[index]`) and `argN`; a note ends it when the
/// types ran out.
pub open spec fn selector_text(
    nm: Naming,
    types: Seq<TypeModel>,
    sel: Seq<u8>,
    i: int,
    index: nat,
    ran_out: bool,
) -> Seq<u8>
    decreases sel.len() - i,
{
    if i < 0 || i >= sel.len() {
        if ran_out {
            " /* Error: Ran out of types for this method. */".spec_bytes()
        } else {
            Seq::empty()
        }
    } else {
        let j = run_end(sel, i, not_colon_p());
        let piece = sel.subrange(i, j);
        if j >= sel.len() || j < i {
            piece + selector_text(nm, types, sel, sel.len() as int, index, ran_out)
        } else if index >= types.len() {
            piece + ":".spec_bytes() + selector_text(nm, types, sel, j + 1, index, true)
        } else {
            let sep = if j + 1 < sel.len() && sel[j + 1] != ENC_SEL { " ".spec_bytes() } else { Seq::empty() };
            piece + ":".spec_bytes() + "(".spec_bytes() + no_merge_text(nm, types[index as int]) + ")arg".spec_bytes()
                + decimal((index - 2) as nat) + sep + selector_text(nm, types, sel, j + 1, index + 1, ran_out)
        }
    }
}

/// A method declaration without its `+`/`-`: `(ret)name:(type)arg1 ...`.
pub open spec fn method_text(nm: Naming, selector: Seq<u8>, type_string: Seq<u8>) -> Seq<u8> {
    let types = method_types(type_string, 0);
    if types.len() == 0 {
        "(".spec_bytes() + selector + ")".spec_bytes()
    } else {
        "(".spec_bytes() + no_merge_text(nm, types[0]) + ")".spec_bytes() + selector_text(nm, types, selector, 0, 3, false)
    }
}

/// See `method_text`.
#[verifier::rlimit(80)]
pub fn format_method(tc: &TypeController, selector: &[u8], type_string: &[u8]) -> (r: Vec<u8>)
    ensures
        r@ == method_text(naming_of(tc), selector@, type_string@),
{
    let types = parse_method_types(type_string);
    let ghost tv = tys_view(types@);
    let ghost nm = naming_of(tc);
    proof {
        crate::typ::lemma_tys_view(types@);
    }
    let mut result: Vec<u8> = Vec::new();
    if types.len() == 0 {
        append_str(&mut result, "(");
        append(&mut result, selector);
        append_str(&mut result, ")");
        return result;
    }
    append_str(&mut result, "(");
    append(&mut result, type_text(tc, &types[0]).as_slice());
    append_str(&mut result, ")");
    let ghost head = result@;
    let count = types.len();
    let mut index: usize = 3;
    let mut i: usize = 0;
    let mut no_more = false;
    let n = selector.len();
    while i < n
        invariant
            n == selector@.len(),
            count == types@.len(),
            tv == tys_view(types@),
            tv.len() == count,
            forall|k: int| 0 <= k < count ==> #[trigger] tv[k] == types@[k]@,
            nm == naming_of(tc),
            i <= n,
            3 <= index,
            index <= count + 3,
            result@ + selector_text(nm, tv, selector@, i as int, index as nat, no_more) == head
                + selector_text(nm, tv, selector@, 0, 3, false),
        decreases n - i,
    {
        let start = i;
        let ghost old_index = index as nat;
        let ghost old_no_more = no_more;
        proof {
            crate::parse::lemma_run_end(selector@, start as int, not_colon_p());
        }
        while i < n && selector[i] != ENC_SEL
            invariant
                n == selector@.len(),
                start <= i <= n,
                run_end(selector@, i as int, not_colon_p()) == run_end(selector@, start as int, not_colon_p()),
            decreases n - i,
        {
            i = i + 1;
        }
        let ghost before = result@;
        append(&mut result, sub_vec(selector, start, i).as_slice());
        if i < n && selector[i] == ENC_SEL {
            append_str(&mut result, ":");
            i = i + 1;
            if index >= count {
                no_more = true;
            } else {
                let argtype = type_text(tc, &types[index]);
                append_str(&mut result, "(");
                append(&mut result, argtype.as_slice());
                append_str(&mut result, ")arg");
                append_decimal(&mut result, (index - 2) as u64);
                if i < n && selector[i] != ENC_SEL {
                    append_str(&mut result, " ");
                }
                index = index + 1;
            }
        }
        assert(result@ + selector_text(nm, tv, selector@, i as int, index as nat, no_more) =~= before
            + selector_text(nm, tv, selector@, start as int, old_index, old_no_more));
    }
    if no_more {
        append_str(&mut result, " /* Error: Ran out of types for this method. */");
    }
    assert(result@ =~= method_text(nm, selector@, type_string@));
    result
}


/// ` <P, Q>` for a non-empty list of protocol names.
pub open spec fn protocols_text(ps: Seq<Vec<u8>>) -> Seq<u8> {
    if ps.len() > 0 {
        " <".spec_bytes() + join(names_of(ps), ", ".spec_bytes()) + ">".spec_bytes()
    } else {
        Seq::empty()
    }
}

fn write_protocols(out: &mut Vec<u8>, ps: &Vec<Vec<u8>>)
    ensures
        final(out)@ == old(out)@ + protocols_text(ps@),
{
    let ghost start = out@;
    if ps.len() > 0 {
        append_str(out, " <");
        write_joined(out, ps, ", ".as_bytes());
        append_str(out, ">");
    }
    assert(out@ =~= start + protocols_text(ps@));
}

/// The instance variable declarations, one per line.
pub open spec fn ivar_lines(nm: Naming, c: ControllerModel, ivars: Seq<Ivar>) -> Seq<u8>
    decreases ivars.len(),
{
    if ivars.len() == 0 {
        Seq::empty()
    } else {
        let iv = ivars.last();
        ivar_lines(nm, c, ivars.drop_last()) + fmt_variable(nm, c, Some(iv.name@), one_type(iv.type_string@), ivar_cfg())
            + ";\n".spec_bytes()
    }
}

fn write_ivars(tc: &TypeController, out: &mut Vec<u8>, ivars: &Vec<Ivar>)
    ensures
        final(out)@ == old(out)@ + ivar_lines(naming_of(tc), tc@, ivars@),
{
    let ghost start = out@;
    let cfg = ivar_cfg_exec();
    let mut i: usize = 0;
    while i < ivars.len()
        invariant
            i <= ivars@.len(),
            cfg == ivar_cfg(),
            out@ == start + ivar_lines(naming_of(tc), tc@, ivars@.subrange(0, i as int)),
        decreases ivars@.len() - i,
    {
        let iv = &ivars[i];
        let ty = parse_one(iv.type_string.as_slice());
        let decl = tc.format_variable(Some(iv.name.as_slice()), &ty, &cfg);
        append(out, decl.as_slice());
        append_str(out, ";\n");
        proof {
            let pre = ivars@.subrange(0, i + 1);
            assert(pre.drop_last() =~= ivars@.subrange(0, i as int));
            assert(pre.last() == ivars@[i as int]);
        }
        i = i + 1;
    }
    assert(ivars@.subrange(0, i as int) =~= ivars@);
}

/// The `@interface` line of a class, marked hidden when the class is not
/// exported.
pub open spec fn class_head(cl: Class) -> Seq<u8> {
    (if cl.is_exported {
        Seq::empty()
    } else {
        "__attribute__((visibility(\"hidden\")))\n".spec_bytes()
    }) + "@interface ".spec_bytes() + cl.name@ + (match cl.superclass_name {
        Some(sc) => " : ".spec_bytes() + sc@,
        None => Seq::empty(),
    }) + protocols_text(cl.protocols@) + "\n".spec_bytes()
}

/// A class: its `@interface` line, instance variables, methods and
/// properties.
pub open spec fn class_text(nm: Naming, c: ControllerModel, cl: Class, sort: bool) -> Seq<u8> {
    class_head(cl) + "{\n".spec_bytes() + ivar_lines(nm, c, cl.ivars@) + "}\n\n".spec_bytes() + methods_text(
        nm,
        c,
        method_list(cl.class_methods@),
        method_list(cl.instance_methods@),
        Seq::empty(),
        Seq::empty(),
        property_list(cl.properties@),
        sort,
    ) + (if cl.class_methods@.len() > 0 || cl.instance_methods@.len() > 0 {
        "\n".spec_bytes()
    } else {
        Seq::empty()
    }) + "@end\n\n".spec_bytes()
}

fn write_class_head(out: &mut Vec<u8>, c: &Class)
    ensures
        final(out)@ == old(out)@ + class_head(*c),
{
    let ghost start = out@;
    if !c.is_exported {
        append_str(out, "__attribute__((visibility(\"hidden\")))\n");
    }
    append_str(out, "@interface ");
    append(out, c.name.as_slice());
    match &c.superclass_name {
        Some(sc) => {
            append_str(out, " : ");
            append(out, sc.as_slice());
        },
        None => {},
    }
    write_protocols(out, &c.protocols);
    append_str(out, "\n");
    assert(out@ =~= start + class_head(*c));
}

/// A protocol: its `@protocol` line, methods and properties.
pub open spec fn protocol_text(nm: Naming, c: ControllerModel, p: Protocol, sort: bool) -> Seq<u8> {
    "@protocol ".spec_bytes() + p.name@ + protocols_text(p.adopted_protocols@) + "\n".spec_bytes() + methods_text(
        nm,
        c,
        method_list(p.class_methods@),
        method_list(p.instance_methods@),
        method_list(p.optional_class_methods@),
        method_list(p.optional_instance_methods@),
        property_list(p.properties@),
        sort,
    ) + "@end\n\n".spec_bytes()
}

/// A category: `@interface Class (Name)`, methods and properties.
pub open spec fn category_text(nm: Naming, c: ControllerModel, cat: Category, sort: bool) -> Seq<u8> {
    "@interface ".spec_bytes() + cat.class_name@ + " (".spec_bytes() + cat.name@ + ")".spec_bytes()
        + protocols_text(cat.protocols@) + "\n".spec_bytes() + methods_text(
        nm,
        c,
        method_list(cat.class_methods@),
        method_list(cat.instance_methods@),
        Seq::empty(),
        Seq::empty(),
        property_list(cat.properties@),
        sort,
    ) + "@end\n\n".spec_bytes()
}

/// See `class_text`.
#[verifier::spinoff_prover]
#[verifier::rlimit(40)]
pub fn visit_class(tc: &TypeController, out: &mut Vec<u8>, c: &Class, opts: &Options)
    ensures
        final(out)@ == old(out)@ + class_text(naming_of(tc), tc@, *c, opts.sort_methods),
{
    let ghost start = out@;
    write_class_head(out, c);
    append_str(out, "{\n");
    write_ivars(tc, out, &c.ivars);
    append_str(out, "}\n\n");
    let ghost mid = out@;
    let no_methods: Vec<Method> = Vec::new();
    assert(method_list(no_methods@) =~= Seq::<(Seq<u8>, Seq<u8>)>::empty());
    visit_methods(tc, out, &c.class_methods, &c.instance_methods, &no_methods, &no_methods, &c.properties, opts);
    let ghost mid2 = out@;
    if c.class_methods.len() > 0 || c.instance_methods.len() > 0 {
        append_str(out, "\n");
    }
    append_str(out, "@end\n\n");
    let ghost mt = methods_text(
        naming_of(tc),
        tc@,
        method_list(c.class_methods@),
        method_list(c.instance_methods@),
        Seq::empty(),
        Seq::empty(),
        property_list(c.properties@),
        opts.sort_methods,
    );
    assert(mid2 == mid + mt);
    assert(out@ =~= start + class_text(naming_of(tc), tc@, *c, opts.sort_methods));
}

/// See `protocol_text`.
pub fn visit_protocol(tc: &TypeController, out: &mut Vec<u8>, p: &Protocol, opts: &Options)
    ensures
        final(out)@ == old(out)@ + protocol_text(naming_of(tc), tc@, *p, opts.sort_methods),
{
    let ghost start = out@;
    append_str(out, "@protocol ");
    append(out, p.name.as_slice());
    write_protocols(out, &p.adopted_protocols);
    append_str(out, "\n");
    visit_methods(
        tc,
        out,
        &p.class_methods,
        &p.instance_methods,
        &p.optional_class_methods,
        &p.optional_instance_methods,
        &p.properties,
        opts,
    );
    append_str(out, "@end\n\n");
    assert(out@ =~= start + protocol_text(naming_of(tc), tc@, *p, opts.sort_methods));
}

/// See `category_text`.
pub fn visit_category(tc: &TypeController, out: &mut Vec<u8>, c: &Category, opts: &Options)
    ensures
        final(out)@ == old(out)@ + category_text(naming_of(tc), tc@, *c, opts.sort_methods),
{
    let ghost start = out@;
    append_str(out, "@interface ");
    append(out, c.class_name.as_slice());
    append_str(out, " (");
    append(out, c.name.as_slice());
    append_str(out, ")");
    write_protocols(out, &c.protocols);
    append_str(out, "\n");
    let no_methods: Vec<Method> = Vec::new();
    visit_methods(tc, out, &c.class_methods, &c.instance_methods, &no_methods, &no_methods, &c.properties, opts);
    assert(method_list(no_methods@) =~= Seq::<(Seq<u8>, Seq<u8>)>::empty());
    append_str(out, "@end\n\n");
    assert(out@ =~= start + category_text(naming_of(tc), tc@, *c, opts.sort_methods));
}


/// The controller after registering each type in turn.
pub open spec fn types_registered(c: ControllerModel, ts: Seq<TypeModel>, used: bool) -> ControllerModel
    decreases ts.len(),
{
    if ts.len() == 0 {
        c
    } else {
        p0_walk(types_registered(c, ts.drop_last(), used), ts.last(), used)
    }
}

/// The controller after registering the types of each method in turn.
pub open spec fn methods_registered(c: ControllerModel, ms: Seq<(Seq<u8>, Seq<u8>)>) -> ControllerModel
    decreases ms.len(),
{
    if ms.len() == 0 {
        c
    } else {
        types_registered(methods_registered(c, ms.drop_last()), method_types(ms.last().1, 0), true)
    }
}

/// The controller after registering the type of each instance variable.
pub open spec fn ivars_registered(c: ControllerModel, ivars: Seq<Ivar>) -> ControllerModel
    decreases ivars.len(),
{
    if ivars.len() == 0 {
        c
    } else {
        p0_walk(ivars_registered(c, ivars.drop_last()), one_type(ivars.last().type_string@), false)
    }
}

/// A class's instance variables, then its class and instance methods.
pub open spec fn class_registered(c: ControllerModel, cl: Class) -> ControllerModel {
    methods_registered(
        methods_registered(ivars_registered(c, cl.ivars@), method_list(cl.class_methods@)),
        method_list(cl.instance_methods@),
    )
}

/// A category's class and instance methods.
pub open spec fn category_registered(c: ControllerModel, cat: Category) -> ControllerModel {
    methods_registered(methods_registered(c, method_list(cat.class_methods@)), method_list(cat.instance_methods@))
}

/// A protocol's class, instance, optional class and optional instance
/// methods.
pub open spec fn protocol_registered(c: ControllerModel, p: Protocol) -> ControllerModel {
    methods_registered(
        methods_registered(
            methods_registered(methods_registered(c, method_list(p.class_methods@)), method_list(p.instance_methods@)),
            method_list(p.optional_class_methods@),
        ),
        method_list(p.optional_instance_methods@),
    )
}

pub open spec fn classes_registered(c: ControllerModel, cls: Seq<Class>) -> ControllerModel
    decreases cls.len(),
{
    if cls.len() == 0 {
        c
    } else {
        class_registered(classes_registered(c, cls.drop_last()), cls.last())
    }
}

pub open spec fn categories_registered(c: ControllerModel, cats: Seq<Category>) -> ControllerModel
    decreases cats.len(),
{
    if cats.len() == 0 {
        c
    } else {
        category_registered(categories_registered(c, cats.drop_last()), cats.last())
    }
}

pub open spec fn protocols_registered(c: ControllerModel, ps: Seq<Protocol>) -> ControllerModel
    decreases ps.len(),
{
    if ps.len() == 0 {
        c
    } else {
        protocol_registered(protocols_registered(c, ps.drop_last()), ps.last())
    }
}

/// Every type of the image registered: the classes, then the categories,
/// then the protocols.
pub open spec fn image_registered(c: ControllerModel, img: ObjcImage) -> ControllerModel {
    protocols_registered(categories_registered(classes_registered(c, img.classes@), img.categories@), img.protocols@)
}

fn register_types(tc: &mut TypeController, ts: &Vec<CDType>, used: bool)
    ensures
        final(tc)@ == types_registered(old(tc)@, tys_view(ts@), used),
{
    let ghost c0 = tc@;
    let ghost tv = tys_view(ts@);
    proof {
        crate::typ::lemma_tys_view(ts@);
    }
    let mut i: usize = 0;
    while i < ts.len()
        invariant
            i <= ts@.len(),
            tv == tys_view(ts@),
            tv.len() == ts@.len(),
            forall|k: int| 0 <= k < ts@.len() ==> #[trigger] tv[k] == ts@[k]@,
            tc@ == types_registered(c0, tv.subrange(0, i as int), used),
        decreases ts@.len() - i,
    {
        tc.register_type(&ts[i], used);
        proof {
            let pre = tv.subrange(0, i + 1);
            assert(pre.drop_last() =~= tv.subrange(0, i as int));
            assert(pre.last() == tv[i as int]);
        }
        i = i + 1;
    }
    assert(tv.subrange(0, i as int) =~= tv);
}

/// Registers the types of each method.
pub fn register_methods(tc: &mut TypeController, methods: &Vec<Method>)
    ensures
        final(tc)@ == methods_registered(old(tc)@, method_list(methods@)),
{
    let ghost c0 = tc@;
    let ghost ml = method_list(methods@);
    let mut i: usize = 0;
    while i < methods.len()
        invariant
            i <= methods@.len(),
            ml == method_list(methods@),
            tc@ == methods_registered(c0, ml.subrange(0, i as int)),
        decreases methods@.len() - i,
    {
        let types = parse_method_types(methods[i].type_string.as_slice());
        register_types(tc, &types, true);
        proof {
            let pre = ml.subrange(0, i + 1);
            assert(pre.drop_last() =~= ml.subrange(0, i as int));
            assert(pre.last() == ml[i as int]);
        }
        i = i + 1;
    }
    assert(ml.subrange(0, i as int) =~= ml);
}

fn register_ivars(tc: &mut TypeController, ivars: &Vec<Ivar>)
    ensures
        final(tc)@ == ivars_registered(old(tc)@, ivars@),
{
    let ghost c0 = tc@;
    let mut i: usize = 0;
    while i < ivars.len()
        invariant
            i <= ivars@.len(),
            tc@ == ivars_registered(c0, ivars@.subrange(0, i as int)),
        decreases ivars@.len() - i,
    {
        let ty = parse_one(ivars[i].type_string.as_slice());
        tc.register_type(&ty, false);
        proof {
            let pre = ivars@.subrange(0, i + 1);
            assert(pre.drop_last() =~= ivars@.subrange(0, i as int));
            assert(pre.last() == ivars@[i as int]);
        }
        i = i + 1;
    }
    assert(ivars@.subrange(0, i as int) =~= ivars@);
}

/// Registers every type of the image (see `image_registered`).
#[verifier::spinoff_prover]
#[verifier::rlimit(40)]
pub fn register_all_types(tc: &mut TypeController, image: &ObjcImage)
    ensures
        final(tc)@ == image_registered(old(tc)@, *image),
{
    let ghost c0 = tc@;
    let mut i: usize = 0;
    while i < image.classes.len()
        invariant
            i <= image.classes@.len(),
            tc@ == classes_registered(c0, image.classes@.subrange(0, i as int)),
        decreases image.classes@.len() - i,
    {
        let c = &image.classes[i];
        register_ivars(tc, &c.ivars);
        register_methods(tc, &c.class_methods);
        register_methods(tc, &c.instance_methods);
        proof {
            let pre = image.classes@.subrange(0, i + 1);
            assert(pre.drop_last() =~= image.classes@.subrange(0, i as int));
            assert(pre.last() == image.classes@[i as int]);
        }
        i = i + 1;
    }
    assert(image.classes@.subrange(0, i as int) =~= image.classes@);
    let ghost c1 = tc@;
    let mut i: usize = 0;
    while i < image.categories.len()
        invariant
            i <= image.categories@.len(),
            tc@ == categories_registered(c1, image.categories@.subrange(0, i as int)),
        decreases image.categories@.len() - i,
    {
        let cat = &image.categories[i];
        register_methods(tc, &cat.class_methods);
        register_methods(tc, &cat.instance_methods);
        proof {
            let pre = image.categories@.subrange(0, i + 1);
            assert(pre.drop_last() =~= image.categories@.subrange(0, i as int));
            assert(pre.last() == image.categories@[i as int]);
        }
        i = i + 1;
    }
    assert(image.categories@.subrange(0, i as int) =~= image.categories@);
    let ghost c2 = tc@;
    let mut i: usize = 0;
    while i < image.protocols.len()
        invariant
            i <= image.protocols@.len(),
            tc@ == protocols_registered(c2, image.protocols@.subrange(0, i as int)),
        decreases image.protocols@.len() - i,
    {
        let p = &image.protocols[i];
        register_methods(tc, &p.class_methods);
        register_methods(tc, &p.instance_methods);
        register_methods(tc, &p.optional_class_methods);
        register_methods(tc, &p.optional_instance_methods);
        proof {
            let pre = image.protocols@.subrange(0, i + 1);
            assert(pre.drop_last() =~= image.protocols@.subrange(0, i as int));
            assert(pre.last() == image.protocols@[i as int]);
        }
        i = i + 1;
    }
    assert(image.protocols@.subrange(0, i as int) =~= image.protocols@);
}


/// A controller's naming decisions, as functions of its model.
pub open spec fn controller_naming(c: ControllerModel) -> Naming {
    Naming {
        typedef_name: |t: TypeModel, cfg: FormatterCfg, l: nat| controller_typedef(c, t, cfg, l),
        expand: |t: TypeModel| controller_expands(c, t),
    }
}

pub proof fn lemma_controller_naming(tc: &TypeController)
    ensures
        naming_of(tc) == controller_naming(tc@),
{
    assert(naming_of(tc).typedef_name =~= controller_naming(tc@).typedef_name);
    assert(naming_of(tc).expand =~= controller_naming(tc@).expand);
}

/// The controller before anything is registered.
pub open spec fn fresh_controller() -> ControllerModel {
    ControllerModel {
        structs: empty_table("CDStruct_".spec_bytes()),
        unions: empty_table("CDUnion_".spec_bytes()),
        has_unknown_func_ptrs: false,
        has_unknown_blocks: false,
    }
}

pub open spec fn protocol_names(ps: Seq<Protocol>) -> Seq<Vec<u8>> {
    ps.map_values(|p: Protocol| p.name)
}

pub open spec fn class_names(cls: Seq<Class>) -> Seq<Vec<u8>> {
    cls.map_values(|c: Class| c.name)
}

/// The names of the classes the categories extend.
pub open spec fn extended_names(cats: Seq<Category>) -> Seq<Vec<u8>> {
    cats.map_values(|c: Category| c.class_name)
}

/// The entries whose name no earlier entry has.
pub open spec fn first_of_names(s: Seq<(Seq<u8>, int)>) -> Seq<(Seq<u8>, int)>
    decreases s.len(),
{
    if s.len() == 0 {
        Seq::empty()
    } else {
        let r = first_of_names(s.drop_last());
        if exists|j: int| 0 <= j < s.len() - 1 && #[trigger] s[j].0 == s.last().0 {
            r
        } else {
            r.push(s.last())
        }
    }
}

proof fn lemma_first_of_names_members(s: Seq<(Seq<u8>, int)>)
    ensures
        forall|i: int| 0 <= i < first_of_names(s).len() ==> s.contains(#[trigger] first_of_names(s)[i]),
    decreases s.len(),
{
    if s.len() > 0 {
        let init = s.drop_last();
        lemma_first_of_names_members(init);
        let r = first_of_names(init);
        let out = first_of_names(s);
        assert forall|i: int| 0 <= i < out.len() implies s.contains(#[trigger] out[i]) by {
            if i < r.len() {
                assert(out[i] == r[i]);
                assert(init.contains(r[i]));
                let j = choose|j: int| 0 <= j < init.len() && init[j] == r[i];
                assert(s[j] == r[i]);
            } else {
                assert(out[i] == s[s.len() - 1]);
            }
        }
    }
}

proof fn lemma_first_of_names_distinct(s: Seq<(Seq<u8>, int)>)
    ensures
        forall|i: int, j: int|
            0 <= i < j < first_of_names(s).len() ==> (#[trigger] first_of_names(s)[i]).0 != (
            #[trigger] first_of_names(s)[j]).0,
    decreases s.len(),
{
    if s.len() > 0 {
        let init = s.drop_last();
        let x = s.last();
        lemma_first_of_names_distinct(init);
        lemma_first_of_names_members(init);
        let r = first_of_names(init);
        let out = first_of_names(s);
        if !(exists|j: int| 0 <= j < s.len() - 1 && #[trigger] s[j].0 == x.0) {
            assert(out == r.push(x));
            assert forall|i: int, j: int| 0 <= i < j < out.len() implies (#[trigger] out[i]).0 != (#[trigger] out[j]).0 by {
                if j == r.len() {
                    assert(out[i] == r[i]);
                    assert(init.contains(r[i]));
                    let m = choose|m: int| 0 <= m < init.len() && init[m] == r[i];
                    assert(s[m] == init[m]);
                } else {
                    assert(out[i] == r[i]);
                    assert(out[j] == r[j]);
                }
            }
        }
    }
}

proof fn lemma_first_of_names_covers(s: Seq<(Seq<u8>, int)>)
    ensures
        forall|k: int|
            0 <= k < s.len() ==> exists|i: int|
                0 <= i < first_of_names(s).len() && (#[trigger] first_of_names(s)[i]).0 == (#[trigger] s[k]).0,
    decreases s.len(),
{
    if s.len() > 0 {
        let init = s.drop_last();
        let x = s.last();
        lemma_first_of_names_covers(init);
        let r = first_of_names(init);
        let out = first_of_names(s);
        assert(forall|i: int| 0 <= i < r.len() ==> out[i] == r[i]);
        assert forall|k: int| 0 <= k < s.len() implies exists|i: int|
            0 <= i < out.len() && (#[trigger] out[i]).0 == (#[trigger] s[k]).0 by {
            if k < s.len() - 1 {
                assert(s[k] == init[k]);
                let i = choose|i: int| 0 <= i < r.len() && (#[trigger] r[i]).0 == (#[trigger] init[k]).0;
                assert(out[i] == r[i]);
            } else if exists|j: int| 0 <= j < s.len() - 1 && #[trigger] s[j].0 == x.0 {
                let j = choose|j: int| 0 <= j < s.len() - 1 && #[trigger] s[j].0 == x.0;
                assert(s[j] == init[j]);
                let i = choose|i: int| 0 <= i < r.len() && (#[trigger] r[i]).0 == (#[trigger] init[j]).0;
                assert(out[i] == r[i]);
            } else {
                assert(out[r.len() as int] == x);
            }
        }
    }
}

/// Where entries of equal name count up in `s`, each kept entry has the
/// least second component among the entries of its name.
proof fn lemma_first_of_names_least(s: Seq<(Seq<u8>, int)>)
    requires
        forall|a: int, b: int| 0 <= a < b < s.len() && (#[trigger] s[a]).0 == (#[trigger] s[b]).0 ==> s[a].1 < s[b].1,
    ensures
        forall|i: int, j: int|
            0 <= i < first_of_names(s).len() && 0 <= j < s.len() && (#[trigger] s[j]).0 == (
            #[trigger] first_of_names(s)[i]).0 ==> first_of_names(s)[i].1 <= s[j].1,
    decreases s.len(),
{
    if s.len() > 0 {
        let init = s.drop_last();
        let x = s.last();
        assert forall|a: int, b: int| 0 <= a < b < init.len() && (#[trigger] init[a]).0 == (#[trigger] init[b]).0 implies init[a].1 < init[b].1 by {
            assert(init[a] == s[a]);
            assert(init[b] == s[b]);
        }
        lemma_first_of_names_least(init);
        lemma_first_of_names_members(init);
        let r = first_of_names(init);
        let out = first_of_names(s);
        let seen = exists|j: int| 0 <= j < s.len() - 1 && #[trigger] s[j].0 == x.0;
        assert forall|i: int, j: int|
            0 <= i < out.len() && 0 <= j < s.len() && (#[trigger] s[j]).0 == (#[trigger] out[i]).0 implies out[i].1 <= s[j].1 by {
            if i < r.len() {
                assert(out[i] == r[i]);
                if j < s.len() - 1 {
                    assert(s[j] == init[j]);
                } else {
                    assert(init.contains(r[i]));
                    let m = choose|m: int| 0 <= m < init.len() && init[m] == r[i];
                    assert(s[m] == init[m]);
                }
            } else {
                assert(!seen);
                assert(out[i] == x);
                if j < s.len() - 1 {
                    assert(s[j].0 == x.0);
                }
            }
        }
    }
}

proof fn lemma_first_of_names_sorted(s: Seq<(Seq<u8>, int)>)
    requires
        sorted_names(s),
    ensures
        sorted_names(first_of_names(s)),
    decreases s.len(),
{
    if s.len() > 0 {
        let init = s.drop_last();
        let x = s.last();
        assert(sorted_names(init));
        lemma_first_of_names_sorted(init);
        lemma_first_of_names_members(init);
        let r = first_of_names(init);
        let out = first_of_names(s);
        if !(exists|j: int| 0 <= j < s.len() - 1 && #[trigger] s[j].0 == x.0) {
            assert(out == r.push(x));
            assert forall|i: int, j: int| 0 <= i < j < out.len() implies !crate::order::bytes_lt(
                #[trigger] out[j].0,
                #[trigger] out[i].0,
            ) by {
                assert(out[i] == r[i]);
                if j == r.len() {
                    assert(init.contains(r[i]));
                    let m = choose|m: int| 0 <= m < init.len() && init[m] == r[i];
                    assert(s[m] == init[m]);
                    assert(out[j] == s[s.len() - 1]);
                } else {
                    assert(out[j] == r[j]);
                }
            }
        }
    }
}

/// What a stable sort by name makes of the keyed names `keys`: sorted by
/// name, one entry per index, each index once, each entry naming its index.
proof fn lemma_sorted_keyed(keys: Seq<Vec<u8>>)
    ensures
        sorted_names(sorted_by_name(keyed(keys))),
        sorted_by_name(keyed(keys)).len() == keys.len(),
        forall|i: int|
            0 <= i < sorted_by_name(keyed(keys)).len() ==> 0 <= (#[trigger] sorted_by_name(keyed(keys))[i]).1 < keys.len()
                && sorted_by_name(keyed(keys))[i].0 == keys[sorted_by_name(keyed(keys))[i].1]@,
        sorted_by_name(keyed(keys)).no_duplicates(),
        forall|a: int, b: int|
            0 <= a < b < sorted_by_name(keyed(keys)).len() && (#[trigger] sorted_by_name(keyed(keys))[a]).0 == (
            #[trigger] sorted_by_name(keyed(keys))[b]).0 ==> sorted_by_name(keyed(keys))[a].1 < sorted_by_name(
                keyed(keys),
            )[b].1,
{
    let k = keyed(keys);
    let o = sorted_by_name(k);
    lemma_sorted_by_name_stable(k);
    lemma_sorted_by_name_sorted(k);
    lemma_sorted_by_name_permutes(k);
    broadcast use vstd::seq_lib::group_to_multiset_ensures;
    assert forall|i: int| 0 <= i < o.len() implies 0 <= (#[trigger] o[i]).1 < keys.len() && o[i].0 == keys[o[i].1]@ by {
        assert(o.to_multiset().count(o[i]) > 0);
        assert(k.contains(o[i]));
        let m = choose|m: int| 0 <= m < k.len() && k[m] == o[i];
        assert(k[m] == (keys[m]@, m));
    }
    assert(k.no_duplicates()) by {
        assert forall|i: int, j: int| 0 <= i < k.len() && 0 <= j < k.len() && i != j implies k[i] != k[j] by {
            assert(k[i].1 == i);
            assert(k[j].1 == j);
        }
    }
    k.lemma_multiset_has_no_duplicates();
    o.lemma_multiset_has_no_duplicates_conv();
}

proof fn lemma_protocol_first_per_name(ps: Seq<Protocol>)
    ensures
        ({
            let o = first_of_names(sorted_by_name(keyed(protocol_names(ps))));
            forall|i: int, m: int| 0 <= i < o.len() && 0 <= m < o[i].1 ==> (#[trigger] ps[m]).name@ != (#[trigger] o[i]).0
        }),
{
    let names = protocol_names(ps);
    let t = sorted_by_name(keyed(names));
    let o = first_of_names(t);
    lemma_sorted_keyed(names);
    lemma_first_of_names_members(t);
    lemma_first_of_names_least(t);
    broadcast use vstd::seq_lib::group_to_multiset_ensures;
    lemma_sorted_by_name_permutes(keyed(names));
    assert forall|i: int, m: int| 0 <= i < o.len() && 0 <= m < o[i].1 implies (#[trigger] ps[m]).name@ != (#[trigger] o[i]).0 by {
        assert(t.contains(o[i]));
        let p = choose|p: int| 0 <= p < t.len() && t[p] == o[i];
        if ps[m].name@ == o[i].0 {
            let key = keyed(names)[m];
            assert(keyed(names).contains(key));
            assert(t.to_multiset().count(key) > 0);
            assert(t.contains(key));
            let q = choose|q: int| 0 <= q < t.len() && t[q] == key;
            assert(t[q].0 == o[i].0);
        }
    }
}

/// The protocol section of `dump` follows name order and shows each name
/// once: its entries are sorted by name, no two share a name, the name of
/// every protocol is among them, and each entry shows the first protocol of
/// the image with that name.
pub proof fn lemma_protocol_section_order(ps: Seq<Protocol>)
    ensures
        ({
            let o = first_of_names(sorted_by_name(keyed(protocol_names(ps))));
            &&& sorted_names(o)
            &&& forall|i: int, j: int| 0 <= i < j < o.len() ==> (#[trigger] o[i]).0 != (#[trigger] o[j]).0
            &&& forall|k: int| 0 <= k < ps.len() ==> exists|i: int| 0 <= i < o.len() && (#[trigger] o[i]).0 == (#[trigger] ps[k]).name@
            &&& forall|i: int| 0 <= i < o.len() ==> 0 <= (#[trigger] o[i]).1 < ps.len() && ps[o[i].1].name@ == o[i].0
            &&& forall|i: int, m: int| 0 <= i < o.len() && 0 <= m < o[i].1 ==> (#[trigger] ps[m]).name@ != (#[trigger] o[i]).0
        }),
{
    let names = protocol_names(ps);
    let t = sorted_by_name(keyed(names));
    let o = first_of_names(t);
    lemma_sorted_keyed(names);
    lemma_first_of_names_members(t);
    lemma_first_of_names_distinct(t);
    lemma_first_of_names_covers(t);
    lemma_first_of_names_sorted(t);
    broadcast use vstd::seq_lib::group_to_multiset_ensures;
    lemma_sorted_by_name_permutes(keyed(names));
    assert forall|k: int| 0 <= k < ps.len() implies exists|i: int| 0 <= i < o.len() && (#[trigger] o[i]).0 == (#[trigger] ps[k]).name@ by {
        let key = keyed(names)[k];
        assert(keyed(names).contains(key));
        assert(t.to_multiset().count(key) > 0);
        assert(t.contains(key));
        let m = choose|m: int| 0 <= m < t.len() && t[m] == key;
        let i = choose|i: int| 0 <= i < o.len() && (#[trigger] o[i]).0 == (#[trigger] t[m]).0;
        assert(o[i].0 == ps[k].name@);
    }
    assert forall|i: int| 0 <= i < o.len() implies 0 <= (#[trigger] o[i]).1 < ps.len() && ps[o[i].1].name@ == o[i].0 by {
        assert(t.contains(o[i]));
        let m = choose|m: int| 0 <= m < t.len() && t[m] == o[i];
        assert(0 <= t[m].1 < names.len() && t[m].0 == names[t[m].1]@);
    }
    lemma_protocol_first_per_name(ps);
}

/// The class section of `dump` shows each class exactly once, in name
/// order: its entries are sorted by name, one per class, no class index
/// twice, each entry showing the class at its index; classes of equal name
/// keep their order in the image.
pub proof fn lemma_class_section_order(cls: Seq<Class>)
    ensures
        ({
            let o = sorted_by_name(keyed(class_names(cls)));
            &&& sorted_names(o)
            &&& o.len() == cls.len()
            &&& forall|i: int, j: int| 0 <= i < j < o.len() ==> (#[trigger] o[i]).1 != (#[trigger] o[j]).1
            &&& forall|i: int| 0 <= i < o.len() ==> 0 <= (#[trigger] o[i]).1 < cls.len() && cls[o[i].1].name@ == o[i].0
            &&& forall|a: int, b: int| 0 <= a < b < o.len() && (#[trigger] o[a]).0 == (#[trigger] o[b]).0 ==> o[a].1 < o[b].1
        }),
{
    let names = class_names(cls);
    let o = sorted_by_name(keyed(names));
    lemma_sorted_keyed(names);
    assert forall|i: int, j: int| 0 <= i < j < o.len() implies (#[trigger] o[i]).1 != (#[trigger] o[j]).1 by {
        if o[i].1 == o[j].1 {
            assert(o[i] == o[j]);
        }
    }
}

/// The category section of `dump` shows each category exactly once, in the
/// name order of the classes they extend: its entries are sorted by that
/// name, one per category, no index twice, each entry showing the category
/// at its index; categories of the same class keep their order in the image.
pub proof fn lemma_category_section_order(cats: Seq<Category>)
    ensures
        ({
            let o = sorted_by_name(keyed(extended_names(cats)));
            &&& sorted_names(o)
            &&& o.len() == cats.len()
            &&& forall|i: int, j: int| 0 <= i < j < o.len() ==> (#[trigger] o[i]).1 != (#[trigger] o[j]).1
            &&& forall|i: int| 0 <= i < o.len() ==> 0 <= (#[trigger] o[i]).1 < cats.len() && cats[o[i].1].class_name@ == o[i].0
            &&& forall|a: int, b: int| 0 <= a < b < o.len() && (#[trigger] o[a]).0 == (#[trigger] o[b]).0 ==> o[a].1 < o[b].1
        }),
{
    let names = extended_names(cats);
    let o = sorted_by_name(keyed(names));
    lemma_sorted_keyed(names);
    assert forall|i: int, j: int| 0 <= i < j < o.len() implies (#[trigger] o[i]).1 != (#[trigger] o[j]).1 by {
        if o[i].1 == o[j].1 {
            assert(o[i] == o[j]);
        }
    }
}

/// The protocols at the given (name, index) entries.
pub open spec fn protocols_at(nm: Naming, c: ControllerModel, ps: Seq<Protocol>, order: Seq<(Seq<u8>, int)>, sort: bool) -> Seq<u8>
    decreases order.len(),
{
    if order.len() == 0 {
        Seq::empty()
    } else {
        protocols_at(nm, c, ps, order.drop_last(), sort) + protocol_text(nm, c, ps[order.last().1], sort)
    }
}

pub open spec fn classes_at(nm: Naming, c: ControllerModel, cls: Seq<Class>, order: Seq<(Seq<u8>, int)>, sort: bool) -> Seq<u8>
    decreases order.len(),
{
    if order.len() == 0 {
        Seq::empty()
    } else {
        classes_at(nm, c, cls, order.drop_last(), sort) + class_text(nm, c, cls[order.last().1], sort)
    }
}

pub open spec fn categories_at(nm: Naming, c: ControllerModel, cats: Seq<Category>, order: Seq<(Seq<u8>, int)>, sort: bool) -> Seq<u8>
    decreases order.len(),
{
    if order.len() == 0 {
        Seq::empty()
    } else {
        categories_at(nm, c, cats, order.drop_last(), sort) + category_text(nm, c, cats[order.last().1], sort)
    }
}

/// The protocols sorted by name, each name once (the first of them).
pub open spec fn protocol_section(nm: Naming, c: ControllerModel, ps: Seq<Protocol>, sort: bool) -> Seq<u8> {
    protocols_at(nm, c, ps, first_of_names(sorted_by_name(keyed(protocol_names(ps)))), sort)
}

/// The classes sorted by name.
pub open spec fn class_section(nm: Naming, c: ControllerModel, cls: Seq<Class>, sort: bool) -> Seq<u8> {
    classes_at(nm, c, cls, sorted_by_name(keyed(class_names(cls))), sort)
}

/// The categories sorted by the name of the class they extend.
pub open spec fn category_section(nm: Naming, c: ControllerModel, cats: Seq<Category>, sort: bool) -> Seq<u8> {
    categories_at(nm, c, cats, sorted_by_name(keyed(extended_names(cats))), sort)
}

/// See `protocol_section`.
fn write_protocol_section(tc: &TypeController, out: &mut Vec<u8>, ps: &Vec<Protocol>, opts: &Options)
    ensures
        final(out)@ == old(out)@ + protocol_section(naming_of(tc), tc@, ps@, opts.sort_methods),
{
    let ghost start = out@;
    let ghost nm = naming_of(tc);
    let mut names: Vec<Vec<u8>> = Vec::new();
    let mut i: usize = 0;
    while i < ps.len()
        invariant
            i <= ps@.len(),
            names@.len() == i,
            forall|j: int| 0 <= j < i ==> (#[trigger] names@[j])@ == ps@[j].name@,
        decreases ps@.len() - i,
    {
        names.push(to_vec(ps[i].name.as_slice()));
        i = i + 1;
    }
    assert(keyed(names@) =~= keyed(protocol_names(ps@)));
    let order = sort_indices(&names);
    let ghost so = sorted_by_name(keyed(names@));
    let mut i: usize = 0;
    while i < order.len()
        invariant
            i <= order@.len(),
            names@.len() == ps@.len(),
            nm == naming_of(tc),
            so == sorted_by_name(keyed(names@)),
            so == keyed_at(names@, order@),
            so == sorted_by_name(keyed(protocol_names(ps@))),
            forall|j: int| 0 <= j < order@.len() ==> #[trigger] order@[j] < names@.len(),
            out@ == start + protocols_at(nm, tc@, ps@, first_of_names(so.subrange(0, i as int)), opts.sort_methods),
        decreases order@.len() - i,
    {
        let k = order[i];
        let mut seen = false;
        let mut j: usize = 0;
        while j < i
            invariant
                j <= i < order@.len(),
                names@.len() == ps@.len(),
                forall|q: int| 0 <= q < order@.len() ==> #[trigger] order@[q] < names@.len(),
                k == order@[i as int],
                so == keyed_at(names@, order@),
                seen ==> exists|q: int| 0 <= q < i && #[trigger] so[q].0 == so[i as int].0,
                !seen ==> forall|q: int| 0 <= q < j ==> #[trigger] so[q].0 != so[i as int].0,
            decreases i - j,
        {
            if bytes_eq(names[order[j]].as_slice(), names[k].as_slice()) {
                assert(so[j as int].0 == so[i as int].0);
                seen = true;
            }
            j = j + 1;
        }
        let ghost pre = so.subrange(0, i + 1);
        proof {
            assert(pre.drop_last() =~= so.subrange(0, i as int));
            assert(pre.last() == so[i as int]);
            if seen {
                let q = choose|q: int| 0 <= q < i && #[trigger] so[q].0 == so[i as int].0;
                assert(pre[q].0 == pre.last().0);
            } else {
                assert forall|q: int| 0 <= q < pre.len() - 1 implies #[trigger] pre[q].0 != pre.last().0 by {
                    assert(pre[q] == so[q]);
                }
            }
        }
        let ghost f = first_of_names(so.subrange(0, i as int));
        if !seen {
            visit_protocol(tc, out, &ps[k], opts);
            proof {
                assert(first_of_names(pre) == f.push(so[i as int]));
                assert(f.push(so[i as int]).drop_last() =~= f);
                assert(so[i as int].1 == k as int);
            }
        } else {
            assert(first_of_names(pre) == f);
        }
        i = i + 1;
    }
    assert(so.subrange(0, i as int) =~= so);
}

/// See `class_section`.
fn write_class_section(tc: &TypeController, out: &mut Vec<u8>, cls: &Vec<Class>, opts: &Options)
    ensures
        final(out)@ == old(out)@ + class_section(naming_of(tc), tc@, cls@, opts.sort_methods),
{
    let ghost start = out@;
    let ghost nm = naming_of(tc);
    let mut names: Vec<Vec<u8>> = Vec::new();
    let mut i: usize = 0;
    while i < cls.len()
        invariant
            i <= cls@.len(),
            names@.len() == i,
            forall|j: int| 0 <= j < i ==> (#[trigger] names@[j])@ == cls@[j].name@,
        decreases cls@.len() - i,
    {
        names.push(to_vec(cls[i].name.as_slice()));
        i = i + 1;
    }
    assert(keyed(names@) =~= keyed(class_names(cls@)));
    let order = sort_indices(&names);
    let ghost so = sorted_by_name(keyed(names@));
    let mut i: usize = 0;
    while i < order.len()
        invariant
            i <= order@.len(),
            names@.len() == cls@.len(),
            nm == naming_of(tc),
            so == keyed_at(names@, order@),
            so == sorted_by_name(keyed(class_names(cls@))),
            forall|j: int| 0 <= j < order@.len() ==> #[trigger] order@[j] < names@.len(),
            out@ == start + classes_at(nm, tc@, cls@, so.subrange(0, i as int), opts.sort_methods),
        decreases order@.len() - i,
    {
        visit_class(tc, out, &cls[order[i]], opts);
        proof {
            let pre = so.subrange(0, i + 1);
            assert(pre.drop_last() =~= so.subrange(0, i as int));
            assert(pre.last() == so[i as int]);
        }
        i = i + 1;
    }
    assert(so.subrange(0, i as int) =~= so);
}

/// See `category_section`.
fn write_category_section(tc: &TypeController, out: &mut Vec<u8>, cats: &Vec<Category>, opts: &Options)
    ensures
        final(out)@ == old(out)@ + category_section(naming_of(tc), tc@, cats@, opts.sort_methods),
{
    let ghost start = out@;
    let ghost nm = naming_of(tc);
    let mut names: Vec<Vec<u8>> = Vec::new();
    let mut i: usize = 0;
    while i < cats.len()
        invariant
            i <= cats@.len(),
            names@.len() == i,
            forall|j: int| 0 <= j < i ==> (#[trigger] names@[j])@ == cats@[j].class_name@,
        decreases cats@.len() - i,
    {
        names.push(to_vec(cats[i].class_name.as_slice()));
        i = i + 1;
    }
    assert(keyed(names@) =~= keyed(extended_names(cats@)));
    let order = sort_indices(&names);
    let ghost so = sorted_by_name(keyed(names@));
    let mut i: usize = 0;
    while i < order.len()
        invariant
            i <= order@.len(),
            names@.len() == cats@.len(),
            nm == naming_of(tc),
            so == keyed_at(names@, order@),
            so == sorted_by_name(keyed(extended_names(cats@))),
            forall|j: int| 0 <= j < order@.len() ==> #[trigger] order@[j] < names@.len(),
            out@ == start + categories_at(nm, tc@, cats@, so.subrange(0, i as int), opts.sort_methods),
        decreases order@.len() - i,
    {
        visit_category(tc, out, &cats[order[i]], opts);
        proof {
            let pre = so.subrange(0, i + 1);
            assert(pre.drop_last() =~= so.subrange(0, i as int));
            assert(pre.last() == so[i as int]);
        }
        i = i + 1;
    }
    assert(so.subrange(0, i as int) =~= so);
}


/// The banner at the top of the output.
pub open spec fn dump_header() -> Seq<u8> {
    "//\n".spec_bytes() + "//     Generated by class-dump 3.5.1 (64 bit).\n".spec_bytes() + "//\n".spec_bytes()
        + "//  Copyright (C) 1997-2019 Steve Nygard.\n".spec_bytes() + "//\n\n".spec_bytes()
}

/// The structure declarations of a controller.
pub open spec fn structures_of(c: ControllerModel) -> Seq<u8> {
    structures_text(controller_naming(c), c, table_order_of(c.structs), table_order_of(c.unions))
}

/// The controller after every type of the image is registered and the
/// naming phases ran.
pub open spec fn named_controller(img: ObjcImage) -> ControllerModel {
    magic(image_registered(fresh_controller(), img))
}

/// The whole output: the banner, the structure declarations (when the
/// file has Objective-C metadata), the file's comment block, then the
/// protocols, classes and categories, all named by `named_controller`.
pub open spec fn dump_text(m: MachOFile, img: ObjcImage, sort: bool) -> Seq<u8> {
    let c = named_controller(img);
    let nm = controller_naming(c);
    dump_header() + (if m.spec_has_objc2() || m.spec_has_objc1() {
        structures_of(c)
    } else {
        Seq::empty()
    }) + comment_block(m) + "\n".spec_bytes() + protocol_section(nm, c, img.protocols@, sort) + class_section(
        nm,
        c,
        img.classes@,
        sort,
    ) + category_section(nm, c, img.categories@, sort)
}

/// The declarations class-dump prints for an image (see `dump_text`).
pub fn dump(macho: &MachOFile, image: &ObjcImage, opts: &Options) -> (r: Vec<u8>)
    ensures
        r@ == dump_text(*macho, *image, opts.sort_methods),
{
    let mut tc = TypeController::new();
    assert(tc@ == fresh_controller());
    register_all_types(&mut tc, image);
    tc.work_some_magic();
    let ghost c = tc@;
    proof {
        lemma_controller_naming(&tc);
    }
    let mut out: Vec<u8> = Vec::new();
    append_str(&mut out, "//\n");
    append_str(&mut out, "//     Generated by class-dump 3.5.1 (64 bit).\n");
    append_str(&mut out, "//\n");
    append_str(&mut out, "//  Copyright (C) 1997-2019 Steve Nygard.\n");
    append_str(&mut out, "//\n\n");
    let ghost head = out@;
    assert(head =~= dump_header());
    if macho.has_objc2_data() || macho.has_objc1_data() {
        tc.append_structures(&mut out);
    }
    append(&mut out, file_comment_block(macho).as_slice());
    append_str(&mut out, "\n");
    write_protocol_section(&tc, &mut out, &image.protocols, opts);
    write_class_section(&tc, &mut out, &image.classes, opts);
    write_category_section(&tc, &mut out, &image.categories, opts);
    assert(out@ =~= dump_text(*macho, *image, opts.sort_methods));
    out
}

} // verus!
