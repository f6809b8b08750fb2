//! Objective-C declarations of `@encode` types: `formatted_string` and the
//! pieces it is made of.

use vstd::prelude::*;
use vstd::string::StringSliceAdditionalSpecFns;
use crate::parse::{join, write_joined};
use crate::text::{append, append_str, bytes_eq};
use crate::typ::{
    is_modifier, names_of, tag_of, CDType, TypeModel, ENC_ARRAY, ENC_ATOM, ENC_BITFIELD, ENC_BOOL, ENC_BYCOPY,
    ENC_BYREF, ENC_CHAR, ENC_CLASS, ENC_COMPLEX, ENC_CONST, ENC_DOUBLE, ENC_FLOAT, ENC_ID, ENC_IN, ENC_INOUT,
    ENC_INT, ENC_LONG, ENC_LONG_DOUBLE, ENC_LONG_LONG, ENC_ONEWAY, ENC_OUT, ENC_POINTER, ENC_SEL, ENC_SHORT,
    ENC_STRING, ENC_STRUCT, ENC_UCHAR, ENC_UINT, ENC_ULONG, ENC_ULONG_LONG, ENC_UNION, ENC_UNKNOWN, ENC_USHORT,
    ENC_VOID, ENC_ATOMIC, T_BLOCK, T_FUNCTION_POINTER, T_NAMED_OBJECT,
};

verus! {

/// How a type is laid out: whether records are written out in full, and
/// the indentation of the enclosing declaration.
#[derive(Clone, Copy)]
pub struct FormatterCfg {
    pub should_expand: bool,
    pub should_auto_expand: bool,
    pub base_level: usize,
    pub is_struct_decl: bool,
}

/// Supplies typedef names for records and decides which records are
/// written out in full.
pub trait TypeNamer {
    /// The typedef name `typedef_name_for_structure` gives.
    spec fn spec_typedef_name(&self, ty: TypeModel, cfg: FormatterCfg, level: nat) -> Option<Seq<u8>>;

    /// What `should_expand_type` answers.
    spec fn spec_should_expand(&self, ty: TypeModel) -> bool;

    fn typedef_name_for_structure(&self, ty: &CDType, cfg: &FormatterCfg, level: usize) -> (r: Option<Vec<u8>>)
        ensures
            crate::typ::opt_bytes(r) == self.spec_typedef_name(ty@, *cfg, level as nat),
    ;

    fn should_expand_type(&self, ty: &CDType) -> (r: bool)
        ensures
            r == self.spec_should_expand(ty@),
    ;
}

/// The namer of block signatures: no typedef names, nothing written out.
pub struct NullNamer;

impl TypeNamer for NullNamer {
    open spec fn spec_typedef_name(&self, ty: TypeModel, cfg: FormatterCfg, level: nat) -> Option<Seq<u8>> {
        None
    }

    open spec fn spec_should_expand(&self, ty: TypeModel) -> bool {
        false
    }

    fn typedef_name_for_structure(&self, _ty: &CDType, _cfg: &FormatterCfg, _level: usize) -> (r: Option<Vec<u8>>) {
        None
    }

    fn should_expand_type(&self, _ty: &CDType) -> (r: bool) {
        false
    }
}

/// A namer's decisions, as functions.
pub struct Naming {
    pub typedef_name: spec_fn(TypeModel, FormatterCfg, nat) -> Option<Seq<u8>>,
    pub expand: spec_fn(TypeModel) -> bool,
}

pub open spec fn naming_of<N: TypeNamer>(n: &N) -> Naming {
    Naming {
        typedef_name: |t: TypeModel, c: FormatterCfg, l: nat| n.spec_typedef_name(t, c, l),
        expand: |t: TypeModel| n.spec_should_expand(t),
    }
}

/// The naming of block signatures.
pub open spec fn null_naming() -> Naming {
    naming_of(&NullNamer)
}

/// The layout of block signatures.
pub open spec fn block_cfg() -> FormatterCfg {
    FormatterCfg { should_expand: false, should_auto_expand: false, base_level: 0, is_struct_decl: false }
}

/// The C name of a scalar type or type qualifier.
pub open spec fn simple_name(prim: u8) -> Seq<u8> {
    if prim == ENC_CHAR {
        "char".spec_bytes()
    } else if prim == ENC_INT {
        "int".spec_bytes()
    } else if prim == ENC_SHORT {
        "short".spec_bytes()
    } else if prim == ENC_LONG {
        "long".spec_bytes()
    } else if prim == ENC_LONG_LONG {
        "long long".spec_bytes()
    } else if prim == ENC_UCHAR {
        "unsigned char".spec_bytes()
    } else if prim == ENC_UINT {
        "unsigned int".spec_bytes()
    } else if prim == ENC_USHORT {
        "unsigned short".spec_bytes()
    } else if prim == ENC_ULONG {
        "unsigned long".spec_bytes()
    } else if prim == ENC_ULONG_LONG {
        "unsigned long long".spec_bytes()
    } else if prim == ENC_FLOAT {
        "float".spec_bytes()
    } else if prim == ENC_DOUBLE {
        "double".spec_bytes()
    } else if prim == ENC_LONG_DOUBLE {
        "long double".spec_bytes()
    } else if prim == ENC_BOOL {
        "_Bool".spec_bytes()
    } else if prim == ENC_VOID {
        "void".spec_bytes()
    } else if prim == ENC_STRING {
        "STR".spec_bytes()
    } else if prim == ENC_CLASS {
        "Class".spec_bytes()
    } else if prim == ENC_SEL {
        "SEL".spec_bytes()
    } else if prim == ENC_ATOM {
        "NXAtom".spec_bytes()
    } else if prim == ENC_UNKNOWN {
        "void".spec_bytes()
    } else if prim == ENC_COMPLEX {
        "_Complex".spec_bytes()
    } else if prim == ENC_CONST {
        "const".spec_bytes()
    } else if prim == ENC_IN {
        "in".spec_bytes()
    } else if prim == ENC_INOUT {
        "inout".spec_bytes()
    } else if prim == ENC_OUT {
        "out".spec_bytes()
    } else if prim == ENC_BYCOPY {
        "bycopy".spec_bytes()
    } else if prim == ENC_BYREF {
        "byref".spec_bytes()
    } else if prim == ENC_ONEWAY {
        "oneway".spec_bytes()
    } else if prim == ENC_ATOMIC {
        "_Atomic".spec_bytes()
    } else {
        "UNKNOWN".spec_bytes()
    }
}

/// The numeric scalar `@encode` characters: `c i s l q C I S L Q f d D B`.
pub open spec fn numeric_scalar(prim: u8) -> bool {
    prim == ENC_CHAR || prim == ENC_INT || prim == ENC_SHORT || prim == ENC_LONG || prim == ENC_LONG_LONG || prim
        == ENC_UCHAR || prim == ENC_UINT || prim == ENC_USHORT || prim == ENC_ULONG || prim == ENC_ULONG_LONG || prim
        == ENC_FLOAT || prim == ENC_DOUBLE || prim == ENC_LONG_DOUBLE || prim == ENC_BOOL
}

/// The C types of the numeric scalars: `c` char, `i` int, `s` short, `l`
/// long, `q` long long, `f` float, `d` double, `B` _Bool; the capital
/// integer letters are the unsigned types of their lower-case letters, and
/// `D` is long double.
pub proof fn lemma_scalar_type_names()
    ensures
        simple_name(ENC_CHAR) == "char".spec_bytes(),
        simple_name(ENC_INT) == "int".spec_bytes(),
        simple_name(ENC_SHORT) == "short".spec_bytes(),
        simple_name(ENC_LONG) == "long".spec_bytes(),
        simple_name(ENC_LONG_LONG) == "long long".spec_bytes(),
        simple_name(ENC_FLOAT) == "float".spec_bytes(),
        simple_name(ENC_DOUBLE) == "double".spec_bytes(),
        simple_name(ENC_BOOL) == "_Bool".spec_bytes(),
        simple_name(ENC_UCHAR) == "unsigned ".spec_bytes() + simple_name(ENC_CHAR),
        simple_name(ENC_UINT) == "unsigned ".spec_bytes() + simple_name(ENC_INT),
        simple_name(ENC_USHORT) == "unsigned ".spec_bytes() + simple_name(ENC_SHORT),
        simple_name(ENC_ULONG) == "unsigned ".spec_bytes() + simple_name(ENC_LONG),
        simple_name(ENC_ULONG_LONG) == "unsigned ".spec_bytes() + simple_name(ENC_LONG_LONG),
        simple_name(ENC_LONG_DOUBLE) == "long ".spec_bytes() + simple_name(ENC_DOUBLE),
{
    reveal_strlit("unsigned ");
    reveal_strlit("long ");
    reveal_strlit("char");
    reveal_strlit("int");
    reveal_strlit("short");
    reveal_strlit("long");
    reveal_strlit("long long");
    reveal_strlit("double");
    reveal_strlit("unsigned char");
    reveal_strlit("unsigned int");
    reveal_strlit("unsigned short");
    reveal_strlit("unsigned long");
    reveal_strlit("unsigned long long");
    reveal_strlit("long double");
    assert("unsigned char"@ =~= "unsigned "@ + "char"@);
    assert("unsigned int"@ =~= "unsigned "@ + "int"@);
    assert("unsigned short"@ =~= "unsigned "@ + "short"@);
    assert("unsigned long"@ =~= "unsigned "@ + "long"@);
    assert("unsigned long long"@ =~= "unsigned "@ + "long long"@);
    assert("long double"@ =~= "long "@ + "double"@);
    crate::text::lemma_encode_utf8_concat("unsigned "@, "char"@);
    crate::text::lemma_encode_utf8_concat("unsigned "@, "int"@);
    crate::text::lemma_encode_utf8_concat("unsigned "@, "short"@);
    crate::text::lemma_encode_utf8_concat("unsigned "@, "long"@);
    crate::text::lemma_encode_utf8_concat("unsigned "@, "long long"@);
    crate::text::lemma_encode_utf8_concat("long "@, "double"@);
}

/// The other simple `@encode` characters: `v` and `?` are void, `*` STR,
/// `#` Class, `:` SEL, `%` NXAtom; the modifiers `j r n N o O R V A` are
/// _Complex, const, in, inout, out, bycopy, byref, oneway and _Atomic; any
/// other character is UNKNOWN.
pub proof fn lemma_other_type_names(prim: u8)
    ensures
        simple_name(ENC_VOID) == "void".spec_bytes(),
        simple_name(ENC_UNKNOWN) == simple_name(ENC_VOID),
        simple_name(ENC_STRING) == "STR".spec_bytes(),
        simple_name(ENC_CLASS) == "Class".spec_bytes(),
        simple_name(ENC_SEL) == "SEL".spec_bytes(),
        simple_name(ENC_ATOM) == "NXAtom".spec_bytes(),
        simple_name(ENC_COMPLEX) == "_Complex".spec_bytes(),
        simple_name(ENC_CONST) == "const".spec_bytes(),
        simple_name(ENC_IN) == "in".spec_bytes(),
        simple_name(ENC_INOUT) == "inout".spec_bytes(),
        simple_name(ENC_OUT) == "out".spec_bytes(),
        simple_name(ENC_BYCOPY) == "bycopy".spec_bytes(),
        simple_name(ENC_BYREF) == "byref".spec_bytes(),
        simple_name(ENC_ONEWAY) == "oneway".spec_bytes(),
        simple_name(ENC_ATOMIC) == "_Atomic".spec_bytes(),
        !numeric_scalar(prim) && !(prim == ENC_VOID || prim == ENC_UNKNOWN || prim == ENC_STRING || prim == ENC_CLASS
            || prim == ENC_SEL || prim == ENC_ATOM || prim == ENC_COMPLEX || prim == ENC_CONST || prim == ENC_IN || prim
            == ENC_INOUT || prim == ENC_OUT || prim == ENC_BYCOPY || prim == ENC_BYREF || prim == ENC_ONEWAY || prim
            == ENC_ATOMIC) ==> simple_name(prim) == "UNKNOWN".spec_bytes(),
{
}

/// Different numeric scalar characters name different C types (so `f`,
/// float, is never shown as `d`, double).
pub proof fn lemma_scalar_type_names_distinct(a: u8, b: u8)
    requires
        numeric_scalar(a),
        numeric_scalar(b),
        a != b,
    ensures
        simple_name(a) != simple_name(b),
{
    reveal_strlit("char");
    reveal_strlit("int");
    reveal_strlit("short");
    reveal_strlit("long");
    reveal_strlit("long long");
    reveal_strlit("unsigned char");
    reveal_strlit("unsigned int");
    reveal_strlit("unsigned short");
    reveal_strlit("unsigned long");
    reveal_strlit("unsigned long long");
    reveal_strlit("float");
    reveal_strlit("double");
    reveal_strlit("long double");
    reveal_strlit("_Bool");
    let ca = scalar_chars(a);
    let cb = scalar_chars(b);
    assert(ca != cb) by {
        if ca.len() == cb.len() {
            assert(ca[0] != cb[0] || ca[9] != cb[9]);
        }
    }
    crate::text::lemma_encode_utf8_injective(ca, cb);
}

/// The characters of the C name of a numeric scalar.
spec fn scalar_chars(prim: u8) -> Seq<char> {
    if prim == ENC_CHAR {
        "char"@
    } else if prim == ENC_INT {
        "int"@
    } else if prim == ENC_SHORT {
        "short"@
    } else if prim == ENC_LONG {
        "long"@
    } else if prim == ENC_LONG_LONG {
        "long long"@
    } else if prim == ENC_UCHAR {
        "unsigned char"@
    } else if prim == ENC_UINT {
        "unsigned int"@
    } else if prim == ENC_USHORT {
        "unsigned short"@
    } else if prim == ENC_ULONG {
        "unsigned long"@
    } else if prim == ENC_ULONG_LONG {
        "unsigned long long"@
    } else if prim == ENC_FLOAT {
        "float"@
    } else if prim == ENC_DOUBLE {
        "double"@
    } else if prim == ENC_LONG_DOUBLE {
        "long double"@
    } else {
        "_Bool"@
    }
}

/// `4 * n` spaces.
pub open spec fn indent(n: nat) -> Seq<u8> {
    Seq::new(4 * n, |i: int| 32u8)
}

/// The level of the members of a record at `level`.
pub open spec fn next_level(level: nat) -> nat {
    if level < usize::MAX {
        level + 1
    } else {
        level
    }
}

/// `name` after `base` and a space, if there is a name.
pub open spec fn named(base: Seq<u8>, name: Option<Seq<u8>>) -> Seq<u8> {
    match name {
        None => base,
        Some(x) => base + " ".spec_bytes() + x,
    }
}

/// The variable name a declaration of `t` uses: its own, else `prev`.
pub open spec fn current_name(t: TypeModel, prev: Option<Seq<u8>>) -> Option<Seq<u8>> {
    if t.variable_name is Some {
        t.variable_name
    } else {
        prev
    }
}

/// The declaration of a value of type `t` named `prev` (unless `t` names
/// itself), at nesting `level`.
pub open spec fn fmt(nm: Naming, t: TypeModel, prev: Option<Seq<u8>>, cfg: FormatterCfg, level: nat) -> Seq<u8>
    decreases t, 3nat,
{
    let cn = current_name(t, prev);
    if t.prim == T_NAMED_OBJECT || t.prim == ENC_ID {
        fmt_object(t, cn)
    } else if t.prim == ENC_BITFIELD {
        fmt_bitfield(t, cn)
    } else if t.prim == ENC_ARRAY {
        fmt_array(nm, t, cn, cfg, level)
    } else if t.prim == ENC_UNION || t.prim == ENC_STRUCT {
        fmt_record(nm, t, cn, cfg, level)
    } else if t.prim == ENC_POINTER {
        fmt_pointer(nm, t, cn, cfg, level)
    } else {
        fmt_other(nm, t, cn, cfg, level)
    }
}

/// C declarators: a scalar `T` named `x` is `T x`; a pointer to `T` named
/// `x` declares `T` named `*x` (`(*x)` when `T` is an array); an array of
/// `n` `T` named `x` declares `T` named `x[n]`; a bitfield of `n` bits is
/// `unsigned int x:n` (types without names of their own).
pub proof fn lemma_declarators(nm: Naming, t: TypeModel, x: Seq<u8>, cfg: FormatterCfg, level: nat)
    requires
        t.variable_name is None,
    ensures
        numeric_scalar(t.prim) ==> fmt(nm, t, Some(x), cfg, level) == simple_name(t.prim) + " ".spec_bytes() + x,
        t.prim == ENC_POINTER && t.subtype is Some ==> fmt(nm, t, Some(x), cfg, level) == fmt(
            nm,
            *t.subtype.unwrap(),
            Some(
                if t.subtype.unwrap().prim == ENC_ARRAY {
                    "(*".spec_bytes() + x + ")".spec_bytes()
                } else {
                    "*".spec_bytes() + x
                },
            ),
            cfg,
            level,
        ),
        t.prim == ENC_ARRAY && t.subtype is Some ==> fmt(nm, t, Some(x), cfg, level) == fmt(
            nm,
            *t.subtype.unwrap(),
            Some(x + "[".spec_bytes() + t.array_size + "]".spec_bytes()),
            cfg,
            level,
        ),
        t.prim == ENC_BITFIELD ==> fmt(nm, t, Some(x), cfg, level) == "unsigned int ".spec_bytes() + x + ":".spec_bytes()
            + t.bitfield_size,
{
    reveal_strlit("(*");
    reveal_strlit("(");
    reveal_strlit("*");
    reveal_strlit(")");
    assert("(*"@ =~= "("@ + "*"@);
    crate::text::lemma_encode_utf8_concat("("@, "*"@);
    assert("(".spec_bytes() + ("*".spec_bytes() + x) + ")".spec_bytes() =~= "(*".spec_bytes() + x + ")".spec_bytes());
}

/// `id` or a named object: `id <P>` or `Name<P> *`.
pub open spec fn fmt_object(t: TypeModel, cn: Option<Seq<u8>>) -> Seq<u8> {
    let protos = join(t.protocols, ", ".spec_bytes());
    if t.prim == T_NAMED_OBJECT {
        let tn = if t.protocols.len() == 0 {
            crate::parse::or_empty(t.typename)
        } else {
            crate::parse::or_empty(t.typename) + "<".spec_bytes() + protos + ">".spec_bytes()
        };
        match cn {
            None => tn + " *".spec_bytes(),
            Some(x) => tn + " *".spec_bytes() + x,
        }
    } else {
        let base = if t.protocols.len() == 0 {
            "id".spec_bytes()
        } else {
            "id <".spec_bytes() + protos + ">".spec_bytes()
        };
        named(base, cn)
    }
}

/// A bitfield: `unsigned int name:size`.
pub open spec fn fmt_bitfield(t: TypeModel, cn: Option<Seq<u8>>) -> Seq<u8> {
    match cn {
        None => "unsigned int :".spec_bytes() + t.bitfield_size,
        Some(x) => "unsigned int ".spec_bytes() + x + ":".spec_bytes() + t.bitfield_size,
    }
}

/// An array: the element type declaring `name[size]`.
pub open spec fn fmt_array(nm: Naming, t: TypeModel, cn: Option<Seq<u8>>, cfg: FormatterCfg, level: nat) -> Seq<u8>
    decreases t, 2nat,
{
    let result = match cn {
        None => "[".spec_bytes() + t.array_size + "]".spec_bytes(),
        Some(x) => x + "[".spec_bytes() + t.array_size + "]".spec_bytes(),
    };
    match t.subtype {
        Some(s) => fmt(nm, *s, Some(result), cfg, level),
        None => result,
    }
}

/// A pointer: the pointed-to type declaring `*name` (in parentheses before
/// an array).
pub open spec fn fmt_pointer(nm: Naming, t: TypeModel, cn: Option<Seq<u8>>, cfg: FormatterCfg, level: nat) -> Seq<u8>
    decreases t, 2nat,
{
    let result = match cn {
        None => "*".spec_bytes(),
        Some(x) => "*".spec_bytes() + x,
    };
    match t.subtype {
        Some(s) => {
            let r2 = if s.prim == ENC_ARRAY { "(".spec_bytes() + result + ")".spec_bytes() } else { result };
            fmt(nm, *s, Some(r2), cfg, level)
        },
        None => result,
    }
}

/// Function pointers, blocks, qualifiers and scalars.
pub open spec fn fmt_other(nm: Naming, t: TypeModel, cn: Option<Seq<u8>>, cfg: FormatterCfg, level: nat) -> Seq<u8>
    decreases t, 2nat,
{
    if t.prim == T_FUNCTION_POINTER {
        named("CDUnknownFunctionPointerType".spec_bytes(), cn)
    } else if t.prim == T_BLOCK {
        match t.block_types {
            Some(types) => block_parts(types, types.len()),
            None => named("CDUnknownBlockType".spec_bytes(), cn),
        }
    } else if is_modifier(t.prim) {
        match t.subtype {
            None => named(simple_name(t.prim), cn),
            Some(s) => simple_name(t.prim) + " ".spec_bytes() + fmt(nm, *s, cn, cfg, level),
        }
    } else {
        named(simple_name(t.prim), cn)
    }
}

/// A struct or union (see `record_base`), then the variable name.
pub open spec fn fmt_record(nm: Naming, t: TypeModel, cn: Option<Seq<u8>>, cfg: FormatterCfg, level: nat) -> Seq<u8>
    decreases t, 2nat,
{
    named(record_base(nm, t, cfg, level), cn)
}

/// A struct or union: its typedef name if the namer has one, else the
/// keyword and tag, written out in full (see `record_expands`).
pub open spec fn record_base(nm: Naming, t: TypeModel, cfg: FormatterCfg, level: nat) -> Seq<u8>
    decreases t, 1nat,
{
    match (nm.typedef_name)(t, cfg, level) {
        Some(b) => b,
        None => record_body(nm, t, cfg, level),
    }
}

/// `struct Tag` or `union Tag` (no tag when anonymous).
pub open spec fn record_keyword(t: TypeModel) -> Seq<u8> {
    let keyword = if t.prim == ENC_UNION { "union".spec_bytes() } else { "struct".spec_bytes() };
    let desc = tag_of(t);
    if t.typename is None || desc == "?".spec_bytes() {
        keyword
    } else {
        keyword + " ".spec_bytes() + desc
    }
}

/// A record with members is written out in full when the namer says so
/// (and automatic expansion is on), or at the top level of an expanded
/// declaration.
pub open spec fn record_expands(nm: Naming, t: TypeModel, cfg: FormatterCfg, level: nat) -> bool {
    (cfg.should_auto_expand && (nm.expand)(t) && t.members.len() > 0) || (level == 0 && cfg.should_expand
        && t.members.len() > 0)
}

/// The keyword and tag, with the members in braces when written out.
pub open spec fn record_body(nm: Naming, t: TypeModel, cfg: FormatterCfg, level: nat) -> Seq<u8>
    decreases t, 0nat,
{
    if record_expands(nm, t, cfg, level) {
        record_keyword(t) + " {\n".spec_bytes() + fmt_members(nm, t.members, cfg, next_level(level)) + indent(
            (cfg.base_level + level) as nat,
        ) + "}".spec_bytes()
    } else {
        record_keyword(t)
    }
}

/// The member declarations of a record, one per line.
pub open spec fn fmt_members(nm: Naming, ms: Seq<TypeModel>, cfg: FormatterCfg, level: nat) -> Seq<u8>
    decreases ms, 0nat,
{
    if ms.len() == 0 {
        Seq::empty()
    } else {
        fmt_members(nm, ms.drop_last(), cfg, level) + indent((cfg.base_level + level) as nat) + fmt(
            nm,
            ms.last(),
            None,
            cfg,
            level,
        ) + ";\n".spec_bytes()
    }
}

/// The first `k` pieces of a block signature `ret (^)(args)`.
pub open spec fn block_parts(types: Seq<TypeModel>, k: nat) -> Seq<u8>
    decreases types, k,
{
    if k == 0 || k > types.len() {
        Seq::empty()
    } else {
        block_parts(types, (k - 1) as nat) + block_piece(types, (k - 1) as nat)
    }
}

/// Piece `idx` of a block signature: the return type, then `(^)(`, then
/// the arguments separated by commas (`void` if there are none), then `)`.
pub open spec fn block_piece(types: Seq<TypeModel>, idx: nat) -> Seq<u8>
    decreases types, 0nat,
{
    if idx >= types.len() {
        Seq::empty()
    } else {
        let n = types.len();
        let is_last = idx == n - 1;
        let head = if idx != 1 {
            fmt(null_naming(), types[idx as int], None, block_cfg(), 0)
        } else {
            "(^)".spec_bytes()
        };
        let sep = if idx == 0 {
            " ".spec_bytes()
        } else if idx == 1 {
            "(".spec_bytes()
        } else if !is_last {
            ", ".spec_bytes()
        } else {
            Seq::empty()
        };
        let tail = if is_last {
            (if n == 2 { "void".spec_bytes() } else { Seq::empty() }) + ")".spec_bytes()
        } else {
            Seq::empty()
        };
        head + sep + tail
    }
}

/// The view of an optional byte slice.
pub open spec fn opt_slice(o: Option<&[u8]>) -> Option<Seq<u8>> {
    match o {
        Some(x) => Some(x@),
        None => None,
    }
}

/// Appends the C name of a scalar type or qualifier.
pub fn simple_type_name(prim: u8) -> (r: &'static str)
    ensures
        r.spec_bytes() == simple_name(prim),
{
    if prim == ENC_CHAR {
        "char"
    } else if prim == ENC_INT {
        "int"
    } else if prim == ENC_SHORT {
        "short"
    } else if prim == ENC_LONG {
        "long"
    } else if prim == ENC_LONG_LONG {
        "long long"
    } else if prim == ENC_UCHAR {
        "unsigned char"
    } else if prim == ENC_UINT {
        "unsigned int"
    } else if prim == ENC_USHORT {
        "unsigned short"
    } else if prim == ENC_ULONG {
        "unsigned long"
    } else if prim == ENC_ULONG_LONG {
        "unsigned long long"
    } else if prim == ENC_FLOAT {
        "float"
    } else if prim == ENC_DOUBLE {
        "double"
    } else if prim == ENC_LONG_DOUBLE {
        "long double"
    } else if prim == ENC_BOOL {
        "_Bool"
    } else if prim == ENC_VOID {
        "void"
    } else if prim == ENC_STRING {
        "STR"
    } else if prim == ENC_CLASS {
        "Class"
    } else if prim == ENC_SEL {
        "SEL"
    } else if prim == ENC_ATOM {
        "NXAtom"
    } else if prim == ENC_UNKNOWN {
        "void"
    } else if prim == ENC_COMPLEX {
        "_Complex"
    } else if prim == ENC_CONST {
        "const"
    } else if prim == ENC_IN {
        "in"
    } else if prim == ENC_INOUT {
        "inout"
    } else if prim == ENC_OUT {
        "out"
    } else if prim == ENC_BYCOPY {
        "bycopy"
    } else if prim == ENC_BYREF {
        "byref"
    } else if prim == ENC_ONEWAY {
        "oneway"
    } else if prim == ENC_ATOMIC {
        "_Atomic"
    } else {
        "UNKNOWN"
    }
}

/// Appends four spaces.
fn write_tab(out: &mut Vec<u8>)
    ensures
        final(out)@ == old(out)@ + seq![32u8, 32u8, 32u8, 32u8],
{
    out.push(32u8);
    out.push(32u8);
    out.push(32u8);
    out.push(32u8);
    assert(final(out)@ =~= old(out)@ + seq![32u8, 32u8, 32u8, 32u8]);
}

/// Appends `4 * (base + level)` spaces.
pub fn write_indent(out: &mut Vec<u8>, base: usize, level: usize)
    ensures
        final(out)@ == old(out)@ + indent((base + level) as nat),
{
    let ghost start = out@;
    let mut i: usize = 0;
    assert(start =~= start + indent(0));
    while i < base
        invariant
            i <= base,
            out@ == start + indent(i as nat),
        decreases base - i,
    {
        write_tab(out);
        assert(start + indent((i + 1) as nat) =~= start + indent(i as nat) + seq![32u8, 32u8, 32u8, 32u8]);
        i = i + 1;
    }
    let mut j: usize = 0;
    while j < level
        invariant
            i == base,
            j <= level,
            out@ == start + indent((base + j) as nat),
        decreases level - j,
    {
        write_tab(out);
        assert(start + indent((base + j + 1) as nat) =~= start + indent((base + j) as nat) + seq![
            32u8,
            32u8,
            32u8,
            32u8,
        ]);
        j = j + 1;
    }
}

/// Appends `name` after a space, if there is one.
fn write_name(out: &mut Vec<u8>, name: Option<&[u8]>)
    ensures
        final(out)@ == match opt_slice(name) {
            None => old(out)@,
            Some(x) => old(out)@ + " ".spec_bytes() + x,
        },
{
    match name {
        Some(x) => {
            append_str(out, " ");
            append(out, x);
        },
        None => {},
    }
}

impl CDType {
    /// The declaration of a value of this type named `previous_name` (see
    /// `fmt`).
    pub fn formatted_string<N: TypeNamer>(
        &self,
        previous_name: Option<&[u8]>,
        namer: &N,
        cfg: &FormatterCfg,
        level: usize,
    ) -> (r: Vec<u8>)
        ensures
            r@ == fmt(naming_of(namer), self@, opt_slice(previous_name), *cfg, level as nat),
    {
        let mut out: Vec<u8> = Vec::new();
        self.write_formatted(&mut out, previous_name, namer, cfg, level);
        assert(out@ =~= fmt(naming_of(namer), self@, opt_slice(previous_name), *cfg, level as nat));
        out
    }

    fn write_formatted<N: TypeNamer>(
        &self,
        out: &mut Vec<u8>,
        prev: Option<&[u8]>,
        namer: &N,
        cfg: &FormatterCfg,
        level: usize,
    )
        ensures
            final(out)@ == old(out)@ + fmt(naming_of(namer), self@, opt_slice(prev), *cfg, level as nat),
        decreases self, 3nat,
    {
        let cn: Option<&[u8]> = match &self.variable_name {
            Some(v) => Some(v.as_slice()),
            None => prev,
        };
        assert(opt_slice(cn) == current_name(self@, opt_slice(prev)));
        let prim = self.prim;
        if prim == T_NAMED_OBJECT || prim == ENC_ID {
            self.write_object(out, cn);
        } else if prim == ENC_BITFIELD {
            self.write_bitfield(out, cn);
        } else if prim == ENC_ARRAY {
            self.write_array(out, cn, namer, cfg, level);
        } else if prim == ENC_UNION || prim == ENC_STRUCT {
            self.write_record(out, cn, namer, cfg, level);
        } else if prim == ENC_POINTER {
            self.write_pointer(out, cn, namer, cfg, level);
        } else {
            self.write_other(out, cn, namer, cfg, level);
        }
    }

    /// See `fmt_object`.
    fn write_object(&self, out: &mut Vec<u8>, cn: Option<&[u8]>)
        requires
            self.prim == T_NAMED_OBJECT || self.prim == ENC_ID,
        ensures
            final(out)@ == old(out)@ + fmt_object(self@, opt_slice(cn)),
    {
        let ghost start = out@;
        if self.prim == T_NAMED_OBJECT {
            match &self.typename {
                Some(n) => append(out, n.as_slice()),
                None => {},
            }
            if self.protocols.len() != 0 {
                append_str(out, "<");
                write_joined(out, &self.protocols, ", ".as_bytes());
                append_str(out, ">");
            }
            append_str(out, " *");
            match cn {
                Some(x) => append(out, x),
                None => {},
            }
        } else {
            if self.protocols.len() != 0 {
                append_str(out, "id <");
                write_joined(out, &self.protocols, ", ".as_bytes());
                append_str(out, ">");
            } else {
                append_str(out, "id");
            }
            write_name(out, cn);
        }
        assert(out@ =~= start + fmt_object(self@, opt_slice(cn)));
    }

    /// See `fmt_bitfield`.
    fn write_bitfield(&self, out: &mut Vec<u8>, cn: Option<&[u8]>)
        ensures
            final(out)@ == old(out)@ + fmt_bitfield(self@, opt_slice(cn)),
    {
        let ghost start = out@;
        match cn {
            None => {
                append_str(out, "unsigned int :");
            },
            Some(x) => {
                append_str(out, "unsigned int ");
                append(out, x);
                append_str(out, ":");
            },
        }
        append(out, self.bitfield_size.as_slice());
        assert(out@ =~= start + fmt_bitfield(self@, opt_slice(cn)));
    }

    /// See `fmt_array`.
    fn write_array<N: TypeNamer>(&self, out: &mut Vec<u8>, cn: Option<&[u8]>, namer: &N, cfg: &FormatterCfg, level: usize)
        ensures
            final(out)@ == old(out)@ + fmt_array(naming_of(namer), self@, opt_slice(cn), *cfg, level as nat),
        decreases self, 2nat,
    {
        let ghost start = out@;
        let mut result: Vec<u8> = Vec::new();
        match cn {
            Some(x) => append(&mut result, x),
            None => {},
        }
        append_str(&mut result, "[");
        append(&mut result, self.array_size.as_slice());
        append_str(&mut result, "]");
        assert(result@ =~= match opt_slice(cn) {
            None => "[".spec_bytes() + self@.array_size + "]".spec_bytes(),
            Some(x) => x + "[".spec_bytes() + self@.array_size + "]".spec_bytes(),
        });
        match &self.subtype {
            Some(s) => s.write_formatted(out, Some(result.as_slice()), namer, cfg, level),
            None => append(out, result.as_slice()),
        }
    }

    /// See `fmt_pointer`.
    fn write_pointer<N: TypeNamer>(&self, out: &mut Vec<u8>, cn: Option<&[u8]>, namer: &N, cfg: &FormatterCfg, level: usize)
        ensures
            final(out)@ == old(out)@ + fmt_pointer(naming_of(namer), self@, opt_slice(cn), *cfg, level as nat),
        decreases self, 2nat,
    {
        let mut result: Vec<u8> = Vec::new();
        append_str(&mut result, "*");
        match cn {
            Some(x) => append(&mut result, x),
            None => {},
        }
        assert(result@ =~= match opt_slice(cn) {
            None => "*".spec_bytes(),
            Some(x) => "*".spec_bytes() + x,
        });
        match &self.subtype {
            Some(s) => {
                if s.prim == ENC_ARRAY {
                    let mut wrapped: Vec<u8> = Vec::new();
                    append_str(&mut wrapped, "(");
                    append(&mut wrapped, result.as_slice());
                    append_str(&mut wrapped, ")");
                    result = wrapped;
                }
                s.write_formatted(out, Some(result.as_slice()), namer, cfg, level);
            },
            None => append(out, result.as_slice()),
        }
    }

    /// See `fmt_other`.
    fn write_other<N: TypeNamer>(&self, out: &mut Vec<u8>, cn: Option<&[u8]>, namer: &N, cfg: &FormatterCfg, level: usize)
        ensures
            final(out)@ == old(out)@ + fmt_other(naming_of(namer), self@, opt_slice(cn), *cfg, level as nat),
        decreases self, 2nat,
    {
        let ghost start = out@;
        let prim = self.prim;
        if prim == T_FUNCTION_POINTER {
            append_str(out, "CDUnknownFunctionPointerType");
            write_name(out, cn);
        } else if prim == T_BLOCK {
            match &self.block_types {
                Some(types) => {
                    let ghost tv = crate::typ::tys_view(types@);
                    let ghost b0 = out@;
                    proof {
                        crate::typ::lemma_tys_view(types@);
                    }
                    let n = types.len();
                    let mut idx: usize = 0;
                    while idx < n
                        invariant
                            self.block_types == Some(*types),
                            n == types@.len(),
                            tv == crate::typ::tys_view(types@),
                            tv.len() == n,
                            idx <= n,
                            out@ == b0 + block_parts(tv, idx as nat),
                        decreases n - idx,
                    {
                        proof {
                            assert(decreases_to!(*self => self.block_types));
                            assert(decreases_to!(self.block_types => self.block_types->0));
                        }
                        write_block_piece(out, types, idx);
                        idx = idx + 1;
                    }
                },
                None => {
                    append_str(out, "CDUnknownBlockType");
                    write_name(out, cn);
                },
            }
        } else if crate::typ::modifier(prim) {
            append_str(out, simple_type_name(prim));
            match &self.subtype {
                None => write_name(out, cn),
                Some(s) => {
                    append_str(out, " ");
                    s.write_formatted(out, cn, namer, cfg, level);
                },
            }
        } else {
            append_str(out, simple_type_name(prim));
            write_name(out, cn);
        }
        assert(out@ =~= start + fmt_other(naming_of(namer), self@, opt_slice(cn), *cfg, level as nat));
    }

    /// A struct or union (see `fmt_record`).
    fn write_record<N: TypeNamer>(
        &self,
        out: &mut Vec<u8>,
        cn: Option<&[u8]>,
        namer: &N,
        cfg: &FormatterCfg,
        level: usize,
    )
        ensures
            final(out)@ == old(out)@ + fmt_record(naming_of(namer), self@, opt_slice(cn), *cfg, level as nat),
        decreases self, 2nat,
    {
        let ghost start = out@;
        let base = match namer.typedef_name_for_structure(self, cfg, level) {
            Some(b) => b,
            None => self.record_body(namer, cfg, level),
        };
        append(out, base.as_slice());
        write_name(out, cn);
    }

    /// See `record_body`.
    fn record_body<N: TypeNamer>(&self, namer: &N, cfg: &FormatterCfg, level: usize) -> (r: Vec<u8>)
        ensures
            r@ == record_body(naming_of(namer), self@, *cfg, level as nat),
        decreases self, 1nat,
    {
        let ghost nm = naming_of(namer);
        let mut bt: Vec<u8> = Vec::new();
        if self.prim == ENC_UNION {
            append_str(&mut bt, "union");
        } else {
            append_str(&mut bt, "struct");
        }
        let desc = self.type_name_description();
        if !(self.typename.is_none() || bytes_eq(desc.as_slice(), "?".as_bytes())) {
            append_str(&mut bt, " ");
            append(&mut bt, desc.as_slice());
        }
        assert(bt@ =~= record_keyword(self@));
        proof {
            crate::typ::lemma_tys_view(self.members@);
        }
        let expand = (cfg.should_auto_expand && namer.should_expand_type(self) && self.members.len() > 0) || (level
            == 0 && cfg.should_expand && self.members.len() > 0);
        assert(expand == record_expands(nm, self@, *cfg, level as nat));
        if expand {
            append_str(&mut bt, " {\n");
            let inner = if level < usize::MAX { level + 1 } else { level };
            self.write_members(&mut bt, namer, cfg, inner);
            write_indent(&mut bt, cfg.base_level, level);
            append_str(&mut bt, "}");
        }
        bt
    }

    /// See `fmt_members`.
    fn write_members<N: TypeNamer>(&self, out: &mut Vec<u8>, namer: &N, cfg: &FormatterCfg, level: usize)
        ensures
            final(out)@ == old(out)@ + fmt_members(naming_of(namer), self@.members, *cfg, level as nat),
        decreases self, 0nat,
    {
        let ghost nm = naming_of(namer);
        let ghost ms = self@.members;
        let ghost bt0 = out@;
        proof {
            crate::typ::lemma_tys_view(self.members@);
        }
        let mut i: usize = 0;
        while i < self.members.len()
            invariant
                i <= self.members@.len(),
                ms == self@.members,
                ms.len() == self.members@.len(),
                forall|j: int| 0 <= j < ms.len() ==> #[trigger] ms[j] == self.members@[j]@,
                nm == naming_of(namer),
                out@ == bt0 + fmt_members(nm, ms.subrange(0, i as int), *cfg, level as nat),
            decreases self.members@.len() - i,
        {
            write_indent(out, cfg.base_level, level);
            self.members[i].write_formatted(out, None, namer, cfg, level);
            append_str(out, ";\n");
            proof {
                let q = ms.subrange(0, i + 1);
                assert(q.drop_last() =~= ms.subrange(0, i as int));
                assert(q.last() == self.members@[i as int]@);
            }
            i = i + 1;
        }
        proof {
            assert(ms.subrange(0, ms.len() as int) =~= ms);
        }
    }
}

/// Appends piece `idx` of the block signature of `types` (see `block_piece`).
fn write_block_piece(out: &mut Vec<u8>, types: &Vec<CDType>, idx: usize)
    requires
        idx < types@.len(),
    ensures
        final(out)@ == old(out)@ + block_piece(crate::typ::tys_view(types@), idx as nat),
    decreases types, 0nat,
{
    let ghost start = out@;
    proof {
        crate::typ::lemma_tys_view(types@);
    }
    let cfg = FormatterCfg { should_expand: false, should_auto_expand: false, base_level: 0, is_struct_decl: false };
    let n = types.len();
    if idx != 1 {
        types[idx].write_formatted(out, None, &NullNamer, &cfg, 0);
    } else {
        append_str(out, "(^)");
    }
    let is_last = idx == n - 1;
    if idx == 0 {
        append_str(out, " ");
    } else if idx == 1 {
        append_str(out, "(");
    } else if !is_last {
        append_str(out, ", ");
    }
    if is_last {
        if n == 2 {
            append_str(out, "void");
        }
        append_str(out, ")");
    }
    proof {
        assert(naming_of(&NullNamer) == null_naming());
    }
    assert(out@ =~= start + block_piece(crate::typ::tys_view(types@), idx as nat));
}

} // verus!
