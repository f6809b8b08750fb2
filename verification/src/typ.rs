//! The Objective-C `@encode` type tree: its canonical string forms, structure
//! depth, merging and member-name generation.

use vstd::prelude::*;
use vstd::string::StringSliceAdditionalSpecFns;
use crate::text::{append, append_decimal_wide, append_str, bytes_eq, decimal, lemma_decimal_injective, to_vec};

verus! {

// The bytes of the `@encode` grammar.
pub const ENC_COMPLEX: u8 = 106; // 'j'
pub const ENC_CONST: u8 = 114; // 'r'
pub const ENC_IN: u8 = 110; // 'n'
pub const ENC_INOUT: u8 = 78; // 'N'
pub const ENC_OUT: u8 = 111; // 'o'
pub const ENC_BYCOPY: u8 = 79; // 'O'
pub const ENC_BYREF: u8 = 82; // 'R'
pub const ENC_ONEWAY: u8 = 86; // 'V'
pub const ENC_ATOMIC: u8 = 65; // 'A'
pub const ENC_POINTER: u8 = 94; // '^'
pub const ENC_BITFIELD: u8 = 98; // 'b'
pub const ENC_ID: u8 = 64; // '@'
pub const ENC_STRUCT: u8 = 123; // '{'
pub const ENC_UNION: u8 = 40; // '('
pub const ENC_ARRAY: u8 = 91; // '['
pub const ENC_CHAR: u8 = 99; // 'c'
pub const ENC_INT: u8 = 105; // 'i'
pub const ENC_SHORT: u8 = 115; // 's'
pub const ENC_LONG: u8 = 108; // 'l'
pub const ENC_LONG_LONG: u8 = 113; // 'q'
pub const ENC_UCHAR: u8 = 67; // 'C'
pub const ENC_UINT: u8 = 73; // 'I'
pub const ENC_USHORT: u8 = 83; // 'S'
pub const ENC_ULONG: u8 = 76; // 'L'
pub const ENC_ULONG_LONG: u8 = 81; // 'Q'
pub const ENC_FLOAT: u8 = 102; // 'f'
pub const ENC_DOUBLE: u8 = 100; // 'd'
pub const ENC_LONG_DOUBLE: u8 = 68; // 'D'
pub const ENC_BOOL: u8 = 66; // 'B'
pub const ENC_VOID: u8 = 118; // 'v'
pub const ENC_STRING: u8 = 42; // '*'
pub const ENC_CLASS: u8 = 35; // '#'
pub const ENC_SEL: u8 = 58; // ':'
pub const ENC_ATOM: u8 = 37; // '%'
pub const ENC_UNKNOWN: u8 = 63; // '?'
pub const ENC_STRUCT_END: u8 = 125; // '}'
pub const ENC_UNION_END: u8 = 41; // ')'
pub const ENC_ARRAY_END: u8 = 93; // ']'
pub const QUOTE: u8 = 34; // '"'
pub const LT: u8 = 60; // '<'
pub const GT: u8 = 62; // '>'
pub const COMMA: u8 = 44; // ','
pub const EQUALS: u8 = 61; // '='
pub const SPACE: u8 = 32; // ' '
pub const UNDERSCORE: u8 = 95; // '_'
pub const DOLLAR: u8 = 36; // '$'

/// `prim` of a named object type (`@"Name"`).
pub const T_NAMED_OBJECT: u8 = 1;
/// `prim` of a function pointer (`^?`).
pub const T_FUNCTION_POINTER: u8 = 2;
/// `prim` of a block (`@?`).
pub const T_BLOCK: u8 = 3;

pub struct CDType {
    pub prim: u8,
    pub subtype: Option<Box<CDType>>,
    pub members: Vec<CDType>,
    pub typename: Option<Vec<u8>>,
    pub variable_name: Option<Vec<u8>>,
    pub bitfield_size: Vec<u8>,
    pub array_size: Vec<u8>,
    pub protocols: Vec<Vec<u8>>,
    pub block_types: Option<Vec<CDType>>,
}

/// The mathematical value of a `CDType`: the same tree with byte sequences
/// in place of vectors.
pub struct TypeModel {
    pub prim: u8,
    pub subtype: Option<Box<TypeModel>>,
    pub members: Seq<TypeModel>,
    pub typename: Option<Seq<u8>>,
    pub variable_name: Option<Seq<u8>>,
    pub bitfield_size: Seq<u8>,
    pub array_size: Seq<u8>,
    pub protocols: Seq<Seq<u8>>,
    pub block_types: Option<Seq<TypeModel>>,
}

pub open spec fn opt_bytes(o: Option<Vec<u8>>) -> Option<Seq<u8>> {
    match o {
        Some(v) => Some(v@),
        None => None,
    }
}

pub open spec fn names_of(v: Seq<Vec<u8>>) -> Seq<Seq<u8>> {
    v.map_values(|x: Vec<u8>| x@)
}

pub open spec fn ty_view(t: CDType) -> TypeModel
    decreases t,
{
    TypeModel {
        prim: t.prim,
        subtype: match t.subtype {
            Some(b) => Some(Box::new(ty_view(*b))),
            None => None,
        },
        members: tys_view(t.members@),
        typename: opt_bytes(t.typename),
        variable_name: opt_bytes(t.variable_name),
        bitfield_size: t.bitfield_size@,
        array_size: t.array_size@,
        protocols: names_of(t.protocols@),
        block_types: match t.block_types {
            Some(v) => Some(tys_view(v@)),
            None => None,
        },
    }
}

pub open spec fn tys_view(s: Seq<CDType>) -> Seq<TypeModel>
    decreases s,
{
    if s.len() == 0 {
        Seq::empty()
    } else {
        tys_view(s.subrange(0, s.len() - 1)).push(ty_view(s[s.len() - 1]))
    }
}

impl View for CDType {
    type V = TypeModel;

    open spec fn view(&self) -> TypeModel {
        ty_view(*self)
    }
}

/// `tys_view` element by element.
pub proof fn lemma_tys_view(s: Seq<CDType>)
    ensures
        tys_view(s).len() == s.len(),
        forall|i: int| 0 <= i < s.len() ==> #[trigger] tys_view(s)[i] == ty_view(s[i]),
    decreases s.len(),
{
    if s.len() > 0 {
        lemma_tys_view(s.subrange(0, s.len() - 1));
        assert forall|i: int| 0 <= i < s.len() - 1 implies s.subrange(0, s.len() - 1)[i] == s[i] by {}
    }
}

/// The view of a list with one more element.
pub proof fn lemma_tys_view_push(s: Seq<CDType>, t: CDType)
    ensures
        tys_view(s.push(t)) == tys_view(s).push(ty_view(t)),
{
    assert(s.push(t).subrange(0, s.len() as int) =~= s);
}

/// The UTF-8 bytes of the character whose code point is `c`.
pub open spec fn char_bytes(c: u8) -> Seq<u8> {
    if c < 0x80 {
        seq![c]
    } else {
        seq![(0xC0 | (c >> 6)) as u8, (0x80 | (c & 0x3F)) as u8]
    }
}

/// Appends the UTF-8 encoding of the character whose code point is `c`.
fn push_char(out: &mut Vec<u8>, c: u8)
    ensures
        final(out)@ == old(out)@ + char_bytes(c),
{
    if c < 0x80 {
        out.push(c);
        assert(final(out)@ =~= old(out)@ + char_bytes(c));
    } else {
        out.push(0xC0u8 | (c >> 6u8));
        out.push(0x80u8 | (c & 0x3Fu8));
        assert(final(out)@ =~= old(out)@ + char_bytes(c));
    }
}

/// The type qualifiers that prefix another type.
pub open spec fn is_modifier(c: u8) -> bool {
    c == ENC_COMPLEX || c == ENC_CONST || c == ENC_IN || c == ENC_INOUT || c == ENC_OUT || c == ENC_BYCOPY || c == ENC_BYREF || c == ENC_ONEWAY
        || c == ENC_ATOMIC
}

pub fn modifier(c: u8) -> (r: bool)
    ensures
        r == is_modifier(c),
{
    c == ENC_COMPLEX || c == ENC_CONST || c == ENC_IN || c == ENC_INOUT || c == ENC_OUT || c == ENC_BYCOPY || c == ENC_BYREF || c == ENC_ONEWAY
        || c == ENC_ATOMIC
}

/// A struct (`{`) or union (`(`).
pub open spec fn is_record(c: u8) -> bool {
    c == ENC_STRUCT || c == ENC_UNION
}

/// The canonical encoding of `t`.  Member variable names are written while
/// `level` is positive, one level less for each level of nesting; with
/// `show` false a named object is written as a bare `@`.
pub open spec fn type_str(t: TypeModel, level: nat, show: bool) -> Seq<u8>
    decreases t,
{
    let sub = match t.subtype {
        Some(b) => type_str(*b, level, show),
        None => Seq::empty(),
    };
    if t.prim == T_NAMED_OBJECT {
        if show {
            "@\"".spec_bytes() + match t.typename {
                Some(n) => n,
                None => Seq::empty(),
            } + "\"".spec_bytes()
        } else {
            "@".spec_bytes()
        }
    } else if t.prim == ENC_ID {
        "@".spec_bytes()
    } else if t.prim == ENC_BITFIELD {
        "b".spec_bytes() + t.bitfield_size
    } else if t.prim == ENC_ARRAY {
        "[".spec_bytes() + t.array_size + sub + "]".spec_bytes()
    } else if is_record(t.prim) {
        let open = if t.prim == ENC_UNION { "(".spec_bytes() } else { "{".spec_bytes() };
        let close = if t.prim == ENC_UNION { ")".spec_bytes() } else { "}".spec_bytes() };
        let body = members_str(t.members, level, show);
        match t.typename {
            None => open + body + close,
            Some(n) => if t.members.len() == 0 {
                open + n + close
            } else {
                open + n + "=".spec_bytes() + body + close
            },
        }
    } else if t.prim == ENC_POINTER {
        "^".spec_bytes() + sub
    } else if is_modifier(t.prim) {
        seq![t.prim] + sub
    } else if t.prim == T_FUNCTION_POINTER {
        "^?".spec_bytes()
    } else if t.prim == T_BLOCK {
        "@?".spec_bytes()
    } else {
        char_bytes(t.prim)
    }
}

/// The members of a record, each preceded by its quoted variable name while
/// `level` is positive.
pub open spec fn members_str(ms: Seq<TypeModel>, level: nat, show: bool) -> Seq<u8>
    decreases ms,
{
    if ms.len() == 0 {
        Seq::empty()
    } else {
        let m = ms[ms.len() - 1];
        let name = match m.variable_name {
            Some(v) => if level > 0 {
                "\"".spec_bytes() + v + "\"".spec_bytes()
            } else {
                Seq::empty()
            },
            None => Seq::empty(),
        };
        let inner = if level > 0 { (level - 1) as nat } else { 0 };
        members_str(ms.subrange(0, ms.len() - 1), level, show) + name + type_str(m, inner, show)
    }
}

/// The nesting depth of records in `t`, looking through pointers, arrays
/// and qualifiers.
pub open spec fn depth(t: TypeModel) -> nat
    decreases t,
{
    match t.subtype {
        Some(b) => depth(*b),
        None => if is_record(t.prim) {
            max_depth(t.members) + 1
        } else {
            0
        },
    }
}

pub open spec fn max_depth(ms: Seq<TypeModel>) -> nat
    decreases ms,
{
    if ms.len() == 0 {
        0
    } else {
        let a = max_depth(ms.subrange(0, ms.len() - 1));
        let b = depth(ms[ms.len() - 1]);
        if a < b {
            b
        } else {
            a
        }
    }
}

/// `n`, or `usize::MAX` when `n` does not fit.
pub open spec fn clamp(n: nat) -> nat {
    if n > usize::MAX {
        usize::MAX as nat
    } else {
        n
    }
}

impl Clone for CDType {
    fn clone(&self) -> (r: Self)
        ensures
            r@ == self@,
        decreases self,
    {
        let subtype = match &self.subtype {
            Some(b) => Some(Box::new((**b).clone())),
            None => None,
        };
        let members = clone_types(&self.members);
        let block_types = match &self.block_types {
            Some(v) => Some(clone_types(v)),
            None => None,
        };
        let typename = match &self.typename {
            Some(n) => Some(to_vec(n.as_slice())),
            None => None,
        };
        let variable_name = match &self.variable_name {
            Some(n) => Some(to_vec(n.as_slice())),
            None => None,
        };
        let mut protocols: Vec<Vec<u8>> = Vec::new();
        let mut i: usize = 0;
        while i < self.protocols.len()
            invariant
                i <= self.protocols@.len(),
                protocols@.len() == i,
                forall|j: int| 0 <= j < i ==> (#[trigger] protocols@[j])@ == self.protocols@[j]@,
            decreases self.protocols@.len() - i,
        {
            protocols.push(to_vec(self.protocols[i].as_slice()));
            i = i + 1;
        }
        assert(names_of(protocols@) =~= names_of(self.protocols@));
        CDType {
            prim: self.prim,
            subtype,
            members,
            typename,
            variable_name,
            bitfield_size: to_vec(self.bitfield_size.as_slice()),
            array_size: to_vec(self.array_size.as_slice()),
            protocols,
            block_types,
        }
    }
}

/// A copy of a list of types.
pub fn clone_types(v: &Vec<CDType>) -> (r: Vec<CDType>)
    ensures
        tys_view(r@) == tys_view(v@),
    decreases v,
{
    let mut r: Vec<CDType> = Vec::new();
    let mut i: usize = 0;
    while i < v.len()
        invariant
            i <= v@.len(),
            tys_view(r@) == tys_view(v@.subrange(0, i as int)),
        decreases v@.len() - i,
    {
        let c = v[i].clone();
        proof {
            lemma_tys_view_push(r@, c);
            assert(v@.subrange(0, i + 1) =~= v@.subrange(0, i as int).push(v@[i as int]));
            lemma_tys_view_push(v@.subrange(0, i as int), v@[i as int]);
        }
        r.push(c);
        i = i + 1;
    }
    assert(v@.subrange(0, v@.len() as int) =~= v@);
    r
}

impl CDType {
    /// A type with only its `prim` set.
    pub open spec fn simple_model(prim: u8) -> TypeModel {
        TypeModel {
            prim,
            subtype: None,
            members: Seq::empty(),
            typename: None,
            variable_name: None,
            bitfield_size: Seq::empty(),
            array_size: Seq::empty(),
            protocols: Seq::empty(),
            block_types: None,
        }
    }

    pub fn simple(prim: u8) -> (r: CDType)
        ensures
            r@ == CDType::simple_model(prim),
    {
        let r = CDType {
            prim,
            subtype: None,
            members: Vec::new(),
            typename: None,
            variable_name: None,
            bitfield_size: Vec::new(),
            array_size: Vec::new(),
            protocols: Vec::new(),
            block_types: None,
        };
        assert(r.members@.len() == 0);
        assert(tys_view(r.members@) =~= Seq::<TypeModel>::empty());
        assert(r@.protocols =~= Seq::<Seq<u8>>::empty());
        r
    }

    pub fn is_id_type(&self) -> (r: bool)
        ensures
            r == (self.prim == ENC_ID),
    {
        self.prim == ENC_ID
    }

    pub fn is_named_object(&self) -> (r: bool)
        ensures
            r == (self.prim == T_NAMED_OBJECT),
    {
        self.prim == T_NAMED_OBJECT
    }

    pub fn is_struct(&self) -> (r: bool)
        ensures
            r == (self.prim == ENC_STRUCT),
    {
        self.prim == ENC_STRUCT
    }

    pub fn is_union(&self) -> (r: bool)
        ensures
            r == (self.prim == ENC_UNION),
    {
        self.prim == ENC_UNION
    }

    /// The struct or union tag: `?` for an anonymous record, whether the
    /// encoding wrote `?` or no tag at all.
    pub fn type_name_description(&self) -> (r: Vec<u8>)
        ensures
            r@ == tag_of(self@),
    {
        match &self.typename {
            Some(n) => to_vec(n.as_slice()),
            None => {
                let mut v: Vec<u8> = Vec::new();
                v.push(ENC_UNKNOWN);
                assert(v@ =~= seq![ENC_UNKNOWN]);
                v
            },
        }
    }

    /// Does the tag hold template arguments (a `<`)?
    pub fn is_template_type(&self) -> (r: bool)
        ensures
            r == (self@.typename matches Some(n) && n.contains(LT)),
    {
        match &self.typename {
            Some(n) => {
                let mut i: usize = 0;
                while i < n.len()
                    invariant
                        self@.typename == Some(n@),
                        i <= n@.len(),
                        forall|j: int| 0 <= j < i ==> n@[j] != LT,
                    decreases n@.len() - i,
                {
                    if n[i] == LT {
                        assert(n@[i as int] == LT);
                        return true;
                    }
                    i = i + 1;
                }
                false
            },
            None => false,
        }
    }

    /// Appends the canonical encoding of this type.
    pub fn write_type_string(&self, out: &mut Vec<u8>, level: u64, show_objects: bool)
        ensures
            final(out)@ == old(out)@ + type_str(self@, level as nat, show_objects),
        decreases self,
    {
        let ghost start = out@;
        let prim = self.prim;
        if prim == T_NAMED_OBJECT {
            if show_objects {
                append_str(out, "@\"");
                match &self.typename {
                    Some(n) => append(out, n.as_slice()),
                    None => {},
                }
                append_str(out, "\"");
            } else {
                append_str(out, "@");
            }
        } else if prim == ENC_ID {
            append_str(out, "@");
        } else if prim == ENC_BITFIELD {
            append_str(out, "b");
            append(out, self.bitfield_size.as_slice());
        } else if prim == ENC_ARRAY {
            append_str(out, "[");
            append(out, self.array_size.as_slice());
            self.write_subtype_string(out, level, show_objects);
            append_str(out, "]");
        } else if prim == ENC_STRUCT || prim == ENC_UNION {
            if prim == ENC_UNION {
                append_str(out, "(");
            } else {
                append_str(out, "{");
            }
            match &self.typename {
                None => self.write_members_string(out, level, show_objects),
                Some(n) => {
                    append(out, n.as_slice());
                    if self.members.len() != 0 {
                        append_str(out, "=");
                        self.write_members_string(out, level, show_objects);
                    }
                },
            }
            if prim == ENC_UNION {
                append_str(out, ")");
            } else {
                append_str(out, "}");
            }
            proof {
                lemma_tys_view(self.members@);
            }
        } else if prim == ENC_POINTER {
            append_str(out, "^");
            self.write_subtype_string(out, level, show_objects);
        } else if modifier(prim) {
            out.push(prim);
            self.write_subtype_string(out, level, show_objects);
        } else if prim == T_FUNCTION_POINTER {
            append_str(out, "^?");
        } else if prim == T_BLOCK {
            append_str(out, "@?");
        } else {
            push_char(out, prim);
        }
        proof {
            reveal_strlit("@\"");
            reveal_strlit("\"");
            reveal_strlit("@");
            reveal_strlit("b");
            reveal_strlit("[");
            reveal_strlit("]");
            reveal_strlit("(");
            reveal_strlit(")");
            reveal_strlit("{");
            reveal_strlit("}");
            reveal_strlit("=");
            reveal_strlit("^");
            reveal_strlit("^?");
            reveal_strlit("@?");
            assert(out@ =~= start + type_str(self@, level as nat, show_objects));
        }
    }

    fn write_subtype_string(&self, out: &mut Vec<u8>, level: u64, show_objects: bool)
        ensures
            final(out)@ == old(out)@ + match self@.subtype {
                Some(b) => type_str(*b, level as nat, show_objects),
                None => Seq::empty(),
            },
        decreases self, 0nat,
    {
        match &self.subtype {
            Some(b) => b.write_type_string(out, level, show_objects),
            None => {
                assert(final(out)@ =~= old(out)@);
            },
        }
    }

    fn write_members_string(&self, out: &mut Vec<u8>, level: u64, show_objects: bool)
        ensures
            final(out)@ == old(out)@ + members_str(self@.members, level as nat, show_objects),
        decreases self, 0nat,
    {
        let ghost start = out@;
        let ghost ms = self@.members;
        proof {
            lemma_tys_view(self.members@);
        }
        let inner = if level > 0 { level - 1 } else { 0 };
        let mut i: usize = 0;
        while i < self.members.len()
            invariant
                i <= self.members@.len(),
                ms == self@.members,
                ms.len() == self.members@.len(),
                forall|j: int| 0 <= j < ms.len() ==> #[trigger] ms[j] == self.members@[j]@,
                inner as nat == if level > 0 { (level - 1) as nat } else { 0 },
                out@ == start + members_str(ms.subrange(0, i as int), level as nat, show_objects),
            decreases self.members@.len() - i,
        {
            let m = &self.members[i];
            if level > 0 {
                match &m.variable_name {
                    Some(v) => {
                        append_str(out, "\"");
                        append(out, v.as_slice());
                        append_str(out, "\"");
                    },
                    None => {},
                }
            }
            m.write_type_string(out, inner, show_objects);
            proof {
                reveal_strlit("\"");
                assert(ms.subrange(0, i + 1).subrange(0, i as int) =~= ms.subrange(0, i as int));
                assert(ms.subrange(0, i + 1)[i as int] == ms[i as int]);
            }
            i = i + 1;
        }
        assert(ms.subrange(0, ms.len() as int) =~= ms);
    }

    fn type_string_at(&self, level: u64, show_objects: bool) -> (r: Vec<u8>)
        ensures
            r@ == type_str(self@, level as nat, show_objects),
    {
        let mut out: Vec<u8> = Vec::new();
        self.write_type_string(&mut out, level, show_objects);
        assert(out@ =~= type_str(self@, level as nat, show_objects));
        out
    }

    /// The encoding with member variable names and object class names.
    pub fn type_string(&self) -> (r: Vec<u8>)
        ensures
            r@ == type_str(self@, 1_000_000, true),
    {
        self.type_string_at(1_000_000, true)
    }

    /// The encoding without member variable names.
    pub fn bare_type_string(&self) -> (r: Vec<u8>)
        ensures
            r@ == type_str(self@, 0, true),
    {
        self.type_string_at(0, true)
    }

    /// The encoding without member variable names or object class names.
    pub fn really_bare_type_string(&self) -> (r: Vec<u8>)
        ensures
            r@ == type_str(self@, 0, false),
    {
        self.type_string_at(0, false)
    }

    /// The nesting depth of records, at most `usize::MAX`.
    pub fn structure_depth(&self) -> (r: usize)
        ensures
            r == clamp(depth(self@)),
        decreases self,
    {
        match &self.subtype {
            Some(b) => {
                return b.structure_depth();
            },
            None => {},
        }
        if self.prim == ENC_STRUCT || self.prim == ENC_UNION {
            let ghost ms = self@.members;
            proof {
                lemma_tys_view(self.members@);
            }
            let mut max: usize = 0;
            let mut i: usize = 0;
            while i < self.members.len()
                invariant
                    i <= self.members@.len(),
                    ms == self@.members,
                    ms.len() == self.members@.len(),
                    forall|j: int| 0 <= j < ms.len() ==> #[trigger] ms[j] == self.members@[j]@,
                    max == clamp(max_depth(ms.subrange(0, i as int))),
                decreases self.members@.len() - i,
            {
                let d = self.members[i].structure_depth();
                proof {
                    assert(ms.subrange(0, i + 1).subrange(0, i as int) =~= ms.subrange(0, i as int));
                    assert(ms.subrange(0, i + 1)[i as int] == ms[i as int]);
                }
                if d > max {
                    max = d;
                }
                i = i + 1;
            }
            assert(ms.subrange(0, ms.len() as int) =~= ms);
            if max == usize::MAX {
                max
            } else {
                max + 1
            }
        } else {
            0
        }
    }
}

/// The tag of a record; `?`, the tag of anonymous records, where it has
/// none.
pub open spec fn tag_of(t: TypeModel) -> Seq<u8> {
    match t.typename {
        Some(n) => n,
        None => seq![ENC_UNKNOWN],
    }
}

/// Can `a` take in what `b` knows?  `id` and a named object merge either
/// way; otherwise the kinds must agree, the pointed-to types must merge, `a`
/// may have no members that `b` lacks, and members pair off with agreeing
/// tags and variable names.
pub open spec fn can_merge(a: TypeModel, b: TypeModel) -> bool
    decreases a, 0nat,
{
    if a.prim == ENC_ID && b.prim == T_NAMED_OBJECT {
        true
    } else if a.prim == T_NAMED_OBJECT && b.prim == ENC_ID {
        true
    } else if a.prim != b.prim {
        false
    } else {
        let subs_ok = match a.subtype {
            Some(x) => match b.subtype {
                Some(y) => can_merge(*x, *y),
                None => true,
            },
            None => b.subtype is None,
        };
        let n = a.members.len();
        let m = b.members.len();
        &&& subs_ok
        &&& !(n != 0 && m == 0)
        &&& !(n != 0 && n != m)
        &&& n == m ==> members_mergeable(a.members, b.members, n)
    }
}

/// Two optional names that are both present and differ.
pub open spec fn conflicting(x: Option<Seq<u8>>, y: Option<Seq<u8>>) -> bool {
    x is Some && y is Some && x != y
}

/// The first `k` members pair off.
pub open spec fn members_mergeable(am: Seq<TypeModel>, bm: Seq<TypeModel>, k: nat) -> bool
    decreases am, k,
{
    if k == 0 || k > am.len() || k > bm.len() {
        true
    } else {
        let x = am[k - 1];
        let y = bm[k - 1];
        &&& members_mergeable(am, bm, (k - 1) as nat)
        &&& !conflicting(x.typename, y.typename)
        &&& !conflicting(x.variable_name, y.variable_name)
        &&& can_merge(x, y)
    }
}

/// `a` with what `b` adds: an `id` becomes `b`'s named object; for types of
/// the same kind the pointed-to types merge, members come from `b` when `a`
/// has none, and when both have as many, each member takes `b`'s variable
/// name if it has none and merges with its partner.
pub open spec fn merged(a: TypeModel, b: TypeModel) -> TypeModel
    decreases a, 0nat,
{
    if a.prim == ENC_ID && b.prim == T_NAMED_OBJECT {
        TypeModel { prim: T_NAMED_OBJECT, typename: b.typename, ..a }
    } else if a.prim == T_NAMED_OBJECT && b.prim == ENC_ID {
        a
    } else if a.prim != b.prim {
        a
    } else {
        let a1 = match a.subtype {
            Some(x) => match b.subtype {
                Some(y) => TypeModel { subtype: Some(Box::new(merged(*x, *y))), ..a },
                None => a,
            },
            None => a,
        };
        let n = a.members.len();
        let m = b.members.len();
        if m == 0 {
            a1
        } else if n == 0 {
            TypeModel { members: b.members, ..a1 }
        } else if n != m {
            a1
        } else {
            TypeModel { members: merged_members(a.members, b.members, n), ..a1 }
        }
    }
}

/// The first `k` members of `am`, each merged with its partner in `bm`.
pub open spec fn merged_members(am: Seq<TypeModel>, bm: Seq<TypeModel>, k: nat) -> Seq<TypeModel>
    decreases am, k,
{
    if k == 0 || k > am.len() || k > bm.len() {
        Seq::empty()
    } else {
        let x = am[k - 1];
        let y = bm[k - 1];
        let name = if x.variable_name is None { y.variable_name } else { x.variable_name };
        merged_members(am, bm, (k - 1) as nat).push(TypeModel { variable_name: name, ..merged(x, y) })
    }
}


/// A type can always be merged with itself.
pub proof fn lemma_can_merge_itself(t: TypeModel)
    ensures
        can_merge(t, t),
    decreases t, 0nat,
{
    match t.subtype {
        Some(x) => {
            lemma_can_merge_itself(*x);
        },
        None => {},
    }
    lemma_members_mergeable_themselves(t.members, t.members.len());
}

proof fn lemma_members_mergeable_themselves(ms: Seq<TypeModel>, k: nat)
    requires
        k <= ms.len(),
    ensures
        members_mergeable(ms, ms, k),
    decreases ms, k,
{
    if k > 0 {
        lemma_members_mergeable_themselves(ms, (k - 1) as nat);
        lemma_can_merge_itself(ms[k - 1]);
    }
}

/// Merging a type with itself changes nothing.
pub proof fn lemma_merged_itself(t: TypeModel)
    ensures
        merged(t, t) == t,
    decreases t, 0nat,
{
    match t.subtype {
        Some(x) => {
            lemma_merged_itself(*x);
        },
        None => {},
    }
    let n = t.members.len();
    lemma_merged_members_themselves(t.members, n);
    if n > 0 {
        assert(merged_members(t.members, t.members, n) =~= t.members);
    }
}

proof fn lemma_merged_members_themselves(ms: Seq<TypeModel>, k: nat)
    requires
        k <= ms.len(),
    ensures
        merged_members(ms, ms, k) == ms.subrange(0, k as int),
    decreases ms, k,
{
    if k > 0 {
        lemma_merged_members_themselves(ms, (k - 1) as nat);
        lemma_merged_itself(ms[k - 1]);
        assert(merged_members(ms, ms, k) =~= ms.subrange(0, k as int));
    }
}

/// Pairing off a prefix holds if it holds for a longer prefix.
proof fn lemma_mergeable_prefix(am: Seq<TypeModel>, bm: Seq<TypeModel>, k: nat, j: nat)
    requires
        j <= k <= am.len(),
        k <= bm.len(),
        members_mergeable(am, bm, k),
    ensures
        members_mergeable(am, bm, j),
    decreases k,
{
    if j < k {
        lemma_mergeable_prefix(am, bm, (k - 1) as nat, j);
    }
}

fn same_bytes(a: &Option<Vec<u8>>, b: &Option<Vec<u8>>) -> (r: bool)
    ensures
        r == (opt_bytes(*a) == opt_bytes(*b)),
{
    match (a, b) {
        (Some(x), Some(y)) => crate::text::bytes_eq(x.as_slice(), y.as_slice()),
        (None, None) => true,
        _ => false,
    }
}

fn copy_name(a: &Option<Vec<u8>>) -> (r: Option<Vec<u8>>)
    ensures
        opt_bytes(r) == opt_bytes(*a),
{
    match a {
        Some(x) => Some(to_vec(x.as_slice())),
        None => None,
    }
}

impl CDType {
    pub fn can_merge_with(&self, other: &CDType) -> (r: bool)
        ensures
            r == can_merge(self@, other@),
        decreases self,
    {
        proof {
            lemma_tys_view(self.members@);
            lemma_tys_view(other.members@);
        }
        if self.is_id_type() && other.is_named_object() {
            return true;
        }
        if self.is_named_object() && other.is_id_type() {
            return true;
        }
        if self.prim != other.prim {
            return false;
        }
        match (&self.subtype, &other.subtype) {
            (Some(a), Some(b)) => {
                if !a.can_merge_with(b) {
                    return false;
                }
            },
            (None, Some(_)) => {
                return false;
            },
            _ => {},
        }
        let count = self.members.len();
        let other_count = other.members.len();
        if count != 0 && other_count == 0 {
            return false;
        }
        if count != 0 && count != other_count {
            return false;
        }
        if count == other_count {
            let ghost am = self@.members;
            let ghost bm = other@.members;
            proof {
                lemma_tys_view(self.members@);
                lemma_tys_view(other.members@);
            }
            let mut i: usize = 0;
            while i < count
                invariant
                    self.prim == other.prim,
                    count == other_count,
                    count == self.members@.len(),
                    other_count == other.members@.len(),
                    am == self@.members,
                    bm == other@.members,
                    am.len() == count,
                    bm.len() == count,
                    forall|j: int| 0 <= j < count ==> #[trigger] am[j] == self.members@[j]@,
                    forall|j: int| 0 <= j < count ==> #[trigger] bm[j] == other.members@[j]@,
                    i <= count,
                    members_mergeable(am, bm, i as nat),
                decreases count - i,
            {
                let a = &self.members[i];
                let b = &other.members[i];
                proof {
                    assert(am[i as int] == a@);
                    assert(bm[i as int] == b@);
                }
                if (a.typename.is_some() && b.typename.is_some() && !same_bytes(&a.typename, &b.typename))
                    || (a.variable_name.is_some() && b.variable_name.is_some() && !same_bytes(
                    &a.variable_name,
                    &b.variable_name,
                )) || !a.can_merge_with(b) {
                    proof {
                        assert(conflicting(am[i as int].typename, bm[i as int].typename) || conflicting(
                            am[i as int].variable_name,
                            bm[i as int].variable_name,
                        ) || !can_merge(am[i as int], bm[i as int]));
                        assert(!members_mergeable(am, bm, (i + 1) as nat));
                        if members_mergeable(am, bm, count as nat) {
                            lemma_mergeable_prefix(am, bm, count as nat, (i + 1) as nat);
                        }
                    }
                    return false;
                }
                i = i + 1;
            }
        }
        true
    }

    /// The merge of `other` into a copy of this type.
    fn merged_with(&self, other: &CDType) -> (r: CDType)
        ensures
            r@ == merged(self@, other@),
        decreases self,
    {
        proof {
            lemma_tys_view(self.members@);
            lemma_tys_view(other.members@);
        }
        if self.is_id_type() && other.is_named_object() {
            let mut r = self.clone();
            r.prim = T_NAMED_OBJECT;
            r.typename = copy_name(&other.typename);
            return r;
        }
        if self.is_named_object() && other.is_id_type() {
            return self.clone();
        }
        if self.prim != other.prim {
            return self.clone();
        }
        let mut r = self.clone();
        match (&self.subtype, &other.subtype) {
            (Some(a), Some(b)) => {
                r.subtype = Some(Box::new(a.merged_with(b)));
            },
            _ => {},
        }
        let count = self.members.len();
        let other_count = other.members.len();
        if other_count == 0 {
            return r;
        } else if count == 0 {
            r.members = clone_types(&other.members);
            return r;
        } else if count != other_count {
            return r;
        }
        let ghost am = self@.members;
        let ghost bm = other@.members;
        proof {
            lemma_tys_view(self.members@);
            lemma_tys_view(other.members@);
        }
        let mut ms: Vec<CDType> = Vec::new();
        let mut i: usize = 0;
        while i < count
            invariant
                count == other_count,
                count == self.members@.len(),
                other_count == other.members@.len(),
                am == self@.members,
                bm == other@.members,
                am.len() == count,
                bm.len() == count,
                forall|j: int| 0 <= j < count ==> #[trigger] am[j] == self.members@[j]@,
                forall|j: int| 0 <= j < count ==> #[trigger] bm[j] == other.members@[j]@,
                i <= count,
                tys_view(ms@) == merged_members(am, bm, i as nat),
            decreases count - i,
        {
            let a = &self.members[i];
            let b = &other.members[i];
            let mut m = a.merged_with(b);
            if a.variable_name.is_none() {
                m.variable_name = copy_name(&b.variable_name);
            }
            proof {
                assert(am[i as int] == a@);
                assert(bm[i as int] == b@);
                lemma_tys_view_push(ms@, m);
            }
            ms.push(m);
            i = i + 1;
        }
        r.members = ms;
        r
    }

    /// Merge what `other` knows into this type (see `merged`).
    pub fn merge_with(&mut self, other: &CDType)
        ensures
            final(self)@ == merged(old(self)@, other@),
    {
        *self = self.merged_with(other);
    }
}

/// The generated name of member number `k`.
pub open spec fn field_name(k: nat) -> Seq<u8> {
    "_field".spec_bytes() + decimal(k)
}

/// `k` is the first number from `n` on whose generated name is not in `used`.
pub open spec fn is_first_free(used: Seq<Seq<u8>>, n: nat, k: nat) -> bool {
    &&& n <= k
    &&& !used.contains(field_name(k))
    &&& forall|j: nat| n <= j < k ==> used.contains(#[trigger] field_name(j))
}

/// The first number from `n` on whose generated name is not in `used`.
pub open spec fn first_free(used: Seq<Seq<u8>>, n: nat) -> nat {
    choose|k: nat| is_first_free(used, n, k)
}

/// The variable names that members already have, in order.
pub open spec fn used_names(ms: Seq<TypeModel>) -> Seq<Seq<u8>>
    decreases ms.len(),
{
    if ms.len() == 0 {
        Seq::empty()
    } else {
        let prev = used_names(ms.drop_last());
        match ms.last().variable_name {
            Some(v) => prev.push(v),
            None => prev,
        }
    }
}

/// `t` with generated names: every record member without a variable name,
/// bitfields aside, is named `_fieldN` with the next number that no member
/// of that record already uses; nested records and pointed-to types too.
pub open spec fn with_names(t: TypeModel) -> TypeModel
    decreases t, 0nat,
{
    let t1 = if is_record(t.prim) {
        TypeModel { members: named_members(t.members, used_names(t.members), 1), ..t }
    } else {
        t
    };
    match t.subtype {
        Some(b) => TypeModel { subtype: Some(Box::new(with_names(*b))), ..t1 },
        None => t1,
    }
}

/// The members `ms` with generated names, numbering from `number`.
pub open spec fn named_members(ms: Seq<TypeModel>, used: Seq<Seq<u8>>, number: nat) -> Seq<TypeModel>
    decreases ms, 0nat,
{
    if ms.len() == 0 {
        Seq::empty()
    } else {
        let m = with_names(ms[0]);
        if m.variable_name is None && m.prim != ENC_BITFIELD {
            let k = first_free(used, number);
            seq![TypeModel { variable_name: Some(field_name(k)), ..m }] + named_members(
                ms.subrange(1, ms.len() as int),
                used,
                k + 1,
            )
        } else {
            seq![m] + named_members(ms.subrange(1, ms.len() as int), used, number)
        }
    }
}


/// Generating names keeps a type's own kind and name.
proof fn lemma_with_names_keeps(t: TypeModel, v: Option<Seq<u8>>)
    ensures
        with_names(t).prim == t.prim,
        with_names(t).variable_name == t.variable_name,
        with_names((TypeModel { variable_name: v, ..t })) == (TypeModel { variable_name: v, ..with_names(t) }),
{
}

/// A member that needs no more naming: it has a name (or is a bitfield)
/// and its nested records are named.
pub open spec fn settled(m: TypeModel) -> bool {
    &&& ((m.variable_name is Some) || m.prim == ENC_BITFIELD)
    &&& with_names(m) == m
}

/// Generating member names a second time changes nothing.
pub proof fn lemma_with_names_idempotent(t: TypeModel)
    ensures
        with_names(with_names(t)) == with_names(t),
    decreases t, 0nat,
{
    let w = with_names(t);
    match t.subtype {
        Some(b) => {
            lemma_with_names_idempotent(*b);
        },
        None => {},
    }
    if is_record(t.prim) {
        let r = named_members(t.members, used_names(t.members), 1);
        lemma_named_members_settled(t.members, used_names(t.members), 1, used_names(r), 1);
        assert(w.members == r);
        assert(with_names(w).members == named_members(r, used_names(r), 1));
    }
}

/// Named members are settled, so naming them again keeps them.
proof fn lemma_named_members_settled(ms: Seq<TypeModel>, used: Seq<Seq<u8>>, n: nat, used2: Seq<Seq<u8>>, n2: nat)
    ensures
        forall|i: int| 0 <= i < named_members(ms, used, n).len() ==> settled(#[trigger] named_members(ms, used, n)[i]),
        named_members(named_members(ms, used, n), used2, n2) == named_members(ms, used, n),
    decreases ms, 0nat,
{
    if ms.len() > 0 {
        let m = with_names(ms[0]);
        let tail = ms.subrange(1, ms.len() as int);
        lemma_with_names_idempotent(ms[0]);
        lemma_with_names_keeps(ms[0], None);
        let r = named_members(ms, used, n);
        let (m0, k) = if m.variable_name is None && m.prim != ENC_BITFIELD {
            let k = first_free(used, n);
            (TypeModel { variable_name: Some(field_name(k)), ..m }, k + 1)
        } else {
            (m, n)
        };
        lemma_with_names_keeps(m, Some(field_name(first_free(used, n))));
        assert(settled(m0));
        let rest = named_members(tail, used, k);
        lemma_named_members_settled(tail, used, k, used2, n2);
        assert(r == seq![m0] + rest);
        assert(r.subrange(1, r.len() as int) =~= rest);
        assert forall|i: int| 0 <= i < r.len() implies settled(#[trigger] r[i]) by {
            if i > 0 {
                assert(r[i] == rest[i - 1]);
            }
        }
        assert(r[0] == m0);
        assert(named_members(r, used2, n2) =~= r);
    }
}

/// Only one number is first.
proof fn lemma_first_free_unique(used: Seq<Seq<u8>>, n: nat, k: nat)
    requires
        is_first_free(used, n, k),
    ensures
        first_free(used, n) == k,
{
    let c = first_free(used, n);
    assert(is_first_free(used, n, c));
    if c < k {
        assert(used.contains(field_name(c)));
    } else if k < c {
        assert(used.contains(field_name(k)));
    }
}


/// Some number from `n` on names no element of `used`, and a first one
/// can be found by counting up.
proof fn lemma_first_free_exists(used: Seq<Seq<u8>>, n: nat)
    ensures
        is_first_free(used, n, first_free(used, n)),
{
    let all = used.to_set();
    vstd::seq_lib::seq_to_set_is_finite(used);
    used.lemma_cardinality_of_set();
    let k = lemma_free_from(used, n, n, Set::empty());
    assert(is_first_free(used, n, k));
}

/// Counting up from `k`, every number before which is taken: each one taken
/// names a different element of `used`, so a free one comes.
proof fn lemma_free_from(used: Seq<Seq<u8>>, n: nat, k: nat, hits: Set<Seq<u8>>) -> (r: nat)
    requires
        n <= k,
        used.to_set().finite(),
        used.to_set().len() <= used.len(),
        hits.finite(),
        hits.len() == k - n,
        hits.subset_of(used.to_set()),
        forall|x: Seq<u8>| #[trigger] hits.contains(x) ==> exists|j: nat| n <= j < k && x == field_name(j),
        forall|j: nat| n <= j < k ==> used.contains(#[trigger] field_name(j)),
    ensures
        is_first_free(used, n, r),
    decreases used.to_set().len() - hits.len(),
{
    vstd::set_lib::lemma_len_subset(hits, used.to_set());
    if !used.contains(field_name(k)) {
        k
    } else {
        assert(!hits.contains(field_name(k))) by {
            if hits.contains(field_name(k)) {
                let j = choose|j: nat| n <= j < k && field_name(k) == field_name(j);
                lemma_field_name_injective(k, j);
            }
        }
        let hits2 = hits.insert(field_name(k));
        assert(used.to_set().contains(field_name(k)));
        vstd::set_lib::lemma_len_subset(hits2, used.to_set());
        assert forall|x: Seq<u8>| #[trigger] hits2.contains(x) implies exists|j: nat| n <= j < k + 1 && x == field_name(j) by {
            if x != field_name(k) {
                assert(hits.contains(x));
            }
        }
        lemma_free_from(used, n, k + 1, hits2)
    }
}

/// A member that gets a generated name: it has none and is no bitfield.
pub open spec fn unnamed(m: TypeModel) -> bool {
    m.variable_name is None && m.prim != ENC_BITFIELD
}

/// What naming a list of members gives, member by member: each unnamed one
/// gets a generated name not in `used`, numbered from `n` on and
/// increasing; the others keep their names.
proof fn lemma_named_members_names(ms: Seq<TypeModel>, used: Seq<Seq<u8>>, n: nat)
    ensures
        named_members(ms, used, n).len() == ms.len(),
        forall|i: int|
            0 <= i < ms.len() && !unnamed(#[trigger] ms[i]) ==> named_members(ms, used, n)[i].variable_name
                == ms[i].variable_name,
        forall|i: int|
            0 <= i < ms.len() && unnamed(#[trigger] ms[i]) ==> exists|k: nat|
                n <= k && named_members(ms, used, n)[i].variable_name == Some(#[trigger] field_name(k))
                    && !used.contains(field_name(k)),
        forall|i: int, j: int|
            0 <= i < ms.len() && 0 <= j < ms.len() && i != j && unnamed(#[trigger] ms[i]) && unnamed(
                #[trigger] ms[j],
            ) ==> named_members(ms, used, n)[i].variable_name != named_members(ms, used, n)[j].variable_name,
    decreases ms.len(),
{
    if ms.len() > 0 {
        let tail = ms.subrange(1, ms.len() as int);
        let r = named_members(ms, used, n);
        lemma_with_names_keeps(ms[0], None);
        let m = with_names(ms[0]);
        let k0 = first_free(used, n);
        lemma_first_free_exists(used, n);
        let next = if unnamed(m) { k0 + 1 } else { n };
        lemma_named_members_names(tail, used, next);
        let rest = named_members(tail, used, next);
        assert forall|i: int| 1 <= i < ms.len() implies #[trigger] r[i] == rest[i - 1] && ms[i] == tail[i - 1] by {}
        assert forall|i: int| 0 <= i < ms.len() && !unnamed(#[trigger] ms[i]) implies r[i].variable_name == ms[i].variable_name by {
            if i > 0 {
                assert(r[i] == rest[i - 1] && ms[i] == tail[i - 1]);
            }
        }
        assert forall|i: int| 0 <= i < ms.len() && unnamed(#[trigger] ms[i]) implies exists|k: nat|
            n <= k && r[i].variable_name == Some(#[trigger] field_name(k)) && !used.contains(field_name(k)) by {
            if i == 0 {
                assert(r[0].variable_name == Some(field_name(k0)));
            } else {
                assert(r[i] == rest[i - 1] && ms[i] == tail[i - 1]);
                assert(unnamed(tail[i - 1]));
            }
        }
        assert forall|i: int, j: int|
            0 <= i < ms.len() && 0 <= j < ms.len() && i != j && unnamed(#[trigger] ms[i]) && unnamed(#[trigger] ms[j]) implies r[i].variable_name
            != r[j].variable_name by {
            if i > 0 && j > 0 {
                assert(r[i] == rest[i - 1] && ms[i] == tail[i - 1]);
                assert(r[j] == rest[j - 1] && ms[j] == tail[j - 1]);
                assert(unnamed(tail[i - 1]) && unnamed(tail[j - 1]));
            } else {
                let (a, b) = if i == 0 { (i, j) } else { (j, i) };
                assert(r[b] == rest[b - 1] && ms[b] == tail[b - 1]);
                assert(unnamed(tail[b - 1]));
                let kb = choose|k: nat| next <= k && rest[b - 1].variable_name == Some(#[trigger] field_name(k))
                    && !used.contains(field_name(k));
                if r[a].variable_name == r[b].variable_name {
                    lemma_field_name_injective(k0, kb);
                }
            }
        }
    }
}

/// The names `used_names` lists are those the members have.
proof fn lemma_used_names_has(ms: Seq<TypeModel>, i: int)
    requires
        0 <= i < ms.len(),
        ms[i].variable_name is Some,
    ensures
        used_names(ms).contains(ms[i].variable_name->0),
    decreases ms.len(),
{
    let prev = ms.drop_last();
    if i < ms.len() - 1 {
        lemma_used_names_has(prev, i);
        let u = used_names(prev);
        let j = choose|j: int| 0 <= j < u.len() && u[j] == ms[i].variable_name->0;
        assert(used_names(ms)[j] == u[j]);
    } else {
        assert(used_names(ms).last() == ms[i].variable_name->0);
    }
}

/// In a record, each member without a name (bitfields aside) gets a
/// generated name that no member of the record had, and that no other
/// member gets.
pub proof fn lemma_generated_names_fresh(t: TypeModel, i: int, j: int)
    requires
        is_record(t.prim),
        0 <= i < t.members.len(),
        0 <= j < t.members.len(),
        i != j,
        unnamed(t.members[i]),
    ensures
        with_names(t).members[i].variable_name is Some,
        with_names(t).members[i].variable_name != t.members[j].variable_name,
        with_names(t).members[i].variable_name != with_names(t).members[j].variable_name,
{
    let ms = t.members;
    let used = used_names(ms);
    lemma_named_members_names(ms, used, 1);
    let r = named_members(ms, used, 1);
    assert(with_names(t).members == r);
    let k = choose|k: nat| 1 <= k && r[i].variable_name == Some(#[trigger] field_name(k)) && !used.contains(field_name(k));
    if ms[j].variable_name is Some {
        lemma_used_names_has(ms, j);
    }
    if !unnamed(ms[j]) {
        assert(r[j].variable_name == ms[j].variable_name);
    }
}

/// Generated names of different numbers differ.
proof fn lemma_field_name_injective(a: nat, b: nat)
    requires
        field_name(a) == field_name(b),
    ensures
        a == b,
{
    let p = "_field".spec_bytes();
    assert(decimal(a) =~= field_name(a).subrange(p.len() as int, field_name(a).len() as int));
    assert(decimal(b) =~= field_name(b).subrange(p.len() as int, field_name(b).len() as int));
    lemma_decimal_injective(a, b);
}

fn field_name_exec(k: u128) -> (r: Vec<u8>)
    ensures
        r@ == field_name(k as nat),
{
    let mut r: Vec<u8> = Vec::new();
    append_str(&mut r, "_field");
    append_decimal_wide(&mut r, k);
    r
}

fn contains_name(used: &Vec<Vec<u8>>, name: &Vec<u8>) -> (r: bool)
    ensures
        r == names_of(used@).contains(name@),
{
    let mut i: usize = 0;
    while i < used.len()
        invariant
            i <= used@.len(),
            forall|j: int| 0 <= j < i ==> used@[j]@ != name@,
        decreases used@.len() - i,
    {
        if bytes_eq(used[i].as_slice(), name.as_slice()) {
            assert(names_of(used@)[i as int] == name@);
            return true;
        }
        i = i + 1;
    }
    false
}

/// The first free number from `from` on; it comes within `used.len()` steps,
/// since each number passed over names a different element of `used`.
fn first_free_exec(used: &Vec<Vec<u8>>, from: u128) -> (k: u128)
    requires
        from + used@.len() <= u128::MAX,
    ensures
        is_first_free(names_of(used@), from as nat, k as nat),
        k <= from + used@.len(),
{
    let ghost names = names_of(used@);
    let ghost all = names.to_set();
    proof {
        vstd::seq_lib::seq_to_set_is_finite(names);
        names.lemma_cardinality_of_set();
    }
    let mut k = from;
    let ghost mut hits: Set<Seq<u8>> = Set::empty();
    loop
        invariant
            names == names_of(used@),
            all == names.to_set(),
            all.finite(),
            all.len() <= used@.len(),
            from <= k,
            from + used@.len() <= u128::MAX,
            hits.finite(),
            hits.len() == k - from,
            hits.subset_of(all),
            forall|x: Seq<u8>| #[trigger] hits.contains(x) ==> exists|j: nat| from <= j < k && x == field_name(j),
            forall|j: nat| from <= j < k ==> names.contains(#[trigger] field_name(j)),
        decreases all.len() - hits.len(),
    {
        proof {
            vstd::set_lib::lemma_len_subset(hits, all);
        }
        let name = field_name_exec(k);
        if !contains_name(used, &name) {
            return k;
        }
        proof {
            assert(!hits.contains(field_name(k as nat))) by {
                if hits.contains(field_name(k as nat)) {
                    let j = choose|j: nat| from <= j < k && field_name(k as nat) == field_name(j);
                    lemma_field_name_injective(k as nat, j);
                }
            }
            hits = hits.insert(field_name(k as nat));
            assert(names.contains(field_name(k as nat)));
            vstd::set_lib::lemma_len_subset(hits, all);
        }
        k = k + 1;
    }
}

/// The variable names of `ms` that are set, in order.
fn collect_used(ms: &Vec<CDType>) -> (r: Vec<Vec<u8>>)
    ensures
        names_of(r@) == used_names(tys_view(ms@)),
        r@.len() <= ms@.len(),
{
    let ghost am = tys_view(ms@);
    proof {
        lemma_tys_view(ms@);
    }
    let mut r: Vec<Vec<u8>> = Vec::new();
    let mut i: usize = 0;
    while i < ms.len()
        invariant
            i <= ms@.len(),
            am == tys_view(ms@),
            am.len() == ms@.len(),
            forall|j: int| 0 <= j < am.len() ==> #[trigger] am[j] == ms@[j]@,
            names_of(r@) == used_names(am.subrange(0, i as int)),
            r@.len() <= i,
        decreases ms@.len() - i,
    {
        proof {
            assert(am.subrange(0, i + 1).drop_last() =~= am.subrange(0, i as int));
            assert(am.subrange(0, i + 1).last() == ms@[i as int]@);
        }
        match &ms[i].variable_name {
            Some(v) => {
                let ghost before = r@;
                r.push(to_vec(v.as_slice()));
                assert(names_of(r@) =~= names_of(before).push(v@));
            },
            None => {},
        }
        i = i + 1;
    }
    assert(am.subrange(0, ms@.len() as int) =~= am);
    r
}

impl CDType {
    /// A copy of this type with generated member names (see `with_names`).
    fn with_member_names(&self) -> (r: CDType)
        ensures
            r@ == with_names(self@),
        decreases self,
    {
        let mut r = self.clone();
        if self.prim == ENC_STRUCT || self.prim == ENC_UNION {
            let used = collect_used(&self.members);
            let ghost am = self@.members;
            let ghost u = names_of(used@);
            proof {
                lemma_tys_view(self.members@);
                assert(am.subrange(0, am.len() as int) =~= am);
            }
            let mut ms: Vec<CDType> = Vec::new();
            let mut number: u128 = 1;
            let mut i: usize = 0;
            while i < self.members.len()
                invariant
                    i <= self.members@.len(),
                    am == self@.members,
                    am.len() == self.members@.len(),
                    forall|j: int| 0 <= j < am.len() ==> #[trigger] am[j] == self.members@[j]@,
                    u == names_of(used@),
                    u == used_names(am),
                    used@.len() <= self.members@.len(),
                    1 <= number <= 1 + i * (used@.len() + 1),
                    tys_view(ms@) + named_members(am.subrange(i as int, am.len() as int), u, number as nat)
                        == named_members(am, u, 1),
                decreases self.members@.len() - i,
            {
                let ghost rest = am.subrange(i as int, am.len() as int);
                proof {
                    assert(rest[0] == am[i as int]);
                    assert(rest.subrange(1, rest.len() as int) =~= am.subrange(i + 1, am.len() as int));
                    assert(number + used@.len() + 1 <= u128::MAX) by (nonlinear_arith)
                        requires
                            number <= 1 + i * (used@.len() + 1),
                            i < usize::MAX,
                            used@.len() <= usize::MAX,
                    ;
                }
                let mut m = self.members[i].with_member_names();
                let ghost before = ms@;
                let ghost n0 = number;
                if m.variable_name.is_none() && m.prim != ENC_BITFIELD {
                    let k = first_free_exec(&used, number);
                    proof {
                        lemma_first_free_unique(u, number as nat, k as nat);
                    }
                    m.variable_name = Some(field_name_exec(k));
                    number = k + 1;
                }
                proof {
                    assert(number <= 1 + (i + 1) * (used@.len() + 1)) by (nonlinear_arith)
                        requires
                            number <= n0 + used@.len() + 1,
                            n0 <= 1 + i * (used@.len() + 1),
                    ;
                    lemma_tys_view_push(ms@, m);
                    assert(tys_view(before.push(m)) + named_members(
                        am.subrange(i + 1, am.len() as int),
                        u,
                        number as nat,
                    ) =~= tys_view(before) + named_members(rest, u, n0 as nat));
                }
                ms.push(m);
                i = i + 1;
            }
            proof {
                assert(am.subrange(am.len() as int, am.len() as int) =~= Seq::<TypeModel>::empty());
                assert(tys_view(ms@) =~= tys_view(ms@) + named_members(Seq::<TypeModel>::empty(), u, number as nat));
            }
            r.members = ms;
        }
        match &self.subtype {
            Some(b) => {
                r.subtype = Some(Box::new(b.with_member_names()));
            },
            None => {},
        }
        r
    }

    /// Give every unnamed record member a generated name (see `with_names`).
    pub fn generate_member_names(&mut self)
        ensures
            final(self)@ == with_names(old(self)@),
    {
        *self = self.with_member_names();
    }
}

/// The records with members that `walk_structs` visits, in order: those of
/// the pointed-to type, then the type itself, then those of its members.
pub open spec fn struct_nodes(t: CDType) -> Seq<CDType>
    decreases t,
{
    let sub = match t.subtype {
        Some(b) => struct_nodes(*b),
        None => Seq::<CDType>::empty(),
    };
    if (t.prim == ENC_STRUCT || t.prim == ENC_UNION) && t.members@.len() > 0 {
        sub.push(t) + member_nodes(t.members@)
    } else {
        sub
    }
}

/// The records `walk_structs` visits in the pointed-to type.
pub open spec fn sub_nodes(t: CDType) -> Seq<CDType> {
    match t.subtype {
        Some(b) => struct_nodes(*b),
        None => Seq::empty(),
    }
}

/// The records `walk_structs` visits in each member, in order.
pub open spec fn member_nodes(s: Seq<CDType>) -> Seq<CDType>
    decreases s,
{
    if s.len() == 0 {
        Seq::empty()
    } else {
        member_nodes(s.subrange(0, s.len() - 1)) + struct_nodes(s[s.len() - 1])
    }
}

impl CDType {
    /// Call `f` on every record with members (see `struct_nodes`): `f` is
    /// called on each of them, so what `f` ensures holds of each.
    pub fn walk_structs<F: FnMut(&CDType)>(&self, f: &mut F)
        requires
            forall|t: &CDType| call_requires(*old(f), (t,)),
        ensures
            *final(f) == *old(f),
            forall|t: CDType| struct_nodes(*self).contains(t) ==> call_ensures(*old(f), (&t,), ()),
        decreases self,
    {
        broadcast use vstd::function::group_function_axioms;
        let ghost g = *f;
        match &self.subtype {
            Some(s) => s.walk_structs(f),
            None => {},
        }
        let ghost sub = sub_nodes(*self);
        if (self.prim == ENC_STRUCT || self.prim == ENC_UNION) && self.members.len() > 0 {
            f(self);
            let mut i: usize = 0;
            while i < self.members.len()
                invariant
                    *f == g,
                    forall|t: &CDType| call_requires(g, (t,)),
                    forall|t: CDType| sub.contains(t) ==> call_ensures(g, (&t,), ()),
                    call_ensures(g, (self,), ()),
                    i <= self.members@.len(),
                    forall|t: CDType| member_nodes(self.members@.subrange(0, i as int)).contains(t) ==> call_ensures(
                        g,
                        (&t,),
                        (),
                    ),
                decreases self.members@.len() - i,
            {
                self.members[i].walk_structs(f);
                proof {
                    let pre = self.members@.subrange(0, i + 1);
                    assert(pre.subrange(0, pre.len() - 1) =~= self.members@.subrange(0, i as int));
                    assert(pre[pre.len() - 1] == self.members@[i as int]);
                    assert forall|t: CDType| member_nodes(pre).contains(t) implies call_ensures(g, (&t,), ()) by {
                        let a = member_nodes(self.members@.subrange(0, i as int));
                        let b = struct_nodes(self.members@[i as int]);
                        assert(member_nodes(pre) == a + b);
                        let j = choose|j: int| 0 <= j < (a + b).len() && (a + b)[j] == t;
                        if j < a.len() {
                            assert(a[j] == t);
                            assert(a.contains(t));
                        } else {
                            assert(b[j - a.len()] == t);
                            assert(b.contains(t));
                        }
                    }
                }
                i = i + 1;
            }
            proof {
                assert(self.members@.subrange(0, i as int) =~= self.members@);
                let whole = sub.push(*self) + member_nodes(self.members@);
                assert forall|t: CDType| whole.contains(t) implies call_ensures(g, (&t,), ()) by {
                    let j = choose|j: int| 0 <= j < whole.len() && whole[j] == t;
                    if j < sub.len() {
                        assert(sub[j] == t);
                        assert(sub.contains(t));
                    } else if j == sub.len() {
                        assert(t == *self);
                    } else {
                        assert(member_nodes(self.members@)[j - sub.len() - 1] == t);
                        assert(member_nodes(self.members@.subrange(0, i as int)).contains(t));
                    }
                }
            }
        }
    }
}

} // verus!
