//! Property attribute strings (`T@"NSString",C,N,V_name`): the encoded type,
//! the attributes class-dump shows, the accessors and the backing ivar.

use vstd::prelude::*;
use vstd::string::StringSliceAdditionalSpecFns;
use crate::objc::Property;
use crate::parse::{join, run_end, split_on, write_joined};
use crate::text::{append, append_str, lossy_string, sub_vec, to_vec, utf8_lossy};
use vstd::utf8::encode_utf8;
use crate::typ::{names_of, COMMA, ENC_ARRAY, ENC_ARRAY_END, ENC_STRUCT, ENC_STRUCT_END, ENC_UNION, ENC_UNION_END, QUOTE};

verus! {

/// What `str::to_uppercase` makes of the text `s`: its characters.
pub uninterp spec fn uppercase_of(s: Seq<char>) -> Seq<char>;

/// `s` with the ASCII letters `a`-`z` made capital.
pub open spec fn ascii_upper(s: Seq<u8>) -> Seq<u8> {
    s.map_values(|c: u8| if 97 <= c <= 122 { (c - 32) as u8 } else { c })
}

/// `c` made capital if it is one of `a`-`z`.
pub open spec fn ascii_upper_char(c: char) -> char {
    if 97 <= (c as u32) <= 122 {
        ((c as u32) - 32) as char
    } else {
        c
    }
}

/// Calls `str::to_uppercase`.  Trusted: the result is the text named
/// `uppercase_of`; on ASCII text it capitalizes `a`-`z` and keeps every
/// other character, as the documentation of `to_uppercase` gives for ASCII.
#[verifier::external_body]
fn upper_str(s: &str) -> (r: String)
    ensures
        r@ == uppercase_of(s@),
        (forall|i: int| 0 <= i < s@.len() ==> (s@[i] as u32) < 128) ==> r@ == s@.map_values(
            |c: char| ascii_upper_char(c),
        ),
{
    s.to_uppercase()
}

/// The length of the UTF-8 character that starts `s` (by its lead byte).
pub open spec fn first_char_len(s: Seq<u8>) -> int {
    if s.len() == 0 {
        0
    } else {
        let n: int = if s[0] < 0x80 {
            1
        } else if s[0] < 0xE0 {
            2
        } else if s[0] < 0xF0 {
            3
        } else {
            4
        };
        if n > s.len() {
            s.len() as int
        } else {
            n
        }
    }
}

/// `s` with its first character upper-cased: an ASCII letter `a`-`z`
/// becomes `A`-`Z`; another first character is decoded as by
/// `from_utf8_lossy` and upper-cased as by `str::to_uppercase`.
pub open spec fn capitalized(s: Seq<u8>) -> Seq<u8> {
    let k = first_char_len(s);
    if k == 0 {
        Seq::empty()
    } else if s[0] < 0x80 {
        ascii_upper(s.subrange(0, 1)) + s.subrange(1, s.len() as int)
    } else {
        encode_utf8(uppercase_of(utf8_lossy(s.subrange(0, k)))) + s.subrange(k, s.len() as int)
    }
}

/// An ASCII character is encoded as its own byte.
proof fn lemma_ascii_char_bytes(b: u8)
    requires
        b < 128,
    ensures
        encode_utf8(seq![b as char]) == seq![b],
        encode_utf8(seq![ascii_upper_char(b as char)]) == ascii_upper(seq![b]),
{
    reveal_with_fuel(encode_utf8, 2);
    let c = b as char;
    let u = ascii_upper_char(c);
    assert((c as u32) == (b as u32));
    assert(seq![c].drop_first() =~= Seq::<char>::empty());
    assert(seq![u].drop_first() =~= Seq::<char>::empty());
    let v: u32 = b as u32;
    assert((v & 0x7F) as u8 == b) by (bit_vector)
        requires
            v == b as u32,
            b < 128,
    ;
    let w: u32 = u as u32;
    let bu: u8 = if 97 <= b <= 122 { (b - 32) as u8 } else { b };
    assert(w == bu as u32);
    assert((w & 0x7F) as u8 == bu) by (bit_vector)
        requires
            w == bu as u32,
            bu < 128,
    ;
    assert(encode_utf8(Seq::<char>::empty()) =~= Seq::<u8>::empty());
    assert(vstd::utf8::encode_scalar(v) =~= seq![b]);
    assert(encode_utf8(seq![c]) =~= seq![b]);
    assert(encode_utf8(seq![u]) =~= ascii_upper(seq![b]));
}

/// `s` with its first character upper-cased (see `capitalized`).
pub fn capitalize_first(s: &[u8]) -> (r: Vec<u8>)
    ensures
        r@ == capitalized(s@),
        s@.len() > 0 && s@[0] < 128 ==> r@ == ascii_upper(s@.subrange(0, 1)) + s@.subrange(1, s@.len() as int),
{
    if s.len() == 0 {
        return Vec::new();
    }
    let b = s[0];
    let n: usize = if b < 0x80 {
        1
    } else if b < 0xE0 {
        2
    } else if b < 0xF0 {
        3
    } else {
        4
    };
    let k = if n > s.len() { s.len() } else { n };
    let head = sub_vec(s, 0, k);
    let text = lossy_string(head.as_slice());
    let up = upper_str(text.as_str());
    let mut r = to_vec(up.as_str().as_bytes());
    append(&mut r, sub_vec(s, k, s.len()).as_slice());
    proof {
        if b < 0x80 {
            assert(head@ =~= seq![b]);
            assert(text@ =~= seq![b as char]);
            assert(up@ =~= seq![ascii_upper_char(b as char)]);
            lemma_ascii_char_bytes(b);
        }
    }
    r
}

/// The end of the encoded type in an attribute string: the first `,`
/// outside quotes and brackets, from position `i` with bracket `depth` and
/// quote state `q`.
pub open spec fn type_end(s: Seq<u8>, i: int, depth: int, q: bool) -> int
    decreases s.len() - i,
{
    if i < 0 || i >= s.len() {
        s.len() as int
    } else {
        let b = s[i];
        if b == QUOTE {
            type_end(s, i + 1, depth, !q)
        } else if !q && (b == ENC_STRUCT || b == ENC_UNION || b == ENC_ARRAY) {
            type_end(s, i + 1, depth + 1, q)
        } else if !q && (b == ENC_STRUCT_END || b == ENC_UNION_END || b == ENC_ARRAY_END) {
            type_end(s, i + 1, depth - 1, q)
        } else if !q && b == COMMA && depth == 0 {
            i
        } else {
            type_end(s, i + 1, depth, q)
        }
    }
}

/// The encoded type and the attributes after it.
pub open spec fn type_and_rest(s: Seq<u8>) -> (Seq<u8>, Seq<u8>) {
    let end = type_end(s, 0, 0, false);
    (s.subrange(0, end), if end < s.len() { s.subrange(end + 1, s.len() as int) } else { Seq::empty() })
}

proof fn lemma_type_end(s: Seq<u8>, i: int, depth: int, q: bool)
    requires
        0 <= i <= s.len(),
    ensures
        i <= type_end(s, i, depth, q) <= s.len(),
    decreases s.len() - i,
{
    if i < s.len() {
        let b = s[i];
        if b == QUOTE {
            lemma_type_end(s, i + 1, depth, !q);
        } else if !q && (b == ENC_STRUCT || b == ENC_UNION || b == ENC_ARRAY) {
            lemma_type_end(s, i + 1, depth + 1, q);
        } else if !q && (b == ENC_STRUCT_END || b == ENC_UNION_END || b == ENC_ARRAY_END) {
            lemma_type_end(s, i + 1, depth - 1, q);
        } else if !q && b == COMMA && depth == 0 {
        } else {
            lemma_type_end(s, i + 1, depth, q);
        }
    }
}

pub fn split_type_and_rest(s: &[u8]) -> (r: (Vec<u8>, Vec<u8>))
    ensures
        (r.0@, r.1@) == type_and_rest(s@),
{
    let mut depth: i128 = 0;
    let mut in_quote = false;
    let mut i: usize = 0;
    let n = s.len();
    proof {
        lemma_type_end(s@, 0, 0, false);
    }
    while i < n
        invariant
            n == s@.len(),
            i <= n,
            -(i as int) <= depth <= i,
            type_end(s@, i as int, depth as int, in_quote) == type_end(s@, 0, 0, false),
        ensures
            i as int == type_end(s@, 0, 0, false),
            i <= n,
        decreases n - i,
    {
        let b = s[i];
        if b == QUOTE {
            in_quote = !in_quote;
        } else if !in_quote && (b == ENC_STRUCT || b == ENC_UNION || b == ENC_ARRAY) {
            depth = depth + 1;
        } else if !in_quote && (b == ENC_STRUCT_END || b == ENC_UNION_END || b == ENC_ARRAY_END) {
            depth = depth - 1;
        } else if !in_quote && b == COMMA && depth == 0 {
            break;
        }
        i = i + 1;
    }
    let ty = sub_vec(s, 0, i);
    let rest = if i < n { sub_vec(s, i + 1, n) } else { Vec::new() };
    (ty, rest)
}

/// What class-dump gathers from a property's attribute string.
pub struct PropInfo {
    pub type_encoding: Vec<u8>,
    pub alist: Vec<Vec<u8>>,
    pub unknown_attrs: Vec<Vec<u8>>,
    pub attr_string_after_type: Vec<u8>,
    pub readonly: bool,
    pub dynamic: bool,
    pub weak: bool,
    pub getter: Vec<u8>,
    pub setter: Vec<u8>,
    pub backing_var: Option<Vec<u8>>,
}

pub struct PropModel {
    pub type_encoding: Seq<u8>,
    pub alist: Seq<Seq<u8>>,
    pub unknown_attrs: Seq<Seq<u8>>,
    pub attr_string_after_type: Seq<u8>,
    pub readonly: bool,
    pub dynamic: bool,
    pub weak: bool,
    pub getter: Seq<u8>,
    pub setter: Seq<u8>,
    pub backing_var: Option<Seq<u8>>,
}

impl View for PropInfo {
    type V = PropModel;

    open spec fn view(&self) -> PropModel {
        PropModel {
            type_encoding: self.type_encoding@,
            alist: names_of(self.alist@),
            unknown_attrs: names_of(self.unknown_attrs@),
            attr_string_after_type: self.attr_string_after_type@,
            readonly: self.readonly,
            dynamic: self.dynamic,
            weak: self.weak,
            getter: self.getter@,
            setter: self.setter@,
            backing_var: crate::typ::opt_bytes(self.backing_var),
        }
    }
}

/// One attribute (`R`, `C`, `&`, `Gname`, `Sname`, `Vname`, `N`, `W`, `P`,
/// `D`; anything else is unknown) applied to what is known so far.
pub open spec fn attr_step(i: PropModel, attr: Seq<u8>) -> PropModel {
    let tail = if attr.len() > 0 { attr.subrange(1, attr.len() as int) } else { Seq::empty() };
    let c = if attr.len() > 0 { attr[0] } else { 32 };
    if c == 82 {
        PropModel { readonly: true, alist: i.alist.push("readonly".spec_bytes()), ..i }
    } else if c == 67 {
        PropModel { alist: i.alist.push("copy".spec_bytes()), ..i }
    } else if c == 38 {
        PropModel { alist: i.alist.push("retain".spec_bytes()), ..i }
    } else if c == 71 {
        PropModel { getter: tail, alist: i.alist.push("getter=".spec_bytes() + tail), ..i }
    } else if c == 83 {
        PropModel { setter: tail, alist: i.alist.push("setter=".spec_bytes() + tail), ..i }
    } else if c == 86 {
        PropModel { backing_var: Some(tail), ..i }
    } else if c == 78 {
        PropModel { alist: i.alist.push("nonatomic".spec_bytes()), ..i }
    } else if c == 87 {
        PropModel { weak: true, ..i }
    } else if c == 80 {
        PropModel { weak: false, ..i }
    } else if c == 68 {
        PropModel { dynamic: true, ..i }
    } else {
        PropModel { unknown_attrs: i.unknown_attrs.push(attr), ..i }
    }
}

/// The attribute letters: `R` readonly, `C` copy, `&` retain, `N`
/// nonatomic (each listed as such); `Gname` and `Sname` set and list the
/// getter and setter; `Vname` names the backing ivar; `W` makes the property
/// weak and `P` not; `D` makes it dynamic; any other attribute is kept as
/// unknown. Nothing else changes.
pub proof fn lemma_attribute_letters(i: PropModel, tail: Seq<u8>, other: Seq<u8>)
    requires
        other.len() > 0,
        !(other[0] == 82 || other[0] == 67 || other[0] == 38 || other[0] == 71 || other[0] == 83 || other[0] == 86
            || other[0] == 78 || other[0] == 87 || other[0] == 80 || other[0] == 68),
    ensures
        attr_step(i, seq![82u8] + tail) == (PropModel { readonly: true, alist: i.alist.push("readonly".spec_bytes()), ..i }),
        attr_step(i, seq![67u8] + tail) == (PropModel { alist: i.alist.push("copy".spec_bytes()), ..i }),
        attr_step(i, seq![38u8] + tail) == (PropModel { alist: i.alist.push("retain".spec_bytes()), ..i }),
        attr_step(i, seq![78u8] + tail) == (PropModel { alist: i.alist.push("nonatomic".spec_bytes()), ..i }),
        attr_step(i, seq![71u8] + tail) == (PropModel {
            getter: tail,
            alist: i.alist.push("getter=".spec_bytes() + tail),
            ..i
        }),
        attr_step(i, seq![83u8] + tail) == (PropModel {
            setter: tail,
            alist: i.alist.push("setter=".spec_bytes() + tail),
            ..i
        }),
        attr_step(i, seq![86u8] + tail) == (PropModel { backing_var: Some(tail), ..i }),
        attr_step(i, seq![87u8] + tail) == (PropModel { weak: true, ..i }),
        attr_step(i, seq![80u8] + tail) == (PropModel { weak: false, ..i }),
        attr_step(i, seq![68u8] + tail) == (PropModel { dynamic: true, ..i }),
        attr_step(i, other) == (PropModel { unknown_attrs: i.unknown_attrs.push(other), ..i }),
{
    assert forall|c: u8| (seq![c] + tail).subrange(1, (seq![c] + tail).len() as int) =~= tail by {}
    assert forall|c: u8| (seq![c] + tail)[0] == c by {}
}

/// The first `k` attributes applied in order.
pub open spec fn attrs_applied(i: PropModel, attrs: Seq<Seq<u8>>, k: nat) -> PropModel
    decreases k,
{
    if k == 0 || k > attrs.len() {
        i
    } else {
        attr_step(attrs_applied(i, attrs, (k - 1) as nat), attrs[k - 1])
    }
}

/// What class-dump reads from a property: the type after a leading `T`,
/// then each comma-separated attribute after it.  The getter defaults to
/// the property's name, the setter to `setName:`.
#[verifier::opaque]
pub open spec fn prop_model(name: Seq<u8>, attributes: Seq<u8>) -> PropModel {
    let has_t = attributes.len() > 0 && attributes[0] == 84;
    let (ty, rest) = if has_t {
        type_and_rest(attributes.subrange(1, attributes.len() as int))
    } else {
        (Seq::empty(), Seq::empty())
    };
    let base = PropModel {
        type_encoding: ty,
        alist: Seq::empty(),
        unknown_attrs: Seq::empty(),
        attr_string_after_type: rest,
        readonly: false,
        dynamic: false,
        weak: false,
        getter: name,
        setter: "set".spec_bytes() + capitalized(name) + ":".spec_bytes(),
        backing_var: None,
    };
    if rest.len() > 0 {
        let attrs = split_on(rest, COMMA);
        attrs_applied(base, attrs, attrs.len())
    } else {
        base
    }
}

fn attr_step_exec(info: &mut PropInfo, attr: &Vec<u8>)
    ensures
        final(info)@ == attr_step(old(info)@, attr@),
{
    let c = if attr.len() > 0 { attr[0] } else { 32 };
    let tail = if attr.len() > 0 { sub_vec(attr.as_slice(), 1, attr.len()) } else { Vec::new() };
    let ghost a0 = names_of(info.alist@);
    if c == 82 {
        info.readonly = true;
        let mut w: Vec<u8> = Vec::new();
        append_str(&mut w, "readonly");
        info.alist.push(w);
    } else if c == 67 {
        let mut w: Vec<u8> = Vec::new();
        append_str(&mut w, "copy");
        info.alist.push(w);
    } else if c == 38 {
        let mut w: Vec<u8> = Vec::new();
        append_str(&mut w, "retain");
        info.alist.push(w);
    } else if c == 71 {
        info.getter = to_vec(tail.as_slice());
        let mut w: Vec<u8> = Vec::new();
        append_str(&mut w, "getter=");
        append(&mut w, tail.as_slice());
        info.alist.push(w);
    } else if c == 83 {
        info.setter = to_vec(tail.as_slice());
        let mut w: Vec<u8> = Vec::new();
        append_str(&mut w, "setter=");
        append(&mut w, tail.as_slice());
        info.alist.push(w);
    } else if c == 86 {
        info.backing_var = Some(tail);
    } else if c == 78 {
        let mut w: Vec<u8> = Vec::new();
        append_str(&mut w, "nonatomic");
        info.alist.push(w);
    } else if c == 87 {
        info.weak = true;
    } else if c == 80 {
        info.weak = false;
    } else if c == 68 {
        info.dynamic = true;
    } else {
        info.unknown_attrs.push(to_vec(attr.as_slice()));
    }
    assert(names_of(info.alist@) =~= attr_step(old(info)@, attr@).alist);
    assert(names_of(info.unknown_attrs@) =~= attr_step(old(info)@, attr@).unknown_attrs);
}

/// See `prop_model`.
pub fn parse_property(p: &Property) -> (r: PropInfo)
    ensures
        r@ == prop_model(p.name@, p.attributes@),
{
    proof {
        reveal(prop_model);
    }
    let mut setter: Vec<u8> = Vec::new();
    append_str(&mut setter, "set");
    append(&mut setter, capitalize_first(p.name.as_slice()).as_slice());
    append_str(&mut setter, ":");
    let a = p.attributes.as_slice();
    let has_t = a.len() > 0 && a[0] == 84;
    let (ty, rest) = if has_t { split_type_and_rest(sub_vec(a, 1, a.len()).as_slice()) } else { (Vec::new(), Vec::new()) };
    let mut info = PropInfo {
        type_encoding: ty,
        alist: Vec::new(),
        unknown_attrs: Vec::new(),
        attr_string_after_type: to_vec(rest.as_slice()),
        readonly: false,
        dynamic: false,
        weak: false,
        getter: to_vec(p.name.as_slice()),
        setter,
        backing_var: None,
    };
    proof {
        assert(names_of(info.alist@) =~= Seq::<Seq<u8>>::empty());
        assert(names_of(info.unknown_attrs@) =~= Seq::<Seq<u8>>::empty());
    }
    if rest.len() > 0 {
        let attrs = crate::parse::split_bytes(rest.as_slice(), COMMA);
        let ghost av = names_of(attrs@);
        let ghost base = info@;
        let mut k: usize = 0;
        while k < attrs.len()
            invariant
                k <= attrs@.len(),
                av == names_of(attrs@),
                info@ == attrs_applied(base, av, k as nat),
            decreases attrs@.len() - k,
        {
            attr_step_exec(&mut info, &attrs[k]);
            k = k + 1;
        }
    }
    info
}

} // verus!
