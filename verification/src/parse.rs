//! The `@encode` grammar: a recursive-descent reader of type encodings, as
//! class-dump's lexer and parser read them.
//!
//! Each `p_*` function reads from position `pos` of `s` and returns what it
//! read with the position after it.  Lists stop at their closing byte or at
//! the end of the input; an element that consumed nothing would end a list
//! too (none does: every type consumes at least one byte).

use vstd::prelude::*;
use vstd::string::StringSliceAdditionalSpecFns;
use crate::text::{first_index, lemma_first_index, lemma_first_index_at, sub_vec, to_vec, append, append_str};
use crate::typ::{
    is_modifier, ENC_STRUCT_END, ENC_UNION_END, ENC_ARRAY_END, EQUALS, T_BLOCK, T_FUNCTION_POINTER, CDType, TypeModel, COMMA, DOLLAR, ENC_ARRAY, ENC_ATOM, ENC_BITFIELD, ENC_BOOL, ENC_CHAR, ENC_CLASS,
    ENC_DOUBLE, ENC_FLOAT, ENC_ID, ENC_INT, ENC_LONG, ENC_LONG_DOUBLE, ENC_LONG_LONG, ENC_POINTER, ENC_SEL,
    ENC_SHORT, ENC_STRING, ENC_STRUCT, ENC_UCHAR, ENC_UINT, ENC_ULONG, ENC_ULONG_LONG, ENC_UNION, ENC_UNKNOWN,
    ENC_USHORT, ENC_VOID, GT, LT, QUOTE, SPACE, T_NAMED_OBJECT, UNDERSCORE,
};

verus! {

/// The byte at `i`, if there is one.
pub open spec fn at(s: Seq<u8>, i: int) -> Option<u8> {
    if 0 <= i < s.len() {
        Some(s[i])
    } else {
        None
    }
}

/// The byte at `i`, or 0 past the end.
pub open spec fn byte_or_zero(s: Seq<u8>, i: int) -> u8 {
    if 0 <= i < s.len() {
        s[i]
    } else {
        0
    }
}

pub open spec fn is_digit(c: u8) -> bool {
    48 <= c <= 57
}

pub open spec fn is_upper(c: u8) -> bool {
    65 <= c <= 90
}

pub open spec fn is_alpha(c: u8) -> bool {
    is_upper(c) || (97 <= c <= 122)
}

pub open spec fn is_ident_start(c: u8) -> bool {
    is_alpha(c) || c == DOLLAR || c == UNDERSCORE || c == ENC_SEL || c == ENC_STRING
}

pub open spec fn is_ident_char(c: u8) -> bool {
    is_ident_start(c) || is_digit(c)
}

/// The one-byte scalar types.
pub open spec fn is_simple(c: u8) -> bool {
    c == ENC_CHAR || c == ENC_INT || c == ENC_SHORT || c == ENC_LONG || c == ENC_LONG_LONG || c == ENC_UCHAR
        || c == ENC_UINT || c == ENC_USHORT || c == ENC_ULONG || c == ENC_ULONG_LONG || c == ENC_FLOAT
        || c == ENC_DOUBLE || c == ENC_LONG_DOUBLE || c == ENC_BOOL || c == ENC_VOID || c == ENC_STRING
        || c == ENC_CLASS || c == ENC_SEL || c == ENC_ATOM || c == ENC_UNKNOWN
}

/// The bytes that can begin a type.
pub open spec fn is_type_start(c: u8) -> bool {
    is_modifier(c) || c == ENC_POINTER || c == ENC_BITFIELD || c == ENC_ID || c == ENC_STRUCT || c == ENC_UNION
        || c == ENC_ARRAY || is_simple(c)
}

pub open spec fn not_quote(c: u8) -> bool {
    c != QUOTE
}

pub open spec fn is_space(c: u8) -> bool {
    c == SPACE
}

/// Inside template arguments: anything but `<`, `>` and `,`.
pub open spec fn in_template_run(c: u8) -> bool {
    c != LT && c != GT && c != COMMA
}

pub open spec fn digit_p() -> spec_fn(u8) -> bool {
    |c: u8| is_digit(c)
}

pub open spec fn not_quote_p() -> spec_fn(u8) -> bool {
    |c: u8| not_quote(c)
}

pub open spec fn space_p() -> spec_fn(u8) -> bool {
    |c: u8| is_space(c)
}

pub open spec fn template_p() -> spec_fn(u8) -> bool {
    |c: u8| in_template_run(c)
}

pub open spec fn ident_p() -> spec_fn(u8) -> bool {
    |c: u8| is_ident_char(c)
}

/// The end of the run of bytes from `i` that satisfy `p`.
pub open spec fn run_end(s: Seq<u8>, i: int, p: spec_fn(u8) -> bool) -> int
    decreases s.len() - i,
{
    if 0 <= i < s.len() && p(s[i]) {
        run_end(s, i + 1, p)
    } else {
        i
    }
}

pub proof fn lemma_run_end(s: Seq<u8>, i: int, p: spec_fn(u8) -> bool)
    requires
        0 <= i <= s.len(),
    ensures
        i <= run_end(s, i, p) <= s.len(),
        forall|j: int| i <= j < run_end(s, i, p) ==> p(#[trigger] s[j]),
        run_end(s, i, p) < s.len() ==> !p(s[run_end(s, i, p)]),
    decreases s.len() - i,
{
    if i < s.len() && p(s[i]) {
        lemma_run_end(s, i + 1, p);
    }
}

/// A type with only `prim` set, and the pointed-to type `sub`.
pub open spec fn with_sub(prim: u8, sub: Option<TypeModel>) -> TypeModel {
    TypeModel {
        subtype: match sub {
            Some(t) => Some(Box::new(t)),
            None => None,
        },
        ..CDType::simple_model(prim)
    }
}

/// What an unreadable token becomes: the named object `MISSING_TYPE`.
pub open spec fn missing_model() -> TypeModel {
    TypeModel { typename: Some("MISSING_TYPE".spec_bytes()), ..CDType::simple_model(T_NAMED_OBJECT) }
}

/// A run of decimal digits.
pub open spec fn read_number(s: Seq<u8>, pos: int) -> (Seq<u8>, int) {
    let e = run_end(s, pos, digit_p());
    (s.subrange(pos, e), e)
}

/// A quoted string whose opening quote is at `pos`, and the position after
/// the closing quote (if there is one).
pub open spec fn read_quoted(s: Seq<u8>, pos: int) -> (Seq<u8>, int) {
    let e = run_end(s, pos + 1, not_quote_p());
    (s.subrange(pos + 1, e), if at(s, e) == Some(QUOTE) { e + 1 } else { e })
}

/// Inside a record, does the quoted string at `pos` name an object's class
/// (rather than the next member)?  Yes when it starts with a capital letter
/// or no type follows its closing quote.
pub open spec fn quoted_is_object_name(s: Seq<u8>, pos: int) -> bool {
    let first = byte_or_zero(s, pos + 1);
    let e = run_end(s, pos + 1, not_quote_p());
    let after = byte_or_zero(s, e + 1);
    is_upper(first) || !is_type_start(after)
}

/// The index of the last `c` in `s`.
pub open spec fn last_index_of(s: Seq<u8>, c: u8) -> Option<int>
    decreases s.len(),
{
    if s.len() == 0 {
        None
    } else if s.last() == c {
        Some(s.len() - 1)
    } else {
        last_index_of(s.drop_last(), c)
    }
}

/// The predicate "is the byte `c`".
pub open spec fn is_byte(c: u8) -> spec_fn(u8) -> bool {
    |x: u8| x == c
}

/// `last_index_of` finds a `c`.
pub proof fn lemma_last_index(s: Seq<u8>, c: u8)
    ensures
        last_index_of(s, c) matches Some(i) ==> 0 <= i < s.len() && s[i] == c,
    decreases s.len(),
{
    if s.len() > 0 && s.last() != c {
        lemma_last_index(s.drop_last(), c);
    }
}

/// `last_index_of` finds the last `c`, and finds none only where `s` has
/// no `c`.
pub proof fn lemma_last_index_is_last(s: Seq<u8>, c: u8)
    ensures
        last_index_of(s, c) matches Some(i) ==> 0 <= i < s.len() && s[i] == c && forall|j: int|
            i < j < s.len() ==> #[trigger] s[j] != c,
        last_index_of(s, c) is None ==> forall|j: int| 0 <= j < s.len() ==> #[trigger] s[j] != c,
    decreases s.len(),
{
    if s.len() > 0 && s.last() != c {
        lemma_last_index_is_last(s.drop_last(), c);
        assert forall|j: int| 0 <= j < s.len() - 1 implies s[j] == s.drop_last()[j] by {}
    }
}

/// `s` split at every `c` (one piece more than there are `c`s).
pub open spec fn split_on(s: Seq<u8>, c: u8) -> Seq<Seq<u8>>
    decreases s.len(),
{
    match first_index(s, is_byte(c)) {
        Some(i) => {
            proof {
                lemma_first_index(s, is_byte(c));
            }
            seq![s.subrange(0, i)] + split_on(s.subrange(i + 1, s.len() as int), c)
        },
        None => seq![s],
    }
}

/// The length of the whitespace character (as `char::is_whitespace` knows
/// them) that starts at `i`, or 0.
pub open spec fn space_len_at(s: Seq<u8>, i: int) -> int {
    let b0 = byte_or_zero(s, i);
    let b1 = byte_or_zero(s, i + 1);
    let b2 = byte_or_zero(s, i + 2);
    if i < 0 || i >= s.len() {
        0
    } else if (9 <= b0 <= 13) || b0 == 32 {
        1
    } else if b0 == 0xC2 && (b1 == 0x85 || b1 == 0xA0) && i + 2 <= s.len() {
        2
    } else if i + 3 > s.len() {
        0
    } else if b0 == 0xE1 && b1 == 0x9A && b2 == 0x80 {
        3
    } else if b0 == 0xE2 && b1 == 0x80 && ((0x80 <= b2 <= 0x8A) || b2 == 0xA8 || b2 == 0xA9 || b2 == 0xAF) {
        3
    } else if b0 == 0xE2 && b1 == 0x81 && b2 == 0x9F {
        3
    } else if b0 == 0xE3 && b1 == 0x80 && b2 == 0x80 {
        3
    } else {
        0
    }
}

/// The length of the whitespace character that ends just before `j`, or 0.
pub open spec fn space_len_before(s: Seq<u8>, j: int) -> int {
    if j >= 1 && space_len_at(s, j - 1) == 1 {
        1
    } else if j >= 2 && space_len_at(s, j - 2) == 2 {
        2
    } else if j >= 3 && space_len_at(s, j - 3) == 3 {
        3
    } else {
        0
    }
}

/// `s` without leading whitespace.
pub open spec fn trim_start(s: Seq<u8>) -> Seq<u8>
    decreases s.len(),
{
    let k = space_len_at(s, 0);
    if 0 < k <= s.len() {
        trim_start(s.subrange(k, s.len() as int))
    } else {
        s
    }
}

/// `s` without trailing whitespace.
pub open spec fn trim_end(s: Seq<u8>) -> Seq<u8>
    decreases s.len(),
{
    let k = space_len_before(s, s.len() as int);
    if 0 < k <= s.len() {
        trim_end(s.subrange(0, s.len() - k))
    } else {
        s
    }
}

/// `s` without leading or trailing whitespace, as `str::trim` gives it.
pub open spec fn trim(s: Seq<u8>) -> Seq<u8> {
    trim_end(trim_start(s))
}

/// The object type of a quoted class name: `Name<P1,P2>` gives the named
/// object `Name` adopting `P1` and `P2` (or `id` adopting them, when the
/// name is empty or `id`); anything else names the class as it stands.
pub open spec fn object_model(name: Seq<u8>) -> TypeModel {
    match first_index(name, is_byte(LT)) {
        Some(open) => match last_index_of(name, GT) {
            Some(close) => if close > open {
                let protocols = split_on(name.subrange(open + 1, close), COMMA);
                let base = trim(name.subrange(0, open));
                if base.len() != 0 && base != "id".spec_bytes() {
                    TypeModel { typename: Some(base), protocols, ..CDType::simple_model(T_NAMED_OBJECT) }
                } else {
                    TypeModel { protocols, ..CDType::simple_model(ENC_ID) }
                }
            } else {
                TypeModel { typename: Some(name), ..CDType::simple_model(T_NAMED_OBJECT) }
            },
            None => TypeModel { typename: Some(name), ..CDType::simple_model(T_NAMED_OBJECT) },
        },
        None => TypeModel { typename: Some(name), ..CDType::simple_model(T_NAMED_OBJECT) },
    }
}

/// An identifier (or `?`) at the top level of a record tag.
pub open spec fn scan_identifier(s: Seq<u8>, pos: int) -> (Option<Seq<u8>>, int) {
    if at(s, pos) == Some(ENC_UNKNOWN) {
        (Some(seq![ENC_UNKNOWN]), pos + 1)
    } else if at(s, pos) matches Some(c) && is_ident_start(c) {
        let e = run_end(s, pos, ident_p());
        (Some(s.subrange(pos, e)), e)
    } else {
        (None, pos)
    }
}

/// A run of template-argument text after any spaces.
pub open spec fn scan_template_run(s: Seq<u8>, pos: int) -> (Option<Seq<u8>>, int) {
    let p = run_end(s, pos, space_p());
    let e = run_end(s, p, template_p());
    if e == p {
        (None, e)
    } else {
        (Some(s.subrange(p, e)), e)
    }
}

/// The pieces of `parts` joined by `sep`.
pub open spec fn join(parts: Seq<Seq<u8>>, sep: Seq<u8>) -> Seq<u8>
    decreases parts.len(),
{
    if parts.len() == 0 {
        Seq::empty()
    } else if parts.len() == 1 {
        parts[0]
    } else {
        join(parts.drop_last(), sep) + sep + parts.last()
    }
}

pub open spec fn or_empty(o: Option<Seq<u8>>) -> Seq<u8> {
    match o {
        Some(x) => x,
        None => Seq::empty(),
    }
}

/// A record tag, possibly with template arguments (`Name<A, B>`); inside
/// template arguments a name is any run of text, and may go on after its
/// own arguments.
pub open spec fn p_type_name(s: Seq<u8>, pos: int, in_template: bool) -> (Option<Seq<u8>>, int)
    decreases s.len() - pos, 0nat,
{
    let (base, p1) = if in_template { scan_template_run(s, pos) } else { scan_identifier(s, pos) };
    match base {
        None => (None, p1),
        Some(b) => if at(s, p1) != Some(LT) || p1 < pos {
            (Some(b), p1)
        } else {
            let (first, p2) = p_type_name(s, p1 + 1, true);
            let (rest, p3) = if p1 < p2 <= s.len() { p_name_args(s, p2) } else { (Seq::empty(), p2) };
            let args = seq![or_empty(first)] + rest;
            let p4 = if at(s, p3) == Some(GT) { p3 + 1 } else { p3 };
            let (suffix, p5) = if in_template {
                let (x, q) = scan_template_run(s, p4);
                (or_empty(x), q)
            } else {
                (Seq::empty(), p4)
            };
            (Some(b + "<".spec_bytes() + join(args, ", ".spec_bytes()) + ">".spec_bytes() + suffix), p5)
        },
    }
}

/// Further template arguments, each after a `,`.
pub open spec fn p_name_args(s: Seq<u8>, pos: int) -> (Seq<Seq<u8>>, int)
    decreases s.len() - pos, 1nat,
{
    if at(s, pos) == Some(COMMA) {
        let (a, p1) = p_type_name(s, pos + 1, true);
        if pos < p1 <= s.len() {
            let (rest, p2) = p_name_args(s, p1);
            (seq![or_empty(a)] + rest, p2)
        } else {
            (seq![or_empty(a)], p1)
        }
    } else {
        (Seq::empty(), pos)
    }
}

/// A struct or union with tag `name` and `members`.
pub open spec fn record_model(prim: u8, name: Option<Seq<u8>>, members: Seq<TypeModel>) -> TypeModel {
    TypeModel { typename: name, members, ..CDType::simple_model(prim) }
}

/// Past the byte `c` if it comes at `p`.
pub open spec fn skip(s: Seq<u8>, p: int, c: u8) -> int {
    if at(s, p) == Some(c) {
        p + 1
    } else {
        p
    }
}

/// Does a union's tag (an identifier or `?`) start at `p`?
pub open spec fn starts_tag(s: Seq<u8>, p: int) -> bool {
    at(s, p) matches Some(d) && (is_ident_start(d) || d == ENC_UNKNOWN)
}

/// One type.  Inside a record (`in_struct`) a quoted string after `@` is
/// taken as the object's class only when `quoted_is_object_name` says so.
pub open spec fn p_type(s: Seq<u8>, pos: int, in_struct: bool) -> (TypeModel, int)
    decreases s.len() - pos, 0nat,
{
    match at(s, pos) {
        None => (missing_model(), pos),
        Some(c) => {
            let p1 = pos + 1;
            if is_modifier(c) {
                if at(s, p1) matches Some(d) && is_type_start(d) {
                    let (sub, p2) = p_type(s, p1, in_struct);
                    (with_sub(c, Some(sub)), p2)
                } else {
                    (with_sub(c, None), p1)
                }
            } else if c == ENC_POINTER {
                if at(s, p1) is None || at(s, p1) == Some(QUOTE) || at(s, p1) == Some(ENC_STRUCT_END) || at(s, p1)
                    == Some(ENC_UNION_END) {
                    (with_sub(ENC_POINTER, Some(CDType::simple_model(ENC_VOID))), p1)
                } else if at(s, p1) == Some(ENC_UNKNOWN) {
                    (CDType::simple_model(T_FUNCTION_POINTER), p1 + 1)
                } else {
                    let (sub, p2) = p_type(s, p1, in_struct);
                    (with_sub(ENC_POINTER, Some(sub)), p2)
                }
            } else if c == ENC_BITFIELD {
                let (n, p2) = read_number(s, p1);
                (TypeModel { bitfield_size: n, ..CDType::simple_model(ENC_BITFIELD) }, p2)
            } else if c == ENC_ID {
                if at(s, p1) == Some(QUOTE) && (!in_struct || quoted_is_object_name(s, p1)) {
                    let (name, p2) = read_quoted(s, p1);
                    (object_model(name), p2)
                } else if at(s, p1) == Some(ENC_UNKNOWN) {
                    let p2 = p1 + 1;
                    if at(s, p2) == Some(LT) {
                        let (tys, p3) = p_method_list(s, p2 + 1, GT);
                        (TypeModel { block_types: Some(tys), ..CDType::simple_model(T_BLOCK) }, skip(s, p3, GT))
                    } else {
                        (CDType::simple_model(T_BLOCK), p2)
                    }
                } else {
                    (CDType::simple_model(ENC_ID), p1)
                }
            } else if c == ENC_STRUCT || (c == ENC_UNION && starts_tag(s, p1)) {
                let close = if c == ENC_STRUCT { ENC_STRUCT_END } else { ENC_UNION_END };
                let (name, p2) = p_type_name(s, p1, false);
                let (ms, p3) = if p1 <= p2 <= s.len() { p_opt_members(s, p2, close) } else { (Seq::empty(), p2) };
                (record_model(c, name, ms), skip(s, p3, close))
            } else if c == ENC_UNION {
                let (ms, p2) = p_union_list(s, p1);
                (record_model(ENC_UNION, None, ms), skip(s, p2, ENC_UNION_END))
            } else if c == ENC_ARRAY {
                let (n, p2) = read_number(s, p1);
                proof {
                    lemma_run_end(s, p1, digit_p());
                }
                let (sub, p3) = p_type(s, p2, false);
                (
                    TypeModel { array_size: n, subtype: Some(Box::new(sub)), ..CDType::simple_model(ENC_ARRAY) },
                    skip(s, p3, ENC_ARRAY_END),
                )
            } else if c == ENC_STRING {
                (with_sub(ENC_POINTER, Some(CDType::simple_model(ENC_CHAR))), p1)
            } else if is_simple(c) {
                (CDType::simple_model(c), p1)
            } else {
                (missing_model(), p1)
            }
        },
    }
}

/// Record members after an optional `=`.
pub open spec fn p_opt_members(s: Seq<u8>, pos: int, close: u8) -> (Seq<TypeModel>, int)
    decreases s.len() - pos, 2nat,
{
    if at(s, pos) == Some(EQUALS) {
        p_members(s, pos + 1, close)
    } else {
        (Seq::empty(), pos)
    }
}

/// Record members, each perhaps preceded by its quoted variable name, up to
/// `close`.
pub open spec fn p_members(s: Seq<u8>, pos: int, close: u8) -> (Seq<TypeModel>, int)
    decreases s.len() - pos, 1nat,
{
    match at(s, pos) {
        None => (Seq::empty(), pos),
        Some(c) => if c == close {
            (Seq::empty(), pos)
        } else {
            let (vn, p1) = if c == QUOTE {
                let (q, e) = read_quoted(s, pos);
                (Some(q), e)
            } else {
                (None, pos)
            };
            proof {
                lemma_run_end(s, pos + 1, not_quote_p());
            }
            if c == QUOTE && at(s, p1) == Some(close) {
                (Seq::empty(), p1)
            } else {
                let (t, p2) = p_type(s, p1, true);
                let m = TypeModel { variable_name: vn, ..t };
                if pos < p2 <= s.len() {
                    let (rest, p3) = p_members(s, p2, close);
                    (seq![m] + rest, p3)
                } else {
                    (seq![m], p2)
                }
            }
        },
    }
}

/// The members of a union written without a tag, up to `)`.
pub open spec fn p_union_list(s: Seq<u8>, pos: int) -> (Seq<TypeModel>, int)
    decreases s.len() - pos, 1nat,
{
    match at(s, pos) {
        None => (Seq::empty(), pos),
        Some(c) => if c == ENC_UNION_END {
            (Seq::empty(), pos)
        } else {
            let (t, p1) = p_type(s, pos, true);
            if pos < p1 <= s.len() {
                let (rest, p2) = p_union_list(s, p1);
                (seq![t] + rest, p2)
            } else {
                (seq![t], p1)
            }
        },
    }
}

/// Types, each followed by an optional stack offset, up to `end`.
pub open spec fn p_method_list(s: Seq<u8>, pos: int, end: u8) -> (Seq<TypeModel>, int)
    decreases s.len() - pos, 1nat,
{
    match at(s, pos) {
        None => (Seq::empty(), pos),
        Some(c) => if c == end {
            (Seq::empty(), pos)
        } else {
            let (t, p1) = p_type(s, pos, false);
            let p2 = read_number(s, p1).1;
            if pos < p2 <= s.len() {
                let (rest, p3) = p_method_list(s, p2, end);
                (seq![t] + rest, p3)
            } else {
                (seq![t], p2)
            }
        },
    }
}

/// The kinds of byte runs the reader skips over.
pub enum Run {
    Digits,
    NotQuote,
    Spaces,
    Template,
    Identifier,
}

pub open spec fn run_pred(k: Run) -> spec_fn(u8) -> bool {
    match k {
        Run::Digits => digit_p(),
        Run::NotQuote => not_quote_p(),
        Run::Spaces => space_p(),
        Run::Template => template_p(),
        Run::Identifier => ident_p(),
    }
}

fn ident_start(c: u8) -> (r: bool)
    ensures
        r == is_ident_start(c),
{
    (65 <= c && c <= 90) || (97 <= c && c <= 122) || c == DOLLAR || c == UNDERSCORE || c == ENC_SEL || c
        == ENC_STRING
}

fn in_run(k: &Run, c: u8) -> (r: bool)
    ensures
        r == run_pred(*k)(c),
{
    match k {
        Run::Digits => 48 <= c && c <= 57,
        Run::NotQuote => c != QUOTE,
        Run::Spaces => c == SPACE,
        Run::Template => c != LT && c != GT && c != COMMA,
        Run::Identifier => ident_start(c) || (48 <= c && c <= 57),
    }
}

fn simple_type(c: u8) -> (r: bool)
    ensures
        r == is_simple(c),
{
    c == ENC_CHAR || c == ENC_INT || c == ENC_SHORT || c == ENC_LONG || c == ENC_LONG_LONG || c == ENC_UCHAR
        || c == ENC_UINT || c == ENC_USHORT || c == ENC_ULONG || c == ENC_ULONG_LONG || c == ENC_FLOAT
        || c == ENC_DOUBLE || c == ENC_LONG_DOUBLE || c == ENC_BOOL || c == ENC_VOID || c == ENC_STRING
        || c == ENC_CLASS || c == ENC_SEL || c == ENC_ATOM || c == ENC_UNKNOWN
}

fn type_start(c: u8) -> (r: bool)
    ensures
        r == is_type_start(c),
{
    crate::typ::modifier(c) || c == ENC_POINTER || c == ENC_BITFIELD || c == ENC_ID || c == ENC_STRUCT || c
        == ENC_UNION || c == ENC_ARRAY || simple_type(c)
}

/// Appends `parts` joined by `sep`.
pub fn write_joined(out: &mut Vec<u8>, parts: &Vec<Vec<u8>>, sep: &[u8])
    ensures
        final(out)@ == old(out)@ + join(crate::typ::names_of(parts@), sep@),
{
    let ghost ps = crate::typ::names_of(parts@);
    let ghost start = out@;
    let mut i: usize = 0;
    while i < parts.len()
        invariant
            i <= parts@.len(),
            ps == crate::typ::names_of(parts@),
            out@ == start + join(ps.subrange(0, i as int), sep@),
        decreases parts@.len() - i,
    {
        if i > 0 {
            append(out, sep);
        }
        append(out, parts[i].as_slice());
        proof {
            let q = ps.subrange(0, i + 1);
            assert(q.drop_last() =~= ps.subrange(0, i as int));
            assert(q.last() == parts@[i as int]@);
            if i == 0 {
                assert(join(q, sep@) == q[0]);
            }
        }
        i = i + 1;
    }
    assert(ps.subrange(0, parts@.len() as int) =~= ps);
}

pub struct Parser<'a> {
    bytes: &'a [u8],
    pos: usize,
}

impl<'a> Parser<'a> {
    /// The text being read.
    pub closed spec fn input(&self) -> Seq<u8> {
        self.bytes@
    }

    /// The reading position.
    pub closed spec fn position(&self) -> int {
        self.pos as int
    }

    /// The position lies within the text, whose length fits in a `usize`.
    pub open spec fn wf(&self) -> bool {
        self.position() <= self.input().len() <= usize::MAX
    }

    pub fn new(s: &'a [u8]) -> (p: Self)
        ensures
            p.input() == s@,
            p.position() == 0,
            p.wf(),
    {
        assert(s@.len() == s.len());
        Parser { bytes: s, pos: 0 }
    }

    fn peek(&self) -> (r: Option<u8>)
        ensures
            r == at(self.input(), self.position()),
    {
        if self.pos < self.bytes.len() {
            Some(self.bytes[self.pos])
        } else {
            None
        }
    }

    pub fn at_end(&self) -> (r: bool)
        ensures
            r == (self.position() >= self.input().len()),
    {
        self.pos >= self.bytes.len()
    }

    /// Moves past the run of bytes of kind `k`.
    fn scan(&mut self, k: Run)
        requires
            old(self).wf(),
        ensures
            final(self).wf(),
            final(self).input() == old(self).input(),
            final(self).position() == run_end(old(self).input(), old(self).position(), run_pred(k)),
    {
        let ghost s = self.input();
        let ghost start = self.position();
        while self.pos < self.bytes.len() && in_run(&k, self.bytes[self.pos])
            invariant
                self.input() == s,
                self.wf(),
                start <= self.position() <= s.len(),
                run_end(s, self.position(), run_pred(k)) == run_end(s, start, run_pred(k)),
            decreases s.len() - self.position(),
        {
            self.pos = self.pos + 1;
        }
    }

    /// A run of decimal digits (see `read_number`).
    fn read_number(&mut self) -> (r: Vec<u8>)
        requires
            old(self).wf(),
        ensures
            final(self).wf(),
            final(self).input() == old(self).input(),
            (r@, final(self).position()) == read_number(old(self).input(), old(self).position()),
            old(self).position() <= final(self).position() <= old(self).input().len(),
    {
        let start = self.pos;
        self.scan(Run::Digits);
        proof {
            lemma_run_end(self.input(), start as int, digit_p());
        }
        sub_vec(self.bytes, start, self.pos)
    }

    /// A quoted string starting at the current `"` (see `read_quoted`).
    fn read_quoted(&mut self) -> (r: Vec<u8>)
        requires
            old(self).wf(),
            old(self).position() < old(self).input().len(),
        ensures
            final(self).wf(),
            final(self).input() == old(self).input(),
            (r@, final(self).position()) == read_quoted(old(self).input(), old(self).position()),
            old(self).position() < final(self).position() <= old(self).input().len(),
    {
        self.pos = self.pos + 1;
        let start = self.pos;
        self.scan(Run::NotQuote);
        proof {
            lemma_run_end(self.input(), start as int, not_quote_p());
        }
        let r = sub_vec(self.bytes, start, self.pos);
        if self.peek() == Some(QUOTE) {
            self.pos = self.pos + 1;
        }
        r
    }

    /// See `quoted_is_object_name`.
    fn quoted_is_object_name(&self) -> (r: bool)
        requires
            self.wf(),
            self.position() < self.input().len(),
        ensures
            r == quoted_is_object_name(self.input(), self.position()),
    {
        let mut i = self.pos + 1;
        let first = if i < self.bytes.len() { self.bytes[i] } else { 0 };
        let ghost s = self.input();
        while i < self.bytes.len() && self.bytes[i] != QUOTE
            invariant
                s == self.input(),
                self.position() + 1 <= i <= s.len(),
                run_end(s, i as int, not_quote_p()) == run_end(s, self.position() + 1, not_quote_p()),
            decreases s.len() - i,
        {
            i = i + 1;
        }
        let after = if i < self.bytes.len() && i + 1 < self.bytes.len() { self.bytes[i + 1] } else { 0 };
        (65 <= first && first <= 90) || !type_start(after)
    }

    /// See `scan_identifier`.
    fn scan_identifier(&mut self) -> (r: Option<Vec<u8>>)
        requires
            old(self).wf(),
        ensures
            final(self).wf(),
            final(self).input() == old(self).input(),
            (crate::typ::opt_bytes(r), final(self).position()) == scan_identifier(
                old(self).input(),
                old(self).position(),
            ),
            old(self).position() <= final(self).position() <= old(self).input().len(),
    {
        if self.peek() == Some(ENC_UNKNOWN) {
            self.pos = self.pos + 1;
            let mut v: Vec<u8> = Vec::new();
            v.push(ENC_UNKNOWN);
            assert(v@ =~= seq![ENC_UNKNOWN]);
            return Some(v);
        }
        match self.peek() {
            Some(c) => {
                if !ident_start(c) {
                    return None;
                }
            },
            None => {
                return None;
            },
        }
        let start = self.pos;
        self.scan(Run::Identifier);
        proof {
            lemma_run_end(self.input(), start as int, ident_p());
        }
        Some(sub_vec(self.bytes, start, self.pos))
    }

    /// See `scan_template_run`.
    fn scan_template_run(&mut self) -> (r: Option<Vec<u8>>)
        requires
            old(self).wf(),
        ensures
            final(self).wf(),
            final(self).input() == old(self).input(),
            (crate::typ::opt_bytes(r), final(self).position()) == scan_template_run(
                old(self).input(),
                old(self).position(),
            ),
            old(self).position() <= final(self).position() <= old(self).input().len(),
    {
        proof {
            lemma_run_end(self.input(), self.position(), space_p());
        }
        self.scan(Run::Spaces);
        let start = self.pos;
        proof {
            lemma_run_end(self.input(), start as int, template_p());
        }
        self.scan(Run::Template);
        if self.pos == start {
            None
        } else {
            Some(sub_vec(self.bytes, start, self.pos))
        }
    }

    /// A record tag (see `p_type_name`).
    fn parse_type_name(&mut self, in_template: bool) -> (r: Option<Vec<u8>>)
        requires
            old(self).wf(),
        ensures
            final(self).wf(),
            final(self).input() == old(self).input(),
            (crate::typ::opt_bytes(r), final(self).position()) == p_type_name(
                old(self).input(),
                old(self).position(),
                in_template,
            ),
            old(self).position() <= final(self).position() <= old(self).input().len(),
        decreases old(self).input().len() - old(self).position(), 0nat,
    {
        let ghost s = self.input();
        let ghost pos = self.position();
        let base = if in_template { self.scan_template_run() } else { self.scan_identifier() };
        let base = match base {
            Some(b) => b,
            None => {
                return None;
            },
        };
        if self.peek() != Some(LT) {
            return Some(base);
        }
        let ghost p1 = self.position();
        self.pos = self.pos + 1;
        let mut args: Vec<Vec<u8>> = Vec::new();
        let first = match self.parse_type_name(true) {
            Some(a) => a,
            None => Vec::new(),
        };
        args.push(first);
        let ghost p2 = self.position();
        let ghost rest_spec = p_name_args(s, p2);
        proof {
            assert(crate::typ::names_of(args@) =~= seq![or_empty(p_type_name(s, p1 + 1, true).0)]);
        }
        while self.peek() == Some(COMMA)
            invariant
                self.input() == s,
                s == old(self).input(),
                pos == old(self).position(),
                self.wf(),
                p1 < p2 <= self.position() <= s.len(),
                pos <= p1,
                crate::typ::names_of(args@) + p_name_args(s, self.position()).0 == seq![or_empty(
                    p_type_name(s, p1 + 1, true).0,
                )] + rest_spec.0,
                p_name_args(s, self.position()).1 == rest_spec.1,
            decreases s.len() - self.position(),
        {
            let ghost q = self.position();
            self.pos = self.pos + 1;
            let a = match self.parse_type_name(true) {
                Some(a) => a,
                None => Vec::new(),
            };
            let ghost before = args@;
            args.push(a);
            proof {
                assert(crate::typ::names_of(args@) =~= crate::typ::names_of(before).push(
                    or_empty(p_type_name(s, q + 1, true).0),
                ));
                assert(crate::typ::names_of(args@) + p_name_args(s, self.position()).0 =~= crate::typ::names_of(
                    before,
                ) + p_name_args(s, q).0);
            }
        }
        proof {
            assert(crate::typ::names_of(args@) =~= seq![or_empty(p_type_name(s, p1 + 1, true).0)] + rest_spec.0);
        }
        if self.peek() == Some(GT) {
            self.pos = self.pos + 1;
        }
        let suffix = if in_template {
            match self.scan_template_run() {
                Some(x) => x,
                None => Vec::new(),
            }
        } else {
            Vec::new()
        };
        let mut out = base;
        append_str(&mut out, "<");
        write_joined(&mut out, &args, ", ".as_bytes());
        append_str(&mut out, ">");
        append(&mut out, suffix.as_slice());
        Some(out)
    }
}

fn space_len_at_exec(s: &[u8], i: usize) -> (r: usize)
    ensures
        r == space_len_at(s@, i as int),
{
    let n = s.len();
    if i >= n {
        return 0;
    }
    let b0 = s[i];
    let b1 = if n - i > 1 { s[i + 1] } else { 0 };
    let b2 = if n - i > 2 { s[i + 2] } else { 0 };
    if (9 <= b0 && b0 <= 13) || b0 == 32 {
        1
    } else if b0 == 0xC2 && (b1 == 0x85 || b1 == 0xA0) && n - i >= 2 {
        2
    } else if n - i < 3 {
        0
    } else if b0 == 0xE1 && b1 == 0x9A && b2 == 0x80 {
        3
    } else if b0 == 0xE2 && b1 == 0x80 && ((0x80 <= b2 && b2 <= 0x8A) || b2 == 0xA8 || b2 == 0xA9 || b2 == 0xAF) {
        3
    } else if b0 == 0xE2 && b1 == 0x81 && b2 == 0x9F {
        3
    } else if b0 == 0xE3 && b1 == 0x80 && b2 == 0x80 {
        3
    } else {
        0
    }
}

fn space_len_before_exec(s: &[u8], j: usize) -> (r: usize)
    requires
        j <= s@.len(),
    ensures
        r == space_len_before(s@, j as int),
{
    if j >= 1 && space_len_at_exec(s, j - 1) == 1 {
        1
    } else if j >= 2 && space_len_at_exec(s, j - 2) == 2 {
        2
    } else if j >= 3 && space_len_at_exec(s, j - 3) == 3 {
        3
    } else {
        0
    }
}

/// `s` without leading or trailing whitespace (see `trim`).
pub fn trim_bytes(s: &[u8]) -> (r: Vec<u8>)
    ensures
        r@ == trim(s@),
{
    let mut i: usize = 0;
    let n = s.len();
    assert(s@.subrange(0, s@.len() as int) =~= s@);
    loop
        invariant
            n == s@.len(),
            i <= s@.len(),
            trim_start(s@.subrange(i as int, s@.len() as int)) == trim_start(s@),
        ensures
            i <= s@.len(),
            trim_start(s@) == s@.subrange(i as int, s@.len() as int),
        decreases s@.len() - i,
    {
        let k = space_len_at_exec(s, i);
        let ghost t = s@.subrange(i as int, s@.len() as int);
        proof {
            assert(space_len_at(t, 0) == space_len_at(s@, i as int));
        }
        if k == 0 {
            break;
        }
        proof {
            assert(t.subrange(k as int, t.len() as int) =~= s@.subrange(i + k, s@.len() as int));
        }
        i = i + k;
    }
    let t = crate::text::sub_vec(s, i, s.len());
    let ghost t0 = t@;
    let mut j: usize = t.len();
    assert(t0.subrange(0, t0.len() as int) =~= t0);
    loop
        invariant
            j <= t0.len(),
            t@ == t0,
            trim_end(t0.subrange(0, j as int)) == trim_end(t0),
        ensures
            j <= t0.len(),
            trim_end(t0) == t0.subrange(0, j as int),
        decreases j,
    {
        let k = space_len_before_exec(t.as_slice(), j);
        let ghost u = t0.subrange(0, j as int);
        proof {
            assert forall|x: int| 0 <= x < j implies u[x] == t0[x] by {}
            assert((space_len_at(u, j - 1) == 1) == (space_len_at(t0, j - 1) == 1));
            assert((space_len_at(u, j - 2) == 2) == (space_len_at(t0, j - 2) == 2));
            assert((space_len_at(u, j - 3) == 3) == (space_len_at(t0, j - 3) == 3));
            assert(space_len_before(u, u.len() as int) == space_len_before(t0, j as int));
        }
        if k == 0 {
            break;
        }
        proof {
            assert(u.subrange(0, u.len() - k) =~= t0.subrange(0, j - k));
        }
        j = j - k;
    }
    crate::text::sub_vec(t.as_slice(), 0, j)
}

/// The index of the first `c` in `s`.
pub fn find_byte(s: &[u8], c: u8) -> (r: Option<usize>)
    ensures
        match r {
            Some(i) => first_index(s@, is_byte(c)) == Some(i as int),
            None => first_index(s@, is_byte(c)) is None,
        },
{
    let mut i: usize = 0;
    while i < s.len()
        invariant
            i <= s@.len(),
            forall|j: int| 0 <= j < i ==> !is_byte(c)(#[trigger] s@[j]),
        decreases s@.len() - i,
    {
        if s[i] == c {
            proof {
                lemma_first_index_at(s@, is_byte(c), i as int);
            }
            return Some(i);
        }
        i = i + 1;
    }
    proof {
        lemma_first_index_at(s@, is_byte(c), i as int);
    }
    None
}

/// The index of the last `c` in `s`.
pub fn rfind_byte(s: &[u8], c: u8) -> (r: Option<usize>)
    ensures
        match r {
            Some(i) => last_index_of(s@, c) == Some(i as int),
            None => last_index_of(s@, c) is None,
        },
{
    let mut j: usize = s.len();
    assert(s@.subrange(0, s@.len() as int) =~= s@);
    while j > 0
        invariant
            j <= s@.len(),
            last_index_of(s@.subrange(0, j as int), c) == last_index_of(s@, c),
        decreases j,
    {
        let ghost u = s@.subrange(0, j as int);
        if s[j - 1] == c {
            assert(u.last() == c);
            return Some(j - 1);
        }
        assert(u.drop_last() =~= s@.subrange(0, j - 1));
        j = j - 1;
    }
    proof {
        assert(s@.subrange(0, s@.len() as int) =~= s@);
    }
    None
}

/// `s` split at every `c` (see `split_on`).
pub fn split_bytes(s: &[u8], c: u8) -> (r: Vec<Vec<u8>>)
    ensures
        crate::typ::names_of(r@) == split_on(s@, c),
{
    let mut pieces: Vec<Vec<u8>> = Vec::new();
    let mut start: usize = 0;
    let mut i: usize = 0;
    assert(s@.subrange(0, s@.len() as int) =~= s@);
    assert(crate::typ::names_of(pieces@) =~= Seq::<Seq<u8>>::empty());
    while i < s.len()
        invariant
            start <= i <= s@.len(),
            crate::typ::names_of(pieces@) + split_on(s@.subrange(start as int, s@.len() as int), c)
                == split_on(s@, c),
            forall|j: int| start <= j < i ==> s@[j] != c,
        decreases s@.len() - i,
    {
        if s[i] == c {
            let ghost t = s@.subrange(start as int, s@.len() as int);
            proof {
                assert forall|j: int| 0 <= j < i - start implies !is_byte(c)(#[trigger] t[j]) by {
                    assert(t[j] == s@[start + j]);
                }
                lemma_first_index_at(t, is_byte(c), i - start);
                assert(t.subrange(0, i - start) =~= s@.subrange(start as int, i as int));
                assert(t.subrange(i - start + 1, t.len() as int) =~= s@.subrange(i + 1, s@.len() as int));
            }
            let ghost before = pieces@;
            pieces.push(crate::text::sub_vec(s, start, i));
            proof {
                assert(crate::typ::names_of(pieces@) =~= crate::typ::names_of(before).push(
                    s@.subrange(start as int, i as int),
                ));
            }
            start = i + 1;
        }
        i = i + 1;
    }
    let ghost t = s@.subrange(start as int, s@.len() as int);
    proof {
        assert forall|j: int| 0 <= j < t.len() implies !is_byte(c)(#[trigger] t[j]) by {
            assert(t[j] == s@[start + j]);
        }
        lemma_first_index_at(t, is_byte(c), t.len() as int);
    }
    let ghost before = pieces@;
    pieces.push(crate::text::sub_vec(s, start, s.len()));
    proof {
        assert(crate::typ::names_of(pieces@) =~= crate::typ::names_of(before).push(t));
        assert(crate::typ::names_of(pieces@) =~= crate::typ::names_of(before) + seq![t]);
    }
    pieces
}

/// The object type of a quoted class name (see `object_model`).
pub fn object_type(name: Vec<u8>) -> (r: CDType)
    ensures
        r@ == object_model(name@),
{
    match find_byte(name.as_slice(), LT) {
        Some(open) => match rfind_byte(name.as_slice(), GT) {
            Some(close) => {
                if close > open {
                    proof {
                        lemma_first_index(name@, is_byte(LT));
                        lemma_last_index(name@, GT);
                    }
                    let protocols = split_bytes(crate::text::sub_vec(name.as_slice(), open + 1, close).as_slice(), COMMA);
                    let base = trim_bytes(crate::text::sub_vec(name.as_slice(), 0, open).as_slice());
                    let mut r = CDType::simple(T_NAMED_OBJECT);
                    r.protocols = protocols;
                    if base.len() != 0 && !crate::text::bytes_eq(base.as_slice(), "id".as_bytes()) {
                        r.typename = Some(base);
                    } else {
                        r.prim = ENC_ID;
                    }
                    return r;
                }
            },
            None => {},
        },
        None => {},
    }
    let mut r = CDType::simple(T_NAMED_OBJECT);
    r.typename = Some(name);
    r
}

/// The named object `MISSING_TYPE`.
fn missing_type() -> (r: CDType)
    ensures
        r@ == missing_model(),
{
    let mut name: Vec<u8> = Vec::new();
    append_str(&mut name, "MISSING_TYPE");
    let mut r = CDType::simple(T_NAMED_OBJECT);
    r.typename = Some(name);
    r
}

impl<'a> Parser<'a> {
    /// One type (see `p_type`).
    pub fn parse_type(&mut self) -> (r: CDType)
        requires
            old(self).wf(),
        ensures
            final(self).wf(),
            final(self).input() == old(self).input(),
            (r@, final(self).position()) == p_type(old(self).input(), old(self).position(), false),
            old(self).position() <= final(self).position(),
            old(self).position() < old(self).input().len() ==> old(self).position() < final(self).position(),
        decreases old(self).input().len() - old(self).position(), 1nat,
    {
        self.parse_type_in_struct(false)
    }

    /// One type (see `p_type`).
    pub fn parse_type_in_struct(&mut self, in_struct: bool) -> (r: CDType)
        requires
            old(self).wf(),
        ensures
            final(self).wf(),
            final(self).input() == old(self).input(),
            (r@, final(self).position()) == p_type(old(self).input(), old(self).position(), in_struct),
            old(self).position() <= final(self).position(),
            old(self).position() < old(self).input().len() ==> old(self).position() < final(self).position(),
        decreases old(self).input().len() - old(self).position(), 0nat,
    {
        let ghost s = self.input();
        let ghost pos = self.position();
        let c = match self.peek() {
            Some(c) => c,
            None => {
                return missing_type();
            },
        };
        self.pos = self.pos + 1;
        let ghost p1 = self.position();
        if crate::typ::modifier(c) {
            let sub = match self.peek() {
                Some(d) => if type_start(d) {
                    Some(Box::new(self.parse_type_in_struct(in_struct)))
                } else {
                    None
                },
                None => None,
            };
            let mut r = CDType::simple(c);
            r.subtype = sub;
            return r;
        }
        if c == ENC_POINTER {
            let next = self.peek();
            if next.is_none() || next == Some(QUOTE) || next == Some(ENC_STRUCT_END) || next == Some(ENC_UNION_END) {
                let mut r = CDType::simple(ENC_POINTER);
                r.subtype = Some(Box::new(CDType::simple(ENC_VOID)));
                return r;
            }
            if next == Some(ENC_UNKNOWN) {
                self.pos = self.pos + 1;
                return CDType::simple(T_FUNCTION_POINTER);
            }
            let sub = self.parse_type_in_struct(in_struct);
            let mut r = CDType::simple(ENC_POINTER);
            r.subtype = Some(Box::new(sub));
            return r;
        }
        if c == ENC_BITFIELD {
            let n = self.read_number();
            let mut r = CDType::simple(ENC_BITFIELD);
            r.bitfield_size = n;
            return r;
        }
        if c == ENC_ID {
            if self.peek() == Some(QUOTE) && (!in_struct || self.quoted_is_object_name()) {
                let name = self.read_quoted();
                return object_type(name);
            }
            if self.peek() == Some(ENC_UNKNOWN) {
                self.pos = self.pos + 1;
                let mut r = CDType::simple(T_BLOCK);
                if self.peek() == Some(LT) {
                    self.pos = self.pos + 1;
                    let tys = self.parse_method_type_list(GT);
                    if self.peek() == Some(GT) {
                        self.pos = self.pos + 1;
                    }
                    r.block_types = Some(tys);
                }
                return r;
            }
            return CDType::simple(ENC_ID);
        }
        let tag_follows = match self.peek() {
            Some(d) => ident_start(d) || d == ENC_UNKNOWN,
            None => false,
        };
        if c == ENC_STRUCT || (c == ENC_UNION && tag_follows) {
            let close = if c == ENC_STRUCT { ENC_STRUCT_END } else { ENC_UNION_END };
            let name = self.parse_type_name(false);
            let members = self.parse_optional_members(close);
            if self.peek() == Some(close) {
                self.pos = self.pos + 1;
            }
            let mut r = CDType::simple(c);
            r.typename = name;
            r.members = members;
            return r;
        }
        if c == ENC_UNION {
            let mut members: Vec<CDType> = Vec::new();
            let ghost whole = p_union_list(s, p1);
            loop
                invariant
                    self.wf(),
                    self.input() == s,
                    s == old(self).input(),
                    pos == old(self).position(),
                    pos < p1 <= self.position(),
                    tys_view_plus(members@, p_union_list(s, self.position()).0) == whole.0,
                    p_union_list(s, self.position()).1 == whole.1,
                ensures
                    p_union_list(s, self.position()) == (Seq::<TypeModel>::empty(), self.position()),
                decreases s.len() - self.position(),
            {
                match self.peek() {
                    None => break,
                    Some(d) => if d == ENC_UNION_END {
                        break;
                    },
                }
                let ghost q = self.position();
                let t = self.parse_type_in_struct(true);
                let ghost before = members@;
                proof {
                    crate::typ::lemma_tys_view_push(before, t);
                    assert(tys_view_plus(before.push(t), p_union_list(s, self.position()).0) =~= tys_view_plus(
                        before,
                        p_union_list(s, q).0,
                    ));
                }
                members.push(t);
            }
            proof {
                assert(tys_view_plus(members@, Seq::empty()) =~= crate::typ::tys_view(members@));
            }
            if self.peek() == Some(ENC_UNION_END) {
                self.pos = self.pos + 1;
            }
            let mut r = CDType::simple(ENC_UNION);
            r.members = members;
            return r;
        }
        if c == ENC_ARRAY {
            let n = self.read_number();
            let sub = self.parse_type();
            if self.peek() == Some(ENC_ARRAY_END) {
                self.pos = self.pos + 1;
            }
            let mut r = CDType::simple(ENC_ARRAY);
            r.array_size = n;
            r.subtype = Some(Box::new(sub));
            return r;
        }
        if c == ENC_STRING {
            let mut r = CDType::simple(ENC_POINTER);
            r.subtype = Some(Box::new(CDType::simple(ENC_CHAR)));
            return r;
        }
        if simple_type(c) {
            return CDType::simple(c);
        }
        missing_type()
    }

    /// Record members after an optional `=` (see `p_opt_members`).
    fn parse_optional_members(&mut self, close: u8) -> (r: Vec<CDType>)
        requires
            old(self).wf(),
        ensures
            final(self).wf(),
            final(self).input() == old(self).input(),
            (crate::typ::tys_view(r@), final(self).position()) == p_opt_members(
                old(self).input(),
                old(self).position(),
                close,
            ),
            old(self).position() <= final(self).position(),
        decreases old(self).input().len() - old(self).position(), 2nat,
    {
        let ghost s = self.input();
        let ghost pos = self.position();
        let mut members: Vec<CDType> = Vec::new();
        if self.peek() != Some(EQUALS) {
            return members;
        }
        self.pos = self.pos + 1;
        let ghost whole = p_members(s, pos + 1, close);
        loop
            invariant
                self.wf(),
                self.input() == s,
                s == old(self).input(),
                pos == old(self).position(),
                pos < self.position(),
                tys_view_plus(members@, p_members(s, self.position(), close).0) == whole.0,
                p_members(s, self.position(), close).1 == whole.1,
            ensures
                p_members(s, self.position(), close) == (Seq::<TypeModel>::empty(), self.position()),
            decreases s.len() - self.position(),
        {
            let c = match self.peek() {
                None => break,
                Some(c) => c,
            };
            if c == close {
                break;
            }
            let ghost q = self.position();
            let mut var_name: Option<Vec<u8>> = None;
            if c == QUOTE {
                var_name = Some(self.read_quoted());
                if self.peek() == Some(close) {
                    break;
                }
            }
            let mut ty = self.parse_type_in_struct(true);
            ty.variable_name = var_name;
            let ghost before = members@;
            proof {
                crate::typ::lemma_tys_view_push(before, ty);
                assert(tys_view_plus(before.push(ty), p_members(s, self.position(), close).0) =~= tys_view_plus(
                    before,
                    p_members(s, q, close).0,
                ));
            }
            members.push(ty);
        }
        proof {
            assert(tys_view_plus(members@, Seq::empty()) =~= crate::typ::tys_view(members@));
        }
        members
    }

    /// Types each followed by an optional number, up to `end` (see
    /// `p_method_list`).
    fn parse_method_type_list(&mut self, end: u8) -> (r: Vec<CDType>)
        requires
            old(self).wf(),
        ensures
            final(self).wf(),
            final(self).input() == old(self).input(),
            (crate::typ::tys_view(r@), final(self).position()) == p_method_list(
                old(self).input(),
                old(self).position(),
                end,
            ),
            old(self).position() <= final(self).position(),
        decreases old(self).input().len() - old(self).position(), 2nat,
    {
        let ghost s = self.input();
        let ghost pos = self.position();
        let ghost whole = p_method_list(s, pos, end);
        let mut out: Vec<CDType> = Vec::new();
        loop
            invariant
                self.wf(),
                self.input() == s,
                s == old(self).input(),
                pos == old(self).position(),
                pos <= self.position(),
                tys_view_plus(out@, p_method_list(s, self.position(), end).0) == whole.0,
                p_method_list(s, self.position(), end).1 == whole.1,
            ensures
                p_method_list(s, self.position(), end) == (Seq::<TypeModel>::empty(), self.position()),
            decreases s.len() - self.position(),
        {
            match self.peek() {
                None => break,
                Some(c) => if c == end {
                    break;
                },
            }
            let ghost q = self.position();
            let ty = self.parse_type();
            let _ = self.read_number();
            let ghost before = out@;
            proof {
                crate::typ::lemma_tys_view_push(before, ty);
                assert(tys_view_plus(before.push(ty), p_method_list(s, self.position(), end).0) =~= tys_view_plus(
                    before,
                    p_method_list(s, q, end).0,
                ));
            }
            out.push(ty);
        }
        proof {
            assert(tys_view_plus(out@, Seq::empty()) =~= crate::typ::tys_view(out@));
        }
        out
    }
}

/// The views of `done`, then `rest`.
pub open spec fn tys_view_plus(done: Seq<CDType>, rest: Seq<TypeModel>) -> Seq<TypeModel> {
    crate::typ::tys_view(done) + rest
}

/// Every type of a method's type encoding, in order (return type, `self`,
/// `_cmd`, then the arguments), skipping the stack offsets.
pub open spec fn method_types(s: Seq<u8>, pos: int) -> Seq<TypeModel>
    decreases s.len() - pos,
{
    if pos < 0 || pos >= s.len() {
        Seq::empty()
    } else if is_digit(s[pos]) {
        let e = read_number(s, pos).1;
        if pos < e <= s.len() {
            method_types(s, e)
        } else {
            Seq::empty()
        }
    } else {
        let (t, p1) = p_type(s, pos, false);
        let p2 = read_number(s, p1).1;
        if pos < p2 <= s.len() {
            seq![t] + method_types(s, p2)
        } else {
            seq![t]
        }
    }
}

/// The types of a method type encoding (see `method_types`).
pub fn parse_method_types(s: &[u8]) -> (r: Vec<CDType>)
    ensures
        crate::typ::tys_view(r@) == method_types(s@, 0),
{
    let mut p = Parser::new(s);
    let mut out: Vec<CDType> = Vec::new();
    let ghost whole = method_types(s@, 0);
    while !p.at_end()
        invariant
            p.wf(),
            p.input() == s@,
            tys_view_plus(out@, method_types(s@, p.position())) == whole,
        decreases s@.len() - p.position(),
    {
        let ghost q = p.position();
        match p.peek() {
            Some(c) => {
                if 48 <= c && c <= 57 {
                    let _ = p.read_number();
                    proof {
                        lemma_run_end(s@, q, digit_p());
                    }
                    continue;
                }
            },
            None => {},
        }
        let ty = p.parse_type();
        let _ = p.read_number();
        let ghost before = out@;
        proof {
            crate::typ::lemma_tys_view_push(before, ty);
            assert(tys_view_plus(before.push(ty), method_types(s@, p.position())) =~= tys_view_plus(
                before,
                method_types(s@, q),
            ));
        }
        out.push(ty);
    }
    proof {
        assert(tys_view_plus(out@, Seq::empty()) =~= crate::typ::tys_view(out@));
    }
    out
}

} // verus!
