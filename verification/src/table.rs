//! The structure table of one kind of record (structs or unions): the
//! records met in each registration phase, merged, counted and named.

use vstd::prelude::*;
use vstd::string::StringSliceAdditionalSpecFns;
use crate::checksum::{hex_bytes, sha1_hex, sha1_of};
use crate::dict::{
    fresh, infos_view, keys_of, lookup, upsert, values_of, Dict, DictModel, Entry, Info, InfoModel,
};
use crate::text::{append, append_str, bytes_eq, first_index, lemma_first_index, lemma_first_index_at, starts_with, sub_vec, to_vec};
use crate::typ::{can_merge, clamp, depth, merged, names_of, opt_bytes, tag_of, type_str, with_names, CDType, TypeModel, LT};
use crate::parse::{is_byte, is_upper};
use crate::order::{
    after_in, bytes_less, bytes_lt, insert_in_order, insertion_sorted, lemma_bytes_lt_irreflexive, lemma_bytes_lt_transitive,
    strict_order,
};

verus! {

broadcast use vstd::seq_lib::group_to_multiset_ensures;

/// The canonical encoding of `t`, with member names: the key of records
/// that must match exactly.
pub open spec fn full_string(t: TypeModel) -> Seq<u8> {
    type_str(t, 1_000_000, true)
}

/// The encoding of `t` without member or class names: the key of
/// anonymous records.
pub open spec fn bare_string(t: TypeModel) -> Seq<u8> {
    type_str(t, 0, false)
}

/// The tag that marks an anonymous record.
pub open spec fn anon_tag() -> Seq<u8> {
    "?".spec_bytes()
}

/// `a + b`, or `usize::MAX` when that does not fit.
pub open spec fn sat_add(a: nat, b: nat) -> nat {
    if a + b > usize::MAX {
        usize::MAX as nat
    } else {
        a + b
    }
}

pub fn sat_add_exec(a: usize, b: usize) -> (r: usize)
    ensures
        r == sat_add(a as nat, b as nat),
{
    if a > usize::MAX - b {
        usize::MAX
    } else {
        a + b
    }
}

pub struct Table {
    pub anonymous_base_name: Vec<u8>,
    pub phase0: Dict,
    pub phase1: Dict,
    pub phase1_max_depth: usize,
    pub phase2_named: Dict,
    pub phase2_anon: Dict,
    pub phase2_name_exceptions: Vec<Info>,
    pub phase2_anon_exceptions: Vec<Info>,
    pub phase3_named: Dict,
    pub phase3_anon: Dict,
    pub phase3_name_exceptions: Dict,
    pub phase3_anon_exceptions: Dict,
    pub phase3_exceptional_names: Vec<Vec<u8>>,
}

pub struct TableModel {
    pub base: Seq<u8>,
    pub phase0: DictModel,
    pub phase1: DictModel,
    pub max_depth: nat,
    pub phase2_named: DictModel,
    pub phase2_anon: DictModel,
    pub phase2_name_exceptions: Seq<InfoModel>,
    pub phase2_anon_exceptions: Seq<InfoModel>,
    pub phase3_named: DictModel,
    pub phase3_anon: DictModel,
    pub phase3_name_exceptions: DictModel,
    pub phase3_anon_exceptions: DictModel,
    pub exceptional_names: Seq<Seq<u8>>,
}

impl View for Table {
    type V = TableModel;

    open spec fn view(&self) -> TableModel {
        TableModel {
            base: self.anonymous_base_name@,
            phase0: self.phase0@,
            phase1: self.phase1@,
            max_depth: self.phase1_max_depth as nat,
            phase2_named: self.phase2_named@,
            phase2_anon: self.phase2_anon@,
            phase2_name_exceptions: infos_view(self.phase2_name_exceptions@),
            phase2_anon_exceptions: infos_view(self.phase2_anon_exceptions@),
            phase3_named: self.phase3_named@,
            phase3_anon: self.phase3_anon@,
            phase3_name_exceptions: self.phase3_name_exceptions@,
            phase3_anon_exceptions: self.phase3_anon_exceptions@,
            exceptional_names: names_of(self.phase3_exceptional_names@),
        }
    }
}

/// An empty table whose anonymous records are named from `base`.
pub open spec fn empty_table(base: Seq<u8>) -> TableModel {
    TableModel {
        base,
        phase0: Seq::empty(),
        phase1: Seq::empty(),
        max_depth: 0,
        phase2_named: Seq::empty(),
        phase2_anon: Seq::empty(),
        phase2_name_exceptions: Seq::empty(),
        phase2_anon_exceptions: Seq::empty(),
        phase3_named: Seq::empty(),
        phase3_anon: Seq::empty(),
        phase3_name_exceptions: Seq::empty(),
        phase3_anon_exceptions: Seq::empty(),
        exceptional_names: Seq::empty(),
    }
}

/// Phase 0: count one more reference to `ty` (by its full encoding).
pub open spec fn p0_register(t: TableModel, ty: TypeModel, used: bool) -> TableModel {
    let key = full_string(ty);
    let e = match lookup(t.phase0, key) {
        Some(i) => i,
        None => fresh(ty),
    };
    let e2 = InfoModel {
        reference_count: sat_add(e.reference_count, 1),
        is_used_in_method: e.is_used_in_method || used,
        ..e
    };
    TableModel { phase0: upsert(t.phase0, key, e2), ..t }
}

/// Phase 1: note `ty` (by its full encoding) if it is new.
pub open spec fn p1_register(t: TableModel, ty: TypeModel) -> TableModel {
    let key = full_string(ty);
    if lookup(t.phase1, key) is Some {
        t
    } else {
        TableModel { phase1: upsert(t.phase1, key, fresh(ty)), ..t }
    }
}

/// The largest record depth among `infos`, at least `m`.
pub open spec fn max_depth_of(infos: Seq<InfoModel>, m: nat) -> nat
    decreases infos.len(),
{
    if infos.len() == 0 {
        m
    } else {
        let prev = max_depth_of(infos.drop_last(), m);
        let d = clamp(depth(infos.last().ty));
        if prev < d {
            d
        } else {
            prev
        }
    }
}

/// The record that replaces `ty` in phase 2 (by tag, or by bare encoding
/// when anonymous).
pub open spec fn p2_replacement(t: TableModel, ty: TypeModel) -> Option<TypeModel> {
    let found = if tag_of(ty) == anon_tag() {
        lookup(t.phase2_anon, bare_string(ty))
    } else {
        lookup(t.phase2_named, tag_of(ty))
    };
    match found {
        Some(i) => Some(i.ty),
        None => None,
    }
}

/// The record that replaces `ty` in phase 3.
pub open spec fn p3_replacement(t: TableModel, ty: TypeModel) -> Option<TypeModel> {
    let found = if tag_of(ty) == anon_tag() {
        lookup(t.phase3_anon, bare_string(ty))
    } else {
        lookup(t.phase3_named, tag_of(ty))
    };
    match found {
        Some(i) => Some(i.ty),
        None => None,
    }
}

/// `i` with `count` more references, used in a method if `used`.
pub open spec fn counted(i: InfoModel, count: nat, used: bool) -> InfoModel {
    InfoModel {
        reference_count: sat_add(i.reference_count, count),
        is_used_in_method: i.is_used_in_method || used,
        ..i
    }
}

/// Phase 3 registration of a record met `count` times; the flag says
/// whether its members are to be registered too.  An anonymous record
/// counts toward its exception entry (members registered on the first
/// count) or its entry by bare encoding (never again) or becomes a new
/// entry; a tag with conflicting definitions counts toward its exception
/// entry, if any; a known tag counts and, if its entry has no members yet,
/// merges this definition in and registers its members; a new tag becomes
/// a new entry.
pub open spec fn p3_register(t: TableModel, s: TypeModel, count: nat, used: bool) -> (TableModel, bool) {
    let name = tag_of(s);
    let ts = full_string(s);
    if name == anon_tag() {
        let key = bare_string(s);
        match lookup(t.phase3_anon_exceptions, ts) {
            Some(i) => {
                let ni = counted(i, count, used);
                (TableModel { phase3_anon_exceptions: upsert(t.phase3_anon_exceptions, ts, ni), ..t }, ni.reference_count
                    == count)
            },
            None => match lookup(t.phase3_anon, key) {
                Some(i) => (TableModel { phase3_anon: upsert(t.phase3_anon, key, counted(i, count, used)), ..t }, false),
                None => (
                    TableModel { phase3_anon: upsert(t.phase3_anon, key, counted(fresh(s), count, used)), ..t },
                    true,
                ),
            },
        }
    } else if t.exceptional_names.contains(name) {
        match lookup(t.phase3_name_exceptions, ts) {
            Some(i) => {
                let ni = counted(i, count, false);
                (TableModel { phase3_name_exceptions: upsert(t.phase3_name_exceptions, ts, ni), ..t }, ni.reference_count
                    == count)
            },
            None => (t, false),
        }
    } else {
        match lookup(t.phase3_named, name) {
            Some(i) => {
                let was_empty = i.ty.members.len() == 0;
                let i2 = if was_empty { InfoModel { ty: merged(i.ty, s), ..i } } else { i };
                (TableModel { phase3_named: upsert(t.phase3_named, name, counted(i2, count, used)), ..t }, was_empty)
            },
            None => (
                TableModel { phase3_named: upsert(t.phase3_named, name, counted(fresh(s), count, used)), ..t },
                true,
            ),
        }
    }
}

/// A tag that starts with `_` and a capital letter.
pub open spec fn underscore_capital(s: Seq<u8>) -> bool {
    s.len() >= 2 && s[0] == 95 && is_upper(s[1])
}

/// Is a record written out where it is used?  Unknown records are; known
/// ones when no method uses them, they are referenced at most once, and
/// their tag is `?` or a private one (`_x`, but not `_X`).
pub open spec fn expands(info: Option<InfoModel>) -> bool {
    match info {
        None => true,
        Some(i) => {
            let name = tag_of(i.ty);
            &&& !i.is_used_in_method
            &&& i.reference_count < 2
            &&& ((name.len() > 0 && name[0] == 95 && !underscore_capital(name)) || name == anon_tag())
        },
    }
}

/// The phase-3 entry of `ty`.
pub open spec fn lookup_phase3(t: TableModel, ty: TypeModel) -> Option<InfoModel> {
    if tag_of(ty) == anon_tag() {
        match lookup(t.phase3_anon, bare_string(ty)) {
            Some(i) => Some(i),
            None => lookup(t.phase3_anon_exceptions, full_string(ty)),
        }
    } else {
        match lookup(t.phase3_named, tag_of(ty)) {
            Some(i) => Some(i),
            None => lookup(t.phase3_name_exceptions, full_string(ty)),
        }
    }
}

/// The typedef name of `ty`: the first entry found by bare encoding among
/// anonymous records, by full encoding among anonymous and then named
/// exceptions, or by tag.
pub open spec fn typedef_of(t: TableModel, ty: TypeModel) -> Option<Seq<u8>> {
    let found = match lookup(t.phase3_anon, bare_string(ty)) {
        Some(i) => Some(i),
        None => match lookup(t.phase3_anon_exceptions, full_string(ty)) {
            Some(i) => Some(i),
            None => match lookup(t.phase3_name_exceptions, full_string(ty)) {
                Some(i) => Some(i),
                None => lookup(t.phase3_named, tag_of(ty)),
            },
        },
    };
    match found {
        Some(i) => i.typedef_name,
        None => None,
    }
}

/// The typedef name made from `base`: `base` and the last eight hex digits
/// of the SHA-1 of the record's full encoding.
pub open spec fn typedef_name(base: Seq<u8>, ty: TypeModel) -> Seq<u8> {
    let digest = hex_bytes(sha1_of(full_string(ty)));
    base + digest.subrange(digest.len() - 8, digest.len() as int)
}

/// A typedef name is the base followed by eight lower-case hex digits that
/// read, two per byte, as the last four bytes of the SHA-1 digest of the
/// record's full encoding.
pub proof fn lemma_typedef_name_digits(base: Seq<u8>, ty: TypeModel)
    ensures
        sha1_of(full_string(ty)).len() >= 4 ==> ({
            let d = sha1_of(full_string(ty));
            let name = typedef_name(base, ty);
            &&& name.len() == base.len() + 8
            &&& name.subrange(0, base.len() as int) == base
            &&& forall|j: int|
                0 <= j < 4 ==> crate::text::digit_value(#[trigger] name[base.len() + 2 * j]) * 16
                    + crate::text::digit_value(name[base.len() + 2 * j + 1]) == d[d.len() - 4 + j]
        }),
{
    let d = sha1_of(full_string(ty));
    if d.len() >= 4 {
        let h = hex_bytes(d);
        crate::checksum::lemma_hex_bytes(d);
        let name = typedef_name(base, ty);
        assert(name.subrange(0, base.len() as int) =~= base);
        assert forall|j: int| 0 <= j < 4 implies crate::text::digit_value(#[trigger] name[base.len() + 2 * j]) * 16
            + crate::text::digit_value(name[base.len() + 2 * j + 1]) == d[d.len() - 4 + j] by {
            let i = d.len() - 4 + j;
            assert(name[base.len() + 2 * j] == h[2 * i]);
            assert(name[base.len() + 2 * j + 1] == h[2 * i + 1]);
        }
    }
}

/// The part of a tag before its template arguments, and the rest.
pub open spec fn split_template(full: Seq<u8>) -> (Seq<u8>, Seq<u8>) {
    match first_index(full, is_byte(LT)) {
        Some(i) => (full.subrange(0, i), full.subrange(i, full.len() as int)),
        None => (full, Seq::empty()),
    }
}

/// An anonymous entry named from the table's base.
pub open spec fn name_anon(base: Seq<u8>, i: InfoModel) -> InfoModel {
    InfoModel { typedef_name: Some(typedef_name(base, i.ty)), ..i }
}

/// A conflicting named entry: named `Tag_` and a checksum, its tag turned
/// into `?` (keeping template arguments).
pub open spec fn name_exception(i: InfoModel) -> InfoModel {
    let (bare, template) = split_template(tag_of(i.ty));
    InfoModel {
        typedef_name: Some(typedef_name(bare + "_".spec_bytes(), i.ty)),
        ty: TypeModel { typename: Some("?".spec_bytes() + template), ..i.ty },
        ..i
    }
}

/// A named template record used in a method is named `Tag_` and a
/// checksum; other named entries stay as they are.
pub open spec fn name_named(i: InfoModel) -> InfoModel {
    if tag_of(i.ty).contains(LT) && i.is_used_in_method {
        let (bare, template) = split_template(tag_of(i.ty));
        InfoModel { typedef_name: Some(typedef_name(bare + "_".spec_bytes(), i.ty)), ..i }
    } else {
        i
    }
}

/// `m` with `f` applied to every record.
pub open spec fn map_infos(m: DictModel, f: spec_fn(InfoModel) -> InfoModel) -> DictModel {
    m.map_values(|p: (Seq<u8>, InfoModel)| (p.0, f(p.1)))
}

/// A record with generated member names.
pub open spec fn info_with_names(i: InfoModel) -> InfoModel {
    InfoModel { ty: with_names(i.ty), ..i }
}

/// The ways phase-3 records are renamed.
pub enum Rename {
    Anonymous,
    Exception,
    Named,
    Members,
}

pub open spec fn rename(kind: Rename, base: Seq<u8>, i: InfoModel) -> InfoModel {
    match kind {
        Rename::Anonymous => name_anon(base, i),
        Rename::Exception => name_exception(i),
        Rename::Named => name_named(i),
        Rename::Members => info_with_names(i),
    }
}

pub open spec fn renamer(kind: Rename, base: Seq<u8>) -> spec_fn(InfoModel) -> InfoModel {
    |i: InfoModel| rename(kind, base, i)
}

/// The table after its typedef names are made.
pub open spec fn with_typedef_names(t: TableModel) -> TableModel {
    TableModel {
        phase3_anon: map_infos(t.phase3_anon, renamer(Rename::Anonymous, t.base)),
        phase3_anon_exceptions: map_infos(t.phase3_anon_exceptions, renamer(Rename::Anonymous, t.base)),
        phase3_name_exceptions: map_infos(t.phase3_name_exceptions, renamer(Rename::Exception, t.base)),
        phase3_named: map_infos(t.phase3_named, renamer(Rename::Named, t.base)),
        ..t
    }
}

/// The table after member names are generated in every phase-3 record.
pub open spec fn with_member_names(t: TableModel) -> TableModel {
    TableModel {
        phase3_named: map_infos(t.phase3_named, renamer(Rename::Members, t.base)),
        phase3_anon: map_infos(t.phase3_anon, renamer(Rename::Members, t.base)),
        phase3_name_exceptions: map_infos(t.phase3_name_exceptions, renamer(Rename::Members, t.base)),
        phase3_anon_exceptions: map_infos(t.phase3_anon_exceptions, renamer(Rename::Members, t.base)),
        ..t
    }
}

/// The typedef name made from `base` (see `typedef_name`).
fn make_typedef_name(base: &[u8], ty: &CDType) -> (r: Vec<u8>)
    ensures
        r@ == typedef_name(base@, ty@),
{
    let digest = sha1_hex(ty.type_string().as_slice());
    let mut r = to_vec(base);
    append(&mut r, sub_vec(digest.as_slice(), 32, 40).as_slice());
    r
}

/// See `split_template`.
fn split_template_exec(full: &[u8]) -> (r: (Vec<u8>, Vec<u8>))
    ensures
        (r.0@, r.1@) == split_template(full@),
{
    match crate::parse::find_byte(full, LT) {
        Some(i) => {
            proof {
                lemma_first_index(full@, is_byte(LT));
            }
            (sub_vec(full, 0, i), sub_vec(full, i, full.len()))
        },
        None => (to_vec(full), Vec::new()),
    }
}

fn rename_exec(kind: &Rename, base: &[u8], i: &Info) -> (r: Info)
    ensures
        r@ == rename(*kind, base@, i@),
{
    let mut r = i.clone();
    match kind {
        Rename::Anonymous => {
            r.typedef_name = Some(make_typedef_name(base, &i.ty));
        },
        Rename::Exception => {
            let full = i.ty.type_name_description();
            let (bare, template) = split_template_exec(full.as_slice());
            let mut b = bare;
            append_str(&mut b, "_");
            r.typedef_name = Some(make_typedef_name(b.as_slice(), &i.ty));
            let mut n: Vec<u8> = Vec::new();
            append_str(&mut n, "?");
            append(&mut n, template.as_slice());
            r.ty.typename = Some(n);
        },
        Rename::Named => {
            if i.ty.is_template_type() && i.is_used_in_method {
                let full = i.ty.type_name_description();
                let (bare, _template) = split_template_exec(full.as_slice());
                let mut b = bare;
                append_str(&mut b, "_");
                r.typedef_name = Some(make_typedef_name(b.as_slice(), &i.ty));
            }
        },
        Rename::Members => {
            r.ty.generate_member_names();
        },
    }
    r
}

impl Dict {
    /// Rename every record (see `rename`).
    pub fn rename_all(&mut self, kind: &Rename, base: &[u8])
        ensures
            final(self)@ == map_infos(old(self)@, renamer(*kind, base@)),
    {
        let ghost m0 = self@;
        let ghost f = renamer(*kind, base@);
        let mut i: usize = 0;
        while i < self.entries.len()
            invariant
                i <= self.entries@.len(),
                m0.len() == self.entries@.len(),
                f == renamer(*kind, base@),
                forall|j: int| 0 <= j < i ==> #[trigger] self@[j] == (m0[j].0, f(m0[j].1)),
                forall|j: int| i <= j < m0.len() ==> #[trigger] self@[j] == m0[j],
            decreases self.entries@.len() - i,
        {
            let key = to_vec(self.entries[i].key.as_slice());
            let info = rename_exec(kind, base, &self.entries[i].info);
            let ghost before = self.entries@;
            let ghost bv = self@;
            proof {
                assert(bv[i as int] == m0[i as int]);
            }
            self.entries.set(i, Entry { key, info });
            proof {
                assert forall|j: int| 0 <= j < m0.len() && j != i implies #[trigger] self@[j] == bv[j] by {
                    assert(self.entries@[j] == before[j]);
                }
                assert(self@[i as int] == (m0[i as int].0, f(m0[i as int].1)));
            }
            i = i + 1;
        }
        assert(self@ =~= map_infos(m0, f));
    }
}

impl Table {
    /// Make the typedef names (see `with_typedef_names`).
    pub fn generate_typedef_names(&mut self)
        ensures
            final(self)@ == with_typedef_names(old(self)@),
    {
        let base = to_vec(self.anonymous_base_name.as_slice());
        self.phase3_anon.rename_all(&Rename::Anonymous, base.as_slice());
        self.phase3_anon_exceptions.rename_all(&Rename::Anonymous, base.as_slice());
        self.phase3_name_exceptions.rename_all(&Rename::Exception, base.as_slice());
        self.phase3_named.rename_all(&Rename::Named, base.as_slice());
    }

    /// Generate member names in every phase-3 record.
    pub fn generate_member_names(&mut self)
        ensures
            final(self)@ == with_member_names(old(self)@),
    {
        let base = to_vec(self.anonymous_base_name.as_slice());
        self.phase3_named.rename_all(&Rename::Members, base.as_slice());
        self.phase3_anon.rename_all(&Rename::Members, base.as_slice());
        self.phase3_name_exceptions.rename_all(&Rename::Members, base.as_slice());
        self.phase3_anon_exceptions.rename_all(&Rename::Members, base.as_slice());
    }
}

/// A tag that starts with `_` and a capital letter.
pub fn has_underscore_capital_prefix(s: &[u8]) -> (r: bool)
    ensures
        r == underscore_capital(s@),
{
    s.len() >= 2 && s[0] == 95 && 65 <= s[1] && s[1] <= 90
}

/// A copy of an optional record.
fn copy_info(o: Option<&Info>) -> (r: Option<Info>)
    ensures
        match o {
            Some(i) => r matches Some(c) && c@ == i@,
            None => r is None,
        },
{
    match o {
        Some(i) => Some(i.clone()),
        None => None,
    }
}

impl Table {
    pub fn new(base: &[u8]) -> (t: Table)
        ensures
            t@ == empty_table(base@),
    {
        let t = Table {
            anonymous_base_name: to_vec(base),
            phase0: Dict::new(),
            phase1: Dict::new(),
            phase1_max_depth: 0,
            phase2_named: Dict::new(),
            phase2_anon: Dict::new(),
            phase2_name_exceptions: Vec::new(),
            phase2_anon_exceptions: Vec::new(),
            phase3_named: Dict::new(),
            phase3_anon: Dict::new(),
            phase3_name_exceptions: Dict::new(),
            phase3_anon_exceptions: Dict::new(),
            phase3_exceptional_names: Vec::new(),
        };
        assert(infos_view(t.phase2_name_exceptions@) =~= Seq::<InfoModel>::empty());
        assert(infos_view(t.phase2_anon_exceptions@) =~= Seq::<InfoModel>::empty());
        assert(names_of(t.phase3_exceptional_names@) =~= Seq::<Seq<u8>>::empty());
        assert(t@ == empty_table(base@));
        t
    }

    pub fn phase0_register(&mut self, ty: &CDType, used_in_method: bool)
        ensures
            final(self)@ == p0_register(old(self)@, ty@, used_in_method),
    {
        let key = ty.type_string();
        let mut e = match self.phase0.get(key.as_slice()) {
            Some(i) => i.clone(),
            None => Info::new(ty.clone()),
        };
        e.reference_count = sat_add_exec(e.reference_count, 1);
        if used_in_method {
            e.is_used_in_method = true;
        }
        self.phase0.insert(key, e);
    }

    pub fn phase1_register(&mut self, ty: &CDType)
        ensures
            final(self)@ == p1_register(old(self)@, ty@),
    {
        let key = ty.type_string();
        if !self.phase1.contains_key(key.as_slice()) {
            self.phase1.insert(key, Info::new(ty.clone()));
        }
    }

    pub fn finish_phase1(&mut self)
        ensures
            final(self)@ == (TableModel {
                max_depth: max_depth_of(values_of(old(self)@.phase1), old(self)@.max_depth),
                ..old(self)@
            }),
    {
        let ghost vs = values_of(self@.phase1);
        let ghost m0 = self@.max_depth;
        let mut i: usize = 0;
        while i < self.phase1.entries.len()
            invariant
                i <= self.phase1.entries@.len(),
                vs == values_of(self@.phase1),
                vs.len() == self.phase1.entries@.len(),
                self@ == (TableModel { max_depth: self.phase1_max_depth as nat, ..old(self)@ }),
                self.phase1_max_depth == max_depth_of(vs.subrange(0, i as int), m0),
            decreases self.phase1.entries@.len() - i,
        {
            let d = self.phase1.entries[i].info.ty.structure_depth();
            proof {
                assert(vs.subrange(0, i + 1).drop_last() =~= vs.subrange(0, i as int));
                assert(vs.subrange(0, i + 1).last() == self.phase1.entries@[i as int].info@);
            }
            if self.phase1_max_depth < d {
                self.phase1_max_depth = d;
            }
            i = i + 1;
        }
        assert(vs.subrange(0, vs.len() as int) =~= vs);
    }

    pub fn phase2_replacement(&self, ty: &CDType) -> (r: Option<CDType>)
        ensures
            match r {
                Some(c) => p2_replacement(self@, ty@) == Some(c@),
                None => p2_replacement(self@, ty@) is None,
            },
    {
        let name = ty.type_name_description();
        let found = if bytes_eq(name.as_slice(), "?".as_bytes()) {
            self.phase2_anon.get(ty.really_bare_type_string().as_slice())
        } else {
            self.phase2_named.get(name.as_slice())
        };
        match found {
            Some(i) => Some(i.ty.clone()),
            None => None,
        }
    }

    pub fn phase3_replacement(&self, ty: &CDType) -> (r: Option<CDType>)
        ensures
            match r {
                Some(c) => p3_replacement(self@, ty@) == Some(c@),
                None => p3_replacement(self@, ty@) is None,
            },
    {
        let name = ty.type_name_description();
        let found = if bytes_eq(name.as_slice(), "?".as_bytes()) {
            self.phase3_anon.get(ty.really_bare_type_string().as_slice())
        } else {
            self.phase3_named.get(name.as_slice())
        };
        match found {
            Some(i) => Some(i.ty.clone()),
            None => None,
        }
    }

    /// Phase 3 registration (see `p3_register`).
    pub fn phase3_register(&mut self, structure: &CDType, count: usize, used: bool) -> (r: bool)
        ensures
            (final(self)@, r) == p3_register(old(self)@, structure@, count as nat, used),
    {
        let name = structure.type_name_description();
        let ts = structure.type_string();
        if bytes_eq(name.as_slice(), "?".as_bytes()) {
            let key = structure.really_bare_type_string();
            match copy_info(self.phase3_anon_exceptions.get(ts.as_slice())) {
                Some(mut info) => {
                    info.reference_count = sat_add_exec(info.reference_count, count);
                    if used {
                        info.is_used_in_method = true;
                    }
                    let again = info.reference_count == count;
                    self.phase3_anon_exceptions.insert(ts, info);
                    return again;
                },
                None => {},
            }
            match copy_info(self.phase3_anon.get(key.as_slice())) {
                Some(mut info) => {
                    info.reference_count = sat_add_exec(info.reference_count, count);
                    if used {
                        info.is_used_in_method = true;
                    }
                    self.phase3_anon.insert(key, info);
                    return false;
                },
                None => {},
            }
            let mut info = Info::new(structure.clone());
            info.reference_count = count;
            info.is_used_in_method = used;
            self.phase3_anon.insert(key, info);
            true
        } else if contains_name(&self.phase3_exceptional_names, name.as_slice()) {
            match copy_info(self.phase3_name_exceptions.get(ts.as_slice())) {
                Some(mut info) => {
                    info.reference_count = sat_add_exec(info.reference_count, count);
                    let again = info.reference_count == count;
                    self.phase3_name_exceptions.insert(ts, info);
                    again
                },
                None => false,
            }
        } else {
            match copy_info(self.phase3_named.get(name.as_slice())) {
                Some(mut info) => {
                    let was_empty = info.ty.members.len() == 0;
                    proof {
                        crate::typ::lemma_tys_view(info.ty.members@);
                    }
                    if was_empty {
                        info.ty.merge_with(structure);
                    }
                    info.reference_count = sat_add_exec(info.reference_count, count);
                    if used {
                        info.is_used_in_method = true;
                    }
                    self.phase3_named.insert(name, info);
                    was_empty
                },
                None => {
                    let mut info = Info::new(structure.clone());
                    info.reference_count = count;
                    info.is_used_in_method = used;
                    self.phase3_named.insert(name, info);
                    true
                },
            }
        }
    }

    /// See `expands`.
    pub fn should_expand_info(&self, info: Option<&Info>) -> (r: bool)
        ensures
            r == expands(match info {
                Some(i) => Some(i@),
                None => None,
            }),
    {
        match info {
            None => true,
            Some(info) => {
                let name = info.ty.type_name_description();
                !info.is_used_in_method && info.reference_count < 2 && ((name.len() > 0 && name[0] == 95
                    && !has_underscore_capital_prefix(name.as_slice())) || bytes_eq(name.as_slice(), "?".as_bytes()))
            },
        }
    }

    /// See `lookup_phase3`.
    pub fn lookup_phase3(&self, ty: &CDType) -> (r: Option<&Info>)
        ensures
            match r {
                Some(i) => lookup_phase3(self@, ty@) == Some(i@),
                None => lookup_phase3(self@, ty@) is None,
            },
    {
        let name = ty.type_name_description();
        if bytes_eq(name.as_slice(), "?".as_bytes()) {
            match self.phase3_anon.get(ty.really_bare_type_string().as_slice()) {
                Some(i) => Some(i),
                None => self.phase3_anon_exceptions.get(ty.type_string().as_slice()),
            }
        } else {
            match self.phase3_named.get(name.as_slice()) {
                Some(i) => Some(i),
                None => self.phase3_name_exceptions.get(ty.type_string().as_slice()),
            }
        }
    }

    pub fn should_expand_type(&self, ty: &CDType) -> (r: bool)
        ensures
            r == expands(lookup_phase3(self@, ty@)),
    {
        self.should_expand_info(self.lookup_phase3(ty))
    }

    /// See `typedef_of`.
    pub fn typedef_name_for_type(&self, ty: &CDType) -> (r: Option<Vec<u8>>)
        ensures
            opt_bytes(r) == typedef_of(self@, ty@),
    {
        let ts = ty.type_string();
        let found = match self.phase3_anon.get(ty.really_bare_type_string().as_slice()) {
            Some(i) => Some(i),
            None => match self.phase3_anon_exceptions.get(ts.as_slice()) {
                Some(i) => Some(i),
                None => match self.phase3_name_exceptions.get(ts.as_slice()) {
                    Some(i) => Some(i),
                    None => self.phase3_named.get(ty.type_name_description().as_slice()),
                },
            },
        };
        match found {
            Some(i) => match &i.typedef_name {
                Some(n) => Some(to_vec(n.as_slice())),
                None => None,
            },
            None => None,
        }
    }
}

/// Is `name` in the list?
pub fn contains_name(v: &Vec<Vec<u8>>, name: &[u8]) -> (r: bool)
    ensures
        r == names_of(v@).contains(name@),
{
    let mut i: usize = 0;
    while i < v.len()
        invariant
            i <= v@.len(),
            forall|j: int| 0 <= j < i ==> v@[j]@ != name@,
        decreases v@.len() - i,
    {
        if bytes_eq(v[i].as_slice(), name) {
            assert(names_of(v@)[i as int] == name@);
            return true;
        }
        i = i + 1;
    }
    false
}

/// Record `a` sorts before `b`: by record depth, then bare encoding, then
/// full encoding.
pub open spec fn info_lt(a: InfoModel, b: InfoModel) -> bool {
    let da = clamp(depth(a.ty));
    let db = clamp(depth(b.ty));
    da < db || (da == db && (bytes_lt(bare_string(a.ty), bare_string(b.ty)) || (bare_string(a.ty) == bare_string(b.ty)
        && bytes_lt(full_string(a.ty), full_string(b.ty)))))
}

pub proof fn lemma_info_lt_transitive(a: InfoModel, b: InfoModel, c: InfoModel)
    requires
        info_lt(a, b),
        info_lt(b, c),
    ensures
        info_lt(a, c),
{
    let (ba, bb, bc) = (bare_string(a.ty), bare_string(b.ty), bare_string(c.ty));
    if bytes_lt(ba, bb) && bytes_lt(bb, bc) {
        lemma_bytes_lt_transitive(ba, bb, bc);
    }
    let (fa, fb, fc) = (full_string(a.ty), full_string(b.ty), full_string(c.ty));
    if bytes_lt(fa, fb) && bytes_lt(fb, fc) {
        lemma_bytes_lt_transitive(fa, fb, fc);
    }
}

pub proof fn lemma_info_lt_asymmetric(a: InfoModel, b: InfoModel)
    requires
        info_lt(a, b),
    ensures
        !info_lt(b, a),
{
    if info_lt(b, a) {
        lemma_info_lt_transitive(a, b, a);
        lemma_bytes_lt_irreflexive(bare_string(a.ty));
        lemma_bytes_lt_irreflexive(full_string(a.ty));
    }
}

/// No record sorts before one that comes earlier.
pub open spec fn sorted_infos(s: Seq<InfoModel>) -> bool {
    forall|i: int, j: int| 0 <= i < j < s.len() ==> !info_lt(#[trigger] s[j], #[trigger] s[i])
}

fn info_less(a: &Info, b: &Info) -> (r: bool)
    ensures
        r == info_lt(a@, b@),
{
    let da = a.ty.structure_depth();
    let db = b.ty.structure_depth();
    if da != db {
        return da < db;
    }
    let ba = a.ty.really_bare_type_string();
    let bb = b.ty.really_bare_type_string();
    if bytes_less(ba.as_slice(), bb.as_slice()) {
        return true;
    }
    if !crate::text::bytes_eq(ba.as_slice(), bb.as_slice()) {
        return false;
    }
    bytes_less(a.ty.type_string().as_slice(), b.ty.type_string().as_slice())
}

/// The record order as a relation.
pub open spec fn info_order() -> spec_fn(InfoModel, InfoModel) -> bool {
    |a: InfoModel, b: InfoModel| info_lt(a, b)
}

/// Records sorted by depth, then bare encoding, then full encoding, those
/// that sort alike in their order.
pub open spec fn sorted_records(s: Seq<InfoModel>) -> Seq<InfoModel> {
    insertion_sorted(s, info_order())
}


/// The record order is a strict order.
pub proof fn lemma_info_order_strict()
    ensures
        strict_order(info_order()),
{
    assert forall|a: InfoModel| !#[trigger] info_order()(a, a) by {
        lemma_bytes_lt_irreflexive(bare_string(a.ty));
        lemma_bytes_lt_irreflexive(full_string(a.ty));
    }
    assert forall|a: InfoModel, b: InfoModel, c: InfoModel| #[trigger] info_order()(a, b) && #[trigger] info_order()(b, c) implies info_order()(a, c) by {
        lemma_info_lt_transitive(a, b, c);
    }
}

/// The records sorted by depth, then bare encoding, then full encoding;
/// records that sort alike keep their order.
pub fn depth_sort(v: &Vec<Info>) -> (r: Vec<Info>)
    ensures
        sorted_infos(infos_view(r@)),
        infos_view(r@).to_multiset() == infos_view(v@).to_multiset(),
        infos_view(r@) == sorted_records(infos_view(v@)),
{
    let mut out: Vec<Info> = Vec::new();
    let mut k: usize = 0;
    while k < v.len()
        invariant
            k <= v@.len(),
            sorted_infos(infos_view(out@)),
            infos_view(out@).to_multiset() == infos_view(v@.subrange(0, k as int)).to_multiset(),
            infos_view(out@) == sorted_records(infos_view(v@.subrange(0, k as int))),
        decreases v@.len() - k,
    {
        let x = v[k].clone();
        let ghost s = infos_view(out@);
        let mut pos: usize = 0;
        while pos < out.len() && !info_less(&x, &out[pos])
            invariant
                pos <= out@.len(),
                s == infos_view(out@),
                forall|j: int| 0 <= j < pos ==> !info_lt(x@, #[trigger] s[j]),
            decreases out@.len() - pos,
        {
            pos = pos + 1;
        }
        let ghost xs = x@;
        proof {
            lemma_first_index_at(s, after_in(info_order(), xs), pos as int);
        }
        out.insert(pos, x);
        proof {
            let t = infos_view(out@);
            assert(t =~= s.insert(pos as int, xs));
            let q = infos_view(v@.subrange(0, k + 1));
            assert(q.drop_last() =~= infos_view(v@.subrange(0, k as int)));
            assert(q.last() == xs);
            assert(t =~= insert_in_order(s, xs, info_order()));
            assert forall|i: int, j: int| 0 <= i < j < t.len() implies !info_lt(#[trigger] t[j], #[trigger] t[i]) by {
                if i < pos && j == pos {
                } else if i == pos && j > pos {
                    assert(info_lt(xs, s[pos as int]));
                    if info_lt(s[j - 1], xs) {
                        lemma_info_lt_transitive(s[j - 1], xs, s[pos as int]);
                        if j - 1 == pos {
                            lemma_info_lt_asymmetric(s[pos as int], s[pos as int]);
                        }
                    }
                } else if i < pos && j > pos {
                    assert(t[i] == s[i]);
                    assert(t[j] == s[j - 1]);
                } else if i > pos {
                    assert(t[i] == s[i - 1]);
                    assert(t[j] == s[j - 1]);
                }
            }
            assert(v@.subrange(0, k + 1) =~= v@.subrange(0, k as int).push(v@[k as int]));
            assert(infos_view(v@.subrange(0, k + 1)) =~= infos_view(v@.subrange(0, k as int)).push(xs));
        }
        k = k + 1;
    }
    assert(v@.subrange(0, v@.len() as int) =~= v@);
    out
}

/// The first `k` records of a group merged into one, their counts added;
/// `None` if some record cannot be merged into what came before it.
pub open spec fn combined(g: Seq<InfoModel>, k: nat) -> Option<InfoModel>
    decreases k,
{
    if k == 0 || k > g.len() {
        None
    } else if k == 1 {
        Some(g[0])
    } else {
        match combined(g, (k - 1) as nat) {
            None => None,
            Some(c) => {
                let x = g[k - 1];
                if can_merge(c.ty, x.ty) {
                    Some(
                        InfoModel {
                            ty: merged(c.ty, x.ty),
                            reference_count: sat_add(c.reference_count, x.reference_count),
                            ..c
                        },
                    )
                } else {
                    None
                }
            },
        }
    }
}

/// Once a group fails to merge, longer prefixes fail too.
proof fn lemma_combined_none(g: Seq<InfoModel>, k: nat, n: nat)
    requires
        1 <= k <= n <= g.len(),
        combined(g, k) is None,
    ensures
        combined(g, n) is None,
    decreases n,
{
    if n > k {
        lemma_combined_none(g, k, (n - 1) as nat);
    }
}

/// A group merged into one record (see `combined`).
pub fn combine(group: &Vec<Info>) -> (r: Option<Info>)
    ensures
        match r {
            Some(c) => combined(infos_view(group@), group@.len()) == Some(c@),
            None => combined(infos_view(group@), group@.len()) is None,
        },
{
    let ghost g = infos_view(group@);
    let mut acc: Option<Info> = None;
    let mut i: usize = 0;
    while i < group.len()
        invariant
            i <= group@.len(),
            g == infos_view(group@),
            g.len() == group@.len(),
            match acc {
                Some(c) => combined(g, i as nat) == Some(c@),
                None => combined(g, i as nat) is None,
            },
            i > 0 ==> acc is Some,
        decreases group@.len() - i,
    {
        let info = &group[i];
        match acc {
            None => {
                acc = Some(info.clone());
            },
            Some(mut c) => {
                if c.ty.can_merge_with(&info.ty) {
                    c.ty.merge_with(&info.ty);
                    c.reference_count = sat_add_exec(c.reference_count, info.reference_count);
                    acc = Some(c);
                } else {
                    proof {
                        assert(combined(g, (i + 1) as nat) is None);
                        lemma_combined_none(g, (i + 1) as nat, g.len());
                    }
                    return None;
                }
            },
        }
        i = i + 1;
    }
    acc
}

} // verus!
