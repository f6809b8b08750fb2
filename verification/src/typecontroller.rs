//! The type controller: registers every record type met in the image,
//! merges the definitions of each record over several phases, names
//! anonymous and conflicting ones with `CDStruct_`/`CDUnion_` typedefs, and
//! decides which records are written out where they are used.

use vstd::prelude::*;
use vstd::string::StringSliceAdditionalSpecFns;
use crate::dict::{has_key, keys_of, lemma_infos_view_push, clone_infos, infos_view, lookup, remove_key, upsert, values_of, Dict, DictModel, Info, InfoModel};
use crate::render::{fmt, indent, naming_of, opt_slice, write_indent, FormatterCfg, Naming, TypeNamer};
use crate::order::{
    byte_order, bytes_lt, insertion_sorted, lemma_byte_order_strict, lemma_insertion_sorted_permutes,
    lemma_insertion_sorted_sorted, sort_names, sorted_bytes,
};
use crate::parse::or_empty;
use crate::table::{
    depth_sort, info_lt, info_order, lemma_info_order_strict, sorted_infos, sorted_records, with_member_names, with_typedef_names, max_depth_of, p3_register,
    bare_string, combined, expands, full_string, lookup_phase3, p0_register, p1_register, p2_replacement,
    p3_replacement, typedef_of, Table, TableModel, empty_table,
};
use crate::text::{append, append_str, bytes_eq, first_index, lemma_first_index, lemma_first_index_at, to_vec};
use crate::typ::{clamp, depth, tag_of};
use crate::typ::{
    can_merge, is_record, merged, opt_bytes, tys_view, CDType, TypeModel, ENC_CHAR, ENC_STRUCT, ENC_UNION, T_BLOCK,
    T_FUNCTION_POINTER,
};

verus! {

broadcast use vstd::seq_lib::group_to_multiset_ensures;

pub struct ControllerModel {
    pub structs: TableModel,
    pub unions: TableModel,
    pub has_unknown_func_ptrs: bool,
    pub has_unknown_blocks: bool,
}

/// The table that records of kind `prim` go to.
pub open spec fn table_of(c: ControllerModel, prim: u8) -> TableModel {
    if prim == ENC_UNION {
        c.unions
    } else {
        c.structs
    }
}

/// `c` with the table for records of kind `prim` replaced.
pub open spec fn set_table(c: ControllerModel, prim: u8, t: TableModel) -> ControllerModel {
    if prim == ENC_UNION {
        ControllerModel { unions: t, ..c }
    } else {
        ControllerModel { structs: t, ..c }
    }
}

/// A record with members.
pub open spec fn is_full_record(t: TypeModel) -> bool {
    is_record(t.prim) && t.members.len() > 0
}

/// Phase 0: the pointed-to type first, then the record itself (not its
/// members); note unknown function pointers and blocks.
pub open spec fn p0_walk(c: ControllerModel, t: TypeModel, used: bool) -> ControllerModel
    decreases t,
{
    let c1 = match t.subtype {
        Some(s) => p0_walk(c, *s, used),
        None => c,
    };
    if is_full_record(t) {
        set_table(c1, t.prim, p0_register(table_of(c1, t.prim), t, used))
    } else if t.prim == T_FUNCTION_POINTER {
        ControllerModel { has_unknown_func_ptrs: true, ..c1 }
    } else if t.prim == T_BLOCK && t.block_types is None {
        ControllerModel { has_unknown_blocks: true, ..c1 }
    } else {
        c1
    }
}

/// Phase 1: the pointed-to type first, then the record and its members.
pub open spec fn p1_walk(c: ControllerModel, t: TypeModel) -> ControllerModel
    decreases t, 1nat,
{
    let c1 = match t.subtype {
        Some(s) => p1_walk(c, *s),
        None => c,
    };
    if is_full_record(t) {
        p1_walk_all(set_table(c1, t.prim, p1_register(table_of(c1, t.prim), t)), t.members)
    } else {
        c1
    }
}

/// Phase 1 over a list of types, in order.
pub open spec fn p1_walk_all(c: ControllerModel, ms: Seq<TypeModel>) -> ControllerModel
    decreases ms, 0nat,
{
    if ms.len() == 0 {
        c
    } else {
        p1_walk(p1_walk_all(c, ms.drop_last()), ms.last())
    }
}

/// The types of a list of records.
pub open spec fn types_of(v: Seq<InfoModel>) -> Seq<TypeModel> {
    v.map_values(|i: InfoModel| i.ty)
}

/// Phase 2 or 3 merging: the pointed-to type and the members first, then
/// the record with its replacement, when they merge.
pub open spec fn merge_walk(c: ControllerModel, t: TypeModel, phase3: bool) -> TypeModel
    decreases t, 1nat,
{
    let t1 = match t.subtype {
        Some(s) => TypeModel { subtype: Some(Box::new(merge_walk(c, *s, phase3))), ..t },
        None => t,
    };
    let t2 = TypeModel { members: merge_walk_all(c, t.members, phase3), ..t1 };
    if is_full_record(t2) {
        let repl = if phase3 {
            p3_replacement(table_of(c, t2.prim), t2)
        } else {
            p2_replacement(table_of(c, t2.prim), t2)
        };
        match repl {
            Some(r) => if can_merge(t2, r) {
                merged(t2, r)
            } else {
                t2
            },
            None => t2,
        }
    } else {
        t2
    }
}

pub open spec fn merge_walk_all(c: ControllerModel, ms: Seq<TypeModel>, phase3: bool) -> Seq<TypeModel>
    decreases ms, 0nat,
{
    if ms.len() == 0 {
        Seq::empty()
    } else {
        merge_walk_all(c, ms.drop_last(), phase3).push(merge_walk(c, ms.last(), phase3))
    }
}

/// Does the controller write `ty` out where it is used?
pub open spec fn controller_expands(c: ControllerModel, ty: TypeModel) -> bool {
    expands(lookup_phase3(table_of(c, ty.prim), ty))
}

/// The typedef name the controller gives `ty`: none at the top level of a
/// structure declaration, nor for a record written out where it is used.
pub open spec fn controller_typedef(c: ControllerModel, ty: TypeModel, cfg: FormatterCfg, level: nat) -> Option<
    Seq<u8>,
> {
    if level == 0 && cfg.is_struct_decl {
        None
    } else if !controller_expands(c, ty) {
        typedef_of(table_of(c, ty.prim), ty)
    } else {
        None
    }
}

pub struct TypeController {
    pub structs: Table,
    pub unions: Table,
    pub has_unknown_func_ptrs: bool,
    pub has_unknown_blocks: bool,
}

impl View for TypeController {
    type V = ControllerModel;

    open spec fn view(&self) -> ControllerModel {
        ControllerModel {
            structs: self.structs@,
            unions: self.unions@,
            has_unknown_func_ptrs: self.has_unknown_func_ptrs,
            has_unknown_blocks: self.has_unknown_blocks,
        }
    }
}

impl TypeNamer for TypeController {
    open spec fn spec_typedef_name(&self, ty: TypeModel, cfg: FormatterCfg, level: nat) -> Option<Seq<u8>> {
        controller_typedef(self@, ty, cfg, level)
    }

    open spec fn spec_should_expand(&self, ty: TypeModel) -> bool {
        controller_expands(self@, ty)
    }

    fn typedef_name_for_structure(&self, ty: &CDType, cfg: &FormatterCfg, level: usize) -> (r: Option<Vec<u8>>) {
        if level == 0 && cfg.is_struct_decl {
            return None;
        }
        let table = self.table_for(ty);
        if !table.should_expand_type(ty) {
            return table.typedef_name_for_type(ty);
        }
        None
    }

    fn should_expand_type(&self, ty: &CDType) -> (r: bool) {
        self.table_for(ty).should_expand_type(ty)
    }
}

/// The types of copies of records.
fn types_of_infos(v: &Vec<Info>) -> (r: Vec<CDType>)
    ensures
        tys_view(r@) == types_of(infos_view(v@)),
{
    let mut r: Vec<CDType> = Vec::new();
    let mut i: usize = 0;
    while i < v.len()
        invariant
            i <= v@.len(),
            tys_view(r@) == types_of(infos_view(v@.subrange(0, i as int))),
        decreases v@.len() - i,
    {
        let t = v[i].ty.clone();
        proof {
            crate::typ::lemma_tys_view_push(r@, t);
            assert(types_of(infos_view(v@.subrange(0, i + 1))) =~= types_of(infos_view(v@.subrange(0, i as int))).push(
                t@,
            ));
        }
        r.push(t);
        i = i + 1;
    }
    assert(v@.subrange(0, v@.len() as int) =~= v@);
    r
}

impl TypeController {
    pub fn new() -> (c: TypeController)
        ensures
            c@ == (ControllerModel {
                structs: empty_table("CDStruct_".spec_bytes()),
                unions: empty_table("CDUnion_".spec_bytes()),
                has_unknown_func_ptrs: false,
                has_unknown_blocks: false,
            }),
    {
        TypeController {
            structs: Table::new("CDStruct_".as_bytes()),
            unions: Table::new("CDUnion_".as_bytes()),
            has_unknown_func_ptrs: false,
            has_unknown_blocks: false,
        }
    }

    fn table_for(&self, ty: &CDType) -> (r: &Table)
        ensures
            r@ == table_of(self@, ty.prim),
    {
        if ty.prim == ENC_UNION {
            &self.unions
        } else {
            &self.structs
        }
    }

    /// Phase 0 registration of a type met in a declaration (see `p0_walk`).
    pub fn register_type(&mut self, ty: &CDType, used_in_method: bool)
        ensures
            final(self)@ == p0_walk(old(self)@, ty@, used_in_method),
    {
        self.phase0_walk(ty, used_in_method);
    }

    fn phase0_walk(&mut self, ty: &CDType, used: bool)
        ensures
            final(self)@ == p0_walk(old(self)@, ty@, used),
        decreases ty,
    {
        match &ty.subtype {
            Some(s) => self.phase0_walk(s, used),
            None => {},
        }
        proof {
            crate::typ::lemma_tys_view(ty.members@);
        }
        if (ty.prim == ENC_STRUCT || ty.prim == ENC_UNION) && ty.members.len() > 0 {
            if ty.prim == ENC_UNION {
                self.unions.phase0_register(ty, used);
            } else {
                self.structs.phase0_register(ty, used);
            }
        } else if ty.prim == T_FUNCTION_POINTER {
            self.has_unknown_func_ptrs = true;
        } else if ty.prim == T_BLOCK && ty.block_types.is_none() {
            self.has_unknown_blocks = true;
        }
    }

    fn phase1_walk(&mut self, ty: &CDType)
        ensures
            final(self)@ == p1_walk(old(self)@, ty@),
        decreases ty,
    {
        match &ty.subtype {
            Some(s) => self.phase1_walk(s),
            None => {},
        }
        proof {
            crate::typ::lemma_tys_view(ty.members@);
        }
        if (ty.prim == ENC_STRUCT || ty.prim == ENC_UNION) && ty.members.len() > 0 {
            if ty.prim == ENC_UNION {
                self.unions.phase1_register(ty);
            } else {
                self.structs.phase1_register(ty);
            }
            let ghost ms = ty@.members;
            let ghost c0 = self@;
            let mut i: usize = 0;
            while i < ty.members.len()
                invariant
                    i <= ty.members@.len(),
                    ms == ty@.members,
                    ms.len() == ty.members@.len(),
                    forall|j: int| 0 <= j < ms.len() ==> #[trigger] ms[j] == ty.members@[j]@,
                    self@ == p1_walk_all(c0, ms.subrange(0, i as int)),
                decreases ty.members@.len() - i,
            {
                self.phase1_walk(&ty.members[i]);
                proof {
                    assert(ms.subrange(0, i + 1).drop_last() =~= ms.subrange(0, i as int));
                }
                i = i + 1;
            }
            assert(ms.subrange(0, ms.len() as int) =~= ms);
        }
    }

    /// Phase 1 over the types of phase 0, structs first.
    fn run_phase1(&mut self)
        ensures
            final(self)@ == p1_walk_all(
                old(self)@,
                types_of(values_of(old(self)@.structs.phase0)) + types_of(values_of(old(self)@.unions.phase0)),
            ),
    {
        let st = types_of_infos(&self.structs.phase0.values());
        let ut = types_of_infos(&self.unions.phase0.values());
        let ghost c0 = self@;
        let ghost all = tys_view(st@) + tys_view(ut@);
        proof {
            crate::typ::lemma_tys_view(st@);
            crate::typ::lemma_tys_view(ut@);
        }
        let mut i: usize = 0;
        while i < st.len()
            invariant
                i <= st@.len(),
                all == tys_view(st@) + tys_view(ut@),
                tys_view(st@).len() == st@.len(),
                forall|j: int| 0 <= j < st@.len() ==> #[trigger] all[j] == st@[j]@,
                self@ == p1_walk_all(c0, all.subrange(0, i as int)),
            decreases st@.len() - i,
        {
            self.phase1_walk(&st[i]);
            proof {
                assert(all.subrange(0, i + 1).drop_last() =~= all.subrange(0, i as int));
            }
            i = i + 1;
        }
        let mut j: usize = 0;
        while j < ut.len()
            invariant
                j <= ut@.len(),
                all == tys_view(st@) + tys_view(ut@),
                tys_view(st@).len() == st@.len(),
                tys_view(ut@).len() == ut@.len(),
                forall|k: int| 0 <= k < ut@.len() ==> #[trigger] all[st@.len() + k] == ut@[k]@,
                self@ == p1_walk_all(c0, all.subrange(0, st@.len() + j)),
            decreases ut@.len() - j,
        {
            self.phase1_walk(&ut[j]);
            proof {
                assert(all.subrange(0, st@.len() + j + 1).drop_last() =~= all.subrange(0, st@.len() + j));
            }
            j = j + 1;
        }
        assert(all.subrange(0, all.len() as int) =~= all);
    }

    /// Merge `ty` with the replacements of phase 2 or 3 (see `merge_walk`).
    fn merge_with_table(&self, ty: &CDType, phase3: bool) -> (r: CDType)
        ensures
            r@ == merge_walk(self@, ty@, phase3),
        decreases ty,
    {
        let mut r = ty.clone();
        match &ty.subtype {
            Some(s) => {
                r.subtype = Some(Box::new(self.merge_with_table(s, phase3)));
            },
            None => {},
        }
        let ghost ms = ty@.members;
        proof {
            crate::typ::lemma_tys_view(ty.members@);
        }
        let mut members: Vec<CDType> = Vec::new();
        let mut i: usize = 0;
        while i < ty.members.len()
            invariant
                i <= ty.members@.len(),
                ms == ty@.members,
                ms.len() == ty.members@.len(),
                forall|j: int| 0 <= j < ms.len() ==> #[trigger] ms[j] == ty.members@[j]@,
                tys_view(members@) == merge_walk_all(self@, ms.subrange(0, i as int), phase3),
            decreases ty.members@.len() - i,
        {
            let m = self.merge_with_table(&ty.members[i], phase3);
            proof {
                crate::typ::lemma_tys_view_push(members@, m);
                assert(ms.subrange(0, i + 1).drop_last() =~= ms.subrange(0, i as int));
            }
            members.push(m);
            i = i + 1;
        }
        assert(ms.subrange(0, ms.len() as int) =~= ms);
        r.members = members;
        proof {
            crate::typ::lemma_tys_view(r.members@);
        }
        if (r.prim == ENC_STRUCT || r.prim == ENC_UNION) && r.members.len() > 0 {
            let table = self.table_for(&r);
            let repl = if phase3 { table.phase3_replacement(&r) } else { table.phase2_replacement(&r) };
            match repl {
                Some(x) => {
                    if r.can_merge_with(&x) {
                        r.merge_with(&x);
                    }
                },
                None => {},
            }
        }
        r
    }
}

/// The records of `v` at record depth `d`, merged with their phase-2
/// replacements.
pub open spec fn at_depth(c: ControllerModel, v: Seq<InfoModel>, d: nat) -> Seq<InfoModel>
    decreases v.len(),
{
    if v.len() == 0 {
        Seq::empty()
    } else {
        let prev = at_depth(c, v.drop_last(), d);
        let i = v.last();
        if clamp(depth(i.ty)) == d {
            prev.push(InfoModel { ty: merge_walk(c, i.ty, false), ..i })
        } else {
            prev
        }
    }
}

/// Groups of records by key, in order of first appearance.
pub type Groups = Seq<(Seq<u8>, Seq<InfoModel>)>;

pub open spec fn group_has(k: Seq<u8>) -> spec_fn((Seq<u8>, Seq<InfoModel>)) -> bool {
    |g: (Seq<u8>, Seq<InfoModel>)| g.0 == k
}

pub open spec fn add_to_groups(gs: Groups, k: Seq<u8>, i: InfoModel) -> Groups {
    match first_index(gs, group_has(k)) {
        Some(j) => gs.update(j, (k, gs[j].1.push(i))),
        None => gs.push((k, seq![i])),
    }
}

/// Is a record anonymous (tag `?`)?
pub open spec fn is_anon(i: InfoModel) -> bool {
    tag_of(i.ty) == crate::table::anon_tag()
}

/// The key of a record's group: its bare encoding if anonymous, else its tag.
pub open spec fn group_key(i: InfoModel) -> Seq<u8> {
    if is_anon(i) {
        bare_string(i.ty)
    } else {
        tag_of(i.ty)
    }
}

/// The anonymous (or the named) records of `v`, grouped by key.
pub open spec fn groups_of(v: Seq<InfoModel>, anon: bool) -> Groups
    decreases v.len(),
{
    if v.len() == 0 {
        Seq::empty()
    } else {
        let prev = groups_of(v.drop_last(), anon);
        let i = v.last();
        if is_anon(i) == anon {
            add_to_groups(prev, group_key(i), i)
        } else {
            prev
        }
    }
}

/// Phase 2 for the first `n` groups of named records: a group that merges
/// into one record is registered under its tag, unless the tag already has
/// one, when both become exceptions; a group that does not merge becomes
/// exceptions.
pub open spec fn apply_named(t: TableModel, gs: Groups, n: nat) -> TableModel
    decreases n,
{
    if n == 0 || n > gs.len() {
        t
    } else {
        let t0 = apply_named(t, gs, (n - 1) as nat);
        let key = gs[n - 1].0;
        let group = gs[n - 1].1;
        match combined(group, group.len()) {
            Some(c) => match lookup(t0.phase2_named, key) {
                Some(prev) => TableModel {
                    phase2_named: remove_key(t0.phase2_named, key),
                    phase2_name_exceptions: t0.phase2_name_exceptions.push(prev).push(c),
                    ..t0
                },
                None => TableModel { phase2_named: upsert(t0.phase2_named, key, c), ..t0 },
            },
            None => TableModel { phase2_name_exceptions: t0.phase2_name_exceptions + group, ..t0 },
        }
    }
}

/// Phase 2 for the first `n` groups of anonymous records: a group that
/// merges is registered under its bare encoding, else it becomes exceptions.
pub open spec fn apply_anon(t: TableModel, gs: Groups, n: nat) -> TableModel
    decreases n,
{
    if n == 0 || n > gs.len() {
        t
    } else {
        let t0 = apply_anon(t, gs, (n - 1) as nat);
        let key = gs[n - 1].0;
        let group = gs[n - 1].1;
        match combined(group, group.len()) {
            Some(c) => TableModel { phase2_anon: upsert(t0.phase2_anon, key, c), ..t0 },
            None => TableModel { phase2_anon_exceptions: t0.phase2_anon_exceptions + group, ..t0 },
        }
    }
}

/// Phase 2 at record depth `d` for the structs or the unions.
pub open spec fn p2_depth(c: ControllerModel, d: nat, union: bool) -> ControllerModel {
    let prim = if union { ENC_UNION } else { ENC_STRUCT };
    let t = table_of(c, prim);
    let infos = at_depth(c, values_of(t.phase1), d);
    let named = groups_of(infos, false);
    let anon = groups_of(infos, true);
    set_table(c, prim, apply_anon(apply_named(t, named, named.len()), anon, anon.len()))
}

pub struct Group {
    pub key: Vec<u8>,
    pub infos: Vec<Info>,
}

pub open spec fn groups_view(gs: Seq<Group>) -> Groups {
    gs.map_values(|g: Group| (g.key@, infos_view(g.infos@)))
}

/// Add `info` to the group of `key` (see `add_to_groups`).
fn add_to_group(gs: &mut Vec<Group>, key: Vec<u8>, info: Info)
    ensures
        groups_view(final(gs)@) == add_to_groups(groups_view(old(gs)@), key@, info@),
{
    let ghost g0 = groups_view(gs@);
    let mut j: usize = 0;
    while j < gs.len()
        invariant
            j <= gs@.len(),
            g0 == groups_view(gs@),
            gs@ == old(gs)@,
            forall|k: int| 0 <= k < j ==> !group_has(key@)(#[trigger] g0[k]),
        decreases gs@.len() - j,
    {
        if bytes_eq(gs[j].key.as_slice(), key.as_slice()) {
            proof {
                lemma_first_index_at(g0, group_has(key@), j as int);
            }
            let mut infos = clone_infos(&gs[j].infos);
            let ghost iv = info@;
            infos.push(info);
            let ghost kv = key@;
            gs.set(j, Group { key, infos });
            proof {
                assert(infos_view(gs@[j as int].infos@) =~= g0[j as int].1.push(iv));
                assert(groups_view(gs@) =~= add_to_groups(g0, kv, iv));
            }
            return;
        }
        j = j + 1;
    }
    proof {
        lemma_first_index_at(g0, group_has(key@), j as int);
    }
    let ghost kv = key@;
    let ghost iv = info@;
    let mut infos: Vec<Info> = Vec::new();
    infos.push(info);
    gs.push(Group { key, infos });
    assert(infos_view(gs@[gs@.len() - 1].infos@) =~= seq![iv]);
    assert(groups_view(gs@) =~= add_to_groups(g0, kv, iv));
}

impl TypeController {
    /// Phase 2 at record depth `depth` (see `p2_depth`).
    fn run_phase2_at_depth(&mut self, depth: usize, is_union: bool)
        ensures
            final(self)@ == p2_depth(old(self)@, depth as nat, is_union),
    {
        let ghost c0 = self@;
        let all = if is_union { self.unions.phase1.values() } else { self.structs.phase1.values() };
        let ghost av = infos_view(all@);
        let mut named: Vec<Group> = Vec::new();
        let mut anon: Vec<Group> = Vec::new();
        let mut i: usize = 0;
        while i < all.len()
            invariant
                self@ == c0,
                i <= all@.len(),
                av == infos_view(all@),
                groups_view(named@) == groups_of(at_depth(c0, av.subrange(0, i as int), depth as nat), false),
                groups_view(anon@) == groups_of(at_depth(c0, av.subrange(0, i as int), depth as nat), true),
            decreases all@.len() - i,
        {
            let ghost sub = av.subrange(0, i + 1);
            proof {
                assert(sub.drop_last() =~= av.subrange(0, i as int));
                assert(sub.last() == all@[i as int]@);
            }
            if all[i].ty.structure_depth() == depth {
                let mut info = all[i].clone();
                info.ty = self.merge_with_table(&all[i].ty, false);
                proof {
                    let prev = at_depth(c0, av.subrange(0, i as int), depth as nat);
                    assert(at_depth(c0, sub, depth as nat) == prev.push(info@));
                    assert(prev.push(info@).drop_last() =~= prev);
                }
                let name = info.ty.type_name_description();
                if bytes_eq(name.as_slice(), "?".as_bytes()) {
                    let key = info.ty.really_bare_type_string();
                    add_to_group(&mut anon, key, info);
                } else {
                    add_to_group(&mut named, name, info);
                }
            }
            i = i + 1;
        }
        assert(av.subrange(0, av.len() as int) =~= av);
        let table = if is_union { &mut self.unions } else { &mut self.structs };
        let ghost t0 = table@;
        let ghost nv = groups_view(named@);
        let mut g: usize = 0;
        while g < named.len()
            invariant
                g <= named@.len(),
                nv == groups_view(named@),
                table@ == apply_named(t0, nv, g as nat),
            decreases named@.len() - g,
        {
            let key = to_vec(named[g].key.as_slice());
            let ghost before = table@;
            let ghost group = nv[g as int].1;
            proof {
                assert(nv[g as int] == (named@[g as int].key@, infos_view(named@[g as int].infos@)));
                assert(group.len() == named@[g as int].infos@.len());
            }
            match crate::table::combine(&named[g].infos) {
                Some(c) => {
                    if table.phase2_named.contains_key(key.as_slice()) {
                        match table.phase2_named.remove(key.as_slice()) {
                            Some(prev) => {
                                proof {
                                    lemma_infos_view_push(table.phase2_name_exceptions@, prev);
                                }
                                table.phase2_name_exceptions.push(prev);
                            },
                            None => {},
                        }
                        proof {
                            lemma_infos_view_push(table.phase2_name_exceptions@, c);
                        }
                        table.phase2_name_exceptions.push(c);
                        assert(table@ == apply_named(t0, nv, (g + 1) as nat));
                    } else {
                        table.phase2_named.insert(key, c);
                        assert(table@ == apply_named(t0, nv, (g + 1) as nat));
                    }
                },
                None => {
                    let more = clone_infos(&named[g].infos);
                    let mut k: usize = 0;
                    let ghost e0 = table.phase2_name_exceptions@;
                    while k < more.len()
                        invariant
                            k <= more@.len(),
                            table@ == (TableModel { phase2_name_exceptions: table@.phase2_name_exceptions, ..before }),
                            infos_view(table.phase2_name_exceptions@) == infos_view(e0) + infos_view(more@.subrange(0, k as int)),
                        decreases more@.len() - k,
                    {
                        let x = more[k].clone();
                        proof {
                            lemma_infos_view_push(table.phase2_name_exceptions@, x);
                        }
                        table.phase2_name_exceptions.push(x);
                        assert(infos_view(more@.subrange(0, k + 1)) =~= infos_view(more@.subrange(0, k as int)).push(more@[k as int]@));
                        k = k + 1;
                    }
                    assert(more@.subrange(0, more@.len() as int) =~= more@);
                    assert(table@ == apply_named(t0, nv, (g + 1) as nat));
                },
            }
            g = g + 1;
        }
        let ghost t1 = table@;
        let ghost avv = groups_view(anon@);
        let mut h: usize = 0;
        while h < anon.len()
            invariant
                h <= anon@.len(),
                avv == groups_view(anon@),
                table@ == apply_anon(t1, avv, h as nat),
            decreases anon@.len() - h,
        {
            let key = to_vec(anon[h].key.as_slice());
            let ghost before = table@;
            proof {
                assert(avv[h as int] == (anon@[h as int].key@, infos_view(anon@[h as int].infos@)));
            }
            match crate::table::combine(&anon[h].infos) {
                Some(c) => {
                    table.phase2_anon.insert(key, c);
                },
                None => {
                    let more = clone_infos(&anon[h].infos);
                    let mut k: usize = 0;
                    let ghost e0 = table.phase2_anon_exceptions@;
                    while k < more.len()
                        invariant
                            k <= more@.len(),
                            table@ == (TableModel { phase2_anon_exceptions: table@.phase2_anon_exceptions, ..before }),
                            infos_view(table.phase2_anon_exceptions@) == infos_view(e0) + infos_view(more@.subrange(0, k as int)),
                        decreases more@.len() - k,
                    {
                        let x = more[k].clone();
                        proof {
                            lemma_infos_view_push(table.phase2_anon_exceptions@, x);
                        }
                        table.phase2_anon_exceptions.push(x);
                        assert(infos_view(more@.subrange(0, k + 1)) =~= infos_view(more@.subrange(0, k as int)).push(more@[k as int]@));
                        k = k + 1;
                    }
                    assert(more@.subrange(0, more@.len() as int) =~= more@);
                },
            }
            h = h + 1;
        }
    }
}

/// Phase-0 records with their types merged with the phase-2 replacements.
pub open spec fn merge_phase0(c: ControllerModel, m: DictModel) -> DictModel {
    m.map_values(|p: (Seq<u8>, InfoModel)| (p.0, InfoModel { ty: merge_walk(c, p.1.ty, false), ..p.1 }))
}

/// Phase 2 applied to the records of phase 0.
pub open spec fn p2_on_phase0(c: ControllerModel) -> ControllerModel {
    ControllerModel {
        structs: TableModel { phase0: merge_phase0(c, c.structs.phase0), ..c.structs },
        unions: TableModel { phase0: merge_phase0(c, c.unions.phase0), ..c.unions },
        ..c
    }
}

/// A record's counts cleared.
pub open spec fn reset(i: InfoModel) -> InfoModel {
    InfoModel { reference_count: 0, is_used_in_method: false, ..i }
}

/// `ns` with `n` added if missing.
pub open spec fn add_name(ns: Seq<Seq<u8>>, n: Seq<u8>) -> Seq<Seq<u8>> {
    if ns.contains(n) {
        ns
    } else {
        ns.push(n)
    }
}

/// The first `k` phase-2 name exceptions moved to phase 3 (by full
/// encoding, counts cleared), their tags noted as exceptional.
pub open spec fn move_name_exceptions(t: TableModel, k: nat) -> TableModel
    decreases k,
{
    if k == 0 || k > t.phase2_name_exceptions.len() {
        t
    } else {
        let t0 = move_name_exceptions(t, (k - 1) as nat);
        let ni = reset(t.phase2_name_exceptions[k - 1]);
        TableModel {
            exceptional_names: add_name(t0.exceptional_names, tag_of(ni.ty)),
            phase3_name_exceptions: upsert(t0.phase3_name_exceptions, full_string(ni.ty), ni),
            ..t0
        }
    }
}

/// The first `k` phase-2 anonymous exceptions moved to phase 3.
pub open spec fn move_anon_exceptions(t: TableModel, k: nat) -> TableModel
    decreases k,
{
    if k == 0 || k > t.phase2_anon_exceptions.len() {
        t
    } else {
        let t0 = move_anon_exceptions(t, (k - 1) as nat);
        let ni = reset(t.phase2_anon_exceptions[k - 1]);
        TableModel { phase3_anon_exceptions: upsert(t0.phase3_anon_exceptions, full_string(ni.ty), ni), ..t0 }
    }
}

/// Moving name exceptions leaves the anonymous ones alone.
proof fn lemma_move_names_keeps_anon(t: TableModel, k: nat)
    ensures
        move_name_exceptions(t, k).phase2_anon_exceptions == t.phase2_anon_exceptions,
    decreases k,
{
    if k > 0 && k <= t.phase2_name_exceptions.len() {
        lemma_move_names_keeps_anon(t, (k - 1) as nat);
    }
}

/// All phase-2 exceptions of a table moved to phase 3.
pub open spec fn table_exceptions(t: TableModel) -> TableModel {
    let t1 = move_anon_exceptions(move_name_exceptions(t, t.phase2_name_exceptions.len()), t.phase2_anon_exceptions.len());
    TableModel { phase2_name_exceptions: Seq::empty(), phase2_anon_exceptions: Seq::empty(), ..t1 }
}

pub open spec fn build_exceptions(c: ControllerModel) -> ControllerModel {
    ControllerModel { structs: table_exceptions(c.structs), unions: table_exceptions(c.unions), ..c }
}

/// Phase 3 registration of a record met `count` times, and of its members
/// when the table asks for them.
pub open spec fn dispatch(c: ControllerModel, t: TypeModel, count: nat, used: bool) -> ControllerModel
    decreases t, 0nat,
{
    let (t2, reg) = p3_register(table_of(c, t.prim), t, count, used);
    let c1 = set_table(c, t.prim, t2);
    if reg {
        register_all(c1, t.members)
    } else {
        c1
    }
}

/// Phase 3 registration of a member: its pointed-to type, then the member
/// itself if it is a record.
pub open spec fn register_with(c: ControllerModel, t: TypeModel) -> ControllerModel
    decreases t, 1nat,
{
    let c1 = match t.subtype {
        Some(s) => register_with(c, *s),
        None => c,
    };
    if is_record(t.prim) {
        dispatch(c1, t, 1, false)
    } else {
        c1
    }
}

pub open spec fn register_all(c: ControllerModel, ms: Seq<TypeModel>) -> ControllerModel
    decreases ms, 0nat,
{
    if ms.len() == 0 {
        c
    } else {
        register_with(register_all(c, ms.drop_last()), ms.last())
    }
}

/// Phase 3 registration of phase-0 records, in order.
pub open spec fn dispatch_all(c: ControllerModel, v: Seq<InfoModel>) -> ControllerModel
    decreases v.len(),
{
    if v.len() == 0 {
        c
    } else {
        let i = v.last();
        dispatch(dispatch_all(c, v.drop_last()), i.ty, i.reference_count, i.is_used_in_method)
    }
}

/// `ss` and `us` are the phase-0 structs and unions of `c`, each sorted by
/// `info_lt`, and `c2` is `c` after registering them in that order.
/// Phase 3: every record of phase 0, structs before unions, each table's
/// records in sorted order, registered with its merged replacement.
pub open spec fn phase3(c: ControllerModel) -> ControllerModel {
    dispatch_all(c, sorted_records(values_of(c.structs.phase0)) + sorted_records(values_of(c.unions.phase0)))
}

impl TypeController {
    fn merged_phase0(&self, d: &Dict) -> (r: Dict)
        ensures
            r@ == merge_phase0(self@, d@),
    {
        let mut entries: Vec<crate::dict::Entry> = Vec::new();
        let mut i: usize = 0;
        while i < d.entries.len()
            invariant
                i <= d.entries@.len(),
                entries@.len() == i,
                forall|j: int| 0 <= j < i ==> #[trigger] crate::dict::entries_view(entries@)[j] == merge_phase0(self@, d@)[j],
            decreases d.entries@.len() - i,
        {
            let mut info = d.entries[i].info.clone();
            info.ty = self.merge_with_table(&d.entries[i].info.ty, false);
            let ghost before = entries@;
            entries.push(crate::dict::Entry { key: to_vec(d.entries[i].key.as_slice()), info });
            proof {
                assert(d@[i as int] == (d.entries@[i as int].key@, d.entries@[i as int].info@));
                assert(crate::dict::entries_view(entries@)[i as int] == merge_phase0(self@, d@)[i as int]);
                assert forall|j: int| 0 <= j < i + 1 implies #[trigger] crate::dict::entries_view(entries@)[j]
                    == merge_phase0(self@, d@)[j] by {
                    if j < i {
                        assert(entries@[j] == before[j]);
                        assert(crate::dict::entries_view(before)[j] == merge_phase0(self@, d@)[j]);
                    }
                }
            }
            i = i + 1;
        }
        let r = Dict { entries };
        assert(r@ =~= merge_phase0(self@, d@));
        r
    }

    /// Phase 2 applied to the records of phase 0 (see `p2_on_phase0`).
    fn phase2_replacement_on_phase0(&mut self)
        ensures
            final(self)@ == p2_on_phase0(old(self)@),
    {
        let s0 = self.merged_phase0(&self.structs.phase0);
        let u0 = self.merged_phase0(&self.unions.phase0);
        self.structs.phase0 = s0;
        self.unions.phase0 = u0;
    }
}

impl Table {
    /// See `table_exceptions`.
    fn build_exceptions(&mut self)
        ensures
            final(self)@ == table_exceptions(old(self)@),
    {
        let ghost t0 = self@;
        let name_exc = clone_infos(&self.phase2_name_exceptions);
        let mut i: usize = 0;
        while i < name_exc.len()
            invariant
                i <= name_exc@.len(),
                infos_view(name_exc@) == t0.phase2_name_exceptions,
                self@ == move_name_exceptions(t0, i as nat),
            decreases name_exc@.len() - i,
        {
            let mut ni = name_exc[i].clone();
            ni.reference_count = 0;
            ni.is_used_in_method = false;
            let name = ni.ty.type_name_description();
            if !crate::table::contains_name(&self.phase3_exceptional_names, name.as_slice()) {
                let ghost before = self.phase3_exceptional_names@;
                let ghost nv = name@;
                self.phase3_exceptional_names.push(name);
                assert(crate::typ::names_of(self.phase3_exceptional_names@) =~= crate::typ::names_of(before).push(nv));
            }
            let key = ni.ty.type_string();
            self.phase3_name_exceptions.insert(key, ni);
            i = i + 1;
        }
        let ghost t1 = self@;
        proof {
            lemma_move_names_keeps_anon(t0, t0.phase2_name_exceptions.len());
        }
        let anon_exc = clone_infos(&self.phase2_anon_exceptions);
        let mut j: usize = 0;
        while j < anon_exc.len()
            invariant
                j <= anon_exc@.len(),
                infos_view(anon_exc@) == t1.phase2_anon_exceptions,
                self@ == move_anon_exceptions(t1, j as nat),
            decreases anon_exc@.len() - j,
        {
            let mut ni = anon_exc[j].clone();
            ni.reference_count = 0;
            ni.is_used_in_method = false;
            let key = ni.ty.type_string();
            self.phase3_anon_exceptions.insert(key, ni);
            j = j + 1;
        }
        self.phase2_name_exceptions = Vec::new();
        self.phase2_anon_exceptions = Vec::new();
        proof {
            assert(infos_view(self.phase2_name_exceptions@) =~= Seq::<InfoModel>::empty());
            assert(infos_view(self.phase2_anon_exceptions@) =~= Seq::<InfoModel>::empty());
        }
    }
}

impl TypeController {
    /// Phase 3 registration of a record met `count` times (see `dispatch`).
    fn phase3_register_dispatch(&mut self, ty: &CDType, count: usize, used: bool)
        ensures
            final(self)@ == dispatch(old(self)@, ty@, count as nat, used),
        decreases ty, 0nat,
    {
        let register_members = if ty.prim == ENC_UNION {
            self.unions.phase3_register(ty, count, used)
        } else {
            self.structs.phase3_register(ty, count, used)
        };
        if register_members {
            let ghost ms = ty@.members;
            let ghost c1 = self@;
            proof {
                crate::typ::lemma_tys_view(ty.members@);
            }
            let mut i: usize = 0;
            while i < ty.members.len()
                invariant
                    i <= ty.members@.len(),
                    ms == ty@.members,
                    ms.len() == ty.members@.len(),
                    forall|j: int| 0 <= j < ms.len() ==> #[trigger] ms[j] == ty.members@[j]@,
                    self@ == register_all(c1, ms.subrange(0, i as int)),
                decreases ty.members@.len() - i,
            {
                self.phase3_register_with(&ty.members[i]);
                proof {
                    assert(ms.subrange(0, i + 1).drop_last() =~= ms.subrange(0, i as int));
                }
                i = i + 1;
            }
            assert(ms.subrange(0, ms.len() as int) =~= ms);
        }
    }

    /// See `register_with`.
    fn phase3_register_with(&mut self, ty: &CDType)
        ensures
            final(self)@ == register_with(old(self)@, ty@),
        decreases ty, 1nat,
    {
        match &ty.subtype {
            Some(s) => self.phase3_register_with(s),
            None => {},
        }
        if ty.prim == ENC_STRUCT || ty.prim == ENC_UNION {
            self.phase3_register_dispatch(ty, 1, false);
        }
    }

    /// Phase 3 over the phase-0 records, structs then unions, each sorted
    /// by depth (see `phase3_outcome`).
    fn run_phase3(&mut self)
        ensures
            final(self)@ == phase3(old(self)@),
    {
        let ss = depth_sort(&self.structs.phase0.values());
        let us = depth_sort(&self.unions.phase0.values());
        let ghost c0 = self@;
        let ghost all = infos_view(ss@) + infos_view(us@);
        let mut i: usize = 0;
        while i < ss.len()
            invariant
                i <= ss@.len(),
                all == infos_view(ss@) + infos_view(us@),
                forall|j: int| 0 <= j < ss@.len() ==> #[trigger] all[j] == ss@[j]@,
                self@ == dispatch_all(c0, all.subrange(0, i as int)),
            decreases ss@.len() - i,
        {
            self.phase3_register_dispatch(&ss[i].ty, ss[i].reference_count, ss[i].is_used_in_method);
            proof {
                assert(all.subrange(0, i + 1).drop_last() =~= all.subrange(0, i as int));
            }
            i = i + 1;
        }
        let mut j: usize = 0;
        while j < us.len()
            invariant
                j <= us@.len(),
                all == infos_view(ss@) + infos_view(us@),
                forall|k: int| 0 <= k < us@.len() ==> #[trigger] all[ss@.len() + k] == us@[k]@,
                self@ == dispatch_all(c0, all.subrange(0, ss@.len() + j)),
            decreases us@.len() - j,
        {
            self.phase3_register_dispatch(&us[j].ty, us[j].reference_count, us[j].is_used_in_method);
            proof {
                assert(all.subrange(0, ss@.len() + j + 1).drop_last() =~= all.subrange(0, ss@.len() + j));
            }
            j = j + 1;
        }
        assert(all.subrange(0, all.len() as int) =~= all);
    }
}

/// Phase 2 at depths `1..=m`, structs before unions at each depth.
pub open spec fn p2_all_depths(c: ControllerModel, m: nat) -> ControllerModel
    decreases m,
{
    if m == 0 {
        c
    } else {
        let c0 = p2_all_depths(c, (m - 1) as nat);
        p2_depth(p2_depth(c0, m, false), m, true)
    }
}

/// The largest record depth seen in phase 1 of a table.
pub open spec fn finished_phase1(t: TableModel) -> TableModel {
    TableModel { max_depth: max_depth_of(values_of(t.phase1), t.max_depth), ..t }
}

/// Phases 1 and 2, and the moves that prepare phase 3.
pub open spec fn before_phase3(c0: ControllerModel) -> ControllerModel {
    let c1 = p1_walk_all(c0, types_of(values_of(c0.structs.phase0)) + types_of(values_of(c0.unions.phase0)));
    let c2 = ControllerModel { structs: finished_phase1(c1.structs), unions: finished_phase1(c1.unions), ..c1 };
    let m = if c2.structs.max_depth < c2.unions.max_depth { c2.unions.max_depth } else { c2.structs.max_depth };
    build_exceptions(p2_on_phase0(p2_all_depths(c2, m)))
}

/// Typedef names, then member names, in both tables.
pub open spec fn after_phase3(c: ControllerModel) -> ControllerModel {
    ControllerModel {
        structs: with_member_names(with_typedef_names(c.structs)),
        unions: with_member_names(with_typedef_names(c.unions)),
        ..c
    }
}

/// What `work_some_magic` makes of `c0`.
pub open spec fn magic(c0: ControllerModel) -> ControllerModel {
    after_phase3(phase3(before_phase3(c0)))
}

impl TypeController {
    /// All phases after registration: merge the records, decide their
    /// names, and generate member names (see `magic`).
    pub fn work_some_magic(&mut self)
        ensures
            final(self)@ == magic(old(self)@),
    {
        let ghost c0 = self@;
        self.run_phase1();
        self.structs.finish_phase1();
        self.unions.finish_phase1();
        let max_depth = if self.structs.phase1_max_depth < self.unions.phase1_max_depth {
            self.unions.phase1_max_depth
        } else {
            self.structs.phase1_max_depth
        };
        let ghost c2 = self@;
        let mut depth: usize = 1;
        while depth <= max_depth
            invariant_except_break
                1 <= depth,
                depth <= max_depth + 1,
                self@ == p2_all_depths(c2, (depth - 1) as nat),
            ensures
                self@ == p2_all_depths(c2, max_depth as nat),
            decreases max_depth + 1 - depth,
        {
            self.run_phase2_at_depth(depth, false);
            self.run_phase2_at_depth(depth, true);
            if depth == usize::MAX {
                break;
            }
            depth = depth + 1;
        }
        self.phase2_replacement_on_phase0();
        self.structs.build_exceptions();
        self.unions.build_exceptions();
        let ghost c5 = self@;
        assert(c5 == before_phase3(c0));
        self.run_phase3();
        self.structs.generate_typedef_names();
        self.unions.generate_typedef_names();
        self.structs.generate_member_names();
        self.unions.generate_member_names();
    }
}

/// The layout of structure declarations: written out in full.
pub open spec fn decl_cfg() -> FormatterCfg {
    FormatterCfg { should_expand: true, should_auto_expand: true, base_level: 0, is_struct_decl: true }
}

/// A declaration of a variable `name` of type `ty`: `BOOL` for `char`,
/// else the type merged with its phase-3 replacements and formatted.
#[verifier::opaque]
pub open spec fn fmt_variable(nm: Naming, c: ControllerModel, name: Option<Seq<u8>>, ty: TypeModel, cfg: FormatterCfg) -> Seq<u8> {
    indent(cfg.base_level as nat) + if ty.prim == ENC_CHAR {
        match name {
            None => "BOOL".spec_bytes(),
            Some(n) => "BOOL ".spec_bytes() + n,
        }
    } else {
        fmt(nm, merge_walk(c, TypeModel { variable_name: name, ..ty }, true), None, cfg, 0)
    }
}

/// Which records a list of declarations shows.
pub enum Shown {
    /// Those not written out where they are used.
    Referenced,
    /// Template records used in a method.
    Templates,
}

pub open spec fn shows(kind: Shown, i: InfoModel) -> bool {
    match kind {
        Shown::Referenced => !expands(Some(i)),
        Shown::Templates => tag_of(i.ty).contains(crate::typ::LT) && i.is_used_in_method,
    }
}

/// `#pragma mark` and a title.
pub open spec fn mark_line(mark: Seq<u8>) -> Seq<u8> {
    "#pragma mark ".spec_bytes() + mark + "\n\n".spec_bytes()
}

/// One declaration: plain (`decl;`) or a typedef (`typedef decl Name;`).
#[verifier::opaque]
pub open spec fn decl_text(nm: Naming, c: ControllerModel, i: InfoModel, as_typedef: bool) -> Seq<u8> {
    let d = fmt_variable(nm, c, None, i.ty, decl_cfg());
    if as_typedef {
        "typedef ".spec_bytes() + d + " ".spec_bytes() + or_empty(i.typedef_name) + ";\n\n".spec_bytes()
    } else {
        d + ";\n\n".spec_bytes()
    }
}

/// The declarations of the first `k` records of `infos` that `kind` shows:
/// the mark before the first one of the section (unless `added`), the
/// `header` before the first one of this list; returns the text and
/// whether the mark and the header were written.
pub open spec fn emit(
    nm: Naming,
    c: ControllerModel,
    infos: Seq<InfoModel>,
    k: nat,
    kind: Shown,
    as_typedef: bool,
    mark: Seq<u8>,
    header: Seq<u8>,
    added: bool,
) -> (Seq<u8>, bool, bool)
    decreases k,
{
    if k == 0 || k > infos.len() {
        (Seq::empty(), added, false)
    } else {
        let (t, a, h) = emit(nm, c, infos, (k - 1) as nat, kind, as_typedef, mark, header, added);
        let i = infos[k - 1];
        if shows(kind, i) {
            let m = if a { Seq::empty() } else { mark_line(mark) };
            let hd = if h { Seq::empty() } else { header };
            (t + m + hd + decl_text(nm, c, i, as_typedef), true, true)
        } else {
            (t, a, h)
        }
    }
}

/// The records of `m` under `keys`, in that order.
pub open spec fn infos_at(m: DictModel, keys: Seq<Seq<u8>>) -> Seq<InfoModel> {
    keys.map_values(|k: Seq<u8>| lookup(m, k).unwrap())
}

/// The orders in which a table's records are declared.
pub struct TableOrder {
    pub named_keys: Seq<Seq<u8>>,
    pub name_exceptions: Seq<InfoModel>,
    pub anon: Seq<InfoModel>,
    pub anon_exceptions: Seq<InfoModel>,
}

/// Named records by tag, the others sorted by `info_lt`.
pub open spec fn order_ok(t: TableModel, o: TableOrder) -> bool {
    &&& sorted_bytes(o.named_keys)
    &&& o.named_keys.to_multiset() == keys_of(t.phase3_named).to_multiset()
    &&& sorted_infos(o.name_exceptions)
    &&& o.name_exceptions.to_multiset() == values_of(t.phase3_name_exceptions).to_multiset()
    &&& sorted_infos(o.anon)
    &&& o.anon.to_multiset() == values_of(t.phase3_anon).to_multiset()
    &&& sorted_infos(o.anon_exceptions)
    &&& o.anon_exceptions.to_multiset() == values_of(t.phase3_anon_exceptions).to_multiset()
}

/// The named records of a table that are not written out where they are
/// used, then its conflicting names inside `#if 0`.
#[verifier::opaque]
pub open spec fn named_text(nm: Naming, c: ControllerModel, t: TableModel, o: TableOrder, mark: Seq<u8>) -> Seq<u8> {
    let (t1, a1, _h1) = emit(nm, c, infos_at(t.phase3_named, o.named_keys), o.named_keys.len(), Shown::Referenced, false, mark, Seq::empty(), false);
    let hdr = "#if 0\n// Names with conflicting types:\n".spec_bytes();
    let (t2, _a2, h2) = emit(nm, c, o.name_exceptions, o.name_exceptions.len(), Shown::Referenced, true, mark, hdr, a1);
    t1 + t2 + if h2 { "#endif\n\n".spec_bytes() } else { Seq::empty() }
}

/// The typedefs of a table: anonymous records, ambiguous groups, and named
/// template records used in methods.
#[verifier::opaque]
pub open spec fn typedefs_text(nm: Naming, c: ControllerModel, t: TableModel, o: TableOrder, mark: Seq<u8>) -> Seq<u8> {
    let (t1, a1, _h1) = emit(nm, c, o.anon, o.anon.len(), Shown::Referenced, true, mark, Seq::empty(), false);
    let (t2, a2, _h2) = emit(nm, c, o.anon_exceptions, o.anon_exceptions.len(), Shown::Referenced, true, mark, "// Ambiguous groups\n".spec_bytes(), a1);
    let (t3, _a3, _h3) = emit(nm, c, infos_at(t.phase3_named, o.named_keys), o.named_keys.len(), Shown::Templates, true, mark, Seq::empty(), a2);
    t1 + t2 + t3
}

/// The typedefs of unknown function pointers and blocks.
#[verifier::opaque]
pub open spec fn unknown_types_text(c: ControllerModel) -> Seq<u8> {
    let f = c.has_unknown_func_ptrs;
    let b = c.has_unknown_blocks;
    (if f && b {
        "#pragma mark Function Pointers and Blocks\n\n".spec_bytes()
    } else if f {
        "#pragma mark Function Pointers\n\n".spec_bytes()
    } else if b {
        "#pragma mark Blocks\n\n".spec_bytes()
    } else {
        Seq::empty()
    }) + (if f {
        "typedef void (*CDUnknownFunctionPointerType)(void); // return type and parameters are unknown\n\n".spec_bytes()
    } else {
        Seq::empty()
    }) + (if b {
        "typedef void (^CDUnknownBlockType)(void); // return type and parameters are unknown\n\n".spec_bytes()
    } else {
        Seq::empty()
    })
}

/// Everything `append_structures` writes, with the declaration orders `so`
/// (structs) and `uo` (unions).
pub open spec fn structures_text(nm: Naming, c: ControllerModel, so: TableOrder, uo: TableOrder) -> Seq<u8> {
    unknown_types_text(c) + named_text(nm, c, c.structs, so, "Named Structures".spec_bytes()) + typedefs_text(
        nm,
        c,
        c.structs,
        so,
        "Typedef'd Structures".spec_bytes(),
    ) + named_text(nm, c, c.unions, uo, "Named Unions".spec_bytes()) + typedefs_text(
        nm,
        c,
        c.unions,
        uo,
        "Typedef'd Unions".spec_bytes(),
    )
}

/// A key that is listed is found.
proof fn lemma_listed_key_found(m: DictModel, k: Seq<u8>)
    requires
        keys_of(m).contains(k),
    ensures
        lookup(m, k) is Some,
{
    lemma_first_index(m, has_key(k));
    if first_index(m, has_key(k)) is None {
        let j = choose|j: int| 0 <= j < keys_of(m).len() && keys_of(m)[j] == k;
        assert(has_key(k)(m[j]));
    }
}

impl TypeController {
    /// The declaration of a variable (see `fmt_variable`).
    pub fn format_variable(&self, name: Option<&[u8]>, ty: &CDType, cfg: &FormatterCfg) -> (r: Vec<u8>)
        ensures
            r@ == fmt_variable(naming_of(self), self@, opt_slice(name), ty@, *cfg),
    {
        proof {
            reveal(fmt_variable);
        }
        let mut out: Vec<u8> = Vec::new();
        write_indent(&mut out, cfg.base_level, 0);
        if ty.prim == ENC_CHAR {
            match name {
                None => append_str(&mut out, "BOOL"),
                Some(n) => {
                    append_str(&mut out, "BOOL ");
                    append(&mut out, n);
                },
            }
            assert(out@ =~= fmt_variable(naming_of(self), self@, opt_slice(name), ty@, *cfg));
            return out;
        }
        let mut t = ty.clone();
        t.variable_name = match name {
            Some(n) => Some(to_vec(n)),
            None => None,
        };
        assert(t@ == (TypeModel { variable_name: opt_slice(name), ..ty@ }));
        let merged_t = self.merge_with_table(&t, true);
        let f = merged_t.formatted_string(None, self, cfg, 0);
        append(&mut out, f.as_slice());
        assert(out@ =~= fmt_variable(naming_of(self), self@, opt_slice(name), ty@, *cfg));
        out
    }

    /// A method's return or argument type: `BOOL` for `char`, else the type
    /// formatted as it is.
    pub fn format_type_no_merge(&self, ty: &CDType, cfg: &FormatterCfg) -> (r: Vec<u8>)
        ensures
            r@ == if ty.prim == ENC_CHAR {
                "BOOL".spec_bytes()
            } else {
                fmt(naming_of(self), ty@, None, *cfg, 0)
            },
    {
        if ty.prim == ENC_CHAR {
            let mut out: Vec<u8> = Vec::new();
            append_str(&mut out, "BOOL");
            return out;
        }
        ty.formatted_string(None, self, cfg, 0)
    }

    /// Appends one declaration, after the mark and the header unless they
    /// were written.
    fn write_decl(&self, out: &mut Vec<u8>, info: &Info, as_typedef: bool, mark: &[u8], header: &[u8], a: bool, h: bool)
        ensures
            final(out)@ == old(out)@ + (if a { Seq::<u8>::empty() } else { mark_line(mark@) }) + (if h {
                Seq::<u8>::empty()
            } else {
                header@
            }) + decl_text(naming_of(self), self@, info@, as_typedef),
    {
        proof {
            reveal(fmt_variable);
        }
        let ghost before = out@;
        if !a {
            append_str(out, "#pragma mark ");
            append(out, mark);
            append_str(out, "\n\n");
        }
        if !h {
            append(out, header);
        }
        let cfg = FormatterCfg { should_expand: true, should_auto_expand: true, base_level: 0, is_struct_decl: true };
        let d = self.format_variable(None, &info.ty, &cfg);
        if as_typedef {
            append_str(out, "typedef ");
            append(out, d.as_slice());
            append_str(out, " ");
            match &info.typedef_name {
                Some(n) => append(out, n.as_slice()),
                None => {},
            }
            append_str(out, ";\n\n");
        } else {
            append(out, d.as_slice());
            append_str(out, ";\n\n");
        }
        let ghost m = if a { Seq::<u8>::empty() } else { mark_line(mark@) };
        let ghost hd = if h { Seq::<u8>::empty() } else { header@ };
        proof {
            reveal(decl_text);
        }
        assert(out@ =~= before + m + hd + decl_text(naming_of(self), self@, info@, as_typedef));
    }

    /// Appends the declarations of `infos` that `kind` shows (see `emit`);
    /// returns whether the mark and the header were written.
    #[verifier::rlimit(60)]
    fn emit_infos(
        &self,
        out: &mut Vec<u8>,
        infos: &Vec<Info>,
        kind: &Shown,
        as_typedef: bool,
        mark: &[u8],
        header: &[u8],
        added: bool,
    ) -> (r: (bool, bool))
        ensures
            ({
                let e = emit(naming_of(self), self@, infos_view(infos@), infos@.len(), *kind, as_typedef, mark@, header@, added);
                final(out)@ == old(out)@ + e.0 && r == (e.1, e.2)
            }),
    {
        let ghost start = out@;
        let ghost iv = infos_view(infos@);
        let mut a = added;
        let mut h = false;
        let mut i: usize = 0;
        while i < infos.len()
            invariant
                i <= infos@.len(),
                iv == infos_view(infos@),
                ({
                    let e = emit(naming_of(self), self@, iv, i as nat, *kind, as_typedef, mark@, header@, added);
                    out@ == start + e.0 && a == e.1 && h == e.2
                }),
            decreases infos@.len() - i,
        {
            let info = &infos[i];
            let show = match kind {
                Shown::Referenced => !self.structs.should_expand_info(Some(info)),
                Shown::Templates => info.ty.is_template_type() && info.is_used_in_method,
            };
            proof {
                assert(iv[i as int] == info@);
                assert(show == shows(*kind, info@));
            }
            if show {
                self.write_decl(out, info, as_typedef, mark, header, a, h);
                a = true;
                h = true;
            }
            i = i + 1;
        }
        (a, h)
    }
}

/// The declaration orders of a table, computed.
pub struct ExecOrder {
    pub named_keys: Vec<Vec<u8>>,
    pub named: Vec<Info>,
    pub name_exceptions: Vec<Info>,
    pub anon: Vec<Info>,
    pub anon_exceptions: Vec<Info>,
}

impl ExecOrder {
    pub open spec fn order(&self) -> TableOrder {
        TableOrder {
            named_keys: crate::typ::names_of(self.named_keys@),
            name_exceptions: infos_view(self.name_exceptions@),
            anon: infos_view(self.anon@),
            anon_exceptions: infos_view(self.anon_exceptions@),
        }
    }
}

/// The orders in which `append_structures` declares a table's records:
/// named ones by tag, the others sorted (see `sorted_records`).
pub open spec fn table_order_of(t: TableModel) -> TableOrder {
    TableOrder {
        named_keys: insertion_sorted(keys_of(t.phase3_named), byte_order()),
        name_exceptions: sorted_records(values_of(t.phase3_name_exceptions)),
        anon: sorted_records(values_of(t.phase3_anon)),
        anon_exceptions: sorted_records(values_of(t.phase3_anon_exceptions)),
    }
}


/// Each table declares its named records sorted by tag and its other
/// records sorted (see `sorted_records`), each exactly once.
pub proof fn lemma_table_order_ok(t: TableModel)
    ensures
        order_ok(t, table_order_of(t)),
{
    let o = table_order_of(t);
    lemma_byte_order_strict();
    lemma_info_order_strict();
    lemma_insertion_sorted_sorted(keys_of(t.phase3_named), byte_order());
    lemma_insertion_sorted_permutes(keys_of(t.phase3_named), byte_order());
    lemma_insertion_sorted_sorted(values_of(t.phase3_name_exceptions), info_order());
    lemma_insertion_sorted_permutes(values_of(t.phase3_name_exceptions), info_order());
    lemma_insertion_sorted_sorted(values_of(t.phase3_anon), info_order());
    lemma_insertion_sorted_permutes(values_of(t.phase3_anon), info_order());
    lemma_insertion_sorted_sorted(values_of(t.phase3_anon_exceptions), info_order());
    lemma_insertion_sorted_permutes(values_of(t.phase3_anon_exceptions), info_order());
    assert forall|i: int, j: int| 0 <= i < j < o.named_keys.len() implies !bytes_lt(#[trigger] o.named_keys[j], #[trigger] o.named_keys[i]) by {
        assert(!byte_order()(o.named_keys[j], o.named_keys[i]));
    }
    assert forall|i: int, j: int| 0 <= i < j < o.name_exceptions.len() implies !info_lt(#[trigger] o.name_exceptions[j], #[trigger] o.name_exceptions[i]) by {
        assert(!info_order()(o.name_exceptions[j], o.name_exceptions[i]));
    }
    assert forall|i: int, j: int| 0 <= i < j < o.anon.len() implies !info_lt(#[trigger] o.anon[j], #[trigger] o.anon[i]) by {
        assert(!info_order()(o.anon[j], o.anon[i]));
    }
    assert forall|i: int, j: int| 0 <= i < j < o.anon_exceptions.len() implies !info_lt(#[trigger] o.anon_exceptions[j], #[trigger] o.anon_exceptions[i]) by {
        assert(!info_order()(o.anon_exceptions[j], o.anon_exceptions[i]));
    }
}

impl TypeController {
    /// The declaration orders of `t`.
    fn table_order(&self, t: &Table) -> (r: ExecOrder)
        ensures
            order_ok(t@, r.order()),
            r.order() == table_order_of(t@),
            infos_view(r.named@) == infos_at(t@.phase3_named, r.order().named_keys),
    {
        let keys = sort_names(&t.phase3_named.keys());
        let ghost kv = crate::typ::names_of(keys@);
        let mut named: Vec<Info> = Vec::new();
        let mut k: usize = 0;
        while k < keys.len()
            invariant
                k <= keys@.len(),
                kv == crate::typ::names_of(keys@),
                kv.to_multiset() == keys_of(t@.phase3_named).to_multiset(),
                infos_view(named@) == infos_at(t@.phase3_named, kv.subrange(0, k as int)),
            decreases keys@.len() - k,
        {
            proof {
                assert(kv.contains(kv[k as int]));
                assert(kv.to_multiset().count(kv[k as int]) > 0);
                assert(keys_of(t@.phase3_named).contains(kv[k as int]));
                lemma_listed_key_found(t@.phase3_named, kv[k as int]);
                assert(kv[k as int] == keys@[k as int]@);
            }
            match t.phase3_named.get(keys[k].as_slice()) {
                Some(i) => {
                    let c = i.clone();
                    proof {
                        crate::dict::lemma_infos_view_push(named@, c);
                        assert(infos_at(t@.phase3_named, kv.subrange(0, k + 1)) =~= infos_at(
                            t@.phase3_named,
                            kv.subrange(0, k as int),
                        ).push(c@));
                    }
                    named.push(c);
                },
                None => {},
            }
            k = k + 1;
        }
        assert(kv.subrange(0, kv.len() as int) =~= kv);
        ExecOrder {
            named_keys: keys,
            named,
            name_exceptions: depth_sort(&t.phase3_name_exceptions.values()),
            anon: depth_sort(&t.phase3_anon.values()),
            anon_exceptions: depth_sort(&t.phase3_anon_exceptions.values()),
        }
    }

    /// See `named_text`.
    fn append_named(&self, out: &mut Vec<u8>, t: &Table, o: &ExecOrder, mark: &[u8])
        requires
            infos_view(o.named@) == infos_at(t@.phase3_named, o.order().named_keys),
        ensures
            final(out)@ == old(out)@ + named_text(naming_of(self), self@, t@, o.order(), mark@),
    {
        let ghost start = out@;
        let empty: Vec<u8> = Vec::new();
        let (a1, _h1) = self.emit_infos(out, &o.named, &Shown::Referenced, false, mark, empty.as_slice(), false);
        let (_a2, h2) = self.emit_infos(
            out,
            &o.name_exceptions,
            &Shown::Referenced,
            true,
            mark,
            "#if 0\n// Names with conflicting types:\n".as_bytes(),
            a1,
        );
        if h2 {
            append_str(out, "#endif\n\n");
        }
        proof {
            reveal(named_text);
        }
        assert(out@ =~= start + named_text(naming_of(self), self@, t@, o.order(), mark@));
    }

    /// See `typedefs_text`.
    fn append_typedefs(&self, out: &mut Vec<u8>, t: &Table, o: &ExecOrder, mark: &[u8])
        requires
            infos_view(o.named@) == infos_at(t@.phase3_named, o.order().named_keys),
        ensures
            final(out)@ == old(out)@ + typedefs_text(naming_of(self), self@, t@, o.order(), mark@),
    {
        let ghost start = out@;
        let empty: Vec<u8> = Vec::new();
        let (a1, _h1) = self.emit_infos(out, &o.anon, &Shown::Referenced, true, mark, empty.as_slice(), false);
        let (a2, _h2) = self.emit_infos(
            out,
            &o.anon_exceptions,
            &Shown::Referenced,
            true,
            mark,
            "// Ambiguous groups\n".as_bytes(),
            a1,
        );
        let (_a3, _h3) = self.emit_infos(out, &o.named, &Shown::Templates, true, mark, empty.as_slice(), a2);
        proof {
            reveal(typedefs_text);
        }
        assert(out@ =~= start + typedefs_text(naming_of(self), self@, t@, o.order(), mark@));
    }

    /// Appends the structure declarations: the typedefs of unknown function
    /// pointers and blocks, then for structs and then unions the named
    /// records and the typedefs (see `structures_text`).
    pub fn append_structures(&self, out: &mut Vec<u8>)
        ensures
            final(out)@ == old(out)@ + structures_text(naming_of(self), self@, table_order_of(self@.structs), table_order_of(self@.unions)),
    {
        let ghost start = out@;
        let f = self.has_unknown_func_ptrs;
        let b = self.has_unknown_blocks;
        if f && b {
            append_str(out, "#pragma mark Function Pointers and Blocks\n\n");
        } else if f {
            append_str(out, "#pragma mark Function Pointers\n\n");
        } else if b {
            append_str(out, "#pragma mark Blocks\n\n");
        }
        if f {
            append_str(out, "typedef void (*CDUnknownFunctionPointerType)(void); // return type and parameters are unknown\n\n");
        }
        if b {
            append_str(out, "typedef void (^CDUnknownBlockType)(void); // return type and parameters are unknown\n\n");
        }
        proof {
            reveal(unknown_types_text);
        }
        assert(out@ =~= start + unknown_types_text(self@));
        let so = self.table_order(&self.structs);
        let uo = self.table_order(&self.unions);
        self.append_named(out, &self.structs, &so, "Named Structures".as_bytes());
        self.append_typedefs(out, &self.structs, &so, "Typedef'd Structures".as_bytes());
        self.append_named(out, &self.unions, &uo, "Named Unions".as_bytes());
        self.append_typedefs(out, &self.unions, &uo, "Typedef'd Unions".as_bytes());
        assert(out@ =~= start + structures_text(naming_of(self), self@, so.order(), uo.order()));
    }
}

} // verus!
