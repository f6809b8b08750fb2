//! Objective-C 2 metadata: classes, categories and protocols read from the
//! `__objc_*` sections of a Mach-O image.

use vstd::prelude::*;
use vstd::string::StringSliceAdditionalSpecFns;
use std::collections::HashMap;
use crate::cursor::{ptr_at, uint_at, Cursor};
use crate::loadcmd::{entry_off, fit_count, ROOM};
use crate::macho::{first_section, sectname_is, MachOFile, Section};
use crate::text::{bytes_eq, to_vec};

verus! {

broadcast use vstd::std_specs::hash::group_hash_axioms;

pub struct Method {
    /// The selector.
    pub name: Vec<u8>,
    /// The @encode method signature.
    pub type_string: Vec<u8>,
}

pub struct Ivar {
    pub name: Vec<u8>,
    pub type_string: Vec<u8>,
    pub offset: u64,
}

pub struct Property {
    pub name: Vec<u8>,
    pub attributes: Vec<u8>,
}

pub struct Protocol {
    pub name: Vec<u8>,
    pub adopted_protocols: Vec<Vec<u8>>,
    pub instance_methods: Vec<Method>,
    pub class_methods: Vec<Method>,
    pub optional_instance_methods: Vec<Method>,
    pub optional_class_methods: Vec<Method>,
    pub properties: Vec<Property>,
}

pub struct Class {
    pub name: Vec<u8>,
    pub superclass_name: Option<Vec<u8>>,
    pub is_swift: bool,
    pub is_exported: bool,
    pub protocols: Vec<Vec<u8>>,
    pub instance_methods: Vec<Method>,
    pub class_methods: Vec<Method>,
    pub ivars: Vec<Ivar>,
    pub properties: Vec<Property>,
}

pub struct Category {
    pub name: Vec<u8>,
    pub class_name: Vec<u8>,
    pub instance_methods: Vec<Method>,
    pub class_methods: Vec<Method>,
    pub protocols: Vec<Vec<u8>>,
    pub properties: Vec<Property>,
}

pub struct ObjcImage {
    pub classes: Vec<Class>,
    pub categories: Vec<Category>,
    pub protocols: Vec<Protocol>,
}

/// The string at a vm address, or the empty string.
pub open spec fn string_or_empty(f: MachOFile, addr: u64) -> Seq<u8> {
    match f.spec_string_at(addr) {
        Some(s) => s,
        None => Seq::empty(),
    }
}

/// The file offset at which a cursor for `addr` starts: the data offset of
/// `addr`, when it leaves `ROOM` bytes below the end of the address space.
pub open spec fn cursor_off(f: MachOFile, addr: u64) -> Option<int> {
    match f.spec_data_offset(addr) {
        Some(o) => if o + ROOM <= usize::MAX { Some(o as int) } else { None },
        None => None,
    }
}

/// A pointer-sized word at file offset `o`.
pub open spec fn word_at(f: MachOFile, o: int) -> u64 {
    ptr_at(f.data@, o, f.spec_ptr_size(), f.byte_order) as u64
}

/// A 32-bit word at file offset `o`.
pub open spec fn u32_at(f: MachOFile, o: int) -> u32 {
    uint_at(f.data@, o, 4, f.byte_order) as u32
}

/// The pointer stored at vm address `addr`, or 0.
pub open spec fn ptr_at_addr(f: MachOFile, addr: u64) -> u64 {
    match cursor_off(f, addr) {
        Some(o) => word_at(f, o),
        None => 0,
    }
}

/// A method-list entry of the pointer layout at `o`.
pub open spec fn property_matches(p: Property, f: MachOFile, o: int) -> bool {
    &&& p.name@ == string_or_empty(f, word_at(f, o))
    &&& p.attributes@ == string_or_empty(f, word_at(f, o + f.spec_ptr_size()))
}

/// The file offsets of the entries `0..k` of a table at `first` whose word at
/// `skip` bytes into the entry is not zero.
pub open spec fn nonzero_entries(f: MachOFile, first: int, stride: int, skip: int, k: nat) -> Seq<int>
    decreases k,
{
    if k == 0 {
        Seq::empty()
    } else {
        let prev = nonzero_entries(f, first, stride, skip, (k - 1) as nat);
        let e = entry_off(first, stride, k - 1);
        if word_at(f, e + skip) != 0 {
            prev.push(e)
        } else {
            prev
        }
    }
}

/// Ivar `iv` is the ivar-list entry at `o`.
pub open spec fn ivar_matches(iv: Ivar, f: MachOFile, o: int) -> bool {
    let ps = f.spec_ptr_size();
    &&& iv.name@ == string_or_empty(f, word_at(f, o + ps))
    &&& iv.type_string@ == string_or_empty(f, word_at(f, o + 2 * ps))
    &&& iv.offset == match cursor_off(f, word_at(f, o)) {
        Some(q) => word_at(f, q) & 0xffff_ffff,
        None => 0,
    }
}

/// An ivar's offset is the low 32 bits of the word its offset pointer
/// points to, or 0 where that pointer leads nowhere.
pub proof fn lemma_ivar_offset(iv: Ivar, f: MachOFile, o: int)
    requires
        ivar_matches(iv, f, o),
    ensures
        iv.offset == match cursor_off(f, word_at(f, o)) {
            Some(q) => word_at(f, q) % 0x1_0000_0000,
            None => 0,
        },
{
    if let Some(q) = cursor_off(f, word_at(f, o)) {
        let w = word_at(f, q);
        assert(w & 0xffff_ffff == w % 0x1_0000_0000) by (bit_vector);
    }
}

/// The fields of a `class_ro_t` that class-dump reads.
pub struct ClassRo {
    pub name: u64,
    pub base_methods: u64,
    pub base_protocols: u64,
    pub ivars: u64,
    pub base_properties: u64,
}

/// Pointer field `j` (0 = ivar layout) of the `class_ro_t` at file offset `o`.
pub open spec fn ro_field(f: MachOFile, o: int, j: int) -> u64 {
    if f.uses64 {
        word_at(f, o + 16 + 8 * j)
    } else {
        word_at(f, o + 12 + 4 * j)
    }
}

/// The sign-extended 32-bit relative offset `x`, as a 64-bit addend.
pub open spec fn sext(x: u32) -> u64 {
    x as i32 as i64 as u64
}

/// Selector and type string of entry `k` of the method list at vm address
/// `address` and file offset `o`; `ext` is the file offset of the extended
/// type pointers, when there are any.
pub open spec fn method_entry(f: MachOFile, address: u64, o: int, k: int, ext: Option<int>) -> (Seq<u8>, Seq<u8>) {
    let flags = u32_at(f, o);
    let ps = f.spec_ptr_size();
    let ext_types = match ext {
        Some(p) => Some(string_or_empty(f, word_at(f, p + k * ps))),
        None => None,
    };
    if flags & 0x8000_0000 != 0 {
        let e = o + 8 + k * 12;
        let nfa = address.wrapping_add((8 + k * 12) as u64);
        let target = nfa.wrapping_add(sext(u32_at(f, e)));
        let name_addr = if flags & 0x4000_0000 != 0 { target } else { ptr_at_addr(f, target) };
        let types = match ext_types {
            Some(t) => t,
            None => string_or_empty(f, nfa.wrapping_add(4).wrapping_add(sext(u32_at(f, e + 4)))),
        };
        (string_or_empty(f, name_addr), types)
    } else {
        let e = o + 8 + k * 3 * ps;
        let types = match ext_types {
            Some(t) => t,
            None => string_or_empty(f, word_at(f, e + ps)),
        };
        (string_or_empty(f, word_at(f, e)), types)
    }
}

proof fn lemma_add_signed(a: u64, x: u32)
    ensures
        a.wrapping_add(sext(x)) as int == (a + (x as i32)) % 0x1_0000_0000_0000_0000,
{
    let m: int = 0x1_0000_0000_0000_0000;
    assert(sext(x) as int == if x < 0x8000_0000 { x as int } else { x + 0xFFFF_FFFF_0000_0000 }) by (bit_vector);
    assert((x as i32) as int == if x < 0x8000_0000 { x as int } else { x - 0x1_0000_0000 }) by (bit_vector);
    if x >= 0x8000_0000 {
        let s = sext(x) as int;
        assert(s == x + 0xFFFF_FFFF_0000_0000);
        assert((a + s) % m == (a + (x as i32)) % m) by {
            assert(a + s == (a + (x as i32)) + m);
            vstd::arithmetic::div_mod::lemma_mod_add_multiples_vanish(a + (x as i32), m);
        }
    }
}

/// Where the selector and type string of method-list entry `k` come from.
/// In a list of small (relative) entries (flag bit 31) entry `k` holds two
/// signed 32-bit offsets at `address + 8 + 12 k` and 4 bytes on, each
/// relative to its own field; the selector is the string at the first
/// target when selectors are direct (flag bit 30), else the string that the
/// pointer there points to. Otherwise entry `k` is the `k`-th triple of
/// pointers (selector, types, implementation) after the 8-byte header. An
/// extended type pointer, where there is one, gives the type string
/// instead.
pub proof fn lemma_method_entry_fields(f: MachOFile, address: u64, o: int, k: int, ext: Option<int>)
    requires
        0 <= k < 0x1_0000_0000,
    ensures
        ({
            let m: int = 0x1_0000_0000_0000_0000;
            let flags = u32_at(f, o);
            let e = method_entry(f, address, o, k, ext);
            let ps = f.spec_ptr_size();
            &&& ext matches Some(p) ==> e.1 == string_or_empty(f, word_at(f, p + k * ps))
            &&& (flags / 0x8000_0000) % 2 == 1 ==> {
                let field = (address + 8 + 12 * k) % m;
                let target = ((field + (u32_at(f, o + 8 + 12 * k) as i32)) % m) as u64;
                &&& e.0 == string_or_empty(
                    f,
                    if (flags / 0x4000_0000) % 2 == 1 { target } else { ptr_at_addr(f, target) },
                )
                &&& ext is None ==> e.1 == string_or_empty(
                    f,
                    ((field + 4 + (u32_at(f, o + 12 + 12 * k) as i32)) % m) as u64,
                )
            }
            &&& (flags / 0x8000_0000) % 2 == 0 ==> {
                &&& e.0 == string_or_empty(f, word_at(f, o + 8 + 3 * k * ps))
                &&& ext is None ==> e.1 == string_or_empty(f, word_at(f, o + 8 + 3 * k * ps + ps))
            }
        }),
{
    let m: int = 0x1_0000_0000_0000_0000;
    let flags = u32_at(f, o);
    assert(flags & 0x8000_0000 != 0 <==> (flags / 0x8000_0000) % 2 == 1) by (bit_vector);
    assert(flags & 0x4000_0000 != 0 <==> (flags / 0x4000_0000) % 2 == 1) by (bit_vector);
    let nfa = address.wrapping_add((8 + k * 12) as u64);
    assert(nfa as int == (address + 8 + 12 * k) % m);
    let e = o + 8 + k * 12;
    lemma_add_signed(nfa, u32_at(f, e));
    let nfa4 = nfa.wrapping_add(4);
    lemma_add_signed(nfa4, u32_at(f, e + 4));
    assert(nfa4 as int == (nfa + 4) % m);
    assert((nfa4 + (u32_at(f, e + 4) as i32)) % m == (nfa + 4 + (u32_at(f, e + 4) as i32)) % m) by {
        if nfa + 4 >= m {
            assert(nfa4 as int == nfa + 4 - m);
            vstd::arithmetic::div_mod::lemma_mod_add_multiples_vanish(nfa4 + (u32_at(f, e + 4) as i32), m);
        }
    }
    assert(e + 4 == o + 12 + 12 * k);
    assert(o + 8 + k * 3 * f.spec_ptr_size() == o + 8 + 3 * k * f.spec_ptr_size()) by (nonlinear_arith);
}

pub open spec fn method_is(m: Method, e: (Seq<u8>, Seq<u8>)) -> bool {
    m.name@ == e.0 && m.type_string@ == e.1
}

/// The non-zero addresses of the protocol list at vm address `a`.
pub open spec fn protocol_list(f: MachOFile, a: u64) -> Seq<u64> {
    if a == 0 {
        Seq::empty()
    } else {
        match cursor_off(f, a) {
            Some(o) => {
                let ps = f.spec_ptr_size();
                let es = nonzero_entries(f, o + ps, ps, 0, fit_count(o + ps, ps, word_at(f, o) as nat));
                es.map_values(|e: int| word_at(f, e))
            },
            None => Seq::empty(),
        }
    }
}

/// The names of the registered protocols at `addrs`, each name once, in
/// first-seen order; unregistered addresses are skipped.
pub open spec fn dedup_names(reg: Map<u64, Protocol>, addrs: Seq<u64>) -> Seq<Seq<u8>>
    decreases addrs.len(),
{
    if addrs.len() == 0 {
        Seq::empty()
    } else {
        let prev = dedup_names(reg, addrs.drop_last());
        let a = addrs.last();
        if reg.contains_key(a) && !prev.contains(reg[a].name@) {
            prev.push(reg[a].name@)
        } else {
            prev
        }
    }
}

/// The byte vectors of a list of names.
pub open spec fn name_list(v: Seq<Vec<u8>>) -> Seq<Seq<u8>> {
    v.map_values(|x: Vec<u8>| x@)
}

/// `ms` is what `load_methods` reads at `address`, last entry first, taking
/// the type strings from the pointers at file offset `ext` on when it is
/// `Some`; the list ends early only where those pointers run past the end of
/// the address space.
pub open spec fn methods_read_from(ms: Seq<Method>, f: MachOFile, address: u64, ext: Option<int>) -> bool {
    if address == 0 {
        ms.len() == 0
    } else {
        match cursor_off(f, address) {
            None => ms.len() == 0,
            Some(o) => {
                let n = ms.len();
                let fc = fit_count(o + 8, method_stride(f, o), u32_at(f, o + 4) as nat);
                &&& n <= fc
                &&& n < fc ==> (ext matches Some(p) && p + n * f.spec_ptr_size() + f.spec_ptr_size() > usize::MAX)
                &&& forall|k: int| 0 <= k < n ==> method_is(#[trigger] ms[n - 1 - k], method_entry(f, address, o, k, ext))
            },
        }
    }
}

/// The methods come out in the reverse of their order on disk: method `j`
/// of `n` is entry `n - 1 - j` of the list.
pub proof fn lemma_methods_reversed(ms: Seq<Method>, f: MachOFile, address: u64, ext: Option<int>, o: int)
    requires
        methods_read_from(ms, f, address, ext),
        address != 0,
        cursor_off(f, address) == Some(o),
    ensures
        forall|j: int| 0 <= j < ms.len() ==> method_is(#[trigger] ms[j], method_entry(f, address, o, ms.len() - 1 - j, ext)),
{
    let n = ms.len() as int;
    assert forall|j: int| 0 <= j < n implies method_is(#[trigger] ms[j], method_entry(f, address, o, n - 1 - j, ext)) by {
        let k = n - 1 - j;
        assert(ms[n - 1 - k] == ms[j]);
    }
}

/// `ms` is what `load_methods` reads at `address` without extended types.
pub open spec fn methods_read(ms: Seq<Method>, f: MachOFile, address: u64) -> bool {
    methods_read_from(ms, f, address, None)
}

/// `ps` is what `load_properties` reads at `address`.
pub open spec fn properties_read(ps: Seq<Property>, f: MachOFile, address: u64) -> bool {
    if address == 0 {
        ps.len() == 0
    } else {
        match cursor_off(f, address) {
            None => ps.len() == 0,
            Some(o) => {
                let stride = 2 * f.spec_ptr_size();
                &&& ps.len() == fit_count(o + 8, stride, u32_at(f, o + 4) as nat)
                &&& forall|k: int| 0 <= k < ps.len() ==> property_matches(#[trigger] ps[k], f, entry_off(o + 8, stride, k))
            },
        }
    }
}

/// `ivs` is what `load_ivars` reads at `address`.
pub open spec fn ivars_read(ivs: Seq<Ivar>, f: MachOFile, address: u64) -> bool {
    if address == 0 {
        ivs.len() == 0
    } else {
        match cursor_off(f, address) {
            None => ivs.len() == 0,
            Some(o) => {
                let ps = f.spec_ptr_size();
                let stride = 3 * ps + 8;
                let es = nonzero_entries(f, o + 8, stride, ps, fit_count(o + 8, stride, u32_at(f, o + 4) as nat));
                &&& ivs.len() == es.len()
                &&& forall|k: int| 0 <= k < ivs.len() ==> ivar_matches(#[trigger] ivs[k], f, es[k])
            },
        }
    }
}

/// The file offset of the `class_ro_t` of the class object at `addr`.
pub open spec fn class_ro_off(f: MachOFile, addr: u64) -> Option<int> {
    match cursor_off(f, addr) {
        Some(o) => {
            let data = word_at(f, o + 4 * f.spec_ptr_size()) & !7u64;
            if data == 0 {
                None
            } else {
                cursor_off(f, data)
            }
        },
        None => None,
    }
}

/// The name of the class object at `addr` (through its `class_ro_t`).
pub open spec fn class_name_at(f: MachOFile, addr: u64) -> Option<Seq<u8>> {
    match class_ro_off(f, addr) {
        Some(ro) => f.spec_string_at(ro_field(f, ro, 1)),
        None => None,
    }
}

/// The method list of the metaclass at `isa`.
pub open spec fn meta_methods(f: MachOFile, isa: u64) -> Option<u64> {
    match class_ro_off(f, isa) {
        Some(ro) => Some(ro_field(f, ro, 2)),
        None => None,
    }
}

/// The superclass (or category class) name of the object at `address`
/// whose class pointer, in the second word, is `ptr`: a bound external
/// symbol if one is bound there, else the name of the class at `ptr`.
pub open spec fn referenced_class_name(f: MachOFile, address: u64, ptr: u64) -> Option<Seq<u8>> {
    let a = address.wrapping_add(f.spec_ptr_size() as u64);
    if f.binds().contains_key(a) {
        f.spec_external_class_name(a)
    } else if ptr != 0 {
        class_name_at(f, ptr)
    } else {
        None
    }
}

/// Class `c` is what `load_class_at` reads at `address`, with protocols
/// registered in `reg`.
pub open spec fn class_read(c: Class, f: MachOFile, reg: Map<u64, Protocol>, address: u64) -> bool {
    let o = cursor_off(f, address).unwrap();
    let ps = f.spec_ptr_size();
    let isa = word_at(f, o);
    let superclass = word_at(f, o + ps);
    let data_val = word_at(f, o + 4 * ps);
    let ro = class_ro_off(f, address).unwrap();
    &&& c.is_swift == (data_val & 1 != 0)
    &&& c.name@ == string_or_empty(f, ro_field(f, ro, 1))
    &&& methods_read(c.instance_methods@, f, ro_field(f, ro, 2))
    &&& ivars_read(c.ivars@, f, ro_field(f, ro, 4))
    &&& properties_read(c.properties@, f, ro_field(f, ro, 6))
    &&& name_list(c.protocols@) == dedup_names(reg, protocol_list(f, ro_field(f, ro, 3)))
    &&& (if isa != 0 && meta_methods(f, isa) is Some {
        methods_read(c.class_methods@, f, meta_methods(f, isa).unwrap())
    } else {
        c.class_methods@.len() == 0
    })
    &&& c.is_exported == match f.spec_class_symbol(c.name@) {
        Some(i) => f.symbols@[i].n_type & crate::consts::N_EXT != 0,
        None => false,
    }
    &&& match referenced_class_name(f, address, superclass) {
        Some(n) => c.superclass_name matches Some(s) && s@ == n,
        None => c.superclass_name is None,
    }
}

/// A bound pointer slot names the class it points to: when the slot one
/// pointer after `address` is bound to the symbol `_OBJC_CLASS_$_X`, the
/// referenced class name is X, whatever the slot holds on disk.
pub proof fn lemma_bound_class_reference(f: MachOFile, address: u64, ptr: u64, x: Seq<u8>)
    requires
        f.binds().contains_key(((address + f.spec_ptr_size()) % 0x1_0000_0000_0000_0000) as u64),
        f.binds()[((address + f.spec_ptr_size()) % 0x1_0000_0000_0000_0000) as u64]@ == crate::macho::class_prefix() + x,
    ensures
        referenced_class_name(f, address, ptr) == Some(x),
{
    let slot = ((address + f.spec_ptr_size()) % 0x1_0000_0000_0000_0000) as u64;
    assert(address.wrapping_add(f.spec_ptr_size() as u64) == slot);
    let n = f.binds()[slot]@;
    let p = crate::macho::class_prefix();
    assert(n.subrange(0, p.len() as int) =~= p);
    assert(n.subrange(p.len() as int, n.len() as int) =~= x);
}

/// A class whose superclass slot is bound to `_OBJC_CLASS_$_X` has
/// superclass X.
pub proof fn lemma_bound_superclass(c: Class, f: MachOFile, reg: Map<u64, Protocol>, address: u64, x: Seq<u8>)
    requires
        class_read(c, f, reg, address),
        f.binds().contains_key(((address + f.spec_ptr_size()) % 0x1_0000_0000_0000_0000) as u64),
        f.binds()[((address + f.spec_ptr_size()) % 0x1_0000_0000_0000_0000) as u64]@ == crate::macho::class_prefix() + x,
    ensures
        c.superclass_name matches Some(s) && s@ == x,
{
    let o = cursor_off(f, address).unwrap();
    lemma_bound_class_reference(f, address, word_at(f, o + f.spec_ptr_size()), x);
}

/// The class object at `address` can be read: it is not null and its data
/// pointer leads to a `class_ro_t`.
pub open spec fn class_exists(f: MachOFile, address: u64) -> bool {
    address != 0 && class_ro_off(f, address) is Some
}

/// Append `x` unless an equal name is already there.
fn push_unique(v: &mut Vec<Vec<u8>>, x: Vec<u8>)
    ensures
        name_list(final(v)@) == if name_list(old(v)@).contains(x@) {
            name_list(old(v)@)
        } else {
            name_list(old(v)@).push(x@)
        },
{
    let mut i: usize = 0;
    while i < v.len()
        invariant
            i <= v@.len(),
            forall|j: int| 0 <= j < i ==> v@[j]@ != x@,
        decreases v@.len() - i,
    {
        if bytes_eq(v[i].as_slice(), x.as_slice()) {
            assert(name_list(v@)[i as int] == x@);
            return;
        }
        i = i + 1;
    }
    proof {
        assert forall|j: int| 0 <= j < name_list(v@).len() implies name_list(v@)[j] != x@ by {}
    }
    let ghost before = v@;
    v.push(x);
    assert(name_list(v@) =~= name_list(before).push(x@));
}

pub struct Processor<'a> {
    macho: &'a MachOFile,
    protocols_by_address: HashMap<u64, Protocol>,
    protocol_order: Vec<u64>,
}

impl<'a> Processor<'a> {
    /// The file the processor reads.
    pub closed spec fn file(&self) -> MachOFile {
        *self.macho
    }

    /// The protocols registered so far, by address.
    pub closed spec fn registered(&self) -> Map<u64, Protocol> {
        self.protocols_by_address@
    }

    /// The addresses of the protocols registered so far, in discovery order.
    pub closed spec fn order(&self) -> Seq<u64> {
        self.protocol_order@
    }

    pub fn new(macho: &'a MachOFile) -> (p: Self)
        ensures
            p.file() == *macho,
            p.registered() == Map::<u64, Protocol>::empty(),
            p.order() == Seq::<u64>::empty(),
    {
        Processor { macho, protocols_by_address: HashMap::new(), protocol_order: Vec::new() }
    }

    fn cursor_at(&self, address: u64) -> (r: Option<Cursor<'a>>)
        ensures
            match cursor_off(*self.macho, address) {
                Some(o) => r matches Some(c) && c.bytes() == self.macho.data@ && c.pos() == o && c.order()
                    == self.macho.byte_order && c.word() == self.macho.spec_ptr_size(),
                None => r is None,
            },
    {
        let off = match self.macho.data_offset_for_address(address) {
            Some(o) => o,
            None => return None,
        };
        if off > (usize::MAX - ROOM) as u64 {
            return None;
        }
        Some(Cursor::at(self.macho.data.as_slice(), self.macho.byte_order, self.macho.ptr_size(), off as usize))
    }

    /// The first section named `name`, in any segment.
    fn section_by_name(&self, name: &[u8]) -> (r: Option<&'a Section>)
        ensures
            match first_section(self.macho.segments@, sectname_is(name@)) {
                Some((i, j)) => r == Some(&self.macho.segments@[i].sections@[j]),
                None => r is None,
            },
    {
        self.macho.first_section_where("".as_bytes(), name, false)
    }

    fn load_properties(&self, address: u64) -> (r: Vec<Property>)
        ensures
            address == 0 || cursor_off(*self.macho, address) is None ==> r@.len() == 0,
            address != 0 ==> (cursor_off(*self.macho, address) matches Some(o) ==> {
                let stride = 2 * self.macho.spec_ptr_size();
                let count = u32_at(*self.macho, o + 4);
                &&& r@.len() == fit_count(o + 8, stride, count as nat)
                &&& forall|k: int|
                    0 <= k < r@.len() ==> property_matches(#[trigger] r@[k], *self.macho, entry_off(o + 8, stride, k))
            }),
    {
        let mut props: Vec<Property> = Vec::new();
        if address == 0 {
            return props;
        }
        let mut cur = match self.cursor_at(address) {
            Some(c) => c,
            None => return props,
        };
        let ghost f = *self.macho;
        let ghost o = cur.pos();
        let _entsize = cur.read_u32();
        let count = cur.read_u32();
        let stride: usize = 2 * self.macho.ptr_size();
        let mut k: u32 = 0;
        while k < count && cur.offset() <= usize::MAX - stride
            invariant
                f == *self.macho,
                stride == 2 * f.spec_ptr_size(),
                cur.bytes() == f.data@,
                cur.order() == f.byte_order,
                cur.word() == f.spec_ptr_size(),
                k <= count,
                props@.len() == k,
                cur.pos() == entry_off(o + 8, stride as int, k as int),
                fit_count(o + 8, stride as int, count as nat) == k + fit_count(cur.pos(), stride as int, (count - k) as nat),
                forall|j: int|
                    0 <= j < k ==> property_matches(#[trigger] props@[j], f, entry_off(o + 8, stride as int, j)),
            decreases count - k,
        {
            let name_ptr = cur.read_ptr();
            let attr_ptr = cur.read_ptr();
            let name = match self.macho.string_at_address(name_ptr) {
                Some(s) => s,
                None => Vec::new(),
            };
            let attributes = match self.macho.string_at_address(attr_ptr) {
                Some(s) => s,
                None => Vec::new(),
            };
            props.push(Property { name, attributes });
            proof {
                crate::loadcmd::lemma_entry_step(o + 8, stride as int, k as int);
            }
            k = k + 1;
        }
        proof {
            crate::loadcmd::lemma_fit_done(cur.pos(), stride as int, (count - k) as nat);
        }
        props
    }
}


impl<'a> Processor<'a> {
    fn load_ivars(&self, address: u64) -> (r: Vec<Ivar>)
        ensures
            address == 0 || cursor_off(*self.macho, address) is None ==> r@.len() == 0,
            address != 0 ==> (cursor_off(*self.macho, address) matches Some(o) ==> {
                let ps = self.macho.spec_ptr_size();
                let stride = 3 * ps + 8;
                let count = u32_at(*self.macho, o + 4);
                let es = nonzero_entries(*self.macho, o + 8, stride, ps, fit_count(o + 8, stride, count as nat));
                &&& r@.len() == es.len()
                &&& forall|k: int| 0 <= k < r@.len() ==> ivar_matches(#[trigger] r@[k], *self.macho, es[k])
            }),
    {
        let mut ivars: Vec<Ivar> = Vec::new();
        if address == 0 {
            return ivars;
        }
        let mut cur = match self.cursor_at(address) {
            Some(c) => c,
            None => return ivars,
        };
        let ghost f = *self.macho;
        let ghost o = cur.pos();
        let _entsize = cur.read_u32();
        let count = cur.read_u32();
        let ps = self.macho.ptr_size();
        let stride: usize = 3 * ps + 8;
        let mut k: u32 = 0;
        while k < count && cur.offset() <= usize::MAX - stride
            invariant
                f == *self.macho,
                ps == f.spec_ptr_size(),
                stride == 3 * ps + 8,
                cur.bytes() == f.data@,
                cur.order() == f.byte_order,
                cur.word() == ps,
                k <= count,
                cur.pos() == entry_off(o + 8, stride as int, k as int),
                fit_count(o + 8, stride as int, count as nat) == k + fit_count(cur.pos(), stride as int, (count - k) as nat),
                ivars@.len() == nonzero_entries(f, o + 8, stride as int, ps as int, k as nat).len(),
                forall|j: int|
                    0 <= j < ivars@.len() ==> ivar_matches(
                        #[trigger] ivars@[j],
                        f,
                        nonzero_entries(f, o + 8, stride as int, ps as int, k as nat)[j],
                    ),
            decreases count - k,
        {
            let ghost e = cur.pos();
            let offset_ptr = cur.read_ptr();
            let name_ptr = cur.read_ptr();
            let type_ptr = cur.read_ptr();
            let _alignment = cur.read_u32();
            let _size = cur.read_u32();
            if name_ptr != 0 {
                let name = match self.macho.string_at_address(name_ptr) {
                    Some(s) => s,
                    None => Vec::new(),
                };
                let type_string = match self.macho.string_at_address(type_ptr) {
                    Some(s) => s,
                    None => Vec::new(),
                };
                let offset = match self.cursor_at(offset_ptr) {
                    Some(mut c) => c.read_ptr() & 0xffff_ffff,
                    None => 0,
                };
                ivars.push(Ivar { name, type_string, offset });
            }
            proof {
                crate::loadcmd::lemma_entry_step(o + 8, stride as int, k as int);
            }
            k = k + 1;
        }
        proof {
            crate::loadcmd::lemma_fit_done(cur.pos(), stride as int, (count - k) as nat);
        }
        ivars
    }

    /// The non-zero protocol addresses of a protocol list.
    fn protocol_address_list(&self, address: u64) -> (r: Vec<u64>)
        ensures
            r@ == protocol_list(*self.macho, address),
    {
        let mut addrs: Vec<u64> = Vec::new();
        if address == 0 {
            return addrs;
        }
        let mut cur = match self.cursor_at(address) {
            Some(c) => c,
            None => return addrs,
        };
        let ghost f = *self.macho;
        let ghost o = cur.pos();
        let count = cur.read_ptr();
        let ps = self.macho.ptr_size();
        let mut k: u64 = 0;
        while k < count && cur.offset() <= usize::MAX - ps
            invariant
                f == *self.macho,
                ps == f.spec_ptr_size(),
                cur.bytes() == f.data@,
                cur.order() == f.byte_order,
                cur.word() == ps,
                k <= count,
                cur.pos() == entry_off(o + ps, ps as int, k as int),
                fit_count(o + ps, ps as int, count as nat) == k + fit_count(cur.pos(), ps as int, (count - k) as nat),
                addrs@.len() == nonzero_entries(f, o + ps, ps as int, 0, k as nat).len(),
                forall|j: int|
                    0 <= j < addrs@.len() ==> #[trigger] addrs@[j] == word_at(
                        f,
                        nonzero_entries(f, o + ps, ps as int, 0, k as nat)[j],
                    ),
            decreases count - k,
        {
            let v = cur.read_ptr();
            if v != 0 {
                addrs.push(v);
            }
            proof {
                crate::loadcmd::lemma_entry_step(o + ps, ps as int, k as int);
            }
            k = k + 1;
        }
        proof {
            crate::loadcmd::lemma_fit_done(cur.pos(), ps as int, (count - k) as nat);
            assert(addrs@ =~= protocol_list(f, address));
        }
        addrs
    }

    fn read_class_ro(&self, address: u64) -> (r: Option<ClassRo>)
        ensures
            match cursor_off(*self.macho, address) {
                Some(o) => r matches Some(ro) && ro.name == ro_field(*self.macho, o, 1) && ro.base_methods
                    == ro_field(*self.macho, o, 2) && ro.base_protocols == ro_field(*self.macho, o, 3)
                    && ro.ivars == ro_field(*self.macho, o, 4) && ro.base_properties == ro_field(*self.macho, o, 6),
                None => r is None,
            },
    {
        let mut cur = match self.cursor_at(address) {
            Some(c) => c,
            None => return None,
        };
        let _flags = cur.read_u32();
        let _instance_start = cur.read_u32();
        let _instance_size = cur.read_u32();
        if self.macho.uses64 {
            let _reserved = cur.read_u32();
        }
        let _ivar_layout = cur.read_ptr();
        let name = cur.read_ptr();
        let base_methods = cur.read_ptr();
        let base_protocols = cur.read_ptr();
        let ivars = cur.read_ptr();
        let _weak_ivar_layout = cur.read_ptr();
        let base_properties = cur.read_ptr();
        Some(ClassRo { name, base_methods, base_protocols, ivars, base_properties })
    }
}


/// The stride of a method-list entry.
pub open spec fn method_stride(f: MachOFile, o: int) -> int {
    if u32_at(f, o) & 0x8000_0000 != 0 { 12 } else { 3 * f.spec_ptr_size() }
}

/// The file offset of the extended-types cursor, if any.
pub open spec fn ext_pos(ext: Option<Cursor>) -> Option<int> {
    match ext {
        Some(c) => Some(c.pos()),
        None => None,
    }
}

impl<'a> Processor<'a> {
    /// The methods of the method list at `address`, last entry first.  With
    /// an extended-types cursor, each method's types come from the next
    /// pointer of that cursor instead.
    fn load_methods(&self, address: u64, ext: Option<Cursor<'a>>) -> (r: (Vec<Method>, Option<Cursor<'a>>))
        requires
            ext matches Some(c) ==> c.bytes() == self.macho.data@ && c.order() == self.macho.byte_order
                && c.word() == self.macho.spec_ptr_size(),
        ensures
            methods_read_from(r.0@, *self.macho, address, ext_pos(ext)),
            match ext {
                Some(c) => r.1 matches Some(c2) && c2.same_source(&c) && c2.pos() == c.pos() + r.0@.len()
                    * self.macho.spec_ptr_size(),
                None => r.1 is None,
            },
            r.1 matches Some(c) ==> c.bytes() == self.macho.data@ && c.order() == self.macho.byte_order
                && c.word() == self.macho.spec_ptr_size(),
    {
        let mut methods: Vec<Method> = Vec::new();
        if address == 0 {
            return (methods, ext);
        }
        let mut cur = match self.cursor_at(address) {
            Some(c) => c,
            None => return (methods, ext),
        };
        let ghost f = *self.macho;
        let ghost o = cur.pos();
        let ghost ep = ext_pos(ext);
        let has_ext = ext.is_some();
        let mut ec = match ext {
            Some(c) => c,
            None => Cursor::new(self.macho.data.as_slice(), self.macho.byte_order, self.macho.ptr_size()),
        };
        let ghost ec0 = ec;
        let entsize_and_flags = cur.read_u32();
        let count = cur.read_u32();
        let is_small = (entsize_and_flags & 0x8000_0000) != 0;
        let direct_selectors = (entsize_and_flags & 0x4000_0000) != 0;
        let ps = self.macho.ptr_size();
        let stride: usize = if is_small { 12 } else { 3 * ps };
        let mut k: u32 = 0;
        while k < count && cur.offset() <= usize::MAX - stride && (!has_ext || ec.offset() <= usize::MAX - ps)
            invariant
                f == *self.macho,
                ps == f.spec_ptr_size(),
                stride == method_stride(f, o),
                entsize_and_flags == u32_at(f, o),
                is_small == (entsize_and_flags & 0x8000_0000 != 0),
                direct_selectors == (entsize_and_flags & 0x4000_0000 != 0),
                cur.bytes() == f.data@,
                cur.order() == f.byte_order,
                cur.word() == ps,
                ec.bytes() == f.data@,
                ec.order() == f.byte_order,
                ec.word() == ps,
                ec.same_source(&ec0),
                has_ext == ep is Some,
                has_ext ==> ec.pos() == ep.unwrap() + k * ps,
                !has_ext ==> ec == ec0,
                k <= count,
                methods@.len() == k,
                cur.pos() == entry_off(o + 8, stride as int, k as int),
                fit_count(o + 8, stride as int, count as nat) == k + fit_count(cur.pos(), stride as int, (count - k) as nat),
                forall|j: int| 0 <= j < k ==> method_is(#[trigger] methods@[j], method_entry(f, address, o, j, ep)),
            decreases count - k,
        {
            let name;
            let mut types;
            if is_small {
                let index = k as u64;
                let name_field_address = address.wrapping_add(8 + index * 12);
                let name_offset = cur.read_u32();
                let types_offset = cur.read_u32();
                let _imp_offset = cur.read_u32();
                let target = name_field_address.wrapping_add(name_offset as i32 as i64 as u64);
                let name_address = if direct_selectors {
                    target
                } else {
                    match self.cursor_at(target) {
                        Some(mut c) => c.read_ptr(),
                        None => 0,
                    }
                };
                name = match self.macho.string_at_address(name_address) {
                    Some(s) => s,
                    None => Vec::new(),
                };
                let types_address = name_field_address.wrapping_add(4).wrapping_add(types_offset as i32 as i64 as u64);
                types = match self.macho.string_at_address(types_address) {
                    Some(s) => s,
                    None => Vec::new(),
                };
                assert(o + 8 + k * 12 == entry_off(o + 8, 12, k as int));
            } else {
                let name_ptr = cur.read_ptr();
                let types_ptr = cur.read_ptr();
                let _imp = cur.read_ptr();
                name = match self.macho.string_at_address(name_ptr) {
                    Some(s) => s,
                    None => Vec::new(),
                };
                types = match self.macho.string_at_address(types_ptr) {
                    Some(s) => s,
                    None => Vec::new(),
                };
                assert(o + 8 + k * 3 * ps == entry_off(o + 8, 3 * ps, k as int)) by (nonlinear_arith);
            }
            if has_ext {
                let e = ec.read_ptr();
                types = match self.macho.string_at_address(e) {
                    Some(s) => s,
                    None => Vec::new(),
                };
                assert(ep.unwrap() + k * ps + ps == ep.unwrap() + (k + 1) * ps) by (nonlinear_arith);
            }
            methods.push(Method { name, type_string: types });
            proof {
                crate::loadcmd::lemma_entry_step(o + 8, stride as int, k as int);
            }
            k = k + 1;
        }
        proof {
            if k < count && cur.pos() <= usize::MAX - stride {
            } else {
                crate::loadcmd::lemma_fit_done(cur.pos(), stride as int, (count - k) as nat);
            }
        }
        // Reverse the list.
        let ghost fwd = methods@;
        let mut rev: Vec<Method> = Vec::new();
        while methods.len() > 0
            invariant
                fwd.len() == methods@.len() + rev@.len(),
                forall|j: int| 0 <= j < methods@.len() ==> #[trigger] methods@[j] == fwd[j],
                forall|j: int| 0 <= j < rev@.len() ==> #[trigger] rev@[j] == fwd[fwd.len() - 1 - j],
            decreases methods@.len(),
        {
            let m = methods.pop().unwrap();
            rev.push(m);
        }
        let ext_out = if has_ext { Some(ec) } else { None };
        (rev, ext_out)
    }
}


/// A protocol with no name, methods or properties: the placeholder registered
/// while a protocol is being read, so that cycles of adopted protocols end.
/// The placeholder registered for an address while its protocol is read:
/// no name, nothing adopted, no methods or properties.
pub open spec fn placeholder(p: Protocol) -> bool {
    &&& p.name@.len() == 0
    &&& p.adopted_protocols@.len() == 0
    &&& p.instance_methods@.len() == 0
    &&& p.class_methods@.len() == 0
    &&& p.optional_instance_methods@.len() == 0
    &&& p.optional_class_methods@.len() == 0
    &&& p.properties@.len() == 0
}

/// Protocol `p` is what was read at `address`; where no protocol can be
/// read, the placeholder stays.
pub open spec fn protocol_loaded(p: Protocol, f: MachOFile, address: u64) -> bool {
    match cursor_off(f, address) {
        None => placeholder(p),
        Some(o) => protocol_read(p, f, o),
    }
}

fn empty_protocol() -> (p: Protocol)
    ensures
        placeholder(p),
{
    Protocol {
        name: Vec::new(),
        adopted_protocols: Vec::new(),
        instance_methods: Vec::new(),
        class_methods: Vec::new(),
        optional_instance_methods: Vec::new(),
        optional_class_methods: Vec::new(),
        properties: Vec::new(),
    }
}

impl<'a> Processor<'a> {
    /// The uniquer's bookkeeping: each registered address is listed once in
    /// discovery order, only registered addresses are listed, and each
    /// registered protocol has no name or the name read at its address.
    pub open spec fn inv(&self) -> bool {
        &&& self.order().no_duplicates()
        &&& forall|a: u64| #[trigger] self.registered().contains_key(a) <==> self.order().contains(a)
        &&& forall|a: u64| #[trigger] self.registered().contains_key(a) ==> name_read_ok(self.registered()[a].name@, self.file(), a)
    }

    /// Look up a protocol address in the uniquer.
    fn uniqued_protocol_name(&self, address: u64) -> (r: Option<Vec<u8>>)
        ensures
            match r {
                Some(n) => self.registered().contains_key(address) && n@ == self.registered()[address].name@,
                None => !self.registered().contains_key(address),
            },
    {
        match self.protocols_by_address.get(&address) {
            Some(p) => Some(to_vec(p.name.as_slice())),
            None => None,
        }
    }

    /// The name of the class object at `address`, through its `class_ro_t`.
    fn read_superclass_name(&self, address: u64) -> (r: Option<Vec<u8>>)
        ensures
            match class_name_at(*self.macho, address) {
                Some(n) => r matches Some(v) && v@ == n,
                None => r is None,
            },
    {
        let mut cur = match self.cursor_at(address) {
            Some(c) => c,
            None => return None,
        };
        let _isa = cur.read_ptr();
        let _superclass = cur.read_ptr();
        let _cache = cur.read_ptr();
        let _vtable = cur.read_ptr();
        let data = cur.read_ptr() & !7u64;
        if data == 0 {
            return None;
        }
        let ro = match self.read_class_ro(data) {
            Some(r) => r,
            None => return None,
        };
        self.macho.string_at_address(ro.name)
    }

    /// The method list of the metaclass at `isa`.
    fn read_class_meta_ro(&self, isa: u64) -> (r: Option<u64>)
        ensures
            r == meta_methods(*self.macho, isa),
    {
        let mut cur = match self.cursor_at(isa) {
            Some(c) => c,
            None => return None,
        };
        let _isa = cur.read_ptr();
        let _superclass = cur.read_ptr();
        let _cache = cur.read_ptr();
        let _vtable = cur.read_ptr();
        let data = cur.read_ptr() & !7u64;
        if data == 0 {
            return None;
        }
        match self.read_class_ro(data) {
            Some(ro) => Some(ro.base_methods),
            None => None,
        }
    }

    /// The names of the registered protocols of a protocol list, deduplicated.
    fn uniqued_protocols(&self, list: u64) -> (r: Vec<Vec<u8>>)
        ensures
            name_list(r@) == dedup_names(self.registered(), protocol_list(*self.macho, list)),
    {
        let addrs = self.protocol_address_list(list);
        let mut names: Vec<Vec<u8>> = Vec::new();
        let mut i: usize = 0;
        while i < addrs.len()
            invariant
                i <= addrs@.len(),
                addrs@ == protocol_list(*self.macho, list),
                name_list(names@) == dedup_names(self.registered(), addrs@.subrange(0, i as int)),
            decreases addrs@.len() - i,
        {
            proof {
                assert(addrs@.subrange(0, i + 1).drop_last() =~= addrs@.subrange(0, i as int));
            }
            match self.uniqued_protocol_name(addrs[i]) {
                Some(n) => push_unique(&mut names, n),
                None => {},
            }
            i = i + 1;
        }
        assert(addrs@.subrange(0, addrs@.len() as int) =~= addrs@);
        names
    }

    fn load_class_at(&self, address: u64) -> (r: Option<Class>)
        ensures
            r is Some <==> class_exists(*self.macho, address),
            r matches Some(c) ==> class_read(c, *self.macho, self.registered(), address),
    {
        if address == 0 {
            return None;
        }
        let mut cur = match self.cursor_at(address) {
            Some(c) => c,
            None => return None,
        };
        let isa = cur.read_ptr();
        let superclass = cur.read_ptr();
        let _cache = cur.read_ptr();
        let _vtable = cur.read_ptr();
        let data_val = cur.read_ptr();
        let is_swift = (data_val & 1) != 0;
        let data = data_val & !7u64;
        if data == 0 {
            return None;
        }
        let ro = match self.read_class_ro(data) {
            Some(r) => r,
            None => return None,
        };
        let name = match self.macho.string_at_address(ro.name) {
            Some(s) => s,
            None => Vec::new(),
        };
        let (instance_methods, _none) = self.load_methods(ro.base_methods, None);
        let ivars = self.load_ivars(ro.ivars);
        let properties = self.load_properties(ro.base_properties);
        let protocols = self.uniqued_protocols(ro.base_protocols);
        let mut class_methods: Vec<Method> = Vec::new();
        if isa != 0 {
            match self.read_class_meta_ro(isa) {
                Some(meta) => {
                    let (ms, _none) = self.load_methods(meta, None);
                    class_methods = ms;
                },
                None => {},
            }
        }
        let is_exported = match self.macho.class_symbol(name.as_slice()) {
            Some(sym) => sym.is_external(),
            None => false,
        };
        let class_name_address = address.wrapping_add(self.macho.ptr_size() as u64);
        let superclass_name = if self.macho.has_relocation_entry_for_address(class_name_address) {
            self.macho.external_class_name_for_address(class_name_address)
        } else if superclass != 0 {
            self.read_superclass_name(superclass)
        } else {
            None
        };
        Some(Class {
            name,
            superclass_name,
            is_swift,
            is_exported,
            protocols,
            instance_methods,
            class_methods,
            ivars,
            properties,
        })
    }
}


/// The (selector, types) pairs of a method list.
pub open spec fn method_list(ms: Seq<Method>) -> Seq<(Seq<u8>, Seq<u8>)> {
    ms.map_values(|m: Method| (m.name@, m.type_string@))
}

/// The (name, attributes) pairs of a property list.
pub open spec fn property_list(ps: Seq<Property>) -> Seq<(Seq<u8>, Seq<u8>)> {
    ps.map_values(|p: Property| (p.name@, p.attributes@))
}

/// Two protocols with the same contents.
pub open spec fn same_protocol(a: Protocol, b: Protocol) -> bool {
    &&& a.name@ == b.name@
    &&& name_list(a.adopted_protocols@) == name_list(b.adopted_protocols@)
    &&& method_list(a.instance_methods@) == method_list(b.instance_methods@)
    &&& method_list(a.class_methods@) == method_list(b.class_methods@)
    &&& method_list(a.optional_instance_methods@) == method_list(b.optional_instance_methods@)
    &&& method_list(a.optional_class_methods@) == method_list(b.optional_class_methods@)
    &&& property_list(a.properties@) == property_list(b.properties@)
}

fn clone_methods(v: &Vec<Method>) -> (r: Vec<Method>)
    ensures
        method_list(r@) == method_list(v@),
{
    let mut r: Vec<Method> = Vec::new();
    let mut i: usize = 0;
    while i < v.len()
        invariant
            i <= v@.len(),
            r@.len() == i,
            forall|j: int| 0 <= j < i ==> (#[trigger] r@[j]).name@ == v@[j].name@ && r@[j].type_string@ == v@[j].type_string@,
        decreases v@.len() - i,
    {
        r.push(Method { name: to_vec(v[i].name.as_slice()), type_string: to_vec(v[i].type_string.as_slice()) });
        i = i + 1;
    }
    assert(method_list(r@) =~= method_list(v@));
    r
}

fn clone_properties(v: &Vec<Property>) -> (r: Vec<Property>)
    ensures
        property_list(r@) == property_list(v@),
{
    let mut r: Vec<Property> = Vec::new();
    let mut i: usize = 0;
    while i < v.len()
        invariant
            i <= v@.len(),
            r@.len() == i,
            forall|j: int| 0 <= j < i ==> (#[trigger] r@[j]).name@ == v@[j].name@ && r@[j].attributes@ == v@[j].attributes@,
        decreases v@.len() - i,
    {
        r.push(Property { name: to_vec(v[i].name.as_slice()), attributes: to_vec(v[i].attributes.as_slice()) });
        i = i + 1;
    }
    assert(property_list(r@) =~= property_list(v@));
    r
}

fn clone_names(v: &Vec<Vec<u8>>) -> (r: Vec<Vec<u8>>)
    ensures
        name_list(r@) == name_list(v@),
{
    let mut r: Vec<Vec<u8>> = Vec::new();
    let mut i: usize = 0;
    while i < v.len()
        invariant
            i <= v@.len(),
            r@.len() == i,
            forall|j: int| 0 <= j < i ==> (#[trigger] r@[j])@ == v@[j]@,
        decreases v@.len() - i,
    {
        r.push(to_vec(v[i].as_slice()));
        i = i + 1;
    }
    assert(name_list(r@) =~= name_list(v@));
    r
}

fn clone_protocol(p: &Protocol) -> (r: Protocol)
    ensures
        same_protocol(r, *p),
{
    Protocol {
        name: to_vec(p.name.as_slice()),
        adopted_protocols: clone_names(&p.adopted_protocols),
        instance_methods: clone_methods(&p.instance_methods),
        class_methods: clone_methods(&p.class_methods),
        optional_instance_methods: clone_methods(&p.optional_instance_methods),
        optional_class_methods: clone_methods(&p.optional_class_methods),
        properties: clone_properties(&p.properties),
    }
}

/// The extended-types position after `n` more pointers were read.
pub open spec fn advance_ext(e: Option<int>, n: nat, ps: int) -> Option<int> {
    match e {
        Some(p) => Some(p + n * ps),
        None => None,
    }
}

/// The vm address of the extended method types of the protocol at file
/// offset `o`, or 0 when the record is too short to hold one.
pub open spec fn protocol_ext(f: MachOFile, o: int) -> u64 {
    let ps = f.spec_ptr_size();
    if u32_at(f, o + 8 * ps) > 8 * ps + 8 {
        word_at(f, o + 8 * ps + 8)
    } else {
        0
    }
}

/// The name of the protocol that can be read at `address`; empty if none.
pub open spec fn read_name_at(f: MachOFile, address: u64) -> Seq<u8> {
    match cursor_off(f, address) {
        Some(o) => string_or_empty(f, word_at(f, o + f.spec_ptr_size())),
        None => Seq::empty(),
    }
}

/// `n` is empty or the name of the protocol at `address`.
pub open spec fn name_read_ok(n: Seq<u8>, f: MachOFile, address: u64) -> bool {
    n.len() == 0 || n == read_name_at(f, address)
}

/// Each adopted name is empty (a protocol still being read when it was
/// adopted, or one that could not be read before) or the name of one of
/// the protocols at `addrs`.
pub open spec fn adopted_from(names: Seq<Seq<u8>>, f: MachOFile, addrs: Seq<u64>) -> bool {
    forall|j: int|
        0 <= j < names.len() ==> (#[trigger] names[j]).len() == 0 || exists|k: int|
            0 <= k < addrs.len() && names[j] == read_name_at(f, #[trigger] addrs[k])
}

/// Each listed protocol that can be read contributes its name, or an empty
/// name where it was still being read when adopted (a cycle).
pub open spec fn adopted_complete(names: Seq<Seq<u8>>, f: MachOFile, addrs: Seq<u64>) -> bool {
    forall|k: int|
        0 <= k < addrs.len() && cursor_off(f, #[trigger] addrs[k]) is Some ==> names.contains(read_name_at(f, addrs[k]))
            || names.contains(Seq::<u8>::empty())
}

/// Protocol `p` is what `protocol_at` read at file offset `o`: its name,
/// properties and four method lists, the lists sharing one run of extended
/// type pointers; its adopted protocols are listed once each (see
/// `adopted_from` and `adopted_complete`).
pub open spec fn protocol_read(p: Protocol, f: MachOFile, o: int) -> bool {
    let ps = f.spec_ptr_size();
    let ext = protocol_ext(f, o);
    let e0 = if ext != 0 { cursor_off(f, ext) } else { None };
    let e1 = advance_ext(e0, p.instance_methods@.len(), ps);
    let e2 = advance_ext(e1, p.class_methods@.len(), ps);
    let e3 = advance_ext(e2, p.optional_instance_methods@.len(), ps);
    &&& p.name@ == string_or_empty(f, word_at(f, o + ps))
    &&& name_list(p.adopted_protocols@).no_duplicates()
    &&& adopted_from(name_list(p.adopted_protocols@), f, protocol_list(f, word_at(f, o + 2 * ps)))
    &&& adopted_complete(name_list(p.adopted_protocols@), f, protocol_list(f, word_at(f, o + 2 * ps)))
    &&& properties_read(p.properties@, f, word_at(f, o + 7 * ps))
    &&& methods_read_from(p.instance_methods@, f, word_at(f, o + 3 * ps), e0)
    &&& methods_read_from(p.class_methods@, f, word_at(f, o + 4 * ps), e1)
    &&& methods_read_from(p.optional_instance_methods@, f, word_at(f, o + 5 * ps), e2)
    &&& methods_read_from(p.optional_class_methods@, f, word_at(f, o + 6 * ps), e3)
}

/// The pointer fields of a `protocol_t`.
struct ProtocolHeader {
    name: u64,
    protocols: u64,
    instance_methods: u64,
    class_methods: u64,
    optional_instance_methods: u64,
    optional_class_methods: u64,
    instance_properties: u64,
    ext_types: u64,
}

impl<'a> Processor<'a> {
    /// The state `self` grew from `before`: same file, every protocol
    /// registered before still there unchanged, the discovery order extended.
    pub open spec fn extends(&self, before: &Self) -> bool {
        &&& self.file() == before.file()
        &&& forall|a: u64| #[trigger] before.registered().contains_key(a) ==> self.registered().contains_key(a)
            && self.registered()[a] == before.registered()[a]
        &&& before.order().len() <= self.order().len()
        &&& self.order().subrange(0, before.order().len() as int) == before.order()
    }

    fn read_protocol_header(&self, address: u64) -> (r: Option<ProtocolHeader>)
        ensures
            match cursor_off(*self.macho, address) {
                Some(o) => r matches Some(h) && {
                    let f = *self.macho;
                    let ps = f.spec_ptr_size();
                    &&& h.name == word_at(f, o + ps)
                    &&& h.protocols == word_at(f, o + 2 * ps)
                    &&& h.instance_methods == word_at(f, o + 3 * ps)
                    &&& h.class_methods == word_at(f, o + 4 * ps)
                    &&& h.optional_instance_methods == word_at(f, o + 5 * ps)
                    &&& h.optional_class_methods == word_at(f, o + 6 * ps)
                    &&& h.instance_properties == word_at(f, o + 7 * ps)
                    &&& h.ext_types == protocol_ext(f, o)
                },
                None => r is None,
            },
    {
        let mut cur = match self.cursor_at(address) {
            Some(c) => c,
            None => return None,
        };
        let _isa = cur.read_ptr();
        let name = cur.read_ptr();
        let protocols = cur.read_ptr();
        let instance_methods = cur.read_ptr();
        let class_methods = cur.read_ptr();
        let optional_instance_methods = cur.read_ptr();
        let optional_class_methods = cur.read_ptr();
        let instance_properties = cur.read_ptr();
        let size = cur.read_u32();
        let _flags = cur.read_u32();
        let ptr = self.macho.ptr_size() as u64;
        let ext_types = if size as u64 > 8 * ptr + 8 { cur.read_ptr() } else { 0 };
        Some(ProtocolHeader {
            name,
            protocols,
            instance_methods,
            class_methods,
            optional_instance_methods,
            optional_class_methods,
            instance_properties,
            ext_types,
        })
    }

    /// Register a placeholder for `address`, so that a cycle of adopted
    /// protocols ends there.
    fn reserve(&mut self, address: u64)
        requires
            old(self).inv(),
            !old(self).registered().contains_key(address),
        ensures
            final(self).inv(),
            final(self).file() == old(self).file(),
            final(self).registered() == old(self).registered().insert(address, final(self).registered()[address]),
            placeholder(final(self).registered()[address]),
            final(self).order() == old(self).order().push(address),
    {
        let ghost len0: int = self.order().len() as int;
        self.protocols_by_address.insert(address, empty_protocol());
        self.protocol_order.push(address);
        proof {
            assert(!old(self).order().contains(address)) by {
                assert(old(self).registered().contains_key(address) <==> old(self).order().contains(address));
            }
            assert forall|a: u64| #[trigger] self.registered().contains_key(a) <==> self.order().contains(a) by {
                assert(old(self).registered().contains_key(a) <==> old(self).order().contains(a));
                if a != address {
                    if old(self).order().contains(a) {
                        let j = choose|j: int| 0 <= j < old(self).order().len() && old(self).order()[j] == a;
                        assert(self.order()[j] == a);
                    }
                    if self.order().contains(a) {
                        let j = choose|j: int| 0 <= j < self.order().len() && self.order()[j] == a;
                        assert(old(self).order()[j] == a);
                    }
                } else {
                    assert(self.order()[len0] == a);
                }
            }
            assert forall|i: int, j: int| 0 <= i < self.order().len() && 0 <= j < self.order().len() && i != j
                implies self.order()[i] != self.order()[j] by {
                if i < len0 && j < len0 {
                } else if i == len0 {
                    assert(old(self).order()[j] == self.order()[j]);
                } else {
                    assert(old(self).order()[i] == self.order()[i]);
                }
            }
            assert(self.registered() =~= old(self).registered().insert(address, self.registered()[address]));
        }
    }

    /// Replace the entry of a registered address.
    fn finish(&mut self, address: u64, p: Protocol)
        requires
            old(self).inv(),
            old(self).registered().contains_key(address),
            name_read_ok(p.name@, old(self).file(), address),
        ensures
            final(self).inv(),
            final(self).file() == old(self).file(),
            final(self).registered() == old(self).registered().insert(address, p),
            final(self).order() == old(self).order(),
    {
        self.protocols_by_address.insert(address, p);
        proof {
            assert forall|a: u64| #[trigger] self.registered().contains_key(a) <==> self.order().contains(a) by {
                assert(old(self).registered().contains_key(a) <==> old(self).order().contains(a));
            }
        }
    }
}

/// Every state grew from itself.
proof fn lemma_extends_refl(a: Processor)
    ensures
        a.extends(&a),
{
    assert(a.order().subrange(0, a.order().len() as int) =~= a.order());
}

/// Growth is transitive.
proof fn lemma_extends_trans(a: Processor, b: Processor, c: Processor)
    requires
        b.extends(&a),
        c.extends(&b),
    ensures
        c.extends(&a),
{
    assert(c.order().subrange(0, a.order().len() as int) =~= c.order().subrange(0, b.order().len() as int).subrange(
        0,
        a.order().len() as int,
    ));
}

impl<'a> Processor<'a> {
    /// Every protocol registered since `before` holds what was read at its
    /// address.
    pub open spec fn loaded_since(&self, before: &Self) -> bool {
        forall|a: u64|
            #[trigger] self.registered().contains_key(a) && !before.registered().contains_key(a) ==> protocol_loaded(
                self.registered()[a],
                self.file(),
                a,
            )
    }
}

proof fn lemma_loaded_refl(a: Processor)
    ensures
        a.loaded_since(&a),
{
}

proof fn lemma_loaded_trans(a: Processor, b: Processor, c: Processor)
    requires
        b.loaded_since(&a),
        c.loaded_since(&b),
        c.extends(&b),
    ensures
        c.loaded_since(&a),
{
    assert forall|x: u64| #[trigger] c.registered().contains_key(x) && !a.registered().contains_key(x) implies protocol_loaded(
        c.registered()[x],
        c.file(),
        x,
    ) by {
        if b.registered().contains_key(x) {
            assert(c.registered()[x] == b.registered()[x]);
        }
    }
}

/// The discovery order after loading the protocol at `a` from order `o`: a
/// nonzero address not yet listed is appended, then, where a protocol can be
/// read there, the protocols it adopts are loaded in list order.
pub open spec fn visit_protocol(f: MachOFile, o: Seq<u64>, a: u64) -> Seq<u64>
    decreases usize::MAX - o.len(), 0nat,
{
    if a == 0 || o.contains(a) || o.len() >= usize::MAX {
        o
    } else {
        match cursor_off(f, a) {
            None => o.push(a),
            Some(off) => visit_protocols(f, o.push(a), protocol_list(f, word_at(f, off + 2 * f.spec_ptr_size()))),
        }
    }
}

/// The discovery order after loading the protocols at `addrs`, in order,
/// from order `o`.
pub open spec fn visit_protocols(f: MachOFile, o: Seq<u64>, addrs: Seq<u64>) -> Seq<u64>
    decreases usize::MAX - o.len(), addrs.len() + 1,
{
    if addrs.len() == 0 || o.len() > usize::MAX {
        o
    } else {
        let o2 = visit_protocols(f, o, addrs.drop_last());
        if o2.len() < o.len() || o2.len() > usize::MAX {
            o2
        } else {
            visit_protocol(f, o2, addrs.last())
        }
    }
}

impl<'a> Processor<'a> {
    /// Load (uniquing) the protocol at `address`; returns its name.
    fn protocol_at(&mut self, address: u64) -> (r: Option<Vec<u8>>)
        requires
            old(self).inv(),
        ensures
            final(self).inv(),
            final(self).extends(old(self)),
            final(self).loaded_since(old(self)),
            final(self).order() == visit_protocol(old(self).file(), old(self).order(), address),
            r matches Some(n) ==> name_read_ok(n@, old(self).file(), address),
            cursor_off(old(self).file(), address) is Some ==> r is Some,
            address == 0 ==> r is None && *final(self) == *old(self),
            address != 0 && old(self).registered().contains_key(address) ==> *final(self) == *old(self) && (r matches Some(
                n,
            ) && n@ == old(self).registered()[address].name@),
            address != 0 && !old(self).registered().contains_key(address) ==> {
                &&& final(self).registered().contains_key(address)
                &&& final(self).order().len() > old(self).order().len()
                &&& final(self).order()[old(self).order().len() as int] == address
                &&& match cursor_off(old(self).file(), address) {
                    None => r is None && final(self).registered()[address].name@.len() == 0,
                    Some(o) => r matches Some(n) && n@ == final(self).registered()[address].name@ && protocol_read(
                        final(self).registered()[address],
                        old(self).file(),
                        o,
                    ),
                }
            },
        decreases usize::MAX - old(self).order().len(),
    {
        proof {
            lemma_extends_refl(*self);
            lemma_loaded_refl(*self);
        }
        if address == 0 {
            return None;
        }
        match self.protocols_by_address.get(&address) {
            Some(p) => {
                proof {
                    assert(self.registered().contains_key(address));
                    assert(self.order().contains(address));
                }
                return Some(to_vec(p.name.as_slice()));
            },
            None => {},
        }
        let ghost o0 = self.order();
        assert(!self.registered().contains_key(address));
        assert(!o0.contains(address));
        self.reserve(address);
        let ghost mid = *self;
        proof {
            assert(self.protocol_order@.len() == self.protocol_order.len());
            assert(o0.len() < usize::MAX);
            assert(mid.order().subrange(0, old(self).order().len() as int) =~= old(self).order());
            assert(mid.extends(old(self)));
        }
        let h = match self.read_protocol_header(address) {
            Some(h) => h,
            None => {
                assert(self.loaded_since(old(self))) by {
                    assert forall|a: u64| #[trigger] self.registered().contains_key(a) && !old(self).registered().contains_key(a) implies protocol_loaded(
                        self.registered()[a],
                        self.file(),
                        a,
                    ) by {
                        assert(a == address);
                    }
                }
                return None;
            },
        };
        let ghost f = *self.macho;
        let name = match self.macho.string_at_address(h.name) {
            Some(s) => s,
            None => Vec::new(),
        };
        let addrs = self.protocol_address_list(h.protocols);
        let mut adopted: Vec<Vec<u8>> = Vec::new();
        proof {
            lemma_extends_refl(*self);
            lemma_loaded_refl(*self);
        }
        let mut i: usize = 0;
        while i < addrs.len()
            invariant
                self.inv(),
                self.extends(&mid),
                self.loaded_since(&mid),
                mid.file() == f,
                i <= addrs@.len(),
                mid.registered().contains_key(address),
                self.registered()[address].name@.len() == 0,
                mid.order().len() == old(self).order().len() + 1,
                mid.order() == o0.push(address),
                o0 == old(self).order(),
                self.order() == visit_protocols(f, mid.order(), addrs@.subrange(0, i as int)),
                name_list(adopted@).no_duplicates(),
                adopted_from(name_list(adopted@), f, addrs@),
                adopted_complete(name_list(adopted@), f, addrs@.subrange(0, i as int)),
            decreases addrs@.len() - i,
        {
            proof {
                assert(self.protocol_order@.len() == self.protocol_order.len());
            }
            let ghost before = *self;
            let ghost names_before = name_list(adopted@);
            match self.protocol_at(addrs[i]) {
                Some(n) => {
                    let ghost nv = n@;
                    push_unique(&mut adopted, n);
                    proof {
                        let nl = name_list(adopted@);
                        assert forall|j: int| 0 <= j < nl.len() implies (#[trigger] nl[j]).len() == 0 || exists|k: int|
                            0 <= k < addrs@.len() && nl[j] == read_name_at(f, #[trigger] addrs@[k]) by {
                            if j < names_before.len() {
                                assert(nl[j] == names_before[j]);
                            } else {
                                assert(nl[j] == nv);
                                assert(nv == read_name_at(f, addrs@[i as int]) || nv.len() == 0);
                            }
                        }
                        assert(nl.contains(nv)) by {
                            if names_before.contains(nv) {
                                assert(nl == names_before);
                            } else {
                                assert(nl[names_before.len() as int] == nv);
                            }
                        }
                        assert forall|y: Seq<u8>| names_before.contains(y) implies nl.contains(y) by {
                            if !names_before.contains(nv) {
                                let j = choose|j: int| 0 <= j < names_before.len() && names_before[j] == y;
                                assert(nl[j] == y);
                            }
                        }
                        if nv.len() == 0 {
                            assert(nv =~= Seq::<u8>::empty());
                        }
                    }
                },
                None => {},
            }
            proof {
                lemma_extends_trans(mid, before, *self);
                lemma_loaded_trans(mid, before, *self);
                assert(before.protocol_order@.len() <= usize::MAX);
                assert(addrs@.subrange(0, i + 1).drop_last() =~= addrs@.subrange(0, i as int));
                assert(self.order() == visit_protocols(f, mid.order(), addrs@.subrange(0, i + 1)));
                let sub = addrs@.subrange(0, i + 1);
                let nl = name_list(adopted@);
                assert forall|k: int| 0 <= k < sub.len() && cursor_off(f, #[trigger] sub[k]) is Some implies nl.contains(
                    read_name_at(f, sub[k]),
                ) || nl.contains(Seq::<u8>::empty()) by {
                    if k < i {
                        assert(sub[k] == addrs@.subrange(0, i as int)[k]);
                        let prev = names_before;
                        assert(prev.contains(read_name_at(f, sub[k])) || prev.contains(Seq::<u8>::empty()));
                    }
                }
            }
            i = i + 1;
        }
        assert(addrs@.subrange(0, addrs@.len() as int) =~= addrs@);
        // One extended-types cursor is shared by all four method lists.
        let ext_cur = if h.ext_types != 0 { self.cursor_at(h.ext_types) } else { None };
        let (im, ext_cur) = self.load_methods(h.instance_methods, ext_cur);
        let (cm, ext_cur) = self.load_methods(h.class_methods, ext_cur);
        let (oim, ext_cur) = self.load_methods(h.optional_instance_methods, ext_cur);
        let (ocm, _ext_cur) = self.load_methods(h.optional_class_methods, ext_cur);
        let props = self.load_properties(h.instance_properties);
        let result_name = to_vec(name.as_slice());
        let p = Protocol {
            name,
            adopted_protocols: adopted,
            instance_methods: im,
            class_methods: cm,
            optional_instance_methods: oim,
            optional_class_methods: ocm,
            properties: props,
        };
        let ghost pre = *self;
        self.finish(address, p);
        proof {
            lemma_extends_trans(*old(self), mid, pre);
            assert(self.extends(old(self)));
            assert forall|a: u64| #[trigger] self.registered().contains_key(a) && !old(self).registered().contains_key(a) implies protocol_loaded(
                self.registered()[a],
                self.file(),
                a,
            ) by {
                if a != address {
                    assert(pre.registered().contains_key(a) && !mid.registered().contains_key(a));
                    assert(self.registered()[a] == pre.registered()[a]);
                }
            }
        }
        Some(result_name)
    }
}


/// The pointers of a pointer-list section: entry `k` is the word at vm
/// address `addr + k * ptr_size`, or 0 where that address is not mapped.
pub open spec fn section_pointers(f: MachOFile, s: Section) -> Seq<u64> {
    let ps = f.spec_ptr_size();
    Seq::new((s.size / (ps as u64)) as nat, |k: int| ptr_at_addr(f, s.addr.wrapping_add((k * ps) as u64)))
}

/// The pointers of the first section named `sectname`; empty without one.
pub open spec fn listed_pointers(f: MachOFile, sectname: Seq<u8>) -> Seq<u64> {
    match first_section(f.segments@, sectname_is(sectname)) {
        Some((i, j)) => section_pointers(f, f.segments@[i].sections@[j]),
        None => Seq::empty(),
    }
}

/// The elements of `v` that satisfy `keep`, in order.
pub open spec fn kept(v: Seq<u64>, keep: spec_fn(u64) -> bool) -> Seq<u64>
    decreases v.len(),
{
    if v.len() == 0 {
        Seq::empty()
    } else {
        let prev = kept(v.drop_last(), keep);
        if keep(v.last()) {
            prev.push(v.last())
        } else {
            prev
        }
    }
}

/// The readable class objects of `__objc_classlist`, in list order.
pub open spec fn class_addresses(f: MachOFile) -> Seq<u64> {
    kept(listed_pointers(f, "__objc_classlist".spec_bytes()), |a: u64| class_exists(f, a))
}

/// The category object at `address` can be read.
pub open spec fn category_exists(f: MachOFile, address: u64) -> bool {
    address != 0 && cursor_off(f, address) is Some
}

/// The readable category objects of `__objc_catlist`, in list order.
pub open spec fn category_addresses(f: MachOFile) -> Seq<u64> {
    kept(listed_pointers(f, "__objc_catlist".spec_bytes()), |a: u64| category_exists(f, a))
}

proof fn lemma_kept_distinct(v: Seq<u64>, keep: spec_fn(u64) -> bool)
    requires
        v.no_duplicates(),
    ensures
        kept(v, keep).no_duplicates(),
        forall|a: u64| #[trigger] kept(v, keep).contains(a) ==> v.contains(a),
    decreases v.len(),
{
    if v.len() > 0 {
        let init = v.drop_last();
        let x = v.last();
        assert(init.no_duplicates());
        lemma_kept_distinct(init, keep);
        let prev = kept(init, keep);
        assert forall|a: u64| kept(v, keep).contains(a) implies v.contains(a) by {
            if prev.contains(a) {
                assert(init.contains(a));
                let j = choose|j: int| 0 <= j < init.len() && init[j] == a;
                assert(v[j] == a);
            } else {
                assert(a == x);
                assert(v[v.len() - 1] == x);
            }
        }
        if keep(x) {
            assert(!prev.contains(x)) by {
                if prev.contains(x) {
                    let j = choose|j: int| 0 <= j < init.len() && init[j] == x;
                    assert(v[j] == v[v.len() - 1]);
                }
            }
            assert forall|i: int, j: int| 0 <= i < j < prev.len() + 1 implies prev.push(x)[i] != prev.push(x)[j] by {
                if j == prev.len() {
                    assert(prev.contains(prev[i]));
                }
            }
        }
    }
}

/// `process` reads each class once when `__objc_classlist` lists each class
/// pointer once: the addresses of the classes it returns have no duplicates.
pub proof fn lemma_classes_distinct(f: MachOFile)
    requires
        listed_pointers(f, "__objc_classlist".spec_bytes()).no_duplicates(),
    ensures
        class_addresses(f).no_duplicates(),
{
    lemma_kept_distinct(listed_pointers(f, "__objc_classlist".spec_bytes()), |a: u64| class_exists(f, a));
}

/// `process` reads each category once when `__objc_catlist` lists each
/// category pointer once: the addresses of the categories it returns have no
/// duplicates.
pub proof fn lemma_categories_distinct(f: MachOFile)
    requires
        listed_pointers(f, "__objc_catlist".spec_bytes()).no_duplicates(),
    ensures
        category_addresses(f).no_duplicates(),
{
    lemma_kept_distinct(listed_pointers(f, "__objc_catlist".spec_bytes()), |a: u64| category_exists(f, a));
}

/// Category `c` is what `load_category_at` reads at `address`, with
/// protocols registered in `reg`.
pub open spec fn category_read(c: Category, f: MachOFile, reg: Map<u64, Protocol>, address: u64) -> bool {
    let o = cursor_off(f, address).unwrap();
    let ps = f.spec_ptr_size();
    &&& c.name@ == string_or_empty(f, word_at(f, o))
    &&& methods_read(c.instance_methods@, f, word_at(f, o + 2 * ps))
    &&& methods_read(c.class_methods@, f, word_at(f, o + 3 * ps))
    &&& name_list(c.protocols@) == dedup_names(reg, protocol_list(f, word_at(f, o + 4 * ps)))
    &&& properties_read(c.properties@, f, word_at(f, o + 5 * ps))
    &&& c.class_name@ == match referenced_class_name(f, address, word_at(f, o + ps)) {
        Some(n) => n,
        None => Seq::empty(),
    }
}

/// A category whose class slot is bound to `_OBJC_CLASS_$_X` extends X.
pub proof fn lemma_bound_category_class(c: Category, f: MachOFile, reg: Map<u64, Protocol>, address: u64, x: Seq<u8>)
    requires
        category_read(c, f, reg, address),
        f.binds().contains_key(((address + f.spec_ptr_size()) % 0x1_0000_0000_0000_0000) as u64),
        f.binds()[((address + f.spec_ptr_size()) % 0x1_0000_0000_0000_0000) as u64]@ == crate::macho::class_prefix() + x,
    ensures
        c.class_name@ == x,
{
    let o = cursor_off(f, address).unwrap();
    lemma_bound_class_reference(f, address, word_at(f, o + f.spec_ptr_size()), x);
}

/// Entry `k` of a list of `count` pointer-sized entries lies at offset
/// `k * ps < size` from the start of the list.
proof fn lemma_list_entry(k: u64, size: u64, ps: u64)
    requires
        ps > 0,
        k < size / ps,
    ensures
        k * ps + ps <= size,
{
    let q = size / ps;
    vstd::arithmetic::div_mod::lemma_fundamental_div_mod(size as int, ps as int);
    assert(k * ps + ps <= q * ps) by (nonlinear_arith)
        requires
            k < q,
            ps > 0,
    {
        assert(k * ps + ps == (k + 1) * ps);
    }
}

impl<'a> Processor<'a> {
    /// The pointer stored at vm address `addr`, or 0.
    fn pointer_at(&self, addr: u64) -> (r: u64)
        ensures
            r == ptr_at_addr(*self.macho, addr),
    {
        match self.cursor_at(addr) {
            Some(mut c) => c.read_ptr(),
            None => 0,
        }
    }

    /// Load every protocol listed in `__objc_protolist`, with the protocols
    /// they adopt.
    fn load_protocols(&mut self)
        requires
            old(self).inv(),
        ensures
            final(self).inv(),
            final(self).extends(old(self)),
            final(self).loaded_since(old(self)),
            forall|k: int|
                0 <= k < listed_pointers(old(self).file(), "__objc_protolist".spec_bytes()).len() && #[trigger] listed_pointers(
                    old(self).file(),
                    "__objc_protolist".spec_bytes(),
                )[k] != 0 ==> final(self).registered().contains_key(
                    listed_pointers(old(self).file(), "__objc_protolist".spec_bytes())[k],
                ),
            final(self).order() == visit_protocols(
                old(self).file(),
                old(self).order(),
                listed_pointers(old(self).file(), "__objc_protolist".spec_bytes()),
            ),
    {
        proof {
            lemma_extends_refl(*self);
            lemma_loaded_refl(*self);
            assert(self.protocol_order@.len() == self.protocol_order.len());
        }
        let sect = match self.section_by_name("__objc_protolist".as_bytes()) {
            Some(s) => s,
            None => {
                assert(listed_pointers(*self.macho, "__objc_protolist".spec_bytes()) =~= Seq::<u64>::empty());
                return;
            },
        };
        let ghost f = *self.macho;
        let ghost list = listed_pointers(f, "__objc_protolist".spec_bytes());
        assert(list == section_pointers(f, *sect));
        let ps = self.macho.ptr_size() as u64;
        let count = sect.size / ps;
        let mut i: u64 = 0;
        while i < count
            invariant
                self.inv(),
                self.extends(old(self)),
                self.loaded_since(old(self)),
                self.file() == f,
                f == *self.macho,
                ps == f.spec_ptr_size(),
                list == section_pointers(f, *sect),
                count == list.len(),
                i <= count,
                forall|k: int| 0 <= k < i && #[trigger] list[k] != 0 ==> self.registered().contains_key(list[k]),
                old(self).order().len() <= usize::MAX,
                self.order() == visit_protocols(f, old(self).order(), list.subrange(0, i as int)),
            decreases count - i,
        {
            proof {
                lemma_list_entry(i, sect.size, ps);
                assert(self.protocol_order@.len() == self.protocol_order.len());
            }
            let addr = sect.addr.wrapping_add(i * ps);
            let ptr = self.pointer_at(addr);
            assert(ptr == list[i as int]);
            let ghost before = *self;
            let _ = self.protocol_at(ptr);
            proof {
                lemma_extends_trans(*old(self), before, *self);
                lemma_loaded_trans(*old(self), before, *self);
                assert(list.subrange(0, i + 1).drop_last() =~= list.subrange(0, i as int));
                assert(self.order() == visit_protocols(f, old(self).order(), list.subrange(0, i + 1)));
                assert forall|k: int| 0 <= k < i + 1 && #[trigger] list[k] != 0 implies self.registered().contains_key(
                    list[k],
                ) by {
                    if k < i {
                        assert(before.registered().contains_key(list[k]));
                    }
                }
            }
            i = i + 1;
        }
        assert(list.subrange(0, count as int) =~= list);
    }

    /// The classes of `__objc_classlist`.
    fn load_classes(&self) -> (r: Vec<Class>)
        ensures
            r@.len() == class_addresses(*self.macho).len(),
            forall|k: int|
                0 <= k < r@.len() ==> class_read(
                    #[trigger] r@[k],
                    *self.macho,
                    self.registered(),
                    class_addresses(*self.macho)[k],
                ),
    {
        let mut classes: Vec<Class> = Vec::new();
        let ghost f = *self.macho;
        let ghost keep = |a: u64| class_exists(f, a);
        let ghost list = listed_pointers(f, "__objc_classlist".spec_bytes());
        let sect = match self.section_by_name("__objc_classlist".as_bytes()) {
            Some(s) => s,
            None => {
                assert(class_addresses(f) =~= Seq::<u64>::empty());
                return classes;
            },
        };
        assert(list == section_pointers(f, *sect));
        let ps = self.macho.ptr_size() as u64;
        let count = sect.size / ps;
        let mut i: u64 = 0;
        while i < count
            invariant
                f == *self.macho,
                ps == f.spec_ptr_size(),
                list == section_pointers(f, *sect),
                class_addresses(f) == kept(list, keep),
                keep == (|a: u64| class_exists(f, a)),
                count == list.len(),
                i <= count,
                classes@.len() == kept(list.subrange(0, i as int), keep).len(),
                forall|k: int|
                    0 <= k < classes@.len() ==> class_read(
                        #[trigger] classes@[k],
                        f,
                        self.registered(),
                        kept(list.subrange(0, i as int), keep)[k],
                    ),
            decreases count - i,
        {
            proof {
                lemma_list_entry(i, sect.size, ps);
                assert(list.subrange(0, i + 1).drop_last() =~= list.subrange(0, i as int));
            }
            let addr = sect.addr.wrapping_add(i * ps);
            let ptr = self.pointer_at(addr);
            assert(ptr == list[i as int]);
            match self.load_class_at(ptr) {
                Some(c) => classes.push(c),
                None => {},
            }
            i = i + 1;
        }
        assert(list.subrange(0, count as int) =~= list);
        classes
    }

    fn load_category_at(&self, address: u64) -> (r: Option<Category>)
        ensures
            r is Some <==> category_exists(*self.macho, address),
            r matches Some(c) ==> category_read(c, *self.macho, self.registered(), address),
    {
        if address == 0 {
            return None;
        }
        let mut cur = match self.cursor_at(address) {
            Some(c) => c,
            None => return None,
        };
        let name_ptr = cur.read_ptr();
        let class_ptr = cur.read_ptr();
        let instance_methods = cur.read_ptr();
        let class_methods = cur.read_ptr();
        let protocols = cur.read_ptr();
        let instance_properties = cur.read_ptr();
        let name = match self.macho.string_at_address(name_ptr) {
            Some(s) => s,
            None => Vec::new(),
        };
        let (im, _none) = self.load_methods(instance_methods, None);
        let (cm, _none) = self.load_methods(class_methods, None);
        let protos = self.uniqued_protocols(protocols);
        let props = self.load_properties(instance_properties);
        let class_name_address = address.wrapping_add(self.macho.ptr_size() as u64);
        let class_name = if self.macho.has_relocation_entry_for_address(class_name_address) {
            match self.macho.external_class_name_for_address(class_name_address) {
                Some(n) => n,
                None => Vec::new(),
            }
        } else if class_ptr != 0 {
            match self.read_superclass_name(class_ptr) {
                Some(n) => n,
                None => Vec::new(),
            }
        } else {
            Vec::new()
        };
        Some(Category {
            name,
            class_name,
            instance_methods: im,
            class_methods: cm,
            protocols: protos,
            properties: props,
        })
    }

    /// The categories of `__objc_catlist`.
    fn load_categories(&self) -> (r: Vec<Category>)
        ensures
            r@.len() == category_addresses(*self.macho).len(),
            forall|k: int|
                0 <= k < r@.len() ==> category_read(
                    #[trigger] r@[k],
                    *self.macho,
                    self.registered(),
                    category_addresses(*self.macho)[k],
                ),
    {
        let mut cats: Vec<Category> = Vec::new();
        let ghost f = *self.macho;
        let ghost keep = |a: u64| category_exists(f, a);
        let ghost list = listed_pointers(f, "__objc_catlist".spec_bytes());
        let sect = match self.section_by_name("__objc_catlist".as_bytes()) {
            Some(s) => s,
            None => {
                assert(category_addresses(f) =~= Seq::<u64>::empty());
                return cats;
            },
        };
        assert(list == section_pointers(f, *sect));
        let ps = self.macho.ptr_size() as u64;
        let count = sect.size / ps;
        let mut i: u64 = 0;
        while i < count
            invariant
                f == *self.macho,
                ps == f.spec_ptr_size(),
                list == section_pointers(f, *sect),
                category_addresses(f) == kept(list, keep),
                keep == (|a: u64| category_exists(f, a)),
                count == list.len(),
                i <= count,
                cats@.len() == kept(list.subrange(0, i as int), keep).len(),
                forall|k: int|
                    0 <= k < cats@.len() ==> category_read(
                        #[trigger] cats@[k],
                        f,
                        self.registered(),
                        kept(list.subrange(0, i as int), keep)[k],
                    ),
            decreases count - i,
        {
            proof {
                lemma_list_entry(i, sect.size, ps);
                assert(list.subrange(0, i + 1).drop_last() =~= list.subrange(0, i as int));
            }
            let addr = sect.addr.wrapping_add(i * ps);
            let ptr = self.pointer_at(addr);
            assert(ptr == list[i as int]);
            match self.load_category_at(ptr) {
                Some(c) => cats.push(c),
                None => {},
            }
            i = i + 1;
        }
        assert(list.subrange(0, count as int) =~= list);
        cats
    }
}


/// Every protocol comes from an address of its own: the protocols that
/// `process` returns, one per registered address in discovery order, stand
/// for pairwise different addresses.
pub proof fn lemma_protocols_distinct(s: Processor)
    requires
        s.inv(),
    ensures
        forall|i: int, j: int| 0 <= i < j < s.order().len() ==> #[trigger] s.order()[i] != #[trigger] s.order()[j],
{
}

impl<'a> Processor<'a> {
    /// Read the whole image: first every protocol of `__objc_protolist` (with
    /// the protocols they adopt), then the classes and the categories, whose
    /// protocol lists name registered protocols only; the protocols come out
    /// in the order they were found, each holding what was read at its
    /// address (see `protocol_loaded`).
    pub fn process(&mut self) -> (r: ObjcImage)
        requires
            old(self).inv(),
        ensures
            final(self).inv(),
            final(self).extends(old(self)),
            final(self).loaded_since(old(self)),
            forall|k: int|
                0 <= k < listed_pointers(old(self).file(), "__objc_protolist".spec_bytes()).len() && #[trigger] listed_pointers(
                    old(self).file(),
                    "__objc_protolist".spec_bytes(),
                )[k] != 0 ==> final(self).registered().contains_key(
                    listed_pointers(old(self).file(), "__objc_protolist".spec_bytes())[k],
                ),
            r.classes@.len() == class_addresses(old(self).file()).len(),
            forall|k: int|
                0 <= k < r.classes@.len() ==> class_read(
                    #[trigger] r.classes@[k],
                    old(self).file(),
                    final(self).registered(),
                    class_addresses(old(self).file())[k],
                ),
            r.categories@.len() == category_addresses(old(self).file()).len(),
            forall|k: int|
                0 <= k < r.categories@.len() ==> category_read(
                    #[trigger] r.categories@[k],
                    old(self).file(),
                    final(self).registered(),
                    category_addresses(old(self).file())[k],
                ),
            final(self).order() == visit_protocols(
                old(self).file(),
                old(self).order(),
                listed_pointers(old(self).file(), "__objc_protolist".spec_bytes()),
            ),
            r.protocols@.len() == final(self).order().len(),
            forall|k: int|
                0 <= k < r.protocols@.len() ==> same_protocol(
                    #[trigger] r.protocols@[k],
                    final(self).registered()[final(self).order()[k]],
                ),
    {
        self.load_protocols();
        let classes = self.load_classes();
        let categories = self.load_categories();
        let mut protocols: Vec<Protocol> = Vec::new();
        let mut j: usize = 0;
        while j < self.protocol_order.len()
            invariant
                self.inv(),
                j <= self.order().len(),
                protocols@.len() == j,
                forall|k: int|
                    0 <= k < j ==> same_protocol(#[trigger] protocols@[k], self.registered()[self.order()[k]]),
            decreases self.order().len() - j,
        {
            let addr = self.protocol_order[j];
            proof {
                assert(self.order()[j as int] == addr);
                assert(self.order().contains(addr));
                assert(self.registered().contains_key(addr));
            }
            match self.protocols_by_address.get(&addr) {
                Some(p) => protocols.push(clone_protocol(p)),
                None => {},
            }
            j = j + 1;
        }
        ObjcImage { classes, categories, protocols }
    }
}

} // verus!
