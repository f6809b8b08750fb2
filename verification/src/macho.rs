//! Mach-O file model: header, load commands, segments and sections, symbol
//! table, and the address lookups that the Objective-C reader needs.

use vstd::prelude::*;
use vstd::string::StringSliceAdditionalSpecFns;
use std::collections::HashMap;
use crate::consts::{CPU_ARCH_MASK, N_EXT, N_SECT, N_TYPE, SECTION_TYPE, S_ZEROFILL};
use crate::cursor::{byte_at, cstring_at, cstring_spec, le_uint, ByteOrder};
use crate::text::{bytes_eq, first_index, lemma_first_index_at, starts_with, sub_vec, to_vec};

verus! {

broadcast use vstd::std_specs::hash::group_hash_axioms;


pub struct Section {
    pub sectname: Vec<u8>,
    pub segname: Vec<u8>,
    pub addr: u64,
    pub size: u64,
    pub offset: u32,
    pub flags: u32,
}

/// `addr` lies in `[start, start + size)`, the sum taken without wrapping.
pub open spec fn in_range(addr: u64, start: u64, size: u64) -> bool {
    start <= addr && addr < start + size
}

impl Section {
    pub fn contains_address(&self, addr: u64) -> (r: bool)
        ensures
            r == in_range(addr, self.addr, self.size),
    {
        addr >= self.addr && addr - self.addr < self.size
    }

    pub fn section_type(&self) -> (r: u32)
        ensures
            r == self.flags & SECTION_TYPE,
    {
        self.flags & SECTION_TYPE
    }
}


pub struct Segment {
    pub name: Vec<u8>,
    pub vmaddr: u64,
    pub vmsize: u64,
    pub fileoff: u64,
    pub filesize: u64,
    pub sections: Vec<Section>,
}

/// Does section `s` contain `addr`?
pub open spec fn section_has(s: Section, addr: u64) -> bool {
    in_range(addr, s.addr, s.size)
}

/// The file offset of `addr` inside `seg`: through the first section that
/// contains it (0 for a zero-fill section), else through the segment's own
/// mapping.  Sums wrap as in release builds.
pub open spec fn file_offset_in(seg: Segment, addr: u64) -> u64 {
    match first_index(seg.sections@, |s: Section| section_has(s, addr)) {
        Some(i) => {
            let s = seg.sections@[i];
            if s.flags & SECTION_TYPE == S_ZEROFILL {
                0
            } else {
                (s.offset as u64).wrapping_add((addr - s.addr) as u64)
            }
        },
        None => seg.fileoff.wrapping_add((addr - seg.vmaddr) as u64),
    }
}

impl Segment {
    pub fn contains_address(&self, addr: u64) -> (r: bool)
        ensures
            r == in_range(addr, self.vmaddr, self.vmsize),
    {
        addr >= self.vmaddr && addr - self.vmaddr < self.vmsize
    }

    /// File data offset for a vm address within this segment (or within one
    /// of its sections).
    pub fn file_offset_for_address(&self, addr: u64) -> (r: u64)
        requires
            self.vmaddr <= addr || exists|j: int|
                0 <= j < self.sections@.len() && section_has(#[trigger] self.sections@[j], addr),
        ensures
            r == file_offset_in(*self, addr),
    {
        let mut i: usize = 0;
        while i < self.sections.len()
            invariant
                i <= self.sections@.len(),
                forall|j: int| 0 <= j < i ==> !section_has(#[trigger] self.sections@[j], addr),
            decreases self.sections@.len() - i,
        {
            let sect = &self.sections[i];
            if sect.contains_address(addr) {
                proof {
                    lemma_first_index_at(self.sections@, |s: Section| section_has(s, addr), i as int);
                }
                if sect.section_type() == S_ZEROFILL {
                    return 0;
                }
                return (sect.offset as u64).wrapping_add(addr - sect.addr);
            }
            i = i + 1;
        }
        proof {
            lemma_first_index_at(self.sections@, |s: Section| section_has(s, addr), i as int);
        }
        self.fileoff.wrapping_add(addr - self.vmaddr)
    }
}


pub struct Symbol {
    pub name: Vec<u8>,
    pub n_type: u8,
    pub n_sect: u8,
    pub n_desc: u16,
    pub value: u64,
}

impl Symbol {
    pub fn is_external(&self) -> (r: bool)
        ensures
            r == (self.n_type & N_EXT != 0),
    {
        self.n_type & N_EXT != 0
    }

    pub fn is_in_section(&self) -> (r: bool)
        ensures
            r == (self.n_type & N_TYPE == N_SECT),
    {
        (self.n_type & N_TYPE) == N_SECT
    }
}


pub struct BuildVersion {
    pub platform: u32,
    pub minos: u32,
    pub sdk: u32,
    /// (tool, version) pairs.
    pub tools: Vec<(u32, u32)>,
}


pub struct DylibInfo {
    pub name: Vec<u8>,
    pub current_version: u32,
    pub compatibility_version: u32,
}

pub struct MachOFile {
    pub data: Vec<u8>,
    pub filename: Vec<u8>,
    pub byte_order: ByteOrder,
    pub magic: u32,
    pub cputype: i32,
    pub cpusubtype: i32,
    pub filetype: u32,
    pub ncmds: u32,
    pub flags: u32,
    pub uses64: bool,
    pub segments: Vec<Segment>,
    pub symbols: Vec<Symbol>,
    pub symbol_base_address: u64,
    pub uuid: Option<Vec<u8>>,
    pub source_version: Option<u64>,
    pub build_version: Option<BuildVersion>,
    pub min_version_macosx: Option<u32>,
    pub min_version_ios: Option<u32>,
    pub dylib_id: Option<DylibInfo>,
    pub dylibs: Vec<DylibInfo>,
    pub run_paths: Vec<Vec<u8>>,
    pub has_encryption: bool,
    /// address -> external symbol name, from dyld_info binds and chained-fixup binds.
    pub symbol_names_by_address: HashMap<u64, Vec<u8>>,
    /// The chained-pointer formats of the segments that the chained-fixups pass
    /// skipped because it does not support them, one per skipped segment.
    pub unsupported_chain_formats: Vec<u16>,
}

/// The prefix of the symbol that names an Objective-C class.
pub open spec fn class_prefix() -> Seq<u8> {
    "_OBJC_CLASS_$_".spec_bytes()
}

pub open spec fn has_name(name: Seq<u8>) -> spec_fn(Segment) -> bool {
    |s: Segment| s.name@ == name
}

pub open spec fn contains_addr(addr: u64) -> spec_fn(Segment) -> bool {
    |s: Segment| in_range(addr, s.vmaddr, s.vmsize)
}

/// The first section (over all segments, in order) satisfying `p`, as
/// (segment index, section index).
pub open spec fn first_section(segs: Seq<Segment>, p: spec_fn(Section) -> bool) -> Option<(int, int)>
    decreases segs.len(),
{
    if segs.len() == 0 {
        None
    } else {
        match first_index(segs[0].sections@, p) {
            Some(j) => Some((0, j)),
            None => match first_section(segs.drop_first(), p) {
                Some((i, j)) => Some((i + 1, j)),
                None => None,
            },
        }
    }
}

pub open spec fn named_section(segname: Seq<u8>, sectname: Seq<u8>) -> spec_fn(Section) -> bool {
    |s: Section| s.segname@ == segname && s.sectname@ == sectname
}

pub open spec fn sectname_is(sectname: Seq<u8>) -> spec_fn(Section) -> bool {
    |s: Section| s.sectname@ == sectname
}

/// The file offset of a vm address: `None` for 0 or an address outside every segment.
pub open spec fn data_offset_in(segs: Seq<Segment>, addr: u64) -> Option<u64> {
    if addr == 0 {
        None
    } else {
        match first_index(segs, contains_addr(addr)) {
            Some(i) => Some(file_offset_in(segs[i], addr)),
            None => None,
        }
    }
}

/// The vmaddr of the first segment named `__TEXT`, or 0.
pub open spec fn image_base_of(segs: Seq<Segment>) -> u64 {
    match first_index(segs, has_name("__TEXT".spec_bytes())) {
        Some(i) => segs[i].vmaddr,
        None => 0,
    }
}

/// The image base is the address of the first `__TEXT` segment, or 0 when
/// there is none.
pub proof fn lemma_image_base(segs: Seq<Segment>, i: int)
    requires
        0 <= i <= segs.len(),
        forall|j: int| 0 <= j < i ==> (#[trigger] segs[j]).name@ != "__TEXT".spec_bytes(),
        i == segs.len() || segs[i].name@ == "__TEXT".spec_bytes(),
    ensures
        image_base_of(segs) == if i < segs.len() { segs[i].vmaddr } else { 0 },
{
    lemma_first_index_at(segs, has_name("__TEXT".spec_bytes()), i);
}

/// An address inside a segment and inside none of its sections lies as
/// far into the segment's file data as it lies past the segment's start;
/// inside a section it lies as far into the section's data as past the
/// section's start (a zero-fill section gives 0). Sums are 64-bit.
pub proof fn lemma_file_offset_in(seg: Segment, addr: u64, i: int)
    requires
        0 <= i <= seg.sections@.len(),
        forall|j: int| 0 <= j < i ==> !section_has(#[trigger] seg.sections@[j], addr),
        i == seg.sections@.len() || section_has(seg.sections@[i], addr),
        i == seg.sections@.len() ==> seg.vmaddr <= addr,
    ensures
        i == seg.sections@.len() ==> file_offset_in(seg, addr) as int == (seg.fileoff + (addr - seg.vmaddr))
            % 0x1_0000_0000_0000_0000,
        i < seg.sections@.len() && seg.sections@[i].flags & SECTION_TYPE != S_ZEROFILL ==> file_offset_in(seg, addr) as int
            == (seg.sections@[i].offset + (addr - seg.sections@[i].addr)) % 0x1_0000_0000_0000_0000,
        i < seg.sections@.len() && seg.sections@[i].flags & SECTION_TYPE == S_ZEROFILL ==> file_offset_in(seg, addr) == 0,
{
    lemma_first_index_at(seg.sections@, |s: Section| section_has(s, addr), i);
}

/// Equal in every field but the bind names.
pub open spec fn same_except_binds(a: MachOFile, b: MachOFile) -> bool {
    &&& a.data == b.data
    &&& a.filename == b.filename
    &&& a.byte_order == b.byte_order
    &&& a.magic == b.magic
    &&& a.cputype == b.cputype
    &&& a.cpusubtype == b.cpusubtype
    &&& a.filetype == b.filetype
    &&& a.ncmds == b.ncmds
    &&& a.flags == b.flags
    &&& a.uses64 == b.uses64
    &&& a.segments == b.segments
    &&& a.symbols == b.symbols
    &&& a.symbol_base_address == b.symbol_base_address
    &&& a.uuid == b.uuid
    &&& a.source_version == b.source_version
    &&& a.build_version == b.build_version
    &&& a.min_version_macosx == b.min_version_macosx
    &&& a.min_version_ios == b.min_version_ios
    &&& a.dylib_id == b.dylib_id
    &&& a.dylibs == b.dylibs
    &&& a.run_paths == b.run_paths
    &&& a.has_encryption == b.has_encryption
}

impl MachOFile {
    /// The external-symbol names bound at addresses.
    pub open spec fn binds(&self) -> Map<u64, Vec<u8>> {
        self.symbol_names_by_address@
    }

    pub open spec fn spec_ptr_size(&self) -> int {
        if self.uses64 { 8 } else { 4 }
    }

    pub fn ptr_size(&self) -> (r: usize)
        ensures
            r == self.spec_ptr_size(),
    {
        if self.uses64 {
            8
        } else {
            4
        }
    }

    pub fn masked_cpu_type(&self) -> (r: i32)
        ensures
            r == self.cputype & !(CPU_ARCH_MASK as i32),
    {
        self.cputype & !(CPU_ARCH_MASK as i32)
    }

    /// The vmaddr of the first segment named `__TEXT`, or 0.
    pub open spec fn spec_image_base(&self) -> u64 {
        image_base_of(self.segments@)
    }

    pub fn image_base(&self) -> (r: u64)
        ensures
            r == self.spec_image_base(),
    {
        match self.segment_with_name("__TEXT".as_bytes()) {
            Some(s) => s.vmaddr,
            None => 0,
        }
    }

    pub fn segment_containing_address(&self, addr: u64) -> (r: Option<&Segment>)
        ensures
            match first_index(self.segments@, contains_addr(addr)) {
                Some(i) => r == Some(&self.segments@[i]),
                None => r is None,
            },
    {
        let mut i: usize = 0;
        while i < self.segments.len()
            invariant
                i <= self.segments@.len(),
                forall|j: int| 0 <= j < i ==> !contains_addr(addr)(#[trigger] self.segments@[j]),
            decreases self.segments@.len() - i,
        {
            if self.segments[i].contains_address(addr) {
                proof {
                    lemma_first_index_at(self.segments@, contains_addr(addr), i as int);
                }
                return Some(&self.segments[i]);
            }
            i = i + 1;
        }
        proof {
            lemma_first_index_at(self.segments@, contains_addr(addr), i as int);
        }
        None
    }

    /// The file offset of a vm address: `None` for 0 or an address outside every segment.
    pub open spec fn spec_data_offset(&self, addr: u64) -> Option<u64> {
        data_offset_in(self.segments@, addr)
    }

    pub fn data_offset_for_address(&self, addr: u64) -> (r: Option<u64>)
        ensures
            r == self.spec_data_offset(addr),
    {
        if addr == 0 {
            return None;
        }
        let seg = self.segment_containing_address(addr);
        proof {
            crate::text::lemma_first_index(self.segments@, contains_addr(addr));
        }
        match seg {
            Some(seg) => Some(seg.file_offset_for_address(addr)),
            None => None,
        }
    }

    /// The C string at a vm address.
    pub open spec fn spec_string_at(&self, addr: u64) -> Option<Seq<u8>> {
        match self.spec_data_offset(addr) {
            Some(off) => cstring_spec(self.data@, off as int),
            None => None,
        }
    }

    pub fn string_at_address(&self, addr: u64) -> (r: Option<Vec<u8>>)
        ensures
            match self.spec_string_at(addr) {
                Some(s) => r matches Some(v) && v@ == s,
                None => r is None,
            },
    {
        if addr == 0 {
            return None;
        }
        let off = match self.data_offset_for_address(addr) {
            Some(o) => o,
            None => return None,
        };
        if off >= self.data.len() as u64 {
            return None;
        }
        cstring_at(self.data.as_slice(), off as usize)
    }

    pub fn section_with_name(&self, segname: &[u8], sectname: &[u8]) -> (r: Option<&Section>)
        ensures
            match first_section(self.segments@, named_section(segname@, sectname@)) {
                Some((i, j)) => r == Some(&self.segments@[i].sections@[j]),
                None => r is None,
            },
    {
        self.first_section_where(segname, sectname, true)
    }

    /// The first section named `sectname` (and, when `check_seg`, in segment `segname`).
    pub(crate) fn first_section_where(&self, segname: &[u8], sectname: &[u8], check_seg: bool) -> (r: Option<&Section>)
        ensures
            ({
                let p = if check_seg { named_section(segname@, sectname@) } else { sectname_is(sectname@) };
                match first_section(self.segments@, p) {
                    Some((i, j)) => r == Some(&self.segments@[i].sections@[j]),
                    None => r is None,
                }
            }),
    {
        let ghost p = if check_seg { named_section(segname@, sectname@) } else { sectname_is(sectname@) };
        let mut i: usize = 0;
        while i < self.segments.len()
            invariant
                i <= self.segments@.len(),
                p == (if check_seg { named_section(segname@, sectname@) } else { sectname_is(sectname@) }),
                first_section_from(self.segments@, p, 0) == first_section_from(self.segments@, p, i as int),
            decreases self.segments@.len() - i,
        {
            let seg = &self.segments[i];
            let mut j: usize = 0;
            while j < seg.sections.len()
                invariant
                    i < self.segments@.len(),
                    seg == &self.segments@[i as int],
                    p == (if check_seg { named_section(segname@, sectname@) } else { sectname_is(sectname@) }),
                    first_section_from(self.segments@, p, 0) == first_section_from(self.segments@, p, i as int),
                    j <= seg.sections@.len(),
                    forall|k: int| 0 <= k < j ==> !p(#[trigger] seg.sections@[k]),
                decreases seg.sections@.len() - j,
            {
                let sect = &seg.sections[j];
                let hit = bytes_eq(sect.sectname.as_slice(), sectname) && (!check_seg || bytes_eq(
                    sect.segname.as_slice(),
                    segname,
                ));
                proof {
                    if check_seg {
                        assert(p(*sect) == (sect.segname@ == segname@ && sect.sectname@ == sectname@));
                    } else {
                        assert(p(*sect) == (sect.sectname@ == sectname@));
                    }
                }
                if hit {
                    proof {
                        lemma_first_index_at(seg.sections@, p, j as int);
                        lemma_first_section_from(self.segments@, p, i as int);
                    }
                    return Some(sect);
                }
                j = j + 1;
            }
            proof {
                lemma_first_index_at(seg.sections@, p, j as int);
                lemma_first_section_from(self.segments@, p, i as int);
            }
            i = i + 1;
        }
        proof {
            lemma_first_section_from(self.segments@, p, i as int);
        }
        None
    }

    pub fn segment_with_name(&self, name: &[u8]) -> (r: Option<&Segment>)
        ensures
            match first_index(self.segments@, has_name(name@)) {
                Some(i) => r == Some(&self.segments@[i]),
                None => r is None,
            },
    {
        let mut i: usize = 0;
        while i < self.segments.len()
            invariant
                i <= self.segments@.len(),
                forall|j: int| 0 <= j < i ==> !has_name(name@)(#[trigger] self.segments@[j]),
            decreases self.segments@.len() - i,
        {
            if bytes_eq(self.segments[i].name.as_slice(), name) {
                proof {
                    lemma_first_index_at(self.segments@, has_name(name@), i as int);
                }
                return Some(&self.segments[i]);
            }
            i = i + 1;
        }
        proof {
            lemma_first_index_at(self.segments@, has_name(name@), i as int);
        }
        None
    }

    /// A `__objc_imageinfo` section in `__DATA`, `__DATA_CONST` or `__DATA_DIRTY`.
    pub open spec fn spec_has_objc2(&self) -> bool {
        let info = "__objc_imageinfo".spec_bytes();
        first_section(self.segments@, named_section("__DATA".spec_bytes(), info)) is Some
            || first_section(self.segments@, named_section("__DATA_CONST".spec_bytes(), info)) is Some
            || first_section(self.segments@, named_section("__DATA_DIRTY".spec_bytes(), info)) is Some
    }

    pub fn has_objc2_data(&self) -> (r: bool)
        ensures
            r == self.spec_has_objc2(),
    {
        let info = "__objc_imageinfo".as_bytes();
        self.section_with_name("__DATA".as_bytes(), info).is_some() || self.section_with_name(
            "__DATA_CONST".as_bytes(),
            info,
        ).is_some() || self.section_with_name("__DATA_DIRTY".as_bytes(), info).is_some()
    }

    pub open spec fn spec_has_objc1(&self) -> bool {
        first_index(self.segments@, has_name("__OBJC".spec_bytes())) is Some
    }

    pub fn has_objc1_data(&self) -> (r: bool)
        ensures
            r == self.spec_has_objc1(),
    {
        self.segment_with_name("__OBJC".as_bytes()).is_some()
    }

    /// The second word of the first `__objc_imageinfo` section, little-endian.
    pub open spec fn spec_image_info_flags(&self) -> Option<u32> {
        match first_section(self.segments@, sectname_is("__objc_imageinfo".spec_bytes())) {
            Some((i, j)) => {
                let s = self.segments@[i].sections@[j];
                if s.size < 8 || s.offset + 8 > self.data@.len() {
                    None
                } else {
                    Some(le_uint(self.data@, s.offset + 4, 4) as u32)
                }
            },
            None => None,
        }
    }

    /// The second word of __objc_imageinfo (flags), used for the GC status line.
    pub fn objc_image_info_flags(&self) -> (r: Option<u32>)
        ensures
            r == self.spec_image_info_flags(),
    {
        let sect = match self.first_section_where("".as_bytes(), "__objc_imageinfo".as_bytes(), false) {
            Some(s) => s,
            None => return None,
        };
        if sect.size < 8 {
            return None;
        }
        if (sect.offset as u64) + 8 > self.data.len() as u64 {
            return None;
        }
        let off = sect.offset as usize;
        let b0 = self.data[off + 4] as u32;
        let b1 = self.data[off + 5] as u32;
        let b2 = self.data[off + 6] as u32;
        let b3 = self.data[off + 7] as u32;
        proof {
            reveal_with_fuel(le_uint, 5);
        }
        Some(b0 + b1 * 0x100 + b2 * 0x10000 + b3 * 0x1000000)
    }

    /// The name bound at `addr`, without the class-symbol prefix.
    pub open spec fn spec_external_class_name(&self, addr: u64) -> Option<Seq<u8>> {
        if self.binds().contains_key(addr) {
            let n = self.binds()[addr]@;
            let p = class_prefix();
            if p.len() <= n.len() && n.subrange(0, p.len() as int) == p {
                Some(n.subrange(p.len() as int, n.len() as int))
            } else {
                Some(n)
            }
        } else {
            None
        }
    }

    /// External class name for an address where a superclass pointer was bound.
    pub fn external_class_name_for_address(&self, addr: u64) -> (r: Option<Vec<u8>>)
        ensures
            match self.spec_external_class_name(addr) {
                Some(s) => r matches Some(v) && v@ == s,
                None => r is None,
            },
    {
        let name = match self.symbol_names_by_address.get(&addr) {
            Some(n) => n,
            None => return None,
        };
        let prefix = "_OBJC_CLASS_$_".as_bytes();
        if starts_with(name.as_slice(), prefix) {
            Some(sub_vec(name.as_slice(), prefix.len(), name.len()))
        } else {
            Some(to_vec(name.as_slice()))
        }
    }

    pub fn has_relocation_entry_for_address(&self, addr: u64) -> (r: bool)
        ensures
            r == self.binds().contains_key(addr),
    {
        self.symbol_names_by_address.contains_key(&addr)
    }

    /// The first symbol named by the class-symbol prefix followed by `name`.
    pub open spec fn spec_class_symbol(&self, name: Seq<u8>) -> Option<int> {
        first_index(self.symbols@, |s: Symbol| s.name@ == class_prefix() + name)
    }

    pub fn class_symbol(&self, name: &[u8]) -> (r: Option<&Symbol>)
        ensures
            match self.spec_class_symbol(name@) {
                Some(i) => r == Some(&self.symbols@[i]),
                None => r is None,
            },
    {
        let prefix = "_OBJC_CLASS_$_".as_bytes();
        let ghost p = |s: Symbol| s.name@ == class_prefix() + name@;
        let mut i: usize = 0;
        while i < self.symbols.len()
            invariant
                i <= self.symbols@.len(),
                p == (|s: Symbol| s.name@ == class_prefix() + name@),
                prefix@ == class_prefix(),
                forall|j: int| 0 <= j < i ==> !p(#[trigger] self.symbols@[j]),
            decreases self.symbols@.len() - i,
        {
            let sym = &self.symbols[i];
            let n = sym.name.as_slice();
            if n.len() >= prefix.len() && n.len() - prefix.len() == name.len() && starts_with(n, prefix) {
                let rest = sub_vec(n, prefix.len(), n.len());
                if bytes_eq(rest.as_slice(), name) {
                    proof {
                        assert(n@ =~= prefix@ + name@);
                        lemma_first_index_at(self.symbols@, p, i as int);
                    }
                    return Some(sym);
                }
                proof {
                    assert(n@ =~= n@.subrange(0, prefix@.len() as int) + rest@);
                    if n@ == class_prefix() + name@ {
                        assert(rest@ =~= (class_prefix() + name@).subrange(prefix@.len() as int, n@.len() as int));
                        assert(rest@ =~= name@);
                    }
                }
            } else {
                proof {
                    if n@ == class_prefix() + name@ {
                        assert(n@.subrange(0, prefix@.len() as int) =~= prefix@);
                    }
                }
            }
            i = i + 1;
        }
        proof {
            lemma_first_index_at(self.symbols@, p, i as int);
        }
        None
    }
}

/// `first_section` searched from segment `i` on.
pub open spec fn first_section_from(segs: Seq<Segment>, p: spec_fn(Section) -> bool, i: int) -> Option<(int, int)>
    decreases segs.len() - i,
{
    if i < 0 || i >= segs.len() {
        None
    } else {
        match first_index(segs[i].sections@, p) {
            Some(j) => Some((i, j)),
            None => first_section_from(segs, p, i + 1),
        }
    }
}

proof fn lemma_first_section_shift(segs: Seq<Segment>, p: spec_fn(Section) -> bool, i: int)
    requires
        1 <= i <= segs.len(),
    ensures
        first_section_from(segs, p, i) == match first_section_from(segs.drop_first(), p, i - 1) {
            Some((a, b)) => Some((a + 1, b)),
            None => None,
        },
    decreases segs.len() - i,
{
    if i < segs.len() {
        assert(segs[i] == segs.drop_first()[i - 1]);
        lemma_first_section_shift(segs, p, i + 1);
    }
}

proof fn lemma_first_section_from(segs: Seq<Segment>, p: spec_fn(Section) -> bool, i: int)
    requires
        0 <= i <= segs.len(),
    ensures
        first_section(segs, p) == first_section_from(segs, p, 0),
    decreases segs.len(),
{
    if segs.len() > 0 {
        lemma_first_section_from(segs.drop_first(), p, 0);
        lemma_first_section_shift(segs, p, 1);
    }
}

} // verus!
