//! Reading the Mach-O header and load commands: segments and sections, the
//! symbol table, UUID, versions, dylibs, run paths and encryption info.
//!
//! Reads outside the data give zero bytes, as the cursor does.  Parsing of a
//! table stops where its next entry would lie beyond the address space.

use vstd::prelude::*;
use vstd::slice::slice_subrange;
use vstd::string::StringSliceAdditionalSpecFns;
use std::collections::HashMap;
use crate::consts::{
    LC_BUILD_VERSION, LC_ENCRYPTION_INFO, LC_ENCRYPTION_INFO_64, LC_ID_DYLIB, LC_LOAD_DYLIB,
    LC_LOAD_UPWARD_DYLIB, LC_LOAD_WEAK_DYLIB, LC_REEXPORT_DYLIB, LC_RPATH, LC_SEGMENT,
    LC_SEGMENT_64, LC_SOURCE_VERSION, LC_SYMTAB, LC_UUID, LC_VERSION_MIN_IPHONEOS,
    LC_VERSION_MIN_MACOSX, MH_CIGAM, MH_CIGAM_64, MH_MAGIC, MH_MAGIC_64,
};
use crate::cursor::{byte_at, clipped, cstring_at, cstring_spec, uint_at, be_uint, ByteOrder, Cursor};
use crate::macho::{BuildVersion, DylibInfo, MachOFile, Section, Segment, Symbol};
use crate::text::{bytes_eq, first_index, lemma_first_index_at, until_nul, lossy_bytes};

verus! {

broadcast use vstd::std_specs::hash::group_hash_axioms;

/// Room that every command keeps below the end of the address space for its
/// fixed-size fields.
pub const ROOM: usize = 4096;

pub open spec fn rd32(d: Seq<u8>, o: int, bo: ByteOrder) -> u32 {
    uint_at(d, o, 4, bo) as u32
}

pub open spec fn rd64(d: Seq<u8>, o: int, bo: ByteOrder) -> u64 {
    uint_at(d, o, 8, bo) as u64
}

/// A 64-bit field in 64-bit images, a 32-bit one otherwise.
pub open spec fn rdw(d: Seq<u8>, o: int, is64: bool, bo: ByteOrder) -> u64 {
    if is64 {
        rd64(d, o, bo)
    } else {
        rd32(d, o, bo) as u64
    }
}

/// A fixed-length, NUL-padded name field.
pub open spec fn fixed_str(d: Seq<u8>, o: int, n: int) -> Seq<u8> {
    lossy_bytes(until_nul(clipped(d, o, n)))
}

/// How many of `n` table entries of `stride` bytes starting at `start` are
/// read: entries are read while the next one still fits in the address space.
pub open spec fn fit_count(start: int, stride: int, n: nat) -> nat
    decreases n,
{
    if n == 0 || start + stride > usize::MAX {
        0
    } else {
        1 + fit_count(start + stride, stride, (n - 1) as nat)
    }
}

pub open spec fn entry_off(start: int, stride: int, j: int) -> int {
    start + j * stride
}

/// Consecutive entries of a table lie `stride` apart.
pub(crate) proof fn lemma_entry_step(start: int, stride: int, j: int)
    ensures
        entry_off(start, stride, j + 1) == entry_off(start, stride, j) + stride,
{
    assert((j + 1) * stride == j * stride + stride) by (nonlinear_arith);
}

pub open spec fn section_stride(is64: bool) -> int {
    if is64 { 80 } else { 68 }
}

/// Section `s` is the section header at `o`.
pub open spec fn section_matches(s: Section, d: Seq<u8>, o: int, is64: bool, bo: ByteOrder) -> bool {
    &&& s.sectname@ == fixed_str(d, o, 16)
    &&& s.segname@ == fixed_str(d, o + 16, 16)
    &&& s.addr == rdw(d, o + 32, is64, bo)
    &&& s.size == rdw(d, o + if is64 { 40int } else { 36int }, is64, bo)
    &&& s.offset == rd32(d, o + if is64 { 48int } else { 40int }, bo)
    &&& s.flags == rd32(d, o + if is64 { 64int } else { 56int }, bo)
}

/// Segment `g` is the segment command at `o`, with its section headers.
pub open spec fn segment_matches(g: Segment, d: Seq<u8>, o: int, is64: bool, bo: ByteOrder) -> bool {
    let first = o + if is64 { 72int } else { 56int };
    let nsects = rd32(d, o + if is64 { 64int } else { 48int }, bo);
    let stride = section_stride(is64);
    &&& g.name@ == fixed_str(d, o + 8, 16)
    &&& g.vmaddr == rdw(d, o + 24, is64, bo)
    &&& g.vmsize == rdw(d, o + if is64 { 32int } else { 28int }, is64, bo)
    &&& g.fileoff == rdw(d, o + if is64 { 40int } else { 32int }, is64, bo)
    &&& g.filesize == rdw(d, o + if is64 { 48int } else { 36int }, is64, bo)
    &&& g.sections@.len() == fit_count(first, stride, nsects as nat)
    &&& forall|j: int|
        0 <= j < g.sections@.len() ==> section_matches(
            #[trigger] g.sections@[j],
            d,
            entry_off(first, stride, j),
            is64,
            bo,
        )
}

/// The name of a symbol whose string index is `strx`, in the string table at `stroff`.
pub open spec fn symbol_name(d: Seq<u8>, stroff: int, strx: u32) -> Seq<u8> {
    let start = if stroff <= d.len() { stroff } else { d.len() as int };
    match cstring_spec(d.subrange(start, d.len() as int), strx as int) {
        Some(s) => s,
        None => Seq::empty(),
    }
}

/// Symbol `s` is the nlist entry at `o`.
pub open spec fn symbol_matches(s: Symbol, d: Seq<u8>, o: int, stroff: int, is64: bool, bo: ByteOrder) -> bool {
    &&& s.name@ == symbol_name(d, stroff, rd32(d, o, bo))
    &&& s.n_type == byte_at(d, o + 4)
    &&& s.n_sect == byte_at(d, o + 5)
    &&& s.n_desc == uint_at(d, o + 6, 2, bo) as u16
    &&& s.value == rdw(d, o + 8, is64, bo)
}

/// The sixteen UUID bytes of the command at `o`.
pub open spec fn uuid_bytes(d: Seq<u8>, o: int) -> Seq<u8> {
    Seq::new(16, |k: int| byte_at(d, o + 8 + k))
}

/// The bytes of the load command at `o`, as far as they lie in the data.
pub open spec fn cmd_window(d: Seq<u8>, o: int, bo: ByteOrder) -> Seq<u8> {
    clipped(d, o, rd32(d, o + 4, bo) as int)
}

/// A string of a load command, at a command-relative offset read at `o + 8`.
pub open spec fn cmd_string(d: Seq<u8>, o: int, bo: ByteOrder) -> Option<Seq<u8>> {
    cstring_spec(cmd_window(d, o, bo), rd32(d, o + 8, bo) as int)
}

pub open spec fn build_matches(b: BuildVersion, d: Seq<u8>, o: int, bo: ByteOrder) -> bool {
    let ntools = rd32(d, o + 20, bo);
    &&& b.platform == rd32(d, o + 8, bo)
    &&& b.minos == rd32(d, o + 12, bo)
    &&& b.sdk == rd32(d, o + 16, bo)
    &&& b.tools@.len() == fit_count(o + 24, 8, ntools as nat)
    &&& forall|j: int|
        0 <= j < b.tools@.len() ==> #[trigger] b.tools@[j] == (
            rd32(d, entry_off(o + 24, 8, j), bo),
            rd32(d, entry_off(o + 24, 8, j) + 4, bo),
        )
}

pub open spec fn dylib_matches(x: DylibInfo, d: Seq<u8>, o: int, bo: ByteOrder) -> bool {
    &&& x.name@ == match cmd_string(d, o, bo) {
        Some(s) => s,
        None => Seq::empty(),
    }
    &&& x.current_version == rd32(d, o + 16, bo)
    &&& x.compatibility_version == rd32(d, o + 20, bo)
}

/// What the load commands read so far contribute, by the offsets of the
/// commands that carry each piece.
pub struct LcModel {
    /// Segment commands: (offset, is a 64-bit segment).
    pub segs: Seq<(int, bool)>,
    /// Symbol-table entries: (entry offset, string table offset).
    pub syms: Seq<(int, int)>,
    pub base: u64,
    pub uuid: Option<int>,
    pub source_version: Option<int>,
    pub build: Option<int>,
    pub macosx: Option<int>,
    pub ios: Option<int>,
    pub dylib_id: Option<int>,
    pub dylibs: Seq<int>,
    pub rpaths: Seq<int>,
    pub encrypted: bool,
}

pub open spec fn empty_model() -> LcModel {
    LcModel {
        segs: Seq::empty(),
        syms: Seq::empty(),
        base: 0,
        uuid: None,
        source_version: None,
        build: None,
        macosx: None,
        ios: None,
        dylib_id: None,
        dylibs: Seq::empty(),
        rpaths: Seq::empty(),
        encrypted: false,
    }
}

/// The entries of a symbol table of `n` entries at `start`.
pub open spec fn symtab_entries(start: int, stride: int, n: nat, stroff: int) -> Seq<(int, int)> {
    Seq::new(fit_count(start, stride, n), |j: int| (entry_off(start, stride, j), stroff))
}

pub open spec fn not_pagezero(d: Seq<u8>) -> spec_fn((int, bool)) -> bool {
    |g: (int, bool)| fixed_str(d, g.0 + 8, 16) != "__PAGEZERO".spec_bytes()
}

/// The effect of the load command at `o`.
pub open spec fn lc_step(m: LcModel, d: Seq<u8>, bo: ByteOrder, o: int, is64: bool) -> LcModel {
    let cmd = rd32(d, o, bo);
    if cmd == LC_SEGMENT || cmd == LC_SEGMENT_64 {
        LcModel { segs: m.segs.push((o, cmd == LC_SEGMENT_64)), ..m }
    } else if cmd == LC_SYMTAB {
        let syms = m.syms + symtab_entries(
            rd32(d, o + 8, bo) as int,
            if is64 { 16int } else { 12int },
            rd32(d, o + 12, bo) as nat,
            rd32(d, o + 16, bo) as int,
        );
        let base = match first_index(m.segs, not_pagezero(d)) {
            Some(i) => rdw(d, m.segs[i].0 + 24, m.segs[i].1, bo),
            None => m.base,
        };
        LcModel { syms, base, ..m }
    } else if cmd == LC_UUID {
        LcModel { uuid: Some(o), ..m }
    } else if cmd == LC_SOURCE_VERSION {
        LcModel { source_version: Some(o), ..m }
    } else if cmd == LC_BUILD_VERSION {
        LcModel { build: Some(o), ..m }
    } else if cmd == LC_VERSION_MIN_MACOSX {
        LcModel { macosx: Some(o), ..m }
    } else if cmd == LC_VERSION_MIN_IPHONEOS {
        LcModel { ios: Some(o), ..m }
    } else if cmd == LC_ID_DYLIB {
        LcModel { dylib_id: Some(o), ..m }
    } else if cmd == LC_LOAD_DYLIB || cmd == LC_LOAD_WEAK_DYLIB || cmd == LC_REEXPORT_DYLIB || cmd
        == LC_LOAD_UPWARD_DYLIB {
        LcModel { dylibs: m.dylibs.push(o), ..m }
    } else if cmd == LC_RPATH {
        if cmd_string(d, o, bo) is Some {
            LcModel { rpaths: m.rpaths.push(o), ..m }
        } else {
            m
        }
    } else if cmd == LC_ENCRYPTION_INFO || cmd == LC_ENCRYPTION_INFO_64 {
        if rd32(d, o + 16, bo) != 0 {
            LcModel { encrypted: true, ..m }
        } else {
            m
        }
    } else {
        m
    }
}

/// Offset of load command `i`: each command starts where the previous one ends.
pub open spec fn lc_at(d: Seq<u8>, bo: ByteOrder, start: int, i: nat) -> int
    decreases i,
{
    if i == 0 {
        start
    } else {
        let p = lc_at(d, bo, start, (i - 1) as nat);
        p + rd32(d, p + 4, bo)
    }
}

/// Load command `i` is read: it and every command before it start at least
/// `ROOM` bytes below the end of the address space.
pub open spec fn lc_ok(d: Seq<u8>, bo: ByteOrder, start: int, i: nat) -> bool
    decreases i,
{
    lc_at(d, bo, start, i) + ROOM <= usize::MAX && (i == 0 || lc_ok(d, bo, start, (i - 1) as nat))
}

/// The contribution of the first `n` load commands.
pub open spec fn lc_model(d: Seq<u8>, bo: ByteOrder, start: int, n: nat, is64: bool) -> LcModel
    decreases n,
{
    if n == 0 {
        empty_model()
    } else {
        let m = lc_model(d, bo, start, (n - 1) as nat, is64);
        if lc_ok(d, bo, start, (n - 1) as nat) {
            lc_step(m, d, bo, lc_at(d, bo, start, (n - 1) as nat), is64)
        } else {
            m
        }
    }
}

proof fn lemma_lc_stopped(d: Seq<u8>, bo: ByteOrder, start: int, i: nat, n: nat, is64: bool)
    requires
        i <= n,
        !lc_ok(d, bo, start, i),
    ensures
        lc_model(d, bo, start, n, is64) == lc_model(d, bo, start, i, is64),
        !lc_ok(d, bo, start, n),
    decreases n - i,
{
    if i < n {
        lemma_lc_stopped(d, bo, start, i, (n - 1) as nat, is64);
    }
}

/// The file's parsed fields agree with model `m`.
pub open spec fn file_matches(f: MachOFile, d: Seq<u8>, m: LcModel) -> bool {
    let bo = f.byte_order;
    &&& f.segments@.len() == m.segs.len()
    &&& forall|j: int|
        0 <= j < m.segs.len() ==> segment_matches(#[trigger] f.segments@[j], d, m.segs[j].0, m.segs[j].1, bo)
    &&& f.symbols@.len() == m.syms.len()
    &&& forall|j: int|
        0 <= j < m.syms.len() ==> symbol_matches(#[trigger] f.symbols@[j], d, m.syms[j].0, m.syms[j].1, f.uses64, bo)
    &&& f.symbol_base_address == m.base
    &&& match m.uuid {
        Some(o) => f.uuid matches Some(u) && u@ == uuid_bytes(d, o),
        None => f.uuid is None,
    }
    &&& match m.source_version {
        Some(o) => f.source_version == Some(rd64(d, o + 8, bo)),
        None => f.source_version is None,
    }
    &&& match m.build {
        Some(o) => f.build_version matches Some(b) && build_matches(b, d, o, bo),
        None => f.build_version is None,
    }
    &&& match m.macosx {
        Some(o) => f.min_version_macosx == Some(rd32(d, o + 8, bo)),
        None => f.min_version_macosx is None,
    }
    &&& match m.ios {
        Some(o) => f.min_version_ios == Some(rd32(d, o + 8, bo)),
        None => f.min_version_ios is None,
    }
    &&& match m.dylib_id {
        Some(o) => f.dylib_id matches Some(x) && dylib_matches(x, d, o, bo),
        None => f.dylib_id is None,
    }
    &&& f.dylibs@.len() == m.dylibs.len()
    &&& forall|j: int| 0 <= j < m.dylibs.len() ==> dylib_matches(#[trigger] f.dylibs@[j], d, m.dylibs[j], bo)
    &&& f.run_paths@.len() == m.rpaths.len()
    &&& forall|j: int|
        0 <= j < m.rpaths.len() ==> cmd_string(d, m.rpaths[j], bo) == Some(#[trigger] f.run_paths@[j]@)
    &&& f.has_encryption == m.encrypted
}


/// No entry fits when none is left or the next would pass the end of the
/// address space.
pub(crate) proof fn lemma_fit_done(pos: int, stride: int, n: nat)
    requires
        n == 0 || pos + stride > usize::MAX,
    ensures
        fit_count(pos, stride, n) == 0,
{
}

fn read_section(cur: &mut Cursor, is64: bool) -> (s: Section)
    requires
        old(cur).pos() + section_stride(is64) <= usize::MAX,
    ensures
        section_matches(s, old(cur).bytes(), old(cur).pos(), is64, old(cur).order()),
        final(cur).pos() == old(cur).pos() + section_stride(is64),
        final(cur).same_source(old(cur)),
{
    let sectname = cur.read_fixed_string(16);
    let segname = cur.read_fixed_string(16);
    let addr;
    let size;
    if is64 {
        addr = cur.read_u64();
        size = cur.read_u64();
    } else {
        addr = cur.read_u32() as u64;
        size = cur.read_u32() as u64;
    }
    let offset = cur.read_u32();
    let _align = cur.read_u32();
    let _reloff = cur.read_u32();
    let _nreloc = cur.read_u32();
    let flags = cur.read_u32();
    let _reserved1 = cur.read_u32();
    let _reserved2 = cur.read_u32();
    if is64 {
        let _reserved3 = cur.read_u32();
    }
    Section { sectname, segname, addr, size, offset, flags }
}

/// Parse the segment command at `cmd_start` with its section headers.
fn parse_segment(data: &[u8], bo: ByteOrder, ptr_size: usize, cmd_start: usize, is64: bool) -> (g: Segment)
    requires
        cmd_start + ROOM <= usize::MAX,
    ensures
        segment_matches(g, data@, cmd_start as int, is64, bo),
{
    let mut cur = Cursor::at(data, bo, ptr_size, cmd_start);
    let _cmd = cur.read_u32();
    let _cmdsize = cur.read_u32();
    let name = cur.read_fixed_string(16);
    let vmaddr;
    let vmsize;
    let fileoff;
    let filesize;
    if is64 {
        vmaddr = cur.read_u64();
        vmsize = cur.read_u64();
        fileoff = cur.read_u64();
        filesize = cur.read_u64();
    } else {
        vmaddr = cur.read_u32() as u64;
        vmsize = cur.read_u32() as u64;
        fileoff = cur.read_u32() as u64;
        filesize = cur.read_u32() as u64;
    }
    let _maxprot = cur.read_u32();
    let _initprot = cur.read_u32();
    let nsects = cur.read_u32();
    let _flags = cur.read_u32();
    let stride: usize = if is64 { 80 } else { 68 };
    let ghost first = cur.pos();
    let mut sections: Vec<Section> = Vec::new();
    let mut k: u32 = 0;
    while k < nsects && cur.offset() <= usize::MAX - stride
        invariant
            stride == section_stride(is64),
            first == cmd_start + if is64 { 72int } else { 56int },
            k <= nsects,
            sections@.len() == k,
            cur.bytes() == data@,
            cur.order() == bo,
            cur.pos() == entry_off(first, stride as int, k as int),
            fit_count(first, stride as int, nsects as nat) == k + fit_count(cur.pos(), stride as int, (nsects - k) as nat),
            forall|j: int|
                0 <= j < k ==> section_matches(#[trigger] sections@[j], data@, entry_off(first, stride as int, j), is64, bo),
        decreases nsects - k,
    {
        let s = read_section(&mut cur, is64);
        sections.push(s);
        proof {
            lemma_entry_step(first, stride as int, k as int);
        }
        k = k + 1;
    }
    proof {
        lemma_fit_done(cur.pos(), stride as int, (nsects - k) as nat);
    }
    Segment { name, vmaddr, vmsize, fileoff, filesize, sections }
}


/// Fields that reading the load commands leaves alone.
pub open spec fn header_same(a: MachOFile, b: MachOFile) -> bool {
    &&& a.data == b.data
    &&& a.filename == b.filename
    &&& a.byte_order == b.byte_order
    &&& a.magic == b.magic
    &&& a.cputype == b.cputype
    &&& a.cpusubtype == b.cpusubtype
    &&& a.filetype == b.filetype
    &&& a.ncmds == b.ncmds
    &&& a.flags == b.flags
    &&& a.uses64 == b.uses64
    &&& a.symbol_names_by_address@ == b.symbol_names_by_address@
}

fn cmd_window_exec<'a>(data: &'a [u8], o: usize, cmdsize: u32) -> (r: &'a [u8])
    ensures
        r@ == clipped(data@, o as int, cmdsize as int),
{
    let len = data.len();
    if o >= len {
        return slice_subrange(data, len, len);
    }
    let room = len - o;
    let end = if (cmdsize as usize) < room { o + cmdsize as usize } else { len };
    slice_subrange(data, o, end)
}

/// The string of the command at `o` (dylib name, run path).
fn cmd_string_exec(data: &[u8], bo: ByteOrder, ptr_size: usize, o: usize) -> (r: Option<Vec<u8>>)
    requires
        o + ROOM <= usize::MAX,
    ensures
        match cmd_string(data@, o as int, bo) {
            Some(s) => r matches Some(v) && v@ == s,
            None => r is None,
        },
{
    let mut cur = Cursor::at(data, bo, ptr_size, o + 4);
    let cmdsize = cur.read_u32();
    let str_off = cur.read_u32();
    let window = cmd_window_exec(data, o, cmdsize);
    cstring_at(window, str_off as usize)
}

fn read_dylib(data: &[u8], bo: ByteOrder, ptr_size: usize, o: usize) -> (x: DylibInfo)
    requires
        o + ROOM <= usize::MAX,
    ensures
        dylib_matches(x, data@, o as int, bo),
{
    let mut cur = Cursor::at(data, bo, ptr_size, o + 12);
    let _timestamp = cur.read_u32();
    let current_version = cur.read_u32();
    let compatibility_version = cur.read_u32();
    let name = match cmd_string_exec(data, bo, ptr_size, o) {
        Some(n) => n,
        None => Vec::new(),
    };
    DylibInfo { name, current_version, compatibility_version }
}

fn read_build_version(data: &[u8], bo: ByteOrder, ptr_size: usize, o: usize) -> (b: BuildVersion)
    requires
        o + ROOM <= usize::MAX,
    ensures
        build_matches(b, data@, o as int, bo),
{
    let mut cur = Cursor::at(data, bo, ptr_size, o + 8);
    let platform = cur.read_u32();
    let minos = cur.read_u32();
    let sdk = cur.read_u32();
    let ntools = cur.read_u32();
    let ghost first = cur.pos();
    let mut tools: Vec<(u32, u32)> = Vec::new();
    let mut k: u32 = 0;
    while k < ntools && cur.offset() <= usize::MAX - 8
        invariant
            first == o + 24,
            k <= ntools,
            tools@.len() == k,
            cur.bytes() == data@,
            cur.order() == bo,
            cur.pos() == entry_off(first, 8, k as int),
            fit_count(first, 8, ntools as nat) == k + fit_count(cur.pos(), 8, (ntools - k) as nat),
            forall|j: int|
                0 <= j < k ==> #[trigger] tools@[j] == (
                    rd32(data@, entry_off(first, 8, j), bo),
                    rd32(data@, entry_off(first, 8, j) + 4, bo),
                ),
        decreases ntools - k,
    {
        let tool = cur.read_u32();
        let version = cur.read_u32();
        tools.push((tool, version));
        proof {
            lemma_entry_step(first, 8, k as int);
        }
        k = k + 1;
    }
    proof {
        lemma_fit_done(cur.pos(), 8, (ntools - k) as nat);
    }
    BuildVersion { platform, minos, sdk, tools }
}

fn read_uuid(data: &[u8], bo: ByteOrder, ptr_size: usize, o: usize) -> (u: Vec<u8>)
    requires
        o + ROOM <= usize::MAX,
    ensures
        u@ == uuid_bytes(data@, o as int),
{
    let mut cur = Cursor::at(data, bo, ptr_size, o + 8);
    let mut u: Vec<u8> = Vec::new();
    let mut k: usize = 0;
    while k < 16
        invariant
            k <= 16,
            o + ROOM <= usize::MAX,
            cur.bytes() == data@,
            cur.pos() == o + 8 + k,
            u@.len() == k,
            forall|j: int| 0 <= j < k ==> #[trigger] u@[j] == byte_at(data@, o + 8 + j),
        decreases 16 - k,
    {
        u.push(cur.read_u8());
        k = k + 1;
    }
    assert(u@ =~= uuid_bytes(data@, o as int));
    u
}

impl MachOFile {
    /// Read the symbol table of a `LC_SYMTAB` command and set the symbol base
    /// address from the first segment not named `__PAGEZERO`.
    fn parse_symtab(&mut self, data: &[u8], symoff: u32, nsyms: u32, stroff: u32, Ghost(m): Ghost<LcModel>)
        requires
            file_matches(*old(self), data@, m),
        ensures
            header_same(*final(self), *old(self)),
            file_matches(*final(self), data@, ({
                let syms = m.syms + symtab_entries(
                    symoff as int,
                    if old(self).uses64 { 16int } else { 12int },
                    nsyms as nat,
                    stroff as int,
                );
                let base = match first_index(m.segs, not_pagezero(data@)) {
                    Some(i) => rdw(data@, m.segs[i].0 + 24, m.segs[i].1, old(self).byte_order),
                    None => m.base,
                };
                LcModel { syms, base, ..m }
            })),
    {
        let bo = self.byte_order;
        let is64 = self.uses64;
        let len = data.len();
        let st = if (stroff as usize) <= len { stroff as usize } else { len };
        let strtab = slice_subrange(data, st, len);
        let ptr_size = self.ptr_size();
        let mut cur = Cursor::at(data, bo, ptr_size, symoff as usize);
        let stride: usize = if is64 { 16 } else { 12 };
        let ghost entries = symtab_entries(symoff as int, stride as int, nsyms as nat, stroff as int);
        let mut syms: Vec<Symbol> = Vec::new();
        let mut k: u32 = 0;
        while k < nsyms && cur.offset() <= usize::MAX - stride
            invariant
                stride == (if is64 { 16int } else { 12int }),
                strtab@ == data@.subrange(st as int, data@.len() as int),
                st == (if stroff <= data@.len() { stroff as int } else { data@.len() as int }),
                k <= nsyms,
                syms@.len() == k,
                cur.bytes() == data@,
                cur.order() == bo,
                cur.word() == ptr_size,
                cur.pos() == entry_off(symoff as int, stride as int, k as int),
                fit_count(symoff as int, stride as int, nsyms as nat) == k + fit_count(cur.pos(), stride as int, (nsyms - k) as nat),
                forall|j: int|
                    0 <= j < k ==> symbol_matches(
                        #[trigger] syms@[j],
                        data@,
                        entry_off(symoff as int, stride as int, j),
                        stroff as int,
                        is64,
                        bo,
                    ),
            decreases nsyms - k,
        {
            let n_strx = cur.read_u32();
            let n_type = cur.read_u8();
            let n_sect = cur.read_u8();
            let n_desc = cur.read_u16();
            let value = if is64 {
                cur.read_u64()
            } else {
                cur.read_u32() as u64
            };
            let name = match cstring_at(strtab, n_strx as usize) {
                Some(s) => s,
                None => Vec::new(),
            };
            syms.push(Symbol { name, n_type, n_sect, n_desc, value });
            proof {
                lemma_entry_step(symoff as int, stride as int, k as int);
            }
            k = k + 1;
        }
        proof {
            lemma_fit_done(cur.pos(), stride as int, (nsyms - k) as nat);
        }
        // The symbol base address: vmaddr of the first segment not named __PAGEZERO.
        let ghost p = not_pagezero(data@);
        let mut base = self.symbol_base_address;
        let mut i: usize = 0;
        proof {
            if self.segments@.len() == 0 {
                lemma_first_index_at(m.segs, p, 0);
            }
        }
        while i < self.segments.len()
            invariant_except_break
                base == m.base,
                i == self.segments@.len() ==> first_index(m.segs, p) is None,
            invariant
                file_matches(*self, data@, m),
                bo == self.byte_order,
                i <= self.segments@.len(),
                p == not_pagezero(data@),
                forall|j: int| 0 <= j < i ==> !p(#[trigger] m.segs[j]),
            ensures
                base == match first_index(m.segs, p) {
                    Some(i) => rdw(data@, m.segs[i].0 + 24, m.segs[i].1, bo),
                    None => m.base,
                },
            decreases self.segments@.len() - i,
        {
            assert(self.segments@[i as int].name@ == fixed_str(data@, m.segs[i as int].0 + 8, 16));
            if !bytes_eq(self.segments[i].name.as_slice(), "__PAGEZERO".as_bytes()) {
                proof {
                    lemma_first_index_at(m.segs, p, i as int);
                }
                base = self.segments[i].vmaddr;
                break;
            }
            i = i + 1;
            proof {
                if i == self.segments@.len() {
                    lemma_first_index_at(m.segs, p, i as int);
                }
            }
        }
        let ghost old_syms = self.symbols@;
        let ghost new_syms = syms@;
        self.symbols.append(&mut syms);
        self.symbol_base_address = base;
        proof {
            assert forall|j: int| 0 <= j < m.syms.len() + entries.len() implies symbol_matches(
                #[trigger] self.symbols@[j],
                data@,
                (m.syms + entries)[j].0,
                (m.syms + entries)[j].1,
                is64,
                bo,
            ) by {
                if j >= m.syms.len() {
                    let jj = j - m.syms.len();
                    assert(self.symbols@[j] == new_syms[jj]);
                } else {
                    assert(self.symbols@[j] == old_syms[j]);
                }
            }
        }
    }
}


impl MachOFile {
    /// Apply the load command at `o`.
    fn apply_command(&mut self, data: &[u8], o: usize, Ghost(m): Ghost<LcModel>)
        requires
            file_matches(*old(self), data@, m),
            o + ROOM <= usize::MAX,
        ensures
            header_same(*final(self), *old(self)),
            file_matches(*final(self), data@, lc_step(m, data@, old(self).byte_order, o as int, old(self).uses64)),
    {
        let bo = self.byte_order;
        let ptr = self.ptr_size();
        let mut cur = Cursor::at(data, bo, ptr, o);
        let cmd = cur.read_u32();
        let _cmdsize = cur.read_u32();
        if cmd == LC_SEGMENT || cmd == LC_SEGMENT_64 {
            let g = parse_segment(data, bo, ptr, o, cmd == LC_SEGMENT_64);
            self.segments.push(g);
        } else if cmd == LC_SYMTAB {
            let symoff = cur.read_u32();
            let nsyms = cur.read_u32();
            let stroff = cur.read_u32();
            let _strsize = cur.read_u32();
            self.parse_symtab(data, symoff, nsyms, stroff, Ghost(m));
        } else if cmd == LC_UUID {
            self.uuid = Some(read_uuid(data, bo, ptr, o));
        } else if cmd == LC_SOURCE_VERSION {
            self.source_version = Some(cur.read_u64());
        } else if cmd == LC_BUILD_VERSION {
            self.build_version = Some(read_build_version(data, bo, ptr, o));
        } else if cmd == LC_VERSION_MIN_MACOSX {
            self.min_version_macosx = Some(cur.read_u32());
        } else if cmd == LC_VERSION_MIN_IPHONEOS {
            self.min_version_ios = Some(cur.read_u32());
        } else if cmd == LC_ID_DYLIB {
            self.dylib_id = Some(read_dylib(data, bo, ptr, o));
        } else if cmd == LC_LOAD_DYLIB || cmd == LC_LOAD_WEAK_DYLIB || cmd == LC_REEXPORT_DYLIB || cmd
            == LC_LOAD_UPWARD_DYLIB {
            let x = read_dylib(data, bo, ptr, o);
            self.dylibs.push(x);
        } else if cmd == LC_RPATH {
            match cmd_string_exec(data, bo, ptr, o) {
                Some(p) => self.run_paths.push(p),
                None => {},
            }
        } else if cmd == LC_ENCRYPTION_INFO || cmd == LC_ENCRYPTION_INFO_64 {
            let _cryptoff = cur.read_u32();
            let _cryptsize = cur.read_u32();
            let cryptid = cur.read_u32();
            if cryptid != 0 {
                self.has_encryption = true;
            }
        }
    }

    /// Walk the load commands after the header.
    fn read_load_commands(&mut self, data: &[u8], header_size: usize)
        requires
            file_matches(*old(self), data@, empty_model()),
            header_size <= 32,
        ensures
            header_same(*final(self), *old(self)),
            file_matches(
                *final(self),
                data@,
                lc_model(data@, old(self).byte_order, header_size as int, old(self).ncmds as nat, old(self).uses64),
            ),
    {
        let bo = self.byte_order;
        let ptr = self.ptr_size();
        let ghost start = header_size as int;
        let ghost n = self.ncmds as nat;
        let ghost is64 = self.uses64;
        let mut off = header_size;
        let mut i: u32 = 0;
        while i < self.ncmds
            invariant_except_break
                off == lc_at(data@, bo, start, i as nat),
                i == 0 || lc_ok(data@, bo, start, (i - 1) as nat),
                file_matches(*self, data@, lc_model(data@, bo, start, i as nat, is64)),
            invariant
                i <= self.ncmds,
                n == self.ncmds,
                bo == self.byte_order,
                is64 == self.uses64,
                header_same(*self, *old(self)),
            ensures
                file_matches(*self, data@, lc_model(data@, bo, start, n, is64)),
            decreases self.ncmds - i,
        {
            if off > usize::MAX - ROOM {
                proof {
                    lemma_lc_stopped(data@, bo, start, i as nat, n, is64);
                }
                break;
            }
            assert(lc_ok(data@, bo, start, i as nat));
            let mut cur = Cursor::at(data, bo, ptr, off + 4);
            let cmdsize = cur.read_u32();
            self.apply_command(data, off, Ghost(lc_model(data@, bo, start, i as nat, is64)));
            i = i + 1;
            assert(lc_at(data@, bo, start, i as nat) == off + cmdsize);
            match off.checked_add(cmdsize as usize) {
                Some(next) => {
                    off = next;
                },
                None => {
                    proof {
                        lemma_lc_stopped(data@, bo, start, i as nat, n, is64);
                    }
                    break;
                },
            }
        }
    }
}

pub open spec fn valid_magic(magic: u32) -> bool {
    magic == MH_MAGIC || magic == MH_MAGIC_64 || magic == MH_CIGAM || magic == MH_CIGAM_64
}

/// The header fields of `f` are those of data `d`.
pub open spec fn header_matches(f: MachOFile, d: Seq<u8>) -> bool {
    let magic = be_uint(d, 0, 4) as u32;
    let bo = f.byte_order;
    &&& f.magic == magic
    &&& f.byte_order == (if magic == MH_MAGIC || magic == MH_MAGIC_64 { ByteOrder::Big } else { ByteOrder::Little })
    &&& f.uses64 == (magic == MH_MAGIC_64 || magic == MH_CIGAM_64)
    &&& f.cputype == rd32(d, 4, bo) as i32
    &&& f.cpusubtype == rd32(d, 8, bo) as i32
    &&& f.filetype == rd32(d, 12, bo)
    &&& f.ncmds == rd32(d, 16, bo)
    &&& f.flags == rd32(d, 24, bo)
}

pub open spec fn header_size(is64: bool) -> int {
    if is64 { 32 } else { 28 }
}

/// Everything that the header and load commands of `d` say about `f`.
pub open spec fn commands_match(f: MachOFile, d: Seq<u8>) -> bool {
    &&& header_matches(f, d)
    &&& file_matches(f, d, lc_model(d, f.byte_order, header_size(f.uses64), f.ncmds as nat, f.uses64))
}

/// Read the header and load commands of `data` (no fixups applied).
fn parse_commands(data: &Vec<u8>, filename: Vec<u8>) -> (r: Option<MachOFile>)
    ensures
        r is None <==> (data@.len() < 4 || !valid_magic(be_uint(data@, 0, 4) as u32)),
        r matches Some(f) ==> commands_match(f, data@) && f.filename == filename && f.data@.len() == 0
            && f.symbol_names_by_address@ == Map::<u64, Vec<u8>>::empty(),
{
    if data.len() < 4 {
        return None;
    }
    let mut cur = Cursor::new(data.as_slice(), ByteOrder::Big, 4);
    let magic = cur.read_be_u32();
    let byte_order;
    let uses64;
    if magic == MH_MAGIC {
        byte_order = ByteOrder::Big;
        uses64 = false;
    } else if magic == MH_MAGIC_64 {
        byte_order = ByteOrder::Big;
        uses64 = true;
    } else if magic == MH_CIGAM {
        byte_order = ByteOrder::Little;
        uses64 = false;
    } else if magic == MH_CIGAM_64 {
        byte_order = ByteOrder::Little;
        uses64 = true;
    } else {
        return None;
    }
    let ptr_size: usize = if uses64 { 8 } else { 4 };
    let mut cur = Cursor::at(data.as_slice(), byte_order, ptr_size, 4);
    let cputype = cur.read_u32() as i32;
    let cpusubtype = cur.read_u32() as i32;
    let filetype = cur.read_u32();
    let ncmds = cur.read_u32();
    let _sizeofcmds = cur.read_u32();
    let flags = cur.read_u32();
    let mut file = MachOFile {
        data: Vec::new(),
        filename,
        byte_order,
        magic,
        cputype,
        cpusubtype,
        filetype,
        ncmds,
        flags,
        uses64,
        segments: Vec::new(),
        symbols: Vec::new(),
        symbol_base_address: 0,
        uuid: None,
        source_version: None,
        build_version: None,
        min_version_macosx: None,
        min_version_ios: None,
        dylib_id: None,
        dylibs: Vec::new(),
        run_paths: Vec::new(),
        has_encryption: false,
        symbol_names_by_address: HashMap::new(),
        unsupported_chain_formats: Vec::new(),
    };
    let header_size: usize = if uses64 { 32 } else { 28 };
    file.read_load_commands(data.as_slice(), header_size);
    Some(file)
}


/// What `MachOFile::parse` makes of `data`: the header and load commands, the
/// dyld-info binds, then the chained-fixups pass over the data, with the pointer
/// formats of the segments that pass skipped.
pub open spec fn parsed_from(f: MachOFile, d: Seq<u8>) -> bool {
    let m1 = crate::bind::dyld_binds(
        Map::empty(),
        d,
        f.segments@.map_values(|s: Segment| s.vmaddr),
        f.spec_ptr_size() as u64,
        crate::bind::dyld_ranges(d, f.byte_order, header_size(f.uses64), f.ncmds as nat),
    );
    let (d2, m2) = crate::chained::after_fixups(f, d, m1);
    &&& commands_match(f, d)
    &&& f.data@ == d2
    &&& crate::bind::names_view(f.symbol_names_by_address@) == m2
    &&& f.unsupported_chain_formats@ == crate::chained::skipped_after_fixups(f, d)
}

impl MachOFile {
    /// Parse a thin Mach-O image from owned bytes: `None` for fewer than four
    /// bytes or an unknown magic number (fat files included).
    pub fn parse(data: Vec<u8>, filename: Vec<u8>) -> (r: Option<MachOFile>)
        ensures
            r is None <==> (data@.len() < 4 || !valid_magic(be_uint(data@, 0, 4) as u32)),
            r matches Some(f) ==> parsed_from(f, data@) && f.filename == filename,
    {
        let mut file = match parse_commands(&data, filename) {
            Some(f) => f,
            None => return None,
        };
        assert(crate::bind::names_view(file.symbol_names_by_address@) =~= Map::<u64, Seq<u8>>::empty());
        file.process_dyld_info(data.as_slice());
        let mut data = data;
        let skipped = file.process_chained_fixups(&mut data);
        file.data = data;
        file.unsupported_chain_formats = skipped;
        Some(file)
    }
}

} // verus!
