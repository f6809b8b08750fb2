//! `LC_DYLD_INFO` bind opcodes: which external symbol is bound at which address.

use vstd::prelude::*;
use std::collections::HashMap;
use crate::consts::{LC_DYLD_INFO, LC_DYLD_INFO_ONLY};
use crate::cursor::{cstring_at, cstring_spec, ByteOrder, Cursor};
use crate::loadcmd::{lc_at, lc_ok, rd32, ROOM};
use crate::macho::{same_except_binds, MachOFile};
use crate::uleb::{read_sleb128, read_uleb128, sleb, sleb_from, uleb, uleb_from};

verus! {

broadcast use vstd::std_specs::hash::group_hash_axioms;

pub const BIND_OPCODE_MASK: u8 = 0xF0;
pub const BIND_IMMEDIATE_MASK: u8 = 0x0F;
pub const BIND_OPCODE_DONE: u8 = 0x00;
pub const BIND_OPCODE_SET_DYLIB_ORDINAL_IMM: u8 = 0x10;
pub const BIND_OPCODE_SET_DYLIB_ORDINAL_ULEB: u8 = 0x20;
pub const BIND_OPCODE_SET_DYLIB_SPECIAL_IMM: u8 = 0x30;
pub const BIND_OPCODE_SET_SYMBOL_TRAILING_FLAGS_IMM: u8 = 0x40;
pub const BIND_OPCODE_SET_TYPE_IMM: u8 = 0x50;
pub const BIND_OPCODE_SET_ADDEND_SLEB: u8 = 0x60;
pub const BIND_OPCODE_SET_SEGMENT_AND_OFFSET_ULEB: u8 = 0x70;
pub const BIND_OPCODE_ADD_ADDR_ULEB: u8 = 0x80;
pub const BIND_OPCODE_DO_BIND: u8 = 0x90;
pub const BIND_OPCODE_DO_BIND_ADD_ADDR_ULEB: u8 = 0xA0;
pub const BIND_OPCODE_DO_BIND_ADD_ADDR_IMM_SCALED: u8 = 0xB0;
pub const BIND_OPCODE_DO_BIND_ULEB_TIMES_SKIPPING_ULEB: u8 = 0xC0;

pub proof fn lemma_uleb_advances(d: Seq<u8>, pos: int, shift: u32, acc: u64)
    ensures
        uleb_from(d, pos, shift, acc).1 >= pos,
        0 <= pos < d.len() ==> uleb_from(d, pos, shift, acc).1 > pos,
    decreases d.len() - pos,
{
    if 0 <= pos < d.len() {
        let b = d[pos];
        let acc2 = acc | ((b & 0x7f) as u64).wrapping_shl(shift);
        lemma_uleb_advances(d, pos + 1, shift.wrapping_add(7), acc2);
    }
}

pub proof fn lemma_sleb_advances(d: Seq<u8>, pos: int, shift: u32, acc: i64, last: u8)
    ensures
        sleb_from(d, pos, shift, acc, last).3 >= pos,
    decreases d.len() - pos,
{
    if 0 <= pos < d.len() {
        let b = d[pos];
        let acc2 = acc | ((b & 0x7f) as i64).wrapping_shl(shift);
        lemma_sleb_advances(d, pos + 1, shift.wrapping_add(7), acc2, b);
    }
}

/// State of the bind-opcode interpreter.
pub struct BindState {
    pub pos: int,
    pub address: u64,
    pub name: Seq<u8>,
    pub binds: Seq<(u64, Seq<u8>)>,
    pub done: bool,
}

/// `count` binds of `name`, starting at `address`, `step` bytes apart; with
/// the address after them.
pub open spec fn repeated_binds(address: u64, name: Seq<u8>, count: nat, step: u64) -> (Seq<(u64, Seq<u8>)>, u64)
    decreases count,
{
    if count == 0 {
        (Seq::empty(), address)
    } else {
        let (prev, a) = repeated_binds(address, name, (count - 1) as nat, step);
        (prev.push((a, name)), a.wrapping_add(step))
    }
}

/// `count` binds `step` bytes apart: bind `k` is at `address + k * step`,
/// and the address after them is `address + count * step` (64-bit
/// arithmetic); each binds `name`.
pub proof fn lemma_repeated_binds(address: u64, name: Seq<u8>, count: nat, step: u64)
    ensures
        repeated_binds(address, name, count, step).0.len() == count,
        repeated_binds(address, name, count, step).1 as int == (address + count * step) % 0x1_0000_0000_0000_0000,
        forall|k: int|
            0 <= k < count ==> #[trigger] repeated_binds(address, name, count, step).0[k] == (
                ((address + k * step) % 0x1_0000_0000_0000_0000) as u64,
                name,
            ),
    decreases count,
{
    let m: int = 0x1_0000_0000_0000_0000;
    if count == 0 {
        assert(address as int % m == address as int) by {
            vstd::arithmetic::div_mod::lemma_small_mod(address as nat, m as nat);
        }
    } else {
        let c1 = (count - 1) as nat;
        lemma_repeated_binds(address, name, c1, step);
        let a = repeated_binds(address, name, c1, step).1;
        assert(a as int == (address + c1 * step) % m);
        vstd::arithmetic::div_mod::lemma_add_mod_noop(address + c1 * step, step as int, m);
        vstd::arithmetic::div_mod::lemma_small_mod(step as nat, m as nat);
        vstd::arithmetic::div_mod::lemma_small_mod(a as nat, m as nat);
        assert(a.wrapping_add(step) as int == (a + step) % m);
        assert(address + c1 * step + step == address + count * step) by (nonlinear_arith)
            requires
                c1 + 1 == count,
        ;
    }
}

/// The vmaddr of segment `i`, or 0.
pub open spec fn seg_base(segvm: Seq<u64>, i: int) -> u64 {
    if 0 <= i < segvm.len() {
        segvm[i]
    } else {
        0
    }
}

/// One bind opcode, at `st.pos`.
pub open spec fn bind_op(d: Seq<u8>, segvm: Seq<u64>, ptr: u64, st: BindState) -> BindState {
    let byte = d[st.pos];
    let imm = byte & BIND_IMMEDIATE_MASK;
    let op = byte & BIND_OPCODE_MASK;
    let p = st.pos + 1;
    if op == BIND_OPCODE_DONE {
        BindState { pos: p, done: true, ..st }
    } else if op == BIND_OPCODE_SET_DYLIB_ORDINAL_IMM || op == BIND_OPCODE_SET_DYLIB_SPECIAL_IMM || op
        == BIND_OPCODE_SET_TYPE_IMM {
        BindState { pos: p, ..st }
    } else if op == BIND_OPCODE_SET_DYLIB_ORDINAL_ULEB {
        BindState { pos: uleb(d, p).1, ..st }
    } else if op == BIND_OPCODE_SET_SYMBOL_TRAILING_FLAGS_IMM {
        let name = match cstring_spec(d, p) {
            Some(s) => s,
            None => Seq::empty(),
        };
        BindState { pos: p + name.len() + 1, name, ..st }
    } else if op == BIND_OPCODE_SET_ADDEND_SLEB {
        BindState { pos: sleb(d, p).1, ..st }
    } else if op == BIND_OPCODE_SET_SEGMENT_AND_OFFSET_ULEB {
        let (v, q) = uleb(d, p);
        BindState { pos: q, address: seg_base(segvm, imm as int).wrapping_add(v), ..st }
    } else if op == BIND_OPCODE_ADD_ADDR_ULEB {
        let (v, q) = uleb(d, p);
        BindState { pos: q, address: st.address.wrapping_add(v), ..st }
    } else if op == BIND_OPCODE_DO_BIND {
        BindState {
            pos: p,
            binds: st.binds.push((st.address, st.name)),
            address: st.address.wrapping_add(ptr),
            ..st
        }
    } else if op == BIND_OPCODE_DO_BIND_ADD_ADDR_ULEB {
        let (v, q) = uleb(d, p);
        BindState {
            pos: q,
            binds: st.binds.push((st.address, st.name)),
            address: st.address.wrapping_add(ptr).wrapping_add(v),
            ..st
        }
    } else if op == BIND_OPCODE_DO_BIND_ADD_ADDR_IMM_SCALED {
        BindState {
            pos: p,
            binds: st.binds.push((st.address, st.name)),
            address: st.address.wrapping_add(ptr).wrapping_add(((imm as u64) * ptr) as u64),
            ..st
        }
    } else if op == BIND_OPCODE_DO_BIND_ULEB_TIMES_SKIPPING_ULEB {
        let (count, q1) = uleb(d, p);
        let (skip, q2) = uleb(d, q1);
        let (more, addr) = repeated_binds(st.address, st.name, count as nat, ptr.wrapping_add(skip));
        BindState { pos: q2, binds: st.binds + more, address: addr, ..st }
    } else {
        BindState { pos: p, done: true, ..st }
    }
}

/// The bind opcodes that bind: `DO_BIND` records a bind of the current name
/// at the current address and moves one pointer on; `DO_BIND_ADD_ADDR_ULEB v`
/// records the same bind and moves one pointer plus `v` on;
/// `DO_BIND_ADD_ADDR_IMM_SCALED k` moves `k + 1` pointers on (all in 64-bit
/// arithmetic). The rest of the state (name, whether the run is done) stays.
pub proof fn lemma_bind_opcodes_advance(d: Seq<u8>, segvm: Seq<u64>, ptr: u64, st: BindState)
    requires
        0 <= st.pos < d.len(),
        ptr <= 8,
    ensures
        d[st.pos] & 0xF0 == 0x90 ==> bind_op(d, segvm, ptr, st) == (BindState {
            pos: st.pos + 1,
            address: ((st.address + ptr) % 0x1_0000_0000_0000_0000) as u64,
            binds: st.binds.push((st.address, st.name)),
            ..st
        }),
        d[st.pos] & 0xF0 == 0xA0 ==> bind_op(d, segvm, ptr, st) == (BindState {
            pos: uleb(d, st.pos + 1).1,
            address: ((st.address + ptr + uleb(d, st.pos + 1).0) % 0x1_0000_0000_0000_0000) as u64,
            binds: st.binds.push((st.address, st.name)),
            ..st
        }),
        d[st.pos] & 0xF0 == 0xB0 ==> bind_op(d, segvm, ptr, st) == (BindState {
            pos: st.pos + 1,
            address: ((st.address + ptr + (d[st.pos] & 0x0F) * ptr) % 0x1_0000_0000_0000_0000) as u64,
            binds: st.binds.push((st.address, st.name)),
            ..st
        }),
{
    let byte = d[st.pos];
    let m: int = 0x1_0000_0000_0000_0000;
    let a1 = st.address.wrapping_add(ptr);
    assert(a1 as int == (st.address + ptr) % m);
    if byte & 0xF0 == 0xA0 {
        let v = uleb(d, st.pos + 1).0;
        assert(a1.wrapping_add(v) as int == (st.address + ptr + v) % m) by {
            if st.address + ptr >= m {
                assert(a1 as int == st.address + ptr - m);
            }
        }
    }
    if byte & 0xF0 == 0xB0 {
        assert(byte & 0x0F <= 15) by (bit_vector);
        let imm = byte & 0x0F;
        assert(0 <= (imm as u64) * ptr <= 120) by (nonlinear_arith)
            requires
                imm <= 15,
                ptr <= 8,
        ;
        let k = ((imm as u64) * ptr) as u64;
        assert(k as int == imm * ptr);
        assert(a1.wrapping_add(k) as int == (st.address + ptr + imm * ptr) % m) by {
            if st.address + ptr >= m {
                assert(a1 as int == st.address + ptr - m);
            }
        }
        assert(byte & BIND_IMMEDIATE_MASK == imm);
        assert(bind_op(d, segvm, ptr, st).address == a1.wrapping_add(k));
    }
}

/// The opcodes that move the address without binding:
/// `SET_SEGMENT_AND_OFFSET_ULEB` (segment `k`, offset `v`) sets it to the
/// segment's address plus `v`; `ADD_ADDR_ULEB v` adds `v` (64-bit
/// arithmetic). `DO_BIND_ULEB_TIMES_SKIPPING_ULEB` (`n`, `skip`) records `n`
/// binds one pointer plus `skip` apart (see `lemma_repeated_binds`).
pub proof fn lemma_bind_address_opcodes(d: Seq<u8>, segvm: Seq<u64>, ptr: u64, st: BindState)
    requires
        0 <= st.pos < d.len(),
    ensures
        d[st.pos] & 0xF0 == 0x70 && (d[st.pos] & 0x0F) < segvm.len() ==> bind_op(d, segvm, ptr, st) == (BindState {
            pos: uleb(d, st.pos + 1).1,
            address: ((segvm[(d[st.pos] & 0x0F) as int] + uleb(d, st.pos + 1).0) % 0x1_0000_0000_0000_0000) as u64,
            ..st
        }),
        d[st.pos] & 0xF0 == 0x80 ==> bind_op(d, segvm, ptr, st) == (BindState {
            pos: uleb(d, st.pos + 1).1,
            address: ((st.address + uleb(d, st.pos + 1).0) % 0x1_0000_0000_0000_0000) as u64,
            ..st
        }),
        d[st.pos] & 0xF0 == 0xC0 ==> ({
            let (n, q1) = uleb(d, st.pos + 1);
            let (skip, q2) = uleb(d, q1);
            let r = bind_op(d, segvm, ptr, st);
            &&& r.pos == q2
            &&& r.binds == st.binds + repeated_binds(st.address, st.name, n as nat, ptr.wrapping_add(skip)).0
            &&& r.address == repeated_binds(st.address, st.name, n as nat, ptr.wrapping_add(skip)).1
            &&& r.name == st.name
            &&& r.done == st.done
        }),
{
}

/// Run the bind opcodes from `st` until `DONE`, an unknown opcode, or `end`
/// (at most `fuel` opcodes).
pub open spec fn bind_run(d: Seq<u8>, segvm: Seq<u64>, ptr: u64, end: int, st: BindState, fuel: nat) -> BindState
    decreases fuel,
{
    if fuel == 0 || st.done || st.pos >= end {
        st
    } else {
        bind_run(d, segvm, ptr, end, bind_op(d, segvm, ptr, st), (fuel - 1) as nat)
    }
}

/// The binds of the opcode stream `d[start..start+size]` (clipped to the data).
pub open spec fn bind_stream(d: Seq<u8>, segvm: Seq<u64>, ptr: u64, start: int, size: int) -> Seq<(u64, Seq<u8>)> {
    let end = if start + size < d.len() { start + size } else { d.len() as int };
    let st0 = BindState {
        pos: start,
        address: seg_base(segvm, 0),
        name: Seq::empty(),
        binds: Seq::empty(),
        done: false,
    };
    bind_run(d, segvm, ptr, end, st0, d.len() as nat + 1).binds
}

/// `m` with the binds inserted in order (a later bind of an address wins).
pub open spec fn insert_binds(m: Map<u64, Seq<u8>>, binds: Seq<(u64, Seq<u8>)>) -> Map<u64, Seq<u8>>
    decreases binds.len(),
{
    if binds.len() == 0 {
        m
    } else {
        insert_binds(m, binds.drop_last()).insert(binds.last().0, binds.last().1)
    }
}

/// The names of a map of byte vectors.
pub open spec fn names_view(m: Map<u64, Vec<u8>>) -> Map<u64, Seq<u8>> {
    Map::new(|k: u64| m.contains_key(k), |k: u64| m[k]@)
}

proof fn lemma_run_stops(d: Seq<u8>, segvm: Seq<u64>, ptr: u64, end: int, st: BindState, fuel: nat)
    requires
        st.done || st.pos >= end,
    ensures
        bind_run(d, segvm, ptr, end, st, fuel) == st,
{
}

proof fn lemma_run_step(d: Seq<u8>, segvm: Seq<u64>, ptr: u64, end: int, st: BindState, fuel: nat)
    requires
        !st.done,
        st.pos < end,
        fuel > 0,
    ensures
        bind_run(d, segvm, ptr, end, st, fuel) == bind_run(d, segvm, ptr, end, bind_op(d, segvm, ptr, st), (fuel - 1) as nat),
{
}

/// The (address, name) pairs of a list of binds.
pub open spec fn binds_view(b: Seq<(u64, Vec<u8>)>) -> Seq<(u64, Seq<u8>)> {
    b.map_values(|x: (u64, Vec<u8>)| (x.0, x.1@))
}

/// Emit `count` binds, `step` bytes apart.
fn push_repeated(binds: &mut Vec<(u64, Vec<u8>)>, address: u64, name: &Vec<u8>, count: u64, step: u64) -> (r: u64)
    ensures
        ({
            let (more, last) = repeated_binds(address, name@, count as nat, step);
            &&& r == last
            &&& binds_view(final(binds)@) == binds_view(old(binds)@) + more
        }),
{
    let mut addr = address;
    let mut k: u64 = 0;
    let ghost start = binds_view(binds@);
    assert(start + Seq::<(u64, Seq<u8>)>::empty() =~= start);
    while k < count
        invariant
            k <= count,
            start == binds_view(old(binds)@),
            binds_view(binds@) == start + repeated_binds(address, name@, k as nat, step).0,
            addr == repeated_binds(address, name@, k as nat, step).1,
        decreases count - k,
    {
        let ghost before = binds_view(binds@);
        binds.push((addr, crate::text::to_vec(name.as_slice())));
        assert(binds_view(binds@) =~= before.push((addr, name@)));
        addr = addr.wrapping_add(step);
        k = k + 1;
        assert(start + repeated_binds(address, name@, k as nat, step).0 =~= before.push(
            (repeated_binds(address, name@, (k - 1) as nat, step).1, name@),
        ));
    }
    addr
}

impl MachOFile {
    /// Run the bind opcodes of `data[start..start+size]` and record the binds.
    fn parse_bind_ops(&mut self, data: &[u8], start: usize, size: usize)
        ensures
            names_view(final(self).symbol_names_by_address@) == insert_binds(
                names_view(old(self).symbol_names_by_address@),
                bind_stream(
                    data@,
                    old(self).segments@.map_values(|s: crate::macho::Segment| s.vmaddr),
                    old(self).spec_ptr_size() as u64,
                    start as int,
                    size as int,
                ),
            ),
            same_except_binds(*final(self), *old(self)),
    {
        let ptr_size = self.ptr_size() as u64;
        let mut seg_vmaddrs: Vec<u64> = Vec::new();
        let mut i: usize = 0;
        while i < self.segments.len()
            invariant
                i <= self.segments@.len(),
                seg_vmaddrs@.len() == i,
                forall|j: int| 0 <= j < i ==> #[trigger] seg_vmaddrs@[j] == self.segments@[j].vmaddr,
            decreases self.segments@.len() - i,
        {
            seg_vmaddrs.push(self.segments[i].vmaddr);
            i = i + 1;
        }
        let ghost segvm = self.segments@.map_values(|s: crate::macho::Segment| s.vmaddr);
        assert(seg_vmaddrs@ =~= segvm);
        let seg0_vmaddr = if seg_vmaddrs.len() > 0 { seg_vmaddrs[0] } else { 0 };
        let len = data.len();
        let end = if size < len && start < len - size { start + size } else { len };
        let mut pos = start;
        let mut address = seg0_vmaddr;
        let mut symbol_name: Vec<u8> = Vec::new();
        let mut binds: Vec<(u64, Vec<u8>)> = Vec::new();
        let ghost end_i = if start + size < data@.len() { start + size } else { data@.len() as int };
        let ghost st0 = BindState {
            pos: start as int,
            address: seg_base(segvm, 0),
            name: Seq::empty(),
            binds: Seq::empty(),
            done: false,
        };
        let ghost fuel0 = data@.len() as nat + 1;
        let ghost mut fuel: nat = fuel0;
        assert(binds_view(binds@) =~= Seq::<(u64, Seq<u8>)>::empty());
        assert(symbol_name@ =~= Seq::<u8>::empty());
        while pos < end
            invariant_except_break
                fuel + pos >= data@.len() + 1,
                bind_run(data@, segvm, ptr_size, end_i, st0, fuel0) == bind_run(
                    data@,
                    segvm,
                    ptr_size,
                    end_i,
                    BindState { pos: pos as int, address, name: symbol_name@, binds: binds_view(binds@), done: false },
                    fuel,
                ),
            invariant
                end == end_i,
                end <= data@.len(),
                seg_vmaddrs@ == segvm,
                ptr_size == self.spec_ptr_size(),
            ensures
                bind_run(data@, segvm, ptr_size, end_i, st0, fuel0).binds == binds_view(binds@),
            decreases fuel,
        {
            let ghost st = BindState {
                pos: pos as int,
                address,
                name: symbol_name@,
                binds: binds_view(binds@),
                done: false,
            };
            proof {
                lemma_run_step(data@, segvm, ptr_size, end_i, st, fuel);
            }
            let ghost next = bind_op(data@, segvm, ptr_size, st);
            let ghost before = binds_view(binds@);
            let byte = data[pos];
            pos = pos + 1;
            let immediate = byte & BIND_IMMEDIATE_MASK;
            let opcode = byte & BIND_OPCODE_MASK;
            if opcode == BIND_OPCODE_DONE {
                proof {
                    lemma_run_stops(data@, segvm, ptr_size, end_i, next, (fuel - 1) as nat);
                }
                break;
            } else if opcode == BIND_OPCODE_SET_DYLIB_ORDINAL_IMM || opcode == BIND_OPCODE_SET_DYLIB_SPECIAL_IMM
                || opcode == BIND_OPCODE_SET_TYPE_IMM {
            } else if opcode == BIND_OPCODE_SET_DYLIB_ORDINAL_ULEB {
                proof { lemma_uleb_advances(data@, pos as int, 0, 0); }
                read_uleb128(data, &mut pos);
            } else if opcode == BIND_OPCODE_SET_SYMBOL_TRAILING_FLAGS_IMM {
                symbol_name = match cstring_at(data, pos) {
                    Some(s) => s,
                    None => Vec::new(),
                };
                match pos.checked_add(symbol_name.len()) {
                    Some(p) if p < usize::MAX => {
                        pos = p + 1;
                    },
                    _ => {
                        proof {
                            lemma_run_stops(data@, segvm, ptr_size, end_i, next, (fuel - 1) as nat);
                        }
                        break;
                    },
                }
            } else if opcode == BIND_OPCODE_SET_ADDEND_SLEB {
                proof { lemma_sleb_advances(data@, pos as int, 0, 0, 0); }
                read_sleb128(data, &mut pos);
            } else if opcode == BIND_OPCODE_SET_SEGMENT_AND_OFFSET_ULEB {
                proof { lemma_uleb_advances(data@, pos as int, 0, 0); }
                let val = read_uleb128(data, &mut pos);
                let base = if (immediate as usize) < seg_vmaddrs.len() { seg_vmaddrs[immediate as usize] } else { 0 };
                address = base.wrapping_add(val);
            } else if opcode == BIND_OPCODE_ADD_ADDR_ULEB {
                proof { lemma_uleb_advances(data@, pos as int, 0, 0); }
                let val = read_uleb128(data, &mut pos);
                address = address.wrapping_add(val);
            } else if opcode == BIND_OPCODE_DO_BIND {
                binds.push((address, crate::text::to_vec(symbol_name.as_slice())));
                address = address.wrapping_add(ptr_size);
            } else if opcode == BIND_OPCODE_DO_BIND_ADD_ADDR_ULEB {
                proof { lemma_uleb_advances(data@, pos as int, 0, 0); }
                let val = read_uleb128(data, &mut pos);
                binds.push((address, crate::text::to_vec(symbol_name.as_slice())));
                address = address.wrapping_add(ptr_size).wrapping_add(val);
            } else if opcode == BIND_OPCODE_DO_BIND_ADD_ADDR_IMM_SCALED {
                binds.push((address, crate::text::to_vec(symbol_name.as_slice())));
                address = address.wrapping_add(ptr_size).wrapping_add((immediate as u64) * ptr_size);
            } else if opcode == BIND_OPCODE_DO_BIND_ULEB_TIMES_SKIPPING_ULEB {
                proof { lemma_uleb_advances(data@, pos as int, 0, 0); }
                let count = read_uleb128(data, &mut pos);
                proof { lemma_uleb_advances(data@, pos as int, 0, 0); }
                let skip = read_uleb128(data, &mut pos);
                address = push_repeated(&mut binds, address, &symbol_name, count, ptr_size.wrapping_add(skip));
            } else {
                proof {
                    lemma_run_stops(data@, segvm, ptr_size, end_i, next, (fuel - 1) as nat);
                }
                break;
            }
            proof {
                assert(binds_view(binds@) =~= next.binds);
                fuel = (fuel - 1) as nat;
            }
        }
        let ghost all = binds_view(binds@);
        let mut k: usize = 0;
        while k < binds.len()
            invariant
                k <= binds@.len(),
                all == binds_view(binds@),
                names_view(self.symbol_names_by_address@) == insert_binds(
                    names_view(old(self).symbol_names_by_address@),
                    all.subrange(0, k as int),
                ),
                same_except_binds(*self, *old(self)),
            decreases binds@.len() - k,
        {
            let a = binds[k].0;
            let n = binds[k].1.clone();
            self.symbol_names_by_address.insert(a, n);
            k = k + 1;
            assert(all.subrange(0, k as int).drop_last() =~= all.subrange(0, k - 1));
            assert(names_view(self.symbol_names_by_address@) =~= insert_binds(
                names_view(old(self).symbol_names_by_address@),
                all.subrange(0, k - 1),
            ).insert(a, n@));
        }
        assert(all.subrange(0, binds@.len() as int) =~= all);
    }
}


/// `(bind offset, bind size)` and `(weak bind offset, weak bind size)` of every
/// `LC_DYLD_INFO(_ONLY)` command among the first `n` load commands.
pub open spec fn dyld_ranges(d: Seq<u8>, bo: ByteOrder, start: int, n: nat) -> Seq<(u32, u32)>
    decreases n,
{
    if n == 0 {
        Seq::empty()
    } else {
        let prev = dyld_ranges(d, bo, start, (n - 1) as nat);
        let o = lc_at(d, bo, start, (n - 1) as nat);
        let cmd = rd32(d, o, bo);
        if lc_ok(d, bo, start, (n - 1) as nat) && (cmd == LC_DYLD_INFO || cmd == LC_DYLD_INFO_ONLY) {
            prev.push((rd32(d, o + 16, bo), rd32(d, o + 20, bo))).push((rd32(d, o + 24, bo), rd32(d, o + 28, bo)))
        } else {
            prev
        }
    }
}

/// The bind names after running the opcode streams of `ranges` in order
/// (empty ranges are skipped).
pub open spec fn dyld_binds(
    m: Map<u64, Seq<u8>>,
    d: Seq<u8>,
    segvm: Seq<u64>,
    ptr: u64,
    ranges: Seq<(u32, u32)>,
) -> Map<u64, Seq<u8>>
    decreases ranges.len(),
{
    if ranges.len() == 0 {
        m
    } else {
        let prev = dyld_binds(m, d, segvm, ptr, ranges.drop_last());
        let (off, size) = ranges.last();
        if size > 0 {
            insert_binds(prev, bind_stream(d, segvm, ptr, off as int, size as int))
        } else {
            prev
        }
    }
}

impl MachOFile {
    /// Record the binds of every `LC_DYLD_INFO(_ONLY)` command.
    pub(crate) fn process_dyld_info(&mut self, data: &[u8])
        ensures
            names_view(final(self).symbol_names_by_address@) == dyld_binds(
                names_view(old(self).symbol_names_by_address@),
                data@,
                old(self).segments@.map_values(|s: crate::macho::Segment| s.vmaddr),
                old(self).spec_ptr_size() as u64,
                dyld_ranges(
                    data@,
                    old(self).byte_order,
                    if old(self).uses64 { 32int } else { 28int },
                    old(self).ncmds as nat,
                ),
            ),
            same_except_binds(*final(self), *old(self)),
    {
        let bo = self.byte_order;
        let ptr = self.ptr_size();
        let header_size: usize = if self.uses64 { 32 } else { 28 };
        let ghost start = header_size as int;
        let ghost n = self.ncmds as nat;
        let mut ranges: Vec<(u32, u32)> = Vec::new();
        let mut off = header_size;
        let mut i: u32 = 0;
        while i < self.ncmds
            invariant_except_break
                off == lc_at(data@, bo, start, i as nat),
                i == 0 || lc_ok(data@, bo, start, (i - 1) as nat),
                ranges@ == dyld_ranges(data@, bo, start, i as nat),
            invariant
                i <= self.ncmds,
                n == self.ncmds,
            ensures
                ranges@ == dyld_ranges(data@, bo, start, n),
            decreases self.ncmds - i,
        {
            if off > usize::MAX - ROOM {
                proof {
                    lemma_ranges_stopped(data@, bo, start, i as nat, n);
                }
                break;
            }
            let mut cur = Cursor::at(data, bo, ptr, off);
            let cmd = cur.read_u32();
            let cmdsize = cur.read_u32();
            if cmd == LC_DYLD_INFO || cmd == LC_DYLD_INFO_ONLY {
                let _rebase_off = cur.read_u32();
                let _rebase_size = cur.read_u32();
                let bind_off = cur.read_u32();
                let bind_size = cur.read_u32();
                let weak_bind_off = cur.read_u32();
                let weak_bind_size = cur.read_u32();
                ranges.push((bind_off, bind_size));
                ranges.push((weak_bind_off, weak_bind_size));
            }
            i = i + 1;
            match off.checked_add(cmdsize as usize) {
                Some(next) => {
                    off = next;
                },
                None => {
                    proof {
                        lemma_ranges_stopped(data@, bo, start, i as nat, n);
                    }
                    break;
                },
            }
        }
        let ghost segvm = self.segments@.map_values(|s: crate::macho::Segment| s.vmaddr);
        let ghost m0 = names_view(self.symbol_names_by_address@);
        let ghost ptr64 = self.spec_ptr_size() as u64;
        let mut k: usize = 0;
        while k < ranges.len()
            invariant
                k <= ranges@.len(),
                self.segments@.map_values(|s: crate::macho::Segment| s.vmaddr) == segvm,
                self.spec_ptr_size() as u64 == ptr64,
                names_view(self.symbol_names_by_address@) == dyld_binds(m0, data@, segvm, ptr64, ranges@.subrange(0, k as int)),
                same_except_binds(*self, *old(self)),
            decreases ranges@.len() - k,
        {
            let (roff, rsize) = ranges[k];
            if rsize > 0 {
                self.parse_bind_ops(data, roff as usize, rsize as usize);
            }
            k = k + 1;
            assert(ranges@.subrange(0, k as int).drop_last() =~= ranges@.subrange(0, k - 1));
        }
        assert(ranges@.subrange(0, ranges@.len() as int) =~= ranges@);
    }
}

proof fn lemma_ranges_stopped(d: Seq<u8>, bo: ByteOrder, start: int, i: nat, n: nat)
    requires
        i <= n,
        !lc_ok(d, bo, start, i),
    ensures
        dyld_ranges(d, bo, start, n) == dyld_ranges(d, bo, start, i),
        !lc_ok(d, bo, start, n),
    decreases n - i,
{
    if i < n {
        lemma_ranges_stopped(d, bo, start, i, (n - 1) as nat);
    }
}

} // verus!
