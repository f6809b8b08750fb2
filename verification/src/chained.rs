//! `LC_DYLD_CHAINED_FIXUPS`: walk the pointer chains of each page, record the
//! binds to imported symbols and rewrite each chained pointer to its target.
//!
//! All fields of the fixup blob are little-endian.  Reads outside the data
//! give zero bytes; a chain stops where its next address would pass 2^64.

use vstd::prelude::*;
use crate::consts::{
    DYLD_CHAINED_IMPORT, DYLD_CHAINED_IMPORT_ADDEND, DYLD_CHAINED_IMPORT_ADDEND64,
    DYLD_CHAINED_PTR_64, DYLD_CHAINED_PTR_ARM64E, DYLD_CHAINED_PTR_ARM64E_FIRMWARE,
    DYLD_CHAINED_PTR_ARM64E_KERNEL, DYLD_CHAINED_PTR_ARM64E_USERLAND,
    DYLD_CHAINED_PTR_ARM64E_USERLAND24, DYLD_CHAINED_PTR_64_OFFSET, DYLD_CHAINED_PTR_START_MULTI,
    DYLD_CHAINED_PTR_START_NONE,
};
use crate::cursor::{byte_at, cstring_at, cstring_spec, le_uint};
use crate::macho::{data_offset_in, image_base_of, same_except_binds, MachOFile, Segment};
use crate::bind::{insert_binds, names_view};
use crate::consts::LC_DYLD_CHAINED_FIXUPS;
use crate::cursor::{ByteOrder, Cursor};
use crate::loadcmd::{lc_at, lc_ok, rd32, ROOM};

verus! {

pub open spec fn le16(d: Seq<u8>, o: int) -> u16 {
    le_uint(d, o, 2) as u16
}

pub open spec fn le32(d: Seq<u8>, o: int) -> u32 {
    le_uint(d, o, 4) as u32
}

pub open spec fn le64(d: Seq<u8>, o: int) -> u64 {
    le_uint(d, o, 8) as u64
}

fn byte_at_u64(d: &[u8], o: u64) -> (r: u8)
    ensures
        r == byte_at(d@, o as int),
{
    if o < d.len() as u64 {
        d[o as usize]
    } else {
        0
    }
}

/// Byte `k` of `o`, counting from `o` without wrapping.
fn byte_after(d: &[u8], o: u64, k: u64) -> (r: u8)
    ensures
        r == byte_at(d@, o + k),
{
    let len = d.len();
    match o.checked_add(k) {
        Some(i) => byte_at_u64(d, i),
        None => {
            assert(len as int <= u64::MAX);
            0
        },
    }
}

fn read_le16(d: &[u8], o: u64) -> (r: u16)
    ensures
        r == le16(d@, o as int),
{
    let b0 = byte_after(d, o, 0) as u16;
    let b1 = byte_after(d, o, 1) as u16;
    proof {
        reveal_with_fuel(le_uint, 3);
    }
    b0 + b1 * 0x100
}

fn read_le32(d: &[u8], o: u64) -> (r: u32)
    ensures
        r == le32(d@, o as int),
{
    let b0 = byte_after(d, o, 0) as u32;
    let b1 = byte_after(d, o, 1) as u32;
    let b2 = byte_after(d, o, 2) as u32;
    let b3 = byte_after(d, o, 3) as u32;
    proof {
        reveal_with_fuel(le_uint, 5);
    }
    b0 + b1 * 0x100 + b2 * 0x10000 + b3 * 0x1000000
}

fn read_le64(d: &[u8], o: u64) -> (r: u64)
    ensures
        r == le64(d@, o as int),
{
    let b0 = byte_after(d, o, 0) as u64;
    let b1 = byte_after(d, o, 1) as u64;
    let b2 = byte_after(d, o, 2) as u64;
    let b3 = byte_after(d, o, 3) as u64;
    let b4 = byte_after(d, o, 4) as u64;
    let b5 = byte_after(d, o, 5) as u64;
    let b6 = byte_after(d, o, 6) as u64;
    let b7 = byte_after(d, o, 7) as u64;
    proof {
        reveal_with_fuel(le_uint, 9);
    }
    b0 + b1 * 0x100 + b2 * 0x10000 + b3 * 0x1000000 + b4 * 0x100000000 + b5 * 0x10000000000 + b6
        * 0x1000000000000 + b7 * 0x100000000000000
}

pub open spec fn is_arm64e(fmt: u16) -> bool {
    fmt == DYLD_CHAINED_PTR_ARM64E || fmt == DYLD_CHAINED_PTR_ARM64E_KERNEL || fmt
        == DYLD_CHAINED_PTR_ARM64E_USERLAND || fmt == DYLD_CHAINED_PTR_ARM64E_FIRMWARE || fmt
        == DYLD_CHAINED_PTR_ARM64E_USERLAND24
}

/// Bytes between chain links, in units of `next`.
pub open spec fn chain_stride(fmt: u16) -> u64 {
    if fmt == DYLD_CHAINED_PTR_ARM64E || fmt == DYLD_CHAINED_PTR_ARM64E_USERLAND || fmt
        == DYLD_CHAINED_PTR_ARM64E_USERLAND24 {
        8
    } else {
        4
    }
}

/// The pointer formats that are walked; other segments are skipped.
pub open spec fn supported_format(fmt: u16) -> bool {
    fmt == DYLD_CHAINED_PTR_64 || fmt == DYLD_CHAINED_PTR_64_OFFSET || is_arm64e(fmt)
}

/// A decoded chained pointer: the distance to the next link, the import
/// ordinal of a bind, and the value written back in its place.
pub open spec fn decode_spec(raw: u64, fmt: u16, image_base: u64) -> (u64, Option<u64>, u64) {
    if is_arm64e(fmt) {
        let next = (raw >> 51u64) & 0x7ff;
        if (raw >> 62u64) & 1 != 0 {
            let ordinal = if fmt == DYLD_CHAINED_PTR_ARM64E_USERLAND24 { raw & 0xffffff } else { raw & 0xffff };
            (next, Some(ordinal), 0)
        } else if (raw >> 63u64) & 1 != 0 {
            (next, None, image_base.wrapping_add(raw & 0xffffffff))
        } else {
            let target = raw & 0x7ffffffffff;
            (next, None, if fmt == DYLD_CHAINED_PTR_ARM64E { target } else { image_base.wrapping_add(target) })
        }
    } else {
        let next = (raw >> 51u64) & 0xfff;
        if (raw >> 63u64) & 1 != 0 {
            (next, Some(raw & 0xffffff), 0)
        } else {
            let target = raw & 0xfffffffff;
            (next, None, if fmt == DYLD_CHAINED_PTR_64 { target } else { image_base.wrapping_add(target) })
        }
    }
}

/// The 64-bit chained-pointer formats (2 and 6): the next link is bits
/// 51..63 (in 4-byte steps); with bit 63 set the pointer binds import
/// ordinal bits 0..24 and is cleared; otherwise it is rebased to its 36-bit
/// target, plus the image base for format 6.
pub proof fn lemma_decode_64(raw: u64, fmt: u16, base: u64)
    requires
        fmt == DYLD_CHAINED_PTR_64 || fmt == DYLD_CHAINED_PTR_64_OFFSET,
    ensures
        chain_stride(fmt) == 4,
        decode_spec(raw, fmt, base).0 == (raw / 0x8_0000_0000_0000) % 0x1000,
        raw >= 0x8000_0000_0000_0000 ==> decode_spec(raw, fmt, base).1 == Some((raw % 0x100_0000) as u64)
            && decode_spec(raw, fmt, base).2 == 0,
        raw < 0x8000_0000_0000_0000 && fmt == DYLD_CHAINED_PTR_64 ==> decode_spec(raw, fmt, base).1 is None
            && decode_spec(raw, fmt, base).2 == raw % 0x10_0000_0000,
        raw < 0x8000_0000_0000_0000 && fmt == DYLD_CHAINED_PTR_64_OFFSET ==> decode_spec(raw, fmt, base).1 is None
            && decode_spec(raw, fmt, base).2 == (base + raw % 0x10_0000_0000) % 0x1_0000_0000_0000_0000,
{
    assert((raw >> 51u64) & 0xfff == (raw / 0x8_0000_0000_0000) % 0x1000) by (bit_vector);
    assert((raw >> 63u64) & 1 != 0 <==> raw >= 0x8000_0000_0000_0000) by (bit_vector);
    assert(raw & 0xffffff == raw % 0x100_0000) by (bit_vector);
    assert(raw & 0xfffffffff == raw % 0x10_0000_0000) by (bit_vector);
}

/// The arm64e chained-pointer formats (1, 7, 9, 10, 12): the next link is
/// bits 51..62 (in 8-byte steps for formats 1, 9 and 12, else 4); with bit
/// 62 set the pointer binds import ordinal bits 0..16 (0..24 for format 12)
/// and is cleared; otherwise with bit 63 set (authenticated) it is rebased
/// to the image base plus its 32-bit target, and else to its 43-bit target,
/// plus the image base except for format 1.
pub proof fn lemma_decode_arm64e(raw: u64, fmt: u16, base: u64)
    requires
        is_arm64e(fmt),
    ensures
        chain_stride(fmt) == if fmt == 1 || fmt == 9 || fmt == 12 { 8u64 } else { 4u64 },
        decode_spec(raw, fmt, base).0 == (raw / 0x8_0000_0000_0000) % 0x800,
        (raw / 0x4000_0000_0000_0000) % 2 == 1 ==> decode_spec(raw, fmt, base).1 == Some(
            (if fmt == 12 { raw % 0x100_0000 } else { raw % 0x1_0000 }),
        ) && decode_spec(raw, fmt, base).2 == 0,
        (raw / 0x4000_0000_0000_0000) % 2 == 0 && raw >= 0x8000_0000_0000_0000 ==> decode_spec(raw, fmt, base).1 is None
            && decode_spec(raw, fmt, base).2 == (base + raw % 0x1_0000_0000) % 0x1_0000_0000_0000_0000,
        (raw / 0x4000_0000_0000_0000) % 2 == 0 && raw < 0x8000_0000_0000_0000 ==> decode_spec(raw, fmt, base).1 is None
            && decode_spec(raw, fmt, base).2 as int == if fmt == 1 {
            (raw % 0x800_0000_0000) as int
        } else {
            (base + raw % 0x800_0000_0000) % 0x1_0000_0000_0000_0000
        },
{
    assert((raw >> 51u64) & 0x7ff == (raw / 0x8_0000_0000_0000) % 0x800) by (bit_vector);
    assert((raw >> 62u64) & 1 != 0 <==> (raw / 0x4000_0000_0000_0000) % 2 == 1) by (bit_vector);
    assert((raw >> 63u64) & 1 != 0 <==> raw >= 0x8000_0000_0000_0000) by (bit_vector);
    assert(raw & 0xffffff == raw % 0x100_0000) by (bit_vector);
    assert(raw & 0xffff == raw % 0x1_0000) by (bit_vector);
    assert(raw & 0xffffffff == raw % 0x1_0000_0000) by (bit_vector);
    assert(raw & 0x7ffffffffff == raw % 0x800_0000_0000) by (bit_vector);
}

/// Decode one chained pointer.
pub fn decode_chained_pointer(raw: u64, fmt: u16, image_base: u64) -> (r: (u64, Option<u64>, u64))
    ensures
        r == decode_spec(raw, fmt, image_base),
{
    let arm64e = fmt == DYLD_CHAINED_PTR_ARM64E || fmt == DYLD_CHAINED_PTR_ARM64E_KERNEL || fmt
        == DYLD_CHAINED_PTR_ARM64E_USERLAND || fmt == DYLD_CHAINED_PTR_ARM64E_FIRMWARE || fmt
        == DYLD_CHAINED_PTR_ARM64E_USERLAND24;
    if arm64e {
        let next = (raw >> 51u64) & 0x7ff;
        if (raw >> 62u64) & 1 != 0 {
            let ordinal = if fmt == DYLD_CHAINED_PTR_ARM64E_USERLAND24 { raw & 0xffffff } else { raw & 0xffff };
            (next, Some(ordinal), 0)
        } else if (raw >> 63u64) & 1 != 0 {
            (next, None, image_base.wrapping_add(raw & 0xffffffff))
        } else {
            let target = raw & 0x7ffffffffff;
            (next, None, if fmt == DYLD_CHAINED_PTR_ARM64E { target } else { image_base.wrapping_add(target) })
        }
    } else {
        let next = (raw >> 51u64) & 0xfff;
        if (raw >> 63u64) & 1 != 0 {
            (next, Some(raw & 0xffffff), 0)
        } else {
            let target = raw & 0xfffffffff;
            (next, None, if fmt == DYLD_CHAINED_PTR_64 { target } else { image_base.wrapping_add(target) })
        }
    }
}

/// The name offset of import `i` in an imports table of the given format.
pub open spec fn import_name_offset(d: Seq<u8>, imports: int, i: int, format: u32) -> u32 {
    if format == DYLD_CHAINED_IMPORT {
        le32(d, imports + i * 4) >> 9u32
    } else if format == DYLD_CHAINED_IMPORT_ADDEND {
        le32(d, imports + i * 8) >> 9u32
    } else if format == DYLD_CHAINED_IMPORT_ADDEND64 {
        le32(d, imports + i * 16 + 4)
    } else {
        0
    }
}

/// The names of the imports, from the symbol pool at `pool`.
pub open spec fn import_names_spec(d: Seq<u8>, imports: int, pool: int, count: nat, format: u32) -> Seq<Seq<u8>> {
    Seq::new(
        count,
        |i: int|
            match cstring_spec(d, pool + import_name_offset(d, imports, i, format)) {
                Some(s) => s,
                None => Seq::empty(),
            },
    )
}

/// `d` with the eight little-endian bytes of `v` written at `o`.
pub open spec fn write_le64(d: Seq<u8>, o: int, v: u64) -> Seq<u8> {
    Seq::new(d.len(), |i: int| if o <= i < o + 8 { (v >> (8 * (i - o)) as u64) as u8 } else { d[i] })
}

/// Writing a word back: the eight bytes at `o` then read (little-endian) as
/// `v`, and every other byte stays.
pub proof fn lemma_write_le64(d: Seq<u8>, o: int, v: u64)
    requires
        0 <= o,
        o + 8 <= d.len(),
    ensures
        write_le64(d, o, v).len() == d.len(),
        le64(write_le64(d, o, v), o) == v,
        forall|i: int| 0 <= i < d.len() && !(o <= i < o + 8) ==> #[trigger] write_le64(d, o, v)[i] == d[i],
{
    let w = write_le64(d, o, v);
    reveal_with_fuel(le_uint, 9);
    let b0 = (v >> 0u64) as u8;
    let b1 = (v >> 8u64) as u8;
    let b2 = (v >> 16u64) as u8;
    let b3 = (v >> 24u64) as u8;
    let b4 = (v >> 32u64) as u8;
    let b5 = (v >> 40u64) as u8;
    let b6 = (v >> 48u64) as u8;
    let b7 = (v >> 56u64) as u8;
    assert(w[o] == b0 && w[o + 1] == b1 && w[o + 2] == b2 && w[o + 3] == b3);
    assert(w[o + 4] == b4 && w[o + 5] == b5 && w[o + 6] == b6 && w[o + 7] == b7);
    assert(byte_at(w, o) == b0 && byte_at(w, o + 1) == b1 && byte_at(w, o + 2) == b2 && byte_at(w, o + 3) == b3);
    assert(byte_at(w, o + 4) == b4 && byte_at(w, o + 5) == b5 && byte_at(w, o + 6) == b6 && byte_at(w, o + 7) == b7);
    assert(v == b0 + 256 * (b1 + 256 * (b2 + 256 * (b3 + 256 * (b4 + 256 * (b5 + 256 * (b6 + 256 * b7)))))))
        by (bit_vector)
        requires
            b0 == (v >> 0u64) as u8,
            b1 == (v >> 8u64) as u8,
            b2 == (v >> 16u64) as u8,
            b3 == (v >> 24u64) as u8,
            b4 == (v >> 32u64) as u8,
            b5 == (v >> 40u64) as u8,
            b6 == (v >> 48u64) as u8,
            b7 == (v >> 56u64) as u8,
    ;
}

/// Walk one chain from `addr`: returns the patched data and the binds recorded.
pub open spec fn chain_walk(
    segs: Seq<Segment>,
    bs: Seq<u8>,
    fmt: u16,
    base: u64,
    names: Seq<Seq<u8>>,
    addr: u64,
) -> (Seq<u8>, Seq<(u64, Seq<u8>)>)
    decreases u64::MAX - addr,
{
    match data_offset_in(segs, addr) {
        None => (bs, Seq::empty()),
        Some(off) => if off + 8 > bs.len() {
            (bs, Seq::empty())
        } else {
            let (next, ord, v) = decode_spec(le64(bs, off as int), fmt, base);
            let b = match ord {
                Some(o) => if o < names.len() { seq![(addr, names[o as int])] } else { Seq::empty() },
                None => Seq::empty(),
            };
            let bs2 = write_le64(bs, off as int, v);
            let step = next * chain_stride(fmt);
            if next == 0 || addr + step > u64::MAX {
                (bs2, b)
            } else {
                let (bs3, rest) = chain_walk(segs, bs2, fmt, base, names, (addr + step) as u64);
                (bs3, b + rest)
            }
        },
    }
}

/// One link of a chain at `addr` (stored at file offset `off`): its word is
/// decoded and overwritten with the decoded value; a bind of an import in
/// the table is recorded at `addr`; a nonzero `next` continues the chain
/// `next` strides (4 or 8 bytes, see `lemma_decode_64`) further on.
pub proof fn lemma_chain_link(
    segs: Seq<Segment>,
    bs: Seq<u8>,
    fmt: u16,
    base: u64,
    names: Seq<Seq<u8>>,
    addr: u64,
    off: u64,
)
    requires
        data_offset_in(segs, addr) == Some(off),
        off + 8 <= bs.len(),
    ensures
        ({
            let (next, ord, v) = decode_spec(le64(bs, off as int), fmt, base);
            let bs2 = write_le64(bs, off as int, v);
            let b = if ord is Some && ord.unwrap() < names.len() {
                seq![(addr, names[ord.unwrap() as int])]
            } else {
                Seq::empty()
            };
            let following = addr + next * chain_stride(fmt);
            chain_walk(segs, bs, fmt, base, names, addr) == if next == 0 || following >= 0x1_0000_0000_0000_0000 {
                (bs2, b)
            } else {
                let (bs3, rest) = chain_walk(segs, bs2, fmt, base, names, following as u64);
                (bs3, b + rest)
            }
        }),
{
}

/// The first address of the chain that starts on page `page_index`.
pub open spec fn page_chain_start(base: u64, seg_off: u64, page_index: int, page_size: u16, start: u16) -> u64 {
    base.wrapping_add(seg_off).wrapping_add((page_index * page_size + start) as u64)
}

/// The first chain address of page `page_index`, in 64-bit arithmetic.
proof fn lemma_page_chain_start(base: u64, seg_off: u64, page_index: int, page_size: u16, start: u16)
    requires
        0 <= page_index < 0x10000,
    ensures
        page_chain_start(base, seg_off, page_index, page_size, start) as int == (base + seg_off + page_index
            * page_size + start) % 0x1_0000_0000_0000_0000,
{
    let k = page_index * page_size + start;
    assert(0 <= page_index * page_size <= 0xffff * 0xffff) by (nonlinear_arith)
        requires
            0 <= page_index < 0x10000,
            page_size <= 0xffff,
    ;
    assert(0 <= k < 0x1_0000_0000);
    let m: int = 0x1_0000_0000_0000_0000;
    let ab = base.wrapping_add(seg_off);
    assert(ab as int == (base + seg_off) % m);
    assert((ab + k) % m == (base + seg_off + k) % m) by {
        if base + seg_off >= m {
            assert(ab as int == base + seg_off - m);
        }
    }
}

/// Walk the chains of pages `page_index..page_count` of one segment.
pub open spec fn pages_walk(
    segs: Seq<Segment>,
    bs: Seq<u8>,
    fmt: u16,
    base: u64,
    names: Seq<Seq<u8>>,
    seg_info: int,
    seg_off: u64,
    page_size: u16,
    page_index: int,
    page_count: int,
) -> (Seq<u8>, Seq<(u64, Seq<u8>)>)
    decreases page_count - page_index,
{
    if page_index >= page_count {
        (bs, Seq::empty())
    } else {
        let start = le16(bs, seg_info + 22 + page_index * 2);
        let (bs2, b) = if start == DYLD_CHAINED_PTR_START_NONE || start & DYLD_CHAINED_PTR_START_MULTI != 0 {
            (bs, Seq::empty())
        } else {
            chain_walk(segs, bs, fmt, base, names, page_chain_start(base, seg_off, page_index, page_size, start))
        };
        let (bs3, rest) = pages_walk(segs, bs2, fmt, base, names, seg_info, seg_off, page_size, page_index + 1, page_count);
        (bs3, b + rest)
    }
}

/// The chain of page `i` of a segment starts at the image base plus the
/// segment offset plus `i` page sizes plus the page's start offset (64-bit
/// arithmetic); a page whose start is "none" or "multi" walks no chain.
/// Each page is walked once, after the pages before it, on the bytes they
/// left.
pub proof fn lemma_page_chains(
    segs: Seq<Segment>,
    bs: Seq<u8>,
    fmt: u16,
    base: u64,
    names: Seq<Seq<u8>>,
    seg_info: int,
    seg_off: u64,
    page_size: u16,
    i: int,
    n: int,
)
    requires
        0 <= i < n <= 0x10000,
    ensures
        ({
            let s = le16(bs, seg_info + 22 + i * 2);
            let here = if s == DYLD_CHAINED_PTR_START_NONE || s & DYLD_CHAINED_PTR_START_MULTI != 0 {
                (bs, Seq::<(u64, Seq<u8>)>::empty())
            } else {
                chain_walk(
                    segs,
                    bs,
                    fmt,
                    base,
                    names,
                    ((base + seg_off + i * page_size + s) % 0x1_0000_0000_0000_0000) as u64,
                )
            };
            let rest = pages_walk(segs, here.0, fmt, base, names, seg_info, seg_off, page_size, i + 1, n);
            pages_walk(segs, bs, fmt, base, names, seg_info, seg_off, page_size, i, n) == (rest.0, here.1 + rest.1)
        }),
{
    let s = le16(bs, seg_info + 22 + i * 2);
    lemma_page_chain_start(base, seg_off, i, page_size, s);
}

/// Entry `seg_index` of the starts-in-image table at `sii`: the bytes after
/// walking that segment's pages and the binds it records. An empty entry, or
/// one whose pointer format is unsupported, changes nothing.
pub open spec fn seg_step(
    segs: Seq<Segment>,
    bs: Seq<u8>,
    base: u64,
    names: Seq<Seq<u8>>,
    sii: int,
    seg_index: int,
) -> (Seq<u8>, Seq<(u64, Seq<u8>)>) {
    let sio = le32(bs, sii + 4 + seg_index * 4);
    if sio == 0 {
        (bs, Seq::empty())
    } else {
        let si = sii + sio;
        let fmt = le16(bs, si + 6);
        if !supported_format(fmt) {
            (bs, Seq::empty())
        } else {
            pages_walk(segs, bs, fmt, base, names, si, le64(bs, si + 8), le16(bs, si + 4), 0, le16(bs, si + 20) as int)
        }
    }
}

/// The pointer format of entry `seg_index` when the walk skips that segment
/// because it does not support the format; empty otherwise.
pub open spec fn seg_skipped(bs: Seq<u8>, sii: int, seg_index: int) -> Seq<u16> {
    let sio = le32(bs, sii + 4 + seg_index * 4);
    let fmt = le16(bs, sii + sio + 6);
    if sio != 0 && !supported_format(fmt) {
        seq![fmt]
    } else {
        Seq::empty()
    }
}

/// Walk the segments `seg_index..seg_count` of the starts-in-image table at `sii`.
pub open spec fn segs_walk(
    segs: Seq<Segment>,
    bs: Seq<u8>,
    base: u64,
    names: Seq<Seq<u8>>,
    sii: int,
    seg_index: int,
    seg_count: int,
) -> (Seq<u8>, Seq<(u64, Seq<u8>)>)
    decreases seg_count - seg_index,
{
    if seg_index >= seg_count {
        (bs, Seq::empty())
    } else {
        let (bs2, b) = seg_step(segs, bs, base, names, sii, seg_index);
        let (bs3, rest) = segs_walk(segs, bs2, base, names, sii, seg_index + 1, seg_count);
        (bs3, b + rest)
    }
}

/// The unsupported pointer formats met while walking segments
/// `seg_index..seg_count`, one per skipped segment, in table order.
pub open spec fn segs_skipped(
    segs: Seq<Segment>,
    bs: Seq<u8>,
    base: u64,
    names: Seq<Seq<u8>>,
    sii: int,
    seg_index: int,
    seg_count: int,
) -> Seq<u16>
    decreases seg_count - seg_index,
{
    if seg_index >= seg_count {
        Seq::empty()
    } else {
        let bs2 = seg_step(segs, bs, base, names, sii, seg_index).0;
        seg_skipped(bs, sii, seg_index) + segs_skipped(segs, bs2, base, names, sii, seg_index + 1, seg_count)
    }
}

/// The whole chained-fixups pass over `bs` for the blob at `h`.
pub open spec fn chained_fixups_spec(segs: Seq<Segment>, bs: Seq<u8>, h: int) -> (Seq<u8>, Seq<(u64, Seq<u8>)>) {
    if h + 28 > bs.len() {
        (bs, Seq::empty())
    } else {
        let names = import_names_spec(bs, h + le32(bs, h + 8), h + le32(bs, h + 12), le32(bs, h + 16) as nat, le32(bs, h + 20));
        let sii = h + le32(bs, h + 4);
        if sii + 4 > bs.len() {
            (bs, Seq::empty())
        } else {
            segs_walk(segs, bs, image_base_of(segs), names, sii, 0, le32(bs, sii) as int)
        }
    }
}


/// The unsupported pointer formats of the whole chained-fixups pass over `bs`
/// for the blob at `h`, one per skipped segment.
pub open spec fn chained_skipped(segs: Seq<Segment>, bs: Seq<u8>, h: int) -> Seq<u16> {
    if h + 28 > bs.len() {
        Seq::empty()
    } else {
        let names = import_names_spec(bs, h + le32(bs, h + 8), h + le32(bs, h + 12), le32(bs, h + 16) as nat, le32(bs, h + 20));
        let sii = h + le32(bs, h + 4);
        if sii + 4 > bs.len() {
            Seq::empty()
        } else {
            segs_skipped(segs, bs, image_base_of(segs), names, sii, 0, le32(bs, sii) as int)
        }
    }
}

/// The byte vectors of a list of names, as sequences.
pub open spec fn names_seq(v: Seq<Vec<u8>>) -> Seq<Seq<u8>> {
    v.map_values(|x: Vec<u8>| x@)
}

/// The (address, name) pairs of a list of binds.
pub open spec fn pairs_view(b: Seq<(u64, Vec<u8>)>) -> Seq<(u64, Seq<u8>)> {
    b.map_values(|x: (u64, Vec<u8>)| (x.0, x.1@))
}

/// Build the import-name table.
fn build_import_names(bs: &[u8], imports: u64, pool: u64, count: u32, format: u32) -> (r: Vec<Vec<u8>>)
    requires
        imports <= 0x4_0000_0000,
        pool <= 0x4_0000_0000,
    ensures
        names_seq(r@) == import_names_spec(bs@, imports as int, pool as int, count as nat, format),
{
    let mut names: Vec<Vec<u8>> = Vec::new();
    let mut i: u32 = 0;
    while i < count
        invariant
            i <= count,
            imports <= 0x4_0000_0000,
            pool <= 0x4_0000_0000,
            names@.len() == i,
            forall|j: int|
                0 <= j < i ==> (#[trigger] names@[j])@ == import_names_spec(
                    bs@,
                    imports as int,
                    pool as int,
                    count as nat,
                    format,
                )[j],
        decreases count - i,
    {
        let ii = i as u64;
        let name_offset: u32 = if format == DYLD_CHAINED_IMPORT {
            read_le32(bs, imports + ii * 4) >> 9u32
        } else if format == DYLD_CHAINED_IMPORT_ADDEND {
            read_le32(bs, imports + ii * 8) >> 9u32
        } else if format == DYLD_CHAINED_IMPORT_ADDEND64 {
            read_le32(bs, imports + ii * 16 + 4)
        } else {
            0
        };
        let idx = pool + name_offset as u64;
        let name = if idx >= bs.len() as u64 {
            Vec::new()
        } else {
            match cstring_at(bs, idx as usize) {
                Some(n) => n,
                None => Vec::new(),
            }
        };
        names.push(name);
        i = i + 1;
    }
    assert(names_seq(names@) =~= import_names_spec(bs@, imports as int, pool as int, count as nat, format));
    names
}

/// Write the eight little-endian bytes of `v` at `o`.
fn write_le64_exec(bs: &mut Vec<u8>, o: usize, v: u64)
    requires
        o + 8 <= old(bs)@.len(),
    ensures
        final(bs)@ == write_le64(old(bs)@, o as int, v),
{
    let len = bs.len();
    let mut k: usize = 0;
    while k < 8
        invariant
            k <= 8,
            len == old(bs)@.len(),
            o + 8 <= old(bs)@.len(),
            bs@ == Seq::new(
                old(bs)@.len(),
                |i: int| if o <= i < o + k { (v >> (8 * (i - o)) as u64) as u8 } else { old(bs)@[i] },
            ),
        decreases 8 - k,
    {
        let b = (v >> (8 * k as u64)) as u8;
        bs.set(o + k, b);
        k = k + 1;
        assert(bs@ =~= Seq::new(
            old(bs)@.len(),
            |i: int| if o <= i < o + k { (v >> (8 * (i - o)) as u64) as u8 } else { old(bs)@[i] },
        ));
    }
    assert(bs@ =~= write_le64(old(bs)@, o as int, v));
}

impl MachOFile {
    /// Walk one chain from `addr0`, patching `bs` and recording binds.
    fn walk_chain(
        &self,
        bs: &mut Vec<u8>,
        fmt: u16,
        base: u64,
        names: &Vec<Vec<u8>>,
        addr0: u64,
        binds: &mut Vec<(u64, Vec<u8>)>,
    )
        requires
            chain_stride(fmt) == 4 || chain_stride(fmt) == 8,
        ensures
            ({
                let (bs2, b) = chain_walk(self.segments@, old(bs)@, fmt, base, names_seq(names@), addr0);
                final(bs)@ == bs2 && pairs_view(final(binds)@) == pairs_view(old(binds)@) + b
            }),
    {
        let ghost nm = names_seq(names@);
        let ghost total = chain_walk(self.segments@, bs@, fmt, base, nm, addr0);
        let stride: u64 = if fmt == DYLD_CHAINED_PTR_ARM64E || fmt == DYLD_CHAINED_PTR_ARM64E_USERLAND || fmt
            == DYLD_CHAINED_PTR_ARM64E_USERLAND24 {
            8
        } else {
            4
        };
        let mut addr = addr0;
        assert(pairs_view(binds@) + Seq::<(u64, Seq<u8>)>::empty() =~= pairs_view(binds@));
        loop
            invariant_except_break
                total.0 == chain_walk(self.segments@, bs@, fmt, base, nm, addr).0,
                pairs_view(old(binds)@) + total.1 == pairs_view(binds@) + chain_walk(self.segments@, bs@, fmt, base, nm, addr).1,
            invariant
                stride == chain_stride(fmt),
                nm == names_seq(names@),
                total == chain_walk(self.segments@, old(bs)@, fmt, base, nm, addr0),
            ensures
                total.0 == bs@,
                pairs_view(old(binds)@) + total.1 == pairs_view(binds@),
            decreases u64::MAX - addr,
        {
            let ghost cur = chain_walk(self.segments@, bs@, fmt, base, nm, addr);
            let ghost before = pairs_view(binds@);
            let file_off = match self.data_offset_for_address(addr) {
                Some(o) => o,
                None => {
                    assert(before + Seq::<(u64, Seq<u8>)>::empty() =~= before);
                    break;
                },
            };
            if file_off >= bs.len() as u64 || bs.len() - (file_off as usize) < 8 {
                assert(before + Seq::<(u64, Seq<u8>)>::empty() =~= before);
                break;
            }
            let off = file_off as usize;
            let raw = read_le64(bs.as_slice(), file_off);
            let (next, ordinal, new_value) = decode_chained_pointer(raw, fmt, base);
            let ghost b: Seq<(u64, Seq<u8>)> = match ordinal {
                Some(o) => if o < nm.len() { seq![(addr, nm[o as int])] } else { Seq::empty() },
                None => Seq::empty(),
            };
            match ordinal {
                Some(o) => {
                    if o < names.len() as u64 {
                        binds.push((addr, crate::text::to_vec(names[o as usize].as_slice())));
                    }
                },
                None => {},
            }
            assert(pairs_view(binds@) =~= before + b);
            write_le64_exec(bs, off, new_value);
            if next == 0 {
                assert(before + cur.1 =~= pairs_view(binds@));
                break;
            }
            let step = match next.checked_mul(stride) {
                Some(st) => st,
                None => {
                    assert(before + cur.1 =~= pairs_view(binds@));
                    break;
                },
            };
            match addr.checked_add(step) {
                Some(a) => {
                    let ghost rest = chain_walk(self.segments@, bs@, fmt, base, nm, a);
                    assert(cur.1 == b + rest.1);
                    assert(before + cur.1 =~= pairs_view(binds@) + rest.1);
                    addr = a;
                },
                None => {
                    assert(before + cur.1 =~= pairs_view(binds@));
                    break;
                },
            }
        }
    }
}


impl MachOFile {
    /// Walk the chains of every page of one segment.
    fn walk_pages(
        &self,
        bs: &mut Vec<u8>,
        fmt: u16,
        base: u64,
        names: &Vec<Vec<u8>>,
        seg_info: u64,
        seg_off: u64,
        page_size: u16,
        page_count: u16,
        binds: &mut Vec<(u64, Vec<u8>)>,
    )
        requires
            supported_format(fmt),
            seg_info <= 0x4_0000_0000,
        ensures
            ({
                let (bs2, b) = pages_walk(self.segments@, old(bs)@, fmt, base, names_seq(names@), seg_info as int, seg_off, page_size, 0, page_count as int);
                final(bs)@ == bs2 && pairs_view(final(binds)@) == pairs_view(old(binds)@) + b
            }),
    {
        let ghost nm = names_seq(names@);
        let ghost total = pages_walk(self.segments@, bs@, fmt, base, nm, seg_info as int, seg_off, page_size, 0, page_count as int);
        let mut page_index: u16 = 0;
        assert(pairs_view(binds@) + Seq::<(u64, Seq<u8>)>::empty() =~= pairs_view(binds@));
        while page_index < page_count
            invariant
                supported_format(fmt),
                seg_info <= 0x4_0000_0000,
                page_index <= page_count,
                nm == names_seq(names@),
                total.0 == pages_walk(self.segments@, bs@, fmt, base, nm, seg_info as int, seg_off, page_size, page_index as int, page_count as int).0,
                pairs_view(old(binds)@) + total.1 == pairs_view(binds@) + pages_walk(self.segments@, bs@, fmt, base, nm, seg_info as int, seg_off, page_size, page_index as int, page_count as int).1,
            decreases page_count - page_index,
        {
            let ghost before = pairs_view(binds@);
            let ghost bs_before = bs@;
            let ghost cur = pages_walk(self.segments@, bs@, fmt, base, nm, seg_info as int, seg_off, page_size, page_index as int, page_count as int);
            let start_offset = read_le16(bs.as_slice(), seg_info + 22 + (page_index as u64) * 2);
            if start_offset == DYLD_CHAINED_PTR_START_NONE || start_offset & DYLD_CHAINED_PTR_START_MULTI != 0 {
                assert(before + Seq::<(u64, Seq<u8>)>::empty() =~= before);
            } else {
                let pi = page_index as u64;
                let ps = page_size as u64;
                assert(pi * ps <= 0xffff * 0xffff) by (nonlinear_arith)
                    requires
                        pi <= 0xffff,
                        ps <= 0xffff,
                ;
                let chain_addr = base.wrapping_add(seg_off).wrapping_add(
                    (page_index as u64) * (page_size as u64) + start_offset as u64,
                );
                assert(chain_addr == page_chain_start(base, seg_off, page_index as int, page_size, start_offset));
                self.walk_chain(bs, fmt, base, names, chain_addr, binds);
            }
            page_index = page_index + 1;
            let ghost rest = pages_walk(self.segments@, bs@, fmt, base, nm, seg_info as int, seg_off, page_size, page_index as int, page_count as int);
            assert(cur.0 == rest.0);
            assert(before + cur.1 =~= pairs_view(binds@) + rest.1);
        }
    }

    /// Walk every segment of the starts-in-image table at `sii`.
    fn walk_segments(
        &self,
        bs: &mut Vec<u8>,
        base: u64,
        names: &Vec<Vec<u8>>,
        sii: u64,
        seg_count: u32,
        binds: &mut Vec<(u64, Vec<u8>)>,
        skipped: &mut Vec<u16>,
    )
        requires
            sii <= 0x2_0000_0000,
        ensures
            ({
                let (bs2, b) = segs_walk(self.segments@, old(bs)@, base, names_seq(names@), sii as int, 0, seg_count as int);
                final(bs)@ == bs2 && pairs_view(final(binds)@) == pairs_view(old(binds)@) + b
            }),
            final(skipped)@ == old(skipped)@ + segs_skipped(
                self.segments@,
                old(bs)@,
                base,
                names_seq(names@),
                sii as int,
                0,
                seg_count as int,
            ),
    {
        let ghost nm = names_seq(names@);
        let ghost total = segs_walk(self.segments@, bs@, base, nm, sii as int, 0, seg_count as int);
        let ghost total_sk = segs_skipped(self.segments@, bs@, base, nm, sii as int, 0, seg_count as int);
        assert(skipped@ + total_sk =~= old(skipped)@ + total_sk);
        let mut seg_index: u32 = 0;
        assert(pairs_view(binds@) + Seq::<(u64, Seq<u8>)>::empty() =~= pairs_view(binds@));
        while seg_index < seg_count
            invariant
                sii <= 0x2_0000_0000,
                seg_index <= seg_count,
                nm == names_seq(names@),
                total.0 == segs_walk(self.segments@, bs@, base, nm, sii as int, seg_index as int, seg_count as int).0,
                pairs_view(old(binds)@) + total.1 == pairs_view(binds@) + segs_walk(self.segments@, bs@, base, nm, sii as int, seg_index as int, seg_count as int).1,
                old(skipped)@ + total_sk == skipped@ + segs_skipped(self.segments@, bs@, base, nm, sii as int, seg_index as int, seg_count as int),
            decreases seg_count - seg_index,
        {
            let ghost before = pairs_view(binds@);
            let ghost before_sk = skipped@;
            let ghost bs_before = bs@;
            let ghost cur = segs_walk(self.segments@, bs@, base, nm, sii as int, seg_index as int, seg_count as int);
            let ghost cur_sk = segs_skipped(self.segments@, bs@, base, nm, sii as int, seg_index as int, seg_count as int);
            let seg_info_offset = read_le32(bs.as_slice(), sii + 4 + (seg_index as u64) * 4);
            if seg_info_offset == 0 {
                assert(before + Seq::<(u64, Seq<u8>)>::empty() =~= before);
            } else {
                let seg_info = sii + seg_info_offset as u64;
                let page_size = read_le16(bs.as_slice(), seg_info + 4);
                let pointer_format = read_le16(bs.as_slice(), seg_info + 6);
                let segment_offset = read_le64(bs.as_slice(), seg_info + 8);
                let page_count = read_le16(bs.as_slice(), seg_info + 20);
                let arm64e = pointer_format == DYLD_CHAINED_PTR_ARM64E || pointer_format
                    == DYLD_CHAINED_PTR_ARM64E_KERNEL || pointer_format == DYLD_CHAINED_PTR_ARM64E_USERLAND
                    || pointer_format == DYLD_CHAINED_PTR_ARM64E_FIRMWARE || pointer_format
                    == DYLD_CHAINED_PTR_ARM64E_USERLAND24;
                if pointer_format != DYLD_CHAINED_PTR_64 && pointer_format != DYLD_CHAINED_PTR_64_OFFSET
                    && !arm64e {
                    assert(before + Seq::<(u64, Seq<u8>)>::empty() =~= before);
                    skipped.push(pointer_format);
                } else {
                    self.walk_pages(bs, pointer_format, base, names, seg_info, segment_offset, page_size, page_count, binds);
                }
            }
            seg_index = seg_index + 1;
            let ghost rest = segs_walk(self.segments@, bs@, base, nm, sii as int, seg_index as int, seg_count as int);
            let ghost rest_sk = segs_skipped(self.segments@, bs@, base, nm, sii as int, seg_index as int, seg_count as int);
            assert(seg_step(self.segments@, bs_before, base, nm, sii as int, seg_index - 1).0 == bs@);
            assert(cur.0 == rest.0);
            assert(before + cur.1 =~= pairs_view(binds@) + rest.1);
            assert(before_sk + cur_sk =~= skipped@ + rest_sk);
        }
    }

    /// The whole chained-fixups pass for the blob at `header_off`.
    fn walk_chained_fixups(
        &self,
        bs: &mut Vec<u8>,
        header_off: u32,
        binds: &mut Vec<(u64, Vec<u8>)>,
        skipped: &mut Vec<u16>,
    )
        ensures
            ({
                let (bs2, b) = chained_fixups_spec(self.segments@, old(bs)@, header_off as int);
                final(bs)@ == bs2 && pairs_view(final(binds)@) == pairs_view(old(binds)@) + b
            }),
            final(skipped)@ == old(skipped)@ + chained_skipped(self.segments@, old(bs)@, header_off as int),
    {
        let blob_base = header_off as u64;
        assert(skipped@ + Seq::<u16>::empty() =~= skipped@);
        if blob_base + 28 > bs.len() as u64 {
            assert(pairs_view(binds@) + Seq::<(u64, Seq<u8>)>::empty() =~= pairs_view(binds@));
            return;
        }
        let starts_offset = read_le32(bs.as_slice(), blob_base + 4);
        let imports_offset = read_le32(bs.as_slice(), blob_base + 8);
        let symbols_offset = read_le32(bs.as_slice(), blob_base + 12);
        let imports_count = read_le32(bs.as_slice(), blob_base + 16);
        let imports_format = read_le32(bs.as_slice(), blob_base + 20);
        let image_base = self.image_base();
        let names = build_import_names(
            bs.as_slice(),
            blob_base + imports_offset as u64,
            blob_base + symbols_offset as u64,
            imports_count,
            imports_format,
        );
        let sii = blob_base + starts_offset as u64;
        if sii + 4 > bs.len() as u64 {
            assert(pairs_view(binds@) + Seq::<(u64, Seq<u8>)>::empty() =~= pairs_view(binds@));
            return;
        }
        let seg_count = read_le32(bs.as_slice(), sii);
        self.walk_segments(bs, image_base, &names, sii, seg_count, binds, skipped);
    }
}


/// `(offset, size)` of the fixup blob named by the last `LC_DYLD_CHAINED_FIXUPS`
/// among the first `n` load commands, or `(0, 0)`.
pub open spec fn fixups_cmd(d: Seq<u8>, bo: ByteOrder, start: int, n: nat) -> (u32, u32)
    decreases n,
{
    if n == 0 {
        (0, 0)
    } else {
        let o = lc_at(d, bo, start, (n - 1) as nat);
        if lc_ok(d, bo, start, (n - 1) as nat) && rd32(d, o, bo) == LC_DYLD_CHAINED_FIXUPS {
            (rd32(d, o + 8, bo), rd32(d, o + 12, bo))
        } else {
            fixups_cmd(d, bo, start, (n - 1) as nat)
        }
    }
}

proof fn lemma_fixups_stopped(d: Seq<u8>, bo: ByteOrder, start: int, i: nat, n: nat)
    requires
        i <= n,
        !lc_ok(d, bo, start, i),
    ensures
        fixups_cmd(d, bo, start, n) == fixups_cmd(d, bo, start, i),
        !lc_ok(d, bo, start, n),
    decreases n - i,
{
    if i < n {
        lemma_fixups_stopped(d, bo, start, i, (n - 1) as nat);
    }
}

/// The data and bind names after the chained-fixups pass of file `f`.
pub open spec fn after_fixups(f: MachOFile, d: Seq<u8>, m: Map<u64, Seq<u8>>) -> (Seq<u8>, Map<u64, Seq<u8>>) {
    let fx = fixups_cmd(d, f.byte_order, if f.uses64 { 32int } else { 28int }, f.ncmds as nat);
    if fx.1 == 0 {
        (d, m)
    } else {
        let (d2, b) = chained_fixups_spec(f.segments@, d, fx.0 as int);
        (d2, insert_binds(m, b))
    }
}

/// The unsupported pointer formats that the chained-fixups pass of file `f`
/// skips, one per skipped segment; empty where the file has no fixups blob.
pub open spec fn skipped_after_fixups(f: MachOFile, d: Seq<u8>) -> Seq<u16> {
    let fx = fixups_cmd(d, f.byte_order, if f.uses64 { 32int } else { 28int }, f.ncmds as nat);
    if fx.1 == 0 {
        Seq::empty()
    } else {
        chained_skipped(f.segments@, d, fx.0 as int)
    }
}

impl MachOFile {
    /// Find the chained-fixups blob and walk it; the result lists the pointer
    /// formats of the segments that were skipped as unsupported.
    pub(crate) fn process_chained_fixups(&mut self, data: &mut Vec<u8>) -> (skipped: Vec<u16>)
        ensures
            skipped@ == skipped_after_fixups(*old(self), old(data)@),
            ({
                let (d2, m2) = after_fixups(*old(self), old(data)@, names_view(old(self).symbol_names_by_address@));
                &&& final(data)@ == d2
                &&& names_view(final(self).symbol_names_by_address@) == m2
            }),
            same_except_binds(*final(self), *old(self)),
    {
        let bo = self.byte_order;
        let ptr = self.ptr_size();
        let header_size: usize = if self.uses64 { 32 } else { 28 };
        let ghost start = header_size as int;
        let ghost n = self.ncmds as nat;
        let mut fixup_off: u32 = 0;
        let mut fixup_size: u32 = 0;
        let mut off = header_size;
        let mut i: u32 = 0;
        while i < self.ncmds
            invariant_except_break
                off == lc_at(data@, bo, start, i as nat),
                i == 0 || lc_ok(data@, bo, start, (i - 1) as nat),
                (fixup_off, fixup_size) == fixups_cmd(data@, bo, start, i as nat),
            invariant
                i <= self.ncmds,
                n == self.ncmds,
                bo == self.byte_order,
            ensures
                (fixup_off, fixup_size) == fixups_cmd(data@, bo, start, n),
            decreases self.ncmds - i,
        {
            if off > usize::MAX - ROOM {
                proof {
                    lemma_fixups_stopped(data@, bo, start, i as nat, n);
                }
                break;
            }
            let mut cur = Cursor::at(data.as_slice(), bo, ptr, off);
            let cmd = cur.read_u32();
            let cmdsize = cur.read_u32();
            if cmd == LC_DYLD_CHAINED_FIXUPS {
                fixup_off = cur.read_u32();
                fixup_size = cur.read_u32();
            }
            i = i + 1;
            match off.checked_add(cmdsize as usize) {
                Some(next) => {
                    off = next;
                },
                None => {
                    proof {
                        lemma_fixups_stopped(data@, bo, start, i as nat, n);
                    }
                    break;
                },
            }
        }
        let mut skipped: Vec<u16> = Vec::new();
        if fixup_size == 0 {
            return skipped;
        }
        let mut binds: Vec<(u64, Vec<u8>)> = Vec::new();
        self.walk_chained_fixups(data, fixup_off, &mut binds, &mut skipped);
        assert(skipped@ =~= skipped_after_fixups(*old(self), old(data)@));
        let ghost all = pairs_view(binds@);
        assert(all =~= Seq::<(u64, Seq<u8>)>::empty() + all);
        let mut k: usize = 0;
        while k < binds.len()
            invariant
                k <= binds@.len(),
                all == pairs_view(binds@),
                names_view(self.symbol_names_by_address@) == insert_binds(
                    names_view(old(self).symbol_names_by_address@),
                    all.subrange(0, k as int),
                ),
                same_except_binds(*self, *old(self)),
            decreases binds@.len() - k,
        {
            let a = binds[k].0;
            let nm = crate::text::to_vec(binds[k].1.as_slice());
            self.symbol_names_by_address.insert(a, nm);
            k = k + 1;
            assert(all.subrange(0, k as int).drop_last() =~= all.subrange(0, k - 1));
            assert(names_view(self.symbol_names_by_address@) =~= insert_binds(
                names_view(old(self).symbol_names_by_address@),
                all.subrange(0, k - 1),
            ).insert(a, nm@));
        }
        assert(all.subrange(0, binds@.len() as int) =~= all);
        skipped
    }
}

} // verus!
