//! A byte cursor over a Mach-O file's data.  It reads with a configurable byte
//! order and pointer size; reads past the end of the data yield zero bytes.

use vstd::prelude::*;
use vstd::slice::slice_subrange;
use crate::text::{find_nul, lossy_utf8, until_nul, lossy_bytes};

verus! {

/// Byte order of multi-byte integers.
#[derive(Clone, Copy, PartialEq, Eq, Debug, Structural)]
pub enum ByteOrder {
    Little,
    Big,
}

/// The byte at `i`, or 0 outside the data.
pub open spec fn byte_at(d: Seq<u8>, i: int) -> u8 {
    if 0 <= i < d.len() {
        d[i]
    } else {
        0
    }
}

/// The little-endian unsigned integer made of the `n` bytes at `off`.
pub open spec fn le_uint(d: Seq<u8>, off: int, n: nat) -> nat
    decreases n,
{
    if n == 0 {
        0
    } else {
        (byte_at(d, off) + 256 * le_uint(d, off + 1, (n - 1) as nat)) as nat
    }
}

/// The big-endian unsigned integer made of the `n` bytes at `off`.
pub open spec fn be_uint(d: Seq<u8>, off: int, n: nat) -> nat
    decreases n,
{
    if n == 0 {
        0
    } else {
        (be_uint(d, off, (n - 1) as nat) * 256 + byte_at(d, off + n - 1)) as nat
    }
}

/// Byte orders of 2, 4 and 8-byte integers: little-endian puts the first
/// byte lowest, big-endian puts it highest.
pub proof fn lemma_byte_orders(d: Seq<u8>, o: int)
    ensures
        le_uint(d, o, 2) == byte_at(d, o) + 0x100 * byte_at(d, o + 1),
        be_uint(d, o, 2) == 0x100 * byte_at(d, o) + byte_at(d, o + 1),
        le_uint(d, o, 4) == byte_at(d, o) + 0x100 * byte_at(d, o + 1) + 0x1_0000 * byte_at(d, o + 2) + 0x100_0000
            * byte_at(d, o + 3),
        be_uint(d, o, 4) == 0x100_0000 * byte_at(d, o) + 0x1_0000 * byte_at(d, o + 1) + 0x100 * byte_at(d, o + 2)
            + byte_at(d, o + 3),
        le_uint(d, o, 8) == le_uint(d, o, 4) + 0x1_0000_0000 * le_uint(d, o + 4, 4),
        be_uint(d, o, 8) == 0x1_0000_0000 * be_uint(d, o, 4) + be_uint(d, o + 4, 4),
{
    reveal_with_fuel(le_uint, 9);
    reveal_with_fuel(be_uint, 9);
    assert(be_uint(d, o + 4, 4) == 0x100_0000 * byte_at(d, o + 4) + 0x1_0000 * byte_at(d, o + 5) + 0x100 * byte_at(
        d,
        o + 6,
    ) + byte_at(d, o + 7));
}

/// The unsigned integer of `n` bytes at `off` in byte order `bo`.
pub open spec fn uint_at(d: Seq<u8>, off: int, n: nat, bo: ByteOrder) -> nat {
    match bo {
        ByteOrder::Little => le_uint(d, off, n),
        ByteOrder::Big => be_uint(d, off, n),
    }
}

/// A pointer-sized value: 4 bytes when the pointer size is 4, else 8.
pub open spec fn ptr_at(d: Seq<u8>, off: int, ptr_size: int, bo: ByteOrder) -> nat {
    if ptr_size == 4 {
        uint_at(d, off, 4, bo)
    } else {
        uint_at(d, off, 8, bo)
    }
}

/// The bytes of `d[off..off+n]` that lie inside `d`.
pub open spec fn clipped(d: Seq<u8>, off: int, n: int) -> Seq<u8> {
    let start = if off < d.len() { off } else { d.len() as int };
    let end = if off + n < d.len() { off + n } else { d.len() as int };
    d.subrange(start, end)
}

/// A cursor positioned at a byte offset within a shared data buffer.
pub struct Cursor<'a> {
    data: &'a [u8],
    offset: usize,
    byte_order: ByteOrder,
    ptr_size: usize,
}

fn get_byte(data: &[u8], i: usize) -> (r: u8)
    ensures
        r == byte_at(data@, i as int),
{
    if i < data.len() {
        data[i]
    } else {
        0
    }
}

impl<'a> Cursor<'a> {
    /// The data the cursor reads.
    pub closed spec fn bytes(&self) -> Seq<u8> {
        self.data@
    }

    /// The current offset.
    pub closed spec fn pos(&self) -> int {
        self.offset as int
    }

    /// The byte order used for reads.
    pub closed spec fn order(&self) -> ByteOrder {
        self.byte_order
    }

    /// The pointer size used by `read_ptr`.
    pub closed spec fn word(&self) -> int {
        self.ptr_size as int
    }

    /// Same data, order and pointer size as `other`.
    pub open spec fn same_source(&self, other: &Cursor) -> bool {
        self.bytes() == other.bytes() && self.order() == other.order() && self.word() == other.word()
    }

    pub fn new(data: &'a [u8], byte_order: ByteOrder, ptr_size: usize) -> (c: Self)
        ensures
            c.bytes() == data@,
            c.pos() == 0,
            c.order() == byte_order,
            c.word() == ptr_size,
    {
        Cursor { data, offset: 0, byte_order, ptr_size }
    }

    pub fn at(data: &'a [u8], byte_order: ByteOrder, ptr_size: usize, offset: usize) -> (c: Self)
        ensures
            c.bytes() == data@,
            c.pos() == offset,
            c.order() == byte_order,
            c.word() == ptr_size,
    {
        Cursor { data, offset, byte_order, ptr_size }
    }

    pub fn offset(&self) -> (r: usize)
        ensures
            r == self.pos(),
    {
        self.offset
    }

    pub fn set_offset(&mut self, offset: usize)
        ensures
            final(self).pos() == offset,
            final(self).same_source(old(self)),
    {
        self.offset = offset;
    }

    pub fn advance(&mut self, n: usize)
        requires
            old(self).pos() + n <= usize::MAX,
        ensures
            final(self).pos() == old(self).pos() + n,
            final(self).same_source(old(self)),
    {
        self.offset = self.offset + n;
    }

    pub fn remaining(&self) -> (r: usize)
        ensures
            r == if self.pos() < self.bytes().len() { self.bytes().len() - self.pos() } else { 0 },
    {
        self.data.len().saturating_sub(self.offset)
    }

    pub fn is_at_end(&self) -> (r: bool)
        ensures
            r == (self.pos() >= self.bytes().len()),
    {
        self.offset >= self.data.len()
    }

    pub fn read_u8(&mut self) -> (r: u8)
        requires
            old(self).pos() + 1 <= usize::MAX,
        ensures
            r == byte_at(old(self).bytes(), old(self).pos()),
            final(self).pos() == old(self).pos() + 1,
            final(self).same_source(old(self)),
    {
        let v = get_byte(self.data, self.offset);
        self.offset = self.offset + 1;
        v
    }

    pub fn read_u16(&mut self) -> (r: u16)
        requires
            old(self).pos() + 2 <= usize::MAX,
        ensures
            r == uint_at(old(self).bytes(), old(self).pos(), 2, old(self).order()),
            final(self).pos() == old(self).pos() + 2,
            final(self).same_source(old(self)),
    {
        let o = self.offset;
        let b0 = get_byte(self.data, o) as u16;
        let b1 = get_byte(self.data, o + 1) as u16;
        self.offset = o + 2;
        proof {
            reveal_with_fuel(le_uint, 3);
            reveal_with_fuel(be_uint, 3);
        }
        match self.byte_order {
            ByteOrder::Little => b0 + b1 * 256,
            ByteOrder::Big => b0 * 256 + b1,
        }
    }

    pub fn read_u32(&mut self) -> (r: u32)
        requires
            old(self).pos() + 4 <= usize::MAX,
        ensures
            r == uint_at(old(self).bytes(), old(self).pos(), 4, old(self).order()),
            final(self).pos() == old(self).pos() + 4,
            final(self).same_source(old(self)),
    {
        let o = self.offset;
        let b0 = get_byte(self.data, o) as u32;
        let b1 = get_byte(self.data, o + 1) as u32;
        let b2 = get_byte(self.data, o + 2) as u32;
        let b3 = get_byte(self.data, o + 3) as u32;
        self.offset = o + 4;
        proof {
            reveal_with_fuel(le_uint, 5);
            reveal_with_fuel(be_uint, 5);
        }
        match self.byte_order {
            ByteOrder::Little => b0 + b1 * 0x100 + b2 * 0x10000 + b3 * 0x1000000,
            ByteOrder::Big => b0 * 0x1000000 + b1 * 0x10000 + b2 * 0x100 + b3,
        }
    }

    #[verifier::rlimit(30)]
    pub fn read_u64(&mut self) -> (r: u64)
        requires
            old(self).pos() + 8 <= usize::MAX,
        ensures
            r == uint_at(old(self).bytes(), old(self).pos(), 8, old(self).order()),
            final(self).pos() == old(self).pos() + 8,
            final(self).same_source(old(self)),
    {
        let o = self.offset;
        let b0 = get_byte(self.data, o) as u64;
        let b1 = get_byte(self.data, o + 1) as u64;
        let b2 = get_byte(self.data, o + 2) as u64;
        let b3 = get_byte(self.data, o + 3) as u64;
        let b4 = get_byte(self.data, o + 4) as u64;
        let b5 = get_byte(self.data, o + 5) as u64;
        let b6 = get_byte(self.data, o + 6) as u64;
        let b7 = get_byte(self.data, o + 7) as u64;
        self.offset = o + 8;
        proof {
            reveal_with_fuel(le_uint, 9);
            reveal_with_fuel(be_uint, 9);
        }
        match self.byte_order {
            ByteOrder::Little => b0 + b1 * 0x100 + b2 * 0x10000 + b3 * 0x1000000 + b4 * 0x100000000
                + b5 * 0x10000000000 + b6 * 0x1000000000000 + b7 * 0x100000000000000,
            ByteOrder::Big => b0 * 0x100000000000000 + b1 * 0x1000000000000 + b2 * 0x10000000000 + b3
                * 0x100000000 + b4 * 0x1000000 + b5 * 0x10000 + b6 * 0x100 + b7,
        }
    }

    /// Read a pointer-sized value (4 or 8 bytes) using the cursor's pointer size.
    pub fn read_ptr(&mut self) -> (r: u64)
        requires
            old(self).pos() + (if old(self).word() == 4 { 4int } else { 8int }) <= usize::MAX,
        ensures
            r == ptr_at(old(self).bytes(), old(self).pos(), old(self).word(), old(self).order()),
            final(self).pos() == old(self).pos() + if old(self).word() == 4 { 4int } else { 8int },
            final(self).same_source(old(self)),
    {
        if self.ptr_size == 4 {
            self.read_u32() as u64
        } else {
            self.read_u64()
        }
    }

    /// Read big-endian u32 regardless of configured byte order (used for the magic number).
    pub fn read_be_u32(&mut self) -> (r: u32)
        requires
            old(self).pos() + 4 <= usize::MAX,
        ensures
            r == be_uint(old(self).bytes(), old(self).pos(), 4),
            final(self).pos() == old(self).pos() + 4,
            final(self).same_source(old(self)),
    {
        let o = self.offset;
        let b0 = get_byte(self.data, o) as u32;
        let b1 = get_byte(self.data, o + 1) as u32;
        let b2 = get_byte(self.data, o + 2) as u32;
        let b3 = get_byte(self.data, o + 3) as u32;
        self.offset = o + 4;
        proof {
            reveal_with_fuel(be_uint, 5);
        }
        b0 * 0x1000000 + b1 * 0x10000 + b2 * 0x100 + b3
    }

    pub fn read_bytes(&mut self, n: usize) -> (r: &'a [u8])
        requires
            old(self).pos() + n <= usize::MAX,
        ensures
            r@ == clipped(old(self).bytes(), old(self).pos(), n as int),
            final(self).pos() == old(self).pos() + n,
            final(self).same_source(old(self)),
    {
        let len = self.data.len();
        let start = if self.offset < len { self.offset } else { len };
        let end = if self.offset + n < len { self.offset + n } else { len };
        self.offset = self.offset + n;
        slice_subrange(self.data, start, end)
    }

    /// Read a fixed-length string field, trimming at the first NUL (e.g. segment/section names).
    pub fn read_fixed_string(&mut self, n: usize) -> (r: Vec<u8>)
        requires
            old(self).pos() + n <= usize::MAX,
        ensures
            r@ == lossy_bytes(until_nul(clipped(old(self).bytes(), old(self).pos(), n as int))),
            final(self).pos() == old(self).pos() + n,
            final(self).same_source(old(self)),
    {
        let bytes = self.read_bytes(n);
        let end = find_nul(bytes, 0);
        assert(bytes@.subrange(0, bytes@.len() as int) == bytes@);
        let head = slice_subrange(bytes, 0, end);
        lossy_utf8(head)
    }
}

/// The string that `cstring_at` reads at `offset`: the bytes up to the first
/// NUL, decoded as by `from_utf8_lossy`.
pub open spec fn cstring_spec(data: Seq<u8>, offset: int) -> Option<Seq<u8>> {
    if offset >= data.len() {
        None
    } else {
        Some(lossy_bytes(until_nul(data.subrange(offset, data.len() as int))))
    }
}

/// Read a NUL-terminated ASCII/UTF-8 string starting at `offset` in `data`.
pub fn cstring_at(data: &[u8], offset: usize) -> (r: Option<Vec<u8>>)
    ensures
        r matches Some(v) ==> cstring_spec(data@, offset as int) == Some(v@),
        r is None <==> cstring_spec(data@, offset as int) is None,
{
    if offset >= data.len() {
        return None;
    }
    let end = find_nul(data, offset);
    let head = slice_subrange(data, offset, end);
    Some(lossy_utf8(head))
}

} // verus!
