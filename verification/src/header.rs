//! The comment block that describes the dumped file: name, UUID,
//! architecture, versions, build platform and tools, garbage collection,
//! run paths and encryption.

use vstd::prelude::*;
use vstd::string::StringSliceAdditionalSpecFns;
use vstd::utf8::encode_utf8;
use crate::consts::{
    CPU_SUBTYPE_ARM64E, CPU_TYPE_ARM, CPU_TYPE_ARM64, CPU_TYPE_POWERPC, CPU_TYPE_POWERPC64, CPU_TYPE_X86,
    CPU_TYPE_X86_64, MH_DYLIB, PLATFORM_BRIDGEOS, PLATFORM_IOS, PLATFORM_IOSSIMULATOR, PLATFORM_MACCATALYST,
    PLATFORM_MACOS, PLATFORM_TVOS, PLATFORM_TVOSSIMULATOR, PLATFORM_WATCHOS, PLATFORM_WATCHOSSIMULATOR, TOOL_CLANG,
    TOOL_LD, TOOL_SWIFT,
};
use crate::macho::{BuildVersion, MachOFile};
use crate::text::{append, append_decimal, append_hex, append_hex_padded, append_str, decimal, hex, zero_pad};

verus! {

/// `major.minor.patch` of a version packed as `xxxx.yy.zz`.
#[verifier::opaque]
pub open spec fn nibble_text(v: u32) -> Seq<u8> {
    decimal((v >> 16u32) as nat) + ".".spec_bytes() + decimal(((v >> 8u32) & 0xff) as nat) + ".".spec_bytes()
        + decimal((v & 0xff) as nat)
}

/// A version packed as `xxxx.yy.zz` prints its three fields: the top
/// sixteen bits, then the next eight, then the low eight, in decimal,
/// separated by dots.
pub proof fn lemma_nibble_fields(v: u32)
    ensures
        nibble_text(v) == decimal((v / 0x1_0000) as nat) + ".".spec_bytes() + decimal(((v / 0x100) % 0x100) as nat)
            + ".".spec_bytes() + decimal((v % 0x100) as nat),
{
    reveal(nibble_text);
    assert(v >> 16u32 == v / 0x1_0000) by (bit_vector);
    assert((v >> 8u32) & 0xff == (v / 0x100) % 0x100) by (bit_vector);
    assert(v & 0xff == v % 0x100) by (bit_vector);
}

pub fn nibble_version(out: &mut Vec<u8>, v: u32)
    ensures
        final(out)@ == old(out)@ + nibble_text(v),
{
    proof {
        reveal(nibble_text);
    }
    append_decimal(out, (v >> 16u32) as u64);
    append_str(out, ".");
    append_decimal(out, ((v >> 8u32) & 0xff) as u64);
    append_str(out, ".");
    append_decimal(out, (v & 0xff) as u64);
}

/// `a.b.c.d.e` of a source version packed as 24.10.10.10.10 bits.
#[verifier::opaque]
pub open spec fn source_version_text(v: u64) -> Seq<u8> {
    decimal((v >> 40u64) as nat) + ".".spec_bytes() + decimal(((v >> 30u64) & 0x3ff) as nat) + ".".spec_bytes()
        + decimal(((v >> 20u64) & 0x3ff) as nat) + ".".spec_bytes() + decimal(((v >> 10u64) & 0x3ff) as nat)
        + ".".spec_bytes() + decimal((v & 0x3ff) as nat)
}

/// A source version packed as 24.10.10.10.10 bits prints its five fields,
/// highest first, in decimal, separated by dots.
pub proof fn lemma_source_version_fields(v: u64)
    ensures
        source_version_text(v) == decimal((v / 0x100_0000_0000) as nat) + ".".spec_bytes() + decimal(
            ((v / 0x4000_0000) % 0x400) as nat,
        ) + ".".spec_bytes() + decimal(((v / 0x10_0000) % 0x400) as nat) + ".".spec_bytes() + decimal(
            ((v / 0x400) % 0x400) as nat,
        ) + ".".spec_bytes() + decimal((v % 0x400) as nat),
{
    reveal(source_version_text);
    assert(v >> 40u64 == v / 0x100_0000_0000) by (bit_vector);
    assert((v >> 30u64) & 0x3ff == (v / 0x4000_0000) % 0x400) by (bit_vector);
    assert((v >> 20u64) & 0x3ff == (v / 0x10_0000) % 0x400) by (bit_vector);
    assert((v >> 10u64) & 0x3ff == (v / 0x400) % 0x400) by (bit_vector);
    assert(v & 0x3ff == v % 0x400) by (bit_vector);
}

pub fn source_version_string(out: &mut Vec<u8>, v: u64)
    ensures
        final(out)@ == old(out)@ + source_version_text(v),
{
    proof {
        reveal(source_version_text);
    }
    append_decimal(out, v >> 40u64);
    append_str(out, ".");
    append_decimal(out, (v >> 30u64) & 0x3ff);
    append_str(out, ".");
    append_decimal(out, (v >> 20u64) & 0x3ff);
    append_str(out, ".");
    append_decimal(out, (v >> 10u64) & 0x3ff);
    append_str(out, ".");
    append_decimal(out, v & 0x3ff);
}

#[verifier::opaque]
pub open spec fn platform_text(p: u32) -> Seq<u8> {
    if p == PLATFORM_MACOS {
        "macOS".spec_bytes()
    } else if p == PLATFORM_IOS {
        "iOS".spec_bytes()
    } else if p == PLATFORM_TVOS {
        "tvOS".spec_bytes()
    } else if p == PLATFORM_WATCHOS {
        "watchOS".spec_bytes()
    } else if p == PLATFORM_BRIDGEOS {
        "bridgeOS".spec_bytes()
    } else if p == PLATFORM_MACCATALYST {
        "Mac Catalyst".spec_bytes()
    } else if p == PLATFORM_IOSSIMULATOR {
        "iOS Simulator".spec_bytes()
    } else if p == PLATFORM_TVOSSIMULATOR {
        "tvOS Simulator".spec_bytes()
    } else if p == PLATFORM_WATCHOSSIMULATOR {
        "watchOS Simulator".spec_bytes()
    } else {
        "Unknown platform ".spec_bytes() + hex(p as nat, false)
    }
}

/// The build platforms are named macOS (1), iOS (2), tvOS (3), watchOS (4),
/// bridgeOS (5) and Mac Catalyst (6); each simulator (7, 8, 9) is named
/// after its platform (iOS, tvOS, watchOS) followed by " Simulator".
pub proof fn lemma_platform_names()
    ensures
        platform_text(PLATFORM_MACOS) == "macOS".spec_bytes(),
        platform_text(PLATFORM_IOS) == "iOS".spec_bytes(),
        platform_text(PLATFORM_TVOS) == "tvOS".spec_bytes(),
        platform_text(PLATFORM_WATCHOS) == "watchOS".spec_bytes(),
        platform_text(PLATFORM_BRIDGEOS) == "bridgeOS".spec_bytes(),
        platform_text(PLATFORM_MACCATALYST) == "Mac Catalyst".spec_bytes(),
        platform_text(PLATFORM_IOSSIMULATOR) == platform_text(PLATFORM_IOS) + " Simulator".spec_bytes(),
        platform_text(PLATFORM_TVOSSIMULATOR) == platform_text(PLATFORM_TVOS) + " Simulator".spec_bytes(),
        platform_text(PLATFORM_WATCHOSSIMULATOR) == platform_text(PLATFORM_WATCHOS) + " Simulator".spec_bytes(),
{
    reveal(platform_text);
    reveal_strlit("iOS");
    reveal_strlit("tvOS");
    reveal_strlit("watchOS");
    reveal_strlit(" Simulator");
    reveal_strlit("iOS Simulator");
    reveal_strlit("tvOS Simulator");
    reveal_strlit("watchOS Simulator");
    assert("iOS Simulator"@ =~= "iOS"@ + " Simulator"@);
    assert("tvOS Simulator"@ =~= "tvOS"@ + " Simulator"@);
    assert("watchOS Simulator"@ =~= "watchOS"@ + " Simulator"@);
    crate::text::lemma_encode_utf8_concat("iOS"@, " Simulator"@);
    crate::text::lemma_encode_utf8_concat("tvOS"@, " Simulator"@);
    crate::text::lemma_encode_utf8_concat("watchOS"@, " Simulator"@);
}

/// Different known platforms (1 to 9) get different names.
pub proof fn lemma_platform_names_distinct(p: u32, q: u32)
    requires
        1 <= p <= 9,
        1 <= q <= 9,
        p != q,
    ensures
        platform_text(p) != platform_text(q),
{
    reveal(platform_text);
    reveal_strlit("macOS");
    reveal_strlit("iOS");
    reveal_strlit("tvOS");
    reveal_strlit("watchOS");
    reveal_strlit("bridgeOS");
    reveal_strlit("Mac Catalyst");
    reveal_strlit("iOS Simulator");
    reveal_strlit("tvOS Simulator");
    reveal_strlit("watchOS Simulator");
    let cp = if p == 1 { "macOS"@ } else if p == 2 { "iOS"@ } else if p == 3 { "tvOS"@ } else if p == 4 {
        "watchOS"@
    } else if p == 5 { "bridgeOS"@ } else if p == 6 { "Mac Catalyst"@ } else if p == 7 { "iOS Simulator"@ } else if p
        == 8 { "tvOS Simulator"@ } else { "watchOS Simulator"@ };
    let cq = if q == 1 { "macOS"@ } else if q == 2 { "iOS"@ } else if q == 3 { "tvOS"@ } else if q == 4 {
        "watchOS"@
    } else if q == 5 { "bridgeOS"@ } else if q == 6 { "Mac Catalyst"@ } else if q == 7 { "iOS Simulator"@ } else if q
        == 8 { "tvOS Simulator"@ } else { "watchOS Simulator"@ };
    assert(cp.len() != cq.len());
    crate::text::lemma_encode_utf8_injective(cp, cq);
    assert(platform_text(p) == encode_utf8(cp));
    assert(platform_text(q) == encode_utf8(cq));
}

pub fn platform_name(out: &mut Vec<u8>, p: u32)
    ensures
        final(out)@ == old(out)@ + platform_text(p),
{
    proof {
        reveal(platform_text);
    }
    if p == PLATFORM_MACOS {
        append_str(out, "macOS");
    } else if p == PLATFORM_IOS {
        append_str(out, "iOS");
    } else if p == PLATFORM_TVOS {
        append_str(out, "tvOS");
    } else if p == PLATFORM_WATCHOS {
        append_str(out, "watchOS");
    } else if p == PLATFORM_BRIDGEOS {
        append_str(out, "bridgeOS");
    } else if p == PLATFORM_MACCATALYST {
        append_str(out, "Mac Catalyst");
    } else if p == PLATFORM_IOSSIMULATOR {
        append_str(out, "iOS Simulator");
    } else if p == PLATFORM_TVOSSIMULATOR {
        append_str(out, "tvOS Simulator");
    } else if p == PLATFORM_WATCHOSSIMULATOR {
        append_str(out, "watchOS Simulator");
    } else {
        append_str(out, "Unknown platform ");
        append_hex(out, p as u64, false);
    }
}

#[verifier::opaque]
pub open spec fn tool_text(t: u32) -> Seq<u8> {
    if t == TOOL_CLANG {
        "clang".spec_bytes()
    } else if t == TOOL_SWIFT {
        "swift".spec_bytes()
    } else if t == TOOL_LD {
        "ld".spec_bytes()
    } else {
        "Unknown tool ".spec_bytes() + hex(t as nat, false)
    }
}

/// The build tools are named clang (1), swift (2) and ld (3).
pub proof fn lemma_tool_names()
    ensures
        tool_text(1) == "clang".spec_bytes(),
        tool_text(2) == "swift".spec_bytes(),
        tool_text(3) == "ld".spec_bytes(),
{
    reveal(tool_text);
}

pub fn tool_name(out: &mut Vec<u8>, t: u32)
    ensures
        final(out)@ == old(out)@ + tool_text(t),
{
    proof {
        reveal(tool_text);
    }
    if t == TOOL_CLANG {
        append_str(out, "clang");
    } else if t == TOOL_SWIFT {
        append_str(out, "swift");
    } else if t == TOOL_LD {
        append_str(out, "ld");
    } else {
        append_str(out, "Unknown tool ");
        append_hex(out, t as u64, false);
    }
}

/// The 32 bits of `x`, as `{:x}` prints an `i32`.
pub open spec fn bits32(x: i32) -> nat {
    if x >= 0 {
        x as nat
    } else {
        (x + 0x1_0000_0000) as nat
    }
}

fn bits32_exec(x: i32) -> (r: u64)
    ensures
        r as nat == bits32(x),
{
    if x >= 0 {
        x as u64
    } else {
        (x as i64 + 0x1_0000_0000i64) as u64
    }
}

/// The architecture name, or the CPU type and subtype in hex.
#[verifier::opaque]
pub open spec fn cpu_text(cputype: i32, cpusubtype: i32) -> Seq<u8> {
    let masked = cpusubtype & 0x00ff_ffff;
    if cputype == CPU_TYPE_X86_64 {
        "x86_64".spec_bytes()
    } else if cputype == CPU_TYPE_X86 {
        "i386".spec_bytes()
    } else if cputype == CPU_TYPE_ARM64 {
        if masked == CPU_SUBTYPE_ARM64E {
            "arm64e".spec_bytes()
        } else {
            "arm64".spec_bytes()
        }
    } else if cputype == CPU_TYPE_ARM {
        "arm".spec_bytes()
    } else if cputype == CPU_TYPE_POWERPC64 {
        "ppc64".spec_bytes()
    } else if cputype == CPU_TYPE_POWERPC {
        "ppc".spec_bytes()
    } else {
        "0x".spec_bytes() + hex(bits32(cputype), false) + ":0x".spec_bytes() + hex(bits32(cpusubtype), false)
    }
}

/// The architecture names: x86_64, i386, arm64 (arm64e for the arm64e
/// subtype), arm, ppc64 and ppc; another CPU shows as `0x` type `:0x`
/// subtype in hex.
pub proof fn lemma_cpu_names(cpusubtype: i32)
    ensures
        cpu_text(0x0100_0007, cpusubtype) == "x86_64".spec_bytes(),
        cpu_text(7, cpusubtype) == "i386".spec_bytes(),
        cpu_text(0x0100_000c, 2) == "arm64e".spec_bytes(),
        cpu_text(0x0100_000c, 0) == "arm64".spec_bytes(),
        cpu_text(12, cpusubtype) == "arm".spec_bytes(),
        cpu_text(0x0100_0012, cpusubtype) == "ppc64".spec_bytes(),
        cpu_text(18, cpusubtype) == "ppc".spec_bytes(),
        cpu_text(1, cpusubtype) == "0x".spec_bytes() + hex(1, false) + ":0x".spec_bytes() + hex(
            bits32(cpusubtype),
            false,
        ),
{
    reveal(cpu_text);
    assert(7i32 | 0x0100_0000i32 == 0x0100_0007i32) by (bit_vector);
    assert(12i32 | 0x0100_0000i32 == 0x0100_000ci32) by (bit_vector);
    assert(18i32 | 0x0100_0000i32 == 0x0100_0012i32) by (bit_vector);
    assert(CPU_TYPE_X86_64 == 0x0100_0007);
    assert(CPU_TYPE_ARM64 == 0x0100_000c);
    assert(CPU_TYPE_POWERPC64 == 0x0100_0012);
    assert(0i32 & 0x00ff_ffff == 0) by (bit_vector);
    assert(2i32 & 0x00ff_ffff == 2) by (bit_vector);
}

pub fn cpu_name(out: &mut Vec<u8>, cputype: i32, cpusubtype: i32)
    ensures
        final(out)@ == old(out)@ + cpu_text(cputype, cpusubtype),
{
    proof {
        reveal(cpu_text);
    }
    let masked = cpusubtype & 0x00ff_ffff;
    if cputype == CPU_TYPE_X86_64 {
        append_str(out, "x86_64");
    } else if cputype == CPU_TYPE_X86 {
        append_str(out, "i386");
    } else if cputype == CPU_TYPE_ARM64 {
        if masked == CPU_SUBTYPE_ARM64E {
            append_str(out, "arm64e");
        } else {
            append_str(out, "arm64");
        }
    } else if cputype == CPU_TYPE_ARM {
        append_str(out, "arm");
    } else if cputype == CPU_TYPE_POWERPC64 {
        append_str(out, "ppc64");
    } else if cputype == CPU_TYPE_POWERPC {
        append_str(out, "ppc");
    } else {
        append_str(out, "0x");
        append_hex(out, bits32_exec(cputype), false);
        append_str(out, ":0x");
        append_hex(out, bits32_exec(cpusubtype), false);
    }
}

/// A UUID in upper-case hex, dashes after bytes 4, 6, 8 and 10.
pub open spec fn uuid_text(u: Seq<u8>) -> Seq<u8>
    decreases u.len(),
{
    if u.len() == 0 {
        Seq::empty()
    } else {
        let k = u.len() - 1;
        let dash = if k == 4 || k == 6 || k == 8 || k == 10 { "-".spec_bytes() } else { Seq::empty() };
        uuid_text(u.drop_last()) + dash + zero_pad(hex(u.last() as nat, true), 2)
    }
}

/// Dashes of a UUID that come before byte `i`'s digits (after bytes 4, 6, 8
/// and 10 begin).
pub open spec fn dashes_before(i: int) -> int {
    (if i >= 4 { 1int } else { 0 }) + (if i >= 6 { 1int } else { 0 }) + (if i >= 8 { 1int } else { 0 }) + (if i
        >= 10 { 1int } else { 0 })
}

/// The two upper-case hex digits of a byte.
proof fn lemma_byte_hex_upper(b: u8)
    ensures
        zero_pad(hex(b as nat, true), 2).len() == 2,
        forall|k: int| 0 <= k < 2 ==> {
            let c = #[trigger] zero_pad(hex(b as nat, true), 2)[k];
            48 <= c <= 57 || 65 <= c <= 70
        },
        crate::text::digit_value(zero_pad(hex(b as nat, true), 2)[0]) * 16 + crate::text::digit_value(
            zero_pad(hex(b as nat, true), 2)[1],
        ) == b,
{
    let h = hex(b as nat, true);
    if b < 16 {
        assert(h =~= seq![crate::text::hex_digit(b as nat, true)]);
        assert(zero_pad(h, 2) =~= seq![48u8, crate::text::hex_digit(b as nat, true)]);
    } else {
        assert(hex((b / 16) as nat, true) =~= seq![crate::text::hex_digit((b / 16) as nat, true)]);
        assert(h =~= seq![crate::text::hex_digit((b / 16) as nat, true), crate::text::hex_digit((b % 16) as nat, true)]);
        assert(zero_pad(h, 2) =~= h);
    }
}

/// The two characters at `p` in `t` are upper-case hex digits reading `b`.
pub open spec fn hex_pair_at(t: Seq<u8>, p: int, b: u8) -> bool {
    &&& (48 <= t[p] <= 57 || 65 <= t[p] <= 70)
    &&& (48 <= t[p + 1] <= 57 || 65 <= t[p + 1] <= 70)
    &&& crate::text::digit_value(t[p]) * 16 + crate::text::digit_value(t[p + 1]) == b
}

/// A UUID prints each byte as two upper-case hex digits, in order, with a
/// dash before the digits of bytes 4, 6, 8 and 10: byte `i` is at position
/// `2 i` plus the dashes before it (so a 16-byte UUID takes 36 characters,
/// dashes at 8, 13, 18 and 23).
pub proof fn lemma_uuid_layout(u: Seq<u8>)
    ensures
        uuid_text(u).len() == 2 * u.len() + dashes_before(u.len() - 1),
        forall|i: int| 0 <= i < u.len() ==> hex_pair_at(uuid_text(u), 2 * i + dashes_before(i), #[trigger] u[i]),
        forall|k: int|
            0 <= k < u.len() && (k == 4 || k == 6 || k == 8 || k == 10) ==> #[trigger] uuid_text(u)[2 * k
                + dashes_before(k) - 1] == 45,
    decreases u.len(),
{
    if u.len() > 0 {
        let init = u.drop_last();
        lemma_uuid_layout(init);
        let k = u.len() - 1;
        let ti = uuid_text(init);
        let dash = if k == 4 || k == 6 || k == 8 || k == 10 { "-".spec_bytes() } else { Seq::empty() };
        reveal_strlit("-");
        broadcast use vstd::string::is_ascii_spec_bytes;
        assert(vstd::string::is_ascii("-"));
        assert("-".spec_bytes() =~= seq![45u8]);
        let z = zero_pad(hex(u.last() as nat, true), 2);
        lemma_byte_hex_upper(u.last());
        let t = uuid_text(u);
        assert(t == ti + dash + z);
        assert(ti.len() == 2 * k + dashes_before(k - 1));
        assert(dashes_before(k) == dashes_before(k - 1) + dash.len());
        assert forall|i: int| 0 <= i < u.len() implies hex_pair_at(t, 2 * i + dashes_before(i), #[trigger] u[i]) by {
            let p = 2 * i + dashes_before(i);
            if i < k {
                assert(u[i] == init[i]);
                assert(dashes_before(i) <= dashes_before(k - 1));
                assert(p + 1 < ti.len());
                assert(hex_pair_at(ti, p, init[i]));
                assert(t[p] == ti[p]);
                assert(t[p + 1] == ti[p + 1]);
            } else {
                assert(p == ti.len() + dash.len());
                assert(t[p] == z[0]);
                assert(t[p + 1] == z[1]);
            }
        }
        assert forall|j: int|
            0 <= j < u.len() && (j == 4 || j == 6 || j == 8 || j == 10) implies #[trigger] t[2 * j + dashes_before(j) - 1]
            == 45 by {
            if j < k {
                assert(dashes_before(j) <= dashes_before(k - 1));
                assert(t[2 * j + dashes_before(j) - 1] == ti[2 * j + dashes_before(j) - 1]);
            } else {
                assert(dash.len() == 1);
                assert(t[ti.len() as int] == dash[0]);
            }
        }
    }
}

pub fn uuid_string(out: &mut Vec<u8>, u: &[u8])
    ensures
        final(out)@ == old(out)@ + uuid_text(u@),
{
    let ghost start = out@;
    let mut i: usize = 0;
    while i < u.len()
        invariant
            i <= u@.len(),
            out@ == start + uuid_text(u@.subrange(0, i as int)),
        decreases u@.len() - i,
    {
        if i == 4 || i == 6 || i == 8 || i == 10 {
            append_str(out, "-");
        }
        append_hex_padded(out, u[i] as u64, true, 2);
        proof {
            let q = u@.subrange(0, i + 1);
            assert(q.drop_last() =~= u@.subrange(0, i as int));
            assert(q.last() == u@[i as int]);
        }
        i = i + 1;
        assert(out@ =~= start + uuid_text(u@.subrange(0, i as int)));
    }
    assert(u@.subrange(0, u@.len() as int) =~= u@);
}

/// The directory part of a file name (before its last `/`), or `.`.
pub open spec fn dir_of(filename: Seq<u8>) -> Seq<u8> {
    match crate::parse::last_index_of(filename, 47) {
        Some(i) => filename.subrange(0, i),
        None => ".".spec_bytes(),
    }
}

/// The directory of a file name: the part before its last `/` (so that
/// directory, `/` and the part after it, which has no `/`, make up the
/// name), or `.` when it has no `/`.
pub proof fn lemma_dir_of(filename: Seq<u8>)
    ensures
        (exists|j: int| 0 <= j < filename.len() && filename[j] == 47) ==> exists|rest: Seq<u8>|
            #![trigger dir_of(filename) + seq![47u8] + rest]
            dir_of(filename) + seq![47u8] + rest == filename && forall|k: int| 0 <= k < rest.len() ==> rest[k] != 47,
        (forall|j: int| 0 <= j < filename.len() ==> filename[j] != 47) ==> dir_of(filename) == ".".spec_bytes(),
{
    crate::parse::lemma_last_index_is_last(filename, 47);
    match crate::parse::last_index_of(filename, 47) {
        Some(i) => {
            let rest = filename.subrange(i + 1, filename.len() as int);
            assert(dir_of(filename) + seq![47u8] + rest =~= filename);
            assert forall|k: int| 0 <= k < rest.len() implies rest[k] != 47 by {
                assert(rest[k] == filename[i + 1 + k]);
            }
        },
        None => {},
    }
}

/// A run path with `@executable_path` or `@loader_path` replaced by the
/// directory of the file.
#[verifier::opaque]
pub open spec fn run_path_text(path: Seq<u8>, filename: Seq<u8>) -> Seq<u8> {
    let e = "@executable_path".spec_bytes();
    let l = "@loader_path".spec_bytes();
    if e.len() <= path.len() && path.subrange(0, e.len() as int) == e {
        dir_of(filename) + path.subrange(e.len() as int, path.len() as int)
    } else if l.len() <= path.len() && path.subrange(0, l.len() as int) == l {
        dir_of(filename) + path.subrange(l.len() as int, path.len() as int)
    } else {
        path
    }
}

pub fn resolve_run_path(out: &mut Vec<u8>, path: &[u8], filename: &[u8])
    ensures
        final(out)@ == old(out)@ + run_path_text(path@, filename@),
{
    proof {
        reveal(run_path_text);
    }
    let e = "@executable_path".as_bytes();
    let l = "@loader_path".as_bytes();
    proof {
        reveal_strlit("@executable_path");
        reveal_strlit("@loader_path");
        assert(e@.len() > 0);
        assert(l@.len() > 0);
    }
    let pre = if crate::text::starts_with(path, e) {
        e.len()
    } else if crate::text::starts_with(path, l) {
        l.len()
    } else {
        0
    };
    if pre == 0 {
        append(out, path);
        return;
    }
    let ghost start = out@;
    match crate::parse::rfind_byte(filename, 47) {
        Some(i) => {
            proof {
                crate::parse::lemma_last_index(filename@, 47);
            }
            append(out, crate::text::sub_vec(filename, 0, i).as_slice());
        },
        None => append_str(out, "."),
    }
    append(out, crate::text::sub_vec(path, pre, path.len()).as_slice());
    proof {
        reveal_strlit("@executable_path");
        reveal_strlit("@loader_path");
    }
    assert(out@ =~= start + run_path_text(path@, filename@));
}

/// `tool version` for each build tool, one per line (continuation lines
/// indented to the column of the first).
pub open spec fn tools_text(ts: Seq<(u32, u32)>) -> Seq<u8>
    decreases ts.len(),
{
    if ts.len() == 0 {
        Seq::empty()
    } else {
        let piece = tool_text(ts.last().0) + " ".spec_bytes() + nibble_text(ts.last().1);
        if ts.len() == 1 {
            piece
        } else {
            tools_text(ts.drop_last()) + "\n                                   ".spec_bytes() + piece
        }
    }
}

/// The build-version lines.
#[verifier::opaque]
pub open spec fn build_text(bv: BuildVersion) -> Seq<u8> {
    "//                  Build version: Platform: ".spec_bytes() + platform_text(bv.platform) + " ".spec_bytes()
        + nibble_text(bv.minos) + ", SDK: ".spec_bytes() + nibble_text(bv.sdk) + "\n".spec_bytes()
        + "//                          Tools: ".spec_bytes() + tools_text(bv.tools@) + "\n".spec_bytes()
}

fn build_lines(out: &mut Vec<u8>, bv: &BuildVersion)
    ensures
        final(out)@ == old(out)@ + build_text(*bv),
{
    proof {
        reveal(build_text);
    }
    let ghost start = out@;
    append_str(out, "//                  Build version: Platform: ");
    platform_name(out, bv.platform);
    append_str(out, " ");
    nibble_version(out, bv.minos);
    append_str(out, ", SDK: ");
    nibble_version(out, bv.sdk);
    append_str(out, "\n");
    append_str(out, "//                          Tools: ");
    let ghost mid = out@;
    let ts = &bv.tools;
    let mut i: usize = 0;
    while i < ts.len()
        invariant
            i <= ts@.len(),
            ts@ == bv.tools@,
            out@ == mid + tools_text(ts@.subrange(0, i as int)),
        decreases ts@.len() - i,
    {
        if i > 0 {
            append_str(out, "\n                                   ");
        }
        let (t, v) = ts[i];
        tool_name(out, t);
        append_str(out, " ");
        nibble_version(out, v);
        proof {
            let q = ts@.subrange(0, i + 1);
            assert(q.drop_last() =~= ts@.subrange(0, i as int));
            assert(q.last() == ts@[i as int]);
        }
        i = i + 1;
        assert(out@ =~= mid + tools_text(ts@.subrange(0, i as int)));
    }
    assert(ts@.subrange(0, ts@.len() as int) =~= ts@);
    append_str(out, "\n");
    assert(out@ =~= start + build_text(*bv));
}

/// The garbage-collection mode named by the image-info flags.
#[verifier::opaque]
pub open spec fn gc_text(flags: Option<u32>) -> Seq<u8> {
    match flags {
        None => "Unknown".spec_bytes(),
        Some(v) => {
            let m = v & 6;
            if m == 0 {
                "Unsupported".spec_bytes()
            } else if m == 2 {
                "Supported".spec_bytes()
            } else if m == 6 {
                "Required".spec_bytes()
            } else {
                "Unknown (0x".spec_bytes() + zero_pad(hex(m as nat, false), 8) + ")".spec_bytes()
            }
        },
    }
}

/// Garbage collection from the image-info flags: neither bit 1 nor bit 2
/// set is Unsupported, bit 1 alone Supported, both Required; bit 2 alone is
/// shown as an unknown value, and no image info as Unknown.
pub proof fn lemma_gc_names(v: u32)
    ensures
        gc_text(None) == "Unknown".spec_bytes(),
        (v / 2) % 2 == 0 && (v / 4) % 2 == 0 ==> gc_text(Some(v)) == "Unsupported".spec_bytes(),
        (v / 2) % 2 == 1 && (v / 4) % 2 == 0 ==> gc_text(Some(v)) == "Supported".spec_bytes(),
        (v / 2) % 2 == 1 && (v / 4) % 2 == 1 ==> gc_text(Some(v)) == "Required".spec_bytes(),
        (v / 2) % 2 == 0 && (v / 4) % 2 == 1 ==> gc_text(Some(v)) == "Unknown (0x".spec_bytes() + zero_pad(
            hex(4, false),
            8,
        ) + ")".spec_bytes(),
{
    reveal(gc_text);
    assert(v & 6 == 2 * ((v / 2) % 2) + 4 * ((v / 4) % 2)) by (bit_vector);
}

fn gc_lines(out: &mut Vec<u8>, m: &MachOFile)
    ensures
        final(out)@ == old(out)@ + if m.spec_has_objc2() || m.spec_has_objc1() {
            "//\n".spec_bytes() + "// Objective-C Garbage Collection: ".spec_bytes() + gc_text(m.spec_image_info_flags())
                + "\n".spec_bytes()
        } else {
            Seq::empty()
        },
{
    proof {
        reveal(gc_text);
    }
    let ghost start = out@;
    if m.has_objc2_data() || m.has_objc1_data() {
        append_str(out, "//\n");
        append_str(out, "// Objective-C Garbage Collection: ");
        match m.objc_image_info_flags() {
            None => append_str(out, "Unknown"),
            Some(v) => {
                let x = v & 6;
                if x == 0 {
                    append_str(out, "Unsupported");
                } else if x == 2 {
                    append_str(out, "Supported");
                } else if x == 6 {
                    append_str(out, "Required");
                } else {
                    append_str(out, "Unknown (0x");
                    append_hex_padded(out, x as u64, false, 8);
                    append_str(out, ")");
                }
            },
        }
        append_str(out, "\n");
    }
    assert(out@ =~= start + if m.spec_has_objc2() || m.spec_has_objc1() {
        "//\n".spec_bytes() + "// Objective-C Garbage Collection: ".spec_bytes() + gc_text(m.spec_image_info_flags())
            + "\n".spec_bytes()
    } else {
        Seq::empty()
    });
}

/// Two lines per run path: the path and what it resolves to.
pub open spec fn run_paths_text(paths: Seq<Vec<u8>>, filename: Seq<u8>) -> Seq<u8>
    decreases paths.len(),
{
    if paths.len() == 0 {
        Seq::empty()
    } else {
        let rp = paths.last()@;
        run_paths_text(paths.drop_last(), filename) + "//                       Run path: ".spec_bytes() + rp
            + "\n".spec_bytes() + "//                               = ".spec_bytes() + run_path_text(rp, filename)
            + "\n".spec_bytes()
    }
}

fn run_path_lines(out: &mut Vec<u8>, m: &MachOFile)
    ensures
        final(out)@ == old(out)@ + run_paths_text(m.run_paths@, m.filename@),
{
    let ghost start = out@;
    let mut i: usize = 0;
    while i < m.run_paths.len()
        invariant
            i <= m.run_paths@.len(),
            out@ == start + run_paths_text(m.run_paths@.subrange(0, i as int), m.filename@),
        decreases m.run_paths@.len() - i,
    {
        append_str(out, "//                       Run path: ");
        append(out, m.run_paths[i].as_slice());
        append_str(out, "\n");
        append_str(out, "//                               = ");
        resolve_run_path(out, m.run_paths[i].as_slice(), m.filename.as_slice());
        append_str(out, "\n");
        proof {
            let q = m.run_paths@.subrange(0, i + 1);
            assert(q.drop_last() =~= m.run_paths@.subrange(0, i as int));
            assert(q.last() == m.run_paths@[i as int]);
        }
        i = i + 1;
        assert(out@ =~= start + run_paths_text(m.run_paths@.subrange(0, i as int), m.filename@));
    }
    assert(m.run_paths@.subrange(0, m.run_paths@.len() as int) =~= m.run_paths@);
}

/// The lines about versions: dylib current and compatibility versions (for
/// a dylib with an id), source version, build version.
#[verifier::opaque]
pub open spec fn versions_text(m: MachOFile) -> Seq<u8> {
    (if m.filetype == MH_DYLIB && m.dylib_id is Some {
        let id = m.dylib_id->0;
        "//                Current version: ".spec_bytes() + nibble_text(id.current_version) + "\n".spec_bytes()
            + "//          Compatibility version: ".spec_bytes() + nibble_text(id.compatibility_version)
            + "\n".spec_bytes()
    } else {
        Seq::empty()
    }) + (match m.source_version {
        Some(sv) => "//                 Source version: ".spec_bytes() + source_version_text(sv) + "\n".spec_bytes(),
        None => Seq::empty(),
    }) + (match m.build_version {
        Some(bv) => build_text(bv),
        None => Seq::empty(),
    })
}

fn version_lines(out: &mut Vec<u8>, m: &MachOFile)
    ensures
        final(out)@ == old(out)@ + versions_text(*m),
{
    proof {
        reveal(versions_text);
    }
    let ghost start = out@;
    if m.filetype == MH_DYLIB {
        match &m.dylib_id {
            Some(id) => {
                append_str(out, "//                Current version: ");
                nibble_version(out, id.current_version);
                append_str(out, "\n");
                append_str(out, "//          Compatibility version: ");
                nibble_version(out, id.compatibility_version);
                append_str(out, "\n");
            },
            None => {},
        }
    }
    match m.source_version {
        Some(sv) => {
            append_str(out, "//                 Source version: ");
            source_version_string(out, sv);
            append_str(out, "\n");
        },
        None => {},
    }
    match &m.build_version {
        Some(bv) => build_lines(out, bv),
        None => {},
    }
    assert(out@ =~= start + versions_text(*m));
}

/// The comment block that describes the file.
pub open spec fn comment_block(m: MachOFile) -> Seq<u8> {
    "#pragma mark -\n\n".spec_bytes() + "//\n".spec_bytes() + "// File: ".spec_bytes() + m.filename@
        + "\n".spec_bytes() + (match m.uuid {
        Some(u) => "// UUID: ".spec_bytes() + uuid_text(u@) + "\n".spec_bytes(),
        None => Seq::empty(),
    }) + "//\n".spec_bytes() + "//                           Arch: ".spec_bytes() + cpu_text(m.cputype, m.cpusubtype)
        + "\n".spec_bytes() + versions_text(m) + (if m.spec_has_objc2() || m.spec_has_objc1() {
        "//\n".spec_bytes() + "// Objective-C Garbage Collection: ".spec_bytes() + gc_text(m.spec_image_info_flags())
            + "\n".spec_bytes()
    } else {
        Seq::empty()
    }) + (if m.run_paths@.len() > 0 {
        "//\n".spec_bytes() + run_paths_text(m.run_paths@, m.filename@)
    } else {
        Seq::empty()
    }) + (if m.has_encryption {
        "//         This file is encrypted:\n".spec_bytes()
    } else {
        Seq::empty()
    }) + "//\n".spec_bytes()
}

/// The comment block that describes the file (see `comment_block`).
#[verifier::rlimit(30)]
pub fn file_comment_block(m: &MachOFile) -> (r: Vec<u8>)
    ensures
        r@ == comment_block(*m),
{
    let mut s: Vec<u8> = Vec::new();
    append_str(&mut s, "#pragma mark -\n\n");
    append_str(&mut s, "//\n");
    append_str(&mut s, "// File: ");
    append(&mut s, m.filename.as_slice());
    append_str(&mut s, "\n");
    match &m.uuid {
        Some(u) => {
            append_str(&mut s, "// UUID: ");
            uuid_string(&mut s, u.as_slice());
            append_str(&mut s, "\n");
        },
        None => {},
    }
    append_str(&mut s, "//\n");
    append_str(&mut s, "//                           Arch: ");
    cpu_name(&mut s, m.cputype, m.cpusubtype);
    append_str(&mut s, "\n");
    version_lines(&mut s, m);
    gc_lines(&mut s, m);
    if m.run_paths.len() > 0 {
        append_str(&mut s, "//\n");
        run_path_lines(&mut s, m);
    }
    if m.has_encryption {
        append_str(&mut s, "//         This file is encrypted:\n");
    }
    append_str(&mut s, "//\n");
    assert(s@ =~= comment_block(*m));
    s
}

} // verus!
