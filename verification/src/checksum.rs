//! SHA-1 checksums in lower-case hexadecimal, which name anonymous records.

use vstd::prelude::*;
use sha1::Digest;
use crate::text::{digit_value, hex_digit};

verus! {

/// The SHA-1 digest of `data`, as the sha1 crate computes it.
pub uninterp spec fn sha1_of(data: Seq<u8>) -> Seq<u8>;

/// Calls `sha1::Sha1::digest`.  Trusted: the result is the digest named
/// `sha1_of`, 20 bytes long (the crate's output size for SHA-1).
#[verifier::external_body]
fn sha1_digest(data: &[u8]) -> (r: Vec<u8>)
    ensures
        r@ == sha1_of(data@),
        r@.len() == 20,
{
    sha1::Sha1::digest(data).to_vec()
}

/// Each byte as two lower-case hexadecimal digits.
pub open spec fn hex_bytes(b: Seq<u8>) -> Seq<u8>
    decreases b.len(),
{
    if b.len() == 0 {
        Seq::empty()
    } else {
        hex_bytes(b.drop_last()) + seq![hex_digit((b.last() / 16) as nat, false), hex_digit((b.last() % 16) as nat, false)]
    }
}

/// Each byte of `b` becomes two lower-case hex digits, the high four bits
/// first: digits `2i` and `2i + 1` read back as byte `i`.
pub proof fn lemma_hex_bytes(b: Seq<u8>)
    ensures
        hex_bytes(b).len() == 2 * b.len(),
        forall|i: int|
            0 <= i < b.len() ==> {
                let h = #[trigger] hex_bytes(b)[2 * i];
                let l = hex_bytes(b)[2 * i + 1];
                &&& (48 <= h <= 57 || 97 <= h <= 102)
                &&& (48 <= l <= 57 || 97 <= l <= 102)
                &&& digit_value(h) * 16 + digit_value(l) == b[i]
            },
    decreases b.len(),
{
    if b.len() > 0 {
        let init = b.drop_last();
        lemma_hex_bytes(init);
        let r = hex_bytes(b);
        let n = init.len() as int;
        assert forall|i: int| 0 <= i < b.len() implies {
            let h = #[trigger] r[2 * i];
            let l = r[2 * i + 1];
            &&& (48 <= h <= 57 || 97 <= h <= 102)
            &&& (48 <= l <= 57 || 97 <= l <= 102)
            &&& digit_value(h) * 16 + digit_value(l) == b[i]
        } by {
            if i < n {
                assert(r[2 * i] == hex_bytes(init)[2 * i]);
                assert(r[2 * i + 1] == hex_bytes(init)[2 * i + 1]);
                assert(b[i] == init[i]);
            } else {
                let x = b.last();
                assert(r[2 * i] == hex_digit((x / 16) as nat, false));
                assert(r[2 * i + 1] == hex_digit((x % 16) as nat, false));
                assert(x == (x / 16) * 16 + x % 16);
            }
        }
    }
}

fn hex_digit_exec(d: u8) -> (r: u8)
    requires
        d < 16,
    ensures
        r == hex_digit(d as nat, false),
{
    if d < 10 {
        48 + d
    } else {
        87 + d
    }
}

/// The SHA-1 digest of `data` in lower-case hexadecimal (40 digits).
pub fn sha1_hex(data: &[u8]) -> (r: Vec<u8>)
    ensures
        r@ == hex_bytes(sha1_of(data@)),
        r@.len() == 40,
{
    let d = sha1_digest(data);
    let mut out: Vec<u8> = Vec::new();
    let mut i: usize = 0;
    while i < d.len()
        invariant
            i <= d@.len(),
            out@ == hex_bytes(d@.subrange(0, i as int)),
            out@.len() == 2 * i,
        decreases d@.len() - i,
    {
        let b = d[i];
        out.push(hex_digit_exec(b / 16));
        out.push(hex_digit_exec(b % 16));
        proof {
            assert(d@.subrange(0, i + 1).drop_last() =~= d@.subrange(0, i as int));
        }
        i = i + 1;
    }
    assert(d@.subrange(0, d@.len() as int) =~= d@);
    out
}

} // verus!
