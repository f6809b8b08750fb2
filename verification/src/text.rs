//! Byte-string helpers: every piece of text in this library is a `Vec<u8>`
//! holding UTF-8.

use vstd::prelude::*;
use vstd::utf8::{decode_utf8, encode_utf8, valid_utf8};
use vstd::string::StringSliceAdditionalSpecFns;

verus! {

/// What `String::from_utf8_lossy` makes of a byte sequence: its characters.
pub uninterp spec fn utf8_lossy(b: Seq<u8>) -> Seq<char>;

/// Calls `String::from_utf8_lossy` and takes the owned string.  Trusted: its
/// characters are the decoding named `utf8_lossy`; valid UTF-8 decodes as
/// UTF-8 does, so ASCII bytes come back as the same characters (the
/// documented behaviour of `from_utf8_lossy`).  How invalid sequences are
/// replaced is not stated.
#[verifier::external_body]
pub(crate) fn lossy_string(b: &[u8]) -> (r: String)
    ensures
        r@ == utf8_lossy(b@),
        valid_utf8(b@) ==> r@ == decode_utf8(b@),
        (forall|i: int| 0 <= i < b@.len() ==> b@[i] < 128) ==> r@ == b@.map_values(|x: u8| x as char),
{
    String::from_utf8_lossy(b).into_owned()
}

/// The UTF-8 bytes of what `String::from_utf8_lossy` makes of `b`: valid
/// UTF-8 (ASCII among it) unchanged.
pub open spec fn lossy_bytes(b: Seq<u8>) -> Seq<u8> {
    if valid_utf8(b) {
        b
    } else {
        encode_utf8(utf8_lossy(b))
    }
}

/// `b` decoded as by `String::from_utf8_lossy`, as UTF-8 bytes.
/// Valid UTF-8 comes back unchanged.
pub fn lossy_utf8(b: &[u8]) -> (r: Vec<u8>)
    ensures
        r@ == lossy_bytes(b@),
        valid_utf8(b@) ==> r@ == b@,
{
    let s = lossy_string(b);
    proof {
        if valid_utf8(b@) {
            vstd::utf8::decode_utf8_encode_utf8(b@);
        }
    }
    to_vec(s.as_str().as_bytes())
}

/// UTF-8 encoding distributes over concatenation.
pub proof fn lemma_encode_utf8_concat(a: Seq<char>, b: Seq<char>)
    ensures
        encode_utf8(a + b) == encode_utf8(a) + encode_utf8(b),
    decreases a.len(),
{
    if a.len() == 0 {
        assert(a + b =~= b);
        assert(encode_utf8(a) =~= Seq::<u8>::empty());
        assert(encode_utf8(a) + encode_utf8(b) =~= encode_utf8(b));
    } else {
        lemma_encode_utf8_concat(a.drop_first(), b);
        assert((a + b).drop_first() =~= a.drop_first() + b);
        assert((a + b)[0] == a[0]);
        let h = vstd::utf8::encode_scalar(a[0] as u32);
        assert(h + (encode_utf8(a.drop_first()) + encode_utf8(b)) =~= (h + encode_utf8(a.drop_first())) + encode_utf8(b));
    }
}

/// Texts with different characters have different UTF-8 bytes.
pub proof fn lemma_encode_utf8_injective(a: Seq<char>, b: Seq<char>)
    requires
        a != b,
    ensures
        encode_utf8(a) != encode_utf8(b),
{
    vstd::utf8::encode_utf8_decode_utf8(a);
    vstd::utf8::encode_utf8_decode_utf8(b);
}

/// Appends `s` to `out`.
pub fn append(out: &mut Vec<u8>, s: &[u8])
    ensures
        final(out)@ == old(out)@ + s@,
{
    let mut i: usize = 0;
    while i < s.len()
        invariant
            i <= s@.len(),
            out@ == old(out)@ + s@.subrange(0, i as int),
        decreases s@.len() - i,
    {
        out.push(s[i]);
        i = i + 1;
        assert(s@.subrange(0, i as int) == s@.subrange(0, i - 1) + seq![s@[i - 1]]);
    }
    assert(s@.subrange(0, s@.len() as int) == s@);
}

/// Appends the UTF-8 bytes of `s`.
pub fn append_str(out: &mut Vec<u8>, s: &str)
    ensures
        final(out)@ == old(out)@ + s.spec_bytes(),
{
    append(out, s.as_bytes());
}

/// The decimal digits of `n`.
pub open spec fn decimal(n: nat) -> Seq<u8>
    decreases n,
{
    if n < 10 {
        seq![(48 + n) as u8]
    } else {
        decimal(n / 10) + seq![(48 + n % 10) as u8]
    }
}

/// Appends the decimal form of `n`.
pub fn append_decimal(out: &mut Vec<u8>, n: u64)
    ensures
        final(out)@ == old(out)@ + decimal(n as nat),
    decreases n,
{
    if n >= 10 {
        append_decimal(out, n / 10);
    }
    let d: u8 = (n % 10) as u8;
    out.push(48u8 + d);
}

/// Appends the decimal form of a 128-bit `n`.
pub fn append_decimal_wide(out: &mut Vec<u8>, n: u128)
    ensures
        final(out)@ == old(out)@ + decimal(n as nat),
    decreases n,
{
    if n >= 10 {
        append_decimal_wide(out, n / 10);
    }
    let d: u8 = (n % 10) as u8;
    out.push(48u8 + d);
}

/// Every number has at least one digit.
pub proof fn lemma_decimal_len(n: nat)
    ensures
        decimal(n).len() >= 1,
        n >= 10 ==> decimal(n).len() >= 2,
    decreases n,
{
    if n >= 10 {
        lemma_decimal_len(n / 10);
    }
}

/// Different numbers have different decimal forms.
pub proof fn lemma_decimal_injective(a: nat, b: nat)
    requires
        decimal(a) == decimal(b),
    ensures
        a == b,
    decreases a,
{
    lemma_decimal_len(a);
    lemma_decimal_len(b);
    if a >= 10 && b >= 10 {
        let da = decimal(a / 10);
        let db = decimal(b / 10);
        assert(decimal(a)[decimal(a).len() - 1] == (48 + a % 10) as u8);
        assert(decimal(b)[decimal(b).len() - 1] == (48 + b % 10) as u8);
        assert(da =~= decimal(a).subrange(0, decimal(a).len() - 1));
        assert(db =~= decimal(b).subrange(0, decimal(b).len() - 1));
        lemma_decimal_injective(a / 10, b / 10);
        assert(a % 10 == b % 10);
        assert(a == 10 * (a / 10) + a % 10);
        assert(b == 10 * (b / 10) + b % 10);
    } else if a < 10 && b < 10 {
        assert(decimal(a)[0] == (48 + a) as u8);
        assert(decimal(b)[0] == (48 + b) as u8);
    }
}

/// One hexadecimal digit, lower or upper case.
pub open spec fn hex_digit(d: nat, upper: bool) -> u8 {
    if d < 10 {
        (48 + d) as u8
    } else if upper {
        (55 + d) as u8
    } else {
        (87 + d) as u8
    }
}

/// The hexadecimal digits of `n`, without leading zeros.
pub open spec fn hex(n: nat, upper: bool) -> Seq<u8>
    decreases n,
{
    if n < 16 {
        seq![hex_digit(n, upper)]
    } else {
        hex(n / 16, upper) + seq![hex_digit(n % 16, upper)]
    }
}

/// The value of an ASCII digit: `0`-`9`, then `a`-`f` or `A`-`F` as 10-15;
/// -1 for any other byte.
pub open spec fn digit_value(c: u8) -> int {
    if 48 <= c <= 57 {
        c - 48
    } else if 97 <= c <= 102 {
        c - 87
    } else if 65 <= c <= 70 {
        c - 55
    } else {
        -1
    }
}

/// The number the digits `s` write in base `b`, the last digit lowest.
pub open spec fn digits_value(s: Seq<u8>, b: int) -> int
    decreases s.len(),
{
    if s.len() == 0 {
        0
    } else {
        digits_value(s.drop_last(), b) * b + digit_value(s.last())
    }
}

/// `decimal(n)` writes `n` in base ten: decimal digits only, no leading
/// zero (a nonzero number does not start with `0`), reading back as `n`.
pub proof fn lemma_decimal_value(n: nat)
    ensures
        decimal(n).len() >= 1,
        forall|i: int| 0 <= i < decimal(n).len() ==> 48 <= #[trigger] decimal(n)[i] <= 57,
        n > 0 ==> decimal(n)[0] != 48,
        digits_value(decimal(n), 10) == n,
    decreases n,
{
    if n < 10 {
        assert(decimal(n).drop_last() =~= Seq::<u8>::empty());
        assert(digits_value(Seq::<u8>::empty(), 10) == 0);
        assert(digits_value(decimal(n), 10) == digits_value(decimal(n).drop_last(), 10) * 10 + digit_value(decimal(n).last()));
    } else {
        lemma_decimal_value(n / 10);
        let s = decimal(n);
        assert(s.drop_last() =~= decimal(n / 10));
        assert(s[0] == decimal(n / 10)[0]);
        assert forall|i: int| 0 <= i < s.len() implies 48 <= #[trigger] s[i] <= 57 by {
            if i < s.len() - 1 {
                assert(s[i] == decimal(n / 10)[i]);
            }
        }
        assert(digit_value(s.last()) == n % 10);
        assert(n == (n / 10) * 10 + n % 10);
        assert(digits_value(s, 10) == digits_value(s.drop_last(), 10) * 10 + digit_value(s.last()));
    }
}

/// `hex(n, upper)` writes `n` in base sixteen: digits `0`-`9` and `a`-`f`
/// (`A`-`F` when `upper`), no leading zero (a nonzero number does not start
/// with `0`), reading back as `n`.
pub proof fn lemma_hex_value(n: nat, upper: bool)
    ensures
        hex(n, upper).len() >= 1,
        forall|i: int|
            0 <= i < hex(n, upper).len() ==> (48 <= #[trigger] hex(n, upper)[i] <= 57 || (upper && 65 <= hex(n, upper)[i]
                <= 70) || (!upper && 97 <= hex(n, upper)[i] <= 102)),
        n > 0 ==> hex(n, upper)[0] != 48,
        digits_value(hex(n, upper), 16) == n,
    decreases n,
{
    if n < 16 {
        assert(hex(n, upper).drop_last() =~= Seq::<u8>::empty());
        assert(digits_value(Seq::<u8>::empty(), 16) == 0);
        assert(digits_value(hex(n, upper), 16) == digits_value(hex(n, upper).drop_last(), 16) * 16 + digit_value(
            hex(n, upper).last(),
        ));
    } else {
        lemma_hex_value(n / 16, upper);
        let s = hex(n, upper);
        assert(s.drop_last() =~= hex(n / 16, upper));
        assert(s[0] == hex(n / 16, upper)[0]);
        assert forall|i: int|
            0 <= i < s.len() implies (48 <= #[trigger] s[i] <= 57 || (upper && 65 <= s[i] <= 70) || (!upper && 97 <= s[i]
                <= 102)) by {
            if i < s.len() - 1 {
                assert(s[i] == hex(n / 16, upper)[i]);
            }
        }
        assert(digit_value(s.last()) == n % 16);
        assert(n == (n / 16) * 16 + n % 16);
        assert(digits_value(s, 16) == digits_value(s.drop_last(), 16) * 16 + digit_value(s.last()));
    }
}

/// `s` padded on the left with `0` up to `width` bytes.
pub open spec fn zero_pad(s: Seq<u8>, width: nat) -> Seq<u8> {
    if s.len() >= width {
        s
    } else {
        Seq::new((width - s.len()) as nat, |i: int| 48u8) + s
    }
}

fn hex_digit_exec(d: u64, upper: bool) -> (r: u8)
    requires
        d < 16,
    ensures
        r == hex_digit(d as nat, upper),
{
    let b: u8 = d as u8;
    if b < 10 {
        48 + b
    } else if upper {
        55 + b
    } else {
        87 + b
    }
}

/// Appends the hexadecimal form of `n`.
pub fn append_hex(out: &mut Vec<u8>, n: u64, upper: bool)
    ensures
        final(out)@ == old(out)@ + hex(n as nat, upper),
    decreases n,
{
    if n >= 16 {
        append_hex(out, n / 16, upper);
    }
    let d = hex_digit_exec(n % 16, upper);
    out.push(d);
}

/// Appends the hexadecimal form of `n`, zero-padded to `width` digits.
pub fn append_hex_padded(out: &mut Vec<u8>, n: u64, upper: bool, width: usize)
    ensures
        final(out)@ == old(out)@ + zero_pad(hex(n as nat, upper), width as nat),
{
    let mut digits: Vec<u8> = Vec::new();
    append_hex(&mut digits, n, upper);
    let mut k: usize = digits.len();
    let ghost start = out@;
    while k < width
        invariant
            digits@.len() <= k <= width || (k == digits@.len() && k >= width),
            digits@ == hex(n as nat, upper),
            out@ == start + Seq::new((k - digits@.len()) as nat, |i: int| 48u8),
        decreases width - k,
    {
        out.push(48u8);
        k = k + 1;
        assert(out@ =~= start + Seq::new((k - digits@.len()) as nat, |i: int| 48u8));
    }
    append(out, digits.as_slice());
    assert(out@ =~= old(out)@ + zero_pad(hex(n as nat, upper), width as nat));
}

/// The bytes of `s` up to (not including) its first NUL, or all of `s`.
pub open spec fn until_nul(s: Seq<u8>) -> Seq<u8>
    decreases s.len(),
{
    if s.len() == 0 {
        s
    } else if s[0] == 0 {
        Seq::empty()
    } else {
        seq![s[0]] + until_nul(s.drop_first())
    }
}

/// Index of the first NUL of `s` at or after `start`, or `s.len()`.
pub open spec fn nul_index_from(s: Seq<u8>, start: int) -> int
    decreases s.len() - start,
{
    if start >= s.len() || start < 0 {
        s.len() as int
    } else if s[start] == 0 {
        start
    } else {
        nul_index_from(s, start + 1)
    }
}

proof fn lemma_until_nul_index(s: Seq<u8>, start: int)
    requires
        0 <= start <= s.len(),
    ensures
        start <= nul_index_from(s, start) <= s.len(),
        until_nul(s.subrange(start, s.len() as int)) == s.subrange(start, nul_index_from(s, start)),
    decreases s.len() - start,
{
    let t = s.subrange(start, s.len() as int);
    if start == s.len() {
        assert(t =~= Seq::<u8>::empty());
        assert(s.subrange(start, start) =~= Seq::<u8>::empty());
    } else if s[start] == 0 {
        assert(s.subrange(start, start) =~= Seq::<u8>::empty());
    } else {
        lemma_until_nul_index(s, start + 1);
        assert(t.drop_first() =~= s.subrange(start + 1, s.len() as int));
        assert(s.subrange(start, nul_index_from(s, start)) =~= seq![s[start]] + s.subrange(
            start + 1,
            nul_index_from(s, start + 1),
        ));
    }
}

/// Position of the first NUL at or after `start` (or the length).
pub fn find_nul(s: &[u8], start: usize) -> (r: usize)
    requires
        start <= s@.len(),
    ensures
        r as int == nul_index_from(s@, start as int),
        start <= r <= s@.len(),
        until_nul(s@.subrange(start as int, s@.len() as int)) == s@.subrange(start as int, r as int),
{
    proof {
        lemma_until_nul_index(s@, start as int);
    }
    let mut i = start;
    while i < s.len() && s[i] != 0
        invariant
            start <= i <= s@.len(),
            nul_index_from(s@, i as int) == nul_index_from(s@, start as int),
        decreases s@.len() - i,
    {
        i = i + 1;
    }
    i
}

/// Copies a byte slice into a new vector.
pub fn to_vec(s: &[u8]) -> (r: Vec<u8>)
    ensures
        r@ == s@,
{
    let mut r: Vec<u8> = Vec::new();
    append(&mut r, s);
    r
}

/// Copies bytes `s[from..to]` into a new vector.
pub fn sub_vec(s: &[u8], from: usize, to: usize) -> (r: Vec<u8>)
    requires
        from <= to <= s@.len(),
    ensures
        r@ == s@.subrange(from as int, to as int),
{
    let mut r: Vec<u8> = Vec::new();
    let mut i = from;
    while i < to
        invariant
            from <= i <= to <= s@.len(),
            r@ == s@.subrange(from as int, i as int),
        decreases to - i,
    {
        r.push(s[i]);
        i = i + 1;
        assert(r@ =~= s@.subrange(from as int, i as int));
    }
    r
}

/// Byte-wise equality of two slices.
pub fn bytes_eq(a: &[u8], b: &[u8]) -> (r: bool)
    ensures
        r == (a@ == b@),
{
    if a.len() != b.len() {
        return false;
    }
    let mut i: usize = 0;
    while i < a.len()
        invariant
            a@.len() == b@.len(),
            i <= a@.len(),
            forall|j: int| 0 <= j < i ==> a@[j] == b@[j],
        decreases a@.len() - i,
    {
        if a[i] != b[i] {
            return false;
        }
        i = i + 1;
    }
    assert(a@ =~= b@);
    true
}

/// Does `s` start with `prefix`?
pub fn starts_with(s: &[u8], prefix: &[u8]) -> (r: bool)
    ensures
        r == (prefix@.len() <= s@.len() && s@.subrange(0, prefix@.len() as int) == prefix@),
{
    if prefix.len() > s.len() {
        return false;
    }
    let mut i: usize = 0;
    while i < prefix.len()
        invariant
            prefix@.len() <= s@.len(),
            i <= prefix@.len(),
            forall|j: int| 0 <= j < i ==> s@[j] == prefix@[j],
        decreases prefix@.len() - i,
    {
        if s[i] != prefix[i] {
            assert(s@.subrange(0, prefix@.len() as int)[i as int] != prefix@[i as int]);
            return false;
        }
        i = i + 1;
    }
    assert(s@.subrange(0, prefix@.len() as int) =~= prefix@);
    true
}

/// Index of the first element of `s` that satisfies `p`.
pub open spec fn first_index<T>(s: Seq<T>, p: spec_fn(T) -> bool) -> Option<int>
    decreases s.len(),
{
    if s.len() == 0 {
        None
    } else if p(s[0]) {
        Some(0)
    } else {
        match first_index(s.drop_first(), p) {
            Some(i) => Some(i + 1),
            None => None,
        }
    }
}

/// `first_index` by its defining properties.
pub proof fn lemma_first_index<T>(s: Seq<T>, p: spec_fn(T) -> bool)
    ensures
        first_index(s, p) matches Some(i) ==> 0 <= i < s.len() && p(s[i]) && forall|j: int|
            0 <= j < i ==> !p(#[trigger] s[j]),
        first_index(s, p) is None ==> forall|j: int| 0 <= j < s.len() ==> !p(#[trigger] s[j]),
    decreases s.len(),
{
    if s.len() > 0 && !p(s[0]) {
        lemma_first_index(s.drop_first(), p);
        assert forall|j: int| 1 <= j < s.len() implies s[j] == s.drop_first()[j - 1] by {}
    }
}

/// A loop that stops at the first element satisfying `p` finds `first_index`.
pub proof fn lemma_first_index_at<T>(s: Seq<T>, p: spec_fn(T) -> bool, i: int)
    requires
        0 <= i <= s.len(),
        forall|j: int| 0 <= j < i ==> !p(#[trigger] s[j]),
    ensures
        i < s.len() && p(s[i]) ==> first_index(s, p) == Some(i),
        i == s.len() ==> first_index(s, p) is None,
    decreases s.len(),
{
    lemma_first_index(s, p);
}

} // verus!
