//! Byte-wise lexicographic order, and stable insertion sorts by it.

use vstd::prelude::*;
use crate::text::{first_index, lemma_first_index, lemma_first_index_at};

verus! {

broadcast use vstd::seq_lib::group_to_multiset_ensures;

/// `a` comes before `b` byte by byte (a proper prefix comes first), as
/// `Ord` orders strings.
pub open spec fn bytes_lt(a: Seq<u8>, b: Seq<u8>) -> bool
    decreases a.len(),
{
    if b.len() == 0 {
        false
    } else if a.len() == 0 {
        true
    } else if a[0] != b[0] {
        a[0] < b[0]
    } else {
        bytes_lt(a.drop_first(), b.drop_first())
    }
}

pub proof fn lemma_bytes_lt_irreflexive(a: Seq<u8>)
    ensures
        !bytes_lt(a, a),
    decreases a.len(),
{
    if a.len() > 0 {
        lemma_bytes_lt_irreflexive(a.drop_first());
    }
}

pub proof fn lemma_bytes_lt_transitive(a: Seq<u8>, b: Seq<u8>, c: Seq<u8>)
    requires
        bytes_lt(a, b),
        bytes_lt(b, c),
    ensures
        bytes_lt(a, c),
    decreases a.len(),
{
    if a.len() > 0 && b.len() > 0 && c.len() > 0 && a[0] == b[0] && b[0] == c[0] {
        lemma_bytes_lt_transitive(a.drop_first(), b.drop_first(), c.drop_first());
    }
}

pub proof fn lemma_bytes_lt_total(a: Seq<u8>, b: Seq<u8>)
    ensures
        a == b || bytes_lt(a, b) || bytes_lt(b, a),
    decreases a.len(),
{
    if a.len() == 0 {
        if b.len() == 0 {
            assert(a =~= b);
        }
    } else if b.len() == 0 {
    } else if a[0] != b[0] {
    } else {
        let ta = a.drop_first();
        let tb = b.drop_first();
        lemma_bytes_lt_total(ta, tb);
        if ta == tb {
            assert(a =~= b) by {
                assert forall|k: int| 0 <= k < a.len() implies a[k] == b[k] by {
                    if k > 0 {
                        assert(a[k] == ta[k - 1]);
                        assert(b[k] == tb[k - 1]);
                    }
                }
            }
        }
    }
}

pub proof fn lemma_bytes_lt_asymmetric(a: Seq<u8>, b: Seq<u8>)
    requires
        bytes_lt(a, b),
    ensures
        !bytes_lt(b, a),
{
    if bytes_lt(b, a) {
        lemma_bytes_lt_transitive(a, b, a);
        lemma_bytes_lt_irreflexive(a);
    }
}

/// Does `a` come before `b`?
pub fn bytes_less(a: &[u8], b: &[u8]) -> (r: bool)
    ensures
        r == bytes_lt(a@, b@),
{
    let mut i: usize = 0;
    assert(a@.subrange(0, a@.len() as int) =~= a@);
    assert(b@.subrange(0, b@.len() as int) =~= b@);
    while i < a.len() && i < b.len()
        invariant
            i <= a@.len(),
            i <= b@.len(),
            forall|j: int| 0 <= j < i ==> a@[j] == b@[j],
            bytes_lt(a@, b@) == bytes_lt(a@.subrange(i as int, a@.len() as int), b@.subrange(i as int, b@.len() as int)),
        decreases a@.len() - i,
    {
        let ghost sa = a@.subrange(i as int, a@.len() as int);
        let ghost sb = b@.subrange(i as int, b@.len() as int);
        if a[i] != b[i] {
            assert(sa[0] == a@[i as int]);
            assert(sb[0] == b@[i as int]);
            return a[i] < b[i];
        }
        assert(sa.drop_first() =~= a@.subrange(i + 1, a@.len() as int));
        assert(sb.drop_first() =~= b@.subrange(i + 1, b@.len() as int));
        i = i + 1;
    }
    i < b.len()
}


/// The entries that `x` sorts before under `lt`.
pub open spec fn after_in<T>(lt: spec_fn(T, T) -> bool, x: T) -> spec_fn(T) -> bool {
    |y: T| lt(x, y)
}

/// `s` with `x` inserted before the first entry it sorts before.
pub open spec fn insert_in_order<T>(s: Seq<T>, x: T, lt: spec_fn(T, T) -> bool) -> Seq<T> {
    match first_index(s, after_in(lt, x)) {
        Some(i) => s.insert(i, x),
        None => s.push(x),
    }
}

/// `s` sorted under `lt` by insertion, entries that sort alike in their
/// order: what a stable sort by `lt` gives.
pub open spec fn insertion_sorted<T>(s: Seq<T>, lt: spec_fn(T, T) -> bool) -> Seq<T>
    decreases s.len(),
{
    if s.len() == 0 {
        Seq::empty()
    } else {
        insert_in_order(insertion_sorted(s.drop_last(), lt), s.last(), lt)
    }
}

/// Byte order as a relation.
pub open spec fn byte_order() -> spec_fn(Seq<u8>, Seq<u8>) -> bool {
    |a: Seq<u8>, b: Seq<u8>| bytes_lt(a, b)
}


/// `lt` is a strict order: irreflexive and transitive.
pub open spec fn strict_order<T>(lt: spec_fn(T, T) -> bool) -> bool {
    &&& forall|a: T| !#[trigger] lt(a, a)
    &&& forall|a: T, b: T, c: T| #[trigger] lt(a, b) && #[trigger] lt(b, c) ==> lt(a, c)
}

/// No entry sorts before one ahead of it under `lt`.
pub open spec fn sorted_by<T>(s: Seq<T>, lt: spec_fn(T, T) -> bool) -> bool {
    forall|i: int, j: int| 0 <= i < j < s.len() ==> !lt(#[trigger] s[j], #[trigger] s[i])
}

/// Sorting by insertion keeps every entry, as often as it occurs.
pub proof fn lemma_insertion_sorted_permutes<T>(s: Seq<T>, lt: spec_fn(T, T) -> bool)
    ensures
        insertion_sorted(s, lt).len() == s.len(),
        insertion_sorted(s, lt).to_multiset() == s.to_multiset(),
    decreases s.len(),
{
    if s.len() > 0 {
        let init = s.drop_last();
        let x = s.last();
        lemma_insertion_sorted_permutes(init, lt);
        let t = insertion_sorted(init, lt);
        lemma_first_index(t, after_in(lt, x));
        match first_index(t, after_in(lt, x)) {
            Some(i) => {
                vstd::seq_lib::to_multiset_insert(t, i, x);
            },
            None => {
                vstd::seq_lib::to_multiset_build(t, x);
            },
        }
        assert(s =~= init.push(x));
        vstd::seq_lib::to_multiset_build(init, x);
    }
}

/// Sorting by insertion under a strict order puts the entries in order.
pub proof fn lemma_insertion_sorted_sorted<T>(s: Seq<T>, lt: spec_fn(T, T) -> bool)
    requires
        strict_order(lt),
    ensures
        sorted_by(insertion_sorted(s, lt), lt),
    decreases s.len(),
{
    if s.len() > 0 {
        let x = s.last();
        lemma_insertion_sorted_sorted(s.drop_last(), lt);
        let t = insertion_sorted(s.drop_last(), lt);
        lemma_first_index(t, after_in(lt, x));
        let r = insertion_sorted(s, lt);
        let pos: int = match first_index(t, after_in(lt, x)) {
            Some(i) => i,
            None => t.len() as int,
        };
        assert(r =~= t.insert(pos, x)) by {
            if pos == t.len() {
                assert(t.insert(pos, x) =~= t.push(x));
            }
        }
        assert forall|i: int, j: int| 0 <= i < j < r.len() implies !lt(#[trigger] r[j], #[trigger] r[i]) by {
            if i < pos && j == pos {
                assert(!after_in(lt, x)(t[i]));
            } else if i == pos && j > pos {
                assert(after_in(lt, x)(t[pos]));
                if lt(t[j - 1], x) {
                    assert(lt(t[j - 1], t[pos]));
                    if j - 1 == pos {
                        assert(!lt(t[pos], t[pos]));
                    }
                }
            } else if i < pos && j > pos {
                assert(r[i] == t[i]);
                assert(r[j] == t[j - 1]);
            } else if i > pos {
                assert(r[i] == t[i - 1]);
                assert(r[j] == t[j - 1]);
            }
        }
    }
}

/// Byte order is a strict order.
pub proof fn lemma_byte_order_strict()
    ensures
        strict_order(byte_order()),
{
    assert forall|a: Seq<u8>| !#[trigger] byte_order()(a, a) by {
        lemma_bytes_lt_irreflexive(a);
    }
    assert forall|a: Seq<u8>, b: Seq<u8>, c: Seq<u8>| #[trigger] byte_order()(a, b) && #[trigger] byte_order()(b, c) implies byte_order()(a, c) by {
        lemma_bytes_lt_transitive(a, b, c);
    }
}

/// Every element comes no later than the ones after it.
pub open spec fn sorted_bytes(s: Seq<Seq<u8>>) -> bool {
    forall|i: int, j: int| 0 <= i < j < s.len() ==> !bytes_lt(#[trigger] s[j], #[trigger] s[i])
}

/// The names of `v`, sorted (a permutation of them in byte order).
pub fn sort_names(v: &Vec<Vec<u8>>) -> (r: Vec<Vec<u8>>)
    ensures
        sorted_bytes(crate::typ::names_of(r@)),
        crate::typ::names_of(r@).to_multiset() == crate::typ::names_of(v@).to_multiset(),
        crate::typ::names_of(r@) == insertion_sorted(crate::typ::names_of(v@), byte_order()),
{
    let mut out: Vec<Vec<u8>> = Vec::new();
    let mut k: usize = 0;
    while k < v.len()
        invariant
            k <= v@.len(),
            sorted_bytes(crate::typ::names_of(out@)),
            crate::typ::names_of(out@).to_multiset() == crate::typ::names_of(v@.subrange(0, k as int)).to_multiset(),
            crate::typ::names_of(out@) == insertion_sorted(crate::typ::names_of(v@.subrange(0, k as int)), byte_order()),
        decreases v@.len() - k,
    {
        let x = crate::text::to_vec(v[k].as_slice());
        let ghost s = crate::typ::names_of(out@);
        let mut pos: usize = 0;
        while pos < out.len() && !bytes_less(x.as_slice(), out[pos].as_slice())
            invariant
                pos <= out@.len(),
                s == crate::typ::names_of(out@),
                forall|j: int| 0 <= j < pos ==> !bytes_lt(x@, #[trigger] s[j]),
            decreases out@.len() - pos,
        {
            pos = pos + 1;
        }
        let ghost xs = x@;
        proof {
            lemma_first_index_at(s, after_in(byte_order(), xs), pos as int);
        }
        out.insert(pos, x);
        proof {
            let t = crate::typ::names_of(out@);
            let q = crate::typ::names_of(v@.subrange(0, k + 1));
            assert(q.drop_last() =~= crate::typ::names_of(v@.subrange(0, k as int)));
            assert(q.last() == xs);
            assert(t =~= insert_in_order(s, xs, byte_order()));
            assert(t =~= s.insert(pos as int, xs));
            assert forall|i: int, j: int| 0 <= i < j < t.len() implies !bytes_lt(#[trigger] t[j], #[trigger] t[i]) by {
                if i < pos && j == pos {
                    lemma_bytes_lt_total(xs, s[i]);
                    if bytes_lt(xs, s[i]) {
                        assert(false);
                    }
                    if bytes_lt(s[i], xs) {
                        lemma_bytes_lt_asymmetric(s[i], xs);
                    }
                } else if i == pos && j > pos {
                    if pos < s.len() {
                        assert(bytes_lt(xs, s[pos as int]));
                        if j - 1 > pos {
                            if bytes_lt(s[j - 1], xs) {
                                lemma_bytes_lt_transitive(s[j - 1], xs, s[pos as int]);
                            }
                        } else {
                            lemma_bytes_lt_asymmetric(xs, s[pos as int]);
                        }
                    }
                } else if i < pos && j > pos {
                    assert(t[i] == s[i]);
                    assert(t[j] == s[j - 1]);
                } else if i > pos {
                    assert(t[i] == s[i - 1]);
                    assert(t[j] == s[j - 1]);
                }
            }
            assert(v@.subrange(0, k + 1) =~= v@.subrange(0, k as int).push(v@[k as int]));
            assert(crate::typ::names_of(v@.subrange(0, k + 1)) =~= crate::typ::names_of(v@.subrange(0, k as int)).push(
                xs,
            ));
        }
        k = k + 1;
    }
    assert(v@.subrange(0, v@.len() as int) =~= v@);
    out
}


pub open spec fn sorts_after<T>(x: (Seq<u8>, T)) -> spec_fn((Seq<u8>, T)) -> bool {
    |y: (Seq<u8>, T)| bytes_lt(x.0, y.0)
}

/// `s` with `x` inserted after every entry whose name does not sort after
/// it.
pub open spec fn insert_by_name<T>(s: Seq<(Seq<u8>, T)>, x: (Seq<u8>, T)) -> Seq<(Seq<u8>, T)> {
    match first_index(s, sorts_after(x)) {
        Some(i) => s.insert(i, x),
        None => s.push(x),
    }
}

/// `s` sorted by name, entries with equal names in their order: what a
/// stable sort by name gives.
pub open spec fn sorted_by_name<T>(s: Seq<(Seq<u8>, T)>) -> Seq<(Seq<u8>, T)>
    decreases s.len(),
{
    if s.len() == 0 {
        Seq::empty()
    } else {
        insert_by_name(sorted_by_name(s.drop_last()), s.last())
    }
}

/// No entry's name sorts before the name of an entry ahead of it.
pub open spec fn sorted_names<T>(s: Seq<(Seq<u8>, T)>) -> bool {
    forall|i: int, j: int| 0 <= i < j < s.len() ==> !bytes_lt(#[trigger] s[j].0, #[trigger] s[i].0)
}

/// Sorting by name keeps every entry, as often as it occurs.
pub proof fn lemma_sorted_by_name_permutes<T>(s: Seq<(Seq<u8>, T)>)
    ensures
        sorted_by_name(s).len() == s.len(),
        sorted_by_name(s).to_multiset() == s.to_multiset(),
    decreases s.len(),
{
    if s.len() > 0 {
        let init = s.drop_last();
        let x = s.last();
        lemma_sorted_by_name_permutes(init);
        let t = sorted_by_name(init);
        lemma_first_index(t, sorts_after(x));
        match first_index(t, sorts_after(x)) {
            Some(i) => {
                vstd::seq_lib::to_multiset_insert(t, i, x);
            },
            None => {
                vstd::seq_lib::to_multiset_build(t, x);
            },
        }
        assert(s =~= init.push(x));
        vstd::seq_lib::to_multiset_build(init, x);
    }
}

/// Sorting by name puts the names in order.
pub proof fn lemma_sorted_by_name_sorted<T>(s: Seq<(Seq<u8>, T)>)
    ensures
        sorted_names(sorted_by_name(s)),
    decreases s.len(),
{
    if s.len() > 0 {
        let x = s.last();
        lemma_sorted_by_name_sorted(s.drop_last());
        let t = sorted_by_name(s.drop_last());
        lemma_first_index(t, sorts_after(x));
        let r = sorted_by_name(s);
        let pos: int = match first_index(t, sorts_after(x)) {
            Some(i) => i,
            None => t.len() as int,
        };
        assert(r =~= t.insert(pos, x)) by {
            if pos == t.len() {
                assert(t.insert(pos, x) =~= t.push(x));
            }
        }
        assert forall|i: int, j: int| 0 <= i < j < r.len() implies !bytes_lt(#[trigger] r[j].0, #[trigger] r[i].0) by {
            if i < pos && j == pos {
                assert(!bytes_lt(x.0, t[i].0));
                lemma_bytes_lt_total(x.0, t[i].0);
                if bytes_lt(t[i].0, x.0) {
                    lemma_bytes_lt_asymmetric(t[i].0, x.0);
                }
            } else if i == pos && j > pos {
                assert(bytes_lt(x.0, t[pos].0));
                if j - 1 > pos {
                    if bytes_lt(t[j - 1].0, x.0) {
                        lemma_bytes_lt_transitive(t[j - 1].0, x.0, t[pos].0);
                    }
                } else {
                    lemma_bytes_lt_asymmetric(x.0, t[pos].0);
                }
            } else if i < pos && j > pos {
                assert(r[i] == t[i]);
                assert(r[j] == t[j - 1]);
            } else if i > pos {
                assert(r[i] == t[i - 1]);
                assert(r[j] == t[j - 1]);
            }
        }
    }
}

/// Sorting by name is stable: where the second components count up along
/// `s` (as the indices of `keyed` do), entries of equal name keep that order.
pub proof fn lemma_sorted_by_name_stable(s: Seq<(Seq<u8>, int)>)
    requires
        forall|i: int, j: int| 0 <= i < j < s.len() ==> (#[trigger] s[i]).1 < (#[trigger] s[j]).1,
    ensures
        forall|a: int, b: int|
            0 <= a < b < sorted_by_name(s).len() && (#[trigger] sorted_by_name(s)[a]).0 == (
            #[trigger] sorted_by_name(s)[b]).0 ==> sorted_by_name(s)[a].1 < sorted_by_name(s)[b].1,
    decreases s.len(),
{
    if s.len() > 0 {
        let init = s.drop_last();
        let x = s.last();
        assert forall|i: int, j: int| 0 <= i < j < init.len() implies (#[trigger] init[i]).1 < (#[trigger] init[j]).1 by {
            assert(init[i] == s[i]);
            assert(init[j] == s[j]);
        }
        lemma_sorted_by_name_stable(init);
        lemma_sorted_by_name_sorted(init);
        lemma_sorted_by_name_permutes(init);
        let t = sorted_by_name(init);
        lemma_first_index(t, sorts_after(x));
        let r = sorted_by_name(s);
        let pos: int = match first_index(t, sorts_after(x)) {
            Some(i) => i,
            None => t.len() as int,
        };
        assert(r =~= t.insert(pos, x)) by {
            if pos == t.len() {
                assert(t.insert(pos, x) =~= t.push(x));
            }
        }
        assert forall|k: int| 0 <= k < t.len() implies (#[trigger] t[k]).1 < x.1 by {
            assert(t.to_multiset().count(t[k]) > 0);
            assert(init.contains(t[k]));
            let m = choose|m: int| 0 <= m < init.len() && init[m] == t[k];
            assert(s[m] == init[m]);
            assert(s[m].1 < s[s.len() - 1].1);
        }
        assert forall|k: int| pos <= k < t.len() implies (#[trigger] t[k]).0 != x.0 by {
            assert(bytes_lt(x.0, t[pos].0));
            if t[k].0 == x.0 {
                if k == pos {
                    lemma_bytes_lt_irreflexive(x.0);
                } else {
                    assert(!bytes_lt(t[k].0, t[pos].0));
                }
            }
        }
        assert forall|a: int, b: int|
            0 <= a < b < r.len() && (#[trigger] r[a]).0 == (#[trigger] r[b]).0 implies r[a].1 < r[b].1 by {
            if b < pos {
                assert(r[a] == t[a]);
                assert(r[b] == t[b]);
            } else if b == pos {
                assert(r[a] == t[a]);
                assert(t[a].1 < x.1);
            } else if a == pos {
                assert(r[b] == t[b - 1]);
                assert(t[b - 1].0 != x.0);
            } else if a < pos {
                assert(r[a] == t[a]);
                assert(r[b] == t[b - 1]);
            } else {
                assert(r[a] == t[a - 1]);
                assert(r[b] == t[b - 1]);
            }
        }
    }
}

/// Each name with its index.
pub open spec fn keyed(keys: Seq<Vec<u8>>) -> Seq<(Seq<u8>, int)> {
    Seq::new(keys.len(), |i: int| (keys[i]@, i))
}

/// The names at the given indices, each with its index.
pub open spec fn keyed_at(keys: Seq<Vec<u8>>, idx: Seq<usize>) -> Seq<(Seq<u8>, int)> {
    idx.map_values(|i: usize| (keys[i as int]@, i as int))
}

/// The order in which a stable sort by name puts the entries: indices
/// into `keys`.
pub fn sort_indices(keys: &Vec<Vec<u8>>) -> (r: Vec<usize>)
    ensures
        keyed_at(keys@, r@) == sorted_by_name(keyed(keys@)),
        forall|j: int| 0 <= j < r@.len() ==> #[trigger] r@[j] < keys@.len(),
{
    let mut out: Vec<usize> = Vec::new();
    let mut k: usize = 0;
    while k < keys.len()
        invariant
            k <= keys@.len(),
            keyed_at(keys@, out@) == sorted_by_name(keyed(keys@).subrange(0, k as int)),
            forall|j: int| 0 <= j < out@.len() ==> #[trigger] out@[j] < k,
        decreases keys@.len() - k,
    {
        let ghost s = keyed_at(keys@, out@);
        let ghost xm = (keys@[k as int]@, k as int);
        let mut pos: usize = 0;
        while pos < out.len() && !bytes_less(keys[k].as_slice(), keys[out[pos]].as_slice())
            invariant
                k < keys@.len(),
                pos <= out@.len(),
                s == keyed_at(keys@, out@),
                xm == (keys@[k as int]@, k as int),
                forall|j: int| 0 <= j < out@.len() ==> #[trigger] out@[j] < k,
                forall|j: int| 0 <= j < pos ==> !sorts_after(xm)(#[trigger] s[j]),
            decreases out@.len() - pos,
        {
            pos = pos + 1;
        }
        proof {
            lemma_first_index_at(s, sorts_after(xm), pos as int);
        }
        out.insert(pos, k);
        proof {
            let q = keyed(keys@).subrange(0, k + 1);
            assert(q.drop_last() =~= keyed(keys@).subrange(0, k as int));
            assert(q.last() == xm);
            assert(keyed_at(keys@, out@) =~= insert_by_name(s, xm));
        }
        k = k + 1;
    }
    assert(keyed(keys@).subrange(0, keys@.len() as int) =~= keyed(keys@));
    out
}

} // verus!
