//! What the type controller records of a record type, and string-keyed
//! dictionaries of such records that keep their keys in insertion order.

use vstd::prelude::*;
use crate::text::{bytes_eq, first_index, lemma_first_index, lemma_first_index_at, to_vec};
use crate::typ::{opt_bytes, CDType, TypeModel};

verus! {

/// A record type with its reference count, whether a method uses it, and
/// its typedef name once one is made.
pub struct Info {
    pub ty: CDType,
    pub reference_count: usize,
    pub is_used_in_method: bool,
    pub typedef_name: Option<Vec<u8>>,
}

pub struct InfoModel {
    pub ty: TypeModel,
    pub reference_count: nat,
    pub is_used_in_method: bool,
    pub typedef_name: Option<Seq<u8>>,
}

impl View for Info {
    type V = InfoModel;

    open spec fn view(&self) -> InfoModel {
        InfoModel {
            ty: self.ty@,
            reference_count: self.reference_count as nat,
            is_used_in_method: self.is_used_in_method,
            typedef_name: opt_bytes(self.typedef_name),
        }
    }
}

impl Clone for Info {
    fn clone(&self) -> (r: Self)
        ensures
            r@ == self@,
    {
        Info {
            ty: self.ty.clone(),
            reference_count: self.reference_count,
            is_used_in_method: self.is_used_in_method,
            typedef_name: match &self.typedef_name {
                Some(n) => Some(to_vec(n.as_slice())),
                None => None,
            },
        }
    }
}

/// A fresh record: no references, not used in a method, no typedef name.
pub open spec fn fresh(ty: TypeModel) -> InfoModel {
    InfoModel { ty, reference_count: 0, is_used_in_method: false, typedef_name: None }
}

impl Info {
    pub fn new(ty: CDType) -> (r: Info)
        ensures
            r@ == fresh(ty@),
    {
        Info { ty, reference_count: 0, is_used_in_method: false, typedef_name: None }
    }
}

/// The views of a list of records.
pub open spec fn infos_view(v: Seq<Info>) -> Seq<InfoModel> {
    v.map_values(|i: Info| i@)
}

/// The views of a list with one more record.
pub proof fn lemma_infos_view_push(v: Seq<Info>, x: Info)
    ensures
        infos_view(v.push(x)) == infos_view(v).push(x@),
{
    assert(infos_view(v.push(x)) =~= infos_view(v).push(x@));
}

pub fn clone_infos(v: &Vec<Info>) -> (r: Vec<Info>)
    ensures
        infos_view(r@) == infos_view(v@),
{
    let mut r: Vec<Info> = Vec::new();
    let mut i: usize = 0;
    while i < v.len()
        invariant
            i <= v@.len(),
            r@.len() == i,
            forall|j: int| 0 <= j < i ==> (#[trigger] r@[j])@ == v@[j]@,
        decreases v@.len() - i,
    {
        r.push(v[i].clone());
        i = i + 1;
    }
    assert(infos_view(r@) =~= infos_view(v@));
    r
}

pub struct Entry {
    pub key: Vec<u8>,
    pub info: Info,
}

/// A dictionary from byte strings to records.
pub struct Dict {
    pub entries: Vec<Entry>,
}

/// The (key, record) pairs of a dictionary, in insertion order.
pub type DictModel = Seq<(Seq<u8>, InfoModel)>;

pub open spec fn entries_view(es: Seq<Entry>) -> DictModel {
    es.map_values(|e: Entry| (e.key@, e.info@))
}

impl View for Dict {
    type V = DictModel;

    open spec fn view(&self) -> DictModel {
        entries_view(self.entries@)
    }
}

pub open spec fn has_key(k: Seq<u8>) -> spec_fn((Seq<u8>, InfoModel)) -> bool {
    |p: (Seq<u8>, InfoModel)| p.0 == k
}

/// The record stored under `k`.
pub open spec fn lookup(m: DictModel, k: Seq<u8>) -> Option<InfoModel> {
    match first_index(m, has_key(k)) {
        Some(i) => Some(m[i].1),
        None => None,
    }
}

/// `m` with `v` stored under `k`: in place if `k` is there, else at the end.
pub open spec fn upsert(m: DictModel, k: Seq<u8>, v: InfoModel) -> DictModel {
    match first_index(m, has_key(k)) {
        Some(i) => m.update(i, (k, v)),
        None => m.push((k, v)),
    }
}

/// `m` without the entry for `k`.
pub open spec fn remove_key(m: DictModel, k: Seq<u8>) -> DictModel {
    match first_index(m, has_key(k)) {
        Some(i) => m.remove(i),
        None => m,
    }
}

/// The keys of `m`.
pub open spec fn keys_of(m: DictModel) -> Seq<Seq<u8>> {
    m.map_values(|p: (Seq<u8>, InfoModel)| p.0)
}

/// The records of `m`.
pub open spec fn values_of(m: DictModel) -> Seq<InfoModel> {
    m.map_values(|p: (Seq<u8>, InfoModel)| p.1)
}


/// No key occurs twice.
pub open spec fn unique_keys(m: DictModel) -> bool {
    forall|i: int, j: int| 0 <= i < j < m.len() ==> #[trigger] m[i].0 != #[trigger] m[j].0
}

/// A lookup after storing `v` under `k` finds `v` under `k`, and what was
/// there before under every other key.
pub proof fn lemma_lookup_upsert(m: DictModel, k: Seq<u8>, v: InfoModel, k2: Seq<u8>)
    ensures
        lookup(upsert(m, k, v), k2) == if k2 == k {
            Some(v)
        } else {
            lookup(m, k2)
        },
{
    let m2 = upsert(m, k, v);
    lemma_first_index(m, has_key(k));
    lemma_first_index(m, has_key(k2));
    match first_index(m, has_key(k)) {
        Some(i) => {
            if k2 == k {
                lemma_first_index_at(m2, has_key(k), i);
            } else {
                match first_index(m, has_key(k2)) {
                    Some(j) => {
                        assert forall|l: int| 0 <= l < j implies !has_key(k2)(#[trigger] m2[l]) by {
                            if l != i {
                                assert(m2[l] == m[l]);
                            }
                        }
                        lemma_first_index_at(m2, has_key(k2), j);
                    },
                    None => {
                        assert forall|l: int| 0 <= l < m2.len() implies !has_key(k2)(#[trigger] m2[l]) by {
                            if l != i {
                                assert(m2[l] == m[l]);
                            }
                        }
                        lemma_first_index_at(m2, has_key(k2), m2.len() as int);
                    },
                }
            }
        },
        None => {
            if k2 == k {
                assert forall|l: int| 0 <= l < m.len() implies !has_key(k)(#[trigger] m2[l]) by {
                    assert(m2[l] == m[l]);
                }
                lemma_first_index_at(m2, has_key(k), m.len() as int);
            } else {
                match first_index(m, has_key(k2)) {
                    Some(j) => {
                        assert forall|l: int| 0 <= l < j implies !has_key(k2)(#[trigger] m2[l]) by {
                            assert(m2[l] == m[l]);
                        }
                        lemma_first_index_at(m2, has_key(k2), j);
                    },
                    None => {
                        assert forall|l: int| 0 <= l < m2.len() implies !has_key(k2)(#[trigger] m2[l]) by {
                            if l < m.len() {
                                assert(m2[l] == m[l]);
                            }
                        }
                        lemma_first_index_at(m2, has_key(k2), m2.len() as int);
                    },
                }
            }
        },
    }
}

/// Storing keeps every key once.
pub proof fn lemma_upsert_unique(m: DictModel, k: Seq<u8>, v: InfoModel)
    requires
        unique_keys(m),
    ensures
        unique_keys(upsert(m, k, v)),
{
    lemma_first_index(m, has_key(k));
    let m2 = upsert(m, k, v);
    assert forall|i: int, j: int| 0 <= i < j < m2.len() implies #[trigger] m2[i].0 != #[trigger] m2[j].0 by {
        match first_index(m, has_key(k)) {
            Some(p) => {
                assert(m[p].0 == k);
                if i != p && j != p {
                    assert(m2[i] == m[i] && m2[j] == m[j]);
                } else if i == p {
                    assert(m2[j] == m[j]);
                } else {
                    assert(m2[i] == m[i]);
                }
            },
            None => {
                if j < m.len() {
                    assert(m2[i] == m[i] && m2[j] == m[j]);
                } else {
                    assert(m2[i] == m[i]);
                }
            },
        }
    }
}

/// After removing `k`, a lookup finds nothing under `k`, and what was there
/// before under every other key.
pub proof fn lemma_lookup_remove(m: DictModel, k: Seq<u8>, k2: Seq<u8>)
    requires
        unique_keys(m),
    ensures
        lookup(remove_key(m, k), k2) == if k2 == k {
            None
        } else {
            lookup(m, k2)
        },
        unique_keys(remove_key(m, k)),
{
    let m2 = remove_key(m, k);
    lemma_first_index(m, has_key(k));
    lemma_first_index(m, has_key(k2));
    match first_index(m, has_key(k)) {
        Some(i) => {
            assert(m[i].0 == k);
            assert forall|l: int| 0 <= l < m2.len() implies #[trigger] m2[l] == if l < i { m[l] } else { m[l + 1] } by {}
            if k2 == k {
                assert forall|l: int| 0 <= l < m2.len() implies !has_key(k)(#[trigger] m2[l]) by {
                    if l < i {
                        assert(m[l].0 != m[i].0);
                    } else {
                        assert(m[i].0 != m[l + 1].0);
                    }
                }
                lemma_first_index_at(m2, has_key(k), m2.len() as int);
            } else {
                match first_index(m, has_key(k2)) {
                    Some(j) => {
                        assert(j != i);
                        let j2 = if j < i { j } else { j - 1 };
                        assert forall|l: int| 0 <= l < j2 implies !has_key(k2)(#[trigger] m2[l]) by {
                            if l >= i {
                                assert(m2[l] == m[l + 1]);
                            }
                        }
                        lemma_first_index_at(m2, has_key(k2), j2);
                    },
                    None => {
                        assert forall|l: int| 0 <= l < m2.len() implies !has_key(k2)(#[trigger] m2[l]) by {
                            if l >= i {
                                assert(m2[l] == m[l + 1]);
                            }
                        }
                        lemma_first_index_at(m2, has_key(k2), m2.len() as int);
                    },
                }
            }
            assert forall|a: int, b: int| 0 <= a < b < m2.len() implies #[trigger] m2[a].0 != #[trigger] m2[b].0 by {
                let a1 = if a < i { a } else { a + 1 };
                let b1 = if b < i { b } else { b + 1 };
                assert(m2[a] == m[a1] && m2[b] == m[b1]);
            }
        },
        None => {},
    }
}

impl Dict {
    pub fn new() -> (d: Dict)
        ensures
            d@ == Seq::<(Seq<u8>, InfoModel)>::empty(),
    {
        let d = Dict { entries: Vec::new() };
        assert(d@ =~= Seq::<(Seq<u8>, InfoModel)>::empty());
        d
    }

    /// The position of the entry for `key`.
    pub fn find(&self, key: &[u8]) -> (r: Option<usize>)
        ensures
            match r {
                Some(i) => first_index(self@, has_key(key@)) == Some(i as int),
                None => first_index(self@, has_key(key@)) is None,
            },
    {
        let mut i: usize = 0;
        while i < self.entries.len()
            invariant
                i <= self.entries@.len(),
                self@.len() == self.entries@.len(),
                forall|j: int| 0 <= j < i ==> !has_key(key@)(#[trigger] self@[j]),
            decreases self.entries@.len() - i,
        {
            if bytes_eq(self.entries[i].key.as_slice(), key) {
                proof {
                    lemma_first_index_at(self@, has_key(key@), i as int);
                }
                return Some(i);
            }
            i = i + 1;
        }
        proof {
            lemma_first_index_at(self@, has_key(key@), i as int);
        }
        None
    }

    pub fn get(&self, key: &[u8]) -> (r: Option<&Info>)
        ensures
            match r {
                Some(i) => lookup(self@, key@) == Some(i@),
                None => lookup(self@, key@) is None,
            },
    {
        match self.find(key) {
            Some(i) => {
                proof {
                    lemma_first_index(self@, has_key(key@));
                }
                Some(&self.entries[i].info)
            },
            None => None,
        }
    }

    pub fn contains_key(&self, key: &[u8]) -> (r: bool)
        ensures
            r == lookup(self@, key@) is Some,
    {
        self.find(key).is_some()
    }

    /// Store `info` under `key` (see `upsert`).
    pub fn insert(&mut self, key: Vec<u8>, info: Info)
        ensures
            final(self)@ == upsert(old(self)@, key@, info@),
    {
        match self.find(key.as_slice()) {
            Some(i) => {
                proof {
                    lemma_first_index(old(self)@, has_key(key@));
                }
                let ghost k = key@;
                let ghost v = info@;
                self.entries.set(i, Entry { key, info });
                assert(self@ =~= upsert(old(self)@, k, v));
            },
            None => {
                let ghost k = key@;
                let ghost v = info@;
                self.entries.push(Entry { key, info });
                assert(self@ =~= upsert(old(self)@, k, v));
            },
        }
    }

    /// Take out the entry for `key`.
    pub fn remove(&mut self, key: &[u8]) -> (r: Option<Info>)
        ensures
            final(self)@ == remove_key(old(self)@, key@),
            match r {
                Some(i) => lookup(old(self)@, key@) == Some(i@),
                None => lookup(old(self)@, key@) is None,
            },
    {
        match self.find(key) {
            Some(i) => {
                proof {
                    lemma_first_index(old(self)@, has_key(key@));
                }
                let e = self.entries.remove(i);
                assert(self@ =~= remove_key(old(self)@, key@));
                Some(e.info)
            },
            None => None,
        }
    }

    /// Copies of the records, in insertion order.
    pub fn values(&self) -> (r: Vec<Info>)
        ensures
            infos_view(r@) == values_of(self@),
    {
        let mut r: Vec<Info> = Vec::new();
        let mut i: usize = 0;
        while i < self.entries.len()
            invariant
                i <= self.entries@.len(),
                r@.len() == i,
                forall|j: int| 0 <= j < i ==> (#[trigger] r@[j])@ == self.entries@[j].info@,
            decreases self.entries@.len() - i,
        {
            r.push(self.entries[i].info.clone());
            i = i + 1;
        }
        assert(infos_view(r@) =~= values_of(self@));
        r
    }

    /// Copies of the keys, in insertion order.
    pub fn keys(&self) -> (r: Vec<Vec<u8>>)
        ensures
            crate::typ::names_of(r@) == keys_of(self@),
    {
        let mut r: Vec<Vec<u8>> = Vec::new();
        let mut i: usize = 0;
        while i < self.entries.len()
            invariant
                i <= self.entries@.len(),
                r@.len() == i,
                forall|j: int| 0 <= j < i ==> (#[trigger] r@[j])@ == self.entries@[j].key@,
            decreases self.entries@.len() - i,
        {
            r.push(to_vec(self.entries[i].key.as_slice()));
            i = i + 1;
        }
        assert(crate::typ::names_of(r@) =~= keys_of(self@));
        r
    }
}

} // verus!
