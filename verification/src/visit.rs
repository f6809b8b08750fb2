//! The method and property lines of a class, protocol or category:
//! properties are printed in place of their first accessor, and the rest
//! after the methods.

use vstd::prelude::*;
use vstd::string::StringSliceAdditionalSpecFns;
use crate::objc::{method_list, property_list, Method, Property};
use crate::order::{bytes_less, insert_by_name, sorted_by_name, sorts_after};
use crate::output::{format_method, format_property, method_text, property_text, Options};
use crate::property::{parse_property, prop_model};
use crate::render::{naming_of, Naming};
use crate::text::{append, append_str, bytes_eq, first_index, lemma_first_index, lemma_first_index_at, to_vec};
use crate::typecontroller::{ControllerModel, TypeController};

verus! {

/// A (name, text) pair: a method's selector and types, or a property's
/// name and attributes.
pub type Named = (Seq<u8>, Seq<u8>);

fn copy_method(m: &Method) -> (r: Method)
    ensures
        r.name@ == m.name@,
        r.type_string@ == m.type_string@,
{
    Method { name: to_vec(m.name.as_slice()), type_string: to_vec(m.type_string.as_slice()) }
}

fn copy_property(p: &Property) -> (r: Property)
    ensures
        r.name@ == p.name@,
        r.attributes@ == p.attributes@,
{
    Property { name: to_vec(p.name.as_slice()), attributes: to_vec(p.attributes.as_slice()) }
}

/// The methods sorted by selector (see `sorted_by_name`).
pub fn sort_methods(v: &Vec<Method>) -> (r: Vec<Method>)
    ensures
        method_list(r@) == sorted_by_name(method_list(v@)),
{
    let mut out: Vec<Method> = Vec::new();
    let mut k: usize = 0;
    while k < v.len()
        invariant
            k <= v@.len(),
            method_list(out@) == sorted_by_name(method_list(v@.subrange(0, k as int))),
        decreases v@.len() - k,
    {
        let x = copy_method(&v[k]);
        let ghost s = method_list(out@);
        let ghost xm = (x.name@, x.type_string@);
        let mut pos: usize = 0;
        while pos < out.len() && !bytes_less(x.name.as_slice(), out[pos].name.as_slice())
            invariant
                pos <= out@.len(),
                s == method_list(out@),
                xm == (x.name@, x.type_string@),
                forall|j: int| 0 <= j < pos ==> !sorts_after(xm)(#[trigger] s[j]),
            decreases out@.len() - pos,
        {
            pos = pos + 1;
        }
        proof {
            lemma_first_index_at(s, sorts_after(xm), pos as int);
        }
        out.insert(pos, x);
        proof {
            let q = method_list(v@.subrange(0, k + 1));
            assert(q.drop_last() =~= method_list(v@.subrange(0, k as int)));
            assert(q.last() == xm);
            assert(method_list(out@) =~= insert_by_name(s, xm));
        }
        k = k + 1;
    }
    assert(v@.subrange(0, v@.len() as int) =~= v@);
    out
}

/// The properties sorted by name (see `sorted_by_name`).
pub fn sort_properties(v: &Vec<Property>) -> (r: Vec<Property>)
    ensures
        property_list(r@) == sorted_by_name(property_list(v@)),
{
    let mut out: Vec<Property> = Vec::new();
    let mut k: usize = 0;
    while k < v.len()
        invariant
            k <= v@.len(),
            property_list(out@) == sorted_by_name(property_list(v@.subrange(0, k as int))),
        decreases v@.len() - k,
    {
        let x = copy_property(&v[k]);
        let ghost s = property_list(out@);
        let ghost xm = (x.name@, x.attributes@);
        let mut pos: usize = 0;
        while pos < out.len() && !bytes_less(x.name.as_slice(), out[pos].name.as_slice())
            invariant
                pos <= out@.len(),
                s == property_list(out@),
                xm == (x.name@, x.attributes@),
                forall|j: int| 0 <= j < pos ==> !sorts_after(xm)(#[trigger] s[j]),
            decreases out@.len() - pos,
        {
            pos = pos + 1;
        }
        proof {
            lemma_first_index_at(s, sorts_after(xm), pos as int);
        }
        out.insert(pos, x);
        proof {
            let q = property_list(v@.subrange(0, k + 1));
            assert(q.drop_last() =~= property_list(v@.subrange(0, k as int)));
            assert(q.last() == xm);
            assert(property_list(out@) =~= insert_by_name(s, xm));
        }
        k = k + 1;
    }
    assert(v@.subrange(0, v@.len() as int) =~= v@);
    out
}

pub open spec fn key_is<V>(k: Seq<u8>) -> spec_fn((Seq<u8>, V)) -> bool {
    |p: (Seq<u8>, V)| p.0 == k
}

/// The value stored under `k`.
pub open spec fn assoc_get<V>(m: Seq<(Seq<u8>, V)>, k: Seq<u8>) -> Option<V> {
    match first_index(m, key_is::<V>(k)) {
        Some(i) => Some(m[i].1),
        None => None,
    }
}

/// `m` with `v` stored under `k` (in place, or at the end).
pub open spec fn assoc_put<V>(m: Seq<(Seq<u8>, V)>, k: Seq<u8>, v: V) -> Seq<(Seq<u8>, V)> {
    match first_index(m, key_is::<V>(k)) {
        Some(i) => m.update(i, (k, v)),
        None => m.push((k, v)),
    }
}

/// `m` without the entry for `k`.
pub open spec fn assoc_del<V>(m: Seq<(Seq<u8>, V)>, k: Seq<u8>) -> Seq<(Seq<u8>, V)> {
    match first_index(m, key_is::<V>(k)) {
        Some(i) => m.remove(i),
        None => m,
    }
}

/// The properties not printed yet, by name, and the property each accessor
/// selector belongs to.
pub struct PropState {
    pub by_name: Seq<(Seq<u8>, Named)>,
    pub by_accessor: Seq<(Seq<u8>, Seq<u8>)>,
}

/// The state after noting the first `k` properties: each under its name,
/// its getter and (unless read-only) its setter naming it.
pub open spec fn state_of(props: Seq<Named>, k: nat) -> PropState
    decreases k,
{
    if k == 0 || k > props.len() {
        PropState { by_name: Seq::empty(), by_accessor: Seq::empty() }
    } else {
        let st = state_of(props, (k - 1) as nat);
        let p = props[k - 1];
        let i = prop_model(p.0, p.1);
        let acc = assoc_put(st.by_accessor, i.getter, p.0);
        PropState {
            by_name: assoc_put(st.by_name, p.0, p),
            by_accessor: if i.readonly { acc } else { assoc_put(acc, i.setter, p.0) },
        }
    }
}

/// Take the property of accessor `sel` out of the state.
pub open spec fn take_for(st: PropState, sel: Seq<u8>) -> (PropState, Option<Named>) {
    match assoc_get(st.by_accessor, sel) {
        None => (st, None),
        Some(name) => (PropState { by_name: assoc_del(st.by_name, name), ..st }, assoc_get(st.by_name, name)),
    }
}


/// No name occurs twice.
pub open spec fn unique_names<V>(m: Seq<(Seq<u8>, V)>) -> bool {
    forall|i: int, j: int| 0 <= i < j < m.len() ==> #[trigger] m[i].0 != #[trigger] m[j].0
}

/// Each property is stored under its own name.
pub open spec fn keyed_by_name(m: Seq<(Seq<u8>, Named)>) -> bool {
    forall|i: int| 0 <= i < m.len() ==> (#[trigger] m[i]).0 == m[i].1.0
}

proof fn lemma_assoc_put_unique<V>(m: Seq<(Seq<u8>, V)>, k: Seq<u8>, v: V)
    requires
        unique_names(m),
    ensures
        unique_names(assoc_put(m, k, v)),
        forall|i: int| 0 <= i < assoc_put(m, k, v).len() ==> #[trigger] assoc_put(m, k, v)[i] == (k, v) || (
        exists|j: int| 0 <= j < m.len() && m[j] == assoc_put(m, k, v)[i]),
{
    lemma_first_index(m, key_is::<V>(k));
    let m2 = assoc_put(m, k, v);
    assert forall|i: int, j: int| 0 <= i < j < m2.len() implies #[trigger] m2[i].0 != #[trigger] m2[j].0 by {
        match first_index(m, key_is::<V>(k)) {
            Some(p) => {
                assert(m[p].0 == k);
                if i != p && j != p {
                    assert(m2[i] == m[i] && m2[j] == m[j]);
                } else if i == p {
                    assert(m2[j] == m[j]);
                } else {
                    assert(m2[i] == m[i]);
                }
            },
            None => {
                if j < m.len() {
                    assert(m2[i] == m[i] && m2[j] == m[j]);
                } else {
                    assert(m2[i] == m[i]);
                }
            },
        }
    }
    assert forall|i: int| 0 <= i < m2.len() implies #[trigger] m2[i] == (k, v) || (exists|j: int| 0 <= j < m.len() && m[j] == m2[i]) by {
        if m2[i] != (k, v) {
            assert(i < m.len() && m[i] == m2[i]);
        }
    }
}

proof fn lemma_assoc_del_gone<V>(m: Seq<(Seq<u8>, V)>, k: Seq<u8>)
    requires
        unique_names(m),
    ensures
        unique_names(assoc_del(m, k)),
        forall|i: int| 0 <= i < assoc_del(m, k).len() ==> (#[trigger] assoc_del(m, k)[i]).0 != k,
        forall|i: int| 0 <= i < assoc_del(m, k).len() ==> exists|j: int| 0 <= j < m.len() && m[j] == #[trigger] assoc_del(m, k)[i],
{
    lemma_first_index(m, key_is::<V>(k));
    let m2 = assoc_del(m, k);
    match first_index(m, key_is::<V>(k)) {
        Some(p) => {
            assert forall|l: int| 0 <= l < m2.len() implies #[trigger] m2[l] == if l < p { m[l] } else { m[l + 1] } by {}
            assert forall|i: int| 0 <= i < m2.len() implies (#[trigger] m2[i]).0 != k by {
                if i < p {
                    assert(m[i].0 != m[p].0);
                } else {
                    assert(m[p].0 != m[i + 1].0);
                }
            }
            assert forall|a: int, b: int| 0 <= a < b < m2.len() implies #[trigger] m2[a].0 != #[trigger] m2[b].0 by {
                let a1 = if a < p { a } else { a + 1 };
                let b1 = if b < p { b } else { b + 1 };
                assert(m2[a] == m[a1] && m2[b] == m[b1]);
            }
            assert forall|i: int| 0 <= i < m2.len() implies exists|j: int| 0 <= j < m.len() && m[j] == #[trigger] m2[i] by {
                let j = if i < p { i } else { i + 1 };
                assert(m[j] == m2[i]);
            }
        },
        None => {
            assert forall|i: int| 0 <= i < m2.len() implies exists|j: int| 0 <= j < m.len() && m[j] == #[trigger] m2[i] by {
                assert(m[i] == m2[i]);
            }
        },
    }
}

/// The state built from any list of properties stores each name once,
/// under that name.
pub proof fn lemma_state_of_wf(props: Seq<Named>, k: nat)
    ensures
        unique_names(state_of(props, k).by_name),
        keyed_by_name(state_of(props, k).by_name),
    decreases k,
{
    if k > 0 && k <= props.len() {
        let st = state_of(props, (k - 1) as nat);
        let p = props[k - 1];
        lemma_state_of_wf(props, (k - 1) as nat);
        lemma_assoc_put_unique(st.by_name, p.0, p);
        let m2 = assoc_put(st.by_name, p.0, p);
        assert forall|i: int| 0 <= i < m2.len() implies (#[trigger] m2[i]).0 == m2[i].1.0 by {
            if m2[i] != (p.0, p) {
                let j = choose|j: int| 0 <= j < st.by_name.len() && st.by_name[j] == m2[i];
                assert(st.by_name[j].0 == st.by_name[j].1.0);
            }
        }
    }
}

/// A property printed at one of its accessors is printed at no other
/// accessor, nor among the remaining properties.
pub proof fn lemma_property_printed_once(st: PropState, sel: Seq<u8>, sel2: Seq<u8>)
    requires
        unique_names(st.by_name),
        keyed_by_name(st.by_name),
    ensures
        take_for(st, sel).1 matches Some(q) ==> {
            &&& (take_for(take_for(st, sel).0, sel2).1 matches Some(p) ==> p.0 != q.0)
            &&& forall|i: int|
                0 <= i < assoc_values(take_for(st, sel).0.by_name).len() ==> (#[trigger] assoc_values(
                    take_for(st, sel).0.by_name,
                )[i]).0 != q.0
        },
        unique_names(take_for(st, sel).0.by_name),
        keyed_by_name(take_for(st, sel).0.by_name),
{
    match assoc_get(st.by_accessor, sel) {
        None => {},
        Some(name) => {
            let m = st.by_name;
            lemma_first_index(m, key_is::<Named>(name));
            lemma_assoc_del_gone(m, name);
            let m2 = assoc_del(m, name);
            assert forall|i: int| 0 <= i < m2.len() implies (#[trigger] m2[i]).0 == m2[i].1.0 by {
                let j = choose|j: int| 0 <= j < m.len() && m[j] == m2[i];
                assert(m[j].0 == m[j].1.0);
            }
            match assoc_get(m, name) {
                None => {},
                Some(q) => {
                    let i0 = first_index(m, key_is::<Named>(name))->0;
                    assert(q.0 == name) by {
                        assert(m[i0].0 == m[i0].1.0);
                    }
                    let st1 = take_for(st, sel).0;
                    assert(st1.by_name == m2);
                    match assoc_get(st1.by_accessor, sel2) {
                        None => {},
                        Some(name2) => {
                            lemma_first_index(m2, key_is::<Named>(name2));
                            match first_index(m2, key_is::<Named>(name2)) {
                                None => {},
                                Some(j) => {
                                    assert(m2[j].0 != name);
                                    assert(m2[j].0 == m2[j].1.0);
                                },
                            }
                        },
                    }
                },
            }
        },
    }
}

/// A method line: `+ ` or `- `, the declaration, `;`.
pub open spec fn method_line(nm: Naming, prefix: u8, m: Named) -> Seq<u8> {
    seq![prefix, 32u8] + method_text(nm, m.0, m.1) + ";\n".spec_bytes()
}

/// The lines of class methods.
pub open spec fn class_lines(nm: Naming, ms: Seq<Named>) -> Seq<u8>
    decreases ms.len(),
{
    if ms.len() == 0 {
        Seq::empty()
    } else {
        class_lines(nm, ms.drop_last()) + method_line(nm, 43, ms.last())
    }
}

/// The lines of instance methods: an accessor of a property not printed
/// yet prints the property instead (once); other accessors print nothing.
pub open spec fn instance_lines(nm: Naming, c: ControllerModel, st: PropState, ms: Seq<Named>) -> (Seq<u8>, PropState)
    decreases ms.len(),
{
    if ms.len() == 0 {
        (Seq::empty(), st)
    } else {
        let (t, st1) = instance_lines(nm, c, st, ms.drop_last());
        let m = ms.last();
        if assoc_get(st1.by_accessor, m.0) is Some {
            let (st2, p) = take_for(st1, m.0);
            (t + match p {
                Some(q) => property_text(nm, c, q.0, q.1),
                None => Seq::empty(),
            }, st2)
        } else {
            (t + method_line(nm, 45, m), st1)
        }
    }
}

/// The declarations of a list of properties.
pub open spec fn property_lines(nm: Naming, c: ControllerModel, ps: Seq<Named>) -> Seq<u8>
    decreases ps.len(),
{
    if ps.len() == 0 {
        Seq::empty()
    } else {
        property_lines(nm, c, ps.drop_last()) + property_text(nm, c, ps.last().0, ps.last().1)
    }
}

/// The values of an association list.
pub open spec fn assoc_values<V>(m: Seq<(Seq<u8>, V)>) -> Seq<V> {
    m.map_values(|p: (Seq<u8>, V)| p.1)
}

/// The entries, sorted by name when `sort` is set.
pub open spec fn in_order(ms: Seq<Named>, sort: bool) -> Seq<Named> {
    if sort {
        sorted_by_name(ms)
    } else {
        ms
    }
}

/// The optional methods after `@optional`, if there are any.
pub open spec fn optional_lines(
    nm: Naming,
    c: ControllerModel,
    st: PropState,
    ocm: Seq<Named>,
    oim: Seq<Named>,
    sort: bool,
) -> (Seq<u8>, PropState) {
    if ocm.len() > 0 || oim.len() > 0 {
        let (t, s) = instance_lines(nm, c, st, in_order(oim, sort));
        ("\n@optional\n".spec_bytes() + class_lines(nm, in_order(ocm, sort)) + t, s)
    } else {
        (Seq::empty(), st)
    }
}

/// The properties not printed at an accessor, by name, under a heading.
pub open spec fn remaining_lines(nm: Naming, c: ControllerModel, st: PropState) -> Seq<u8> {
    let rem = sorted_by_name(assoc_values(st.by_name));
    if rem.len() > 0 {
        "\n".spec_bytes() + "// Remaining properties\n".spec_bytes() + property_lines(nm, c, rem)
    } else {
        Seq::empty()
    }
}

/// The method and property lines: class methods, instance methods (with
/// properties at their accessors), the optional ones after `@optional`,
/// then the remaining properties by name.  Methods are sorted by selector
/// when `sort` is set.
#[verifier::opaque]
pub open spec fn methods_text(
    nm: Naming,
    c: ControllerModel,
    cm: Seq<Named>,
    im: Seq<Named>,
    ocm: Seq<Named>,
    oim: Seq<Named>,
    props: Seq<Named>,
    sort: bool,
) -> Seq<u8> {
    let st0 = state_of(props, props.len());
    let (t2, st1) = instance_lines(nm, c, st0, in_order(im, sort));
    let (t3, st2) = optional_lines(nm, c, st1, ocm, oim, sort);
    class_lines(nm, in_order(cm, sort)) + t2 + t3 + remaining_lines(nm, c, st2)
}

pub struct PropertyState {
    pub by_name: Vec<(Vec<u8>, Property)>,
    pub by_accessor: Vec<(Vec<u8>, Vec<u8>)>,
}

pub open spec fn named_props(v: Seq<(Vec<u8>, Property)>) -> Seq<(Seq<u8>, Named)> {
    v.map_values(|e: (Vec<u8>, Property)| (e.0@, (e.1.name@, e.1.attributes@)))
}

pub open spec fn accessors(v: Seq<(Vec<u8>, Vec<u8>)>) -> Seq<(Seq<u8>, Seq<u8>)> {
    v.map_values(|e: (Vec<u8>, Vec<u8>)| (e.0@, e.1@))
}

impl View for PropertyState {
    type V = PropState;

    open spec fn view(&self) -> PropState {
        PropState { by_name: named_props(self.by_name@), by_accessor: accessors(self.by_accessor@) }
    }
}

fn find_prop(v: &Vec<(Vec<u8>, Property)>, k: &[u8]) -> (r: Option<usize>)
    ensures
        match r {
            Some(i) => first_index(named_props(v@), key_is::<Named>(k@)) == Some(i as int),
            None => first_index(named_props(v@), key_is::<Named>(k@)) is None,
        },
{
    let ghost m = named_props(v@);
    let mut i: usize = 0;
    while i < v.len()
        invariant
            i <= v@.len(),
            m == named_props(v@),
            forall|j: int| 0 <= j < i ==> !key_is::<Named>(k@)(#[trigger] m[j]),
        decreases v@.len() - i,
    {
        if bytes_eq(v[i].0.as_slice(), k) {
            proof {
                lemma_first_index_at(m, key_is::<Named>(k@), i as int);
            }
            return Some(i);
        }
        i = i + 1;
    }
    proof {
        lemma_first_index_at(m, key_is::<Named>(k@), i as int);
    }
    None
}

fn find_accessor(v: &Vec<(Vec<u8>, Vec<u8>)>, k: &[u8]) -> (r: Option<usize>)
    ensures
        match r {
            Some(i) => first_index(accessors(v@), key_is::<Seq<u8>>(k@)) == Some(i as int),
            None => first_index(accessors(v@), key_is::<Seq<u8>>(k@)) is None,
        },
{
    let ghost m = accessors(v@);
    let mut i: usize = 0;
    while i < v.len()
        invariant
            i <= v@.len(),
            m == accessors(v@),
            forall|j: int| 0 <= j < i ==> !key_is::<Seq<u8>>(k@)(#[trigger] m[j]),
        decreases v@.len() - i,
    {
        if bytes_eq(v[i].0.as_slice(), k) {
            proof {
                lemma_first_index_at(m, key_is::<Seq<u8>>(k@), i as int);
            }
            return Some(i);
        }
        i = i + 1;
    }
    proof {
        lemma_first_index_at(m, key_is::<Seq<u8>>(k@), i as int);
    }
    None
}

fn put_accessor(v: &mut Vec<(Vec<u8>, Vec<u8>)>, k: Vec<u8>, name: Vec<u8>)
    ensures
        accessors(final(v)@) == assoc_put(accessors(old(v)@), k@, name@),
{
    let ghost kv = k@;
    let ghost nv = name@;
    match find_accessor(v, k.as_slice()) {
        Some(i) => {
            proof {
                lemma_first_index(accessors(v@), key_is::<Seq<u8>>(k@));
            }
            v.set(i, (k, name));
        },
        None => {
            v.push((k, name));
        },
    }
    assert(accessors(v@) =~= assoc_put(accessors(old(v)@), kv, nv));
}

impl PropertyState {
    /// See `state_of`.
    pub fn new(properties: &Vec<Property>) -> (st: PropertyState)
        ensures
            st@ == state_of(property_list(properties@), properties@.len()),
    {
        let ghost pl = property_list(properties@);
        let mut st = PropertyState { by_name: Vec::new(), by_accessor: Vec::new() };
        assert(st@.by_name =~= Seq::<(Seq<u8>, Named)>::empty());
        assert(st@.by_accessor =~= Seq::<(Seq<u8>, Seq<u8>)>::empty());
        let mut k: usize = 0;
        while k < properties.len()
            invariant
                k <= properties@.len(),
                pl == property_list(properties@),
                st@ == state_of(pl, k as nat),
            decreases properties@.len() - k,
        {
            let p = &properties[k];
            let info = parse_property(p);
            let ghost pm = (p.name@, p.attributes@);
            let ghost bn = st@.by_name;
            match find_prop(&st.by_name, p.name.as_slice()) {
                Some(i) => {
                    proof {
                        lemma_first_index(bn, key_is::<Named>(p.name@));
                    }
                    st.by_name.set(i, (to_vec(p.name.as_slice()), copy_property(p)));
                },
                None => {
                    st.by_name.push((to_vec(p.name.as_slice()), copy_property(p)));
                },
            }
            assert(st@.by_name =~= assoc_put(bn, p.name@, pm));
            put_accessor(&mut st.by_accessor, to_vec(info.getter.as_slice()), to_vec(p.name.as_slice()));
            if !info.readonly {
                put_accessor(&mut st.by_accessor, to_vec(info.setter.as_slice()), to_vec(p.name.as_slice()));
            }
            k = k + 1;
        }
        st
    }

    /// Is `selector` an accessor of a property?
    pub fn is_accessor(&self, selector: &[u8]) -> (r: bool)
        ensures
            r == assoc_get(self@.by_accessor, selector@) is Some,
    {
        find_accessor(&self.by_accessor, selector).is_some()
    }

    /// Take the property of an accessor out (see `take_for`).
    pub fn take_for_accessor(&mut self, selector: &[u8]) -> (r: Option<Property>)
        ensures
            (final(self)@, match r {
                Some(p) => Some((p.name@, p.attributes@)),
                None => None,
            }) == take_for(old(self)@, selector@),
    {
        let name = match find_accessor(&self.by_accessor, selector) {
            Some(i) => {
                proof {
                    lemma_first_index(accessors(self.by_accessor@), key_is::<Seq<u8>>(selector@));
                }
                to_vec(self.by_accessor[i].1.as_slice())
            },
            None => {
                return None;
            },
        };
        let ghost bn = self@.by_name;
        match find_prop(&self.by_name, name.as_slice()) {
            Some(i) => {
                proof {
                    lemma_first_index(bn, key_is::<Named>(name@));
                }
                let e = self.by_name.remove(i);
                assert(self@.by_name =~= assoc_del(bn, name@));
                Some(e.1)
            },
            None => None,
        }
    }

    /// The properties not printed yet, by name.
    pub fn remaining_sorted(&self) -> (r: Vec<Property>)
        ensures
            property_list(r@) == sorted_by_name(assoc_values(self@.by_name)),
    {
        let mut v: Vec<Property> = Vec::new();
        let mut i: usize = 0;
        while i < self.by_name.len()
            invariant
                i <= self.by_name@.len(),
                property_list(v@) == assoc_values(self@.by_name).subrange(0, i as int),
            decreases self.by_name@.len() - i,
        {
            let q = copy_property(&self.by_name[i].1);
            let ghost before = v@;
            v.push(q);
            proof {
                assert(property_list(v@) =~= property_list(before).push((q.name@, q.attributes@)));
                assert(assoc_values(self@.by_name).subrange(0, i + 1) =~= assoc_values(self@.by_name).subrange(0, i as int).push(assoc_values(self@.by_name)[i as int]));
            }
            i = i + 1;
        }
        assert(assoc_values(self@.by_name).subrange(0, i as int) =~= assoc_values(self@.by_name));
        sort_properties(&v)
    }
}


/// One method line; `prefix` is `+` or `-`.
pub fn emit_method(tc: &TypeController, out: &mut Vec<u8>, prefix: u8, m: &Method)
    ensures
        final(out)@ == old(out)@ + method_line(naming_of(tc), prefix, (m.name@, m.type_string@)),
{
    let ghost start = out@;
    out.push(prefix);
    out.push(32u8);
    let body = format_method(tc, m.name.as_slice(), m.type_string.as_slice());
    append(out, body.as_slice());
    append_str(out, ";\n");
    assert(out@ =~= start + method_line(naming_of(tc), prefix, (m.name@, m.type_string@)));
}

/// The methods, sorted by selector when `sort` is set.
fn ordered(ms: &Vec<Method>, sort: bool) -> (r: Vec<Method>)
    ensures
        method_list(r@) == in_order(method_list(ms@), sort),
{
    if sort {
        sort_methods(ms)
    } else {
        let mut v: Vec<Method> = Vec::new();
        let mut i: usize = 0;
        while i < ms.len()
            invariant
                i <= ms@.len(),
                method_list(v@) == method_list(ms@).subrange(0, i as int),
            decreases ms@.len() - i,
        {
            let q = copy_method(&ms[i]);
            let ghost before = v@;
            v.push(q);
            proof {
                assert(method_list(v@) =~= method_list(before).push((q.name@, q.type_string@)));
                assert(method_list(ms@).subrange(0, i + 1) =~= method_list(ms@).subrange(0, i as int).push(method_list(ms@)[i as int]));
            }
            i = i + 1;
        }
        assert(method_list(ms@).subrange(0, i as int) =~= method_list(ms@));
        v
    }
}

/// See `class_lines`.
fn emit_class_methods(tc: &TypeController, out: &mut Vec<u8>, ms: &Vec<Method>)
    ensures
        final(out)@ == old(out)@ + class_lines(naming_of(tc), method_list(ms@)),
{
    let ghost start = out@;
    let ghost ml = method_list(ms@);
    let mut i: usize = 0;
    while i < ms.len()
        invariant
            i <= ms@.len(),
            ml == method_list(ms@),
            out@ == start + class_lines(naming_of(tc), ml.subrange(0, i as int)),
        decreases ms@.len() - i,
    {
        emit_method(tc, out, 43u8, &ms[i]);
        proof {
            let pre = ml.subrange(0, i + 1);
            assert(pre.drop_last() =~= ml.subrange(0, i as int));
            assert(pre.last() == ml[i as int]);
        }
        i = i + 1;
    }
    assert(ml.subrange(0, i as int) =~= ml);
}

/// See `instance_lines`.
fn emit_instance_methods(tc: &TypeController, out: &mut Vec<u8>, state: &mut PropertyState, ms: &Vec<Method>)
    ensures
        (final(out)@.subrange(old(out)@.len() as int, final(out)@.len() as int), final(state)@)
            == instance_lines(naming_of(tc), tc@, old(state)@, method_list(ms@)),
        final(out)@.subrange(0, old(out)@.len() as int) == old(out)@,
        old(out)@.len() <= final(out)@.len(),
{
    let ghost start = out@;
    let ghost st0 = state@;
    let ghost ml = method_list(ms@);
    let ghost nm = naming_of(tc);
    let mut i: usize = 0;
    while i < ms.len()
        invariant
            i <= ms@.len(),
            ml == method_list(ms@),
            nm == naming_of(tc),
            start.len() <= out@.len(),
            out@.subrange(0, start.len() as int) == start,
            (out@.subrange(start.len() as int, out@.len() as int), state@)
                == instance_lines(nm, tc@, st0, ml.subrange(0, i as int)),
        decreases ms@.len() - i,
    {
        let ghost before = out@;
        let ghost pre = ml.subrange(0, i + 1);
        proof {
            assert(pre.drop_last() =~= ml.subrange(0, i as int));
            assert(pre.last() == ml[i as int]);
        }
        let m = &ms[i];
        if state.is_accessor(m.name.as_slice()) {
            match state.take_for_accessor(m.name.as_slice()) {
                Some(p) => {
                    let t = format_property(tc, &p);
                    append(out, t.as_slice());
                },
                None => {},
            }
        } else {
            emit_method(tc, out, 45u8, m);
        }
        assert(out@.subrange(start.len() as int, out@.len() as int)
            =~= before.subrange(start.len() as int, before.len() as int) + out@.subrange(before.len() as int, out@.len() as int));
        assert(out@.subrange(0, start.len() as int) =~= before.subrange(0, start.len() as int));
        i = i + 1;
    }
    assert(ml.subrange(0, i as int) =~= ml);
}

/// See `property_lines`.
fn emit_properties(tc: &TypeController, out: &mut Vec<u8>, ps: &Vec<Property>)
    ensures
        final(out)@ == old(out)@ + property_lines(naming_of(tc), tc@, property_list(ps@)),
{
    let ghost start = out@;
    let ghost pl = property_list(ps@);
    let mut i: usize = 0;
    while i < ps.len()
        invariant
            i <= ps@.len(),
            pl == property_list(ps@),
            out@ == start + property_lines(naming_of(tc), tc@, pl.subrange(0, i as int)),
        decreases ps@.len() - i,
    {
        let t = format_property(tc, &ps[i]);
        append(out, t.as_slice());
        proof {
            let pre = pl.subrange(0, i + 1);
            assert(pre.drop_last() =~= pl.subrange(0, i as int));
            assert(pre.last() == pl[i as int]);
        }
        i = i + 1;
    }
    assert(pl.subrange(0, i as int) =~= pl);
}


/// See `optional_lines`.
fn emit_optional(
    tc: &TypeController,
    out: &mut Vec<u8>,
    state: &mut PropertyState,
    optional_class: &Vec<Method>,
    optional_instance: &Vec<Method>,
    sort: bool,
)
    ensures
        (final(out)@.subrange(old(out)@.len() as int, final(out)@.len() as int), final(state)@)
            == optional_lines(naming_of(tc), tc@, old(state)@, method_list(optional_class@), method_list(optional_instance@), sort),
        final(out)@.subrange(0, old(out)@.len() as int) == old(out)@,
        old(out)@.len() <= final(out)@.len(),
{
    let ghost start = out@;
    if optional_class.len() > 0 || optional_instance.len() > 0 {
        append_str(out, "\n@optional\n");
        let ocm = ordered(optional_class, sort);
        emit_class_methods(tc, out, &ocm);
        let ghost mid = out@;
        let oim = ordered(optional_instance, sort);
        emit_instance_methods(tc, out, state, &oim);
        assert(out@ =~= mid + out@.subrange(mid.len() as int, out@.len() as int));
        assert(out@.subrange(start.len() as int, out@.len() as int)
            =~= mid.subrange(start.len() as int, mid.len() as int) + out@.subrange(mid.len() as int, out@.len() as int));
    } else {
        assert(out@.subrange(start.len() as int, out@.len() as int) =~= Seq::<u8>::empty());
    }
    assert(out@.subrange(0, start.len() as int) =~= start);
}

/// See `remaining_lines`.
fn emit_remaining(tc: &TypeController, out: &mut Vec<u8>, state: &PropertyState)
    ensures
        final(out)@ == old(out)@ + remaining_lines(naming_of(tc), tc@, state@),
{
    let ghost start = out@;
    let remaining = state.remaining_sorted();
    if remaining.len() > 0 {
        append_str(out, "\n");
        append_str(out, "// Remaining properties\n");
        emit_properties(tc, out, &remaining);
    }
    assert(out@ =~= start + remaining_lines(naming_of(tc), tc@, state@));
}

/// See `methods_text`.
#[verifier::spinoff_prover]
#[verifier::rlimit(40)]
pub fn visit_methods(
    tc: &TypeController,
    out: &mut Vec<u8>,
    class_methods: &Vec<Method>,
    instance_methods: &Vec<Method>,
    optional_class: &Vec<Method>,
    optional_instance: &Vec<Method>,
    properties: &Vec<Property>,
    opts: &Options,
)
    ensures
        final(out)@ == old(out)@ + methods_text(
            naming_of(tc),
            tc@,
            method_list(class_methods@),
            method_list(instance_methods@),
            method_list(optional_class@),
            method_list(optional_instance@),
            property_list(properties@),
            opts.sort_methods,
        ),
{
    let ghost start = out@;
    let ghost nm = naming_of(tc);
    let ghost c = tc@;
    let sort = opts.sort_methods;
    let mut state = PropertyState::new(properties);
    let ghost st0 = state@;
    let cm = ordered(class_methods, sort);
    emit_class_methods(tc, out, &cm);
    let ghost after1 = out@;
    let ghost t1 = class_lines(nm, in_order(method_list(class_methods@), sort));
    assert(after1 == start + t1);
    let im = ordered(instance_methods, sort);
    emit_instance_methods(tc, out, &mut state, &im);
    let ghost after2 = out@;
    let ghost r2 = instance_lines(nm, c, st0, in_order(method_list(instance_methods@), sort));
    assert(after2 =~= after1 + r2.0);
    assert(state@ == r2.1);
    emit_optional(tc, out, &mut state, optional_class, optional_instance, sort);
    let ghost after3 = out@;
    let ghost r3 = optional_lines(nm, c, r2.1, method_list(optional_class@), method_list(optional_instance@), sort);
    assert(after3 =~= after2 + r3.0);
    assert(state@ == r3.1);
    emit_remaining(tc, out, &state);
    assert(out@ == start + methods_text(
        nm,
        c,
        method_list(class_methods@),
        method_list(instance_methods@),
        method_list(optional_class@),
        method_list(optional_instance@),
        property_list(properties@),
        sort,
    )) by {
        reveal(methods_text);
        assert(out@ =~= start + t1 + r2.0 + r3.0 + remaining_lines(nm, c, r3.1));
    }
}

} // verus!
