//! Ascending key order of id-keyed maps.
use std::collections::{BTreeMap, BTreeSet};
use vstd::prelude::*;
use vstd::std_specs::cmp::OrdSpec;
use vstd::std_specs::iter::IteratorSpec;

verus! {

broadcast use vstd::std_specs::btree::group_btree_axioms;

/// Strictly increasing ids.
pub open spec fn ascending(s: Seq<u128>) -> bool {
    forall|i: int, j: int| 0 <= i < j < s.len() ==> s[i] < s[j]
}

/// The ids of `ids` in increasing order: the ascending sequence whose
/// elements are exactly `ids` (unique, see `lemma_ascending_unique`).
pub open spec fn ascending_of(ids: Set<u128>) -> Seq<u128> {
    choose|s: Seq<u128>| ascending(s) && s.to_set() == ids
}

proof fn lemma_ascending_of(ids: Set<u128>, s: Seq<u128>)
    requires
        ascending(s),
        s.to_set() == ids,
    ensures
        ascending_of(ids) == s,
{
    let c = ascending_of(ids);
    assert(ascending(c) && c.to_set() == ids);
    lemma_ascending_unique(c, s);
}

proof fn lemma_increasing_refs(ks: Seq<&u128>)
    requires
        vstd::std_specs::btree::increasing_seq(ks),
    ensures
        forall|i: int, j: int| 0 <= i < j < ks.len() ==> *ks[i] < *ks[j],
{
    broadcast use vstd::laws_cmp::group_laws_cmp;

    assert(vstd::laws_cmp::obeys_cmp::<&u128>());
    vstd::std_specs::btree::axiom_increasing_seq_meaning(ks);
    assert forall|i: int, j: int| 0 <= i < j < ks.len() implies *ks[i] < *ks[j] by {
        assert(OrdSpec::cmp_spec(&ks[i], &ks[j]) is Less);
    }
}

/// Two ascending sequences with the same elements are equal.
pub proof fn lemma_ascending_unique(a: Seq<u128>, b: Seq<u128>)
    requires
        ascending(a),
        ascending(b),
        a.to_set() == b.to_set(),
    ensures
        a == b,
    decreases a.len(),
{
    broadcast use vstd::seq_lib::group_seq_properties;

    if a.len() == 0 {
        if b.len() > 0 {
            assert(b.to_set().contains(b[0]));
            assert(!a.to_set().contains(b[0]));
        }
        assert(a =~= b);
    } else {
        assert(a.to_set().contains(a.last()));
        assert(b.len() > 0) by {
            if b.len() == 0 {
                assert(!b.to_set().contains(a.last()));
            }
        }
        assert(b.to_set().contains(b.last()));
        // the largest element of both is the same
        let ia = choose|i: int| 0 <= i < a.len() && a[i] == b.last();
        let ib = choose|i: int| 0 <= i < b.len() && b[i] == a.last();
        assert(a.contains(b.last()));
        assert(b.contains(a.last()));
        assert(a.last() == b.last()) by {
            if a.last() < b.last() {
                assert(a[ia] <= a.last());
                if ia < a.len() - 1 {
                    assert(a[ia] < a[a.len() - 1]);
                }
            } else if a.last() > b.last() {
                if ib < b.len() - 1 {
                    assert(b[ib] < b[b.len() - 1]);
                }
            }
        }
        let a2 = a.drop_last();
        let b2 = b.drop_last();
        assert forall|x: u128| a2.to_set().contains(x) implies b2.to_set().contains(x) by {
            assert(a2.contains(x));
            let k = choose|k: int| 0 <= k < a2.len() && a2[k] == x;
            assert(x < a.last());
            assert(a.to_set().contains(x));
            assert(b.to_set().contains(x));
            assert(b.contains(x));
            let q = choose|q: int| 0 <= q < b.len() && b[q] == x;
            if q == b.len() - 1 {
                assert(x == b.last());
            }
            assert(b2[q] == x);
        }
        assert forall|x: u128| b2.to_set().contains(x) implies a2.to_set().contains(x) by {
            assert(b2.contains(x));
            let k = choose|k: int| 0 <= k < b2.len() && b2[k] == x;
            assert(x < b.last());
            assert(b.to_set().contains(x));
            assert(a.to_set().contains(x));
            assert(a.contains(x));
            let q = choose|q: int| 0 <= q < a.len() && a[q] == x;
            if q == a.len() - 1 {
                assert(x == a.last());
            }
            assert(a2[q] == x);
        }
        assert(a2.to_set() =~= b2.to_set());
        lemma_ascending_unique(a2, b2);
        assert(a =~= b) by {
            assert(a == a2.push(a.last()));
            assert(b == b2.push(b.last()));
        }
    }
}

/// The keys of `m` in increasing order.
pub fn sorted_keys<V>(m: &BTreeMap<u128, V>) -> (out: Vec<u128>)
    ensures
        out@ == ascending_of(m@.dom()),
        ascending(out@),
        out@.to_set() == m@.dom(),
{
    let mut out: Vec<u128> = Vec::new();
    let keys = m.keys();
    let ghost ks = keys.remaining();
    for k in iter: keys
        invariant
            iter.seq() == ks,
            out@ == iter.seq().take(iter.index() as int).map_values(|k: &u128| *k),
    {
        out.push(*k);
    }
    proof {
        lemma_increasing_refs(ks);
        assert(out@ =~= ks.unref());
        lemma_ascending_of(m@.dom(), out@);
    }
    out
}

/// The elements of `s` in increasing order.
pub fn sorted_elements(s: &BTreeSet<u128>) -> (out: Vec<u128>)
    ensures
        out@ == ascending_of(s@),
        ascending(out@),
        out@.to_set() == s@,
{
    let mut out: Vec<u128> = Vec::new();
    let elements = s.iter();
    let ghost ks = elements.remaining();
    for k in iter: elements
        invariant
            iter.seq() == ks,
            out@ == iter.seq().take(iter.index() as int).map_values(|k: &u128| *k),
    {
        out.push(*k);
    }
    proof {
        lemma_increasing_refs(ks);
        assert(out@ =~= ks.unref());
        lemma_ascending_of(s@, out@);
    }
    out
}

} // verus!
