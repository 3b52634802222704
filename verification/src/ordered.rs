//! Walking the ordered collections of the standard library in ascending order of their keys.

use std::collections::BTreeMap;
use std::collections::BTreeSet;
use vstd::prelude::*;
use vstd::std_specs::cmp::OrdSpec;
use vstd::std_specs::iter::IteratorSpec;

verus! {

/// Each number in `s` is smaller than the next.
pub open spec fn ascending(s: Seq<u64>) -> bool {
    forall|i: int, j: int| 0 <= i < j < s.len() ==> s[i] < s[j]
}

/// An ascending list holds nothing twice.
pub proof fn lemma_ascending_no_duplicates(s: Seq<u64>)
    requires
        ascending(s),
    ensures
        s.no_duplicates(),
{
    assert forall|i: int, j: int| 0 <= i < s.len() && 0 <= j < s.len() && i != j implies s[i]
        != s[j] by {
        if i < j {
            assert(s[i] < s[j]);
        } else {
            assert(s[j] < s[i]);
        }
    }
}

/// Two ascending lists of the same numbers are the same list.
pub proof fn lemma_ascending_unique(a: Seq<u64>, b: Seq<u64>)
    requires
        ascending(a),
        ascending(b),
        a.to_set() == b.to_set(),
    ensures
        a == b,
    decreases a.len(),
{
    lemma_ascending_no_duplicates(a);
    lemma_ascending_no_duplicates(b);
    a.unique_seq_to_set();
    b.unique_seq_to_set();
    if a.len() > 0 {
        let la = a.last();
        let lb = b.last();
        assert(a.to_set().contains(la));
        assert(b.to_set().contains(lb));
        let i = choose|i: int| 0 <= i < b.len() && b[i] == la;
        let j = choose|j: int| 0 <= j < a.len() && a[j] == lb;
        assert(la == lb) by {
            if i < b.len() - 1 {
                assert(b[i] < b[b.len() - 1]);
            }
            if j < a.len() - 1 {
                assert(a[j] < a[a.len() - 1]);
            }
        }
        let ra = a.drop_last();
        let rb = b.drop_last();
        assert forall|k: u64| ra.to_set().contains(k) <==> rb.to_set().contains(k) by {
            if ra.to_set().contains(k) {
                let p = choose|p: int| 0 <= p < ra.len() && ra[p] == k;
                assert(a[p] == k && a[p] < a[a.len() - 1]);
                assert(a.to_set().contains(k));
                let q = choose|q: int| 0 <= q < b.len() && b[q] == k;
                assert(rb[q] == k);
            }
            if rb.to_set().contains(k) {
                let p = choose|p: int| 0 <= p < rb.len() && rb[p] == k;
                assert(b[p] == k && b[p] < b[b.len() - 1]);
                assert(b.to_set().contains(k));
                let q = choose|q: int| 0 <= q < a.len() && a[q] == k;
                assert(ra[q] == k);
            }
        }
        assert(ra.to_set() =~= rb.to_set());
        lemma_ascending_unique(ra, rb);
        assert(a =~= ra.push(la));
        assert(b =~= rb.push(lb));
    } else {
        assert(b.len() == 0);
        assert(a =~= b);
    }
}

/// What `m` holds, in ascending order of the keys.
pub fn entries<V>(m: &BTreeMap<u64, V>) -> (out: Vec<(u64, &V)>)
    ensures
        ascending(out@.map_values(|e: (u64, &V)| e.0)),
        out@.map_values(|e: (u64, &V)| e.0).to_set() == m@.dom(),
        forall|i: int|
            0 <= i < out@.len() ==> m@.contains_key(#[trigger] out@[i].0) && m@[out@[i].0]
                == *out@[i].1,
{
    let mut out: Vec<(u64, &V)> = Vec::new();
    let iter = m.iter();
    let ghost all = iter.remaining();
    proof {
        vstd::std_specs::btree::axiom_spec_btree_map_iter(m);
        vstd::std_specs::btree::axiom_increasing_seq_meaning::<u64>(
            all.map_values(|kv: (&u64, &V)| *kv.0),
        );
    }
    for kv in it: iter
        invariant
            it.seq() == all,
            out@.len() == it.index(),
            forall|i: int|
                0 <= i < out@.len() ==> out@[i].0 == *all[i].0 && out@[i].1 == all[i].1,
    {
        out.push((*kv.0, kv.1));
    }
    proof {
        let keys = out@.map_values(|e: (u64, &V)| e.0);
        let ks = all.map_values(|kv: (&u64, &V)| *kv.0);
        assert(keys =~= ks);
        assert forall|i: int, j: int| 0 <= i < j < keys.len() implies keys[i] < keys[j] by {
            assert(ks[i].cmp_spec(&ks[j]) is Less);
        }
        assert forall|i: int| 0 <= i < out@.len() implies m@.contains_key(#[trigger] out@[i].0)
            && m@[out@[i].0] == *out@[i].1 by {
            assert(m@.contains_key(*all[i].0));
        }
        assert forall|k: u64| keys.to_set().contains(k) <==> m@.dom().contains(k) by {
            if keys.to_set().contains(k) {
                let i = choose|i: int| 0 <= i < keys.len() && keys[i] == k;
                assert(m@.contains_key(out@[i].0));
            }
            if m@.dom().contains(k) {
                assert(m@.contains_key(k));
                let e = (&k, &m@[k]);
                assert(all.contains(e));
                let i = choose|i: int| 0 <= i < all.len() && all[i] == e;
                assert(keys[i] == k);
            }
        }
        assert(keys.to_set() =~= m@.dom());
    }
    out
}

/// The members of `s`, each once.
pub fn members(s: &BTreeSet<u64>) -> (out: Vec<u64>)
    ensures
        out@.to_set() == s@,
        out@.no_duplicates(),
{
    let mut out: Vec<u64> = Vec::new();
    let iter = s.iter();
    let ghost all = iter.remaining();
    proof {
        vstd::std_specs::btree::axiom_spec_btree_keys_iter(s);
    }
    for k in it: iter
        invariant
            it.seq() == all,
            out@ == all.unref().take(it.index()),
    {
        out.push(*k);
        proof {
            assert(out@ =~= all.unref().take(it.index() + 1));
        }
    }
    proof {
        assert(out@ =~= all.unref());
        assert forall|i: int, j: int|
            0 <= i < out@.len() && 0 <= j < out@.len() && i != j implies out@[i] != out@[j] by {
            assert(all[i] != all[j]);
        }
    }
    out
}

} // verus!
