//! Listings of the entries of a map keyed by `u32`.

use vstd::prelude::*;
use vstd::std_specs::cmp::OrdSpec;
use vstd::std_specs::iter::IteratorSpec;

use std::collections::BTreeMap;

use crate::validation::Index;

verus! {

broadcast use vstd::std_specs::btree::group_btree_axioms;

/// `s` lists the entries of `m`, each key once, in increasing order of key.
pub open spec fn is_sorted_listing(s: Seq<(u32, Index)>, m: Map<u32, Index>) -> bool {
    &&& forall|i: int, j: int| 0 <= i < j < s.len() ==> s[i].0 < s[j].0
    &&& forall|i: int| 0 <= i < s.len() ==> #[trigger] m.contains_key(s[i].0) && m[s[i].0] == s[i].1
    &&& forall|k: u32| m.contains_key(k) ==> exists|i: int| 0 <= i < s.len() && #[trigger] s[i].0 == k
}

/// `s` lists the entries of `m`, each key once, in any order.
pub open spec fn is_listing(s: Seq<(u32, Index)>, m: Map<u32, Index>) -> bool {
    &&& forall|i: int, j: int| 0 <= i < s.len() && 0 <= j < s.len() && i != j ==> s[i].0 != s[j].0
    &&& forall|i: int| 0 <= i < s.len() ==> #[trigger] m.contains_key(s[i].0) && m[s[i].0] == s[i].1
    &&& forall|k: u32| m.contains_key(k) ==> exists|i: int| 0 <= i < s.len() && #[trigger] s[i].0 == k
}

/// The pairs that iterating a map yields, in order, list its entries by
/// increasing key.
pub(crate) proof fn lemma_btree_iter_sorted_listing(map: &BTreeMap<u32, Index>, iter: std::collections::btree_map::Iter<'_, u32, Index>)
    requires
        iter == vstd::std_specs::btree::spec_btree_map_iter(map),
        vstd::std_specs::btree::increasing_seq(iter.remaining().map_values(|kv: (&u32, &Index)| *kv.0)),
    ensures
        is_sorted_listing(iter.remaining().map_values(|p: (&u32, &Index)| (*p.0, *p.1)), map@),
{
    let v = iter.remaining();
    let all = v.map_values(|p: (&u32, &Index)| (*p.0, *p.1));
    let keys = v.map_values(|kv: (&u32, &Index)| *kv.0);
    assert(vstd::laws_cmp::obeys_cmp::<u32>());
    assert forall|i: int, j: int| 0 <= i < j < all.len() implies all[i].0 < all[j].0 by {
        assert(keys[i] == all[i].0 && keys[j] == all[j].0);
        assert(keys[i].cmp_spec(&keys[j]) is Less);
    }
    assert forall|k: u32| map@.contains_key(k) implies exists|i: int| 0 <= i < all.len() && #[trigger] all[i].0 == k by {
        assert(v.contains((&k, &map@[k])));
        let i = choose|i: int| 0 <= i < v.len() && v[i] == (&k, &map@[k]);
        assert(all[i].0 == k);
    }
}

/// `m` with the pairs of `s` inserted in order (a later pair replaces an
/// earlier one with the same key).
pub open spec fn insert_all(m: Map<u32, Index>, s: Seq<(u32, Index)>) -> Map<u32, Index>
    decreases s.len(),
{
    if s.len() == 0 {
        m
    } else {
        insert_all(m, s.drop_last()).insert(s.last().0, s.last().1)
    }
}

/// A sorted listing lists each key once.
pub proof fn lemma_sorted_listing_is_listing(s: Seq<(u32, Index)>, m: Map<u32, Index>)
    requires
        is_sorted_listing(s, m),
    ensures
        is_listing(s, m),
{
    assert forall|i: int, j: int| 0 <= i < s.len() && 0 <= j < s.len() && i != j implies s[i].0 != s[j].0 by {
        if i < j {
            assert(s[i].0 < s[j].0);
        } else {
            assert(s[j].0 < s[i].0);
        }
    }
}

/// Inserting the pairs of a listing of `m` into an empty map rebuilds `m`.
pub proof fn lemma_insert_listing(s: Seq<(u32, Index)>, m: Map<u32, Index>)
    requires
        is_listing(s, m),
    ensures
        insert_all(Map::empty(), s) == m,
    decreases s.len(),
{
    if s.len() == 0 {
        assert(m =~= Map::empty()) by {
            assert forall|k: u32| !m.contains_key(k) by {
                if m.contains_key(k) {
                    let i = choose|i: int| 0 <= i < s.len() && #[trigger] s[i].0 == k;
                }
            }
        }
    } else {
        let last = s.last();
        let rest = s.drop_last();
        let m2 = m.remove(last.0);
        assert(m.contains_key(s[s.len() - 1].0));
        assert forall|i: int| 0 <= i < rest.len() implies #[trigger] m2.contains_key(rest[i].0) && m2[rest[i].0] == rest[i].1 by {
            assert(rest[i] == s[i]);
            assert(m.contains_key(s[i].0));
            assert(s[i].0 != s[s.len() - 1].0);
        }
        assert forall|k: u32| m2.contains_key(k) implies exists|i: int| 0 <= i < rest.len() && #[trigger] rest[i].0 == k by {
            let i = choose|i: int| 0 <= i < s.len() && #[trigger] s[i].0 == k;
            assert(i != s.len() - 1);
            assert(rest[i].0 == k);
        }
        assert forall|i: int, j: int| 0 <= i < rest.len() && 0 <= j < rest.len() && i != j implies rest[i].0 != rest[j].0 by {
            assert(rest[i] == s[i] && rest[j] == s[j]);
        }
        lemma_insert_listing(rest, m2);
        assert(insert_all(Map::empty(), s) =~= m);
    }
}

/// Whether the pair key `a` comes before `b`: by first component, then by second.
pub open spec fn pair_key_lt(a: (u32, u32), b: (u32, u32)) -> bool {
    a.0 < b.0 || (a.0 == b.0 && a.1 < b.1)
}

/// `s` lists the entries of `m`, each key once, in increasing order of key.
pub open spec fn is_sorted_pair_listing(s: Seq<((u32, u32), Index)>, m: Map<(u32, u32), Index>) -> bool {
    &&& forall|i: int, j: int| 0 <= i < j < s.len() ==> pair_key_lt(s[i].0, s[j].0)
    &&& forall|i: int| 0 <= i < s.len() ==> #[trigger] m.contains_key(s[i].0) && m[s[i].0] == s[i].1
    &&& forall|k: (u32, u32)| m.contains_key(k) ==> exists|i: int| 0 <= i < s.len() && #[trigger] s[i].0 == k
}

/// The pairs that iterating a map with pair keys yields, in order, list its
/// entries by increasing key.
pub(crate) proof fn lemma_btree_pair_iter_sorted_listing(
    map: &BTreeMap<(u32, u32), Index>,
    iter: std::collections::btree_map::Iter<'_, (u32, u32), Index>,
)
    requires
        iter == vstd::std_specs::btree::spec_btree_map_iter(map),
        vstd::std_specs::btree::increasing_seq(iter.remaining().map_values(|kv: (&(u32, u32), &Index)| *kv.0)),
    ensures
        is_sorted_pair_listing(iter.remaining().map_values(|p: (&(u32, u32), &Index)| (*p.0, *p.1)), map@),
{
    let v = iter.remaining();
    let all = v.map_values(|p: (&(u32, u32), &Index)| (*p.0, *p.1));
    let keys = v.map_values(|kv: (&(u32, u32), &Index)| *kv.0);
    assert(vstd::laws_cmp::obeys_cmp::<(u32, u32)>());
    assert forall|i: int, j: int| 0 <= i < j < all.len() implies pair_key_lt(all[i].0, all[j].0) by {
        assert(keys[i] == all[i].0 && keys[j] == all[j].0);
        assert(keys[i].cmp_spec(&keys[j]) is Less);
        assert(keys[i].0.cmp_spec(&keys[j].0) is Less || (keys[i].0 == keys[j].0 && keys[i].1.cmp_spec(&keys[j].1) is Less));
    }
    assert forall|k: (u32, u32)| map@.contains_key(k) implies exists|i: int| 0 <= i < all.len() && #[trigger] all[i].0 == k by {
        assert(v.contains((&k, &map@[k])));
        let i = choose|i: int| 0 <= i < v.len() && v[i] == (&k, &map@[k]);
        assert(all[i].0 == k);
    }
}

} // verus!
