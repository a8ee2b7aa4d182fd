//! Maps with integer keys, walked in ascending order.

use std::collections::BTreeMap;

use vstd::prelude::*;
use vstd::std_specs::cmp::OrdSpec;
use vstd::std_specs::iter::IteratorSpec;

use crate::seqs::{lemma_is_sorted_list, lists, sorted_list, strictly_sorted, total_order};

verus! {

broadcast use vstd::std_specs::btree::group_btree_axioms;

/// Whether one key comes before another.
pub open spec fn u64_lt() -> spec_fn(u64, u64) -> bool {
    |a: u64, b: u64| a < b
}

/// The keys of a map, in ascending order.
pub open spec fn keys_in_order<V>(map: Map<u64, V>) -> Seq<u64> {
    sorted_list(map.dom(), u64_lt())
}

/// The order of integers is total.
pub proof fn lemma_u64_lt_total()
    ensures
        total_order(u64_lt()),
{
    assert forall|a: u64, b: u64| a != b implies #[trigger] u64_lt()(a, b) || u64_lt()(b, a) by {}
}

/// Lists the keys of a map, in ascending order.
pub fn ascending_keys<V>(map: &BTreeMap<u64, V>) -> (r: Vec<u64>)
    ensures
        r@ == keys_in_order(map@),
        strictly_sorted(r@, u64_lt()),
        lists(r@, map@.dom()),
        r@.len() == map@.dom().len(),
{
    let mut ids: Vec<u64> = Vec::new();
    let ghost keys = map.keys().remaining();
    for id in iter: map.keys()
        invariant
            iter.seq() == keys,
            keys == map.keys().remaining(),
            ids@ =~= keys.unref().take(iter.index()),
    {
        ids.push(*id);
    }
    assert(ids@ =~= keys.unref());
    proof {
        broadcast use vstd::laws_cmp::group_laws_cmp;
        assert(vstd::laws_cmp::obeys_cmp::<&u64>());
        assert(vstd::std_specs::btree::increasing_seq(keys));
        assert(strictly_sorted(ids@, u64_lt())) by {
            assert forall|i: int, j: int| 0 <= i < j < ids@.len() implies u64_lt()(
                #[trigger] ids@[i],
                #[trigger] ids@[j],
            ) by {
                assert(OrdSpec::cmp_spec(&keys[i], &keys[j]) is Less);
            }
        }
        assert(lists(ids@, map@.dom())) by {
            assert(keys.unref().to_set() == map@.dom());
        }
        lemma_is_sorted_list(ids@, map@.dom(), u64_lt());
    }
    ids
}

} // verus!
