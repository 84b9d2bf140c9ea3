//! The order of integer keys, as the ordered map hands them out.
use vstd::prelude::*;
use vstd::std_specs::btree::{increasing_seq, axiom_increasing_seq_meaning, key_obeys_cmp_spec};
use vstd::laws_cmp::obeys_cmp;
use vstd::std_specs::cmp::OrdSpec;
use core::cmp::Ordering;

verus! {

/// How `x` compares with `y`.
spec fn order_of<K: Ord>(x: K, y: K) -> Ordering {
    x.cmp_spec(&y)
}

/// Keys that a map hands out in increasing order are ordered by `<`.
pub proof fn lemma_increasing_keys(keys: Seq<&i64>)
    requires
        increasing_seq(keys),
    ensures
        forall|a: int, b: int| 0 <= a < b < keys.len() ==> *keys[a] < *keys[b],
{
    broadcast use vstd::laws_cmp::group_laws_cmp;

    assert(obeys_cmp::<&i64>());
    axiom_increasing_seq_meaning(keys);
    assert forall|a: int, b: int| 0 <= a < b < keys.len() implies *keys[a] < *keys[b] by {
        assert(order_of::<&i64>(keys[a], keys[b]) is Less);
    }
}

/// Whether integer keys obey the order that the ordered map's specification
/// assumes of its keys.
pub open spec fn integer_keys_ordered() -> bool {
    &&& obeys_cmp::<i64>()
    &&& key_obeys_cmp_spec::<i64>()
}

/// Integer keys obey the order that the ordered map's specification assumes.
pub proof fn lemma_integer_keys_ordered()
    ensures
        integer_keys_ordered(),
{
    broadcast use vstd::laws_cmp::group_laws_cmp;

}

} // verus!
