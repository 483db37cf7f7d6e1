//! The order in which a map keyed by block index hands out its blocks.
use vstd::laws_cmp::{group_laws_cmp, obeys_cmp};
use vstd::prelude::*;
use vstd::std_specs::btree::{
    axiom_increasing_seq_meaning, group_btree_axioms, increasing_seq, key_obeys_cmp_spec,
};
use vstd::std_specs::cmp::OrdSpec;

verus! {

/// Block indices are ordered as numbers are, which is what an ordered map
/// needs of its keys.
pub proof fn lemma_block_keys_ordered()
    ensures
        obeys_cmp::<u32>(),
        key_obeys_cmp_spec::<u32>(),
{
    broadcast use group_laws_cmp;
    broadcast use group_btree_axioms;

}

/// Keys that come out in increasing order ascend as numbers.
pub proof fn lemma_keys_ascend(keys: Seq<u32>)
    requires
        increasing_seq(keys),
    ensures
        forall|i: int, j: int| 0 <= i < j < keys.len() ==> keys[i] < keys[j],
{
    broadcast use group_laws_cmp;

    axiom_increasing_seq_meaning(keys);
    assert forall|i: int, j: int| 0 <= i < j < keys.len() implies keys[i] < keys[j] by {
        assert(keys[i].cmp_spec(&keys[j]) is Less);
    }
}

} // verus!
